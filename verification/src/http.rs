//! An HTTP/1.1 REST key-value interface on the engine, with keep-alive:
//!
//! ```text
//! GET    /<key>        -> 200 <value> | 404
//! PUT    /<key>  body  -> 200 OK            (idempotent set)
//! POST   /incr/<key>   -> 200 <new int>    (increment; ?by=N supported)
//! DELETE /<key>        -> 200 <count>
//! ```
//!
//! The connection reads the request line, the headers and the body; this
//! module parses the lines, routes a request to one op and renders the
//! response.

use vstd::prelude::*;
use vstd::utf8::*;
use vstd::string::*;
use crate::text::{
    to_lower, lower_bytes, bytes_eq, lossy_utf8, lossy_string, chars_of, split_ws, strs_view, ws_tokens, find_char,
    find_from, trim_end_ws, parse_i64_chars, str_parse_i64, dec_chars, lemma_dec_chars, lemma_find_char_at,
    lemma_find_char_none, is_digit_char, trim_end_str, trim_ws, trim_str, parse_usize_chars, str_parse_usize, decimal, push_decimal,
};
use crate::state::{Op, OpSpec, KindSpec, Output, OutputSpec, KvStore, key_bytes, str_bytes};
use crate::engine::{Meter, Engine, Delivery, step_accepted, high_water};
use crate::server::{KvModel, run_cmd, delivered, out_of, deliver_step, lemma_delivered_empty, lemma_run_cmd_len, lemma_run_cmd_one};
use crate::memcache::{lit, push_crlf, push_decimal_len};
use crate::resp::crlf;
use crate::wire::push_slice;

verus! {

broadcast use vstd::utf8::group_utf8_lib;

/// The method and path of a request line: its first two words.
pub open spec fn http_request_line(raw: Seq<u8>) -> Option<(Seq<char>, Seq<char>)> {
    let t = ws_tokens(lossy_utf8(raw));
    if t.len() >= 2 { Some((t[0], t[1])) } else { None }
}

/// One header line read: the end of the headers, or the `Content-Length`
/// and keep-alive settings after it.
pub enum HeaderStep {
    End,
    Next { content_len: usize, keep_alive: bool },
}

/// What a header line does to the settings: a blank line ends the headers;
/// `Content-Length` (any case) sets the body length (0 when not a number);
/// `Connection` keeps the connection alive unless it says `close` (any case).
pub open spec fn http_header(raw: Seq<u8>, cl: usize, ka: bool) -> HeaderStep {
    let t = trim_end_ws(lossy_utf8(raw));
    if t.len() == 0 {
        HeaderStep::End
    } else {
        match find_char(t, ':') {
            None => HeaderStep::Next { content_len: cl, keep_alive: ka },
            Some(i) => {
                let k = lower_bytes(key_bytes(trim_ws(t.take(i))));
                let v = trim_ws(t.skip(i + 1));
                if k == lit("content-length"@) {
                    HeaderStep::Next {
                        content_len: match parse_usize_chars(v) {
                            Some(n) => n,
                            None => 0,
                        },
                        keep_alive: ka,
                    }
                } else if k == lit("connection"@) {
                    HeaderStep::Next { content_len: cl, keep_alive: !(lower_bytes(key_bytes(v)) == lit("close"@)) }
                } else {
                    HeaderStep::Next { content_len: cl, keep_alive: ka }
                }
            },
        }
    }
}

/// The path before any `?`.
pub open spec fn before_query(p: Seq<char>) -> Seq<char> {
    match find_char(p, '?') {
        Some(i) => p.take(i),
        None => p,
    }
}

/// The query after the first `?`, empty when there is none.
pub open spec fn query_of(p: Seq<char>) -> Seq<char> {
    match find_char(p, '?') {
        Some(i) => p.skip(i + 1),
        None => Seq::empty(),
    }
}

/// A query parameter named `by`: it starts with `by=`.
pub open spec fn is_by_param(seg: Seq<char>) -> bool {
    seg.len() >= 3 && seg[0] == 'b' && seg[1] == 'y' && seg[2] == '='
}

/// The amount a `by` parameter gives: its value as an `i64`, 1 when the
/// value is not a number.
pub open spec fn by_amount(seg: Seq<char>) -> i64 {
    match parse_i64_chars(seg.skip(3)) {
        Some(n) => n,
        None => 1,
    }
}

/// The increment a query asks for: the first `&`-separated parameter named
/// `by` decides it; with no such parameter it is 1.
pub open spec fn query_by(q: Seq<char>) -> i64
    decreases q.len(),
{
    match find_char(q, '&') {
        Some(j) => {
            let seg = q.take(j);
            if is_by_param(seg) {
                by_amount(seg)
            } else {
                // `find_char` gives a position inside `q`; the bound shows the
                // recursion shrinks.
                if 0 <= j < q.len() { query_by(q.skip(j + 1)) } else { 1 }
            }
        },
        None => if is_by_param(q) { by_amount(q) } else { 1 },
    }
}

/// The path without its leading slashes.
pub open spec fn strip_slashes(p: Seq<char>) -> Seq<char>
    decreases p.len(),
{
    if p.len() > 0 && p[0] == '/' {
        strip_slashes(p.drop_first())
    } else {
        p
    }
}

pub open spec fn is_incr_path(p: Seq<char>) -> bool {
    p.len() >= 6 && p.take(6) == "/incr/"@
}

pub open spec fn method_is(m: Seq<char>, w: Seq<char>) -> bool {
    key_bytes(m) == key_bytes(w)
}

/// The op a request routes to: a read for `GET`, a write of the body for
/// `PUT` (and `POST` off `/incr/`), an increment of the key
/// by the query's `by` amount (1 by default) for `POST /incr/<key>`,
/// a delete for `DELETE`; none for other methods.
pub open spec fn route_op(method: Seq<char>, path: Seq<char>, body: Seq<u8>, client: u32, seq: u64) -> Option<OpSpec> {
    let p = before_query(path);
    if method_is(method, "GET"@) {
        Some(OpSpec { client, seq, kind: KindSpec::Get(strip_slashes(p)) })
    } else if (method_is(method, "PUT"@) || method_is(method, "POST"@)) && !is_incr_path(p) {
        Some(OpSpec { client, seq, kind: KindSpec::Put(strip_slashes(p), body) })
    } else if method_is(method, "POST"@) {
        Some(OpSpec { client, seq, kind: KindSpec::Incr(p.skip(6), query_by(query_of(path))) })
    } else if method_is(method, "DELETE"@) {
        Some(OpSpec { client, seq, kind: KindSpec::Del(strip_slashes(p)) })
    } else {
        None
    }
}

pub open spec fn route_ops(method: Seq<char>, path: Seq<char>, body: Seq<u8>, client: u32, seq: u64) -> Seq<OpSpec> {
    match route_op(method, path, body, client, seq) {
        Some(op) => seq![op],
        None => Seq::empty(),
    }
}

/// The status and payload answering a request, from its op's output.
pub open spec fn route_response(method: Seq<char>, path: Seq<char>, outs: Seq<Option<OutputSpec>>) -> (u16, Seq<u8>) {
    let p = before_query(path);
    if method_is(method, "GET"@) {
        match out_of(outs[0]) {
            OutputSpec::Bytes(Some(v)) => (200, v),
            _ => (404, lit("not found"@)),
        }
    } else if (method_is(method, "PUT"@) || method_is(method, "POST"@)) && !is_incr_path(p) {
        (200, lit("OK"@))
    } else if method_is(method, "POST"@) {
        match out_of(outs[0]) {
            OutputSpec::Value(Some(n)) => (200, decimal(n as int)),
            _ => (503, lit("unavailable"@)),
        }
    } else if method_is(method, "DELETE"@) {
        match out_of(outs[0]) {
            OutputSpec::Value(Some(n)) => (200, decimal(n as int)),
            _ => (200, lit("0"@)),
        }
    } else {
        (405, lit("method not allowed"@))
    }
}

/// The engine can take the request's op (a `POST /incr/` does not overflow).
pub open spec fn route_accepted(m0: KvModel, method: Seq<char>, path: Seq<char>, client: u32, seq: u64) -> bool {
    match route_op(method, path, Seq::empty(), client, seq) {
        Some(op) => step_accepted::<KvStore>(m0, op),
        None => true,
    }
}

/// The reason phrase of a status.
pub open spec fn reason(status: u16) -> Seq<char> {
    if status == 200 {
        "OK"@
    } else if status == 404 {
        "Not Found"@
    } else if status == 405 {
        "Method Not Allowed"@
    } else if status == 503 {
        "Service Unavailable"@
    } else {
        "OK"@
    }
}

/// The bytes of a response: status line, length, type and connection
/// headers, a blank line, the body.
pub open spec fn response_bytes(status: u16, body: Seq<u8>, keep_alive: bool) -> Seq<u8> {
    lit("HTTP/1.1 "@) + decimal(status as int) + lit(" "@) + key_bytes(reason(status)) + crlf() + lit("Content-Length: "@)
        + decimal(body.len() as int) + crlf() + lit("Content-Type: application/octet-stream\r\n"@) + lit("Connection: "@)
        + (if keep_alive { lit("keep-alive"@) } else { lit("close"@) }) + crlf() + crlf() + body
}

/// Distinct method words are different methods.
proof fn lemma_methods_differ()
    ensures
        !method_is("PUT"@, "GET"@),
        method_is("PUT"@, "PUT"@),
        method_is("GET"@, "GET"@),
{
    reveal_strlit("PUT");
    reveal_strlit("GET");
    assert(decode_utf8(key_bytes("PUT"@)) == "PUT"@);
    assert(decode_utf8(key_bytes("GET"@)) == "GET"@);
    assert("PUT"@[0] != "GET"@[0]);
}

/// A stored body reads back: after a `PUT` of a body to a path (off
/// `/incr/`), a `GET` of that path answers `200` with the body.
pub proof fn lemma_put_then_get(
    m0: KvModel,
    path: Seq<char>,
    body: Seq<u8>,
    client: u32,
    s1: u64,
    s2: u64,
    c0: u64,
    g0: u64,
    c1: u64,
    g1: u64,
)
    requires
        !is_incr_path(before_query(path)),
        s1 > high_water(m0.applied, client),
        s2 > s1,
    ensures
        ({
            let ops1 = route_ops("PUT"@, path, body, client, s1);
            let m1 = run_cmd(m0, ops1, c0, g0).0.last();
            let ops2 = route_ops("GET"@, path, Seq::empty(), client, s2);
            &&& route_response("PUT"@, path, run_cmd(m0, ops1, c0, g0).1) == (200u16, lit("OK"@))
            &&& route_response("GET"@, path, run_cmd(m1, ops2, c1, g1).1) == (200u16, body)
        }),
{
    lemma_methods_differ();
    let p = before_query(path);
    let k = strip_slashes(p);
    let put = OpSpec { client, seq: s1, kind: KindSpec::Put(k, body) };
    let ops1 = route_ops("PUT"@, path, body, client, s1);
    assert(ops1 == seq![put]);
    lemma_run_cmd_one(m0, ops1, c0, g0);
    let m1 = run_cmd(m0, ops1, c0, g0).0.last();
    assert(m1.state == m0.state.insert(key_bytes(k), body));
    assert(high_water(m1.applied, client) == s1);
    let get = OpSpec { client, seq: s2, kind: KindSpec::Get(k) };
    let ops2 = route_ops("GET"@, path, Seq::empty(), client, s2);
    assert(ops2 == seq![get]);
    lemma_run_cmd_one(m1, ops2, c1, g1);
    assert(run_cmd(m1, ops2, c1, g1).1[0] == Some(OutputSpec::Bytes(Some(body))));
}

/// `POST /incr/<key>?by=<N>` increments the key by `N`, for every key
/// without a `?` and every `i64` amount written in decimal.
pub proof fn lemma_incr_by(key: Seq<char>, n: i64, body: Seq<u8>, client: u32, seq: u64)
    requires
        forall|i: int| 0 <= i < key.len() ==> key[i] != '?',
    ensures
        route_op("POST"@, "/incr/"@ + key + "?by="@ + dec_chars(n as int), body, client, seq) == Some(
            OpSpec { client, seq, kind: KindSpec::Incr(key, n) },
        ),
{
    reveal_strlit("POST");
    reveal_strlit("PUT");
    reveal_strlit("GET");
    reveal_strlit("/incr/");
    reveal_strlit("?by=");
    assert(decode_utf8(key_bytes("POST"@)) == "POST"@);
    assert(decode_utf8(key_bytes("GET"@)) == "GET"@);
    assert(decode_utf8(key_bytes("PUT"@)) == "PUT"@);
    assert(!method_is("POST"@, "GET"@)) by {
        assert("POST"@.len() != "GET"@.len());
    }
    assert(method_is("POST"@, "POST"@));
    let d = dec_chars(n as int);
    lemma_dec_chars(n);
    let a = "/incr/"@ + key;
    let q = seq!['b', 'y', '='] + d;
    let path = "/incr/"@ + key + "?by="@ + d;
    assert("?by="@ =~= seq!['?', 'b', 'y', '=']);
    assert(path =~= a + seq!['?'] + q);
    assert forall|j: int| 0 <= j < a.len() implies path[j] != '?' by {
        assert(path[j] == a[j]);
        if j >= 6 {
            assert(a[j] == key[j - 6]);
        }
    }
    lemma_find_char_at(path, '?', a.len() as int);
    assert(before_query(path) =~= a);
    assert(a.take(6) =~= "/incr/"@);
    assert(is_incr_path(a));
    assert(a.skip(6) =~= key);
    assert(query_of(path) =~= q);
    assert forall|j: int| 0 <= j < q.len() implies q[j] != '&' by {
        if j >= 3 {
            assert(q[j] == d[j - 3]);
        }
    }
    lemma_find_char_none(q, '&');
    assert(is_by_param(q));
    assert(q.skip(3) =~= d);
    assert(query_by(q) == n);
}

/// Off `/incr/`, `POST` is `PUT`: for every path, body, client and seq the
/// two methods route to the same op (a write of the body under the path's
/// key) and answer alike.
pub proof fn lemma_post_is_put(
    path: Seq<char>,
    body: Seq<u8>,
    client: u32,
    seq: u64,
    outs: Seq<Option<OutputSpec>>,
)
    requires
        !is_incr_path(before_query(path)),
    ensures
        route_op("POST"@, path, body, client, seq) == route_op("PUT"@, path, body, client, seq),
        route_op("POST"@, path, body, client, seq) == Some(
            OpSpec { client, seq, kind: KindSpec::Put(strip_slashes(before_query(path)), body) },
        ),
        route_response("POST"@, path, outs) == route_response("PUT"@, path, outs),
        route_response("POST"@, path, outs) == (200u16, lit("OK"@)),
{
    reveal_strlit("POST");
    reveal_strlit("PUT");
    reveal_strlit("GET");
    assert(decode_utf8(key_bytes("POST"@)) == "POST"@);
    assert(decode_utf8(key_bytes("GET"@)) == "GET"@);
    assert(decode_utf8(key_bytes("PUT"@)) == "PUT"@);
    assert(!method_is("POST"@, "GET"@)) by {
        assert("POST"@.len() != "GET"@.len());
    }
    assert(!method_is("PUT"@, "GET"@)) by {
        assert("PUT"@[0] != "GET"@[0]);
    }
    assert(method_is("POST"@, "POST"@));
    assert(method_is("PUT"@, "PUT"@));
}

/// A deleted key is gone: after a `PUT` to a path (off `/incr/`), a
/// `DELETE` of it answers `200` with the count 1, a second `DELETE` answers
/// `200` with the count 0, and a
/// `GET` answers `404`, each a new request of its client.
pub proof fn lemma_put_then_delete(
    m0: KvModel,
    path: Seq<char>,
    body: Seq<u8>,
    client: u32,
    s1: u64,
    c: u64,
    g: u64,
)
    requires
        !is_incr_path(before_query(path)),
        s1 > high_water(m0.applied, client),
        s1 + 3 <= u64::MAX,
    ensures
        ({
            let ops1 = route_ops("PUT"@, path, body, client, s1);
            let m1 = run_cmd(m0, ops1, c, g).0.last();
            let ops2 = route_ops("DELETE"@, path, Seq::empty(), client, (s1 + 1) as u64);
            let m2 = run_cmd(m1, ops2, c, g).0.last();
            let ops3 = route_ops("DELETE"@, path, Seq::empty(), client, (s1 + 2) as u64);
            let m3 = run_cmd(m2, ops3, c, g).0.last();
            let ops4 = route_ops("GET"@, path, Seq::empty(), client, (s1 + 3) as u64);
            &&& route_response("DELETE"@, path, run_cmd(m1, ops2, c, g).1) == (200u16, decimal(1))
            &&& route_response("DELETE"@, path, run_cmd(m2, ops3, c, g).1) == (200u16, decimal(0))
            &&& route_response("GET"@, path, run_cmd(m3, ops4, c, g).1) == (404u16, lit("not found"@))
        }),
{
    reveal_strlit("PUT");
    reveal_strlit("GET");
    reveal_strlit("POST");
    reveal_strlit("DELETE");
    assert(decode_utf8(key_bytes("PUT"@)) == "PUT"@);
    assert(decode_utf8(key_bytes("GET"@)) == "GET"@);
    assert(decode_utf8(key_bytes("POST"@)) == "POST"@);
    assert(decode_utf8(key_bytes("DELETE"@)) == "DELETE"@);
    assert(!method_is("PUT"@, "GET"@)) by {
        assert("PUT"@[0] != "GET"@[0]);
    }
    assert(!method_is("DELETE"@, "GET"@) && !method_is("DELETE"@, "PUT"@) && !method_is("DELETE"@, "POST"@)) by {
        assert("DELETE"@.len() != "GET"@.len() && "DELETE"@.len() != "PUT"@.len() && "DELETE"@.len() != "POST"@.len());
    }
    assert(method_is("PUT"@, "PUT"@) && method_is("DELETE"@, "DELETE"@) && method_is("GET"@, "GET"@));
    let k = strip_slashes(before_query(path));
    let kb = key_bytes(k);
    let ops1 = route_ops("PUT"@, path, body, client, s1);
    assert(ops1 == seq![OpSpec { client, seq: s1, kind: KindSpec::Put(k, body) }]);
    lemma_run_cmd_one(m0, ops1, c, g);
    let m1 = run_cmd(m0, ops1, c, g).0.last();
    assert(m1.state == m0.state.insert(kb, body));
    let ops2 = route_ops("DELETE"@, path, Seq::empty(), client, (s1 + 1) as u64);
    assert(ops2 == seq![OpSpec { client, seq: (s1 + 1) as u64, kind: KindSpec::Del(k) }]);
    lemma_run_cmd_one(m1, ops2, c, g);
    let m2 = run_cmd(m1, ops2, c, g).0.last();
    assert(m2.state == m1.state.remove(kb));
    let ops3 = route_ops("DELETE"@, path, Seq::empty(), client, (s1 + 2) as u64);
    lemma_run_cmd_one(m2, ops3, c, g);
    let m3 = run_cmd(m2, ops3, c, g).0.last();
    let ops4 = route_ops("GET"@, path, Seq::empty(), client, (s1 + 3) as u64);
    lemma_run_cmd_one(m3, ops4, c, g);
}

/// The path before any `?`.
fn path_before_query(path: &str) -> (r: String)
    ensures
        r@ == before_query(path@),
{
    let cs = chars_of(path);
    assert(cs@.skip(0) =~= cs@);
    match find_from(&cs, '?', 0) {
        Some(i) => {
            let r = path.substring_char(0, i).to_owned();
            assert(r@ =~= path@.take(i as int));
            r
        },
        None => path.to_owned(),
    }
}

/// The query after the first `?` (`query_of`).
fn path_query(path: &str) -> (r: String)
    ensures
        r@ == query_of(path@),
{
    let cs = chars_of(path);
    assert(cs@.skip(0) =~= cs@);
    match find_from(&cs, '?', 0) {
        Some(i) => {
            assert(i < cs.len());
            let r = path.substring_char(i + 1, cs.len()).to_owned();
            assert(r@ =~= path@.skip(i + 1));
            r
        },
        None => String::new(),
    }
}

/// The increment a query asks for (`query_by`).
fn query_amount(q: &str) -> (r: i64)
    ensures
        r == query_by(q@),
{
    let cs = chars_of(q);
    let mut start: usize = 0;
    assert(cs@.skip(0) =~= cs@);
    while start <= cs.len()
        invariant
            start <= cs@.len(),
            cs@ == q@,
            query_by(cs@.skip(start as int)) == query_by(q@),
        decreases cs@.len() + 1 - start,
    {
        let ghost t = cs@.skip(start as int);
        let end = match find_from(&cs, '&', start) {
            Some(j) => j,
            None => cs.len(),
        };
        let seg = q.substring_char(start, end);
        assert(seg@ =~= cs@.subrange(start as int, end as int));
        let segc = chars_of(seg);
        let by = segc.len() >= 3 && segc[0] == 'b' && segc[1] == 'y' && segc[2] == '=';
        proof {
            if find_char(t, '&') is Some {
                assert(seg@ =~= t.take(end - start));
            } else {
                assert(seg@ =~= t);
            }
        }
        if by {
            let v = seg.substring_char(3, segc.len());
            assert(v@ =~= seg@.skip(3));
            return match str_parse_i64(v) {
                Some(n) => n,
                None => 1,
            };
        }
        if end == cs.len() {
            return 1;
        }
        proof {
            assert(t.skip(end - start + 1) =~= cs@.skip(end + 1));
        }
        start = end + 1;
    }
    1
}

/// The path without its leading slashes.
fn path_key(p: &str) -> (r: String)
    ensures
        r@ == strip_slashes(p@),
{
    let cs = chars_of(p);
    let mut k: usize = 0;
    assert(cs@.skip(0) =~= cs@);
    while k < cs.len() && cs[k] == '/'
        invariant
            k <= cs@.len(),
            cs@ == p@,
            strip_slashes(cs@.skip(k as int)) == strip_slashes(p@),
        decreases cs@.len() - k,
    {
        assert(cs@.skip(k as int).drop_first() =~= cs@.skip(k + 1));
        k = k + 1;
    }
    let r = p.substring_char(k, cs.len()).to_owned();
    assert(r@ =~= cs@.skip(k as int));
    r
}

/// Whether the path starts with `/incr/`.
fn incr_path(p: &str) -> (r: bool)
    ensures
        r == is_incr_path(p@),
{
    let cs = chars_of(p);
    proof {
        reveal_strlit("/incr/");
    }
    if cs.len() < 6 {
        return false;
    }
    let r = cs[0] == '/' && cs[1] == 'i' && cs[2] == 'n' && cs[3] == 'c' && cs[4] == 'r' && cs[5] == '/';
    proof {
        let w = seq!['/', 'i', 'n', 'c', 'r', '/'];
        assert("/incr/"@ =~= w);
        if r {
            assert(cs@.take(6) =~= w);
        } else if cs@.take(6) == w {
            assert(cs@.take(6)[0] == w[0] && cs@.take(6)[1] == w[1] && cs@.take(6)[2] == w[2]);
            assert(cs@.take(6)[3] == w[3] && cs@.take(6)[4] == w[4] && cs@.take(6)[5] == w[5]);
            assert(false);
        }
    }
    r
}

fn method_eq(m: &str, w: &str) -> (r: bool)
    ensures
        r == method_is(m@, w@),
{
    bytes_eq(str_bytes(m), str_bytes(w))
}

/// The HTTP request-line, header and routing logic.
pub struct HttpProtocol;

impl HttpProtocol {
    /// The method and path of a raw request line.
    pub fn request_line(raw: &[u8]) -> (r: Option<(String, String)>)
        ensures
            match r {
                Some((m, p)) => http_request_line(raw@) == Some((m@, p@)),
                None => http_request_line(raw@) is None,
            },
    {
        let line = lossy_string(raw);
        let mut t = split_ws(line.as_str());
        let ghost ts = strs_view(t@);
        if t.len() < 2 {
            return None;
        }
        assert(ts[0] == t@[0]@ && ts[1] == t@[1]@);
        let p = t.remove(1);
        let m = t.remove(0);
        Some((m, p))
    }

    /// Apply one raw header line to the `Content-Length` and keep-alive settings.
    #[verifier::rlimit(40)]
    pub fn header(raw: &[u8], content_len: usize, keep_alive: bool) -> (r: HeaderStep)
        ensures
            r == http_header(raw@, content_len, keep_alive),
    {
        let line = lossy_string(raw);
        let t = trim_end_str(line.as_str());
        let cs = chars_of(t.as_str());
        if cs.len() == 0 {
            return HeaderStep::End;
        }
        assert(cs@.skip(0) =~= cs@);
        match find_from(&cs, ':', 0) {
            None => HeaderStep::Next { content_len, keep_alive },
            Some(i) => {
                let ts = t.as_str();
                let kt = trim_str(ts.substring_char(0, i));
                let k = kt.as_str();
                let vt = trim_str(ts.substring_char(i + 1, cs.len()));
                let v = vt.as_str();
                assert(ts@.subrange(0, i as int) =~= t@.take(i as int));
                assert(ts@.subrange(i + 1, cs@.len() as int) =~= t@.skip(i + 1));
                let kl = to_lower(str_bytes(k));
                if bytes_eq(kl.as_slice(), str_bytes("content-length")) {
                    let n = match str_parse_usize(v) {
                        Some(n) => n,
                        None => 0,
                    };
                    HeaderStep::Next { content_len: n, keep_alive }
                } else if bytes_eq(kl.as_slice(), str_bytes("connection")) {
                    let vl = to_lower(str_bytes(v));
                    let close = bytes_eq(vl.as_slice(), str_bytes("close"));
                    HeaderStep::Next { content_len, keep_alive: !close }
                } else {
                    HeaderStep::Next { content_len, keep_alive }
                }
            },
        }
    }

    /// The op a request routes to (`route_op`).
    pub fn route_op(method: &str, path: &str, body: &[u8], client: u32, seq: u64) -> (r: Option<Op>)
        ensures
            match r {
                Some(op) => route_op(method@, path@, body@, client, seq) == Some(op@),
                None => route_op(method@, path@, body@, client, seq) is None,
            },
    {
        let p = path_before_query(path);
        if method_eq(method, "GET") {
            let k = path_key(p.as_str());
            return Some(Op::get(client, seq, k.as_str()));
        }
        let incr = incr_path(p.as_str());
        if (method_eq(method, "PUT") || method_eq(method, "POST")) && !incr {
            let k = path_key(p.as_str());
            return Some(Op::set_bytes(client, seq, k.as_str(), body));
        }
        if method_eq(method, "POST") {
            let ps = p.as_str();
            let n = ps.unicode_len();
            let k = ps.substring_char(6, n).to_owned();
            assert(k@ =~= p@.skip(6));
            let q = path_query(path);
            let by = query_amount(q.as_str());
            return Some(Op::incr(client, seq, k.as_str(), by));
        }
        if method_eq(method, "DELETE") {
            let k = path_key(p.as_str());
            return Some(Op::del(client, seq, k.as_str()));
        }
        None
    }

    /// Whether the engine can take the request's op now (`route_accepted`).
    pub fn accepts(engine: &Engine<KvStore>, method: &str, path: &str, client: u32, seq: u64) -> (r: bool)
        requires
            engine.wf(),
        ensures
            r == route_accepted(engine.model(), method@, path@, client, seq),
    {
        let empty: Vec<u8> = Vec::new();
        match Self::route_op(method, path, empty.as_slice(), client, seq) {
            Some(op) => engine.can_deliver(&op),
            None => true,
        }
    }

    /// Route a request: deliver its op (with the connection's `seq`) and give
    /// the status, the payload and the durable effects.
    pub fn route(
        engine: &mut Engine<KvStore>,
        method: &str,
        path: &str,
        body: &[u8],
        client: u32,
        seq: u64,
        clock: &mut u64,
        global: &mut u64,
    ) -> (r: (u16, Vec<u8>, Vec<(u64, Delivery)>))
        requires
            old(engine).wf(),
            old(engine).headroom() >= 1,
            *old(clock) < u64::MAX,
            *old(global) < u64::MAX,
            route_accepted(old(engine).model(), method@, path@, client, seq),
        ensures
            final(engine).wf(),
            ({
                let m0 = old(engine).model();
                let ops = route_ops(method@, path@, body@, client, seq);
                &&& delivered(m0, final(engine).model(), old(engine).meter(), final(engine).meter(), ops, *old(clock), *old(global), *final(clock), *final(global), r.2@)
                &&& (r.0, r.1@) == route_response(method@, path@, run_cmd(m0, ops, *old(clock), *old(global)).1)
            }),
    {
        let ghost m0 = engine.model();
        let ghost u0 = engine.meter();
        let ghost c0 = *clock;
        let ghost g0 = *global;
        let ghost ops = route_ops(method@, path@, body@, client, seq);
        let mut effects: Vec<(u64, Delivery)> = Vec::new();
        proof {
            lemma_delivered_empty(m0, u0, c0, g0);
        }
        let op = match Self::route_op(method, path, body, client, seq) {
            Some(op) => op,
            None => {
                assert(ops =~= Seq::<OpSpec>::empty());
                return (405, vstd::slice::slice_to_vec(str_bytes("method not allowed")), effects);
            },
        };
        assert(op@.kind is Incr ==> route_op(method@, path@, Seq::empty(), client, seq) == Some(op@));
        assert(route_op(method@, path@, Seq::empty(), client, seq) is Some);
        assert(step_accepted::<KvStore>(m0, op@)) by {
            let e = route_op(method@, path@, Seq::empty(), client, seq).unwrap();
            assert(e.client == op@.client && e.seq == op@.seq);
            assert(e.kind is Put ==> op@.kind is Put);
        }
        let out = deliver_step(engine, &op, clock, global, &mut effects, Ghost(m0), Ghost(c0), Ghost(g0), Ghost(u0), Ghost(Seq::empty()));
        proof {
            assert(Seq::<OpSpec>::empty().push(op@) =~= ops);
            lemma_run_cmd_len(m0, ops, c0, g0);
        }
        let p = path_before_query(path);
        if method_eq(method, "GET") {
            return match out {
                Output::Bytes(Some(v)) => (200, v, effects),
                _ => (404, vstd::slice::slice_to_vec(str_bytes("not found")), effects),
            };
        }
        let incr = incr_path(p.as_str());
        if (method_eq(method, "PUT") || method_eq(method, "POST")) && !incr {
            return (200, vstd::slice::slice_to_vec(str_bytes("OK")), effects);
        }
        if method_eq(method, "POST") {
            return match out {
                Output::Value(Some(n)) => (200, crate::text::decimal_bytes(n), effects),
                _ => (503, vstd::slice::slice_to_vec(str_bytes("unavailable")), effects),
            };
        }
        match out {
            Output::Value(Some(n)) => (200, crate::text::decimal_bytes(n), effects),
            _ => (200, vstd::slice::slice_to_vec(str_bytes("0")), effects),
        }
    }

    /// The response bytes (`response_bytes`).
    pub fn write_response(status: u16, body: &[u8], keep_alive: bool) -> (r: Vec<u8>)
        ensures
            r@ == response_bytes(status, body@, keep_alive),
    {
        let reason = if status == 200 {
            "OK"
        } else if status == 404 {
            "Not Found"
        } else if status == 405 {
            "Method Not Allowed"
        } else if status == 503 {
            "Service Unavailable"
        } else {
            "OK"
        };
        let mut w: Vec<u8> = Vec::new();
        push_slice(&mut w, str_bytes("HTTP/1.1 "));
        push_decimal(&mut w, status as i64);
        push_slice(&mut w, str_bytes(" "));
        push_slice(&mut w, str_bytes(reason));
        push_crlf(&mut w);
        push_slice(&mut w, str_bytes("Content-Length: "));
        push_decimal_len(&mut w, body.len());
        push_crlf(&mut w);
        push_slice(&mut w, str_bytes("Content-Type: application/octet-stream\r\n"));
        push_slice(&mut w, str_bytes("Connection: "));
        if keep_alive {
            push_slice(&mut w, str_bytes("keep-alive"));
        } else {
            push_slice(&mut w, str_bytes("close"));
        }
        push_crlf(&mut w);
        push_crlf(&mut w);
        push_slice(&mut w, body);
        assert(w@ =~= response_bytes(status, body@, keep_alive));
        w
    }
}

} // verus!

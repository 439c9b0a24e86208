//! RESP2 (REdis Serialization Protocol): requests are arrays of bulk strings
//! (with an inline-command fallback); replies are simple strings, errors,
//! integers, bulk strings and arrays. Parsing works on a byte buffer and
//! reports how much of it one command took.

use vstd::prelude::*;
use vstd::slice::*;
use crate::text::{
    decimal, push_decimal, push_nat_digits, int_text_value, parse_int_text, is_ascii_ws, ascii_ws, nat_digits,
    lemma_nat_digits_shape, lemma_decimal_parses, lossy_utf8, lossy_string, chars_of, parse_i64_chars, str_parse_i64,
};
use vstd::string::*;
use crate::state::{key_bytes, str_bytes};
use crate::wire::push_slice;

verus! {

broadcast use vstd::std_specs::vec::group_vec_axioms;

/// A reply the server can render to the wire.
#[derive(Debug, PartialEq, Eq)]
pub enum Reply {
    Simple(String),
    Error(String),
    Int(i64),
    Bulk(Option<Vec<u8>>),
    Array(Vec<Reply>),
}

pub open spec fn crlf() -> Seq<u8> {
    seq![13u8, 10u8]
}

/// RESP2 wire bytes of a reply.
pub open spec fn reply_bytes(r: Reply) -> Seq<u8>
    decreases r, 0nat,
{
    match r {
        Reply::Simple(s) => seq![43u8] + key_bytes(s@) + crlf(),
        Reply::Error(s) => seq![45u8] + key_bytes(s@) + crlf(),
        Reply::Int(n) => seq![58u8] + decimal(n as int) + crlf(),
        Reply::Bulk(None) => seq![36u8, 45u8, 49u8] + crlf(),
        Reply::Bulk(Some(b)) => seq![36u8] + decimal(b@.len() as int) + crlf() + b@ + crlf(),
        Reply::Array(items) => seq![42u8] + decimal(items@.len() as int) + crlf() + items_bytes(items@),
    }
}

/// Wire bytes of replies in order.
pub open spec fn items_bytes(items: Seq<Reply>) -> Seq<u8>
    decreases items, 1nat,
{
    if items.len() == 0 {
        Seq::empty()
    } else {
        items_bytes(items.drop_last()) + reply_bytes(items.last())
    }
}

impl Reply {
    /// `+OK`.
    pub fn ok() -> (r: Self)
        ensures
            r matches Reply::Simple(s) && s@ == "OK"@,
    {
        Reply::Simple("OK".to_owned())
    }

    /// `+PONG`.
    pub fn pong() -> (r: Self)
        ensures
            r matches Reply::Simple(s) && s@ == "PONG"@,
    {
        Reply::Simple("PONG".to_owned())
    }

    /// Append the reply's RESP2 wire bytes.
    pub fn write_to(&self, out: &mut Vec<u8>)
        ensures
            final(out)@ == old(out)@ + reply_bytes(*self),
        decreases *self,
    {
        match self {
            Reply::Simple(s) => {
                out.push(43u8);
                push_slice(out, str_bytes(s.as_str()));
                out.push(13u8);
                out.push(10u8);
            },
            Reply::Error(s) => {
                out.push(45u8);
                push_slice(out, str_bytes(s.as_str()));
                out.push(13u8);
                out.push(10u8);
            },
            Reply::Int(n) => {
                out.push(58u8);
                push_decimal(out, *n);
                out.push(13u8);
                out.push(10u8);
            },
            Reply::Bulk(None) => {
                out.push(36u8);
                out.push(45u8);
                out.push(49u8);
                out.push(13u8);
                out.push(10u8);
            },
            Reply::Bulk(Some(b)) => {
                out.push(36u8);
                push_nat_digits(out, b.len() as u64);
                out.push(13u8);
                out.push(10u8);
                push_slice(out, b.as_slice());
                out.push(13u8);
                out.push(10u8);
            },
            Reply::Array(items) => {
                out.push(42u8);
                push_nat_digits(out, items.len() as u64);
                out.push(13u8);
                out.push(10u8);
                let ghost head = out@;
                let mut i: usize = 0;
                while i < items.len()
                    invariant
                        i <= items@.len(),
                        *self is Array,
                        (*self)->Array_0 == *items,
                        out@ == head + items_bytes(items@.take(i as int)),
                    decreases items@.len() - i,
                {
                    assert(items@.take(i + 1).drop_last() =~= items@.take(i as int));
                    let ghost before = out@;
                    proof {
                        assert(decreases_to!(*self => (*self)->Array_0));
                        assert(decreases_to!(*items => items@));
                        assert(decreases_to!(items@ => items@[i as int]));
                    }
                    items[i].write_to(out);
                    i = i + 1;
                }
                assert(items@.take(i as int) =~= items@);
            },
        }
        proof {
            assert(final(out)@ =~= old(out)@ + reply_bytes(*self));
        }
    }

    /// The reply's RESP2 wire bytes.
    pub fn to_bytes(&self) -> (r: Vec<u8>)
        ensures
            r@ == reply_bytes(*self),
    {
        let mut v: Vec<u8> = Vec::new();
        self.write_to(&mut v);
        assert(v@ =~= reply_bytes(*self));
        v
    }
}


/// Why a command could not be read.
#[derive(Clone, Copy, Debug, PartialEq, Eq)]
pub enum RespError {
    /// The input ended inside a command.
    UnexpectedEof,
    /// An array element did not start with `$`.
    ExpectedBulkString,
    /// A count or length was not an integer.
    InvalidInteger,
}

/// Position just past the first `\n` at or after `p` (or the end of input).
pub open spec fn line_end(b: Seq<u8>, p: int) -> int
    decreases b.len() - p,
{
    if p >= b.len() {
        b.len() as int
    } else if b[p] == 10 {
        p + 1
    } else {
        line_end(b, p + 1)
    }
}

/// A line without its trailing `\r` and `\n` characters.
pub open spec fn strip_eol(l: Seq<u8>) -> Seq<u8>
    decreases l.len(),
{
    if l.len() > 0 && (l.last() == 10 || l.last() == 13) {
        strip_eol(l.drop_last())
    } else {
        l
    }
}

/// Reading a line at `p`: `None` at end of input, else the line without its
/// line ending and the position after it.
pub open spec fn read_line_at(b: Seq<u8>, p: int) -> Option<(Seq<u8>, int)> {
    if p >= b.len() {
        None
    } else {
        let e = line_end(b, p);
        Some((strip_eol(b.subrange(p, e)), e))
    }
}

/// Position of the first non-whitespace byte at or after `i`.
pub open spec fn skip_ws(l: Seq<u8>, i: int) -> int
    decreases l.len() - i,
{
    if 0 <= i < l.len() && is_ascii_ws(l[i]) {
        skip_ws(l, i + 1)
    } else {
        i
    }
}

/// Position of the first whitespace byte at or after `i`.
pub open spec fn token_end(l: Seq<u8>, i: int) -> int
    decreases l.len() - i,
{
    if 0 <= i < l.len() && !is_ascii_ws(l[i]) {
        token_end(l, i + 1)
    } else {
        i
    }
}

/// The non-empty runs of non-whitespace bytes from `i` on, in order.
pub open spec fn tokens_from(l: Seq<u8>, i: int) -> Seq<Seq<u8>>
    decreases l.len() - i,
{
    let s = skip_ws(l, i);
    if s < i || s >= l.len() {
        Seq::empty()
    } else {
        let e = token_end(l, s);
        if e <= s || e > l.len() {
            Seq::empty()
        } else {
            seq![l.subrange(s, e)] + tokens_from(l, e)
        }
    }
}

/// Reading `k` bulk-string arguments starting at `p`.
pub open spec fn bulk_args(b: Seq<u8>, p: int, k: nat) -> Result<(Seq<Seq<u8>>, int), RespError>
    decreases k,
{
    if k == 0 {
        Ok((Seq::empty(), p))
    } else {
        match bulk_args(b, p, (k - 1) as nat) {
            Err(e) => Err(e),
            Ok((args, q)) => match read_line_at(b, q) {
                None => Err(RespError::UnexpectedEof),
                Some((hdr, q2)) => if hdr.len() == 0 || hdr[0] != 36 {
                    Err(RespError::ExpectedBulkString)
                } else {
                    match int_text_value(hdr.drop_first()) {
                        None => Err(RespError::InvalidInteger),
                        Some(len) => if len < 0 {
                            Ok((args.push(Seq::empty()), q2))
                        } else if q2 + len + 2 > b.len() {
                            Err(RespError::UnexpectedEof)
                        } else {
                            Ok((args.push(b.subrange(q2, q2 + len)), q2 + len + 2))
                        },
                    }
                },
            },
        }
    }
}

/// One command read from the front of `b`: `Ok(None)` at end of input, else
/// the arguments and the number of bytes the command took. An array
/// (`*N` then `N` bulk strings `$len`/bytes/CRLF) gives its elements (a
/// negative length gives an empty argument, a count of zero or less gives no
/// arguments); any other line is split on ASCII whitespace.
pub open spec fn parse_command(b: Seq<u8>) -> Result<Option<(Seq<Seq<u8>>, int)>, RespError> {
    match read_line_at(b, 0) {
        None => Ok(None),
        Some((line, p)) => if line.len() == 0 {
            Ok(Some((Seq::empty(), p)))
        } else if line[0] == 42 {
            match int_text_value(line.drop_first()) {
                None => Err(RespError::InvalidInteger),
                Some(n) => if n <= 0 {
                    Ok(Some((Seq::empty(), p)))
                } else {
                    match bulk_args(b, p, n as nat) {
                        Err(e) => Err(e),
                        Ok((args, q)) => Ok(Some((args, q))),
                    }
                },
            }
        } else {
            Ok(Some((tokens_from(line, 0), p)))
        },
    }
}

pub open spec fn args_view(v: Seq<Vec<u8>>) -> Seq<Seq<u8>> {
    v.map_values(|a: Vec<u8>| a@)
}

pub proof fn lemma_bulk_args_err(b: Seq<u8>, p: int, i: nat, n: nat)
    requires
        i <= n,
        bulk_args(b, p, i) is Err,
    ensures
        bulk_args(b, p, n) == bulk_args(b, p, i),
    decreases n - i,
{
    if i < n {
        lemma_bulk_args_err(b, p, i, (n - 1) as nat);
    }
}

fn find_line_end(b: &[u8], p: usize) -> (e: usize)
    requires
        p <= b@.len(),
    ensures
        e == line_end(b@, p as int),
        p <= e <= b@.len(),
    decreases b@.len() - p,
{
    let mut i = p;
    while i < b.len() && b[i] != 10
        invariant
            p <= i <= b@.len(),
            line_end(b@, p as int) == line_end(b@, i as int),
        decreases b@.len() - i,
    {
        i = i + 1;
    }
    if i < b.len() { i + 1 } else { i }
}

fn strip_line(b: &[u8], p: usize, e: usize) -> (r: &[u8])
    requires
        p <= e <= b@.len(),
    ensures
        r@ == strip_eol(b@.subrange(p as int, e as int)),
{
    let mut j = e;
    while j > p && (b[j - 1] == 10 || b[j - 1] == 13)
        invariant
            p <= j <= e,
            e <= b@.len(),
            strip_eol(b@.subrange(p as int, e as int)) == strip_eol(b@.subrange(p as int, j as int)),
        decreases j - p,
    {
        assert(b@.subrange(p as int, j as int).drop_last() =~= b@.subrange(p as int, j - 1));
        j = j - 1;
    }
    slice_subrange(b, p, j)
}

fn read_line(b: &[u8], p: usize) -> (r: Option<(&[u8], usize)>)
    requires
        p <= b@.len(),
    ensures
        match r {
            None => read_line_at(b@, p as int) is None,
            Some((l, e)) => read_line_at(b@, p as int) == Some((l@, e as int)) && e <= b@.len(),
        },
{
    if p >= b.len() {
        return None;
    }
    let e = find_line_end(b, p);
    Some((strip_line(b, p, e), e))
}

fn split_tokens(l: &[u8]) -> (r: Vec<Vec<u8>>)
    ensures
        args_view(r@) == tokens_from(l@, 0),
{
    let mut out: Vec<Vec<u8>> = Vec::new();
    let mut i: usize = 0;
    while i < l.len()
        invariant
            i <= l@.len(),
            args_view(out@) + tokens_from(l@, i as int) == tokens_from(l@, 0),
        decreases l@.len() - i,
    {
        let ghost i0 = i as int;
        let mut s = i;
        while s < l.len() && ascii_ws(l[s])
            invariant
                i <= s <= l@.len(),
                skip_ws(l@, i0) == skip_ws(l@, s as int),
            decreases l@.len() - s,
        {
            s = s + 1;
        }
        if s >= l.len() {
            assert(tokens_from(l@, i0) =~= Seq::<Seq<u8>>::empty());
            assert(args_view(out@) + tokens_from(l@, s as int) =~= args_view(out@));
            i = s;
        } else {
            let mut e = s;
            while e < l.len() && !ascii_ws(l[e])
                invariant
                    s <= e <= l@.len(),
                    token_end(l@, s as int) == token_end(l@, e as int),
                decreases l@.len() - e,
            {
                e = e + 1;
            }
            let ghost before = args_view(out@);
            out.push(slice_to_vec(slice_subrange(l, s, e)));
            assert(args_view(out@) =~= before.push(l@.subrange(s as int, e as int)));
            assert(tokens_from(l@, i0) == seq![l@.subrange(s as int, e as int)] + tokens_from(l@, e as int));
            assert(args_view(out@) + tokens_from(l@, e as int) =~= before + tokens_from(l@, i0));
            i = e;
        }
    }
    assert(tokens_from(l@, i as int) =~= Seq::<Seq<u8>>::empty());
    assert(args_view(out@) + tokens_from(l@, i as int) =~= args_view(out@));
    out
}

/// Read one command from the front of `input`.
pub fn read_command(input: &[u8]) -> (r: Result<Option<(Vec<Vec<u8>>, usize)>, RespError>)
    ensures
        match r {
            Ok(None) => parse_command(input@) == Ok::<Option<(Seq<Seq<u8>>, int)>, RespError>(None),
            Ok(Some((args, n))) => parse_command(input@) == Ok::<Option<(Seq<Seq<u8>>, int)>, RespError>(
                Some((args_view(args@), n as int)),
            ),
            Err(e) => parse_command(input@) == Err::<Option<(Seq<Seq<u8>>, int)>, RespError>(e),
        },
{
    let ghost b = input@;
    let (line, p) = match read_line(input, 0) {
        None => return Ok(None),
        Some(x) => x,
    };
    if line.len() == 0 {
        let v: Vec<Vec<u8>> = Vec::new();
        assert(args_view(v@) =~= Seq::<Seq<u8>>::empty());
        return Ok(Some((v, p)));
    }
    if line[0] == 42 {
        let rest = slice_subrange(line, 1, line.len());
        assert(rest@ =~= line@.drop_first());
        let n = match parse_int_text(rest) {
            None => return Err(RespError::InvalidInteger),
            Some(n) => n,
        };
        if n <= 0 {
            let v: Vec<Vec<u8>> = Vec::new();
            assert(args_view(v@) =~= Seq::<Seq<u8>>::empty());
            return Ok(Some((v, p)));
        }
        let mut args: Vec<Vec<u8>> = Vec::new();
        let mut q: usize = p;
        let mut k: i64 = 0;
        assert(args_view(args@) =~= Seq::<Seq<u8>>::empty());
        while k < n
            invariant
                b == input@,
                0 <= k <= n,
                q <= b.len(),
                parse_command(b) == (match bulk_args(b, p as int, n as nat) {
                    Err(e) => Err(e),
                    Ok((args, q)) => Ok(Some((args, q))),
                }),
                bulk_args(b, p as int, k as nat) == Ok::<(Seq<Seq<u8>>, int), RespError>((args_view(args@), q as int)),
            decreases n - k,
        {
            let (hdr, q2) = match read_line(input, q) {
                None => {
                    proof {
                        lemma_bulk_args_err(b, p as int, (k + 1) as nat, n as nat);
                    }
                    return Err(RespError::UnexpectedEof);
                },
                Some(x) => x,
            };
            if hdr.len() == 0 || hdr[0] != 36 {
                proof {
                    lemma_bulk_args_err(b, p as int, (k + 1) as nat, n as nat);
                }
                return Err(RespError::ExpectedBulkString);
            }
            let hrest = slice_subrange(hdr, 1, hdr.len());
            assert(hrest@ =~= hdr@.drop_first());
            let len = match parse_int_text(hrest) {
                None => {
                    proof {
                        lemma_bulk_args_err(b, p as int, (k + 1) as nat, n as nat);
                    }
                    return Err(RespError::InvalidInteger);
                },
                Some(x) => x,
            };
            let ghost before = args_view(args@);
            if len < 0 {
                args.push(Vec::new());
                q = q2;
            } else {
                let avail = input.len() - q2;
                if len as u64 > avail as u64 || avail - (len as usize) < 2 {
                    proof {
                        lemma_bulk_args_err(b, p as int, (k + 1) as nat, n as nat);
                    }
                    return Err(RespError::UnexpectedEof);
                }
                let l = len as usize;
                args.push(slice_to_vec(slice_subrange(input, q2, q2 + l)));
                q = q2 + l + 2;
            }
            assert(args_view(args@) =~= before.push(args@.last()@));
            k = k + 1;
        }
        return Ok(Some((args, q)));
    }
    let toks = split_tokens(line);
    Ok(Some((toks, p)))
}
/// One argument framed as a bulk string: `$<len>\r\n<bytes>\r\n`.
pub open spec fn bulk_frame(a: Seq<u8>) -> Seq<u8> {
    seq![36u8] + decimal(a.len() as int) + crlf() + a + crlf()
}

/// Arguments framed one after another.
pub open spec fn frames(args: Seq<Seq<u8>>) -> Seq<u8>
    decreases args.len(),
{
    if args.len() == 0 {
        Seq::empty()
    } else {
        frames(args.drop_last()) + bulk_frame(args.last())
    }
}

/// A command as a client writes it: `*<n>\r\n` then its arguments framed.
pub open spec fn command_frame(args: Seq<Seq<u8>>) -> Seq<u8> {
    seq![42u8] + decimal(args.len() as int) + crlf() + frames(args)
}

/// Every argument's length fits the integer a length is read as.
pub open spec fn frames_fit(args: Seq<Seq<u8>>) -> bool {
    &&& args.len() <= i64::MAX
    &&& forall|i: int| 0 <= i < args.len() ==> (#[trigger] args[i]).len() <= i64::MAX
}

/// The first `\n` at or after `p` is at `p + m`.
proof fn lemma_line_end_at(b: Seq<u8>, p: int, m: int)
    requires
        0 <= p,
        0 <= m,
        p + m < b.len(),
        forall|i: int| p <= i < p + m ==> b[i] != 10,
        b[p + m] == 10,
    ensures
        line_end(b, p) == p + m + 1,
    decreases m,
{
    if m > 0 {
        lemma_line_end_at(b, p + 1, m - 1);
    }
}

/// A header line `<tag><digits of n>\r\n` at `p` reads as `<tag><digits>`.
proof fn lemma_header_line(b: Seq<u8>, p: int, tag: u8, n: nat)
    requires
        0 <= p,
        tag != 10 && tag != 13,
        p + nat_digits(n).len() + 3 <= b.len(),
        b.subrange(p, p + nat_digits(n).len() + 3) == seq![tag] + nat_digits(n) + crlf(),
    ensures
        read_line_at(b, p) == Some((seq![tag] + nat_digits(n), p + nat_digits(n).len() + 3)),
{
    let d = nat_digits(n);
    lemma_nat_digits_shape(n);
    let h = seq![tag] + d + crlf();
    let m: int = (d.len() + 2) as int;
    assert forall|i: int| p <= i < p + m implies b[i] != 10 by {
        assert(b[i] == h[i - p]);
        if i - p >= 1 && i - p < d.len() + 1 {
            assert(h[i - p] == d[i - p - 1]);
        }
    }
    assert(b[p + m] == h[m]);
    lemma_line_end_at(b, p, m);
    let l = b.subrange(p, p + m + 1);
    assert(l == h);
    assert(l.drop_last() =~= seq![tag] + d + seq![13u8]);
    assert(l.drop_last().drop_last() =~= seq![tag] + d);
    let t = seq![tag] + d;
    assert(t.last() != 10 && t.last() != 13) by {
        if d.len() > 0 {
            assert(t.last() == d[d.len() - 1]);
        }
    }
    assert(strip_eol(t) == t);
    assert(strip_eol(l.drop_last()) == strip_eol(l.drop_last().drop_last()));
    assert(strip_eol(l) == strip_eol(l.drop_last()));
}

/// Framed arguments read back: after anything, `k` framed arguments followed
/// by anything read as exactly those arguments, ending where their frames end.
proof fn lemma_bulk_args_frames(pre: Seq<u8>, args: Seq<Seq<u8>>, rest: Seq<u8>)
    requires
        frames_fit(args),
    ensures
        bulk_args(pre + frames(args) + rest, pre.len() as int, args.len()) == Ok::<(Seq<Seq<u8>>, int), RespError>(
            (args, (pre.len() + frames(args).len()) as int),
        ),
    decreases args.len(),
{
    let b = pre + frames(args) + rest;
    if args.len() > 0 {
        let init = args.drop_last();
        let a = args.last();
        assert(frames_fit(init)) by {
            assert forall|i: int| 0 <= i < init.len() implies (#[trigger] init[i]).len() <= i64::MAX by {
                assert(init[i] == args[i]);
            }
        }
        assert(a.len() <= i64::MAX) by {
            assert(a == args[args.len() - 1]);
        }
        assert(b =~= pre + frames(init) + (bulk_frame(a) + rest));
        lemma_bulk_args_frames(pre, init, bulk_frame(a) + rest);
        let q: int = (pre.len() + frames(init).len()) as int;
        let d = nat_digits(a.len());
        assert(decimal(a.len() as int) == d);
        assert(b.subrange(q, q + d.len() + 3) =~= seq![36u8] + d + crlf());
        lemma_header_line(b, q, 36u8, a.len());
        let q2: int = q + d.len() + 3;
        let hdr = seq![36u8] + d;
        assert(hdr.drop_first() =~= d);
        lemma_decimal_parses(a.len() as i64);
        assert(int_text_value(hdr.drop_first()) == Some(a.len() as i64));
        assert(b.subrange(q2, q2 + a.len()) =~= a);
        assert(q2 + a.len() + 2 == pre.len() + frames(args).len());
        assert(init.push(a) =~= args);
    } else {
        assert(args =~= Seq::<Seq<u8>>::empty());
    }
}

/// What a client writes, the server reads: a command framed as an array of
/// bulk strings (the empty array included), followed by anything, reads as
/// exactly its arguments, and the read takes exactly the frame's bytes.
pub proof fn lemma_command_frame_reads_back(args: Seq<Seq<u8>>, rest: Seq<u8>)
    requires
        frames_fit(args),
    ensures
        parse_command(command_frame(args) + rest) == Ok::<Option<(Seq<Seq<u8>>, int)>, RespError>(
            Some((args, command_frame(args).len() as int)),
        ),
{
    let n = args.len();
    let d = nat_digits(n);
    let head = seq![42u8] + d + crlf();
    let b = command_frame(args) + rest;
    assert(decimal(n as int) == d);
    assert(b =~= head + frames(args) + rest);
    assert(b.subrange(0, d.len() + 3 as int) =~= head);
    lemma_header_line(b, 0, 42u8, n);
    let line = seq![42u8] + d;
    assert(line.drop_first() =~= d);
    lemma_decimal_parses(n as i64);
    lemma_nat_digits_shape(n);
    lemma_bulk_args_frames(head, args, rest);
    if n == 0 {
        assert(args =~= Seq::<Seq<u8>>::empty());
        assert(frames(args) =~= Seq::<u8>::empty());
    }
}

/// An array whose count line is not an integer is refused with
/// `InvalidInteger`.
pub proof fn lemma_malformed_count(b: Seq<u8>, line: Seq<u8>, p: int)
    requires
        read_line_at(b, 0) == Some((line, p)),
        line.len() > 0,
        line[0] == 42,
        int_text_value(line.drop_first()) is None,
    ensures
        parse_command(b) == Err::<Option<(Seq<Seq<u8>>, int)>, RespError>(RespError::InvalidInteger),
{
}

/// An array with a malformed element is refused: when, after `k` elements
/// read in full, the next of the announced elements has a header line that
/// is not a bulk-string header, the read fails with `ExpectedBulkString`;
/// when the header's length is not an integer, with `InvalidInteger`.
pub proof fn lemma_malformed_element(
    b: Seq<u8>,
    line: Seq<u8>,
    p: int,
    n: i64,
    k: nat,
    args: Seq<Seq<u8>>,
    q: int,
    hdr: Seq<u8>,
    q2: int,
)
    requires
        read_line_at(b, 0) == Some((line, p)),
        line.len() > 0,
        line[0] == 42,
        int_text_value(line.drop_first()) == Some(n),
        k < n,
        bulk_args(b, p, k) == Ok::<(Seq<Seq<u8>>, int), RespError>((args, q)),
        read_line_at(b, q) == Some((hdr, q2)),
        hdr.len() == 0 || hdr[0] != 36 || int_text_value(hdr.drop_first()) is None,
    ensures
        parse_command(b) == Err::<Option<(Seq<Seq<u8>>, int)>, RespError>(
            if hdr.len() == 0 || hdr[0] != 36 {
                RespError::ExpectedBulkString
            } else {
                RespError::InvalidInteger
            },
        ),
{
    assert(bulk_args(b, p, k + 1) is Err);
    lemma_bulk_args_err(b, p, k + 1, n as nat);
}

/// A `\r\n` starts at `i`.
pub open spec fn crlf_at(cs: Seq<char>, i: int) -> bool {
    0 <= i && i + 1 < cs.len() && cs[i] == '\r' && cs[i + 1] == '\n'
}

/// The first position of `\r\n` in `cs`, if it occurs.
#[verifier::opaque]
pub open spec fn find_crlf(cs: Seq<char>) -> Option<int> {
    if exists|i: int| #[trigger] crlf_at(cs, i) {
        Some(choose|i: int| #[trigger] crlf_at(cs, i) && forall|j: int| 0 <= j < i ==> !#[trigger] crlf_at(cs, j))
    } else {
        None
    }
}

/// The second `\r\n`-separated piece of a text, if there is one.
pub open spec fn second_piece(cs: Seq<char>) -> Option<Seq<char>> {
    match find_crlf(cs) {
        None => None,
        Some(i) => {
            let rest = cs.skip(i + 2);
            match find_crlf(rest) {
                None => Some(rest),
                Some(j) => Some(rest.take(j)),
            }
        },
    }
}

/// The integer a `GET` reply carries: 0 for a nil bulk string (`$-1`), else
/// the reply's second line read as an integer, or 0 when there is none.
pub open spec fn get_reply_value(reply: Seq<u8>) -> i64 {
    let s = lossy_utf8(reply);
    if s.len() >= 3 && s.take(3) == "$-1"@ {
        0
    } else {
        match second_piece(s) {
            Some(p) => match parse_i64_chars(p) {
                Some(v) => v,
                None => 0,
            },
            None => 0,
        }
    }
}

/// Find the first `\r\n` in `cs` at or after `from`.
fn find_crlf_from(cs: &Vec<char>, from: usize) -> (r: Option<usize>)
    requires
        from <= cs@.len(),
    ensures
        match find_crlf(cs@.skip(from as int)) {
            Some(i) => r matches Some(j) && j == from + i,
            None => r is None,
        },
        r matches Some(i) ==> from <= i && i + 1 < cs@.len(),
{
    let ghost t = cs@.skip(from as int);
    let mut i: usize = from;
    while i < cs.len() && i + 1 < cs.len()
        invariant
            from <= i <= cs@.len(),
            t == cs@.skip(from as int),
            forall|j: int| 0 <= j < i - from ==> !#[trigger] crlf_at(t, j),
        decreases cs@.len() - i,
    {
        if cs[i] == '\r' && cs[i + 1] == '\n' {
            proof {
                reveal(find_crlf);
                let w = i - from;
                assert(t[w] == cs@[i as int] && t[w + 1] == cs@[i + 1]);
                assert(crlf_at(t, w));
                let k = choose|k: int| #[trigger] crlf_at(t, k) && forall|j: int| 0 <= j < k ==> !#[trigger] crlf_at(t, j);
                assert(k == w) by {
                    if k < w {
                        assert(!crlf_at(t, k));
                    } else if k > w {
                        assert(!crlf_at(t, w));
                    }
                }
            }
            return Some(i);
        }
        assert(t[i - from] == cs@[i as int] && t[i - from + 1] == cs@[i + 1]);
        assert(!crlf_at(t, i - from));
        i = i + 1;
    }
    proof {
        reveal(find_crlf);
        assert forall|k: int| !#[trigger] crlf_at(t, k) by {
            if crlf_at(t, k) {
                assert(k < i - from);
            }
        }
    }
    None
}

/// Read the integer a `GET` reply carries (`get_reply_value`).
pub fn parse_get(reply: &[u8]) -> (r: i64)
    ensures
        r == get_reply_value(reply@),
{
    let s = lossy_string(reply);
    let cs = chars_of(s.as_str());
    proof {
        reveal_strlit("$-1");
    }
    if cs.len() >= 3 && cs[0] == '$' && cs[1] == '-' && cs[2] == '1' {
        assert(cs@.take(3) =~= "$-1"@);
        return 0;
    }
    proof {
        if cs@.len() >= 3 && cs@.take(3) == "$-1"@ {
            assert(cs@.take(3)[0] == '$' && cs@.take(3)[1] == '-' && cs@.take(3)[2] == '1');
        }
    }
    assert(cs@.skip(0) =~= cs@);
    let i = match find_crlf_from(&cs, 0) {
        None => return 0,
        Some(i) => i,
    };
    let n = cs.len();
    let from = i + 2;
    let ghost rest = cs@.skip(from as int);
    let piece = match find_crlf_from(&cs, from) {
        None => {
            assert(s@.subrange(from as int, n as int) =~= rest);
            s.as_str().substring_char(from, n)
        },
        Some(j) => {
            assert(s@.subrange(from as int, j as int) =~= rest.take(j - from));
            s.as_str().substring_char(from, j)
        },
    };
    match str_parse_i64(piece) {
        Some(v) => v,
        None => 0,
    }
}

} // verus!

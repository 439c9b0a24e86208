//! The Memcached text protocol on the engine: `set`/`add`/`replace`, `get`/
//! `gets`, `incr`/`decr`, `delete`, `version`, `quit`. A request line is
//! parsed into a `McRequest`; a storage request then has its data block read
//! by the connection, and the request is executed against the engine, giving
//! the reply bytes and the durable effects of the ops it delivered. Flags are
//! accepted and reported as 0; `incr`/`decr` follow the store's integer
//! semantics and report a negative result as 0.

use vstd::prelude::*;
use vstd::utf8::*;
use crate::text::{
    lower_bytes, to_lower, bytes_eq, lossy_utf8, lossy_string, int_text_value_untrimmed, usize_text_value,
    parse_int_text_untrimmed, parse_usize_text, decimal, push_decimal, decimal_usize_bytes, ascii_chars,
    lemma_ascii_decode, lemma_decimal_parses,
};
use crate::state::{Op, OpSpec, KindSpec, Output, OutputSpec, KvStore, StateMachine, key_bytes, str_bytes, kv_get, kv_int, kv_accepts};
use crate::engine::{Meter, Engine, Delivery, dedup_step, step_accepted, is_dup, high_water};
use crate::server::{
    KvModel, args_seq, run_cmd, ts_at, delivered, out_of, budget, has_budget, deliver_step, lemma_delivered_empty,
    lemma_run_cmd_len, lemma_run_cmd_prefix, lemma_run_cmd_one,
};
use crate::resp::crlf;
use crate::wire::push_slice;

verus! {

broadcast use vstd::utf8::group_utf8_lib;

/// The bytes of an ASCII literal.
pub open spec fn lit(s: Seq<char>) -> Seq<u8> {
    key_bytes(s)
}

/// Scanning a line left to right: the tokens completed so far and the one
/// being read. A space ends a token; runs of spaces make no empty tokens.
pub open spec fn space_scan(b: Seq<u8>) -> (Seq<Seq<u8>>, Seq<u8>)
    decreases b.len(),
{
    if b.len() == 0 {
        (Seq::empty(), Seq::empty())
    } else {
        let p = space_scan(b.drop_last());
        if b.last() == 32u8 {
            if p.1.len() > 0 { (p.0.push(p.1), Seq::empty()) } else { (p.0, Seq::empty()) }
        } else {
            (p.0, p.1.push(b.last()))
        }
    }
}

/// The non-empty space-separated tokens of a line, in order.
pub open spec fn space_tokens(b: Seq<u8>) -> Seq<Seq<u8>> {
    let p = space_scan(b);
    if p.1.len() > 0 { p.0.push(p.1) } else { p.0 }
}

/// A line without its trailing `\r` and `\n` bytes.
pub open spec fn trim_line_end(b: Seq<u8>) -> Seq<u8>
    decreases b.len(),
{
    if b.len() > 0 && (b.last() == 10u8 || b.last() == 13u8) {
        trim_line_end(b.drop_last())
    } else {
        b
    }
}

/// Drop the trailing `\r` and `\n` bytes of a raw line.
pub fn strip_line_end(raw: &[u8]) -> (r: Vec<u8>)
    ensures
        r@ == trim_line_end(raw@),
{
    let mut n: usize = raw.len();
    assert(raw@.take(n as int) =~= raw@);
    while n > 0 && (raw[n - 1] == 10u8 || raw[n - 1] == 13u8)
        invariant
            n <= raw@.len(),
            trim_line_end(raw@.take(n as int)) == trim_line_end(raw@),
        decreases n,
    {
        assert(raw@.take(n as int).drop_last() =~= raw@.take(n - 1));
        n = n - 1;
    }
    let v = vstd::slice::slice_to_vec(raw);
    let mut out: Vec<u8> = Vec::new();
    let mut i: usize = 0;
    while i < n
        invariant
            n <= raw@.len(),
            v@ == raw@,
            i <= n,
            out@ == raw@.take(i as int),
        decreases n - i,
    {
        out.push(v[i]);
        assert(raw@.take(i + 1) =~= raw@.take(i as int).push(raw@[i as int]));
        i = i + 1;
    }
    assert(out@ == raw@.take(n as int));
    out
}

/// Split a line into its non-empty space-separated tokens.
pub fn split_spaces(line: &[u8]) -> (r: Vec<Vec<u8>>)
    ensures
        args_seq(r@) == space_tokens(line@),
{
    let mut toks: Vec<Vec<u8>> = Vec::new();
    let mut cur: Vec<u8> = Vec::new();
    let mut i: usize = 0;
    assert(args_seq(toks@) =~= Seq::<Seq<u8>>::empty());
    while i < line.len()
        invariant
            i <= line@.len(),
            (args_seq(toks@), cur@) == space_scan(line@.take(i as int)),
        decreases line@.len() - i,
    {
        assert(line@.take(i + 1).drop_last() =~= line@.take(i as int));
        assert(line@.take(i + 1).last() == line@[i as int]);
        if line[i] == 32u8 {
            if cur.len() > 0 {
                let t = cur;
                cur = Vec::new();
                toks.push(t);
                assert(args_seq(toks@) =~= space_scan(line@.take(i as int)).0.push(t@));
            }
        } else {
            cur.push(line[i]);
        }
        i = i + 1;
    }
    assert(line@.take(i as int) =~= line@);
    if cur.len() > 0 {
        let t = cur;
        toks.push(t);
        assert(args_seq(toks@) =~= space_scan(line@).0.push(t@));
    }
    toks
}

/// A parsed request line.
pub enum McRequest {
    /// A line with no tokens: nothing to do.
    Blank,
    /// `set`/`add`/`replace <key> <flags> <exptime> <bytes> [noreply]`: a data
    /// block of `nbytes` bytes and its CRLF follow the line.
    Store { key: Vec<u8>, nbytes: usize, noreply: bool },
    /// `get`/`gets <key>*`.
    Get(Vec<Vec<u8>>),
    /// `incr`/`decr <key> <amount>`.
    Incr { key: Vec<u8>, mag: i64, neg: bool },
    /// `delete <key>`.
    Delete(Vec<u8>),
    Version,
    Quit,
    /// Anything else, or a storage command with too few tokens.
    Unknown,
}

pub enum McSpec {
    Blank,
    Store { key: Seq<u8>, nbytes: usize, noreply: bool },
    Get(Seq<Seq<u8>>),
    Incr { key: Seq<u8>, mag: i64, neg: bool },
    Delete(Seq<u8>),
    Version,
    Quit,
    Unknown,
}

impl View for McRequest {
    type V = McSpec;

    open spec fn view(&self) -> McSpec {
        match self {
            McRequest::Blank => McSpec::Blank,
            McRequest::Store { key, nbytes, noreply } => McSpec::Store { key: key@, nbytes: *nbytes, noreply: *noreply },
            McRequest::Get(keys) => McSpec::Get(args_seq(keys@)),
            McRequest::Incr { key, mag, neg } => McSpec::Incr { key: key@, mag: *mag, neg: *neg },
            McRequest::Delete(key) => McSpec::Delete(key@),
            McRequest::Version => McSpec::Version,
            McRequest::Quit => McSpec::Quit,
            McRequest::Unknown => McSpec::Unknown,
        }
    }
}

/// What a request line asks for.
pub open spec fn mc_parse(line: Seq<u8>) -> McSpec {
    let parts = space_tokens(line);
    if parts.len() == 0 {
        McSpec::Blank
    } else {
        let cmd = lower_bytes(parts[0]);
        if cmd == lit("set"@) || cmd == lit("add"@) || cmd == lit("replace"@) {
            if parts.len() < 5 {
                McSpec::Unknown
            } else {
                McSpec::Store {
                    key: parts[1],
                    nbytes: match usize_text_value(parts[4]) {
                        Some(n) => n,
                        None => 0,
                    },
                    noreply: parts.last() == lit("noreply"@),
                }
            }
        } else if cmd == lit("get"@) || cmd == lit("gets"@) {
            McSpec::Get(parts.drop_first())
        } else if (cmd == lit("incr"@) || cmd == lit("decr"@)) && parts.len() >= 3 {
            McSpec::Incr {
                key: parts[1],
                mag: match int_text_value_untrimmed(parts[2]) {
                    Some(v) => v,
                    None => 0,
                },
                neg: cmd == lit("decr"@),
            }
        } else if cmd == lit("delete"@) && parts.len() >= 2 {
            McSpec::Delete(parts[1])
        } else if cmd == lit("version"@) {
            McSpec::Version
        } else if cmd == lit("quit"@) {
            McSpec::Quit
        } else {
            McSpec::Unknown
        }
    }
}

/// One of the storage commands, in any case.
pub open spec fn is_storage_word(w: Seq<u8>) -> bool {
    lower_bytes(w) == lit("set"@) || lower_bytes(w) == lit("add"@) || lower_bytes(w) == lit("replace"@)
}

/// `set`, `add` and `replace` are one command: two lines that differ only in
/// which of them (in any case) they start with parse alike, and with the key,
/// flags, expiry and length words present they ask to store a data block
/// under the second word.
pub proof fn lemma_storage_commands_alike(l1: Seq<u8>, l2: Seq<u8>)
    requires
        space_tokens(l1).len() >= 1,
        space_tokens(l1).len() == space_tokens(l2).len(),
        space_tokens(l1).drop_first() == space_tokens(l2).drop_first(),
        is_storage_word(space_tokens(l1)[0]),
        is_storage_word(space_tokens(l2)[0]),
    ensures
        mc_parse(l1) == mc_parse(l2),
        space_tokens(l1).len() >= 5 ==> match mc_parse(l1) {
            McSpec::Store { key, .. } => key == space_tokens(l1)[1],
            _ => false,
        },
{
    let t1 = space_tokens(l1);
    let t2 = space_tokens(l2);
    if t1.len() >= 2 {
        assert(t1[1] == t1.drop_first()[0]);
        assert(t2[1] == t2.drop_first()[0]);
        assert(t1.last() == t1.drop_first().last());
        assert(t2.last() == t2.drop_first().last());
    }
    if t1.len() >= 5 {
        assert(t1[4] == t1.drop_first()[3]);
        assert(t2[4] == t2.drop_first()[3]);
    }
}

/// The op reading `key` (the `incr`/`decr` existence check and `get`).
pub open spec fn get_op(client: u32, seq: u64, key: Seq<u8>) -> OpSpec {
    OpSpec { client, seq, kind: KindSpec::Get(lossy_utf8(key)) }
}

/// The signed amount of an `incr`/`decr`.
pub open spec fn signed(mag: i64, neg: bool) -> i64 {
    if neg { (-mag) as i64 } else { mag }
}

pub open spec fn mc_exists(o: OutputSpec) -> bool {
    o matches OutputSpec::Bytes(Some(_))
}

/// The ops a request delivers, in order, each with the connection's next seq.
/// An `incr`/`decr` first reads the key and adds only when it holds a value.
pub open spec fn mc_ops(m0: KvModel, req: McSpec, value: Seq<u8>, client: u32, seq: u64, c0: u64, g0: u64) -> Seq<OpSpec> {
    match req {
        McSpec::Store { key, .. } => seq![OpSpec { client, seq: (seq + 1) as u64, kind: KindSpec::Put(lossy_utf8(key), value) }],
        McSpec::Get(keys) => Seq::new(keys.len(), |i: int| get_op(client, (seq + i + 1) as u64, keys[i])),
        McSpec::Incr { key, mag, neg } => {
            let g = get_op(client, (seq + 1) as u64, key);
            if mc_exists(out_of(dedup_step::<KvStore>(m0, ts_at(c0, g0, 0), g).1)) {
                seq![g, OpSpec { client, seq: (seq + 2) as u64, kind: KindSpec::Incr(lossy_utf8(key), signed(mag, neg)) }]
            } else {
                seq![g]
            }
        },
        McSpec::Delete(key) => seq![OpSpec { client, seq: (seq + 1) as u64, kind: KindSpec::Del(lossy_utf8(key)) }],
        _ => Seq::empty(),
    }
}

/// The most ops a request can deliver.
pub open spec fn mc_op_bound(req: McSpec) -> int {
    match req {
        McSpec::Store { .. } => 1,
        McSpec::Get(keys) => keys.len() as int,
        McSpec::Incr { .. } => 2,
        McSpec::Delete(_) => 1,
        _ => 0,
    }
}

/// The engine can take the request: an `incr`/`decr` on an existing key has a
/// computable amount (no `decr` by `i64::MIN`) that adds without overflow.
pub open spec fn mc_accepted(m0: KvModel, req: McSpec, client: u32, seq: u64, c0: u64, g0: u64) -> bool {
    match req {
        McSpec::Incr { key, mag, neg } => {
            let g = get_op(client, (seq + 1) as u64, key);
            let r1 = dedup_step::<KvStore>(m0, ts_at(c0, g0, 0), g);
            mc_exists(out_of(r1.1)) ==> {
                &&& !(neg && mag == i64::MIN)
                &&& step_accepted::<KvStore>(
                    r1.0,
                    OpSpec { client, seq: (seq + 2) as u64, kind: KindSpec::Incr(lossy_utf8(key), signed(mag, neg)) },
                )
            }
        },
        _ => true,
    }
}

/// One `get` hit: `VALUE <key> 0 <len>\r\n<data>\r\n`; a miss writes nothing.
pub open spec fn value_block(key: Seq<char>, out: OutputSpec) -> Seq<u8> {
    match out {
        OutputSpec::Bytes(Some(v)) => lit("VALUE "@) + key_bytes(key) + lit(" 0 "@) + decimal(v.len() as int) + crlf() + v
            + crlf(),
        _ => Seq::empty(),
    }
}

/// The block a `get` of `key` writes for the delivery's output.
pub open spec fn mc_value(key: Seq<u8>, out: Option<OutputSpec>) -> Seq<u8> {
    value_block(lossy_utf8(key), out_of(out))
}

/// The hits of a multi-key `get`, key by key.
pub open spec fn mc_values(keys: Seq<Seq<u8>>, outs: Seq<Option<OutputSpec>>) -> Seq<u8>
    decreases keys.len(),
{
    if keys.len() == 0 {
        Seq::empty()
    } else {
        mc_values(keys.drop_last(), outs.drop_last()) + mc_value(keys.last(), outs.last())
    }
}

/// The reply to a request, from the outputs of the ops it delivered.
pub open spec fn mc_reply(req: McSpec, outs: Seq<Option<OutputSpec>>) -> Seq<u8> {
    match req {
        McSpec::Store { noreply, .. } => if noreply { Seq::empty() } else { lit("STORED\r\n"@) },
        McSpec::Get(keys) => mc_values(keys, outs) + lit("END\r\n"@),
        McSpec::Incr { .. } => if !mc_exists(out_of(outs[0])) {
            lit("NOT_FOUND\r\n"@)
        } else {
            match out_of(outs[1]) {
                OutputSpec::Value(Some(n)) => decimal(if n < 0 { 0 } else { n as int }) + crlf(),
                _ => lit("ERROR\r\n"@),
            }
        },
        McSpec::Delete(_) => match out_of(outs[0]) {
            OutputSpec::Value(Some(n)) => if n == 1 { lit("DELETED\r\n"@) } else { lit("NOT_FOUND\r\n"@) },
            _ => lit("NOT_FOUND\r\n"@),
        },
        McSpec::Version => lit("VERSION onebarrier-0.1\r\n"@),
        McSpec::Unknown => lit("ERROR\r\n"@),
        _ => Seq::empty(),
    }
}

/// What a new `set` does: it binds the key's text to the value, raises the
/// client's mark to its seq, and answers `STORED`.
proof fn lemma_store_run(m0: KvModel, key: Seq<u8>, nbytes: usize, v: Seq<u8>, client: u32, s0: u64, c0: u64, g0: u64)
    requires
        s0 + 2 < u64::MAX,
        s0 + 1 > high_water(m0.applied, client),
    ensures
        ({
            let set = McSpec::Store { key, nbytes, noreply: false };
            let ops1 = mc_ops(m0, set, v, client, s0, c0, g0);
            let m1 = run_cmd(m0, ops1, c0, g0).0.last();
            &&& ops1.len() == 1
            &&& m1.state == m0.state.insert(key_bytes(lossy_utf8(key)), v)
            &&& high_water(m1.applied, client) == s0 + 1
            &&& mc_reply(set, run_cmd(m0, ops1, c0, g0).1) == lit("STORED\r\n"@)
        }),
{
    let set = McSpec::Store { key, nbytes, noreply: false };
    let put = OpSpec { client, seq: (s0 + 1) as u64, kind: KindSpec::Put(lossy_utf8(key), v) };
    let ops1 = mc_ops(m0, set, v, client, s0, c0, g0);
    assert(ops1 == seq![put]);
    lemma_run_cmd_one(m0, ops1, c0, g0);
}

/// What a new `get` of one key answers when the key holds `v`.
proof fn lemma_get_one(m1: KvModel, key: Seq<u8>, v: Seq<u8>, client: u32, s1: u64, c1: u64, g1: u64)
    requires
        s1 + 1 < u64::MAX,
        s1 + 1 > high_water(m1.applied, client),
        kv_get(m1.state, key_bytes(lossy_utf8(key))) == Some(v),
    ensures
        ({
            let get = McSpec::Get(seq![key]);
            let ops2 = mc_ops(m1, get, Seq::empty(), client, s1, c1, g1);
            mc_reply(get, run_cmd(m1, ops2, c1, g1).1) == value_block(lossy_utf8(key), OutputSpec::Bytes(Some(v)))
                + lit("END\r\n"@)
        }),
{
    let get = McSpec::Get(seq![key]);
    let g = get_op(client, (s1 + 1) as u64, key);
    let ops2 = mc_ops(m1, get, Seq::empty(), client, s1, c1, g1);
    assert(ops2 =~= seq![g]);
    lemma_run_cmd_one(m1, ops2, c1, g1);
    let outs = run_cmd(m1, ops2, c1, g1).1;
    assert(outs[0] == Some(OutputSpec::Bytes(Some(v))));
    assert(seq![key].drop_last() =~= Seq::<Seq<u8>>::empty());
    assert(seq![key].last() == key);
    assert(outs.drop_last() =~= Seq::<Option<OutputSpec>>::empty());
    assert(outs.last() == outs[0]);
    assert(mc_values(seq![key], outs) == mc_values(Seq::empty(), Seq::empty()) + mc_value(key, outs[0]));
    assert(mc_values(seq![key], outs) =~= value_block(lossy_utf8(key), OutputSpec::Bytes(Some(v))));
}

/// A stored value reads back: after a `set` of `v` under a key (a new
/// request of the connection), the connection's next request `get <key>`
/// answers with that value.
pub proof fn lemma_set_then_get(
    m0: KvModel,
    key: Seq<u8>,
    nbytes: usize,
    v: Seq<u8>,
    client: u32,
    s0: u64,
    c0: u64,
    g0: u64,
    c1: u64,
    g1: u64,
)
    requires
        s0 + 2 < u64::MAX,
        s0 + 1 > high_water(m0.applied, client),
    ensures
        ({
            let set = McSpec::Store { key, nbytes, noreply: false };
            let ops1 = mc_ops(m0, set, v, client, s0, c0, g0);
            let m1 = run_cmd(m0, ops1, c0, g0).0.last();
            let get = McSpec::Get(seq![key]);
            let ops2 = mc_ops(m1, get, Seq::empty(), client, (s0 + ops1.len()) as u64, c1, g1);
            &&& mc_reply(set, run_cmd(m0, ops1, c0, g0).1) == lit("STORED\r\n"@)
            &&& mc_reply(get, run_cmd(m1, ops2, c1, g1).1) == value_block(lossy_utf8(key), OutputSpec::Bytes(Some(v)))
                + lit("END\r\n"@)
        }),
{
    lemma_store_run(m0, key, nbytes, v, client, s0, c0, g0);
    let set = McSpec::Store { key, nbytes, noreply: false };
    let m1 = run_cmd(m0, mc_ops(m0, set, v, client, s0, c0, g0), c0, g0).0.last();
    lemma_get_one(m1, key, v, client, (s0 + 1) as u64, c1, g1);
}

/// An ASCII word differs from any literal whose characters it is not.
proof fn lemma_lit_differs(b: Seq<u8>, w: Seq<char>)
    requires
        forall|i: int| 0 <= i < b.len() ==> #[trigger] b[i] < 128,
        ascii_chars(b) != w,
    ensures
        lit(w) != b,
{
    lemma_ascii_decode(b);
    encode_utf8_decode_utf8(w);
}

/// `incr` and `decr` count: on a key that holds an integer `x`, a new
/// `incr <key> <n>` leaves `x + n` under the key and `decr <key> <n>` leaves
/// `x - n` (words in any case), and the reply is the result (0 when it is
/// negative).
pub proof fn lemma_mc_counters(
    m0: KvModel,
    line: Seq<u8>,
    word: Seq<u8>,
    key: Seq<u8>,
    n: i64,
    delta: i64,
    client: u32,
    s0: u64,
    c0: u64,
    g0: u64,
)
    requires
        space_tokens(line) == seq![word, key, decimal(n as int)],
        // incr
        (lower_bytes(word) == seq![105u8, 110u8, 99u8, 114u8] && delta == n)
        // decr
        || (lower_bytes(word) == seq![100u8, 101u8, 99u8, 114u8] && n > i64::MIN && delta == -n),
        s0 + 2 < u64::MAX,
        s0 + 1 > high_water(m0.applied, client),
        kv_int(m0.state, key_bytes(lossy_utf8(key))) is Some,
        i64::MIN <= kv_int(m0.state, key_bytes(lossy_utf8(key))).unwrap() + delta <= i64::MAX,
    ensures
        ({
            let kb = key_bytes(lossy_utf8(key));
            let sum = (kv_int(m0.state, kb).unwrap() + delta) as i64;
            let req = mc_parse(line);
            let ops = mc_ops(m0, req, Seq::empty(), client, s0, c0, g0);
            let run = run_cmd(m0, ops, c0, g0);
            &&& kv_int(run.0.last().state, kb) == Some(sum)
            &&& mc_reply(req, run.1) == decimal(if sum < 0 { 0 } else { sum as int }) + crlf()
        }),
{
    lemma_mc_counter_parse(line, word, key, n);
    let neg = lower_bytes(word) == seq![100u8, 101u8, 99u8, 114u8];
    assert(neg ==> lower_bytes(word) != seq![105u8, 110u8, 99u8, 114u8]);
    assert(signed(n, neg) == delta);
    lemma_mc_counter_run(m0, key, n, neg, client, s0, c0, g0);
}

/// How a counter line parses.
#[verifier::rlimit(40)]
proof fn lemma_mc_counter_parse(line: Seq<u8>, word: Seq<u8>, key: Seq<u8>, n: i64)
    requires
        space_tokens(line) == seq![word, key, decimal(n as int)],
        lower_bytes(word) == seq![105u8, 110u8, 99u8, 114u8] || lower_bytes(word) == seq![100u8, 101u8, 99u8, 114u8],
    ensures
        mc_parse(line) == (McSpec::Incr { key, mag: n, neg: lower_bytes(word) == seq![100u8, 101u8, 99u8, 114u8] }),
{
    reveal_strlit("set");
    reveal_strlit("add");
    reveal_strlit("replace");
    reveal_strlit("get");
    reveal_strlit("gets");
    reveal_strlit("incr");
    reveal_strlit("decr");
    let cmd = lower_bytes(word);
    let t = space_tokens(line);
    assert(t[0] == word && t[1] == key && t[2] == decimal(n as int));
    let c = ascii_chars(cmd);
    assert(c.len() == 4);
    assert(c[0] == cmd[0] as char);
    lemma_lit_differs(cmd, "set"@);
    lemma_lit_differs(cmd, "add"@);
    lemma_lit_differs(cmd, "replace"@);
    lemma_lit_differs(cmd, "get"@);
    lemma_lit_differs(cmd, "gets"@);
    lemma_ascii_decode(cmd);
    if cmd == seq![100u8, 101u8, 99u8, 114u8] {
        assert(c =~= "decr"@);
        encode_utf8_decode_utf8("decr"@);
        assert(cmd == lit("decr"@));
    } else {
        assert(c =~= "incr"@);
        encode_utf8_decode_utf8("incr"@);
        assert(cmd == lit("incr"@));
        lemma_lit_differs(cmd, "decr"@);
    }
    lemma_decimal_parses(n);
}

/// What a new counter request does on a key holding an integer.
proof fn lemma_mc_counter_run(m0: KvModel, key: Seq<u8>, n: i64, neg: bool, client: u32, s0: u64, c0: u64, g0: u64)
    requires
        s0 + 2 < u64::MAX,
        s0 + 1 > high_water(m0.applied, client),
        kv_int(m0.state, key_bytes(lossy_utf8(key))) is Some,
        i64::MIN <= kv_int(m0.state, key_bytes(lossy_utf8(key))).unwrap() + signed(n, neg) <= i64::MAX,
    ensures
        ({
            let kb = key_bytes(lossy_utf8(key));
            let sum = (kv_int(m0.state, kb).unwrap() + signed(n, neg)) as i64;
            let req = McSpec::Incr { key, mag: n, neg };
            let ops = mc_ops(m0, req, Seq::empty(), client, s0, c0, g0);
            let run = run_cmd(m0, ops, c0, g0);
            &&& kv_int(run.0.last().state, kb) == Some(sum)
            &&& mc_reply(req, run.1) == decimal(if sum < 0 { 0 } else { sum as int }) + crlf()
        }),
{
    let req = McSpec::Incr { key, mag: n, neg };
    let kb = key_bytes(lossy_utf8(key));
    let sum = (kv_int(m0.state, kb).unwrap() + signed(n, neg)) as i64;
    let ops = mc_ops(m0, req, Seq::empty(), client, s0, c0, g0);
    let g = get_op(client, (s0 + 1) as u64, key);
    let r1 = dedup_step::<KvStore>(m0, ts_at(c0, g0, 0), g);
    assert(kv_get(m0.state, kb) is Some);
    assert(mc_exists(out_of(r1.1)));
    let inc = OpSpec { client, seq: (s0 + 2) as u64, kind: KindSpec::Incr(lossy_utf8(key), signed(n, neg)) };
    assert(ops == seq![g, inc]);
    assert(ops.drop_last() =~= seq![g]);
    lemma_run_cmd_one(m0, seq![g], c0, g0);
    assert(r1.0.state == m0.state);
    assert(high_water(r1.0.applied, client) == s0 + 1);
    lemma_decimal_parses(sum);
    let run = run_cmd(m0, ops, c0, g0);
    assert(run.1 =~= seq![r1.1, dedup_step::<KvStore>(r1.0, ts_at(c0, g0, 1), inc).1]);
}

/// The Memcached text protocol.
pub struct MemcacheProtocol;

impl MemcacheProtocol {
    /// Parse a request line (its line ending already stripped).
    pub fn parse(line: &[u8]) -> (r: McRequest)
        ensures
            r@ == mc_parse(line@),
    {
        let mut parts = split_spaces(line);
        let ghost ps = args_seq(parts@);
        if parts.len() == 0 {
            return McRequest::Blank;
        }
        assert(ps[0] == parts@[0]@);
        let cmd = to_lower(parts[0].as_slice());
        if bytes_eq(cmd.as_slice(), str_bytes("set")) || bytes_eq(cmd.as_slice(), str_bytes("add")) || bytes_eq(
            cmd.as_slice(),
            str_bytes("replace"),
        ) {
            if parts.len() < 5 {
                return McRequest::Unknown;
            }
            assert(ps[1] == parts@[1]@ && ps[4] == parts@[4]@);
            assert(ps.last() == parts@[parts@.len() - 1]@);
            let nbytes = match parse_usize_text(parts[4].as_slice()) {
                Some(n) => n,
                None => 0,
            };
            let noreply = bytes_eq(parts[parts.len() - 1].as_slice(), str_bytes("noreply"));
            let key = vstd::slice::slice_to_vec(parts[1].as_slice());
            return McRequest::Store { key, nbytes, noreply };
        }
        if bytes_eq(cmd.as_slice(), str_bytes("get")) || bytes_eq(cmd.as_slice(), str_bytes("gets")) {
            let _ = parts.remove(0);
            assert(args_seq(parts@) =~= ps.drop_first());
            return McRequest::Get(parts);
        }
        if (bytes_eq(cmd.as_slice(), str_bytes("incr")) || bytes_eq(cmd.as_slice(), str_bytes("decr"))) && parts.len()
            >= 3 {
            assert(ps[1] == parts@[1]@ && ps[2] == parts@[2]@);
            let mag = match parse_int_text_untrimmed(parts[2].as_slice()) {
                Some(v) => v,
                None => 0,
            };
            let neg = bytes_eq(cmd.as_slice(), str_bytes("decr"));
            let key = vstd::slice::slice_to_vec(parts[1].as_slice());
            return McRequest::Incr { key, mag, neg };
        }
        if bytes_eq(cmd.as_slice(), str_bytes("delete")) && parts.len() >= 2 {
            assert(ps[1] == parts@[1]@);
            let key = vstd::slice::slice_to_vec(parts[1].as_slice());
            return McRequest::Delete(key);
        }
        if bytes_eq(cmd.as_slice(), str_bytes("version")) {
            return McRequest::Version;
        }
        if bytes_eq(cmd.as_slice(), str_bytes("quit")) {
            return McRequest::Quit;
        }
        McRequest::Unknown
    }

    /// The most ops `req` can deliver (`mc_op_bound`).
    pub fn op_bound(req: &McRequest) -> (r: u64)
        ensures
            r == mc_op_bound(req@),
    {
        match req {
            McRequest::Store { .. } => 1,
            McRequest::Get(keys) => keys.len() as u64,
            McRequest::Incr { .. } => 2,
            McRequest::Delete(_) => 1,
            _ => 0,
        }
    }

    /// Whether the engine can take `req` now (`mc_accepted`).
    pub fn accepts(engine: &Engine<KvStore>, req: &McRequest, client: u32, seq: u64, clock: u64, global: u64) -> (r: bool)
        requires
            engine.wf(),
            seq + 2 < u64::MAX,
        ensures
            r == mc_accepted(engine.model(), req@, client, seq, clock, global),
    {
        match req {
            McRequest::Incr { key, mag, neg } => {
                let ghost m0 = engine.model();
                let ghost g = get_op(client, (seq + 1) as u64, key@);
                let k = lossy_string(key.as_slice());
                let hw = engine.high_water_of(client);
                if seq + 1 <= hw {
                    assert(is_dup(m0, g));
                    return true;
                }
                let cur = engine.state().get_bytes(k.as_str());
                if cur.is_none() {
                    return true;
                }
                if *neg && *mag == i64::MIN {
                    return false;
                }
                let delta: i64 = if *neg { -*mag } else { *mag };
                let op = Op::incr(client, seq + 2, k.as_str(), delta);
                let ghost r1 = dedup_step::<KvStore>(m0, ts_at(clock, global, 0), g);
                assert(r1.0.state == m0.state);
                assert(high_water(r1.0.applied, client) == seq + 1);
                engine.state().would_accept(&op)
            },
            _ => true,
        }
    }

    /// Execute a request when the engine can take it: the counters, clock,
    /// tick and `seq` have room for its deliveries (`mc_op_bound`) and it is
    /// accepted (`mc_accepted`). Otherwise `None`, with the engine, `seq`,
    /// clock and tick untouched.
    pub fn try_execute(
        engine: &mut Engine<KvStore>,
        req: &McRequest,
        value: &[u8],
        client: u32,
        seq: &mut u64,
        clock: &mut u64,
        global: &mut u64,
    ) -> (r: Option<(Vec<u8>, Vec<(u64, Delivery)>)>)
        requires
            old(engine).wf(),
        ensures
            final(engine).wf(),
            r is Some <==> {
                &&& budget(old(engine).headroom(), *old(clock), *old(global), *old(seq), mc_op_bound(req@))
                &&& mc_accepted(old(engine).model(), req@, client, *old(seq), *old(clock), *old(global))
            },
            r is None ==> {
                &&& *final(engine) == *old(engine)
                &&& *final(seq) == *old(seq)
                &&& *final(clock) == *old(clock)
                &&& *final(global) == *old(global)
            },
            r matches Some(x) ==> mc_post(old(engine).model(), final(engine).model(), old(engine).meter(), final(engine).meter(), req@, value@, client, *old(seq),
                *final(seq), *old(clock), *old(global), *final(clock), *final(global), x.0@, x.1@),
    {
        if !has_budget(engine, *clock, *global, *seq, Self::op_bound(req)) {
            return None;
        }
        let ok = match req {
            McRequest::Incr { .. } => Self::accepts(engine, req, client, *seq, *clock, *global),
            _ => true,
        };
        if !ok {
            return None;
        }
        Some(Self::execute(engine, req, value, client, seq, clock, global))
    }

    /// Execute a parsed request; `value` is a storage request's data block.
    /// Gives the reply bytes and the durable effects, in delivery order.
    pub fn execute(
        engine: &mut Engine<KvStore>,
        req: &McRequest,
        value: &[u8],
        client: u32,
        seq: &mut u64,
        clock: &mut u64,
        global: &mut u64,
    ) -> (r: (Vec<u8>, Vec<(u64, Delivery)>))
        requires
            old(engine).wf(),
            budget(old(engine).headroom(), *old(clock), *old(global), *old(seq), mc_op_bound(req@)),
            mc_accepted(old(engine).model(), req@, client, *old(seq), *old(clock), *old(global)),
        ensures
            final(engine).wf(),
            mc_post(old(engine).model(), final(engine).model(), old(engine).meter(), final(engine).meter(), req@, value@, client, *old(seq), *final(seq),
                *old(clock), *old(global), *final(clock), *final(global), r.0@, r.1@),
    {
        match req {
            McRequest::Store { key, noreply, .. } => exec_store(engine, req, key, *noreply, value, client, seq, clock, global),
            McRequest::Get(keys) => exec_get(engine, req, keys, value, client, seq, clock, global),
            McRequest::Incr { key, mag, neg } => exec_incr(engine, req, key, *mag, *neg, value, client, seq, clock, global),
            McRequest::Delete(key) => exec_delete(engine, req, key, value, client, seq, clock, global),
            _ => {
                let ghost m0 = engine.model();
                let ghost u0 = engine.meter();
                proof {
                    lemma_delivered_empty(m0, u0, *clock, *global);
                    assert(mc_ops(m0, req@, value@, client, *seq, *clock, *global) =~= Seq::<OpSpec>::empty());
                }
                let mut reply: Vec<u8> = Vec::new();
                match req {
                    McRequest::Version => push_slice(&mut reply, str_bytes("VERSION onebarrier-0.1\r\n")),
                    McRequest::Unknown => push_slice(&mut reply, str_bytes("ERROR\r\n")),
                    _ => {},
                }
                (reply, Vec::new())
            },
        }
    }
}

/// What executing a request does: its ops (`mc_ops`) are delivered in order,
/// the connection's seq advances once per op, and the reply is `mc_reply`
/// of their outputs.
pub open spec fn mc_post(
    m0: KvModel,
    m1: KvModel,
    u0: Meter,
    u1: Meter,
    req: McSpec,
    value: Seq<u8>,
    client: u32,
    s0: u64,
    s1: u64,
    c0: u64,
    g0: u64,
    c1: u64,
    g1: u64,
    reply: Seq<u8>,
    effects: Seq<(u64, Delivery)>,
) -> bool {
    let ops = mc_ops(m0, req, value, client, s0, c0, g0);
    &&& delivered(m0, m1, u0, u1, ops, c0, g0, c1, g1, effects)
    &&& s1 == s0 + ops.len()
    &&& reply == mc_reply(req, run_cmd(m0, ops, c0, g0).1)
}

pub(crate) fn push_crlf(out: &mut Vec<u8>)
    ensures
        final(out)@ == old(out)@ + crlf(),
{
    out.push(13u8);
    out.push(10u8);
    assert(final(out)@ =~= old(out)@ + crlf());
}

fn exec_store(
    engine: &mut Engine<KvStore>,
    req: &McRequest,
    key: &Vec<u8>,
    noreply: bool,
    value: &[u8],
    client: u32,
    seq: &mut u64,
    clock: &mut u64,
    global: &mut u64,
) -> (r: (Vec<u8>, Vec<(u64, Delivery)>))
    requires
        req@ matches McSpec::Store { key: k, noreply: nr, .. } && k == key@ && nr == noreply,
        old(engine).wf(),
        budget(old(engine).headroom(), *old(clock), *old(global), *old(seq), 1),
    ensures
        final(engine).wf(),
        mc_post(old(engine).model(), final(engine).model(), old(engine).meter(), final(engine).meter(), req@, value@, client, *old(seq), *final(seq),
            *old(clock), *old(global), *final(clock), *final(global), r.0@, r.1@),
{
    let ghost m0 = engine.model();
    let ghost u0 = engine.meter();
    let ghost c0 = *clock;
    let ghost g0 = *global;
    let ghost ops = mc_ops(m0, req@, value@, client, *seq, c0, g0);
    let mut effects: Vec<(u64, Delivery)> = Vec::new();
    let mut reply: Vec<u8> = Vec::new();
    proof {
        lemma_delivered_empty(m0, u0, c0, g0);
    }
    let k = lossy_string(key.as_slice());
    *seq = *seq + 1;
    let op = Op::set_bytes(client, *seq, k.as_str(), value);
    let _ = deliver_step(engine, &op, clock, global, &mut effects, Ghost(m0), Ghost(c0), Ghost(g0), Ghost(u0), Ghost(Seq::empty()));
    assert(Seq::<OpSpec>::empty().push(op@) =~= ops);
    if !noreply {
        push_slice(&mut reply, str_bytes("STORED\r\n"));
    }
    (reply, effects)
}

fn exec_delete(
    engine: &mut Engine<KvStore>,
    req: &McRequest,
    key: &Vec<u8>,
    value: &[u8],
    client: u32,
    seq: &mut u64,
    clock: &mut u64,
    global: &mut u64,
) -> (r: (Vec<u8>, Vec<(u64, Delivery)>))
    requires
        req@ == McSpec::Delete(key@),
        old(engine).wf(),
        budget(old(engine).headroom(), *old(clock), *old(global), *old(seq), 1),
    ensures
        final(engine).wf(),
        mc_post(old(engine).model(), final(engine).model(), old(engine).meter(), final(engine).meter(), req@, value@, client, *old(seq), *final(seq),
            *old(clock), *old(global), *final(clock), *final(global), r.0@, r.1@),
{
    let ghost m0 = engine.model();
    let ghost u0 = engine.meter();
    let ghost c0 = *clock;
    let ghost g0 = *global;
    let ghost ops = mc_ops(m0, req@, value@, client, *seq, c0, g0);
    let mut effects: Vec<(u64, Delivery)> = Vec::new();
    let mut reply: Vec<u8> = Vec::new();
    proof {
        lemma_delivered_empty(m0, u0, c0, g0);
    }
    let k = lossy_string(key.as_slice());
    *seq = *seq + 1;
    let op = Op::del(client, *seq, k.as_str());
    let out = deliver_step(engine, &op, clock, global, &mut effects, Ghost(m0), Ghost(c0), Ghost(g0), Ghost(u0), Ghost(Seq::empty()));
    assert(Seq::<OpSpec>::empty().push(op@) =~= ops);
    proof {
        lemma_run_cmd_len(m0, ops, c0, g0);
    }
    let deleted = match out {
        Output::Value(Some(n)) => n == 1,
        _ => false,
    };
    if deleted {
        push_slice(&mut reply, str_bytes("DELETED\r\n"));
    } else {
        push_slice(&mut reply, str_bytes("NOT_FOUND\r\n"));
    }
    (reply, effects)
}

fn exec_incr(
    engine: &mut Engine<KvStore>,
    req: &McRequest,
    key: &Vec<u8>,
    mag: i64,
    neg: bool,
    value: &[u8],
    client: u32,
    seq: &mut u64,
    clock: &mut u64,
    global: &mut u64,
) -> (r: (Vec<u8>, Vec<(u64, Delivery)>))
    requires
        req@ == (McSpec::Incr { key: key@, mag, neg }),
        old(engine).wf(),
        budget(old(engine).headroom(), *old(clock), *old(global), *old(seq), 2),
        mc_accepted(old(engine).model(), req@, client, *old(seq), *old(clock), *old(global)),
    ensures
        final(engine).wf(),
        mc_post(old(engine).model(), final(engine).model(), old(engine).meter(), final(engine).meter(), req@, value@, client, *old(seq), *final(seq),
            *old(clock), *old(global), *final(clock), *final(global), r.0@, r.1@),
{
    let ghost m0 = engine.model();
    let ghost u0 = engine.meter();
    let ghost c0 = *clock;
    let ghost g0 = *global;
    let ghost s0 = *seq;
    let ghost ops = mc_ops(m0, req@, value@, client, s0, c0, g0);
    let mut effects: Vec<(u64, Delivery)> = Vec::new();
    let mut reply: Vec<u8> = Vec::new();
    proof {
        lemma_delivered_empty(m0, u0, c0, g0);
    }
    let k = lossy_string(key.as_slice());
    *seq = *seq + 1;
    let g = Op::get(client, *seq, k.as_str());
    let ghost gs = get_op(client, (s0 + 1) as u64, key@);
    assert(g@ == gs);
    let out1 = deliver_step(engine, &g, clock, global, &mut effects, Ghost(m0), Ghost(c0), Ghost(g0), Ghost(u0), Ghost(Seq::empty()));
    let ghost one = seq![gs];
    proof {
        assert(Seq::<OpSpec>::empty().push(g@) =~= one);
        lemma_run_cmd_len(m0, one, c0, g0);
    }
    match out1 {
        Output::Bytes(Some(_)) => {
            let delta: i64 = if neg { -mag } else { mag };
            *seq = *seq + 1;
            let inc = Op::incr(client, *seq, k.as_str(), delta);
            assert(ops == seq![gs, inc@]);
            let out2 = deliver_step(engine, &inc, clock, global, &mut effects, Ghost(m0), Ghost(c0), Ghost(g0), Ghost(u0), Ghost(one));
            proof {
                assert(one.push(inc@) =~= ops);
                assert(ops.drop_last() =~= one);
                lemma_run_cmd_prefix(m0, ops, c0, g0);
                lemma_run_cmd_len(m0, one, c0, g0);
                lemma_run_cmd_len(m0, ops, c0, g0);
            }
            proof {
                let outs = run_cmd(m0, ops, c0, g0).1;
                assert(outs[0] == run_cmd(m0, one, c0, g0).1[0]);
                assert(mc_exists(out_of(outs[0])));
                assert(outs[1] == outs.last());
            }
            match out2 {
                Output::Value(Some(n)) => {
                    push_decimal(&mut reply, if n < 0 { 0 } else { n });
                    push_crlf(&mut reply);
                },
                _ => {
                    push_slice(&mut reply, str_bytes("ERROR\r\n"));
                },
            }
        },
        _ => {
            assert(ops == one);
            push_slice(&mut reply, str_bytes("NOT_FOUND\r\n"));
        },
    }
    (reply, effects)
}

fn exec_get(
    engine: &mut Engine<KvStore>,
    req: &McRequest,
    keys: &Vec<Vec<u8>>,
    value: &[u8],
    client: u32,
    seq: &mut u64,
    clock: &mut u64,
    global: &mut u64,
) -> (r: (Vec<u8>, Vec<(u64, Delivery)>))
    requires
        req@ == McSpec::Get(args_seq(keys@)),
        old(engine).wf(),
        budget(old(engine).headroom(), *old(clock), *old(global), *old(seq), keys@.len() as int),
    ensures
        final(engine).wf(),
        mc_post(old(engine).model(), final(engine).model(), old(engine).meter(), final(engine).meter(), req@, value@, client, *old(seq), *final(seq),
            *old(clock), *old(global), *final(clock), *final(global), r.0@, r.1@),
{
    let ghost m0 = engine.model();
    let ghost u0 = engine.meter();
    let ghost c0 = *clock;
    let ghost g0 = *global;
    let ghost s0 = *seq;
    let ghost ops = mc_ops(m0, req@, value@, client, s0, c0, g0);
    let ghost ks = args_seq(keys@);
    let mut effects: Vec<(u64, Delivery)> = Vec::new();
    let mut reply: Vec<u8> = Vec::new();
    proof {
        lemma_delivered_empty(m0, u0, c0, g0);
        assert(ops.take(0) =~= Seq::<OpSpec>::empty());
        assert(ks.take(0) =~= Seq::<Seq<u8>>::empty());
        lemma_run_cmd_len(m0, Seq::<OpSpec>::empty(), c0, g0);
    }
    let mut i: usize = 0;
    while i < keys.len()
        invariant
            i <= keys@.len(),
            ks == args_seq(keys@),
            ops == mc_ops(m0, req@, value@, client, s0, c0, g0),
            req@ == McSpec::Get(ks),
            ops.len() == ks.len(),
            forall|j: int| 0 <= j < ks.len() ==> #[trigger] ops[j] == get_op(client, (s0 + j + 1) as u64, ks[j]),
            engine.wf(),
            budget(engine.headroom(), *clock, *global, *seq, (keys@.len() - i) as int),
            *seq == s0 + i,
            delivered(m0, engine.model(), u0, engine.meter(), ops.take(i as int), c0, g0, *clock, *global, effects@),
            reply@ == mc_values(ks.take(i as int), run_cmd(m0, ops.take(i as int), c0, g0).1),
        decreases keys@.len() - i,
    {
        assert(ks[i as int] == keys@[i as int]@);
        let k = lossy_string(keys[i].as_slice());
        *seq = *seq + 1;
        let op = Op::get(client, *seq, k.as_str());
        assert(op@ == ops[i as int]);
        let ghost before = run_cmd(m0, ops.take(i as int), c0, g0);
        let ghost done = ops.take(i as int);
        let out = deliver_step(engine, &op, clock, global, &mut effects, Ghost(m0), Ghost(c0), Ghost(g0), Ghost(u0), Ghost(done));
        let ghost after = run_cmd(m0, ops.take(i + 1), c0, g0);
        proof {
            assert(done.push(op@) =~= ops.take(i + 1));
            assert(ops.take(i + 1).drop_last() =~= done);
            assert(after.1.drop_last() =~= before.1);
            assert(ks.take(i + 1).drop_last() =~= ks.take(i as int));
            assert(ks.take(i + 1).last() == ks[i as int]);
        }
        append_value(&mut reply, &k, &out);
        i = i + 1;
    }
    proof {
        assert(ops.take(i as int) =~= ops);
        assert(ks.take(i as int) =~= ks);
    }
    push_slice(&mut reply, str_bytes("END\r\n"));
    (reply, effects)
}

fn append_value(out: &mut Vec<u8>, key: &String, o: &Output)
    ensures
        final(out)@ == old(out)@ + value_block(key@, o@),
{
    match o {
        Output::Bytes(Some(v)) => {
            push_slice(out, str_bytes("VALUE "));
            push_slice(out, str_bytes(key.as_str()));
            push_slice(out, str_bytes(" 0 "));
            push_decimal_len(out, v.len());
            push_crlf(out);
            push_slice(out, v.as_slice());
            push_crlf(out);
            assert(final(out)@ =~= old(out)@ + value_block(key@, o@));
        },
        _ => {
            assert(final(out)@ =~= old(out)@ + value_block(key@, o@));
        },
    }
}

/// Append the decimal text of a length.
pub(crate) fn push_decimal_len(out: &mut Vec<u8>, n: usize)
    ensures
        final(out)@ == old(out)@ + decimal(n as int),
{
    let d = decimal_usize_bytes(n);
    push_slice(out, d.as_slice());
}

} // verus!

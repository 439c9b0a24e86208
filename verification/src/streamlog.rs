//! A durable, totally ordered pub/sub log on the engine's key-value ops. A
//! topic's length lives under `t:<topic>:n`; publishing increments it and
//! stores the message under `t:<topic>:<offset>`; subscribers read a range of
//! offsets back. Line protocol: `PUB <topic> <msg>` | `SUB <topic> <from>` |
//! `LEN <topic>` | `QUIT`.

use vstd::prelude::*;
use vstd::utf8::*;
use vstd::string::*;
use crate::text::{
    upper_bytes, to_upper, bytes_eq, lossy_utf8, lossy_string, chars_of, strs_view, find_char, find_from,
    trim_end_ws, trim_end_str, trim_crlf_end, trim_crlf_end_str, trim_ws, trim_str, parse_i64_chars, str_parse_i64,
    int_text_value_untrimmed, parse_int_text_untrimmed, decimal, push_decimal, dec_chars, decimal_string,
};
use crate::state::{Op, OpSpec, KindSpec, Output, OutputSpec, KvStore, key_bytes, str_bytes, incr_base, kv_get};
use crate::engine::{Meter, Engine, Delivery, dedup_step, step_accepted, high_water};
use crate::server::{
    KvModel, run_cmd, ts_at, delivered, out_of, budget, deliver_step, lemma_delivered_empty, lemma_run_cmd_len,
    lemma_run_cmd_prefix, lemma_run_cmd_one,
};
use crate::memcache::{lit, push_crlf, push_decimal_len};
use crate::resp::crlf;
use crate::wire::push_slice;

verus! {

broadcast use vstd::utf8::group_utf8_lib;

/// `splitn(3, ' ')`: up to two leading space-terminated pieces, then the rest.
pub open spec fn split3(cs: Seq<char>) -> Seq<Seq<char>> {
    match find_char(cs, ' ') {
        None => seq![cs],
        Some(i) => {
            let rest = cs.skip(i + 1);
            match find_char(rest, ' ') {
                None => seq![cs.take(i), rest],
                Some(j) => seq![cs.take(i), rest.take(j), rest.skip(j + 1)],
            }
        },
    }
}

/// The parts of a line: its line ending dropped, split at its first two
/// spaces, each part without trailing whitespace.
pub open spec fn sl_parts(line: Seq<char>) -> Seq<Seq<char>> {
    split3(trim_crlf_end(line)).map_values(|p: Seq<char>| trim_end_ws(p))
}

/// A parsed request line.
pub enum SlRequest {
    /// An empty line.
    Skip,
    Pub { topic: String, msg: String },
    Sub { topic: String, from: i64 },
    Len { topic: String },
    Quit,
    Unknown,
}

pub enum SlSpec {
    Skip,
    Pub { topic: Seq<char>, msg: Seq<char> },
    Sub { topic: Seq<char>, from: i64 },
    Len { topic: Seq<char> },
    Quit,
    Unknown,
}

impl View for SlRequest {
    type V = SlSpec;

    open spec fn view(&self) -> SlSpec {
        match self {
            SlRequest::Skip => SlSpec::Skip,
            SlRequest::Pub { topic, msg } => SlSpec::Pub { topic: topic@, msg: msg@ },
            SlRequest::Sub { topic, from } => SlSpec::Sub { topic: topic@, from: *from },
            SlRequest::Len { topic } => SlSpec::Len { topic: topic@ },
            SlRequest::Quit => SlSpec::Quit,
            SlRequest::Unknown => SlSpec::Unknown,
        }
    }
}

/// The word, ASCII-uppercased, is `w`.
pub open spec fn upper_is(cs: Seq<char>, w: Seq<char>) -> bool {
    upper_bytes(key_bytes(cs)) == key_bytes(w)
}

/// What a raw request line asks for.
pub open spec fn sl_parse(raw: Seq<u8>) -> SlSpec {
    sl_parse_text(lossy_utf8(raw))
}

/// A request from its decoded text.
pub open spec fn sl_parse_text(text: Seq<char>) -> SlSpec {
    let parts = sl_parts(text);
    if parts.len() == 0 || parts[0].len() == 0 {
        SlSpec::Skip
    } else if upper_is(parts[0], "PUB"@) && parts.len() >= 3 {
        SlSpec::Pub { topic: parts[1], msg: parts[2] }
    } else if upper_is(parts[0], "SUB"@) && parts.len() >= 3 {
        SlSpec::Sub {
            topic: parts[1],
            from: match parse_i64_chars(trim_ws(parts[2])) {
                Some(v) => v,
                None => 1,
            },
        }
    } else if upper_is(parts[0], "LEN"@) && parts.len() >= 2 {
        SlSpec::Len { topic: parts[1] }
    } else if upper_is(parts[0], "QUIT"@) {
        SlSpec::Quit
    } else {
        SlSpec::Unknown
    }
}

/// Where a topic's length is kept.
pub open spec fn count_key(topic: Seq<char>) -> Seq<char> {
    "t:"@ + topic + ":n"@
}

/// Where a topic's message at `off` is kept.
pub open spec fn offset_key(topic: Seq<char>, off: int) -> Seq<char> {
    "t:"@ + topic + ":"@ + dec_chars(off)
}

/// A topic length as read back: the stored text as an integer, else 0.
pub open spec fn sl_len(o: OutputSpec) -> i64 {
    match o {
        OutputSpec::Bytes(Some(v)) => match int_text_value_untrimmed(v) {
            Some(n) => n,
            None => 0,
        },
        _ => 0,
    }
}

/// The first offset a `SUB` reads.
pub open spec fn sub_start(from: i64) -> i64 {
    if from > 1 { from } else { 1 }
}

/// How many offsets `start..=len` holds.
pub open spec fn sub_count(start: i64, len: i64) -> nat {
    if len >= start { (len - start + 1) as nat } else { 0 }
}

/// The ops a request delivers, in order, each with the connection's next seq.
/// `PUB` stores the message only when the increment gave an offset; `SUB`
/// reads the length, then each offset from `max(from, 1)` to it.
pub open spec fn sl_ops(m0: KvModel, req: SlSpec, client: u32, seq: u64, c0: u64, g0: u64) -> Seq<OpSpec> {
    match req {
        SlSpec::Pub { topic, msg } => {
            let i = OpSpec { client, seq: (seq + 1) as u64, kind: KindSpec::Incr(count_key(topic), 1) };
            match out_of(dedup_step::<KvStore>(m0, ts_at(c0, g0, 0), i).1) {
                OutputSpec::Value(Some(n)) => seq![
                    i,
                    OpSpec { client, seq: (seq + 2) as u64, kind: KindSpec::Put(offset_key(topic, n as int), key_bytes(msg)) },
                ],
                _ => seq![i],
            }
        },
        SlSpec::Sub { topic, from } => {
            let g = OpSpec { client, seq: (seq + 1) as u64, kind: KindSpec::Get(count_key(topic)) };
            let len = sl_len(out_of(dedup_step::<KvStore>(m0, ts_at(c0, g0, 0), g).1));
            let st = sub_start(from);
            seq![g] + Seq::new(
                sub_count(st, len),
                |k: int| OpSpec { client, seq: (seq + 2 + k) as u64, kind: KindSpec::Get(offset_key(topic, st + k)) },
            )
        },
        SlSpec::Len { topic } => seq![OpSpec { client, seq: (seq + 1) as u64, kind: KindSpec::Get(count_key(topic)) }],
        _ => Seq::empty(),
    }
}

/// One message a `SUB` delivers: `MSG <off> <len>\r\n<msg>\r\n`.
pub open spec fn msg_block(off: int, o: Option<OutputSpec>) -> Seq<u8> {
    match out_of(o) {
        OutputSpec::Bytes(Some(m)) => lit("MSG "@) + decimal(off) + lit(" "@) + decimal(m.len() as int) + crlf() + m + crlf(),
        _ => Seq::empty(),
    }
}

/// The messages of a `SUB` from offset `start` on, one per read.
pub open spec fn msg_blocks(start: int, outs: Seq<Option<OutputSpec>>) -> Seq<u8>
    decreases outs.len(),
{
    if outs.len() == 0 {
        Seq::empty()
    } else {
        msg_blocks(start, outs.drop_last()) + msg_block(start + outs.len() - 1, outs.last())
    }
}

/// The reply to a request, from the outputs of the ops it delivered.
pub open spec fn sl_reply(req: SlSpec, outs: Seq<Option<OutputSpec>>) -> Seq<u8> {
    match req {
        SlSpec::Pub { .. } => match out_of(outs[0]) {
            OutputSpec::Value(Some(n)) => lit("OFFSET "@) + decimal(n as int) + crlf(),
            _ => lit("ERR unavailable\r\n"@),
        },
        SlSpec::Sub { from, .. } => msg_blocks(sub_start(from) as int, outs.drop_first()) + lit("END\r\n"@),
        SlSpec::Len { .. } => lit("LEN "@) + decimal(sl_len(out_of(outs[0])) as int) + crlf(),
        SlSpec::Unknown => lit("ERR unknown command\r\n"@),
        _ => Seq::empty(),
    }
}

/// The length a `SUB` sees: the topic's stored count, read by the `SUB`'s
/// first op (0 when that op is a duplicate or the count is not a number).
pub open spec fn sub_len_seen(m0: KvModel, topic: Seq<char>, client: u32, seq: u64) -> i64 {
    let g = OpSpec { client, seq: (seq + 1) as u64, kind: KindSpec::Get(count_key(topic)) };
    if g.seq <= high_water(m0.applied, client) {
        0
    } else {
        sl_len(OutputSpec::Bytes(kv_get(m0.state, key_bytes(count_key(topic)))))
    }
}

/// The most ops a request delivers: 2 for a `PUB`, 1 for a `LEN`, and for a
/// `SUB` the length read and one read per offset it covers.
pub open spec fn sl_op_bound(m0: KvModel, req: SlSpec, client: u32, seq: u64) -> int {
    match req {
        SlSpec::Pub { .. } => 2,
        SlSpec::Sub { topic, from } => 1 + sub_count(sub_start(from), sub_len_seen(m0, topic, client, seq)) as int,
        SlSpec::Len { .. } => 1,
        _ => 0,
    }
}

/// The engine can take the request: a `PUB`'s increment does not overflow.
pub open spec fn sl_accepted(m0: KvModel, req: SlSpec, client: u32, seq: u64) -> bool {
    match req {
        SlSpec::Pub { topic, .. } => step_accepted::<KvStore>(
            m0,
            OpSpec { client, seq: (seq + 1) as u64, kind: KindSpec::Incr(count_key(topic), 1) },
        ),
        _ => true,
    }
}

/// What executing a request does: its ops (`sl_ops`) are delivered in order,
/// the connection's seq advances once per op, and the reply is `sl_reply` of
/// their outputs.
pub open spec fn sl_post(
    m0: KvModel,
    m1: KvModel,
    u0: Meter,
    u1: Meter,
    req: SlSpec,
    client: u32,
    s0: u64,
    s1: u64,
    c0: u64,
    g0: u64,
    c1: u64,
    g1: u64,
    reply: Seq<u8>,
    effects: Seq<(u64, Delivery)>,
) -> bool {
    let ops = sl_ops(m0, req, client, s0, c0, g0);
    &&& delivered(m0, m1, u0, u1, ops, c0, g0, c1, g1, effects)
    &&& s1 == s0 + ops.len()
    &&& reply == sl_reply(req, run_cmd(m0, ops, c0, g0).1)
}

/// Publishing appends at the next offset: a `PUB` (a new request of its
/// client) to a topic whose length reads `n` (0 when absent or not an
/// integer) answers `OFFSET n+1`, leaves the length at `n + 1` and stores the
/// message under offset `n + 1`.
pub proof fn lemma_pub_appends(m0: KvModel, topic: Seq<char>, msg: Seq<char>, client: u32, seq: u64, c0: u64, g0: u64)
    requires
        seq + 2 < u64::MAX,
        seq + 1 > high_water(m0.applied, client),
        incr_base(m0.state, key_bytes(count_key(topic))) < i64::MAX,
    ensures
        ({
            let n = incr_base(m0.state, key_bytes(count_key(topic)));
            let req = SlSpec::Pub { topic, msg };
            let run = run_cmd(m0, sl_ops(m0, req, client, seq, c0, g0), c0, g0);
            &&& sl_reply(req, run.1) == lit("OFFSET "@) + decimal(n + 1) + crlf()
            &&& run.0.last().state == m0.state.insert(key_bytes(count_key(topic)), decimal(n + 1)).insert(
                key_bytes(offset_key(topic, n + 1)),
                key_bytes(msg),
            )
        }),
{
    let n = incr_base(m0.state, key_bytes(count_key(topic)));
    let req = SlSpec::Pub { topic, msg };
    let inc = OpSpec { client, seq: (seq + 1) as u64, kind: KindSpec::Incr(count_key(topic), 1) };
    let r1 = dedup_step::<KvStore>(m0, ts_at(c0, g0, 0), inc);
    assert(r1.1 == Some(OutputSpec::Value(Some((n + 1) as i64))));
    let put = OpSpec {
        client,
        seq: (seq + 2) as u64,
        kind: KindSpec::Put(offset_key(topic, n + 1), key_bytes(msg)),
    };
    let ops = sl_ops(m0, req, client, seq, c0, g0);
    assert(ops == seq![inc, put]);
    let one = seq![inc];
    assert(ops.drop_last() =~= one);
    lemma_run_cmd_one(m0, one, c0, g0);
    lemma_run_cmd_prefix(m0, ops, c0, g0);
    lemma_run_cmd_len(m0, ops, c0, g0);
    let run = run_cmd(m0, ops, c0, g0);
    assert(run.1[0] == r1.1);
    assert(high_water(r1.0.applied, client) == seq + 1);
    assert(run.0.last() == dedup_step::<KvStore>(r1.0, ts_at(c0, g0, 1), put).0);
}

/// Split a line at its first two spaces and trim each part's end.
fn split_parts(line: &String) -> (r: Vec<String>)
    ensures
        strs_view(r@) == split3(line@).map_values(|p: Seq<char>| trim_end_ws(p)),
{
    let raw = split3_raw(line);
    let mut r: Vec<String> = Vec::new();
    let mut i: usize = 0;
    while i < raw.len()
        invariant
            i <= raw@.len(),
            strs_view(raw@) == split3(line@),
            strs_view(r@) == strs_view(raw@).take(i as int).map_values(|p: Seq<char>| trim_end_ws(p)),
        decreases raw@.len() - i,
    {
        assert(strs_view(raw@)[i as int] == raw@[i as int]@);
        let t = trim_end_str(raw[i].as_str());
        let ghost prev = strs_view(r@);
        r.push(t);
        proof {
            assert(strs_view(r@) =~= prev.push(t@));
            assert(strs_view(raw@).take(i + 1).map_values(|p: Seq<char>| trim_end_ws(p)) =~= strs_view(raw@).take(
                i as int,
            ).map_values(|p: Seq<char>| trim_end_ws(p)).push(trim_end_ws(strs_view(raw@)[i as int])));
        }
        i = i + 1;
    }
    assert(strs_view(raw@).take(i as int) =~= strs_view(raw@));
    r
}

/// `splitn(3, ' ')` of a line.
fn split3_raw(line: &String) -> (r: Vec<String>)
    ensures
        strs_view(r@) == split3(line@),
{
    let cs = chars_of(line.as_str());
    let n = cs.len();
    let s = line.as_str();
    assert(cs@.skip(0) =~= cs@);
    match find_from(&cs, ' ', 0) {
        None => {
            let r = vec![line.as_str().to_owned()];
            assert(strs_view(r@) =~= seq![line@]);
            assert(split3(line@) == seq![line@]);
            r
        },
        Some(i) => {
            let p0 = s.substring_char(0, i).to_owned();
            assert(s@.subrange(0, i as int) =~= cs@.take(i as int));
            let i1 = i + 1;
            let ghost rest = cs@.skip(i1 as int);
            match find_from(&cs, ' ', i1) {
                None => {
                    let p1 = s.substring_char(i + 1, n).to_owned();
                    assert(s@.subrange(i + 1, n as int) =~= rest);
                    let r = vec![p0, p1];
                    assert(strs_view(r@) =~= seq![cs@.take(i as int), rest]);
                    assert(split3(line@) == seq![cs@.take(i as int), rest]);
                    r
                },
                Some(j) => {
                    let p1 = s.substring_char(i + 1, j).to_owned();
                    let p2 = s.substring_char(j + 1, n).to_owned();
                    let ghost jj = j - (i + 1);
                    assert(s@.subrange(i + 1, j as int) =~= rest.take(jj));
                    assert(s@.subrange(j + 1, n as int) =~= rest.skip(jj + 1));
                    let r = vec![p0, p1, p2];
                    assert(strs_view(r@) =~= seq![cs@.take(i as int), rest.take(jj), rest.skip(jj + 1)]);
                    assert(find_char(rest, ' ') == Some(jj));
                    assert(split3(line@) == seq![cs@.take(i as int), rest.take(jj), rest.skip(jj + 1)]);
                    r
                },
            }
        },
    }
}

fn count_key_string(topic: &String) -> (r: String)
    ensures
        r@ == count_key(topic@),
{
    let mut k = String::from_str("t:");
    k.append(topic.as_str());
    k.append(":n");
    k
}

fn offset_key_string(topic: &String, off: i64) -> (r: String)
    ensures
        r@ == offset_key(topic@, off as int),
{
    let mut k = String::from_str("t:");
    k.append(topic.as_str());
    k.append(":");
    let d = decimal_string(off);
    k.append(d.as_str());
    k
}

/// The length a read of `t:<topic>:n` reports (`sl_len`).
fn len_of(o: &Output) -> (r: i64)
    ensures
        r == sl_len(o@),
{
    match o {
        Output::Bytes(Some(v)) => match parse_int_text_untrimmed(v.as_slice()) {
            Some(n) => n,
            None => 0,
        },
        _ => 0,
    }
}

fn append_msg(out: &mut Vec<u8>, off: i64, o: &Output)
    ensures
        final(out)@ == old(out)@ + msg_block(off as int, Some(o@)),
{
    match o {
        Output::Bytes(Some(m)) => {
            push_slice(out, str_bytes("MSG "));
            push_decimal(out, off);
            push_slice(out, str_bytes(" "));
            push_decimal_len(out, m.len());
            push_crlf(out);
            push_slice(out, m.as_slice());
            push_crlf(out);
            assert(final(out)@ =~= old(out)@ + msg_block(off as int, Some(o@)));
        },
        _ => {
            assert(final(out)@ =~= old(out)@ + msg_block(off as int, Some(o@)));
        },
    }
}

/// The pub/sub log protocol.
pub struct StreamLogProtocol;

impl StreamLogProtocol {
    /// Parse a raw request line.
    pub fn parse(raw: &[u8]) -> (r: SlRequest)
        ensures
            r@ == sl_parse(raw@),
    {
        let l0 = lossy_string(raw);
        Self::parse_text(l0.as_str())
    }

    /// Parse a decoded request line.
    pub fn parse_text(l0: &str) -> (r: SlRequest)
        ensures
            r@ == sl_parse_text(l0@),
    {
        let line = trim_crlf_end_str(l0);
        let mut parts = split_parts(&line);
        let ghost ps = strs_view(parts@);
        assert(ps == sl_parts(l0@));
        if parts.len() == 0 {
            return SlRequest::Skip;
        }
        assert(ps[0] == parts@[0]@);
        if parts[0].as_str().is_empty() {
            return SlRequest::Skip;
        }
        let cmd = to_upper(str_bytes(parts[0].as_str()));
        let n = parts.len();
        if bytes_eq(cmd.as_slice(), str_bytes("PUB")) && n >= 3 {
            assert(ps[1] == parts@[1]@ && ps[2] == parts@[2]@);
            let msg = parts.remove(2);
            let topic = parts.remove(1);
            return SlRequest::Pub { topic, msg };
        }
        if bytes_eq(cmd.as_slice(), str_bytes("SUB")) && n >= 3 {
            assert(ps[1] == parts@[1]@ && ps[2] == parts@[2]@);
            let t = trim_str(parts[2].as_str());
            let from = match str_parse_i64(t.as_str()) {
                Some(v) => v,
                None => 1,
            };
            let topic = parts.remove(1);
            return SlRequest::Sub { topic, from };
        }
        if bytes_eq(cmd.as_slice(), str_bytes("LEN")) && n >= 2 {
            assert(ps[1] == parts@[1]@);
            let topic = parts.remove(1);
            return SlRequest::Len { topic };
        }
        if bytes_eq(cmd.as_slice(), str_bytes("QUIT")) {
            return SlRequest::Quit;
        }
        SlRequest::Unknown
    }

    /// The most ops `req` delivers now (`sl_op_bound`).
    pub fn op_bound(engine: &Engine<KvStore>, req: &SlRequest, client: u32, seq: u64) -> (r: u64)
        requires
            engine.wf(),
            seq < u64::MAX,
        ensures
            r == sl_op_bound(engine.model(), req@, client, seq),
    {
        match req {
            SlRequest::Pub { .. } => 2,
            SlRequest::Sub { topic, from } => {
                let st: i64 = if *from > 1 { *from } else { 1 };
                let len: i64 = if seq + 1 <= engine.high_water_of(client) {
                    0
                } else {
                    let ck = count_key_string(topic);
                    match engine.state().get_bytes(ck.as_str()) {
                        Some(v) => match parse_int_text_untrimmed(v) {
                            Some(n) => n,
                            None => 0,
                        },
                        None => 0,
                    }
                };
                if len >= st { (len - st + 1) as u64 + 1 } else { 1 }
            },
            SlRequest::Len { .. } => 1,
            _ => 0,
        }
    }

    /// Whether the engine can take `req` now (`sl_accepted`).
    pub fn accepts(engine: &Engine<KvStore>, req: &SlRequest, client: u32, seq: u64) -> (r: bool)
        requires
            engine.wf(),
            seq < u64::MAX,
        ensures
            r == sl_accepted(engine.model(), req@, client, seq),
    {
        match req {
            SlRequest::Pub { topic, .. } => {
                let k = count_key_string(topic);
                let op = Op::incr(client, seq + 1, k.as_str(), 1);
                engine.can_deliver(&op)
            },
            _ => true,
        }
    }

    /// Execute a parsed request: the reply bytes and the durable effects, in
    /// delivery order.
    pub fn execute(
        engine: &mut Engine<KvStore>,
        req: &SlRequest,
        client: u32,
        seq: &mut u64,
        clock: &mut u64,
        global: &mut u64,
    ) -> (r: (Vec<u8>, Vec<(u64, Delivery)>))
        requires
            old(engine).wf(),
            budget(old(engine).headroom(), *old(clock), *old(global), *old(seq), sl_op_bound(old(engine).model(), req@, client, *old(seq))),
            sl_accepted(old(engine).model(), req@, client, *old(seq)),
        ensures
            final(engine).wf(),
            sl_post(old(engine).model(), final(engine).model(), old(engine).meter(), final(engine).meter(), req@, client, *old(seq), *final(seq), *old(clock),
                *old(global), *final(clock), *final(global), r.0@, r.1@),
    {
        match req {
            SlRequest::Pub { topic, msg } => exec_pub(engine, req, topic, msg, client, seq, clock, global),
            SlRequest::Sub { topic, from } => exec_sub(engine, req, topic, *from, client, seq, clock, global),
            SlRequest::Len { topic } => exec_len(engine, req, topic, client, seq, clock, global),
            _ => {
                let ghost m0 = engine.model();
                let ghost u0 = engine.meter();
                proof {
                    lemma_delivered_empty(m0, u0, *clock, *global);
                    assert(sl_ops(m0, req@, client, *seq, *clock, *global) =~= Seq::<OpSpec>::empty());
                }
                let mut reply: Vec<u8> = Vec::new();
                match req {
                    SlRequest::Unknown => push_slice(&mut reply, str_bytes("ERR unknown command\r\n")),
                    _ => {},
                }
                (reply, Vec::new())
            },
        }
    }
}

fn exec_pub(
    engine: &mut Engine<KvStore>,
    req: &SlRequest,
    topic: &String,
    msg: &String,
    client: u32,
    seq: &mut u64,
    clock: &mut u64,
    global: &mut u64,
) -> (r: (Vec<u8>, Vec<(u64, Delivery)>))
    requires
        req@ == (SlSpec::Pub { topic: topic@, msg: msg@ }),
        old(engine).wf(),
        budget(old(engine).headroom(), *old(clock), *old(global), *old(seq), 2),
        sl_accepted(old(engine).model(), req@, client, *old(seq)),
    ensures
        final(engine).wf(),
        sl_post(old(engine).model(), final(engine).model(), old(engine).meter(), final(engine).meter(), req@, client, *old(seq), *final(seq), *old(clock),
            *old(global), *final(clock), *final(global), r.0@, r.1@),
{
    let ghost m0 = engine.model();
    let ghost u0 = engine.meter();
    let ghost c0 = *clock;
    let ghost g0 = *global;
    let ghost ops = sl_ops(m0, req@, client, *seq, c0, g0);
    let mut effects: Vec<(u64, Delivery)> = Vec::new();
    let mut reply: Vec<u8> = Vec::new();
    proof {
        lemma_delivered_empty(m0, u0, c0, g0);
    }
    let ck = count_key_string(topic);
    *seq = *seq + 1;
    let inc = Op::incr(client, *seq, ck.as_str(), 1);
    let out1 = deliver_step(engine, &inc, clock, global, &mut effects, Ghost(m0), Ghost(c0), Ghost(g0), Ghost(u0), Ghost(Seq::empty()));
    let ghost one = seq![inc@];
    proof {
        assert(Seq::<OpSpec>::empty().push(inc@) =~= one);
        lemma_run_cmd_len(m0, one, c0, g0);
    }
    match out1 {
        Output::Value(Some(n)) => {
            let ok = offset_key_string(topic, n);
            *seq = *seq + 1;
            let put = Op::set_bytes(client, *seq, ok.as_str(), str_bytes(msg.as_str()));
            assert(ops == seq![inc@, put@]);
            let _ = deliver_step(engine, &put, clock, global, &mut effects, Ghost(m0), Ghost(c0), Ghost(g0), Ghost(u0), Ghost(one));
            proof {
                assert(one.push(put@) =~= ops);
                assert(ops.drop_last() =~= one);
                lemma_run_cmd_prefix(m0, ops, c0, g0);
                lemma_run_cmd_len(m0, ops, c0, g0);
                assert(run_cmd(m0, ops, c0, g0).1[0] == run_cmd(m0, one, c0, g0).1[0]);
            }
            push_slice(&mut reply, str_bytes("OFFSET "));
            push_decimal(&mut reply, n);
            push_crlf(&mut reply);
        },
        _ => {
            assert(ops == one);
            push_slice(&mut reply, str_bytes("ERR unavailable\r\n"));
        },
    }
    (reply, effects)
}

fn exec_len(
    engine: &mut Engine<KvStore>,
    req: &SlRequest,
    topic: &String,
    client: u32,
    seq: &mut u64,
    clock: &mut u64,
    global: &mut u64,
) -> (r: (Vec<u8>, Vec<(u64, Delivery)>))
    requires
        req@ == (SlSpec::Len { topic: topic@ }),
        old(engine).wf(),
        budget(old(engine).headroom(), *old(clock), *old(global), *old(seq), 1),
    ensures
        final(engine).wf(),
        sl_post(old(engine).model(), final(engine).model(), old(engine).meter(), final(engine).meter(), req@, client, *old(seq), *final(seq), *old(clock),
            *old(global), *final(clock), *final(global), r.0@, r.1@),
{
    let ghost m0 = engine.model();
    let ghost u0 = engine.meter();
    let ghost c0 = *clock;
    let ghost g0 = *global;
    let ghost ops = sl_ops(m0, req@, client, *seq, c0, g0);
    let mut effects: Vec<(u64, Delivery)> = Vec::new();
    let mut reply: Vec<u8> = Vec::new();
    proof {
        lemma_delivered_empty(m0, u0, c0, g0);
    }
    let ck = count_key_string(topic);
    *seq = *seq + 1;
    let g = Op::get(client, *seq, ck.as_str());
    let out = deliver_step(engine, &g, clock, global, &mut effects, Ghost(m0), Ghost(c0), Ghost(g0), Ghost(u0), Ghost(Seq::empty()));
    proof {
        assert(Seq::<OpSpec>::empty().push(g@) =~= ops);
        lemma_run_cmd_len(m0, ops, c0, g0);
    }
    let len = len_of(&out);
    push_slice(&mut reply, str_bytes("LEN "));
    push_decimal(&mut reply, len);
    push_crlf(&mut reply);
    (reply, effects)
}

fn exec_sub(
    engine: &mut Engine<KvStore>,
    req: &SlRequest,
    topic: &String,
    from: i64,
    client: u32,
    seq: &mut u64,
    clock: &mut u64,
    global: &mut u64,
) -> (r: (Vec<u8>, Vec<(u64, Delivery)>))
    requires
        req@ == (SlSpec::Sub { topic: topic@, from }),
        old(engine).wf(),
        budget(old(engine).headroom(), *old(clock), *old(global), *old(seq),
            1 + sub_count(sub_start(from), sub_len_seen(old(engine).model(), topic@, client, *old(seq))) as int),
    ensures
        final(engine).wf(),
        sl_post(old(engine).model(), final(engine).model(), old(engine).meter(), final(engine).meter(), req@, client, *old(seq), *final(seq), *old(clock),
            *old(global), *final(clock), *final(global), r.0@, r.1@),
{
    let ghost m0 = engine.model();
    let ghost u0 = engine.meter();
    let ghost c0 = *clock;
    let ghost g0 = *global;
    let ghost s0 = *seq;
    let ghost ops = sl_ops(m0, req@, client, s0, c0, g0);
    let mut effects: Vec<(u64, Delivery)> = Vec::new();
    let mut reply: Vec<u8> = Vec::new();
    proof {
        lemma_delivered_empty(m0, u0, c0, g0);
    }
    let ck = count_key_string(topic);
    *seq = *seq + 1;
    let g = Op::get(client, *seq, ck.as_str());
    let out1 = deliver_step(engine, &g, clock, global, &mut effects, Ghost(m0), Ghost(c0), Ghost(g0), Ghost(u0), Ghost(Seq::empty()));
    let len = len_of(&out1);
    let st: i64 = if from > 1 { from } else { 1 };
    let count: u64 = if len >= st { (len - st + 1) as u64 } else { 0 };
    proof {
        assert(ops.len() == 1 + count);
        assert(ops[0] == g@);
        assert(Seq::<OpSpec>::empty().push(g@) =~= ops.take(1));
        assert(ops.take(1).drop_first() =~= Seq::<OpSpec>::empty());
        lemma_run_cmd_len(m0, ops.take(1), c0, g0);
        assert(run_cmd(m0, ops.take(1), c0, g0).1.drop_first() =~= Seq::<Option<OutputSpec>>::empty());
    }
    let mut k: u64 = 0;
    while k < count
        invariant
            k <= count,
            count == sub_count(st, len),
            st == sub_start(from),
            st >= 1,
            ops == sl_ops(m0, req@, client, s0, c0, g0),
            ops.len() == 1 + count,
            forall|j: int| 1 <= j < ops.len() ==> #[trigger] ops[j] == (OpSpec {
                client,
                seq: (s0 + 1 + j) as u64,
                kind: KindSpec::Get(offset_key(topic@, st + j - 1)),
            }),
            engine.wf(),
            budget(engine.headroom(), *clock, *global, *seq, count - k),
            *seq == s0 + 1 + k,
            delivered(m0, engine.model(), u0, engine.meter(), ops.take(1 + k), c0, g0, *clock, *global, effects@),
            reply@ == msg_blocks(st as int, run_cmd(m0, ops.take(1 + k), c0, g0).1.drop_first()),
        decreases count - k,
    {
        let off: i64 = st + k as i64;
        let key = offset_key_string(topic, off);
        *seq = *seq + 1;
        let op = Op::get(client, *seq, key.as_str());
        let ghost idx = 1 + k as int;
        assert(op@ == ops[idx]);
        let ghost done = ops.take(idx);
        let ghost before = run_cmd(m0, done, c0, g0);
        let out = deliver_step(engine, &op, clock, global, &mut effects, Ghost(m0), Ghost(c0), Ghost(g0), Ghost(u0), Ghost(done));
        let ghost after = run_cmd(m0, ops.take(idx + 1), c0, g0);
        proof {
            assert(done.push(op@) =~= ops.take(idx + 1));
            assert(ops.take(idx + 1).drop_last() =~= done);
            lemma_run_cmd_len(m0, done, c0, g0);
            lemma_run_cmd_len(m0, ops.take(idx + 1), c0, g0);
            assert(after.1.drop_last() =~= before.1);
            assert(after.1.drop_first().drop_last() =~= before.1.drop_first());
            assert(after.1.drop_first().last() == after.1.last());
            assert(after.1.drop_first().len() == k + 1);
        }
        append_msg(&mut reply, off, &out);
        k = k + 1;
    }
    proof {
        assert(ops.take(1 + k) =~= ops);
    }
    push_slice(&mut reply, str_bytes("END\r\n"));
    (reply, effects)
}

} // verus!

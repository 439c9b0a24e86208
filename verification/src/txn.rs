//! A transactional key-value store on the engine. A `BEGIN … COMMIT` block is
//! buffered per connection and delivered as one `Txn` op, so it applies (and
//! recovers) all or nothing. `GET` reads committed state; outside a block,
//! `SET` and `DEL` apply at once as a one-write transaction.
//!
//! Line protocol (whitespace-separated words; values are words):
//! `BEGIN | SET k v | DEL k | GET k | COMMIT | ABORT | QUIT`.

use vstd::prelude::*;
use vstd::utf8::*;
use crate::text::{to_upper, bytes_eq, lossy_utf8, lossy_string, split_ws, strs_view, ws_tokens, decimal};
use crate::state::{Op, OpSpec, KindSpec, Output, OutputSpec, KvStore, WriteSpec, key_bytes, str_bytes, writes_view, write_view, kv_apply_writes};
use crate::engine::{Meter, Engine, Delivery, high_water};
use crate::server::{KvModel, run_cmd, delivered, out_of, budget, deliver_step, lemma_delivered_empty, lemma_run_cmd_len, lemma_run_cmd_one};
use crate::memcache::{lit, push_crlf, push_decimal_len};
use crate::streamlog::upper_is;
use crate::resp::crlf;
use crate::wire::push_slice;

verus! {

broadcast use vstd::utf8::group_utf8_lib;

/// A parsed request line.
pub enum TxnRequest {
    /// A line with no words.
    Skip,
    Begin,
    Put { key: String, value: Vec<u8> },
    Del { key: String },
    Get { key: String },
    Commit,
    Abort,
    Quit,
    Unknown,
}

pub enum TxnSpec {
    Skip,
    Begin,
    Put { key: Seq<char>, value: Seq<u8> },
    Del { key: Seq<char> },
    Get { key: Seq<char> },
    Commit,
    Abort,
    Quit,
    Unknown,
}

impl View for TxnRequest {
    type V = TxnSpec;

    open spec fn view(&self) -> TxnSpec {
        match self {
            TxnRequest::Skip => TxnSpec::Skip,
            TxnRequest::Begin => TxnSpec::Begin,
            TxnRequest::Put { key, value } => TxnSpec::Put { key: key@, value: value@ },
            TxnRequest::Del { key } => TxnSpec::Del { key: key@ },
            TxnRequest::Get { key } => TxnSpec::Get { key: key@ },
            TxnRequest::Commit => TxnSpec::Commit,
            TxnRequest::Abort => TxnSpec::Abort,
            TxnRequest::Quit => TxnSpec::Quit,
            TxnRequest::Unknown => TxnSpec::Unknown,
        }
    }
}

/// What a raw request line asks for.
pub open spec fn txn_parse(raw: Seq<u8>) -> TxnSpec {
    txn_parse_text(lossy_utf8(raw))
}

/// A request from its decoded text: the words split on whitespace.
pub open spec fn txn_parse_text(text: Seq<char>) -> TxnSpec {
    let parts = ws_tokens(text);
    if parts.len() == 0 {
        TxnSpec::Skip
    } else if upper_is(parts[0], "BEGIN"@) {
        TxnSpec::Begin
    } else if upper_is(parts[0], "SET"@) && parts.len() >= 3 {
        TxnSpec::Put { key: parts[1], value: key_bytes(parts[2]) }
    } else if upper_is(parts[0], "DEL"@) && parts.len() >= 2 {
        TxnSpec::Del { key: parts[1] }
    } else if upper_is(parts[0], "GET"@) && parts.len() >= 2 {
        TxnSpec::Get { key: parts[1] }
    } else if upper_is(parts[0], "COMMIT"@) {
        TxnSpec::Commit
    } else if upper_is(parts[0], "ABORT"@) {
        TxnSpec::Abort
    } else if upper_is(parts[0], "QUIT"@) {
        TxnSpec::Quit
    } else {
        TxnSpec::Unknown
    }
}

/// A connection's transaction state: inside a block or not, and the writes
/// queued in it.
pub struct TxnSession {
    pub in_txn: bool,
    pub buf: Vec<(String, Option<Vec<u8>>)>,
}

pub struct SessionSpec {
    pub in_txn: bool,
    pub buf: Seq<WriteSpec>,
}

impl View for TxnSession {
    type V = SessionSpec;

    open spec fn view(&self) -> SessionSpec {
        SessionSpec { in_txn: self.in_txn, buf: writes_view(self.buf@) }
    }
}

/// The write a `SET` or `DEL` makes.
pub open spec fn txn_write(req: TxnSpec) -> WriteSpec {
    match req {
        TxnSpec::Put { key, value } => (key, Some(value)),
        TxnSpec::Del { key } => (key, None),
        _ => (Seq::empty(), None),
    }
}

/// The op a request delivers, if any: a one-write transaction for `SET`/`DEL`
/// outside a block, the read for `GET`, the queued block for `COMMIT`.
pub open spec fn txn_ops(s: SessionSpec, req: TxnSpec, client: u32, seq: u64) -> Seq<OpSpec> {
    match req {
        TxnSpec::Put { .. } | TxnSpec::Del { .. } => if s.in_txn {
            Seq::empty()
        } else {
            seq![OpSpec { client, seq: (seq + 1) as u64, kind: KindSpec::Txn(seq![txn_write(req)]) }]
        },
        TxnSpec::Get { key } => seq![OpSpec { client, seq: (seq + 1) as u64, kind: KindSpec::Get(key) }],
        TxnSpec::Commit => if s.in_txn {
            seq![OpSpec { client, seq: (seq + 1) as u64, kind: KindSpec::Txn(s.buf) }]
        } else {
            Seq::empty()
        },
        _ => Seq::empty(),
    }
}

/// The session after a request.
pub open spec fn txn_next(s: SessionSpec, req: TxnSpec) -> SessionSpec {
    match req {
        TxnSpec::Begin => SessionSpec { in_txn: true, buf: Seq::empty() },
        TxnSpec::Put { .. } | TxnSpec::Del { .. } => if s.in_txn {
            SessionSpec { in_txn: true, buf: s.buf.push(txn_write(req)) }
        } else {
            s
        },
        TxnSpec::Commit => if s.in_txn { SessionSpec { in_txn: false, buf: Seq::empty() } } else { s },
        TxnSpec::Abort => SessionSpec { in_txn: false, buf: Seq::empty() },
        _ => s,
    }
}

/// The reply to a request, from the session before it and the outputs of the
/// ops it delivered.
pub open spec fn txn_reply(s: SessionSpec, req: TxnSpec, outs: Seq<Option<OutputSpec>>) -> Seq<u8> {
    match req {
        TxnSpec::Begin => lit("BEGIN\r\n"@),
        TxnSpec::Put { .. } | TxnSpec::Del { .. } => if s.in_txn { lit("QUEUED\r\n"@) } else { lit("OK\r\n"@) },
        TxnSpec::Get { .. } => match out_of(outs[0]) {
            OutputSpec::Bytes(Some(v)) => lit("VALUE "@) + decimal(v.len() as int) + crlf() + v + crlf(),
            _ => lit("NIL\r\n"@),
        },
        TxnSpec::Commit => if s.in_txn {
            lit("COMMIT "@) + decimal(s.buf.len() as int) + crlf()
        } else {
            lit("ERR no transaction\r\n"@)
        },
        TxnSpec::Abort => lit("ABORT\r\n"@),
        TxnSpec::Unknown => lit("ERR unknown command\r\n"@),
        _ => Seq::empty(),
    }
}

/// Inside a block, `SET` and `DEL` deliver nothing: the write is queued and
/// answered `QUEUED`, so nothing of the block is visible before `COMMIT`.
pub proof fn lemma_block_writes_queue(s: SessionSpec, req: TxnSpec, client: u32, seq: u64)
    requires
        s.in_txn,
        req is Put || req is Del,
    ensures
        txn_ops(s, req, client, seq).len() == 0,
        txn_next(s, req) == (SessionSpec { in_txn: true, buf: s.buf.push(txn_write(req)) }),
        txn_reply(s, req, Seq::empty()) == lit("QUEUED\r\n"@),
{
}

/// A block commits as one op: `COMMIT` of an open block (a new request of
/// its client) applies every queued write, in order, in a single delivery,
/// closes the block, and answers `COMMIT <n>`.
pub proof fn lemma_commit_applies_block(m0: KvModel, s: SessionSpec, client: u32, seq: u64, c0: u64, g0: u64)
    requires
        s.in_txn,
        seq + 1 < u64::MAX,
        seq + 1 > high_water(m0.applied, client),
    ensures
        ({
            let ops = txn_ops(s, TxnSpec::Commit, client, seq);
            let run = run_cmd(m0, ops, c0, g0);
            &&& ops.len() == 1
            &&& run.0.last().state == kv_apply_writes(m0.state, s.buf)
            &&& txn_next(s, TxnSpec::Commit) == (SessionSpec { in_txn: false, buf: Seq::empty() })
            &&& txn_reply(s, TxnSpec::Commit, run.1) == lit("COMMIT "@) + decimal(s.buf.len() as int) + crlf()
        }),
{
    let ops = txn_ops(s, TxnSpec::Commit, client, seq);
    lemma_run_cmd_one(m0, ops, c0, g0);
}

/// `ABORT` ends a block and drops its queued writes, from any session: a
/// `COMMIT` after it finds no transaction and delivers nothing, and a `SET`
/// after it is applied at once (a new request of its client stores the value
/// under the key) and answered `OK`.
pub proof fn lemma_abort_ends_block(
    m0: KvModel,
    s: SessionSpec,
    key: Seq<char>,
    value: Seq<u8>,
    client: u32,
    seq: u64,
    c0: u64,
    g0: u64,
)
    requires
        seq + 1 < u64::MAX,
        seq + 1 > high_water(m0.applied, client),
    ensures
        ({
            let a = txn_next(s, TxnSpec::Abort);
            let set = TxnSpec::Put { key, value };
            let ops = txn_ops(a, set, client, seq);
            let run = run_cmd(m0, ops, c0, g0);
            &&& txn_ops(a, TxnSpec::Commit, client, seq).len() == 0
            &&& txn_reply(a, TxnSpec::Commit, Seq::empty()) == lit("ERR no transaction\r\n"@)
            &&& ops.len() == 1
            &&& run.0.last().state == m0.state.insert(key_bytes(key), value)
            &&& txn_reply(a, set, run.1) == lit("OK\r\n"@)
            &&& !txn_next(a, set).in_txn
        }),
{
    let a = txn_next(s, TxnSpec::Abort);
    let set = TxnSpec::Put { key, value };
    let ops = txn_ops(a, set, client, seq);
    lemma_run_cmd_one(m0, ops, c0, g0);
    let w = seq![txn_write(set)];
    assert(w.drop_last() =~= Seq::<WriteSpec>::empty());
    assert(kv_apply_writes(m0.state, Seq::<WriteSpec>::empty()) == m0.state);
    assert(w.last() == (key, Some(value)));
    assert(kv_apply_writes(m0.state, w) == m0.state.insert(key_bytes(key), value));
}

/// The transactional line protocol.
pub struct TxnProtocol;

impl TxnProtocol {
    /// Parse a raw request line (decoded with invalid UTF-8 replaced).
    pub fn parse(raw: &[u8]) -> (r: TxnRequest)
        ensures
            r@ == txn_parse(raw@),
    {
        let line = lossy_string(raw);
        Self::parse_text(line.as_str())
    }

    /// Parse a decoded request line.
    pub fn parse_text(line: &str) -> (r: TxnRequest)
        ensures
            r@ == txn_parse_text(line@),
    {
        let mut parts = split_ws(line);
        let ghost ps = strs_view(parts@);
        if parts.len() == 0 {
            return TxnRequest::Skip;
        }
        assert(ps[0] == parts@[0]@);
        let cmd = to_upper(str_bytes(parts[0].as_str()));
        let n = parts.len();
        if bytes_eq(cmd.as_slice(), str_bytes("BEGIN")) {
            return TxnRequest::Begin;
        }
        if bytes_eq(cmd.as_slice(), str_bytes("SET")) && n >= 3 {
            assert(ps[1] == parts@[1]@ && ps[2] == parts@[2]@);
            let value = vstd::slice::slice_to_vec(str_bytes(parts[2].as_str()));
            let key = parts.remove(1);
            return TxnRequest::Put { key, value };
        }
        if bytes_eq(cmd.as_slice(), str_bytes("DEL")) && n >= 2 {
            assert(ps[1] == parts@[1]@);
            let key = parts.remove(1);
            return TxnRequest::Del { key };
        }
        if bytes_eq(cmd.as_slice(), str_bytes("GET")) && n >= 2 {
            assert(ps[1] == parts@[1]@);
            let key = parts.remove(1);
            return TxnRequest::Get { key };
        }
        if bytes_eq(cmd.as_slice(), str_bytes("COMMIT")) {
            return TxnRequest::Commit;
        }
        if bytes_eq(cmd.as_slice(), str_bytes("ABORT")) {
            return TxnRequest::Abort;
        }
        if bytes_eq(cmd.as_slice(), str_bytes("QUIT")) {
            return TxnRequest::Quit;
        }
        TxnRequest::Unknown
    }

    /// Execute a parsed request against the engine and the connection's
    /// session: the reply bytes and the durable effects of the (at most one)
    /// op delivered.
    pub fn execute(
        engine: &mut Engine<KvStore>,
        session: &mut TxnSession,
        req: TxnRequest,
        client: u32,
        seq: &mut u64,
        clock: &mut u64,
        global: &mut u64,
    ) -> (r: (Vec<u8>, Vec<(u64, Delivery)>))
        requires
            old(engine).wf(),
            budget(old(engine).headroom(), *old(clock), *old(global), *old(seq), 1),
        ensures
            final(engine).wf(),
            ({
                let m0 = old(engine).model();
                let ops = txn_ops(old(session)@, req@, client, *old(seq));
                &&& delivered(m0, final(engine).model(), old(engine).meter(), final(engine).meter(), ops, *old(clock), *old(global), *final(clock), *final(global), r.1@)
                &&& *final(seq) == *old(seq) + ops.len()
                &&& final(session)@ == txn_next(old(session)@, req@)
                &&& r.0@ == txn_reply(old(session)@, req@, run_cmd(m0, ops, *old(clock), *old(global)).1)
            }),
    {
        let ghost m0 = engine.model();
        let ghost u0 = engine.meter();
        let ghost c0 = *clock;
        let ghost g0 = *global;
        let ghost s0 = session@;
        let ghost rq = req@;
        let ghost ops = txn_ops(s0, rq, client, *seq);
        let mut effects: Vec<(u64, Delivery)> = Vec::new();
        let mut reply: Vec<u8> = Vec::new();
        proof {
            lemma_delivered_empty(m0, u0, c0, g0);
        }
        match req {
            TxnRequest::Begin => {
                session.in_txn = true;
                session.buf = Vec::new();
                assert(session@.buf =~= Seq::<WriteSpec>::empty());
                push_slice(&mut reply, str_bytes("BEGIN\r\n"));
            },
            TxnRequest::Put { key, value } => {
                let entry = (key, Some(value));
                assert(write_view(entry) == txn_write(rq));
                queue_or_apply(engine, session, entry, client, seq, clock, global, &mut effects, &mut reply, Ghost(rq));
            },
            TxnRequest::Del { key } => {
                let entry = (key, None);
                assert(write_view(entry) == txn_write(rq));
                queue_or_apply(engine, session, entry, client, seq, clock, global, &mut effects, &mut reply, Ghost(rq));
            },
            TxnRequest::Get { key } => {
                *seq = *seq + 1;
                let op = Op::get(client, *seq, key.as_str());
                let out = deliver_step(engine, &op, clock, global, &mut effects, Ghost(m0), Ghost(c0), Ghost(g0), Ghost(u0), Ghost(Seq::empty()));
                proof {
                    assert(Seq::<OpSpec>::empty().push(op@) =~= ops);
                    lemma_run_cmd_len(m0, ops, c0, g0);
                }
                match out {
                    Output::Bytes(Some(v)) => {
                        push_slice(&mut reply, str_bytes("VALUE "));
                        push_decimal_len(&mut reply, v.len());
                        push_crlf(&mut reply);
                        push_slice(&mut reply, v.as_slice());
                        push_crlf(&mut reply);
                    },
                    _ => {
                        push_slice(&mut reply, str_bytes("NIL\r\n"));
                    },
                }
            },
            TxnRequest::Commit => {
                if !session.in_txn {
                    push_slice(&mut reply, str_bytes("ERR no transaction\r\n"));
                } else {
                    let n = session.buf.len();
                    *seq = *seq + 1;
                    let mut writes: Vec<(String, Option<Vec<u8>>)> = Vec::new();
                    std::mem::swap(&mut writes, &mut session.buf);
                    session.in_txn = false;
                    assert(session@.buf =~= Seq::<WriteSpec>::empty());
                    let op = Op::txn(client, *seq, writes);
                    let _ = deliver_step(engine, &op, clock, global, &mut effects, Ghost(m0), Ghost(c0), Ghost(g0), Ghost(u0), Ghost(Seq::empty()));
                    assert(Seq::<OpSpec>::empty().push(op@) =~= ops);
                    push_slice(&mut reply, str_bytes("COMMIT "));
                    push_decimal_len(&mut reply, n);
                    push_crlf(&mut reply);
                }
            },
            TxnRequest::Abort => {
                session.buf = Vec::new();
                session.in_txn = false;
                assert(session@.buf =~= Seq::<WriteSpec>::empty());
                push_slice(&mut reply, str_bytes("ABORT\r\n"));
            },
            TxnRequest::Unknown => {
                push_slice(&mut reply, str_bytes("ERR unknown command\r\n"));
            },
            _ => {},
        }
        (reply, effects)
    }
}

/// A `SET`/`DEL` write: queued inside a block, else applied at once as a
/// one-write transaction.
fn queue_or_apply(
    engine: &mut Engine<KvStore>,
    session: &mut TxnSession,
    entry: (String, Option<Vec<u8>>),
    client: u32,
    seq: &mut u64,
    clock: &mut u64,
    global: &mut u64,
    effects: &mut Vec<(u64, Delivery)>,
    reply: &mut Vec<u8>,
    Ghost(rq): Ghost<TxnSpec>,
)
    requires
        rq is Put || rq is Del,
        write_view(entry) == txn_write(rq),
        old(engine).wf(),
        budget(old(engine).headroom(), *old(clock), *old(global), *old(seq), 1),
        old(effects)@.len() == 0,
        old(reply)@.len() == 0,
        delivered(old(engine).model(), old(engine).model(), old(engine).meter(), old(engine).meter(), Seq::empty(), *old(clock), *old(global), *old(clock), *old(global), old(effects)@),
    ensures
        final(engine).wf(),
        ({
            let m0 = old(engine).model();
            let ops = txn_ops(old(session)@, rq, client, *old(seq));
            &&& delivered(m0, final(engine).model(), old(engine).meter(), final(engine).meter(), ops, *old(clock), *old(global), *final(clock), *final(global), final(effects)@)
            &&& *final(seq) == *old(seq) + ops.len()
            &&& final(session)@ == txn_next(old(session)@, rq)
            &&& final(reply)@ == txn_reply(old(session)@, rq, run_cmd(m0, ops, *old(clock), *old(global)).1)
        }),
{
    let ghost m0 = engine.model();
    let ghost u0 = engine.meter();
    let ghost c0 = *clock;
    let ghost g0 = *global;
    let ghost ops = txn_ops(session@, rq, client, *seq);
    if session.in_txn {
        let ghost before = session@.buf;
        session.buf.push(entry);
        assert(session@.buf =~= before.push(txn_write(rq)));
        push_slice(reply, str_bytes("QUEUED\r\n"));
        assert(reply@ =~= lit("QUEUED\r\n"@));
    } else {
        *seq = *seq + 1;
        let mut ws: Vec<(String, Option<Vec<u8>>)> = Vec::new();
        ws.push(entry);
        assert(writes_view(ws@) =~= seq![txn_write(rq)]);
        let op = Op::txn(client, *seq, ws);
        let _ = deliver_step(engine, &op, clock, global, effects, Ghost(m0), Ghost(c0), Ghost(g0), Ghost(u0), Ghost(Seq::empty()));
        assert(Seq::<OpSpec>::empty().push(op@) =~= ops);
        push_slice(reply, str_bytes("OK\r\n"));
        assert(reply@ =~= lit("OK\r\n"@));
    }
}

} // verus!

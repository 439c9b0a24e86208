//! The RESP key-value service's command executor: one command (its
//! arguments, the connection's client id and request seq) applied to the
//! engine in serial order, giving the reply and the durable effects of every
//! op it delivered. Timestamps come from a per-server clock and a process-wide
//! tick, each advanced once per delivered op.

use vstd::prelude::*;
use vstd::utf8::*;
use crate::text::{
    upper_bytes, to_upper, bytes_eq, lossy_utf8, lossy_string, string_from_utf8,
    int_text_value_untrimmed, parse_int_text_untrimmed, decimal, lemma_decimal_parses,
};
use crate::state::{
    Op, OpSpec, KindSpec, Output, OutputSpec, KvStore, StateMachine, key_bytes, str_bytes, kv_get,
    kv_int, encode_op, incr_base,
};
use crate::engine::{
    Engine, EngineModel, Delivery, Meter, dedup_step, step_accepted, engine_snapshot, high_water, meter_run, meter_cuts,
    lemma_meter_run,
};
use crate::resp::{Reply, reply_bytes, crlf};
use crate::wire::push_slice;

verus! {

broadcast use vstd::utf8::group_utf8_lib;

pub type KvModel = EngineModel<Map<Seq<u8>, Seq<u8>>>;

pub open spec fn w_ping() -> Seq<u8> {
    seq![80u8, 73u8, 78u8, 71u8]
}

fn is_ping(b: &[u8]) -> (r: bool)
    ensures
        r == (b@ == w_ping()),
{
    let w: Vec<u8> = vec![80u8, 73u8, 78u8, 71u8];
    bytes_eq(b, w.as_slice())
}

pub open spec fn w_set() -> Seq<u8> {
    seq![83u8, 69u8, 84u8]
}

fn is_set(b: &[u8]) -> (r: bool)
    ensures
        r == (b@ == w_set()),
{
    let w: Vec<u8> = vec![83u8, 69u8, 84u8];
    bytes_eq(b, w.as_slice())
}

pub open spec fn w_get() -> Seq<u8> {
    seq![71u8, 69u8, 84u8]
}

fn is_get(b: &[u8]) -> (r: bool)
    ensures
        r == (b@ == w_get()),
{
    let w: Vec<u8> = vec![71u8, 69u8, 84u8];
    bytes_eq(b, w.as_slice())
}

pub open spec fn w_incr() -> Seq<u8> {
    seq![73u8, 78u8, 67u8, 82u8]
}

fn is_incr(b: &[u8]) -> (r: bool)
    ensures
        r == (b@ == w_incr()),
{
    let w: Vec<u8> = vec![73u8, 78u8, 67u8, 82u8];
    bytes_eq(b, w.as_slice())
}

pub open spec fn w_decr() -> Seq<u8> {
    seq![68u8, 69u8, 67u8, 82u8]
}

fn is_decr(b: &[u8]) -> (r: bool)
    ensures
        r == (b@ == w_decr()),
{
    let w: Vec<u8> = vec![68u8, 69u8, 67u8, 82u8];
    bytes_eq(b, w.as_slice())
}

pub open spec fn w_incrby() -> Seq<u8> {
    seq![73u8, 78u8, 67u8, 82u8, 66u8, 89u8]
}

fn is_incrby(b: &[u8]) -> (r: bool)
    ensures
        r == (b@ == w_incrby()),
{
    let w: Vec<u8> = vec![73u8, 78u8, 67u8, 82u8, 66u8, 89u8];
    bytes_eq(b, w.as_slice())
}

pub open spec fn w_decrby() -> Seq<u8> {
    seq![68u8, 69u8, 67u8, 82u8, 66u8, 89u8]
}

fn is_decrby(b: &[u8]) -> (r: bool)
    ensures
        r == (b@ == w_decrby()),
{
    let w: Vec<u8> = vec![68u8, 69u8, 67u8, 82u8, 66u8, 89u8];
    bytes_eq(b, w.as_slice())
}

pub open spec fn w_del() -> Seq<u8> {
    seq![68u8, 69u8, 76u8]
}

fn is_del(b: &[u8]) -> (r: bool)
    ensures
        r == (b@ == w_del()),
{
    let w: Vec<u8> = vec![68u8, 69u8, 76u8];
    bytes_eq(b, w.as_slice())
}

pub open spec fn w_dbsize() -> Seq<u8> {
    seq![68u8, 66u8, 83u8, 73u8, 90u8, 69u8]
}

fn is_dbsize(b: &[u8]) -> (r: bool)
    ensures
        r == (b@ == w_dbsize()),
{
    let w: Vec<u8> = vec![68u8, 66u8, 83u8, 73u8, 90u8, 69u8];
    bytes_eq(b, w.as_slice())
}

pub open spec fn w_exists() -> Seq<u8> {
    seq![69u8, 88u8, 73u8, 83u8, 84u8, 83u8]
}

fn is_exists(b: &[u8]) -> (r: bool)
    ensures
        r == (b@ == w_exists()),
{
    let w: Vec<u8> = vec![69u8, 88u8, 73u8, 83u8, 84u8, 83u8];
    bytes_eq(b, w.as_slice())
}

pub open spec fn w_command() -> Seq<u8> {
    seq![67u8, 79u8, 77u8, 77u8, 65u8, 78u8, 68u8]
}

fn is_command(b: &[u8]) -> (r: bool)
    ensures
        r == (b@ == w_command()),
{
    let w: Vec<u8> = vec![67u8, 79u8, 77u8, 77u8, 65u8, 78u8, 68u8];
    bytes_eq(b, w.as_slice())
}

pub open spec fn w_config() -> Seq<u8> {
    seq![67u8, 79u8, 78u8, 70u8, 73u8, 71u8]
}

fn is_config(b: &[u8]) -> (r: bool)
    ensures
        r == (b@ == w_config()),
{
    let w: Vec<u8> = vec![67u8, 79u8, 78u8, 70u8, 73u8, 71u8];
    bytes_eq(b, w.as_slice())
}

pub open spec fn w_hello() -> Seq<u8> {
    seq![72u8, 69u8, 76u8, 76u8, 79u8]
}

fn is_hello(b: &[u8]) -> (r: bool)
    ensures
        r == (b@ == w_hello()),
{
    let w: Vec<u8> = vec![72u8, 69u8, 76u8, 76u8, 79u8];
    bytes_eq(b, w.as_slice())
}

pub open spec fn w_select() -> Seq<u8> {
    seq![83u8, 69u8, 76u8, 69u8, 67u8, 84u8]
}

fn is_select(b: &[u8]) -> (r: bool)
    ensures
        r == (b@ == w_select()),
{
    let w: Vec<u8> = vec![83u8, 69u8, 76u8, 69u8, 67u8, 84u8];
    bytes_eq(b, w.as_slice())
}

pub open spec fn w_flushall() -> Seq<u8> {
    seq![70u8, 76u8, 85u8, 83u8, 72u8, 65u8, 76u8, 76u8]
}

fn is_flushall(b: &[u8]) -> (r: bool)
    ensures
        r == (b@ == w_flushall()),
{
    let w: Vec<u8> = vec![70u8, 76u8, 85u8, 83u8, 72u8, 65u8, 76u8, 76u8];
    bytes_eq(b, w.as_slice())
}

pub open spec fn w_flushdb() -> Seq<u8> {
    seq![70u8, 76u8, 85u8, 83u8, 72u8, 68u8, 66u8]
}

fn is_flushdb(b: &[u8]) -> (r: bool)
    ensures
        r == (b@ == w_flushdb()),
{
    let w: Vec<u8> = vec![70u8, 76u8, 85u8, 83u8, 72u8, 68u8, 66u8];
    bytes_eq(b, w.as_slice())
}

pub open spec fn w_client() -> Seq<u8> {
    seq![67u8, 76u8, 73u8, 69u8, 78u8, 84u8]
}

fn is_client(b: &[u8]) -> (r: bool)
    ensures
        r == (b@ == w_client()),
{
    let w: Vec<u8> = vec![67u8, 76u8, 73u8, 69u8, 78u8, 84u8];
    bytes_eq(b, w.as_slice())
}

pub open spec fn w_reset() -> Seq<u8> {
    seq![82u8, 69u8, 83u8, 69u8, 84u8]
}

fn is_reset(b: &[u8]) -> (r: bool)
    ensures
        r == (b@ == w_reset()),
{
    let w: Vec<u8> = vec![82u8, 69u8, 83u8, 69u8, 84u8];
    bytes_eq(b, w.as_slice())
}

pub open spec fn w_info() -> Seq<u8> {
    seq![73u8, 78u8, 70u8, 79u8]
}

fn is_info(b: &[u8]) -> (r: bool)
    ensures
        r == (b@ == w_info()),
{
    let w: Vec<u8> = vec![73u8, 78u8, 70u8, 79u8];
    bytes_eq(b, w.as_slice())
}


pub open spec fn incr_family(name: Seq<u8>) -> bool {
    name == w_incr() || name == w_decr() || name == w_incrby() || name == w_decrby()
}

/// The `..BY` forms take their magnitude from the third argument.
pub open spec fn incr_by(name: Seq<u8>) -> bool {
    name == w_incrby() || name == w_decrby()
}

/// The `DECR..` forms subtract.
pub open spec fn incr_neg(name: Seq<u8>) -> bool {
    name == w_decr() || name == w_decrby()
}

/// The magnitude of an INCR-family command: 1, or the third argument as an
/// integer for the `..BY` forms (`None` when absent or not an integer).
pub open spec fn incr_mag(name: Seq<u8>, args: Seq<Seq<u8>>) -> Option<i64> {
    if incr_by(name) {
        if args.len() > 2 { int_text_value_untrimmed(args[2]) } else { None }
    } else {
        Some(1)
    }
}

/// The ops a command delivers, in order. Every op carries the command's
/// client and seq, so a multi-key `DEL` delivers its later keys as duplicates.
pub open spec fn command_ops(args: Seq<Seq<u8>>, client: u32, seq: u64) -> Seq<OpSpec> {
    let name = upper_bytes(args[0]);
    if name == w_set() && args.len() >= 3 {
        seq![OpSpec { client, seq, kind: KindSpec::Put(lossy_utf8(args[1]), args[2]) }]
    } else if name == w_get() && args.len() >= 2 {
        seq![OpSpec { client, seq, kind: KindSpec::Get(lossy_utf8(args[1])) }]
    } else if incr_family(name) && args.len() >= 2 {
        match incr_mag(name, args) {
            Some(mag) => seq![OpSpec {
                client,
                seq,
                kind: KindSpec::Incr(lossy_utf8(args[1]), if incr_neg(name) { (-mag) as i64 } else { mag }),
            }],
            None => Seq::empty(),
        }
    } else if name == w_del() && args.len() >= 2 {
        Seq::new((args.len() - 1) as nat, |i: int| OpSpec { client, seq, kind: KindSpec::Del(lossy_utf8(args[i + 1])) })
    } else {
        Seq::empty()
    }
}

/// The timestamp of the `k`-th delivery: the later of the advanced clock and
/// the process tick.
pub open spec fn ts_at(clock: u64, global: u64, k: int) -> u64 {
    if clock + k + 1 >= global + k { (clock + k + 1) as u64 } else { (global + k) as u64 }
}

/// Delivering ops in order: the models passed through (first the starting
/// one) and each delivery's output (`None` for a duplicate).
pub open spec fn run_cmd(m: KvModel, ops: Seq<OpSpec>, clock: u64, global: u64) -> (Seq<KvModel>, Seq<Option<OutputSpec>>)
    decreases ops.len(),
{
    if ops.len() == 0 {
        (seq![m], Seq::empty())
    } else {
        let p = run_cmd(m, ops.drop_last(), clock, global);
        let r = dedup_step::<KvStore>(p.0.last(), ts_at(clock, global, ops.len() - 1), ops.last());
        (p.0.push(r.0), p.1.push(r.1))
    }
}

pub open spec fn simple_bytes(s: Seq<char>) -> Seq<u8> {
    seq![43u8] + key_bytes(s) + crlf()
}

pub open spec fn error_bytes(s: Seq<char>) -> Seq<u8> {
    seq![45u8] + key_bytes(s) + crlf()
}

pub open spec fn int_bytes(n: i64) -> Seq<u8> {
    seq![58u8] + decimal(n as int) + crlf()
}

pub open spec fn bulk_bytes(o: Option<Seq<u8>>) -> Seq<u8> {
    match o {
        None => seq![36u8, 45u8, 49u8] + crlf(),
        Some(b) => seq![36u8] + decimal(b.len() as int) + crlf() + b + crlf(),
    }
}

/// The count a `DEL` reports: the sum of its deliveries' integer outputs.
pub open spec fn del_count(outs: Seq<Option<OutputSpec>>) -> int
    decreases outs.len(),
{
    if outs.len() == 0 {
        0
    } else {
        del_count(outs.drop_last()) + match outs.last() {
            Some(OutputSpec::Value(Some(n))) => n as int,
            _ => 0,
        }
    }
}

/// The wire bytes of a command's reply, given the model before it, the
/// outputs of its deliveries and the model after them.
pub open spec fn command_reply(m: KvModel, args: Seq<Seq<u8>>, outs: Seq<Option<OutputSpec>>, after: KvModel) -> Seq<u8> {
    let name = upper_bytes(args[0]);
    if name == w_ping() {
        if args.len() > 1 { bulk_bytes(Some(args[1])) } else { simple_bytes("PONG"@) }
    } else if name == w_set() && args.len() >= 3 {
        simple_bytes("OK"@)
    } else if name == w_get() && args.len() >= 2 {
        bulk_bytes(kv_get(m.state, key_bytes(lossy_utf8(args[1]))))
    } else if incr_family(name) && args.len() >= 2 {
        match incr_mag(name, args) {
            None => error_bytes("ERR value is not an integer or out of range"@),
            Some(_) => match outs[0] {
                Some(OutputSpec::Value(Some(n))) => int_bytes(n),
                _ => int_bytes(
                    match kv_int(after.state, key_bytes(lossy_utf8(args[1]))) {
                        Some(v) => v,
                        None => 0,
                    },
                ),
            },
        }
    } else if name == w_del() && args.len() >= 2 {
        int_bytes(del_count(outs) as i64)
    } else if name == w_dbsize() {
        int_bytes(m.state.dom().len() as i64)
    } else if name == w_exists() && args.len() >= 2 {
        int_bytes(if kv_get(m.state, key_bytes(lossy_utf8(args[1]))) is Some { 1 } else { 0 })
    } else if name == w_command() || name == w_config() {
        seq![42u8, 48u8] + crlf()
    } else if name == w_hello() {
        error_bytes("ERR unsupported (RESP2 only)"@)
    } else if name == w_select() || name == w_flushall() || name == w_flushdb() || name == w_client() {
        simple_bytes("OK"@)
    } else if name == w_reset() {
        simple_bytes("RESET"@)
    } else if name == w_info() {
        bulk_bytes(Some(key_bytes("# Server\r\nredis_version:onebarrier-0.1\r\n"@)))
    } else {
        error_bytes("ERR unknown or malformed command '"@ + lossy_utf8(name) + "'"@)
    }
}

/// The engine can take the command: an INCR-family command's delta is
/// computable (no `DECR..` of `i64::MIN`) and its op applies without overflow.
pub open spec fn command_accepted(m: KvModel, args: Seq<Seq<u8>>, client: u32, seq: u64) -> bool {
    let name = upper_bytes(args[0]);
    (incr_family(name) && args.len() >= 2 && incr_mag(name, args) is Some) ==> {
        &&& (incr_neg(name) ==> incr_mag(name, args).unwrap() != i64::MIN)
        &&& step_accepted::<KvStore>(m, command_ops(args, client, seq)[0])
    }
}

pub open spec fn args_seq(args: Seq<Vec<u8>>) -> Seq<Seq<u8>> {
    args.map_values(|a: Vec<u8>| a@)
}

/// Encoding of a concatenation is the concatenation of the encodings.
pub proof fn lemma_encode_concat(a: Seq<char>, b: Seq<char>)
    ensures
        encode_utf8(a + b) == encode_utf8(a) + encode_utf8(b),
    decreases a.len(),
{
    if a.len() == 0 {
        assert(a + b =~= b);
        assert(encode_utf8(a) + encode_utf8(b) =~= encode_utf8(b));
    } else {
        assert((a + b).drop_first() =~= a.drop_first() + b);
        lemma_encode_concat(a.drop_first(), b);
        assert(encode_utf8(a + b) =~= encode_utf8(a) + encode_utf8(b));
    }
}

fn next_ts(clock: &mut u64, global: &mut u64) -> (t: u64)
    requires
        *old(clock) < u64::MAX,
        *old(global) < u64::MAX,
    ensures
        t == ts_at(*old(clock), *old(global), 0),
        *final(clock) == *old(clock) + 1,
        *final(global) == *old(global) + 1,
{
    *clock = *clock + 1;
    let g = *global;
    *global = *global + 1;
    if *clock >= g { *clock } else { g }
}

fn unknown_message(name: &[u8]) -> (r: String)
    ensures
        r@ == "ERR unknown or malformed command '"@ + lossy_utf8(name@) + "'"@,
{
    let pre = "ERR unknown or malformed command '";
    let post = "'";
    let mid = lossy_string(name);
    let mut b: Vec<u8> = Vec::new();
    push_slice(&mut b, str_bytes(pre));
    push_slice(&mut b, str_bytes(mid.as_str()));
    push_slice(&mut b, str_bytes(post));
    proof {
        lemma_encode_concat(pre@, mid@);
        lemma_encode_concat(pre@ + mid@, post@);
        assert(b@ =~= encode_utf8(pre@ + mid@ + post@));
    }
    match string_from_utf8(b) {
        Some(s) => s,
        None => {
            proof {
                assert(false);
            }
            String::new()
        },
    }
}

/// Whether the engine can take the command (`command_accepted`).
pub fn accepts_command(engine: &Engine<KvStore>, args: &[Vec<u8>], client: u32, seq: u64) -> (r: bool)
    requires
        engine.wf(),
        args@.len() >= 1,
    ensures
        r == command_accepted(engine.model(), args_seq(args@), client, seq),
{
    let ghost a = args_seq(args@);
    assert(a[0] == args@[0]@);
    let name = to_upper(args[0].as_slice());
    let fam = is_incr(name.as_slice()) || is_decr(name.as_slice()) || is_incrby(name.as_slice()) || is_decrby(name.as_slice());
    if !(fam && args.len() >= 2) {
        return true;
    }
    let by = is_incrby(name.as_slice()) || is_decrby(name.as_slice());
    let neg = is_decr(name.as_slice()) || is_decrby(name.as_slice());
    let mag: i64 = if by {
        if args.len() > 2 {
            assert(a[2] == args@[2]@);
            match parse_int_text_untrimmed(args[2].as_slice()) {
                Some(v) => v,
                None => return true,
            }
        } else {
            return true;
        }
    } else {
        1
    };
    if neg && mag == i64::MIN {
        return false;
    }
    let delta = if neg { -mag } else { mag };
    assert(a[1] == args@[1]@);
    let key = lossy_string(args[1].as_slice());
    let op = Op::incr(client, seq, key.as_str(), delta);
    assert(op@ == command_ops(a, client, seq)[0]);
    engine.can_deliver(&op)
}

/// What executing a command does: the engine moves through the command's
/// deliveries, the reply is `command_reply`, one durable effect per delivery
/// (stamped with its timestamp), and the clock and tick advance once per
/// delivery.
pub open spec fn exec_post(
    m0: KvModel,
    m1: KvModel,
    u0: Meter,
    u1: Meter,
    a: Seq<Seq<u8>>,
    client: u32,
    seq: u64,
    c0: u64,
    g0: u64,
    c1: u64,
    g1: u64,
    reply: Reply,
    effects: Seq<(u64, Delivery)>,
) -> bool {
    let ops = command_ops(a, client, seq);
    let run = run_cmd(m0, ops, c0, g0);
    &&& m1 == run.0.last()
    &&& reply_bytes(reply) == command_reply(m0, a, run.1, run.0.last())
    &&& effects.len() == ops.len()
    &&& c1 == c0 + ops.len()
    &&& g1 == g0 + ops.len()
    &&& forall|i: int| 0 <= i < ops.len() ==> effect_ok(#[trigger] effects[i], run, ops, c0, g0, i)
    &&& cadence_ok(effects, run.1, u0, u1)
}

/// The counters and snapshots of a run of deliveries: the meter ends where
/// the deliveries take it, and delivery `i` hands back a snapshot exactly
/// when it applies an op that fills the interval.
pub open spec fn cadence_ok(effects: Seq<(u64, Delivery)>, outs: Seq<Option<OutputSpec>>, u0: Meter, u1: Meter) -> bool {
    let ms = meter_run(u0, outs);
    &&& u1 == ms.last()
    &&& forall|i: int| 0 <= i < outs.len() && i < effects.len() ==> ((#[trigger] effects[i]).1.snapshot is Some) == meter_cuts(
        ms[i],
        outs[i] is Some,
    )
}

/// The `i`-th durable effect of a command: its timestamp, the op bytes to
/// append unless the delivery was a duplicate, and a snapshot of the model
/// after it when one was cut.
pub open spec fn effect_ok(
    e: (u64, Delivery),
    run: (Seq<KvModel>, Seq<Option<OutputSpec>>),
    ops: Seq<OpSpec>,
    c0: u64,
    g0: u64,
    i: int,
) -> bool {
    &&& e.0 == ts_at(c0, g0, i)
    &&& (e.1.append is Some <==> run.1[i] is Some)
    &&& (e.1.append is Some ==> e.1.append.unwrap()@ == encode_op(ops[i]))
    &&& (e.1.snapshot is Some ==> e.1.snapshot.unwrap()@ == engine_snapshot::<KvStore>(run.0[i + 1]))
}

pub proof fn lemma_run_cmd_one(m: KvModel, ops: Seq<OpSpec>, clock: u64, global: u64)
    requires
        ops.len() == 1,
    ensures
        ({
            let r = dedup_step::<KvStore>(m, ts_at(clock, global, 0), ops[0]);
            &&& run_cmd(m, ops, clock, global).0 == seq![m, r.0]
            &&& run_cmd(m, ops, clock, global).1 == seq![r.1]
        }),
{
    assert(ops.drop_last() =~= Seq::<OpSpec>::empty());
    assert(ops.last() == ops[0]);
    let p = run_cmd(m, ops.drop_last(), clock, global);
    assert(p == run_cmd(m, Seq::<OpSpec>::empty(), clock, global));
    assert(p.0 == seq![m]);
    assert(p.0.last() == m);
    let r = dedup_step::<KvStore>(m, ts_at(clock, global, 0), ops[0]);
    assert(run_cmd(m, ops, clock, global).0 =~= seq![m, r.0]);
    assert(run_cmd(m, ops, clock, global).1 =~= seq![r.1]);
}

pub proof fn lemma_run_cmd_none(m: KvModel, ops: Seq<OpSpec>, clock: u64, global: u64)
    requires
        ops.len() == 0,
    ensures
        run_cmd(m, ops, clock, global).0 == seq![m],
        run_cmd(m, ops, clock, global).1 == Seq::<Option<OutputSpec>>::empty(),
{
}

/// The ops of a request were delivered in order from model `m0` with the
/// clock and tick at `c0`, `g0`: the engine is at the end of their run, one
/// durable effect per op, and clock and tick advanced once per op.
pub open spec fn delivered(
    m0: KvModel,
    m1: KvModel,
    u0: Meter,
    u1: Meter,
    ops: Seq<OpSpec>,
    c0: u64,
    g0: u64,
    c1: u64,
    g1: u64,
    effects: Seq<(u64, Delivery)>,
) -> bool {
    let run = run_cmd(m0, ops, c0, g0);
    &&& m1 == run.0.last()
    &&& effects.len() == ops.len()
    &&& c1 == c0 + ops.len()
    &&& g1 == g0 + ops.len()
    &&& forall|i: int| 0 <= i < ops.len() ==> effect_ok(#[trigger] effects[i], run, ops, c0, g0, i)
    &&& cadence_ok(effects, run.1, u0, u1)
}

/// What a caller sees of a delivery: its output, or `Suppressed` for a duplicate.
pub open spec fn out_of(o: Option<OutputSpec>) -> OutputSpec {
    match o {
        Some(x) => x,
        None => OutputSpec::Suppressed,
    }
}

/// Room for `n` more deliveries: the engine's counters, the clock, the tick
/// and the connection's seq all stay below `u64::MAX`.
pub open spec fn budget(headroom: int, clock: u64, global: u64, seq: u64, n: int) -> bool {
    &&& headroom >= n
    &&& clock + n < u64::MAX
    &&& global + n < u64::MAX
    &&& seq + n < u64::MAX
}

/// Whether `budget` holds for `n` more deliveries.
pub fn has_budget(engine: &Engine<KvStore>, clock: u64, global: u64, seq: u64, n: u64) -> (r: bool)
    requires
        engine.wf(),
    ensures
        r == budget(engine.headroom(), clock, global, seq, n as int),
{
    let h = engine.headroom_left();
    h >= n && clock < u64::MAX - n && global < u64::MAX - n && seq < u64::MAX - n
}

pub proof fn lemma_delivered_empty(m0: KvModel, u0: Meter, c0: u64, g0: u64)
    ensures
        delivered(m0, m0, u0, u0, Seq::empty(), c0, g0, c0, g0, Seq::empty()),
{
    lemma_run_cmd_none(m0, Seq::empty(), c0, g0);
}

/// Deliver the next op of a request, stamping it from the clock and tick, and
/// record its durable effect.
pub(crate) fn deliver_step(
    engine: &mut Engine<KvStore>,
    op: &Op,
    clock: &mut u64,
    global: &mut u64,
    effects: &mut Vec<(u64, Delivery)>,
    Ghost(m0): Ghost<KvModel>,
    Ghost(c0): Ghost<u64>,
    Ghost(g0): Ghost<u64>,
    Ghost(u0): Ghost<Meter>,
    Ghost(done): Ghost<Seq<OpSpec>>,
) -> (out: Output)
    requires
        old(engine).wf(),
        old(engine).headroom() >= 1,
        *old(clock) < u64::MAX,
        *old(global) < u64::MAX,
        step_accepted::<KvStore>(old(engine).model(), op@),
        delivered(m0, old(engine).model(), u0, old(engine).meter(), done, c0, g0, *old(clock), *old(global), old(effects)@),
    ensures
        final(engine).wf(),
        final(engine).headroom() >= old(engine).headroom() - 1,
        delivered(m0, final(engine).model(), u0, final(engine).meter(), done.push(op@), c0, g0, *final(clock), *final(global),
            final(effects)@),
        run_cmd(m0, done.push(op@), c0, g0).1.last() == dedup_step::<KvStore>(
            old(engine).model(),
            ts_at(c0, g0, done.len() as int),
            op@,
        ).1,
        out@ == out_of(dedup_step::<KvStore>(old(engine).model(), ts_at(c0, g0, done.len() as int), op@).1),
        final(engine).model() == dedup_step::<KvStore>(old(engine).model(), ts_at(c0, g0, done.len() as int), op@).0,
{
    let ghost k = done.len() as int;
    let ghost ops = done.push(op@);
    let ghost prev = run_cmd(m0, done, c0, g0);
    let ghost next = run_cmd(m0, ops, c0, g0);
    proof {
        assert(ops.drop_last() =~= done);
        lemma_run_cmd_len(m0, done, c0, g0);
        lemma_run_cmd_prefix(m0, ops, c0, g0);
        assert(ts_at((c0 + k) as u64, (g0 + k) as u64, 0) == ts_at(c0, g0, k));
    }
    let t = next_ts(clock, global);
    let d = engine.deliver(t, op);
    let out = match &d.output {
        Output::Done => Output::Done,
        Output::Value(v) => Output::Value(*v),
        Output::Bytes(b) => match b {
            Some(v) => Output::Bytes(Some(vstd::slice::slice_to_vec(v.as_slice()))),
            None => Output::Bytes(None),
        },
        Output::Suppressed => Output::Suppressed,
    };
    proof {
        assert(next.1.last() == dedup_step::<KvStore>(prev.0.last(), ts_at(c0, g0, k), op@).1);
        assert(next.1.drop_last() =~= prev.1);
        assert forall|j: int| 0 <= j < k + 1 implies effect_ok(#[trigger] effects@.push((t, d))[j], next, ops, c0, g0, j) by {
            if j < k {
                assert(effects@.push((t, d))[j] == effects@[j]);
                assert(effect_ok(effects@[j], prev, done, c0, g0, j));
                assert(next.0[j + 1] == prev.0[j + 1]);
                assert(next.1[j] == prev.1[j]);
                assert(ops[j] == done[j]);
            } else {
                assert(ops[j] == op@);
            }
        }
        lemma_meter_run(u0, prev.1, next.1.last());
        assert(prev.1.push(next.1.last()) =~= next.1);
        let pms = meter_run(u0, prev.1);
        let nms = meter_run(u0, next.1);
        assert forall|j: int| 0 <= j < next.1.len() && j < effects@.push((t, d)).len() implies ((#[trigger] effects@.push(
            (t, d),
        )[j]).1.snapshot is Some) == meter_cuts(nms[j], next.1[j] is Some) by {
            if j < k {
                assert(effects@.push((t, d))[j] == effects@[j]);
                assert(nms[j] == pms[j]);
                assert(next.1[j] == prev.1[j]);
            }
        }
    }
    effects.push((t, d));
    out
}

/// A command that delivers exactly one op: deliver it and build the reply
/// from its output.
fn exec_single(
    engine: &mut Engine<KvStore>,
    op: &Op,
    clock: &mut u64,
    global: &mut u64,
) -> (r: (Output, Vec<(u64, Delivery)>))
    requires
        old(engine).wf(),
        old(engine).headroom() >= 1,
        *old(clock) < u64::MAX,
        *old(global) < u64::MAX,
        step_accepted::<KvStore>(old(engine).model(), op@),
    ensures
        ({
            let ops = seq![op@];
            let run = run_cmd(old(engine).model(), ops, *old(clock), *old(global));
            &&& final(engine).wf()
            &&& final(engine).model() == run.0.last()
            &&& run.1[0] is Some ==> r.0@ == run.1[0].unwrap()
            &&& run.1[0] is None ==> r.0@ == OutputSpec::Suppressed
            &&& r.1@.len() == 1
            &&& *final(clock) == *old(clock) + 1
            &&& *final(global) == *old(global) + 1
            &&& effect_ok(r.1@[0], run, ops, *old(clock), *old(global), 0)
            &&& cadence_ok(r.1@, run.1, old(engine).meter(), final(engine).meter())
        }),
{
    proof {
        lemma_run_cmd_one(engine.model(), seq![op@], *clock, *global);
        lemma_meter_run(engine.meter(), Seq::empty(), run_cmd(engine.model(), seq![op@], *clock, *global).1[0]);
        assert(Seq::<Option<OutputSpec>>::empty().push(run_cmd(engine.model(), seq![op@], *clock, *global).1[0])
            =~= run_cmd(engine.model(), seq![op@], *clock, *global).1);
    }
    let t = next_ts(clock, global);
    let d = engine.deliver(t, op);
    let out = match &d.output {
        Output::Done => Output::Done,
        Output::Value(v) => Output::Value(*v),
        Output::Bytes(b) => match b {
            Some(v) => Output::Bytes(Some(vstd::slice::slice_to_vec(v.as_slice()))),
            None => Output::Bytes(None),
        },
        Output::Suppressed => Output::Suppressed,
    };
    let mut effects: Vec<(u64, Delivery)> = Vec::new();
    effects.push((t, d));
    (out, effects)
}

fn exec_del(
    engine: &mut Engine<KvStore>,
    args: &[Vec<u8>],
    client: u32,
    seq: u64,
    clock: &mut u64,
    global: &mut u64,
) -> (r: (Reply, Vec<(u64, Delivery)>))
    requires
        old(engine).wf(),
        args@.len() >= 2,
        upper_bytes(args_seq(args@)[0]) == w_del(),
        old(engine).headroom() >= args@.len(),
        *old(clock) + args@.len() < u64::MAX,
        *old(global) + args@.len() < u64::MAX,
    ensures
        final(engine).wf(),
        exec_post(old(engine).model(), final(engine).model(), old(engine).meter(), final(engine).meter(), args_seq(args@), client, seq, *old(clock), *old(global),
            *final(clock), *final(global), r.0, r.1@),
{
    let ghost a = args_seq(args@);
    let ghost m0 = engine.model();
    let ghost c0 = *clock;
    let ghost g0 = *global;
    let ghost ops = command_ops(a, client, seq);
    let ghost u0 = engine.meter();
    assert(ops.len() == args@.len() - 1);
    let mut effects: Vec<(u64, Delivery)> = Vec::new();
    let mut count: i64 = 0;
    let mut i: usize = 1;
    assert(ops.take(0) =~= Seq::<OpSpec>::empty());
    while i < args.len()
        invariant
            1 <= i <= args@.len(),
            a == args_seq(args@),
            ops == command_ops(a, client, seq),
            ops.len() == args@.len() - 1,
            forall|j: int| 0 <= j < ops.len() ==> #[trigger] ops[j] == (OpSpec { client, seq, kind: KindSpec::Del(lossy_utf8(a[j + 1])) }),
            engine.wf(),
            engine.headroom() >= args@.len() - (i - 1),
            *clock == c0 + (i - 1),
            *global == g0 + (i - 1),
            c0 + args@.len() < u64::MAX,
            g0 + args@.len() < u64::MAX,
            engine.model() == run_cmd(m0, ops.take(i - 1), c0, g0).0.last(),
            count == del_count(run_cmd(m0, ops.take(i - 1), c0, g0).1),
            0 <= count <= i - 1,
            effects@.len() == i - 1,
            forall|j: int| 0 <= j < i - 1 ==> effect_ok(#[trigger] effects@[j], run_cmd(m0, ops.take(i - 1), c0, g0), ops, c0, g0, j),
            cadence_ok(effects@, run_cmd(m0, ops.take(i - 1), c0, g0).1, u0, engine.meter()),
        decreases args@.len() - i,
    {
        assert(a[i as int] == args@[i as int]@);
        let key = lossy_string(args[i].as_slice());
        let op = Op::del(client, seq, key.as_str());
        let ghost k = (i - 1) as int;
        assert(op@ == ops[k]);
        let ghost prev = run_cmd(m0, ops.take(k), c0, g0);
        let ghost next = run_cmd(m0, ops.take(k + 1), c0, g0);
        proof {
            assert(ops.take(k + 1).drop_last() =~= ops.take(k));
            assert(ops.take(k + 1).last() == ops[k]);
            lemma_run_cmd_len(m0, ops.take(k), c0, g0);
            lemma_run_cmd_prefix(m0, ops.take(k + 1), c0, g0);
            assert(ts_at((c0 + k) as u64, (g0 + k) as u64, 0) == ts_at(c0, g0, k));
        }
        let t = next_ts(clock, global);
        let d = engine.deliver(t, &op);
        proof {
            assert(next.1.last() == dedup_step::<KvStore>(prev.0.last(), ts_at(c0, g0, k), ops[k]).1);
            assert(next.1.drop_last() =~= prev.1);
            assert forall|j: int| 0 <= j < k + 1 implies effect_ok(#[trigger] effects@.push((t, d))[j], next, ops, c0, g0, j) by {
                if j < k {
                    assert(effects@.push((t, d))[j] == effects@[j]);
                    assert(effect_ok(effects@[j], prev, ops, c0, g0, j));
                    assert(next.0[j + 1] == prev.0[j + 1]);
                    assert(next.1[j] == prev.1[j]);
                }
            }
            lemma_meter_run(u0, prev.1, next.1.last());
            assert(prev.1.push(next.1.last()) =~= next.1);
            let pms = meter_run(u0, prev.1);
            let nms = meter_run(u0, next.1);
            assert forall|j: int| 0 <= j < next.1.len() && j < effects@.push((t, d)).len() implies ((
            #[trigger] effects@.push((t, d))[j]).1.snapshot is Some) == meter_cuts(nms[j], next.1[j] is Some) by {
                if j < k {
                    assert(effects@.push((t, d))[j] == effects@[j]);
                    assert(nms[j] == pms[j]);
                    assert(next.1[j] == prev.1[j]);
                }
            }
        }
        match &d.output {
            Output::Value(Some(n)) => {
                count = count + *n;
            },
            _ => {},
        }
        effects.push((t, d));
        i = i + 1;
    }
    proof {
        assert(ops.take(ops.len() as int) =~= ops);
        assert(upper_bytes(a[0]) != w_ping());
        assert(upper_bytes(a[0]) != w_set());
        assert(upper_bytes(a[0]) != w_get());
        assert(!incr_family(upper_bytes(a[0])));
    }
    (Reply::Int(count), effects)
}

/// Execute one command when the engine can take it: the command is not
/// empty, the counters, clock and tick have room for one delivery per
/// argument, and it is accepted (`command_accepted`). Otherwise `None`, with
/// the engine, clock and tick untouched.
pub fn try_exec_command(
    engine: &mut Engine<KvStore>,
    args: &[Vec<u8>],
    client: u32,
    seq: u64,
    clock: &mut u64,
    global: &mut u64,
) -> (r: Option<(Reply, Vec<(u64, Delivery)>)>)
    requires
        old(engine).wf(),
    ensures
        final(engine).wf(),
        r is Some <==> {
            &&& args@.len() >= 1
            &&& budget(old(engine).headroom(), *old(clock), *old(global), 0, args@.len() as int)
            &&& command_accepted(old(engine).model(), args_seq(args@), client, seq)
        },
        r is None ==> *final(engine) == *old(engine) && *final(clock) == *old(clock) && *final(global) == *old(global),
        r matches Some(x) ==> exec_post(old(engine).model(), final(engine).model(), old(engine).meter(), final(engine).meter(), args_seq(args@), client, seq,
            *old(clock), *old(global), *final(clock), *final(global), x.0, x.1@),
{
    if args.len() == 0 {
        return None;
    }
    if !has_budget(engine, *clock, *global, 0, args.len() as u64) {
        return None;
    }
    if !accepts_command(engine, args, client, seq) {
        return None;
    }
    Some(exec_command(engine, args, client, seq, clock, global))
}

/// Execute one command against the engine.
pub fn exec_command(
    engine: &mut Engine<KvStore>,
    args: &[Vec<u8>],
    client: u32,
    seq: u64,
    clock: &mut u64,
    global: &mut u64,
) -> (r: (Reply, Vec<(u64, Delivery)>))
    requires
        old(engine).wf(),
        args@.len() >= 1,
        old(engine).headroom() >= args@.len(),
        *old(clock) + args@.len() < u64::MAX,
        *old(global) + args@.len() < u64::MAX,
        command_accepted(old(engine).model(), args_seq(args@), client, seq),
    ensures
        final(engine).wf(),
        exec_post(old(engine).model(), final(engine).model(), old(engine).meter(), final(engine).meter(), args_seq(args@), client, seq, *old(clock), *old(global),
            *final(clock), *final(global), r.0, r.1@),
{
    let ghost a = args_seq(args@);
    assert(a[0] == args@[0]@);
    let name = to_upper(args[0].as_slice());
    if is_del(name.as_slice()) && args.len() >= 2 {
        return exec_del(engine, args, client, seq, clock, global);
    }
    if is_set(name.as_slice()) && args.len() >= 3 {
        return exec_set(engine, args, client, seq, clock, global);
    }
    if is_get(name.as_slice()) && args.len() >= 2 {
        return exec_get(engine, args, client, seq, clock, global);
    }
    let fam = is_incr(name.as_slice()) || is_decr(name.as_slice()) || is_incrby(name.as_slice()) || is_decrby(name.as_slice());
    if fam && args.len() >= 2 {
        return exec_incr(engine, args, client, seq, clock, global);
    }
    exec_other(engine, args, client, seq, clock, global)
}

fn exec_set(
    engine: &mut Engine<KvStore>,
    args: &[Vec<u8>],
    client: u32,
    seq: u64,
    clock: &mut u64,
    global: &mut u64,
) -> (r: (Reply, Vec<(u64, Delivery)>))
    requires
        old(engine).wf(),
        args@.len() >= 3,
        upper_bytes(args_seq(args@)[0]) == w_set(),
        old(engine).headroom() >= 1,
        *old(clock) < u64::MAX,
        *old(global) < u64::MAX,
    ensures
        final(engine).wf(),
        exec_post(old(engine).model(), final(engine).model(), old(engine).meter(), final(engine).meter(), args_seq(args@), client, seq, *old(clock), *old(global),
            *final(clock), *final(global), r.0, r.1@),
{
    let ghost a = args_seq(args@);
    let ghost m0 = engine.model();
    let ghost c0 = *clock;
    let ghost g0 = *global;
    assert(a[1] == args@[1]@ && a[2] == args@[2]@);
    let key = lossy_string(args[1].as_slice());
    let op = Op::set_bytes(client, seq, key.as_str(), args[2].as_slice());
    let ghost ops = command_ops(a, client, seq);
    assert(seq![op@] == ops);
    let (_, effects) = exec_single(engine, &op, clock, global);
    let r = Reply::ok();
    proof {
        let run = run_cmd(m0, ops, c0, g0);
        assert(upper_bytes(a[0]) != w_ping());
        assert(reply_bytes(r) == command_reply(m0, a, run.1, run.0.last()));
        assert forall|i: int| 0 <= i < ops.len() implies effect_ok(#[trigger] effects@[i], run, ops, c0, g0, i) by {
            assert(i == 0);
        }
    }
    (r, effects)
}

fn exec_get(
    engine: &mut Engine<KvStore>,
    args: &[Vec<u8>],
    client: u32,
    seq: u64,
    clock: &mut u64,
    global: &mut u64,
) -> (r: (Reply, Vec<(u64, Delivery)>))
    requires
        old(engine).wf(),
        args@.len() >= 2,
        upper_bytes(args_seq(args@)[0]) == w_get(),
        old(engine).headroom() >= 1,
        *old(clock) < u64::MAX,
        *old(global) < u64::MAX,
    ensures
        final(engine).wf(),
        exec_post(old(engine).model(), final(engine).model(), old(engine).meter(), final(engine).meter(), args_seq(args@), client, seq, *old(clock), *old(global),
            *final(clock), *final(global), r.0, r.1@),
{
    let ghost a = args_seq(args@);
    let ghost m0 = engine.model();
    let ghost c0 = *clock;
    let ghost g0 = *global;
    assert(a[1] == args@[1]@);
    let key = lossy_string(args[1].as_slice());
    let op = Op::get(client, seq, key.as_str());
    let ghost ops = command_ops(a, client, seq);
    assert(seq![op@] == ops);
    let ghost want = kv_get(m0.state, key_bytes(key@));
    let (out, effects) = exec_single(engine, &op, clock, global);
    let ghost run = run_cmd(m0, ops, c0, g0);
    proof {
        lemma_run_cmd_one(m0, ops, c0, g0);
        if run.1[0] is Some {
            assert(run.1[0].unwrap() == OutputSpec::Bytes(want));
        } else {
            assert(engine.model().state == m0.state);
        }
    }
    let reply = match out {
        Output::Bytes(b) => Reply::Bulk(b),
        _ => match engine.state().get_bytes(key.as_str()) {
            Some(v) => Reply::Bulk(Some(vstd::slice::slice_to_vec(v))),
            None => Reply::Bulk(None),
        },
    };
    proof {
        assert(upper_bytes(a[0]) != w_ping());
        assert(upper_bytes(a[0]) != w_set());
        assert(reply_bytes(reply) == bulk_bytes(want));
        assert(reply_bytes(reply) == command_reply(m0, a, run.1, run.0.last()));
        assert forall|i: int| 0 <= i < ops.len() implies effect_ok(#[trigger] effects@[i], run, ops, c0, g0, i) by {
            assert(i == 0);
        }
    }
    (reply, effects)
}

fn exec_incr(
    engine: &mut Engine<KvStore>,
    args: &[Vec<u8>],
    client: u32,
    seq: u64,
    clock: &mut u64,
    global: &mut u64,
) -> (r: (Reply, Vec<(u64, Delivery)>))
    requires
        old(engine).wf(),
        incr_family(upper_bytes(args_seq(args@)[0])),
        args@.len() >= 2,
        old(engine).headroom() >= 1,
        *old(clock) < u64::MAX,
        *old(global) < u64::MAX,
        command_accepted(old(engine).model(), args_seq(args@), client, seq),
    ensures
        final(engine).wf(),
        exec_post(old(engine).model(), final(engine).model(), old(engine).meter(), final(engine).meter(), args_seq(args@), client, seq, *old(clock), *old(global),
            *final(clock), *final(global), r.0, r.1@),
{
    let ghost a = args_seq(args@);
    assert(a[0] == args@[0]@ && a[1] == args@[1]@);
    let name = to_upper(args[0].as_slice());
    let by = is_incrby(name.as_slice()) || is_decrby(name.as_slice());
    let neg = is_decr(name.as_slice()) || is_decrby(name.as_slice());
    let mag: i64 = if by {
        let parsed = if args.len() > 2 {
            assert(a[2] == args@[2]@);
            parse_int_text_untrimmed(args[2].as_slice())
        } else {
            None
        };
        match parsed {
            Some(v) => v,
            None => {
                let effects: Vec<(u64, Delivery)> = Vec::new();
                proof {
                    lemma_run_cmd_none(engine.model(), command_ops(a, client, seq), *clock, *global);
                }
                return (Reply::Error("ERR value is not an integer or out of range".to_owned()), effects);
            },
        }
    } else {
        1
    };
    let delta = if neg { -mag } else { mag };
    let key = lossy_string(args[1].as_slice());
    let op = Op::incr(client, seq, key.as_str(), delta);
    assert(seq![op@] == command_ops(a, client, seq));
    let (out, effects) = exec_single(engine, &op, clock, global);
    let reply = match out {
        Output::Value(Some(n)) => Reply::Int(n),
        _ => Reply::Int(
            match engine.state().get_int(key.as_str()) {
                Some(v) => v,
                None => 0,
            },
        ),
    };
    (reply, effects)
}

fn exec_other(
    engine: &mut Engine<KvStore>,
    args: &[Vec<u8>],
    client: u32,
    seq: u64,
    clock: &mut u64,
    global: &mut u64,
) -> (r: (Reply, Vec<(u64, Delivery)>))
    requires
        old(engine).wf(),
        args@.len() >= 1,
        !(upper_bytes(args_seq(args@)[0]) == w_del() && args@.len() >= 2),
        !(upper_bytes(args_seq(args@)[0]) == w_set() && args@.len() >= 3),
        !(upper_bytes(args_seq(args@)[0]) == w_get() && args@.len() >= 2),
        !(incr_family(upper_bytes(args_seq(args@)[0])) && args@.len() >= 2),
    ensures
        final(engine).wf(),
        exec_post(old(engine).model(), final(engine).model(), old(engine).meter(), final(engine).meter(), args_seq(args@), client, seq, *old(clock), *old(global),
            *final(clock), *final(global), r.0, r.1@),
{
    let ghost a = args_seq(args@);
    assert(a[0] == args@[0]@);
    let name = to_upper(args[0].as_slice());
    let effects: Vec<(u64, Delivery)> = Vec::new();
    proof {
        assert(command_ops(a, client, seq) =~= Seq::<OpSpec>::empty());
        lemma_run_cmd_none(engine.model(), command_ops(a, client, seq), *clock, *global);
    }
    if is_ping(name.as_slice()) {
        if args.len() > 1 {
            assert(a[1] == args@[1]@);
            return (Reply::Bulk(Some(vstd::slice::slice_to_vec(args[1].as_slice()))), effects);
        } else {
            return (Reply::pong(), effects);
        }
    }
    if is_dbsize(name.as_slice()) {
        return (Reply::Int(engine.state().len() as i64), effects);
    }
    if is_exists(name.as_slice()) && args.len() >= 2 {
        assert(a[1] == args@[1]@);
        let key = lossy_string(args[1].as_slice());
        let present = engine.state().get_bytes(key.as_str()).is_some();
        return (Reply::Int(if present { 1 } else { 0 }), effects);
    }
    if is_command(name.as_slice()) || is_config(name.as_slice()) {
        let r = Reply::Array(Vec::new());
        assert(reply_bytes(r) =~= seq![42u8, 48u8] + crlf());
        return (r, effects);
    }
    if is_hello(name.as_slice()) {
        return (Reply::Error("ERR unsupported (RESP2 only)".to_owned()), effects);
    }
    if is_select(name.as_slice()) || is_flushall(name.as_slice()) || is_flushdb(name.as_slice()) || is_client(name.as_slice()) {
        return (Reply::ok(), effects);
    }
    if is_reset(name.as_slice()) {
        return (Reply::Simple("RESET".to_owned()), effects);
    }
    if is_info(name.as_slice()) {
        let s = "# Server\r\nredis_version:onebarrier-0.1\r\n";
        return (Reply::Bulk(Some(vstd::slice::slice_to_vec(str_bytes(s)))), effects);
    }
    (Reply::Error(unknown_message(name.as_slice())), effects)
}

pub proof fn lemma_run_cmd_len(m: KvModel, ops: Seq<OpSpec>, clock: u64, global: u64)
    ensures
        run_cmd(m, ops, clock, global).0.len() == ops.len() + 1,
        run_cmd(m, ops, clock, global).1.len() == ops.len(),
        run_cmd(m, ops, clock, global).0[0] == m,
    decreases ops.len(),
{
    if ops.len() > 0 {
        lemma_run_cmd_len(m, ops.drop_last(), clock, global);
    }
}

/// Extending the ops extends the run: earlier models and outputs stay.
pub proof fn lemma_run_cmd_prefix(m: KvModel, ops: Seq<OpSpec>, clock: u64, global: u64)
    requires
        ops.len() > 0,
    ensures
        ({
            let p = run_cmd(m, ops.drop_last(), clock, global);
            let r = run_cmd(m, ops, clock, global);
            &&& forall|j: int| 0 <= j < p.0.len() ==> r.0[j] == #[trigger] p.0[j]
            &&& forall|j: int| 0 <= j < p.1.len() ==> r.1[j] == #[trigger] p.1[j]
        }),
{
    lemma_run_cmd_len(m, ops.drop_last(), clock, global);
}

/// What the counter command words are: each is of the family, none is
/// `SET` or `GET`; the six-letter ones take an amount and the `D` ones
/// subtract.
proof fn lemma_counter_word(name: Seq<u8>)
    requires
        name == seq![73u8, 78u8, 67u8, 82u8] || name == seq![68u8, 69u8, 67u8, 82u8] || name == seq![
            73u8,
            78u8,
            67u8,
            82u8,
            66u8,
            89u8,
        ] || name == seq![68u8, 69u8, 67u8, 82u8, 66u8, 89u8],
    ensures
        incr_family(name),
        name != w_set(),
        name != w_get(),
        incr_by(name) == (name.len() == 6),
        incr_neg(name) == (name[0] == 68u8),
{
    assert(w_set().len() == 3 && w_get().len() == 3);
    assert(w_incr().len() == 4 && w_decr().len() == 4 && w_incrby().len() == 6 && w_decrby().len() == 6);
    assert(w_incr()[0] == 73u8 && w_decr()[0] == 68u8 && w_incrby()[0] == 73u8 && w_decrby()[0] == 68u8);
    if name.len() == 4 {
        assert(name != w_incrby() && name != w_decrby());
    } else {
        assert(name != w_incr() && name != w_decr());
    }
    if name[0] == 68u8 {
        assert(name != w_incr() && name != w_incrby());
    } else {
        assert(name != w_decr() && name != w_decrby());
    }
}

/// The counter commands, in any case, add to a key's integer: `INCR k` adds
/// 1, `DECR k` subtracts 1, `INCRBY k n` adds `n` and `DECRBY k n` subtracts
/// `n`. As a new request of its client (and with no overflow), the command
/// delivers one increment of the key by that amount, the key then holds the
/// old integer (0 when absent or not an integer) plus the amount, and the
/// reply is that sum.
#[verifier::rlimit(40)]
pub proof fn lemma_counter_commands(
    m0: KvModel,
    word: Seq<u8>,
    key: Seq<u8>,
    n: i64,
    args: Seq<Seq<u8>>,
    delta: i64,
    client: u32,
    seq: u64,
    c0: u64,
    g0: u64,
)
    requires
        // INCR
        (upper_bytes(word) == seq![73u8, 78u8, 67u8, 82u8] && args == seq![word, key] && delta == 1)
        // DECR
        || (upper_bytes(word) == seq![68u8, 69u8, 67u8, 82u8] && args == seq![word, key] && delta == -1)
        // INCRBY
        || (upper_bytes(word) == seq![73u8, 78u8, 67u8, 82u8, 66u8, 89u8] && args == seq![word, key, decimal(n as int)]
            && delta == n)
        // DECRBY
        || (upper_bytes(word) == seq![68u8, 69u8, 67u8, 82u8, 66u8, 89u8] && args == seq![word, key, decimal(n as int)]
            && n > i64::MIN && delta == -n),
        seq > high_water(m0.applied, client),
        i64::MIN <= incr_base(m0.state, key_bytes(lossy_utf8(key))) + delta <= i64::MAX,
    ensures
        ({
            let kb = key_bytes(lossy_utf8(key));
            let sum = (incr_base(m0.state, kb) + delta) as i64;
            let ops = command_ops(args, client, seq);
            let run = run_cmd(m0, ops, c0, g0);
            &&& ops == seq![OpSpec { client, seq, kind: KindSpec::Incr(lossy_utf8(key), delta) }]
            &&& kv_int(run.0.last().state, kb) == Some(sum)
            &&& command_reply(m0, args, run.1, run.0.last()) == int_bytes(sum)
        }),
{
    let kb = key_bytes(lossy_utf8(key));
    let sum = (incr_base(m0.state, kb) + delta) as i64;
    lemma_decimal_parses(n);
    assert(args[0] == word && args[1] == key);
    if args.len() > 2 {
        assert(args[2] == decimal(n as int));
    }
    let name = upper_bytes(args[0]);
    assert(name == upper_bytes(word));
    lemma_counter_word(name);
    let ops = command_ops(args, client, seq);
    assert(ops == seq![OpSpec { client, seq, kind: KindSpec::Incr(lossy_utf8(key), delta) }]);
    lemma_run_cmd_one(m0, ops, c0, g0);
    lemma_decimal_parses(sum);
}

/// A stored value reads back: after a `SET key value` that is new for its
/// client, a `GET key` answers with the value, whatever its own seq.
pub proof fn lemma_set_then_get(
    m0: KvModel,
    set_word: Seq<u8>,
    get_word: Seq<u8>,
    key: Seq<u8>,
    val: Seq<u8>,
    client: u32,
    s1: u64,
    s2: u64,
    c0: u64,
    g0: u64,
    c1: u64,
    g1: u64,
)
    requires
        upper_bytes(set_word) == w_set(),
        upper_bytes(get_word) == w_get(),
        s1 > high_water(m0.applied, client),
    ensures
        ({
            let a1 = seq![set_word, key, val];
            let run1 = run_cmd(m0, command_ops(a1, client, s1), c0, g0);
            let m1 = run1.0.last();
            let a2 = seq![get_word, key];
            let run2 = run_cmd(m1, command_ops(a2, client, s2), c1, g1);
            &&& command_reply(m0, a1, run1.1, m1) == simple_bytes("OK"@)
            &&& command_reply(m1, a2, run2.1, run2.0.last()) == bulk_bytes(Some(val))
        }),
{
    let a1 = seq![set_word, key, val];
    let ops1 = command_ops(a1, client, s1);
    assert(ops1 == seq![OpSpec { client, seq: s1, kind: KindSpec::Put(lossy_utf8(key), val) }]);
    lemma_run_cmd_one(m0, ops1, c0, g0);
    let m1 = run_cmd(m0, ops1, c0, g0).0.last();
    assert(m1.state == m0.state.insert(key_bytes(lossy_utf8(key)), val));
    assert(w_set() != w_ping());
    assert(w_get() != w_ping() && w_get() != w_set());
}

} // verus!

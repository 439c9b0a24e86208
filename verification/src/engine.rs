//! The replication engine: applies a totally-ordered op stream to a
//! deterministic `StateMachine` with exactly-once semantics (a per-client
//! high-water mark suppresses duplicates), cuts snapshots every
//! `snap_interval` applied ops, and recovers from a durable image — the latest
//! snapshot plus the ordered log of ops applied since — by restoring the
//! snapshot and replaying the log. The engine itself does no I/O: `deliver`
//! and `snapshot` return the bytes to make durable, and recovery takes the
//! durable contents as values.

use vstd::prelude::*;
use vstd::bytes::*;
use crate::wire::{u32_at, u64_at, push_u32, push_u64, Reader};
use crate::state::{
    Op, Output, OpSpec, OutputSpec, StateMachine, encode_op, decode_op, field32, cap32,
    push_field32, op_fits_wire, lemma_op_roundtrip, KvStore, KindSpec, key_bytes,
};
use crate::sorted::{
    sorted_by, to_map, sorted_entries, strict_total, u32_order, lemma_u32_order_total,
    lemma_insert_at, lemma_update_at, lemma_to_map_at, lemma_sorted_entries_of, lemma_map_len,
    has_key,
};
use vstd::pervasive::VecAdditionalExecFns;

verus! {

broadcast use vstd::set::group_set_axioms;

/// Counters for experiments and assertions.
#[derive(Clone, Debug, Default, PartialEq, Eq)]
pub struct Stats {
    /// Ops applied for the first time (state-changing).
    pub applied: u64,
    /// Duplicates recognized and suppressed (exactly-once).
    pub suppressed: u64,
    /// Snapshots taken.
    pub snapshots: u64,
    /// Records re-applied during the last recovery.
    pub replayed: u64,
}

/// What an engine's behaviour depends on: the machine state, the per-client
/// high-water marks, and the highest applied timestamp.
pub struct EngineModel<M> {
    pub state: M,
    pub applied: Map<u32, u64>,
    pub last_ts: u64,
}

/// The engine's delivery counters and snapshot cadence: its counters, the
/// applied ops since the last snapshot, and the snapshot interval.
pub struct Meter {
    pub stats: Stats,
    pub since: u64,
    pub interval: u64,
}

/// A delivery cuts a snapshot when it applies an op and that op fills the
/// interval.
pub open spec fn meter_cuts(u: Meter, applied: bool) -> bool {
    applied && u.since + 1 >= u.interval
}

/// The meter after one delivery: a duplicate counts as suppressed; an applied
/// op counts as applied, and either cuts a snapshot (restarting the count) or
/// adds one to the count since the last snapshot.
pub open spec fn meter_step(u: Meter, applied: bool) -> Meter {
    if !applied {
        Meter { stats: Stats { suppressed: (u.stats.suppressed + 1) as u64, ..u.stats }, ..u }
    } else if meter_cuts(u, applied) {
        Meter {
            stats: Stats { applied: (u.stats.applied + 1) as u64, snapshots: (u.stats.snapshots + 1) as u64, ..u.stats },
            since: 0,
            ..u
        }
    } else {
        Meter { stats: Stats { applied: (u.stats.applied + 1) as u64, ..u.stats }, since: (u.since + 1) as u64, ..u }
    }
}

/// The meter before each of a run of deliveries and after the last, given
/// each delivery's output (`None` for a duplicate).
pub open spec fn meter_run(u: Meter, outs: Seq<Option<OutputSpec>>) -> Seq<Meter>
    decreases outs.len(),
{
    if outs.len() == 0 {
        seq![u]
    } else {
        let p = meter_run(u, outs.drop_last());
        p.push(meter_step(p.last(), outs.last() is Some))
    }
}

/// A run of meters has one entry per delivery plus the last, starts at the
/// given meter, and extending the deliveries keeps its earlier entries.
pub proof fn lemma_meter_run(u: Meter, outs: Seq<Option<OutputSpec>>, x: Option<OutputSpec>)
    ensures
        meter_run(u, outs).len() == outs.len() + 1,
        meter_run(u, outs)[0] == u,
        meter_run(u, outs.push(x)) == meter_run(u, outs).push(meter_step(meter_run(u, outs).last(), x is Some)),
    decreases outs.len(),
{
    assert(outs.push(x).drop_last() =~= outs);
    if outs.len() > 0 {
        lemma_meter_run(u, outs.drop_last(), outs.last());
    }
}

/// A fresh engine's model.
pub open spec fn init_model<S: StateMachine>() -> EngineModel<S::Model> {
    EngineModel { state: S::init_model(), applied: Map::empty(), last_ts: 0 }
}

/// Highest `seq` applied for `client` (0 when none).
pub open spec fn high_water(applied: Map<u32, u64>, client: u32) -> u64 {
    if applied.dom().contains(client) {
        applied[client]
    } else {
        0
    }
}

/// `op` was already applied: its `seq` is at or below its client's high-water mark.
pub open spec fn is_dup<M>(m: EngineModel<M>, op: OpSpec) -> bool {
    op.seq <= high_water(m.applied, op.client)
}

/// Apply with exactly-once dedup: a duplicate leaves everything unchanged and
/// yields `None`; a new op is applied, raises its client's mark to its `seq`
/// and the horizon to `ts` (if later), and yields its output.
pub open spec fn dedup_step<S: StateMachine>(m: EngineModel<S::Model>, ts: u64, op: OpSpec) -> (
    EngineModel<S::Model>,
    Option<OutputSpec>,
) {
    if is_dup(m, op) {
        (m, None)
    } else {
        let r = S::apply_model(m.state, op);
        (
            EngineModel {
                state: r.0,
                applied: m.applied.insert(op.client, op.seq),
                last_ts: if ts > m.last_ts { ts } else { m.last_ts },
            },
            Some(r.1),
        )
    }
}

/// The machine can take `op` now: it is a duplicate or applies without overflow.
pub open spec fn step_accepted<S: StateMachine>(m: EngineModel<S::Model>, op: OpSpec) -> bool {
    is_dup(m, op) || S::accepts(m.state, op)
}

/// Encoding of the high-water marks: `client(4) seq(8)` each.
pub open spec fn marks_bytes(s: Seq<(u32, u64)>) -> Seq<u8>
    decreases s.len(),
{
    if s.len() == 0 {
        Seq::empty()
    } else {
        marks_bytes(s.drop_last()) + spec_u32_to_le_bytes(s.last().0) + spec_u64_to_le_bytes(s.last().1)
    }
}

/// Snapshot encoding of an engine:
/// `last_ts(8) count(4) [client(4) seq(8)]* smlen(4) state_snapshot`, marks in client order.
pub open spec fn engine_snapshot<S: StateMachine>(m: EngineModel<S::Model>) -> Seq<u8> {
    let s = sorted_entries(m.applied, u32_order());
    spec_u64_to_le_bytes(m.last_ts) + spec_u32_to_le_bytes(cap32(s.len())) + marks_bytes(s) + field32(
        S::snapshot_model(m.state),
    )
}

/// Reading up to `n` marks from position 12: the marks read, the position
/// reached, and whether reading stopped at a truncated mark.
pub open spec fn marks_loop(b: Seq<u8>, n: nat) -> (Map<u32, u64>, int, bool)
    decreases n,
{
    if n == 0 {
        (Map::empty(), 12, false)
    } else {
        let prev = marks_loop(b, (n - 1) as nat);
        let q = prev.1;
        if prev.2 {
            prev
        } else if q + 4 > b.len() {
            (prev.0, q, true)
        } else if q + 12 > b.len() {
            (prev.0, q + 4, true)
        } else {
            (prev.0.insert(u32_at(b, q), u64_at(b, q + 4)), q + 12, false)
        }
    }
}

/// Installing snapshot bytes over `m`: when every field is present the state,
/// marks and horizon are replaced by the snapshot's; otherwise nothing changes.
pub open spec fn load_snapshot<S: StateMachine>(m: EngineModel<S::Model>, b: Seq<u8>) -> EngineModel<S::Model> {
    if b.len() < 12 {
        m
    } else {
        let ml = marks_loop(b, u32_at(b, 8) as nat);
        let p = ml.1;
        if p + 4 > b.len() {
            m
        } else {
            let sl = u32_at(b, p) as int;
            if p + 4 + sl > b.len() {
                m
            } else {
                EngineModel {
                    state: S::restore_model(b.subrange(p + 4, p + 4 + sl)),
                    applied: ml.0,
                    last_ts: u64_at(b, 0),
                }
            }
        }
    }
}

/// Every field of a snapshot is present, so installing it replaces the engine's model.
pub open spec fn snapshot_complete(b: Seq<u8>) -> bool {
    &&& b.len() >= 12
    &&& {
        let p = marks_loop(b, u32_at(b, 8) as nat).1;
        &&& p + 4 <= b.len()
        &&& p + 4 + u32_at(b, p) <= b.len()
    }
}

/// Replaying log records in order over `m` with dedup: the model reached and
/// how many records were applied (undecodable records are skipped).
pub open spec fn replay<S: StateMachine>(m: EngineModel<S::Model>, log: Seq<(u64, Seq<u8>)>) -> (
    EngineModel<S::Model>,
    nat,
)
    decreases log.len(),
{
    if log.len() == 0 {
        (m, 0)
    } else {
        let prev = replay::<S>(m, log.drop_last());
        match decode_op(log.last().1) {
            None => prev,
            Some(op) => {
                let r = dedup_step::<S>(prev.0, log.last().0, op);
                (r.0, if r.1 is Some { prev.1 + 1 } else { prev.1 })
            },
        }
    }
}

/// Every record replay applies is accepted by the machine (no overflow).
pub open spec fn replay_accepted<S: StateMachine>(m: EngineModel<S::Model>, log: Seq<(u64, Seq<u8>)>) -> bool
    decreases log.len(),
{
    if log.len() == 0 {
        true
    } else {
        &&& replay_accepted::<S>(m, log.drop_last())
        &&& match decode_op(log.last().1) {
            None => true,
            Some(op) => step_accepted::<S>(replay::<S>(m, log.drop_last()).0, op),
        }
    }
}

/// The durable image an engine leaves: the latest snapshot (if any) and the
/// ordered log of `(ts, op bytes)` records appended since.
pub struct DurableImage {
    pub snapshot: Option<Seq<u8>>,
    pub log: Seq<(u64, Seq<u8>)>,
}

/// The model before replay: fresh, with the snapshot installed if there is one.
pub open spec fn recovery_base<S: StateMachine>(snapshot: Option<Seq<u8>>) -> EngineModel<S::Model> {
    match snapshot {
        Some(b) => load_snapshot::<S>(init_model::<S>(), b),
        None => init_model::<S>(),
    }
}

/// The model recovered from a durable image.
pub open spec fn recover_model<S: StateMachine>(img: DurableImage) -> EngineModel<S::Model> {
    replay::<S>(recovery_base::<S>(img.snapshot), img.log).0
}

/// Recovery from this image applies no op that would overflow.
pub open spec fn recovery_accepted<S: StateMachine>(img: DurableImage) -> bool {
    replay_accepted::<S>(recovery_base::<S>(img.snapshot), img.log)
}

pub open spec fn log_view(log: Seq<(u64, Vec<u8>)>) -> Seq<(u64, Seq<u8>)> {
    log.map_values(|r: (u64, Vec<u8>)| (r.0, r.1@))
}

pub open spec fn opt_slice_view(s: Option<&[u8]>) -> Option<Seq<u8>> {
    match s {
        Some(b) => Some(b@),
        None => None,
    }
}

/// The durable effects of one delivery: the op bytes to append to the log
/// (with the delivery's timestamp), then the snapshot to install (which
/// clears the log), each when present.
pub struct Delivery {
    pub output: Output,
    pub append: Option<Vec<u8>>,
    pub snapshot: Option<Vec<u8>>,
}

/// The durable image after performing a delivery's effects.
pub open spec fn image_after(img: DurableImage, ts: u64, append: Option<Seq<u8>>, snapshot: Option<Seq<u8>>) -> DurableImage {
    let img1 = match append {
        Some(b) => DurableImage { snapshot: img.snapshot, log: img.log.push((ts, b)) },
        None => img,
    };
    match snapshot {
        Some(s) => DurableImage { snapshot: Some(s), log: Seq::empty() },
        None => img1,
    }
}

/// The replication engine over a deterministic `StateMachine`.
pub struct Engine<S: StateMachine> {
    state: S,
    /// Per-client highest `seq` applied, sorted by client.
    applied: Vec<(u32, u64)>,
    /// Highest applied timestamp (the snapshot horizon when we cut).
    last_ts: u64,
    snap_interval: u64,
    ops_since_snap: u64,
    pub stats: Stats,
}

impl<S: StateMachine> Engine<S> {
    /// Internal consistency: marks sorted by client, a positive interval, and
    /// fewer ops since the last snapshot than the interval.
    pub closed spec fn wf(&self) -> bool {
        &&& sorted_by(self.applied@, u32_order())
        &&& self.snap_interval >= 1
        &&& self.ops_since_snap < self.snap_interval
    }

    pub closed spec fn model(&self) -> EngineModel<S::Model> {
        EngineModel { state: self.state.model(), applied: to_map(self.applied@), last_ts: self.last_ts }
    }

    /// Snapshots are cut every this many applied ops (at least 1).
    pub closed spec fn interval(&self) -> u64 {
        self.snap_interval
    }

    /// The counters.
    pub closed spec fn counters(&self) -> Stats {
        self.stats
    }

    /// Applied ops since the last snapshot.
    pub closed spec fn since_snapshot(&self) -> u64 {
        self.ops_since_snap
    }

    /// The counters and snapshot cadence.
    pub open spec fn meter(&self) -> Meter {
        Meter { stats: self.counters(), since: self.since_snapshot(), interval: self.interval() }
    }

    /// How many more deliveries the counters can count before one would
    /// reach `u64::MAX`.
    pub closed spec fn headroom(&self) -> int {
        let a = u64::MAX - self.stats.applied;
        let b = u64::MAX - self.stats.suppressed;
        let c = u64::MAX - self.stats.snapshots;
        if a <= b && a <= c { a } else if b <= c { b } else { c }
    }

    /// The headroom is what the fullest counter leaves below `u64::MAX`.
    pub proof fn lemma_headroom(&self)
        ensures
            self.headroom() == u64::MAX - max3(
                self.counters().applied as int,
                self.counters().suppressed as int,
                self.counters().snapshots as int,
            ),
            0 <= self.headroom() <= u64::MAX,
    {
    }
}

/// The largest of three integers.
pub open spec fn max3(a: int, b: int, c: int) -> int {
    if a >= b && a >= c { a } else if b >= c { b } else { c }
}

/// Highest `seq` recorded for `c` in sorted marks.
fn mark_of(marks: &Vec<(u32, u64)>, c: u32) -> (r: u64)
    requires
        sorted_by(marks@, u32_order()),
    ensures
        r == high_water(to_map(marks@), c),
{
    proof {
        lemma_u32_order_total();
    }
    let mut i: usize = 0;
    while i < marks.len()
        invariant
            i <= marks@.len(),
            sorted_by(marks@, u32_order()),
            strict_total(u32_order()),
            forall|j: int| 0 <= j < i ==> (#[trigger] marks@[j]).0 != c,
        decreases marks@.len() - i,
    {
        if marks[i].0 == c {
            proof {
                lemma_to_map_at(marks@, u32_order(), i as int);
            }
            return marks[i].1;
        }
        i = i + 1;
    }
    assert(!has_key(marks@, c));
    0
}

/// Record `s` as the mark for `c`.
fn set_mark(marks: &mut Vec<(u32, u64)>, c: u32, s: u64)
    requires
        sorted_by(old(marks)@, u32_order()),
    ensures
        sorted_by(final(marks)@, u32_order()),
        to_map(final(marks)@) == to_map(old(marks)@).insert(c, s),
{
    proof {
        lemma_u32_order_total();
    }
    let mut i: usize = 0;
    while i < marks.len() && marks[i].0 < c
        invariant
            i <= marks@.len(),
            marks@ == old(marks)@,
            forall|j: int| 0 <= j < i ==> (#[trigger] marks@[j]).0 < c,
        decreases marks@.len() - i,
    {
        i = i + 1;
    }
    if i < marks.len() && marks[i].0 == c {
        proof {
            lemma_update_at(marks@, u32_order(), i as int, s);
        }
        marks.set(i, (c, s));
    } else {
        proof {
            assert forall|j: int| 0 <= j < i implies u32_order()(#[trigger] marks@[j].0, c) by {}
            lemma_insert_at(marks@, u32_order(), i as int, c, s);
        }
        marks.insert(i, (c, s));
    }
}


fn cap_u32(n: usize) -> (r: u32)
    ensures
        r == cap32(n as nat),
{
    if n <= 0xffff_ffff { n as u32 } else { 0xffff_ffff }
}

impl<S: StateMachine> Engine<S> {
    /// A fresh engine that snapshots every `snap_interval` applied ops (at least 1).
    pub fn create(snap_interval: u64) -> (e: Self)
        ensures
            e.wf(),
            e.model() == init_model::<S>(),
            e.interval() == (if snap_interval >= 1 { snap_interval } else { 1 }),
            e.since_snapshot() == 0,
            e.counters() == (Stats { applied: 0, suppressed: 0, snapshots: 0, replayed: 0 }),
            e.headroom() == u64::MAX,
    {
        let e = Engine {
            state: S::initial(),
            applied: Vec::new(),
            last_ts: 0,
            snap_interval: if snap_interval >= 1 { snap_interval } else { 1 },
            ops_since_snap: 0,
            stats: Stats { applied: 0, suppressed: 0, snapshots: 0, replayed: 0 },
        };
        assert(to_map(e.applied@) =~= Map::<u32, u64>::empty());
        e
    }

    /// The machine state.
    pub fn state(&self) -> (r: &S)
        ensures
            r.model() == self.model().state,
    {
        &self.state
    }

    /// A client id above every client the engine holds a mark for (1 when it
    /// holds none), or `u32::MAX` when the largest is already that: a new
    /// connection given it cannot collide with an earlier client's seqs.
    pub fn next_client_id(&self) -> (r: u32)
        requires
            self.wf(),
        ensures
            r >= 1,
            r < u32::MAX ==> forall|c: u32| #[trigger] self.model().applied.contains_key(c) ==> c < r,
    {
        let n = self.applied.len();
        if n == 0 {
            assert forall|c: u32| #[trigger] self.model().applied.contains_key(c) implies c < 1 by {
                assert(has_key(self.applied@, c));
            }
            return 1;
        }
        let top = self.applied[n - 1].0;
        proof {
            assert forall|c: u32| #[trigger] self.model().applied.contains_key(c) implies c <= top by {
                assert(has_key(self.applied@, c));
                let i = choose|i: int| 0 <= i < self.applied@.len() && #[trigger] self.applied@[i].0 == c;
                if i < n - 1 {
                    assert(u32_order()(self.applied@[i].0, self.applied@[n - 1].0));
                }
            }
        }
        if top == u32::MAX { u32::MAX } else { top + 1 }
    }

    /// How many more deliveries the counters can count (`headroom`).
    pub fn headroom_left(&self) -> (r: u64)
        ensures
            r == self.headroom(),
    {
        let a = u64::MAX - self.stats.applied;
        let b = u64::MAX - self.stats.suppressed;
        let c = u64::MAX - self.stats.snapshots;
        if a <= b && a <= c { a } else if b <= c { b } else { c }
    }

    /// Highest applied timestamp.
    pub fn last_ts(&self) -> (r: u64)
        ensures
            r == self.model().last_ts,
    {
        self.last_ts
    }

    /// Highest `seq` applied for `client`.
    pub fn high_water_of(&self, client: u32) -> (r: u64)
        requires
            self.wf(),
        ensures
            r == high_water(self.model().applied, client),
    {
        mark_of(&self.applied, client)
    }

    /// Apply with exactly-once dedup, without touching durability (shared by
    /// the live path and replay). `None` = duplicate (suppressed).
    fn apply_dedup(&mut self, ts_ns: u64, op: &Op) -> (r: Option<Output>)
        requires
            old(self).wf(),
            step_accepted::<S>(old(self).model(), op@),
        ensures
            final(self).wf(),
            final(self).model() == dedup_step::<S>(old(self).model(), ts_ns, op@).0,
            match r {
                Some(o) => dedup_step::<S>(old(self).model(), ts_ns, op@).1 == Some(o@),
                None => dedup_step::<S>(old(self).model(), ts_ns, op@).1 is None,
            },
            final(self).snap_interval == old(self).snap_interval,
            final(self).ops_since_snap == old(self).ops_since_snap,
            final(self).counters() == old(self).counters(),
    {
        let hw = mark_of(&self.applied, op.client);
        if op.seq <= hw {
            return None;
        }
        let out = self.state.apply(op);
        set_mark(&mut self.applied, op.client, op.seq);
        if ts_ns > self.last_ts {
            self.last_ts = ts_ns;
        }
        Some(out)
    }

    /// The live delivery path: apply one totally-ordered op and report what to
    /// make durable. A duplicate is suppressed: no re-apply, no output, nothing
    /// to append. A new op's bytes are to be appended to the log, and every
    /// `interval()` applied ops a snapshot is cut.
    pub fn deliver(&mut self, ts_ns: u64, op: &Op) -> (d: Delivery)
        requires
            old(self).wf(),
            old(self).headroom() >= 1,
            step_accepted::<S>(old(self).model(), op@),
        ensures
            final(self).wf(),
            final(self).headroom() >= old(self).headroom() - 1,
            final(self).model() == dedup_step::<S>(old(self).model(), ts_ns, op@).0,
            final(self).interval() == old(self).interval(),
            final(self).counters().replayed == old(self).counters().replayed,
            final(self).meter() == meter_step(old(self).meter(), dedup_step::<S>(old(self).model(), ts_ns, op@).1 is Some),
            (d.snapshot is Some) == meter_cuts(old(self).meter(), dedup_step::<S>(old(self).model(), ts_ns, op@).1 is Some),
            match dedup_step::<S>(old(self).model(), ts_ns, op@).1 {
                None => {
                    &&& d.output@ == OutputSpec::Suppressed
                    &&& d.append is None
                    &&& d.snapshot is None
                    &&& final(self).counters().suppressed == old(self).counters().suppressed + 1
                    &&& final(self).counters().applied == old(self).counters().applied
                    &&& final(self).counters().snapshots == old(self).counters().snapshots
                    &&& final(self).since_snapshot() == old(self).since_snapshot()
                },
                Some(o) => {
                    &&& d.output@ == o
                    &&& d.append is Some
                    &&& d.append.unwrap()@ == encode_op(op@)
                    &&& final(self).counters().applied == old(self).counters().applied + 1
                    &&& final(self).counters().suppressed == old(self).counters().suppressed
                    &&& if old(self).since_snapshot() + 1 >= old(self).interval() {
                        &&& d.snapshot is Some
                        &&& d.snapshot.unwrap()@ == engine_snapshot::<S>(final(self).model())
                        &&& final(self).since_snapshot() == 0
                        &&& final(self).counters().snapshots == old(self).counters().snapshots + 1
                    } else {
                        &&& d.snapshot is None
                        &&& final(self).since_snapshot() == old(self).since_snapshot() + 1
                        &&& final(self).counters().snapshots == old(self).counters().snapshots
                    }
                },
            },
    {
        match self.apply_dedup(ts_ns, op) {
            None => {
                self.stats.suppressed = self.stats.suppressed + 1;
                Delivery { output: Output::Suppressed, append: None, snapshot: None }
            },
            Some(out) => {
                self.stats.applied = self.stats.applied + 1;
                let bytes = op.encode();
                self.ops_since_snap = self.ops_since_snap + 1;
                if self.ops_since_snap >= self.snap_interval {
                    let snap = self.cut();
                    Delivery { output: out, append: Some(bytes), snapshot: Some(snap) }
                } else {
                    Delivery { output: out, append: Some(bytes), snapshot: None }
                }
            },
        }
    }

    /// Cut a snapshot (state + high-water marks + horizon): the bytes to install.
    pub fn snapshot(&mut self) -> (r: Vec<u8>)
        requires
            old(self).wf(),
            old(self).counters().snapshots < u64::MAX,
        ensures
            final(self).wf(),
            r@ == engine_snapshot::<S>(old(self).model()),
            final(self).model() == old(self).model(),
            final(self).since_snapshot() == 0,
            final(self).interval() == old(self).interval(),
            final(self).counters() == (Stats { snapshots: (old(self).counters().snapshots + 1) as u64, ..old(self).counters() }),
    {
        self.cut()
    }

    fn cut(&mut self) -> (r: Vec<u8>)
        requires
            old(self).snap_interval >= 1,
            sorted_by(old(self).applied@, u32_order()),
            old(self).stats.snapshots < u64::MAX,
        ensures
            final(self).wf(),
            r@ == engine_snapshot::<S>(old(self).model()),
            final(self).model() == old(self).model(),
            final(self).ops_since_snap == 0,
            final(self).snap_interval == old(self).snap_interval,
            final(self).stats == (Stats { snapshots: (old(self).stats.snapshots + 1) as u64, ..old(self).stats }),
    {
        let bytes = self.encode_snapshot();
        self.ops_since_snap = 0;
        self.stats.snapshots = self.stats.snapshots + 1;
        bytes
    }

    /// This engine's full state for a state transfer to a recovering peer.
    pub fn export_state(&self) -> (r: Vec<u8>)
        requires
            self.wf(),
        ensures
            r@ == engine_snapshot::<S>(self.model()),
    {
        self.encode_snapshot()
    }

    /// Install a peer's exported state: adopt its state, marks and horizon.
    /// The caller then makes `bytes` the durable snapshot (clearing the log).
    pub fn import_state(&mut self, bytes: &[u8])
        requires
            old(self).wf(),
        ensures
            final(self).wf(),
            final(self).model() == load_snapshot::<S>(old(self).model(), bytes@),
            final(self).since_snapshot() == 0,
            final(self).interval() == old(self).interval(),
            final(self).counters() == old(self).counters(),
    {
        self.load_snapshot(bytes);
        self.ops_since_snap = 0;
    }

    fn encode_snapshot(&self) -> (r: Vec<u8>)
        requires
            sorted_by(self.applied@, u32_order()),
        ensures
            r@ == engine_snapshot::<S>(self.model()),
    {
        proof {
            lemma_u32_order_total();
            lemma_sorted_entries_of(self.applied@, u32_order());
        }
        let mut o: Vec<u8> = Vec::new();
        push_u64(&mut o, self.last_ts);
        push_u32(&mut o, cap_u32(self.applied.len()));
        let ghost head = o@;
        let mut i: usize = 0;
        while i < self.applied.len()
            invariant
                i <= self.applied@.len(),
                o@ == head + marks_bytes(self.applied@.take(i as int)),
            decreases self.applied@.len() - i,
        {
            let ghost before = o@;
            push_u32(&mut o, self.applied[i].0);
            push_u64(&mut o, self.applied[i].1);
            assert(self.applied@.take(i + 1).drop_last() =~= self.applied@.take(i as int));
            assert(o@ =~= before + spec_u32_to_le_bytes(self.applied@[i as int].0) + spec_u64_to_le_bytes(
                self.applied@[i as int].1,
            ));
            i = i + 1;
        }
        assert(self.applied@.take(i as int) =~= self.applied@);
        let sm = self.state.snapshot();
        let ghost mid = o@;
        push_field32(&mut o, sm.as_slice());
        assert(o@ =~= engine_snapshot::<S>(self.model()));
        o
    }

    fn load_snapshot(&mut self, bytes: &[u8])
        requires
            old(self).wf(),
        ensures
            final(self).wf(),
            final(self).model() == load_snapshot::<S>(old(self).model(), bytes@),
            final(self).snap_interval == old(self).snap_interval,
            final(self).ops_since_snap == old(self).ops_since_snap,
            final(self).counters() == old(self).counters(),
    {
        let ghost b = bytes@;
        let mut r = Reader::new(bytes);
        let last_ts = match r.u64() {
            Some(x) => x,
            None => return,
        };
        let n = match r.u32() {
            Some(x) => x,
            None => return,
        };
        let mut applied: Vec<(u32, u64)> = Vec::new();
        let mut i: u32 = 0;
        let mut stopped = false;
        assert(to_map(applied@) =~= Map::<u32, u64>::empty());
        while i < n && !stopped
            invariant
                r.wf(),
                r.b@ == b,
                b == bytes@,
                b.len() >= 12,
                n == u32_at(b, 8),
                i <= n,
                sorted_by(applied@, u32_order()),
                marks_loop(b, i as nat) == (to_map(applied@), r.pos as int, stopped),
            decreases n - i,
        {
            let c = r.u32();
            let s = r.u64();
            match (c, s) {
                (Some(c), Some(s)) => {
                    set_mark(&mut applied, c, s);
                },
                _ => {
                    stopped = true;
                },
            }
            i = i + 1;
        }
        proof {
            if stopped {
                lemma_marks_loop_stopped(b, i as nat, n as nat);
            }
        }
        let smlen = match r.u32() {
            Some(x) => x,
            None => return,
        };
        let sm = match r.bytes(smlen as usize) {
            Some(x) => x,
            None => return,
        };
        self.state = S::restore(sm);
        self.applied = applied;
        self.last_ts = last_ts;
    }

    /// Recover an engine from a durable image: install the snapshot (if any),
    /// then replay the log forward with dedup. Recovery is idempotent — a
    /// replayed op already covered by the snapshot is a duplicate.
    pub fn recover(snapshot: Option<&[u8]>, log: &[(u64, Vec<u8>)], snap_interval: u64) -> (e: Self)
        requires
            recovery_accepted::<S>(DurableImage { snapshot: opt_slice_view(snapshot), log: log_view(log@) }),
        ensures
            e.wf(),
            e.model() == recover_model::<S>(DurableImage { snapshot: opt_slice_view(snapshot), log: log_view(log@) }),
            e.interval() == (if snap_interval >= 1 { snap_interval } else { 1 }),
            e.counters().replayed == replay::<S>(recovery_base::<S>(opt_slice_view(snapshot)), log_view(log@)).1,
            e.counters().applied == 0 && e.counters().suppressed == 0 && e.counters().snapshots == 0,
            e.since_snapshot() == e.counters().replayed % e.interval(),
    {
        let mut eng = Self::create(snap_interval);
        match snapshot {
            Some(b) => eng.load_snapshot(b),
            None => {},
        }
        let ghost base = eng.model();
        let ghost lv = log_view(log@);
        let mut replayed: u64 = 0;
        let mut i: usize = 0;
        while i < log.len()
            invariant
                i <= log@.len(),
                lv == log_view(log@),
                base == recovery_base::<S>(opt_slice_view(snapshot)),
                replay_accepted::<S>(base, lv),
                eng.wf(),
                eng.snap_interval == (if snap_interval >= 1 { snap_interval } else { 1 }),
                eng.ops_since_snap == 0,
                eng.stats == (Stats { applied: 0, suppressed: 0, snapshots: 0, replayed: 0 }),
                (eng.model(), replayed as nat) == replay::<S>(base, lv.take(i as int)),
                replayed <= i,
            decreases log@.len() - i,
        {
            proof {
                assert(lv.take(i + 1).drop_last() =~= lv.take(i as int));
                assert(lv.take(i + 1).last() == (log@[i as int].0, log@[i as int].1@));
                lemma_replay_accepted_prefix::<S>(base, lv, i + 1);
            }
            match Op::decode(log[i].1.as_slice()) {
                Some(op) => {
                    if eng.apply_dedup(log[i].0, &op).is_some() {
                        replayed = replayed + 1;
                    }
                },
                None => {},
            }
            i = i + 1;
        }
        assert(lv.take(i as int) =~= lv);
        eng.stats.replayed = replayed;
        eng.ops_since_snap = replayed % eng.snap_interval;
        eng
    }
}

impl<S: StateMachine> Engine<S> {
    /// Whether `op` can be delivered now: a duplicate, or applicable without overflow.
    pub fn can_deliver(&self, op: &Op) -> (r: bool)
        requires
            self.wf(),
        ensures
            r == step_accepted::<S>(self.model(), op@),
    {
        let hw = mark_of(&self.applied, op.client);
        op.seq <= hw || self.state.would_accept(op)
    }

    /// Recovery that checks as it replays: `None` exactly when replaying the
    /// image would apply an op that overflows (where plain recovery has no
    /// defined result); otherwise the recovered engine.
    pub fn try_recover(snapshot: Option<&[u8]>, log: &[(u64, Vec<u8>)], snap_interval: u64) -> (r: Option<Self>)
        ensures
            r is None <==> !recovery_accepted::<S>(DurableImage { snapshot: opt_slice_view(snapshot), log: log_view(log@) }),
            r is Some ==> {
                let e = r.unwrap();
                &&& e.wf()
                &&& e.model() == recover_model::<S>(DurableImage { snapshot: opt_slice_view(snapshot), log: log_view(log@) })
                &&& e.interval() == (if snap_interval >= 1 { snap_interval } else { 1 })
                &&& e.counters().replayed == replay::<S>(recovery_base::<S>(opt_slice_view(snapshot)), log_view(log@)).1
                &&& e.counters().applied == 0 && e.counters().suppressed == 0 && e.counters().snapshots == 0
                &&& e.since_snapshot() == e.counters().replayed % e.interval()
            },
    {
        let mut eng = Self::create(snap_interval);
        match snapshot {
            Some(b) => eng.load_snapshot(b),
            None => {},
        }
        let ghost base = eng.model();
        let ghost lv = log_view(log@);
        let mut replayed: u64 = 0;
        let mut i: usize = 0;
        while i < log.len()
            invariant
                i <= log@.len(),
                lv == log_view(log@),
                base == recovery_base::<S>(opt_slice_view(snapshot)),
                replay_accepted::<S>(base, lv.take(i as int)),
                eng.wf(),
                eng.snap_interval == (if snap_interval >= 1 { snap_interval } else { 1 }),
                eng.ops_since_snap == 0,
                eng.stats == (Stats { applied: 0, suppressed: 0, snapshots: 0, replayed: 0 }),
                (eng.model(), replayed as nat) == replay::<S>(base, lv.take(i as int)),
                replayed <= i,
            decreases log@.len() - i,
        {
            proof {
                assert(lv.take(i + 1).drop_last() =~= lv.take(i as int));
                assert(lv.take(i + 1).last() == (log@[i as int].0, log@[i as int].1@));
            }
            match Op::decode(log[i].1.as_slice()) {
                Some(op) => {
                    if !eng.can_deliver(&op) {
                        proof {
                            lemma_replay_rejected::<S>(base, lv, i + 1);
                        }
                        return None;
                    }
                    if eng.apply_dedup(log[i].0, &op).is_some() {
                        replayed = replayed + 1;
                    }
                },
                None => {},
            }
            i = i + 1;
        }
        assert(lv.take(i as int) =~= lv);
        eng.stats.replayed = replayed;
        eng.ops_since_snap = replayed % eng.snap_interval;
        Some(eng)
    }
}

/// Once a prefix of the log is rejected, the whole log is.
proof fn lemma_replay_rejected<S: StateMachine>(m: EngineModel<S::Model>, log: Seq<(u64, Seq<u8>)>, i: int)
    requires
        0 <= i <= log.len(),
        !replay_accepted::<S>(m, log.take(i)),
    ensures
        !replay_accepted::<S>(m, log),
    decreases log.len(),
{
    if replay_accepted::<S>(m, log) {
        lemma_replay_accepted_prefix::<S>(m, log, i);
    }
}

pub proof fn lemma_marks_loop_stopped(b: Seq<u8>, i: nat, n: nat)
    requires
        i <= n,
        marks_loop(b, i).2,
    ensures
        marks_loop(b, n) == marks_loop(b, i),
    decreases n - i,
{
    if i < n {
        lemma_marks_loop_stopped(b, i, (n - 1) as nat);
    }
}

pub proof fn lemma_replay_accepted_prefix<S: StateMachine>(m: EngineModel<S::Model>, log: Seq<(u64, Seq<u8>)>, i: int)
    requires
        0 <= i <= log.len(),
        replay_accepted::<S>(m, log),
    ensures
        replay_accepted::<S>(m, log.take(i)),
    decreases log.len(),
{
    if i == log.len() {
        assert(log.take(i) =~= log);
    } else {
        assert(log.drop_last().take(i) =~= log.take(i));
        lemma_replay_accepted_prefix::<S>(m, log.drop_last(), i);
    }
}

proof fn lemma_marks_bytes_len(s: Seq<(u32, u64)>)
    ensures
        marks_bytes(s).len() == 12 * s.len(),
    decreases s.len(),
{
    vstd::bytes::lemma_auto_spec_u32_to_from_le_bytes();
    vstd::bytes::lemma_auto_spec_u64_to_from_le_bytes();
    if s.len() > 0 {
        lemma_marks_bytes_len(s.drop_last());
    }
}

proof fn lemma_marks_prefix(b: Seq<u8>, s: Seq<(u32, u64)>, i: int)
    requires
        strict_total(u32_order()),
        sorted_by(s, u32_order()),
        0 <= i <= s.len(),
        12 + marks_bytes(s).len() <= b.len(),
        b.subrange(12, 12 + marks_bytes(s).len() as int) == marks_bytes(s),
    ensures
        marks_loop(b, i as nat) == (to_map(s.take(i)), 12 + 12 * i, false),
    decreases i,
{
    vstd::bytes::lemma_auto_spec_u32_to_from_le_bytes();
    vstd::bytes::lemma_auto_spec_u64_to_from_le_bytes();
    if i == 0 {
        assert(to_map(s.take(0)) =~= Map::<u32, u64>::empty());
    } else {
        lemma_marks_prefix(b, s, i - 1);
        let pre = s.take(i - 1);
        let cur = s.take(i);
        assert(cur.drop_last() =~= pre);
        lemma_marks_bytes_len(s);
        lemma_marks_bytes_len(pre);
        lemma_marks_bytes_len(cur);
        let q: int = 12 + 12 * (i - 1);
        let e = s[i - 1];
        let eb = spec_u32_to_le_bytes(e.0) + spec_u64_to_le_bytes(e.1);
        assert(marks_bytes(cur) == marks_bytes(pre) + eb);
        assert forall|j: int| 0 <= j < 12 implies b[q + j] == eb[j] by {
            assert(marks_bytes(s) == marks_bytes(s.take(i)) + marks_bytes(s).subrange(12 * i, marks_bytes(s).len() as int)) by {
                lemma_marks_bytes_prefix(s, i);
            }
            assert(b[q + j] == marks_bytes(s)[12 * (i - 1) + j]);
            assert(marks_bytes(s)[12 * (i - 1) + j] == marks_bytes(cur)[12 * (i - 1) + j]);
        }
        assert(b.subrange(q, q + 4) =~= spec_u32_to_le_bytes(e.0)) by {
            assert forall|j: int| 0 <= j < 4 implies b.subrange(q, q + 4)[j] == spec_u32_to_le_bytes(e.0)[j] by {
                assert(b[q + j] == eb[j]);
            }
        }
        assert(b.subrange(q + 4, q + 12) =~= spec_u64_to_le_bytes(e.1)) by {
            assert forall|j: int| 0 <= j < 8 implies b.subrange(q + 4, q + 12)[j] == spec_u64_to_le_bytes(e.1)[j] by {
                assert(b[q + 4 + j] == eb[4 + j]);
            }
        }
        assert(sorted_by(pre, u32_order())) by {
            assert forall|x: int, y: int| 0 <= x < y < pre.len() implies u32_order()(#[trigger] pre[x].0, #[trigger] pre[y].0) by {
                assert(pre[x] == s[x] && pre[y] == s[y]);
            }
        }
        assert forall|j: int| 0 <= j < pre.len() implies u32_order()(#[trigger] pre[j].0, e.0) by {
            assert(pre[j] == s[j]);
        }
        lemma_insert_at(pre, u32_order(), pre.len() as int, e.0, e.1);
        assert(pre.insert(pre.len() as int, (e.0, e.1)) =~= cur);
    }
}

proof fn lemma_marks_bytes_prefix(s: Seq<(u32, u64)>, i: int)
    requires
        0 <= i <= s.len(),
    ensures
        marks_bytes(s.take(i)).len() <= marks_bytes(s).len(),
        marks_bytes(s) == marks_bytes(s.take(i)) + marks_bytes(s).subrange(
            marks_bytes(s.take(i)).len() as int,
            marks_bytes(s).len() as int,
        ),
    decreases s.len(),
{
    if i == s.len() {
        assert(s.take(i) =~= s);
    } else {
        let d = s.drop_last();
        assert(d.take(i) =~= s.take(i));
        lemma_marks_bytes_prefix(d, i);
        assert(marks_bytes(s) =~= marks_bytes(d) + spec_u32_to_le_bytes(s.last().0) + spec_u64_to_le_bytes(s.last().1));
    }
}

/// Everything an engine snapshot stores fits its fields.
pub open spec fn engine_fits<S: StateMachine>(m: EngineModel<S::Model>) -> bool {
    &&& S::fits(m.state)
    &&& S::snapshot_model(m.state).len() <= 0xffff_ffff
    &&& m.applied.dom().finite()
    &&& m.applied.dom().len() <= 0xffff_ffff
}

/// State transfer: installing an engine's exported snapshot — over any model —
/// reproduces that engine's model exactly.
pub proof fn lemma_transfer<S: StateMachine>(m: EngineModel<S::Model>, over: EngineModel<S::Model>)
    requires
        engine_fits::<S>(m),
    ensures
        load_snapshot::<S>(over, engine_snapshot::<S>(m)) == m,
        snapshot_complete(engine_snapshot::<S>(m)),
{
    vstd::bytes::lemma_auto_spec_u32_to_from_le_bytes();
    vstd::bytes::lemma_auto_spec_u64_to_from_le_bytes();
    lemma_u32_order_total();
    let s = sorted_entries(m.applied, u32_order());
    lemma_sorted_finite_exists(m.applied);
    assert(sorted_by(s, u32_order()) && to_map(s) == m.applied);
    lemma_map_len(s, u32_order());
    lemma_marks_bytes_len(s);
    let b = engine_snapshot::<S>(m);
    let sm = S::snapshot_model(m.state);
    let mb = marks_bytes(s);
    assert(b.subrange(0, 8) =~= spec_u64_to_le_bytes(m.last_ts));
    assert(b.subrange(8, 12) =~= spec_u32_to_le_bytes(cap32(s.len())));
    assert(u32_at(b, 8) == s.len());
    assert(b.subrange(12, 12 + mb.len() as int) =~= mb);
    lemma_marks_prefix(b, s, s.len() as int);
    assert(s.take(s.len() as int) =~= s);
    let p: int = 12 + 12 * s.len() as int;
    assert(b.subrange(p, p + 4) =~= spec_u32_to_le_bytes(cap32(sm.len())));
    assert(b.subrange(p + 4, p + 4 + sm.len()) =~= sm);
    S::lemma_restore_snapshot(m.state);
}

/// A finite map of `u32` keys has a sorted listing.
pub proof fn lemma_sorted_finite_exists(m: Map<u32, u64>)
    requires
        m.dom().finite(),
    ensures
        sorted_by(sorted_entries(m, u32_order()), u32_order()),
        to_map(sorted_entries(m, u32_order())) == m,
    decreases m.dom().len(),
{
    lemma_u32_order_total();
    if m.dom().len() == 0 {
        let e = Seq::<(u32, u64)>::empty();
        assert(to_map(e) =~= m) by {
            assert forall|k: u32| !#[trigger] m.dom().contains(k) by {
                if m.dom().contains(k) {
                    vstd::set::axiom_set_contains_len(m.dom(), k);
                }
            }
        }
        assert(sorted_by(e, u32_order()));
    } else {
        let k = choose|k: u32| m.dom().contains(k);
        let max = lemma_max_key(m.dom());
        let r = m.remove(max);
        assert(r.dom() =~= m.dom().remove(max));
        lemma_sorted_finite_exists(r);
        let t = sorted_entries(r, u32_order());
        assert forall|j: int| 0 <= j < t.len() implies u32_order()(#[trigger] t[j].0, max) by {
            lemma_to_map_at(t, u32_order(), j);
            assert(r.dom().contains(t[j].0));
        }
        lemma_insert_at(t, u32_order(), t.len() as int, max, m[max]);
        let u = t.insert(t.len() as int, (max, m[max]));
        assert(to_map(u) =~= m);
    }
}

proof fn lemma_max_key(s: Set<u32>) -> (k: u32)
    requires
        s.finite(),
        s.len() > 0,
    ensures
        s.contains(k),
        forall|j: u32| s.contains(j) ==> j <= k,
    decreases s.len(),
{
    let a = s.choose();
    vstd::set::axiom_set_choose_len(s);
    if s.len() == 1 {
        assert forall|j: u32| s.contains(j) implies j <= a by {
            if j != a {
                assert(s.remove(a).contains(j));
                vstd::set::axiom_set_remove_len(s, a);
                vstd::set::axiom_set_contains_len(s.remove(a), j);
            }
        }
        a
    } else {
        let r = s.remove(a);
        vstd::set::axiom_set_remove_len(s, a);
        vstd::set::axiom_set_remove_finite(s, a);
        let b = lemma_max_key(r);
        if a > b { a } else { b }
    }
}

/// Recovering from an empty image gives a fresh engine.
pub proof fn lemma_recover_empty<S: StateMachine>()
    ensures
        recover_model::<S>(DurableImage { snapshot: None, log: Seq::empty() }) == init_model::<S>(),
        recovery_accepted::<S>(DurableImage { snapshot: None, log: Seq::empty() }),
{
}

/// What recovery rebuilds tracks the engine across every delivery: if the
/// durable image recovers to the engine's model before a delivery, then after
/// making the delivery's effects durable — the op's bytes appended (unless it
/// was a duplicate) and, when a snapshot is cut, the snapshot installed — the
/// image recovers to the engine's model after it.
pub proof fn lemma_delivery_keeps_recovery<S: StateMachine>(
    img: DurableImage,
    m: EngineModel<S::Model>,
    ts: u64,
    op: OpSpec,
    cut: bool,
)
    requires
        recover_model::<S>(img) == m,
        recovery_accepted::<S>(img),
        step_accepted::<S>(m, op),
        op_fits_wire(op),
        cut ==> engine_fits::<S>(dedup_step::<S>(m, ts, op).0),
    ensures
        ({
            let m2 = dedup_step::<S>(m, ts, op).0;
            let append = if is_dup(m, op) { None } else { Some(encode_op(op)) };
            let snap = if cut && !is_dup(m, op) { Some(engine_snapshot::<S>(m2)) } else { None };
            let img2 = image_after(img, ts, append, snap);
            &&& recover_model::<S>(img2) == m2
            &&& recovery_accepted::<S>(img2)
        }),
{
    let m2 = dedup_step::<S>(m, ts, op).0;
    if !is_dup(m, op) {
        lemma_op_roundtrip(op);
        let img1 = DurableImage { snapshot: img.snapshot, log: img.log.push((ts, encode_op(op))) };
        assert(img1.log.drop_last() =~= img.log);
        if cut {
            lemma_transfer::<S>(m2, init_model::<S>());
        }
    }
}

/// Delivering timestamped ops in order from a fresh engine: the model after
/// them, and the durable image after performing each delivery's effects
/// (`cuts[i]` says whether a snapshot was cut at the `i`-th delivery).
pub open spec fn durable_run<S: StateMachine>(ops: Seq<(u64, OpSpec)>, cuts: Seq<bool>) -> (EngineModel<S::Model>, DurableImage)
    decreases ops.len(),
{
    if ops.len() == 0 {
        (init_model::<S>(), DurableImage { snapshot: None, log: Seq::empty() })
    } else {
        let p = durable_run::<S>(ops.drop_last(), cuts.drop_last());
        let ts = ops.last().0;
        let op = ops.last().1;
        let m2 = dedup_step::<S>(p.0, ts, op).0;
        let append = if is_dup(p.0, op) { None } else { Some(encode_op(op)) };
        let snap = if cuts.last() && !is_dup(p.0, op) { Some(engine_snapshot::<S>(m2)) } else { None };
        (m2, image_after(p.1, ts, append, snap))
    }
}

/// Every delivery of the run is accepted, its op fits the wire format, and
/// every state a snapshot is cut of fits the snapshot format.
pub open spec fn durable_run_ok<S: StateMachine>(ops: Seq<(u64, OpSpec)>, cuts: Seq<bool>) -> bool
    decreases ops.len(),
{
    if ops.len() == 0 {
        true
    } else {
        let p = durable_run::<S>(ops.drop_last(), cuts.drop_last());
        let op = ops.last().1;
        &&& durable_run_ok::<S>(ops.drop_last(), cuts.drop_last())
        &&& step_accepted::<S>(p.0, op)
        &&& op_fits_wire(op)
        &&& cuts.last() ==> engine_fits::<S>(dedup_step::<S>(p.0, ops.last().0, op).0)
    }
}

/// No acknowledged op is lost: after any sequence of deliveries whose durable
/// effects were performed, recovering from the durable image rebuilds exactly
/// the engine's model — every applied op, once, with its high-water marks.
pub proof fn lemma_recovery_reconstructs<S: StateMachine>(ops: Seq<(u64, OpSpec)>, cuts: Seq<bool>)
    requires
        ops.len() == cuts.len(),
        durable_run_ok::<S>(ops, cuts),
    ensures
        recover_model::<S>(durable_run::<S>(ops, cuts).1) == durable_run::<S>(ops, cuts).0,
        recovery_accepted::<S>(durable_run::<S>(ops, cuts).1),
    decreases ops.len(),
{
    if ops.len() == 0 {
        lemma_recover_empty::<S>();
    } else {
        let p = durable_run::<S>(ops.drop_last(), cuts.drop_last());
        lemma_recovery_reconstructs::<S>(ops.drop_last(), cuts.drop_last());
        lemma_delivery_keeps_recovery::<S>(p.1, p.0, ops.last().0, ops.last().1, cuts.last());
    }
}

/// Recovery is idempotent: replaying records whose ops are all duplicates of
/// what the model already holds (a crash between installing a snapshot and
/// clearing the log leaves such records) changes nothing.
pub proof fn lemma_replay_duplicates<S: StateMachine>(m: EngineModel<S::Model>, log: Seq<(u64, Seq<u8>)>)
    requires
        forall|i: int| 0 <= i < log.len() ==> match decode_op((#[trigger] log[i]).1) {
            Some(op) => is_dup(m, op),
            None => true,
        },
    ensures
        replay::<S>(m, log) == (m, 0nat),
        replay_accepted::<S>(m, log),
    decreases log.len(),
{
    if log.len() > 0 {
        let d = log.drop_last();
        assert forall|i: int| 0 <= i < d.len() implies match decode_op((#[trigger] d[i]).1) {
            Some(op) => is_dup(m, op),
            None => true,
        } by {
            assert(d[i] == log[i]);
        }
        lemma_replay_duplicates::<S>(m, d);
        assert(log.last() == log[log.len() - 1]);
    }
}

/// Replaying two logs one after the other is replaying them joined.
pub proof fn lemma_replay_split<S: StateMachine>(
    m: EngineModel<S::Model>,
    a: Seq<(u64, Seq<u8>)>,
    b: Seq<(u64, Seq<u8>)>,
)
    ensures
        replay::<S>(m, a + b).0 == replay::<S>(replay::<S>(m, a).0, b).0,
        replay_accepted::<S>(m, a + b) == (replay_accepted::<S>(m, a) && replay_accepted::<S>(
            replay::<S>(m, a).0,
            b,
        )),
    decreases b.len(),
{
    if b.len() == 0 {
        assert(a + b =~= a);
    } else {
        lemma_replay_split::<S>(m, a, b.drop_last());
        assert((a + b).drop_last() =~= a + b.drop_last());
        assert((a + b).last() == b.last());
    }
}

/// Recovery skips what the snapshot already holds: records in front of the
/// log whose ops are all duplicates of the snapshot's model (a crash between
/// installing a snapshot and clearing the log, or records appended again)
/// leave the recovered model, and whether recovery is accepted, unchanged.
pub proof fn lemma_recover_skips_covered<S: StateMachine>(img: DurableImage, covered: Seq<(u64, Seq<u8>)>)
    requires
        forall|i: int| 0 <= i < covered.len() ==> match decode_op((#[trigger] covered[i]).1) {
            Some(op) => is_dup(recovery_base::<S>(img.snapshot), op),
            None => true,
        },
    ensures
        recover_model::<S>(DurableImage { snapshot: img.snapshot, log: covered + img.log }) == recover_model::<S>(img),
        recovery_accepted::<S>(DurableImage { snapshot: img.snapshot, log: covered + img.log })
            == recovery_accepted::<S>(img),
{
    let base = recovery_base::<S>(img.snapshot);
    lemma_replay_duplicates::<S>(base, covered);
    lemma_replay_split::<S>(base, covered, img.log);
}

/// Exactly once: once an op has been delivered, delivering it again (the
/// fabric re-delivers, or a client retries with the same seq) is suppressed —
/// no output, and the model, state included, is unchanged.
pub proof fn lemma_redelivery_suppressed<S: StateMachine>(m: EngineModel<S::Model>, t1: u64, t2: u64, op: OpSpec)
    ensures
        ({
            let m1 = dedup_step::<S>(m, t1, op).0;
            &&& is_dup(m1, op)
            &&& dedup_step::<S>(m1, t2, op) == (m1, None::<OutputSpec>)
        }),
{
}

/// A read returns the last write: after a new `Put` of `v` under a key, a new
/// `Get` of that key outputs `v`.
pub proof fn lemma_read_your_write(
    m: EngineModel<Map<Seq<u8>, Seq<u8>>>,
    t1: u64,
    t2: u64,
    w: OpSpec,
    r: OpSpec,
    k: Seq<char>,
    v: Seq<u8>,
)
    requires
        w.kind == KindSpec::Put(k, v),
        r.kind == KindSpec::Get(k),
        !is_dup(m, w),
        !is_dup(dedup_step::<KvStore>(m, t1, w).0, r),
    ensures
        dedup_step::<KvStore>(dedup_step::<KvStore>(m, t1, w).0, t2, r).1 == Some(OutputSpec::Bytes(Some(v))),
{
    let m1 = dedup_step::<KvStore>(m, t1, w).0;
    assert(m1.state == m.state.insert(key_bytes(k), v));
    assert(m1.state.dom().contains(key_bytes(k)));
}

/// The serial reference: a totally-ordered op stream applied to a fresh
/// machine with the same exactly-once dedup and no persistence; the final
/// state and high-water marks.
pub open spec fn reference_run<S: StateMachine>(ops: Seq<OpSpec>) -> (S::Model, Map<u32, u64>)
    decreases ops.len(),
{
    if ops.len() == 0 {
        (S::init_model(), Map::empty())
    } else {
        let prev = reference_run::<S>(ops.drop_last());
        let op = ops.last();
        if op.seq <= high_water(prev.1, op.client) {
            prev
        } else {
            (S::apply_model(prev.0, op).0, prev.1.insert(op.client, op.seq))
        }
    }
}

/// Every op the reference applies is accepted (no overflow).
pub open spec fn reference_accepted<S: StateMachine>(ops: Seq<OpSpec>) -> bool
    decreases ops.len(),
{
    if ops.len() == 0 {
        true
    } else {
        let prev = reference_run::<S>(ops.drop_last());
        let op = ops.last();
        &&& reference_accepted::<S>(ops.drop_last())
        &&& (op.seq <= high_water(prev.1, op.client) || S::accepts(prev.0, op))
    }
}

pub open spec fn ops_view(ops: Seq<Op>) -> Seq<OpSpec> {
    ops.map_values(|o: Op| o@)
}

/// An engine's state and marks follow the serial reference, whatever the
/// timestamps: delivering the next op of the stream moves them to the
/// reference of the longer stream.
pub proof fn lemma_deliver_tracks_reference<S: StateMachine>(
    m: EngineModel<S::Model>,
    ops: Seq<OpSpec>,
    ts: u64,
    op: OpSpec,
)
    requires
        (m.state, m.applied) == reference_run::<S>(ops),
    ensures
        ({
            let m2 = dedup_step::<S>(m, ts, op).0;
            (m2.state, m2.applied) == reference_run::<S>(ops.push(op))
        }),
{
    assert(ops.push(op).drop_last() =~= ops);
}

/// A client's mark never goes down along a stream.
proof fn lemma_reference_marks_prefix<S: StateMachine>(ops: Seq<OpSpec>, i: int, c: u32)
    requires
        0 <= i <= ops.len(),
    ensures
        high_water(reference_run::<S>(ops.take(i)).1, c) <= high_water(reference_run::<S>(ops).1, c),
    decreases ops.len(),
{
    if i < ops.len() {
        let d = ops.drop_last();
        assert(d.take(i) =~= ops.take(i));
        lemma_reference_marks_prefix::<S>(d, i, c);
    } else {
        assert(ops.take(i) =~= ops);
    }
}

/// After a stream, every op of it is at or below its client's mark.
proof fn lemma_reference_covers<S: StateMachine>(ops: Seq<OpSpec>, i: int)
    requires
        0 <= i < ops.len(),
    ensures
        ops[i].seq <= high_water(reference_run::<S>(ops).1, ops[i].client),
{
    let t = ops.take(i + 1);
    assert(t.drop_last() =~= ops.take(i));
    assert(t.last() == ops[i]);
    lemma_reference_marks_prefix::<S>(ops, i + 1, ops[i].client);
}

/// Exactly-once in the reference run: an op at or below its client's mark
/// (a duplicate, or any op with seq 0) changes nothing.
pub proof fn lemma_reference_duplicate<S: StateMachine>(ops: Seq<OpSpec>, dup: OpSpec)
    requires
        dup.seq <= high_water(reference_run::<S>(ops).1, dup.client),
    ensures
        reference_run::<S>(ops.push(dup)) == reference_run::<S>(ops),
{
    assert(ops.push(dup).drop_last() =~= ops);
}

/// Exactly-once in the reference run: replaying any prefix of a stream after
/// the stream (the whole stream included) changes nothing.
pub proof fn lemma_reference_replay<S: StateMachine>(ops: Seq<OpSpec>, j: int)
    requires
        0 <= j <= ops.len(),
    ensures
        reference_run::<S>(ops + ops.take(j)) == reference_run::<S>(ops),
    decreases j,
{
    if j == 0 {
        assert(ops + ops.take(0) =~= ops);
    } else {
        lemma_reference_replay::<S>(ops, j - 1);
        lemma_reference_covers::<S>(ops, j - 1);
        assert((ops + ops.take(j)) =~= (ops + ops.take(j - 1)).push(ops[j - 1]));
        lemma_reference_duplicate::<S>(ops + ops.take(j - 1), ops[j - 1]);
    }
}

/// The reference state of an op stream (for tests and the recovery oracle).
pub fn reference_apply<S: StateMachine>(ops: &[Op]) -> (s: S)
    requires
        reference_accepted::<S>(ops_view(ops@)),
    ensures
        s.model() == reference_run::<S>(ops_view(ops@)).0,
{
    let mut s = S::initial();
    let mut applied: Vec<(u32, u64)> = Vec::new();
    let ghost ov = ops_view(ops@);
    assert(to_map(applied@) =~= Map::<u32, u64>::empty());
    let mut i: usize = 0;
    while i < ops.len()
        invariant
            i <= ops@.len(),
            ov == ops_view(ops@),
            reference_accepted::<S>(ov),
            sorted_by(applied@, u32_order()),
            (s.model(), to_map(applied@)) == reference_run::<S>(ov.take(i as int)),
        decreases ops@.len() - i,
    {
        let op = &ops[i];
        proof {
            assert(ov.take(i + 1).drop_last() =~= ov.take(i as int));
            assert(ov.take(i + 1).last() == op@);
            lemma_reference_accepted_prefix::<S>(ov, i + 1);
        }
        let hw = mark_of(&applied, op.client);
        if op.seq > hw {
            s.apply(op);
            set_mark(&mut applied, op.client, op.seq);
        }
        i = i + 1;
    }
    assert(ov.take(i as int) =~= ov);
    s
}

proof fn lemma_reference_accepted_prefix<S: StateMachine>(ops: Seq<OpSpec>, i: int)
    requires
        0 <= i <= ops.len(),
        reference_accepted::<S>(ops),
    ensures
        reference_accepted::<S>(ops.take(i)),
    decreases ops.len(),
{
    if i == ops.len() {
        assert(ops.take(i) =~= ops);
    } else {
        assert(ops.drop_last().take(i) =~= ops.take(i));
        lemma_reference_accepted_prefix::<S>(ops.drop_last(), i);
    }
}
} // verus!

//! The replicated-cluster experiment's deterministic parts: the INCR workload
//! each client sends, the exact state every replica must reach, and the
//! verdicts over what the replicas report (they agree; they are right; a
//! crashed replica's recovered prefix never over-counts and it catches up).

use vstd::prelude::*;
use vstd::utf8::*;
use vstd::string::*;
use crate::text::{bytes_eq, dec_chars, decimal, decimal_bytes, nat_string, int_text_value, lemma_dec_chars, lemma_decimal_parses};
use crate::state::{Op, OpSpec, KindSpec, KvStore, key_bytes, str_bytes, named_ints_view, int_entries, kv_get, kv_int, kv_apply};
use crate::engine::{ops_view, reference_run, high_water};
use crate::sorted::{sorted_entries, bytes_order};

verus! {

broadcast use vstd::utf8::group_utf8_lib;

/// The name of workload key `k`: `k<k>`.
pub open spec fn key_name(k: int) -> Seq<char> {
    "k"@ + dec_chars(k)
}

/// The `i`-th op (from 0) of client `c`'s workload: `+1` to key `i % keys`,
/// with seq `i + 1`.
pub open spec fn workload_op_spec(c: u32, i: u64, keys: u64) -> OpSpec {
    OpSpec { client: c, seq: (i + 1) as u64, kind: KindSpec::Incr(key_name((i % keys) as int), 1) }
}

/// The `i`-th op (from 0) of client `c`'s workload.
pub fn workload_op(c: u32, i: u64, keys: u64) -> (r: Op)
    requires
        keys > 0,
        i < u64::MAX,
    ensures
        r@ == workload_op_spec(c, i, keys),
{
    let mut k = String::from_str("k");
    let d = nat_string(i % keys);
    k.append(d.as_str());
    Op::incr(c, i + 1, k.as_str(), 1)
}

/// Client `c`'s whole workload: `ops` increments round-robin over `keys`.
pub fn client_ops(c: u32, ops: u64, keys: u64) -> (r: Vec<Op>)
    requires
        ops > 0 ==> keys > 0,
    ensures
        ops_view(r@) == Seq::new(ops as nat, |i: int| workload_op_spec(c, i as u64, keys)),
{
    let mut v: Vec<Op> = Vec::new();
    let mut i: u64 = 0;
    while i < ops
        invariant
            i <= ops,
            ops > 0 ==> keys > 0,
            ops_view(v@) == Seq::new(i as nat, |j: int| workload_op_spec(c, j as u64, keys)),
        decreases ops - i,
    {
        let op = workload_op(c, i, keys);
        let ghost prev = ops_view(v@);
        v.push(op);
        proof {
            assert(ops_view(v@) =~= prev.push(op@));
            assert(prev.push(op@) =~= Seq::new((i + 1) as nat, |j: int| workload_op_spec(c, j as u64, keys)));
        }
        i = i + 1;
    }
    v
}

/// How many of the workload indices `0..n` land on key `k`.
pub open spec fn count_mod(n: nat, keys: nat, k: nat) -> nat
    decreases n,
{
    if n == 0 {
        0
    } else {
        count_mod((n - 1) as nat, keys, k) + if (n - 1) % (keys as int) == k { 1nat } else { 0nat }
    }
}

proof fn lemma_count_mod_bound(n: nat, keys: nat, k: nat)
    ensures
        count_mod(n, keys, k) <= n,
    decreases n,
{
    if n > 0 {
        lemma_count_mod_bound((n - 1) as nat, keys, k);
    }
}

/// The state every replica must reach after all `clients` ran their
/// workloads: each of the first `n` keys holds, as decimal text, the number of
/// increments it got.
pub open spec fn expected_model(clients: nat, ops: nat, keys: nat, n: nat) -> Map<Seq<u8>, Seq<u8>>
    decreases n,
{
    if n == 0 {
        Map::empty()
    } else {
        expected_model(clients, ops, keys, (n - 1) as nat).insert(
            key_bytes(key_name(n - 1)),
            decimal((clients * count_mod(ops, keys, (n - 1) as nat)) as int),
        )
    }
}

/// How many of the workload indices `0..n` land on the first `t` keys.
pub open spec fn count_total(n: nat, keys: nat, t: nat) -> nat
    decreases t,
{
    if t == 0 {
        0
    } else {
        count_total(n, keys, (t - 1) as nat) + count_mod(n, keys, (t - 1) as nat)
    }
}

proof fn lemma_count_total_step(n: nat, keys: nat, t: nat)
    requires
        n > 0,
        keys > 0,
    ensures
        count_total(n, keys, t) == count_total((n - 1) as nat, keys, t) + (if (n - 1) % (keys as int) < t {
            1nat
        } else {
            0nat
        }),
    decreases t,
{
    if t > 0 {
        lemma_count_total_step(n, keys, (t - 1) as nat);
    }
}

proof fn lemma_count_total_zero(keys: nat, t: nat)
    ensures
        count_total(0, keys, t) == 0,
    decreases t,
{
    if t > 0 {
        lemma_count_total_zero(keys, (t - 1) as nat);
    }
}

/// The workload's increments add up: over all keys, the per-key counts sum
/// to the number of ops, so the expected state sums to `clients * ops`.
pub proof fn lemma_expected_sums(clients: nat, ops: nat, keys: nat)
    requires
        keys > 0,
    ensures
        count_total(ops, keys, keys) == ops,
        clients * count_total(ops, keys, keys) == clients * ops,
    decreases ops,
{
    if ops > 0 {
        lemma_expected_sums(clients, (ops - 1) as nat, keys);
        lemma_count_total_step(ops, keys, keys);
        assert((ops - 1) % (keys as int) < keys);
    } else {
        lemma_count_total_zero(keys, keys);
    }
}

/// The store holding, for each of the first `t` workload keys with a
/// positive count, that count as decimal text.
pub open spec fn counts_model(cnt: Seq<nat>, t: nat) -> Map<Seq<u8>, Seq<u8>>
    decreases t,
{
    if t == 0 {
        Map::empty()
    } else {
        let m = counts_model(cnt, (t - 1) as nat);
        if cnt[t - 1] > 0 {
            m.insert(key_bytes(key_name(t - 1)), decimal(cnt[t - 1] as int))
        } else {
            m
        }
    }
}

/// Distinct workload keys have distinct names.
proof fn lemma_key_name_inj(a: nat, b: nat)
    requires
        a <= i64::MAX,
        b <= i64::MAX,
        key_bytes(key_name(a as int)) == key_bytes(key_name(b as int)),
    ensures
        a == b,
{
    encode_utf8_decode_utf8(key_name(a as int));
    encode_utf8_decode_utf8(key_name(b as int));
    reveal_strlit("k");
    assert(key_name(a as int).skip(1) =~= dec_chars(a as int));
    assert(key_name(b as int).skip(1) =~= dec_chars(b as int));
    lemma_dec_chars(a as i64);
    lemma_dec_chars(b as i64);
}

/// What `counts_model` binds: exactly the named keys below `t` with a
/// positive count, each to its count.
proof fn lemma_counts_model_at(cnt: Seq<nat>, t: nat)
    requires
        t <= cnt.len(),
        t <= i64::MAX + 1,
    ensures
        forall|k: Seq<u8>| #[trigger] counts_model(cnt, t).dom().contains(k) ==> exists|s: nat| s < t && cnt[s as int] > 0 && k
            == key_bytes(key_name(s as int)),
        forall|s: nat| s < t ==> (#[trigger] counts_model(cnt, t).dom().contains(key_bytes(key_name(s as int)))) == (cnt[s as int] > 0),
        forall|s: nat| s < t && cnt[s as int] > 0 ==> #[trigger] counts_model(cnt, t)[key_bytes(key_name(s as int))] == decimal(
            cnt[s as int] as int,
        ),
    decreases t,
{
    if t > 0 {
        let u = (t - 1) as nat;
        lemma_counts_model_at(cnt, u);
        let m = counts_model(cnt, u);
        assert forall|s: nat| s < u implies key_bytes(key_name(s as int)) != key_bytes(key_name(u as int)) by {
            if key_bytes(key_name(s as int)) == key_bytes(key_name(u as int)) {
                lemma_key_name_inj(s, u);
            }
        }
        assert forall|k: Seq<u8>| #[trigger] counts_model(cnt, t).dom().contains(k) implies exists|s: nat| s < t && cnt[s as int]
            > 0 && k == key_bytes(key_name(s as int)) by {
            if k == key_bytes(key_name(u as int)) && cnt[u as int] > 0 {
                assert(u < t);
            } else {
                assert(m.dom().contains(k));
            }
        }
    }
}

/// One more increment of key `s` is the count one higher.
proof fn lemma_counts_model_incr(cnt: Seq<nat>, t: nat, s: nat)
    requires
        s < t <= cnt.len(),
        t <= i64::MAX + 1,
    ensures
        counts_model(cnt, t).insert(key_bytes(key_name(s as int)), decimal((cnt[s as int] + 1) as int)) == counts_model(
            cnt.update(s as int, cnt[s as int] + 1),
            t,
        ),
{
    let c2 = cnt.update(s as int, cnt[s as int] + 1);
    lemma_counts_model_at(cnt, t);
    lemma_counts_model_at(c2, t);
    let a = counts_model(cnt, t).insert(key_bytes(key_name(s as int)), decimal((cnt[s as int] + 1) as int));
    let b = counts_model(c2, t);
    assert forall|k: Seq<u8>| a.dom().contains(k) <==> b.dom().contains(k) by {
        if a.dom().contains(k) && k != key_bytes(key_name(s as int)) {
            let x = choose|x: nat| x < t && cnt[x as int] > 0 && k == key_bytes(key_name(x as int));
            assert(b.dom().contains(key_bytes(key_name(x as int))));
        }
        if b.dom().contains(k) {
            let x = choose|x: nat| x < t && c2[x as int] > 0 && k == key_bytes(key_name(x as int));
            if x != s {
                assert(counts_model(cnt, t).dom().contains(key_bytes(key_name(x as int))));
            }
        }
    }
    assert forall|k: Seq<u8>| a.dom().contains(k) implies a[k] == b[k] by {
        if k != key_bytes(key_name(s as int)) {
            let x = choose|x: nat| x < t && cnt[x as int] > 0 && k == key_bytes(key_name(x as int));
            assert(x != s);
            assert(b[key_bytes(key_name(x as int))] == decimal(c2[x as int] as int));
        } else {
            assert(b[key_bytes(key_name(s as int))] == decimal(c2[s as int] as int));
        }
    }
    assert(a =~= b);
}

/// Client `c`'s whole workload (what `client_ops` builds).
pub open spec fn workload(c: u32, ops: nat, keys: u64) -> Seq<OpSpec> {
    Seq::new(ops, |i: int| workload_op_spec(c, i as u64, keys))
}

/// The workloads of the clients `cs`, one client after another.
pub open spec fn workloads(cs: Seq<u32>, ops: nat, keys: u64) -> Seq<OpSpec>
    decreases cs.len(),
{
    if cs.len() == 0 {
        Seq::empty()
    } else {
        workloads(cs.drop_last(), ops, keys) + workload(cs.last(), ops, keys)
    }
}

/// The per-key counts after `base` and the first `i` ops of one more client.
pub open spec fn counts_after(base: Seq<nat>, i: nat, keys: nat) -> Seq<nat> {
    Seq::new(keys, |t: int| base[t] + count_mod(i, keys, t as nat))
}

/// The reference run over one more client's first `i` ops, from a state of
/// counts where that client has sent nothing: every op is new and adds one
/// to its key; the client's mark is `i`; other clients' marks stay.
#[verifier::spinoff_prover]
#[verifier::rlimit(50)]
proof fn lemma_run_client(p: Seq<OpSpec>, c: u32, ops: nat, keys: u64, base: Seq<nat>, i: nat)
    requires
        i <= ops < u64::MAX,
        1 <= keys <= i64::MAX,
        base.len() == keys,
        forall|t: int| 0 <= t < keys ==> #[trigger] base[t] + ops <= i64::MAX,
        reference_run::<KvStore>(p).0 == counts_model(base, keys as nat),
        high_water(reference_run::<KvStore>(p).1, c) == 0,
    ensures
        ({
            let r = reference_run::<KvStore>(p + workload(c, ops, keys).take(i as int));
            &&& r.0 == counts_model(counts_after(base, i, keys as nat), keys as nat)
            &&& high_water(r.1, c) == i
            &&& forall|c2: u32| c2 != c ==> #[trigger] high_water(r.1, c2) == high_water(reference_run::<KvStore>(p).1, c2)
        }),
    decreases i,
{
    let w = workload(c, ops, keys);
    let k = keys as nat;
    if i == 0 {
        assert(p + w.take(0) =~= p);
        assert(counts_after(base, 0, k) =~= base);
    } else {
        let j = (i - 1) as nat;
        lemma_run_client(p, c, ops, keys, base, j);
        let q = p + w.take(i as int);
        assert(q.drop_last() =~= p + w.take(j as int));
        let op = q.last();
        assert(op == w[j as int]);
        assert(op == workload_op_spec(c, j as u64, keys));
        let prev = reference_run::<KvStore>(q.drop_last());
        let cnt = counts_after(base, j, k);
        let t0: nat = (j % k) as nat;
        assert((j as u64) % keys == t0);
        lemma_count_mod_bound(j, k, t0);
        assert(cnt[t0 as int] <= i64::MAX) by {
            assert(base[t0 as int] + ops <= i64::MAX);
        }
        lemma_incr_counts(prev.0, cnt, k, t0, op);
        assert(op.seq == i && op.client == c);
        assert(op.seq > high_water(prev.1, c));
        let r = reference_run::<KvStore>(q);
        assert(r == (kv_apply(prev.0, op).0, prev.1.insert(c, op.seq)));
        lemma_counts_after_step(base, j, k);
        assert(t0 as int == (j as int) % (k as int));
        assert(j + 1 == i);
        assert(r.0 == counts_model(counts_after(base, i, k), k));
        assert(high_water(r.1, c) == i);
        assert forall|c2: u32| c2 != c implies #[trigger] high_water(r.1, c2) == high_water(prev.1, c2) by {}
    }
}

/// One more op of the client adds one to the count of its key.
proof fn lemma_counts_after_step(base: Seq<nat>, j: nat, k: nat)
    requires
        k >= 1,
        base.len() == k,
    ensures
        counts_after(base, j + 1, k) == counts_after(base, j, k).update(
            (j as int) % (k as int),
            counts_after(base, j, k)[(j as int) % (k as int)] + 1,
        ),
{
    let cnt = counts_after(base, j, k);
    let t0 = (j as int) % (k as int);
    assert forall|t: int| 0 <= t < k implies #[trigger] counts_after(base, j + 1, k)[t] == cnt.update(t0, cnt[t0] + 1)[t] by {
        assert(count_mod(j + 1, k, t as nat) == count_mod(j, k, t as nat) + if (j as int) % (k as int) == t {
            1nat
        } else {
            0nat
        });
    }
    assert(counts_after(base, j + 1, k) =~= cnt.update(t0, cnt[t0] + 1));
}

/// Incrementing a workload key by one in a store of counts adds one to its count.
proof fn lemma_incr_counts(m: Map<Seq<u8>, Seq<u8>>, cnt: Seq<nat>, k: nat, t0: nat, op: OpSpec)
    requires
        m == counts_model(cnt, k),
        t0 < k <= cnt.len(),
        k <= i64::MAX,
        cnt[t0 as int] <= i64::MAX,
        op.kind == KindSpec::Incr(key_name(t0 as int), 1),
    ensures
        kv_apply(m, op).0 == counts_model(cnt.update(t0 as int, cnt[t0 as int] + 1), k),
{
    let kb = key_bytes(key_name(t0 as int));
    lemma_counts_model_at(cnt, k);
    lemma_decimal_parses(cnt[t0 as int] as i64);
    if cnt[t0 as int] > 0 {
        assert(kv_int(m, kb) == Some(cnt[t0 as int] as i64));
    } else {
        assert(kv_get(m, kb) is None);
    }
    lemma_counts_model_incr(cnt, k, t0);
}

/// Count indices grow with the range.
proof fn lemma_count_mod_mono(n: nat, m: nat, keys: nat, t: nat)
    requires
        m <= n,
    ensures
        count_mod(m, keys, t) <= count_mod(n, keys, t),
    decreases n,
{
    if m < n {
        lemma_count_mod_mono((n - 1) as nat, m, keys, t);
    }
}

/// The reference run over whole workloads of distinct clients holds, per
/// key, the number of clients times that key's share of the ops; clients
/// that sent nothing have no mark.
proof fn lemma_run_workloads(cs: Seq<u32>, ops: nat, keys: u64)
    requires
        cs.no_duplicates(),
        ops < u64::MAX,
        1 <= keys <= i64::MAX,
        cs.len() * ops <= i64::MAX,
    ensures
        reference_run::<KvStore>(workloads(cs, ops, keys)).0 == counts_model(
            Seq::new(keys as nat, |t: int| cs.len() * count_mod(ops, keys as nat, t as nat)),
            keys as nat,
        ),
        forall|c: u32| !cs.contains(c) ==> #[trigger] high_water(reference_run::<KvStore>(workloads(cs, ops, keys)).1, c) == 0,
    decreases cs.len(),
{
    let k = keys as nat;
    let n = cs.len();
    let target = Seq::new(k, |t: int| n * count_mod(ops, k, t as nat));
    if n == 0 {
        assert(Seq::new(k, |t: int| 0nat) =~= target);
        lemma_counts_zero(target, k);
    } else {
        let d = cs.drop_last();
        let c = cs.last();
        assert(d.no_duplicates()) by {
            assert forall|a: int, b: int| 0 <= a < d.len() && 0 <= b < d.len() && a != b implies d[a] != d[b] by {
                assert(d[a] == cs[a] && d[b] == cs[b]);
            }
        }
        assert((n - 1) * ops <= n * ops) by (nonlinear_arith)
            requires
                n >= 1,
        ;
        lemma_run_workloads(d, ops, keys);
        assert(!d.contains(c)) by {
            if d.contains(c) {
                let a = choose|a: int| 0 <= a < d.len() && d[a] == c;
                assert(cs[a] == cs[n - 1]);
            }
        }
        let base = Seq::new(k, |t: int| ((n - 1) as nat) * count_mod(ops, k, t as nat));
        assert forall|t: int| 0 <= t < k implies #[trigger] base[t] + ops <= i64::MAX by {
            lemma_count_mod_bound(ops, k, t as nat);
            let x = count_mod(ops, k, t as nat);
            assert(((n - 1) as nat) * x <= ((n - 1) as nat) * ops) by (nonlinear_arith)
                requires
                    x <= ops,
            ;
            assert(((n - 1) as nat) * ops + ops == n * ops) by (nonlinear_arith)
                requires
                    n >= 1,
            ;
        }
        let p = workloads(d, ops, keys);
        assert(workload(c, ops, keys).take(ops as int) =~= workload(c, ops, keys));
        lemma_run_client(p, c, ops, keys, base, ops);
        assert(counts_after(base, ops, k) =~= target) by {
            assert forall|t: int| 0 <= t < k implies #[trigger] counts_after(base, ops, k)[t] == target[t] by {
                let x = count_mod(ops, k, t as nat);
                assert(((n - 1) as nat) * x + x == n * x) by (nonlinear_arith)
                    requires
                        n >= 1,
                ;
            }
        }
        assert forall|c2: u32| !cs.contains(c2) implies #[trigger] high_water(
            reference_run::<KvStore>(workloads(cs, ops, keys)).1,
            c2,
        ) == 0 by {
            assert(c2 != c);
            if d.contains(c2) {
                let a = choose|a: int| 0 <= a < d.len() && d[a] == c2;
                assert(cs[a] == c2);
            }
        }
    }
}

proof fn lemma_counts_zero(cnt: Seq<nat>, t: nat)
    requires
        t <= cnt.len(),
        forall|s: int| 0 <= s < t ==> cnt[s] == 0,
    ensures
        counts_model(cnt, t) == Map::<Seq<u8>, Seq<u8>>::empty(),
    decreases t,
{
    if t > 0 {
        lemma_counts_zero(cnt, (t - 1) as nat);
    }
}

/// With every key counted, the counts are the expected state.
proof fn lemma_counts_expected(clients: nat, ops: nat, keys: nat, t: nat)
    requires
        t <= keys <= ops,
        clients >= 1,
    ensures
        counts_model(Seq::new(keys, |s: int| clients * count_mod(ops, keys, s as nat)), t) == expected_model(
            clients,
            ops,
            keys,
            t,
        ),
    decreases t,
{
    if t > 0 {
        let u = (t - 1) as nat;
        lemma_counts_expected(clients, ops, keys, u);
        lemma_count_mod_mono(ops, t, keys, u);
        assert(count_mod(t, keys, u) >= 1) by {
            vstd::arithmetic::div_mod::lemma_small_mod(u, keys);
        }
        let x = count_mod(ops, keys, u);
        assert(clients * x >= 1) by (nonlinear_arith)
            requires
                clients >= 1,
                x >= 1,
        ;
    }
}

/// The expected state is what the reference run of the clients' combined
/// workloads (distinct clients, each sending its whole workload) reaches,
/// whenever every key gets an op (`ops >= keys`) and there is a client.
pub proof fn lemma_expected_is_reference(cs: Seq<u32>, ops: nat, keys: u64)
    requires
        cs.no_duplicates(),
        cs.len() >= 1,
        1 <= keys <= ops < u64::MAX,
        cs.len() * ops <= i64::MAX,
    ensures
        reference_run::<KvStore>(workloads(cs, ops, keys)).0 == expected_model(cs.len(), ops, keys as nat, keys as nat),
{
    assert(ops <= cs.len() * ops) by (nonlinear_arith)
        requires
            cs.len() >= 1,
    ;
    lemma_run_workloads(cs, ops, keys);
    lemma_counts_expected(cs.len(), ops, keys as nat, keys as nat);
}

/// A reply acknowledges a `SET` when it starts with `+OK`.
pub open spec fn set_acked(reply: Seq<u8>) -> bool {
    reply.len() >= 3 && reply[0] == 43 && reply[1] == 79 && reply[2] == 75
}

/// What a crash-test client makes of one `SET` round trip.
#[derive(Clone, Copy, Debug, PartialEq, Eq)]
pub enum SetOutcome {
    /// `+OK`: the write must survive the crash.
    Acked,
    /// Any other reply: the write was answered but not acknowledged.
    Refused,
    /// The connection failed: the write may or may not have landed, and it
    /// is not retried.
    Ambiguous,
}

/// The outcome of a `SET` round trip from its reply (`None` when the
/// connection failed).
pub open spec fn set_outcome(reply: Option<Seq<u8>>) -> SetOutcome {
    match reply {
        None => SetOutcome::Ambiguous,
        Some(b) => if set_acked(b) { SetOutcome::Acked } else { SetOutcome::Refused },
    }
}

/// Classify a `SET` round trip (`set_outcome`).
pub fn classify_set(reply: Option<&[u8]>) -> (r: SetOutcome)
    ensures
        r == set_outcome(match reply {
            Some(b) => Some(b@),
            None => None,
        }),
{
    match reply {
        None => SetOutcome::Ambiguous,
        Some(b) => {
            if b.len() >= 3 && b[0] == 43 && b[1] == 79 && b[2] == 75 {
                SetOutcome::Acked
            } else {
                SetOutcome::Refused
            }
        },
    }
}

/// Of acknowledged writes and what reading each back gave (nothing when the
/// key is gone or the read failed): how many are lost and how many torn (read
/// back as another value), over the first `n`.
pub open spec fn readback_faults(acked: Seq<(Seq<char>, Seq<char>)>, got: Seq<Option<Seq<char>>>, n: nat) -> (nat, nat)
    decreases n,
{
    if n == 0 {
        (0, 0)
    } else {
        let r = readback_faults(acked, got, (n - 1) as nat);
        match got[n - 1] {
            None => ((r.0 + 1) as nat, r.1),
            Some(v) => if v == acked[n - 1].1 { r } else { (r.0, (r.1 + 1) as nat) },
        }
    }
}

proof fn lemma_readback_faults_bound(acked: Seq<(Seq<char>, Seq<char>)>, got: Seq<Option<Seq<char>>>, n: nat)
    ensures
        readback_faults(acked, got, n).0 + readback_faults(acked, got, n).1 <= n,
    decreases n,
{
    if n > 0 {
        lemma_readback_faults_bound(acked, got, (n - 1) as nat);
    }
}

pub open spec fn pairs_view(v: Seq<(String, String)>) -> Seq<(Seq<char>, Seq<char>)> {
    v.map_values(|e: (String, String)| (e.0@, e.1@))
}

pub open spec fn reads_view(v: Seq<Option<String>>) -> Seq<Option<Seq<char>>> {
    v.map_values(|e: Option<String>| match e {
        Some(s) => Some(s@),
        None => None,
    })
}

/// Tally a crash test's read-back: `(lost, torn)` over the acknowledged
/// writes, where `got[i]` is what reading back `acked[i]`'s key gave.
pub fn readback_tally(acked: &Vec<(String, String)>, got: &Vec<Option<String>>) -> (r: (u64, u64))
    requires
        got.len() == acked.len(),
    ensures
        (r.0 as nat, r.1 as nat) == readback_faults(pairs_view(acked@), reads_view(got@), acked.len() as nat),
{
    let ghost a = pairs_view(acked@);
    let ghost g = reads_view(got@);
    let mut lost: u64 = 0;
    let mut torn: u64 = 0;
    let mut i: usize = 0;
    while i < acked.len()
        invariant
            i <= acked@.len(),
            got@.len() == acked@.len(),
            a == pairs_view(acked@),
            g == reads_view(got@),
            (lost as nat, torn as nat) == readback_faults(a, g, i as nat),
        decreases acked@.len() - i,
    {
        proof {
            lemma_readback_faults_bound(a, g, i as nat);
        }
        assert(g[i as int] == match got@[i as int] {
            Some(s) => Some(s@),
            None => None::<Seq<char>>,
        });
        match &got[i] {
            None => lost = lost + 1,
            Some(v) => {
                let same = bytes_eq(str_bytes(v.as_str()), str_bytes(acked[i].1.as_str()));
                proof {
                    encode_utf8_decode_utf8(v@);
                    encode_utf8_decode_utf8(acked@[i as int].1@);
                }
                if !same {
                    torn = torn + 1;
                }
            },
        }
        i = i + 1;
    }
    (lost, torn)
}

/// The expected final state, as `(key, count)` in key order.
pub fn expected_state(clients: usize, ops: u64, keys: u64) -> (r: Vec<(String, i64)>)
    requires
        clients * ops <= i64::MAX,
    ensures
        named_ints_view(r@) == int_entries(
            sorted_entries(expected_model(clients as nat, ops as nat, keys as nat, keys as nat), bytes_order()),
        ),
{
    let mut store = KvStore::new();
    let mut k: u64 = 0;
    while k < keys
        invariant
            k <= keys,
            clients * ops <= i64::MAX,
            store@ == expected_model(clients as nat, ops as nat, keys as nat, k as nat),
        decreases keys - k,
    {
        let mut cnt: u64 = 0;
        let mut i: u64 = 0;
        while i < ops
            invariant
                i <= ops,
                keys > 0,
                k < keys,
                cnt == count_mod(i as nat, keys as nat, k as nat),
            decreases ops - i,
        {
            if i % keys == k {
                proof {
                    lemma_count_mod_bound(i as nat, keys as nat, k as nat);
                }
                cnt = cnt + 1;
            }
            i = i + 1;
        }
        proof {
            lemma_count_mod_bound(ops as nat, keys as nat, k as nat);
            assert(clients * cnt <= clients * ops) by (nonlinear_arith)
                requires
                    cnt <= ops,
            ;
        }
        let sum: i64 = (clients as u64 * cnt) as i64;
        let mut name = String::from_str("k");
        let d = nat_string(k);
        name.append(d.as_str());
        let kb = vstd::slice::slice_to_vec(str_bytes(name.as_str()));
        let vb = decimal_bytes(sum);
        store.put(kb, vb);
        k = k + 1;
    }
    store.entries()
}

pub open spec fn entries_view(v: Vec<(String, i64)>) -> Seq<(Seq<char>, i64)> {
    named_ints_view(v@)
}

/// Whether two entry lists are the same.
pub fn same_entries(a: &Vec<(String, i64)>, b: &Vec<(String, i64)>) -> (r: bool)
    ensures
        r == (entries_view(*a) == entries_view(*b)),
{
    if a.len() != b.len() {
        assert(entries_view(*a).len() != entries_view(*b).len());
        return false;
    }
    let mut i: usize = 0;
    while i < a.len()
        invariant
            i <= a@.len(),
            a@.len() == b@.len(),
            forall|j: int| 0 <= j < i ==> #[trigger] entries_view(*a)[j] == entries_view(*b)[j],
        decreases a@.len() - i,
    {
        if a[i].0 != b[i].0 || a[i].1 != b[i].1 {
            assert(entries_view(*a)[i as int] != entries_view(*b)[i as int]);
            return false;
        }
        i = i + 1;
    }
    assert(entries_view(*a) =~= entries_view(*b));
    true
}

/// The replicas agree: there is at least one, and each holds what the next does.
pub open spec fn converged(states: Seq<Vec<(String, i64)>>) -> bool {
    states.len() > 0 && forall|i: int| 0 <= i < states.len() - 1 ==> entries_view(#[trigger] states[i]) == entries_view(
        states[i + 1],
    )
}

/// Every replica holds the expected state.
pub open spec fn all_correct(states: Seq<Vec<(String, i64)>>, expected: Vec<(String, i64)>) -> bool {
    forall|i: int| 0 <= i < states.len() ==> entries_view(#[trigger] states[i]) == entries_view(expected)
}

/// Whether the replicas converged, and whether they all hold the expected
/// state.
pub fn cluster_verdict(states: &Vec<Vec<(String, i64)>>, expected: &Vec<(String, i64)>) -> (r: (bool, bool))
    ensures
        r.0 == converged(states@),
        r.1 == all_correct(states@, *expected),
{
    let mut conv = states.len() > 0;
    let mut correct = true;
    let mut i: usize = 0;
    while i < states.len()
        invariant
            i <= states@.len(),
            conv == (states@.len() > 0 && forall|j: int| 0 <= j < i && j + 1 < states@.len() ==> entries_view(
                #[trigger] states@[j],
            ) == entries_view(states@[j + 1])),
            correct == (forall|j: int| 0 <= j < i ==> entries_view(#[trigger] states@[j]) == entries_view(*expected)),
        decreases states@.len() - i,
    {
        let ghost before = conv;
        if i + 1 < states.len() {
            let same = same_entries(&states[i], &states[i + 1]);
            conv = conv && same;
        }
        let ok = same_entries(&states[i], expected);
        correct = correct && ok;
        proof {
            let n = states@.len();
            if conv {
                assert forall|j: int| 0 <= j < i + 1 && j + 1 < n implies entries_view(#[trigger] states@[j])
                    == entries_view(states@[j + 1]) by {
                    if j < i {
                    }
                }
            }
            if !conv && n > 0 {
                if !before {
                    let w = choose|j: int| !(0 <= j < i && j + 1 < n ==> entries_view(#[trigger] states@[j]) == entries_view(states@[j + 1]));
                    assert(!(0 <= w < i + 1 && w + 1 < n ==> entries_view(states@[w]) == entries_view(states@[w + 1])));
                } else {
                    assert(!(0 <= i < i + 1 && i + 1 < n ==> entries_view(states@[i as int]) == entries_view(states@[i + 1])));
                }
            }
            if !correct {
                if ok {
                    let w = choose|j: int| !(0 <= j < i ==> entries_view(#[trigger] states@[j]) == entries_view(*expected));
                    assert(!(0 <= w < i + 1 ==> entries_view(states@[w]) == entries_view(*expected)));
                } else {
                    assert(!(0 <= i < i + 1 ==> entries_view(states@[i as int]) == entries_view(*expected)));
                }
            }
        }
        i = i + 1;
    }
    (conv, correct)
}

/// The value `k` has in entries read into a map (a later entry for the same
/// key replaces an earlier one).
pub open spec fn lookup_last(s: Seq<(Seq<char>, i64)>, k: Seq<char>) -> Option<i64>
    decreases s.len(),
{
    if s.len() == 0 {
        None
    } else if s.last().0 == k {
        Some(s.last().1)
    } else {
        lookup_last(s.drop_last(), k)
    }
}

fn lookup_in(v: &Vec<(String, i64)>, k: &String) -> (r: Option<i64>)
    ensures
        r == lookup_last(entries_view(*v), k@),
{
    let mut i: usize = v.len();
    assert(entries_view(*v).take(i as int) =~= entries_view(*v));
    while i > 0
        invariant
            i <= v@.len(),
            lookup_last(entries_view(*v).take(i as int), k@) == lookup_last(entries_view(*v), k@),
        decreases i,
    {
        let ghost t = entries_view(*v).take(i as int);
        assert(t.last() == entries_view(*v)[i - 1]);
        assert(t.drop_last() =~= entries_view(*v).take(i - 1));
        if v[i - 1].0 == *k {
            return Some(v[i - 1].1);
        }
        i = i - 1;
    }
    None
}

/// Every key the victim recovered is expected and holds at most its expected
/// count: a consistent under-approximation.
pub open spec fn prefix_consistent(prefix: Seq<(Seq<char>, i64)>, expected: Seq<(Seq<char>, i64)>) -> bool {
    forall|j: int| 0 <= j < prefix.len() ==> (match lookup_last(expected, (#[trigger] prefix[j]).0) {
        Some(e) => prefix[j].1 <= e,
        None => false,
    })
}

/// Outcome of a crash run.
pub struct CrashReport {
    pub expected: Vec<(String, i64)>,
    /// A survivor's final state.
    pub survivor_state: Vec<(String, i64)>,
    /// The victim recovered from its own durable store.
    pub victim_prefix: Vec<(String, i64)>,
    /// The victim after a state transfer from the survivor.
    pub victim_caught_up: Vec<(String, i64)>,
    pub survivor_correct: bool,
    /// The victim's recovered prefix never exceeds the expected counts.
    pub victim_prefix_consistent: bool,
    pub recovered_ok: bool,
}

impl CrashReport {
    /// Judge a crash run from the states it produced.
    pub fn assess(
        expected: Vec<(String, i64)>,
        survivor_state: Vec<(String, i64)>,
        victim_prefix: Vec<(String, i64)>,
        victim_caught_up: Vec<(String, i64)>,
    ) -> (r: Self)
        ensures
            r.expected == expected,
            r.survivor_state == survivor_state,
            r.victim_prefix == victim_prefix,
            r.victim_caught_up == victim_caught_up,
            r.survivor_correct == (entries_view(survivor_state) == entries_view(expected)),
            r.victim_prefix_consistent == prefix_consistent(entries_view(victim_prefix), entries_view(expected)),
            r.recovered_ok == (entries_view(victim_caught_up) == entries_view(survivor_state) && r.survivor_correct),
    {
        let mut consistent = true;
        let mut j: usize = 0;
        while j < victim_prefix.len()
            invariant
                j <= victim_prefix@.len(),
                consistent == (forall|q: int| 0 <= q < j ==> (match lookup_last(
                    entries_view(expected),
                    (#[trigger] entries_view(victim_prefix)[q]).0,
                ) {
                    Some(e) => entries_view(victim_prefix)[q].1 <= e,
                    None => false,
                })),
            decreases victim_prefix@.len() - j,
        {
            let ok = match lookup_in(&expected, &victim_prefix[j].0) {
                Some(e) => victim_prefix[j].1 <= e,
                None => false,
            };
            assert(entries_view(victim_prefix)[j as int] == (victim_prefix@[j as int].0@, victim_prefix@[j as int].1));
            consistent = consistent && ok;
            j = j + 1;
        }
        let survivor_correct = same_entries(&survivor_state, &expected);
        let caught = same_entries(&victim_caught_up, &survivor_state);
        CrashReport {
            expected,
            survivor_state,
            victim_prefix,
            victim_caught_up,
            survivor_correct,
            victim_prefix_consistent: consistent,
            recovered_ok: caught && survivor_correct,
        }
    }
}

} // verus!

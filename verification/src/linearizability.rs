//! Deciding whether a register history is linearizable (Wing & Gong / Lowe
//! search with memoization of failed states). A key-value store is
//! linearizable iff each key, an independent register, is.

use vstd::prelude::*;

verus! {

#[derive(Clone, Copy, Debug, PartialEq, Eq)]
pub enum Action {
    Write(i64),
    Read(i64),
}

/// One operation with its real-time interval `[inv, res]`.
#[derive(Clone, Copy, Debug)]
pub struct LinOp {
    pub proc_id: u32,
    pub action: Action,
    pub inv: u64,
    pub res: u64,
}

/// A read is valid iff it returns the register's current value; writes always are.
pub open spec fn valid_spec(action: Action, value: i64) -> bool {
    match action {
        Action::Write(_) => true,
        Action::Read(v) => v == value,
    }
}

/// The register's value after the action.
pub open spec fn apply_spec(action: Action, value: i64) -> i64 {
    match action {
        Action::Write(v) => v,
        Action::Read(_) => value,
    }
}

/// Running the ops in order `p` from register value `v`, every read sees the
/// value current at its place in the order.
pub open spec fn run_ok(ops: Seq<LinOp>, p: Seq<usize>, v: i64) -> bool
    decreases p.len(),
{
    if p.len() == 0 {
        true
    } else {
        valid_spec(ops[p[0] as int].action, v) && run_ok(ops, p.drop_first(), apply_spec(ops[p[0] as int].action, v))
    }
}

/// The order respects real time: no op is placed before one that returned
/// before it was invoked (and no op returns before it is invoked).
pub open spec fn real_time_ok(ops: Seq<LinOp>, p: Seq<usize>) -> bool {
    forall|k: int, l: int| 0 <= k <= l < p.len() ==> ops[#[trigger] p[k] as int].inv <= ops[#[trigger] p[l] as int].res
}

/// `p` orders exactly the (distinct) indices of `rem`.
pub open spec fn orders(p: Seq<usize>, rem: Seq<usize>) -> bool {
    &&& p.len() == rem.len()
    &&& p.no_duplicates()
    &&& forall|i: int| 0 <= i < p.len() ==> rem.contains(#[trigger] p[i])
}

/// `p` linearizes the ops at indices `rem` from register value `v`.
pub open spec fn is_linearization(ops: Seq<LinOp>, rem: Seq<usize>, v: i64, p: Seq<usize>) -> bool {
    &&& orders(p, rem)
    &&& real_time_ok(ops, p)
    &&& run_ok(ops, p, v)
}

pub open spec fn linearizable_from(ops: Seq<LinOp>, rem: Seq<usize>, v: i64) -> bool {
    exists|p: Seq<usize>| is_linearization(ops, rem, v, p)
}

/// The indices `0..n`.
pub open spec fn all_indices(n: nat) -> Seq<usize> {
    Seq::new(n, |i: int| i as usize)
}

/// The history is linearizable against a register starting at `init`: some
/// total order of all its ops respects real time (`res(A) < inv(B)` puts A
/// before B) and gives every read the value current at its place.
pub open spec fn linearizable(ops: Seq<LinOp>, init: i64) -> bool {
    linearizable_from(ops, all_indices(ops.len()), init)
}

/// `rem` without `id`.
pub open spec fn without(rem: Seq<usize>, id: usize) -> Seq<usize>
    decreases rem.len(),
{
    if rem.len() == 0 {
        rem
    } else {
        let r = without(rem.drop_last(), id);
        if rem.last() == id { r } else { r.push(rem.last()) }
    }
}

/// `id` may go first: it was invoked no later than any remaining op returned.
pub open spec fn is_candidate(ops: Seq<LinOp>, rem: Seq<usize>, id: usize) -> bool {
    &&& rem.contains(id)
    &&& forall|i: int| 0 <= i < rem.len() ==> ops[id as int].inv <= ops[#[trigger] rem[i] as int].res
}

proof fn lemma_without(rem: Seq<usize>, id: usize)
    ensures
        forall|x: usize| without(rem, id).contains(x) <==> (rem.contains(x) && x != id),
        rem.no_duplicates() ==> without(rem, id).no_duplicates(),
        rem.no_duplicates() && rem.contains(id) ==> without(rem, id).len() + 1 == rem.len(),
        !rem.contains(id) ==> without(rem, id).len() == rem.len(),
    decreases rem.len(),
{
    if rem.len() > 0 {
        let d = rem.drop_last();
        lemma_without(d, id);
        let r = without(d, id);
        assert forall|x: usize| without(rem, id).contains(x) <==> (rem.contains(x) && x != id) by {
            if rem.contains(x) && x != id {
                let i = choose|i: int| 0 <= i < rem.len() && rem[i] == x;
                if i < rem.len() - 1 {
                    assert(d[i] == x);
                    assert(d.contains(x));
                    assert(r.contains(x));
                    let k = choose|k: int| 0 <= k < r.len() && r[k] == x;
                    assert(without(rem, id)[k] == x);
                } else {
                    assert(without(rem, id)[without(rem, id).len() - 1] == x);
                }
            }
            if without(rem, id).contains(x) {
                let i = choose|i: int| 0 <= i < without(rem, id).len() && without(rem, id)[i] == x;
                if rem.last() != id && i == r.len() {
                    assert(rem[rem.len() - 1] == x);
                } else {
                    assert(r[i] == x);
                    assert(r.contains(x));
                    assert(d.contains(x) && x != id);
                    let j = choose|j: int| 0 <= j < d.len() && d[j] == x;
                    assert(rem[j] == x);
                }
            }
        }
        if rem.no_duplicates() {
            assert(d.no_duplicates()) by {
                assert forall|i: int, j: int| 0 <= i < d.len() && 0 <= j < d.len() && i != j implies d[i] != d[j] by {
                    assert(d[i] == rem[i] && d[j] == rem[j]);
                }
            }
            if rem.last() != id {
                assert(!d.contains(rem.last())) by {
                    if d.contains(rem.last()) {
                        let j = choose|j: int| 0 <= j < d.len() && d[j] == rem.last();
                        assert(rem[j] == rem[rem.len() - 1]);
                    }
                }
                assert(!r.contains(rem.last()));
                assert(without(rem, id).no_duplicates()) by {
                    let w = without(rem, id);
                    assert forall|i: int, j: int| 0 <= i < w.len() && 0 <= j < w.len() && i != j implies w[i] != w[j] by {
                        if i < r.len() && j < r.len() {
                        } else if i < r.len() {
                            assert(r.contains(w[i]));
                        } else {
                            assert(r.contains(w[j]));
                        }
                    }
                }
            }
            if rem.contains(id) {
                if rem.last() != id {
                    let j = choose|j: int| 0 <= j < rem.len() && rem[j] == id;
                    assert(d[j] == id);
                } else {
                    assert(!d.contains(id)) by {
                        if d.contains(id) {
                            let j = choose|j: int| 0 <= j < d.len() && d[j] == id;
                            assert(rem[j] == rem[rem.len() - 1]);
                        }
                    }
                }
            }
        }
        if !rem.contains(id) {
            assert(!d.contains(id)) by {
                if d.contains(id) {
                    let j = choose|j: int| 0 <= j < d.len() && d[j] == id;
                    assert(rem[j] == id);
                }
            }
            assert(rem.last() != id) by {
                assert(rem[rem.len() - 1] == rem.last());
            }
        }
    }
}

/// Putting a candidate first in front of a linearization of the rest gives a
/// linearization; and the first op of any linearization is a valid candidate
/// whose removal leaves a linearization of the rest.
proof fn lemma_first_step(ops: Seq<LinOp>, rem: Seq<usize>, v: i64, id: usize)
    requires
        rem.no_duplicates(),
    ensures
        (is_candidate(ops, rem, id) && valid_spec(ops[id as int].action, v) && linearizable_from(
            ops,
            without(rem, id),
            apply_spec(ops[id as int].action, v),
        )) ==> linearizable_from(ops, rem, v),
{
    lemma_without(rem, id);
    if is_candidate(ops, rem, id) && valid_spec(ops[id as int].action, v) && linearizable_from(
        ops,
        without(rem, id),
        apply_spec(ops[id as int].action, v),
    ) {
        let w = without(rem, id);
        let q = choose|q: Seq<usize>| is_linearization(ops, w, apply_spec(ops[id as int].action, v), q);
        let p = seq![id] + q;
        assert(p.drop_first() =~= q);
        assert(p[0] == id);
        assert forall|i: int| 0 <= i < p.len() implies rem.contains(#[trigger] p[i]) by {
            if i > 0 {
                assert(p[i] == q[i - 1]);
                assert(w.contains(q[i - 1]));
            }
        }
        assert(p.no_duplicates()) by {
            assert forall|i: int, j: int| 0 <= i < p.len() && 0 <= j < p.len() && i != j implies p[i] != p[j] by {
                if i > 0 && j > 0 {
                    assert(p[i] == q[i - 1] && p[j] == q[j - 1]);
                } else if i == 0 {
                    assert(p[j] == q[j - 1]);
                    assert(w.contains(q[j - 1]));
                } else {
                    assert(p[i] == q[i - 1]);
                    assert(w.contains(q[i - 1]));
                }
            }
        }
        assert(real_time_ok(ops, p)) by {
            assert forall|k: int, l: int| 0 <= k <= l < p.len() implies ops[#[trigger] p[k] as int].inv
                <= ops[#[trigger] p[l] as int].res by {
                if k == 0 {
                    let x = p[l];
                    assert(rem.contains(x));
                    let j = choose|j: int| 0 <= j < rem.len() && rem[j] == x;
                    assert(ops[id as int].inv <= ops[rem[j] as int].res);
                } else {
                    assert(p[k] == q[k - 1] && p[l] == q[l - 1]);
                }
            }
        }
        assert(is_linearization(ops, rem, v, p));
    }
}

proof fn lemma_first_of_linearization(ops: Seq<LinOp>, rem: Seq<usize>, v: i64, p: Seq<usize>)
    requires
        rem.no_duplicates(),
        is_linearization(ops, rem, v, p),
        rem.len() > 0,
    ensures
        is_candidate(ops, rem, p[0]),
        valid_spec(ops[p[0] as int].action, v),
        linearizable_from(ops, without(rem, p[0]), apply_spec(ops[p[0] as int].action, v)),
{
    let id = p[0];
    lemma_without(rem, id);
    assert(rem.contains(id));
    assert forall|i: int| 0 <= i < rem.len() implies ops[id as int].inv <= ops[#[trigger] rem[i] as int].res by {
        let x = rem[i];
        // every element of rem occurs in p
        lemma_orders_covers(p, rem, x);
        let l = choose|l: int| 0 <= l < p.len() && p[l] == x;
        assert(ops[p[0] as int].inv <= ops[p[l] as int].res);
    }
    let q = p.drop_first();
    let w = without(rem, id);
    assert forall|i: int| 0 <= i < q.len() implies w.contains(#[trigger] q[i]) by {
        assert(q[i] == p[i + 1]);
        assert(rem.contains(p[i + 1]));
        assert(p[i + 1] != p[0]);
    }
    assert(q.no_duplicates()) by {
        assert forall|i: int, j: int| 0 <= i < q.len() && 0 <= j < q.len() && i != j implies q[i] != q[j] by {
            assert(q[i] == p[i + 1] && q[j] == p[j + 1]);
        }
    }
    assert(real_time_ok(ops, q)) by {
        assert forall|k: int, l: int| 0 <= k <= l < q.len() implies ops[#[trigger] q[k] as int].inv
            <= ops[#[trigger] q[l] as int].res by {
            assert(q[k] == p[k + 1] && q[l] == p[l + 1]);
        }
    }
    assert(is_linearization(ops, w, apply_spec(ops[id as int].action, v), q));
}

/// An ordering of distinct elements as long as `rem` covers all of `rem`.
proof fn lemma_orders_covers(p: Seq<usize>, rem: Seq<usize>, x: usize)
    requires
        orders(p, rem),
        rem.no_duplicates(),
        rem.contains(x),
    ensures
        p.contains(x),
    decreases rem.len(),
{
    if !p.contains(x) {
        // p maps injectively into rem without x, which has fewer elements
        let w = without(rem, x);
        lemma_without(rem, x);
        assert forall|i: int| 0 <= i < p.len() implies w.contains(#[trigger] p[i]) by {
            assert(rem.contains(p[i]));
            assert(p[i] != x);
        }
        lemma_injective_len(p, w);
    }
}

/// Distinct elements drawn from a duplicate-free sequence are no more numerous than it.
proof fn lemma_injective_len(p: Seq<usize>, w: Seq<usize>)
    requires
        p.no_duplicates(),
        w.no_duplicates(),
        forall|i: int| 0 <= i < p.len() ==> w.contains(#[trigger] p[i]),
    ensures
        p.len() <= w.len(),
    decreases p.len(),
{
    if p.len() > 0 {
        let y = p.last();
        assert(w.contains(p[p.len() - 1]));
        let w2 = without(w, y);
        lemma_without(w, y);
        let d = p.drop_last();
        assert(d.no_duplicates()) by {
            assert forall|i: int, j: int| 0 <= i < d.len() && 0 <= j < d.len() && i != j implies d[i] != d[j] by {
                assert(d[i] == p[i] && d[j] == p[j]);
            }
        }
        assert forall|i: int| 0 <= i < d.len() implies w2.contains(#[trigger] d[i]) by {
            assert(d[i] == p[i]);
            assert(w.contains(p[i]));
            assert(p[i] != p[p.len() - 1]);
        }
        lemma_injective_len(d, w2);
    }
}

/// A write of `w` and a read of `v`, each over its own interval: the history
/// is linearizable exactly when the read may come after the write and sees
/// `w`, or may come before it and sees the initial value. In particular a
/// read invoked after the write returned must return `w`.
pub proof fn lemma_write_read(w: i64, v: i64, init: i64, p1: u32, p2: u32, i1: u64, r1: u64, i2: u64, r2: u64)
    requires
        i1 <= r1,
        i2 <= r2,
    ensures
        linearizable(
            seq![
                LinOp { proc_id: p1, action: Action::Write(w), inv: i1, res: r1 },
                LinOp { proc_id: p2, action: Action::Read(v), inv: i2, res: r2 },
            ],
            init,
        ) <==> ((i1 <= r2 && v == w) || (i2 <= r1 && v == init)),
{
    let ops = seq![
        LinOp { proc_id: p1, action: Action::Write(w), inv: i1, res: r1 },
        LinOp { proc_id: p2, action: Action::Read(v), inv: i2, res: r2 },
    ];
    let all = all_indices(2);
    assert(all[0] == 0usize && all[1] == 1usize);
    if i1 <= r2 && v == w {
        let p = seq![0usize, 1usize];
        assert(p.drop_first() =~= seq![1usize]);
        assert(p.drop_first().drop_first() =~= Seq::<usize>::empty());
        assert(run_ok(ops, p.drop_first().drop_first(), w));
        assert(p.drop_first()[0] == 1usize);
        assert(run_ok(ops, p.drop_first(), w));
        assert(run_ok(ops, p, init));
        assert(p.no_duplicates());
        assert(is_linearization(ops, all, init, p));
    }
    if i2 <= r1 && v == init {
        let p = seq![1usize, 0usize];
        assert(p.drop_first() =~= seq![0usize]);
        assert(p.drop_first().drop_first() =~= Seq::<usize>::empty());
        assert(run_ok(ops, p.drop_first().drop_first(), w));
        assert(p.drop_first()[0] == 0usize);
        assert(run_ok(ops, p.drop_first(), init));
        assert(run_ok(ops, p, init));
        assert(p.no_duplicates());
        assert(is_linearization(ops, all, init, p));
    }
    if linearizable(ops, init) {
        let p = choose|p: Seq<usize>| is_linearization(ops, all, init, p);
        assert(all.contains(p[0]) && all.contains(p[1]));
        assert(p[0] < 2 && p[1] < 2);
        assert(p[0] != p[1]);
        assert(ops[p[0] as int].inv <= ops[p[1] as int].res);
        assert(p.drop_first()[0] == p[1]);
        if p[0] == 0 {
            assert(run_ok(ops, p.drop_first(), w));
        } else {
            assert(run_ok(ops, p, init));
        }
    }
}

/// Two ops agree on everything the verdict reads: action and interval.
pub open spec fn same_op(a: LinOp, b: LinOp) -> bool {
    a.action == b.action && a.inv == b.inv && a.res == b.res
}

/// `perm` sends each index of `ops` to the index of the same op in `ops2`:
/// it is a permutation of `0..n`.
pub open spec fn reorders(ops: Seq<LinOp>, ops2: Seq<LinOp>, perm: Seq<usize>) -> bool {
    &&& ops.len() <= usize::MAX
    &&& ops2.len() == ops.len()
    &&& perm.len() == ops.len()
    &&& perm.no_duplicates()
    &&& forall|i: int| 0 <= i < perm.len() ==> (#[trigger] perm[i]) < ops.len()
    &&& forall|i: int| 0 <= i < perm.len() ==> same_op(ops[i], ops2[#[trigger] perm[i] as int])
}

/// An order's indices carried through `perm`.
pub open spec fn carry(p: Seq<usize>, perm: Seq<usize>) -> Seq<usize> {
    p.map_values(|x: usize| perm[x as int])
}

proof fn lemma_run_ok_carry(ops: Seq<LinOp>, ops2: Seq<LinOp>, perm: Seq<usize>, p: Seq<usize>, v: i64)
    requires
        reorders(ops, ops2, perm),
        forall|i: int| 0 <= i < p.len() ==> (#[trigger] p[i]) < ops.len(),
    ensures
        run_ok(ops2, carry(p, perm), v) == run_ok(ops, p, v),
    decreases p.len(),
{
    if p.len() > 0 {
        let d = p.drop_first();
        assert forall|i: int| 0 <= i < d.len() implies (#[trigger] d[i]) < ops.len() by {
            assert(d[i] == p[i + 1]);
        }
        assert(carry(p, perm).drop_first() =~= carry(d, perm));
        assert(same_op(ops[p[0] as int], ops2[perm[p[0] as int] as int]));
        lemma_run_ok_carry(ops, ops2, perm, d, apply_spec(ops[p[0] as int].action, v));
    }
}

/// A linearization carried through `perm` linearizes the reordered history.
proof fn lemma_linearizable_carry(ops: Seq<LinOp>, ops2: Seq<LinOp>, perm: Seq<usize>, init: i64)
    requires
        reorders(ops, ops2, perm),
        linearizable(ops, init),
    ensures
        linearizable(ops2, init),
{
    let n = ops.len();
    let all = all_indices(n);
    let p = choose|p: Seq<usize>| is_linearization(ops, all, init, p);
    let q = carry(p, perm);
    assert forall|i: int| 0 <= i < p.len() implies (#[trigger] p[i]) < n by {
        assert(all.contains(p[i]));
    }
    assert(q.no_duplicates()) by {
        assert forall|a: int, b: int| 0 <= a < q.len() && 0 <= b < q.len() && a != b implies q[a] != q[b] by {
            assert(p[a] < n && p[b] < n);
            assert(p[a] != p[b]);
            if q[a] == q[b] {
                assert(perm[p[a] as int] == perm[p[b] as int]);
            }
        }
    }
    assert forall|i: int| 0 <= i < q.len() implies all.contains(#[trigger] q[i]) by {
        assert(p[i] < n);
        assert(perm[p[i] as int] < n);
        assert(all[q[i] as int] == q[i]);
    }
    assert(real_time_ok(ops2, q)) by {
        assert forall|k: int, l: int| 0 <= k <= l < q.len() implies ops2[#[trigger] q[k] as int].inv <= ops2[
            #[trigger] q[l] as int].res by {
            assert(p[k] < n && p[l] < n);
            assert(same_op(ops[p[k] as int], ops2[perm[p[k] as int] as int]));
            assert(same_op(ops[p[l] as int], ops2[perm[p[l] as int] as int]));
            assert(ops[p[k] as int].inv <= ops[p[l] as int].res);
        }
    }
    lemma_run_ok_carry(ops, ops2, perm, p, init);
    assert(is_linearization(ops2, all_indices(ops2.len()), init, q));
}

/// The verdict depends only on the multiset of (action, interval): reordering
/// the history, and changing any process ids, leaves it unchanged.
pub proof fn lemma_linearizable_reorder(ops: Seq<LinOp>, ops2: Seq<LinOp>, perm: Seq<usize>, init: i64)
    requires
        reorders(ops, ops2, perm),
    ensures
        linearizable(ops2, init) == linearizable(ops, init),
{
    let n = ops.len();
    if linearizable(ops, init) {
        lemma_linearizable_carry(ops, ops2, perm, init);
    }
    // Every index of `ops2` is hit: `perm` is onto `0..n`.
    let all = all_indices(n);
    assert(all.no_duplicates()) by {
        assert forall|a: int, b: int| 0 <= a < all.len() && 0 <= b < all.len() && a != b implies all[a] != all[b] by {
            assert(all[a] == a as usize && all[b] == b as usize);
        }
    }
    all.unique_seq_to_set();
    perm.unique_seq_to_set();
    assert(perm.to_set().subset_of(all.to_set())) by {
        assert forall|x: usize| perm.to_set().contains(x) implies all.to_set().contains(x) by {
            let i = choose|i: int| 0 <= i < perm.len() && perm[i] == x;
            assert(all[x as int] == x);
        }
    }
    vstd::set_lib::lemma_subset_equality(perm.to_set(), all.to_set());
    let back = Seq::new(n, |j: int| choose|i: int| 0 <= i < perm.len() && perm[i] == j as usize);
    assert forall|j: int| 0 <= j < n implies 0 <= #[trigger] back[j] < n && perm[back[j]] == j as usize by {
        assert(all[j] == j as usize);
        assert(all.to_set().contains(j as usize));
        assert(perm.to_set().contains(j as usize));
    }
    assert(back.no_duplicates()) by {
        assert forall|a: int, b: int| 0 <= a < back.len() && 0 <= b < back.len() && a != b implies back[a]
            != back[b] by {
            assert(perm[back[a]] == a as usize && perm[back[b]] == b as usize);
            assert(a as usize != b as usize);
        }
    }
    let backu = back.map_values(|i: int| i as usize);
    assert forall|j: int| 0 <= j < n implies same_op(ops2[j], ops[#[trigger] backu[j] as int]) by {
        let i = back[j];
        assert(same_op(ops[i], ops2[perm[i] as int]));
    }
    assert(backu.no_duplicates()) by {
        assert forall|a: int, b: int| 0 <= a < backu.len() && 0 <= b < backu.len() && a != b implies backu[a]
            != backu[b] by {
            assert(back[a] != back[b]);
        }
    }
    assert(reorders(ops2, ops, backu));
    if linearizable(ops2, init) {
        lemma_linearizable_carry(ops2, ops, backu, init);
    }
}

/// Failed search states: no linearization exists from any of them.
pub open spec fn memo_ok(ops: Seq<LinOp>, memo: Seq<(Vec<usize>, i64)>) -> bool {
    forall|i: int| 0 <= i < memo.len() ==> !linearizable_from(ops, (#[trigger] memo[i]).0@, memo[i].1)
}

fn valid(action: Action, value: i64) -> (r: bool)
    ensures
        r == valid_spec(action, value),
{
    match action {
        Action::Write(_) => true,
        Action::Read(v) => v == value,
    }
}

fn apply(action: Action, value: i64) -> (r: i64)
    ensures
        r == apply_spec(action, value),
{
    match action {
        Action::Write(v) => v,
        Action::Read(_) => value,
    }
}

fn memo_contains(memo: &Vec<(Vec<usize>, i64)>, remaining: &[usize], value: i64) -> (r: bool)
    ensures
        r == exists|i: int| 0 <= i < memo@.len() && #[trigger] memo@[i].0@ == remaining@ && memo@[i].1 == value,
{
    let mut i: usize = 0;
    while i < memo.len()
        invariant
            i <= memo@.len(),
            forall|j: int| 0 <= j < i ==> !(#[trigger] memo@[j].0@ == remaining@ && memo@[j].1 == value),
        decreases memo@.len() - i,
    {
        if memo[i].1 == value && usize_slices_eq(memo[i].0.as_slice(), remaining) {
            return true;
        }
        i = i + 1;
    }
    false
}

fn usize_slices_eq(a: &[usize], b: &[usize]) -> (r: bool)
    ensures
        r == (a@ == b@),
{
    if a.len() != b.len() {
        return false;
    }
    let mut i: usize = 0;
    while i < a.len()
        invariant
            i <= a@.len(),
            a@.len() == b@.len(),
            a@.subrange(0, i as int) =~= b@.subrange(0, i as int),
        decreases a@.len() - i,
    {
        if a[i] != b[i] {
            return false;
        }
        i = i + 1;
        assert(a@.subrange(0, i as int) =~= b@.subrange(0, i as int));
    }
    assert(a@ =~= a@.subrange(0, i as int));
    assert(b@ =~= b@.subrange(0, i as int));
    true
}

fn remove_index_value(remaining: &[usize], id: usize) -> (r: Vec<usize>)
    ensures
        r@ == without(remaining@, id),
{
    let mut out: Vec<usize> = Vec::new();
    let mut i: usize = 0;
    while i < remaining.len()
        invariant
            i <= remaining@.len(),
            out@ == without(remaining@.take(i as int), id),
        decreases remaining@.len() - i,
    {
        assert(remaining@.take(i + 1).drop_last() =~= remaining@.take(i as int));
        if remaining[i] != id {
            out.push(remaining[i]);
        }
        i = i + 1;
    }
    assert(remaining@.take(i as int) =~= remaining@);
    out
}

fn recurse(ops: &[LinOp], remaining: &[usize], value: i64, memo: &mut Vec<(Vec<usize>, i64)>) -> (r: bool)
    requires
        memo_ok(ops@, old(memo)@),
        remaining@.no_duplicates(),
        forall|i: int| 0 <= i < remaining@.len() ==> (#[trigger] remaining@[i]) < ops@.len(),
    ensures
        memo_ok(ops@, final(memo)@),
        r == linearizable_from(ops@, remaining@, value),
    decreases remaining@.len(),
{
    if remaining.len() == 0 {
        proof {
            let p = Seq::<usize>::empty();
            assert(is_linearization(ops@, remaining@, value, p));
        }
        return true;
    }
    if memo_contains(memo, remaining, value) {
        return false;
    }
    // The earliest return among the remaining ops: an op is a candidate to go
    // first iff it was invoked no later than that.
    let mut min_res: u64 = ops[remaining[0]].res;
    let mut k: usize = 1;
    while k < remaining.len()
        invariant
            1 <= k <= remaining@.len(),
            forall|i: int| 0 <= i < remaining@.len() ==> (#[trigger] remaining@[i]) < ops@.len(),
            forall|i: int| 0 <= i < k ==> min_res <= ops@[#[trigger] remaining@[i] as int].res,
            exists|i: int| 0 <= i < k && min_res == ops@[#[trigger] remaining@[i] as int].res,
        decreases remaining@.len() - k,
    {
        if ops[remaining[k]].res < min_res {
            min_res = ops[remaining[k]].res;
        }
        k = k + 1;
    }
    let mut j: usize = 0;
    while j < remaining.len()
        invariant
            j <= remaining@.len(),
            memo_ok(ops@, memo@),
            remaining@.no_duplicates(),
            forall|i: int| 0 <= i < remaining@.len() ==> (#[trigger] remaining@[i]) < ops@.len(),
            forall|i: int| 0 <= i < remaining@.len() ==> min_res <= ops@[#[trigger] remaining@[i] as int].res,
            exists|i: int| 0 <= i < remaining@.len() && min_res == ops@[#[trigger] remaining@[i] as int].res,
            forall|jj: int| 0 <= jj < j ==> !({
                let id = #[trigger] remaining@[jj];
                &&& is_candidate(ops@, remaining@, id)
                &&& valid_spec(ops@[id as int].action, value)
                &&& linearizable_from(ops@, without(remaining@, id), apply_spec(ops@[id as int].action, value))
            }),
        decreases remaining@.len() - j,
    {
        let id = remaining[j];
        let op = ops[id];
        let cand = op.inv <= min_res;
        proof {
            lemma_without(remaining@, id);
            if cand {
                assert(is_candidate(ops@, remaining@, id)) by {
                    assert(remaining@.contains(id)) by {
                        assert(remaining@[j as int] == id);
                    }
                }
            } else {
                let i = choose|i: int| 0 <= i < remaining@.len() && min_res == ops@[#[trigger] remaining@[i] as int].res;
                assert(!(ops@[id as int].inv <= ops@[remaining@[i] as int].res));
            }
        }
        if cand && valid(op.action, value) {
            let next_val = apply(op.action, value);
            let next_remaining = remove_index_value(remaining, id);
            proof {
                assert forall|i: int| 0 <= i < next_remaining@.len() implies (#[trigger] next_remaining@[i]) < ops@.len() by {
                    assert(next_remaining@.contains(next_remaining@[i]));
                    let x = next_remaining@[i];
                    assert(remaining@.contains(x));
                }
            }
            if recurse(ops, next_remaining.as_slice(), next_val, memo) {
                proof {
                    lemma_first_step(ops@, remaining@, value, id);
                }
                return true;
            }
        }
        j = j + 1;
    }
    proof {
        if linearizable_from(ops@, remaining@, value) {
            let p = choose|p: Seq<usize>| is_linearization(ops@, remaining@, value, p);
            lemma_first_of_linearization(ops@, remaining@, value, p);
            let id = p[0];
            let jj = choose|jj: int| 0 <= jj < remaining@.len() && remaining@[jj] == id;
            assert(remaining@[jj] == id);
        }
    }
    let ghost before = memo@;
    memo.push((slice_to_vec_usize(remaining), value));
    proof {
        assert forall|i: int| 0 <= i < memo@.len() implies !linearizable_from(ops@, (#[trigger] memo@[i]).0@, memo@[i].1) by {
            if i < before.len() {
                assert(memo@[i] == before[i]);
            }
        }
    }
    false
}

fn slice_to_vec_usize(s: &[usize]) -> (r: Vec<usize>)
    ensures
        r@ == s@,
{
    vstd::slice::slice_to_vec(s)
}

/// Is the history linearizable against a register starting at `init`?
pub fn is_linearizable(ops: &[LinOp], init: i64) -> (r: bool)
    ensures
        r == linearizable(ops@, init),
{
    let mut remaining: Vec<usize> = Vec::new();
    let mut i: usize = 0;
    while i < ops.len()
        invariant
            i <= ops@.len(),
            remaining@ == all_indices(i as nat),
        decreases ops@.len() - i,
    {
        remaining.push(i);
        i = i + 1;
        assert(remaining@ =~= all_indices(i as nat));
    }
    let mut memo: Vec<(Vec<usize>, i64)> = Vec::new();
    assert(remaining@.no_duplicates());
    recurse(ops, remaining.as_slice(), init, &mut memo)
}

} // verus!

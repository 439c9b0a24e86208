//! Association lists kept strictly sorted by key: the representation behind
//! the key-value store and the per-client high-water marks. A sorted list is
//! viewed as the finite map it denotes; the sorted list with a given map is
//! unique, so operations are specified on maps.

use vstd::prelude::*;

verus! {

/// `lt` is a strict total order.
pub open spec fn strict_total<K>(lt: spec_fn(K, K) -> bool) -> bool {
    &&& forall|a: K| !(#[trigger] lt(a, a))
    &&& forall|a: K, b: K, c: K| #[trigger] lt(a, b) && #[trigger] lt(b, c) ==> lt(a, c)
    &&& forall|a: K, b: K| a != b ==> #[trigger] lt(a, b) || #[trigger] lt(b, a)
}

/// Keys strictly increase along the list.
pub open spec fn sorted_by<K, V>(s: Seq<(K, V)>, lt: spec_fn(K, K) -> bool) -> bool {
    forall|i: int, j: int| 0 <= i < j < s.len() ==> lt(#[trigger] s[i].0, #[trigger] s[j].0)
}

/// `k` is the key of some entry.
pub open spec fn has_key<K, V>(s: Seq<(K, V)>, k: K) -> bool {
    exists|i: int| 0 <= i < s.len() && #[trigger] s[i].0 == k
}

/// The finite map an association list denotes.
pub open spec fn to_map<K, V>(s: Seq<(K, V)>) -> Map<K, V> {
    Map::new(
        |k: K| has_key(s, k),
        |k: K| s[choose|i: int| 0 <= i < s.len() && #[trigger] s[i].0 == k].1,
    )
}

/// The (unique) sorted list denoting `m`.
pub open spec fn sorted_entries<K, V>(m: Map<K, V>, lt: spec_fn(K, K) -> bool) -> Seq<(K, V)> {
    choose|s: Seq<(K, V)>| sorted_by(s, lt) && to_map(s) == m
}

/// Sorted lists have distinct keys.
pub proof fn lemma_sorted_distinct<K, V>(s: Seq<(K, V)>, lt: spec_fn(K, K) -> bool, i: int, j: int)
    requires
        strict_total(lt),
        sorted_by(s, lt),
        0 <= i < s.len(),
        0 <= j < s.len(),
        s[i].0 == s[j].0,
    ensures
        i == j,
{
    if i < j {
        assert(lt(s[i].0, s[j].0));
    } else if j < i {
        assert(lt(s[j].0, s[i].0));
    }
}

/// In a sorted list the entry at `i` is what the map gives for its key.
pub proof fn lemma_to_map_at<K, V>(s: Seq<(K, V)>, lt: spec_fn(K, K) -> bool, i: int)
    requires
        strict_total(lt),
        sorted_by(s, lt),
        0 <= i < s.len(),
    ensures
        to_map(s).contains_key(s[i].0),
        to_map(s)[s[i].0] == s[i].1,
{
    let k = s[i].0;
    assert(has_key(s, k));
    let j = choose|j: int| 0 <= j < s.len() && #[trigger] s[j].0 == k;
    lemma_sorted_distinct(s, lt, i, j);
}

/// The sorted list with a given map is unique.
pub proof fn lemma_sorted_unique<K, V>(s1: Seq<(K, V)>, s2: Seq<(K, V)>, lt: spec_fn(K, K) -> bool)
    requires
        strict_total(lt),
        sorted_by(s1, lt),
        sorted_by(s2, lt),
        to_map(s1) == to_map(s2),
    ensures
        s1 == s2,
    decreases s1.len(),
{
    if s1.len() == 0 {
        if s2.len() > 0 {
            assert(has_key(s2, s2[0].0));
            assert(to_map(s2).contains_key(s2[0].0));
        }
        assert(s1 =~= s2);
    } else {
        assert(has_key(s1, s1[0].0));
        assert(to_map(s1).contains_key(s1[0].0));
        assert(s2.len() > 0);
        let a = s1[0].0;
        let b = s2[0].0;
        assert(has_key(s2, b));
        assert(to_map(s2).contains_key(b));
        assert(has_key(s1, b));
        let i = choose|i: int| 0 <= i < s1.len() && #[trigger] s1[i].0 == b;
        assert(has_key(s2, a));
        let j = choose|j: int| 0 <= j < s2.len() && #[trigger] s2[j].0 == a;
        if a != b {
            assert(i > 0);
            assert(j > 0);
            assert(lt(a, b));
            assert(lt(b, a));
            assert(lt(a, a));
        }
        lemma_to_map_at(s1, lt, 0);
        lemma_to_map_at(s2, lt, 0);
        let t1 = s1.drop_first();
        let t2 = s2.drop_first();
        assert(sorted_by(t1, lt)) by {
            assert forall|x: int, y: int| 0 <= x < y < t1.len() implies lt(#[trigger] t1[x].0, #[trigger] t1[y].0) by {
                assert(t1[x] == s1[x + 1] && t1[y] == s1[y + 1]);
            }
        }
        assert(sorted_by(t2, lt)) by {
            assert forall|x: int, y: int| 0 <= x < y < t2.len() implies lt(#[trigger] t2[x].0, #[trigger] t2[y].0) by {
                assert(t2[x] == s2[x + 1] && t2[y] == s2[y + 1]);
            }
        }
        assert(to_map(t1) =~= to_map(t2)) by {
            assert forall|k: K| #[trigger] has_key(t1, k) implies has_key(t2, k) by {
                let x = choose|x: int| 0 <= x < t1.len() && #[trigger] t1[x].0 == k;
                assert(s1[x + 1].0 == k);
                assert(has_key(s1, k));
                assert(to_map(s2).contains_key(k));
                let y = choose|y: int| 0 <= y < s2.len() && #[trigger] s2[y].0 == k;
                if y == 0 {
                    lemma_sorted_distinct(s1, lt, 0, x + 1);
                }
                assert(t2[y - 1].0 == k);
            }
            assert forall|k: K| #[trigger] has_key(t2, k) implies has_key(t1, k) by {
                let x = choose|x: int| 0 <= x < t2.len() && #[trigger] t2[x].0 == k;
                assert(s2[x + 1].0 == k);
                assert(has_key(s2, k));
                assert(to_map(s1).contains_key(k));
                let y = choose|y: int| 0 <= y < s1.len() && #[trigger] s1[y].0 == k;
                if y == 0 {
                    lemma_sorted_distinct(s2, lt, 0, x + 1);
                }
                assert(t1[y - 1].0 == k);
            }
            assert forall|k: K| #[trigger] to_map(t1).contains_key(k) implies to_map(t1)[k] == to_map(t2)[k] by {
                let x = choose|x: int| 0 <= x < t1.len() && #[trigger] t1[x].0 == k;
                assert(has_key(t2, k));
                let y = choose|y: int| 0 <= y < t2.len() && #[trigger] t2[y].0 == k;
                lemma_to_map_at(t1, lt, x);
                lemma_to_map_at(t2, lt, y);
                lemma_to_map_at(s1, lt, x + 1);
                lemma_to_map_at(s2, lt, y + 1);
                assert(s1[x + 1] == t1[x]);
                assert(s2[y + 1] == t2[y]);
            }
        }
        lemma_sorted_unique(t1, t2, lt);
        assert(s1 =~= s2) by {
            assert forall|x: int| 0 <= x < s1.len() implies s1[x] == s2[x] by {
                if x > 0 {
                    assert(s1[x] == t1[x - 1]);
                    assert(s2[x] == t2[x - 1]);
                }
            }
        }
    }
}

/// A sorted list is the sorted listing of its own map.
pub proof fn lemma_sorted_entries_of<K, V>(s: Seq<(K, V)>, lt: spec_fn(K, K) -> bool)
    requires
        strict_total(lt),
        sorted_by(s, lt),
    ensures
        sorted_entries(to_map(s), lt) == s,
{
    let t = sorted_entries(to_map(s), lt);
    assert(sorted_by(s, lt) && to_map(s) == to_map(s));
    lemma_sorted_unique(t, s, lt);
}

/// Inserting at the position that keeps the order: the list stays sorted and
/// denotes the map with the new binding.
pub proof fn lemma_insert_at<K, V>(s: Seq<(K, V)>, lt: spec_fn(K, K) -> bool, i: int, k: K, v: V)
    requires
        strict_total(lt),
        sorted_by(s, lt),
        0 <= i <= s.len(),
        forall|j: int| 0 <= j < i ==> lt(#[trigger] s[j].0, k),
        i < s.len() ==> lt(k, s[i].0),
    ensures
        sorted_by(s.insert(i, (k, v)), lt),
        to_map(s.insert(i, (k, v))) == to_map(s).insert(k, v),
        !has_key(s, k),
{
    let r = s.insert(i, (k, v));
    assert forall|a: int, b: int| 0 <= a < b < r.len() implies lt(#[trigger] r[a].0, #[trigger] r[b].0) by {
        if b < i {
        } else if a < i && b == i {
        } else if a < i && b > i {
            assert(r[b] == s[b - 1]);
            assert(lt(s[a].0, k));
            if b - 1 > i {
                assert(lt(s[i].0, s[b - 1].0));
            }
            assert(lt(k, s[b - 1].0));
        } else if a == i {
            assert(r[b] == s[b - 1]);
            if b - 1 > i {
                assert(lt(s[i].0, s[b - 1].0));
            }
        } else {
            assert(r[a] == s[a - 1] && r[b] == s[b - 1]);
        }
    }
    assert(!has_key(s, k)) by {
        if has_key(s, k) {
            let j = choose|j: int| 0 <= j < s.len() && #[trigger] s[j].0 == k;
            if j < i {
                assert(lt(k, k));
            } else {
                if j > i {
                    assert(lt(s[i].0, s[j].0));
                }
                assert(lt(k, k));
            }
        }
    }
    assert(to_map(r) =~= to_map(s).insert(k, v)) by {
        assert forall|key: K| #[trigger] has_key(r, key) <==> (has_key(s, key) || key == k) by {
            if has_key(r, key) {
                let j = choose|j: int| 0 <= j < r.len() && #[trigger] r[j].0 == key;
                if j < i {
                    assert(s[j].0 == key);
                } else if j > i {
                    assert(s[j - 1].0 == key);
                }
            }
            if has_key(s, key) {
                let j = choose|j: int| 0 <= j < s.len() && #[trigger] s[j].0 == key;
                if j < i {
                    assert(r[j].0 == key);
                } else {
                    assert(r[j + 1].0 == key);
                }
            }
            if key == k {
                assert(r[i].0 == key);
            }
        }
        assert forall|key: K| #[trigger] to_map(r).contains_key(key) implies to_map(r)[key] == to_map(s).insert(k, v)[key] by {
            let j = choose|j: int| 0 <= j < r.len() && #[trigger] r[j].0 == key;
            lemma_to_map_at(r, lt, j);
            if j < i {
                lemma_to_map_at(s, lt, j);
            } else if j > i {
                lemma_to_map_at(s, lt, j - 1);
            }
        }
    }
}

/// Replacing the value at an existing key.
pub proof fn lemma_update_at<K, V>(s: Seq<(K, V)>, lt: spec_fn(K, K) -> bool, i: int, v: V)
    requires
        strict_total(lt),
        sorted_by(s, lt),
        0 <= i < s.len(),
    ensures
        sorted_by(s.update(i, (s[i].0, v)), lt),
        to_map(s.update(i, (s[i].0, v))) == to_map(s).insert(s[i].0, v),
{
    let k = s[i].0;
    let r = s.update(i, (k, v));
    assert forall|a: int, b: int| 0 <= a < b < r.len() implies lt(#[trigger] r[a].0, #[trigger] r[b].0) by {
        assert(r[a].0 == s[a].0 && r[b].0 == s[b].0);
    }
    assert(to_map(r) =~= to_map(s).insert(k, v)) by {
        assert forall|key: K| #[trigger] has_key(r, key) <==> has_key(s, key) by {
            if has_key(r, key) {
                let j = choose|j: int| 0 <= j < r.len() && #[trigger] r[j].0 == key;
                assert(s[j].0 == key);
            }
            if has_key(s, key) {
                let j = choose|j: int| 0 <= j < s.len() && #[trigger] s[j].0 == key;
                assert(r[j].0 == key);
            }
        }
        assert(has_key(s, k));
        assert forall|key: K| #[trigger] to_map(r).contains_key(key) implies to_map(r)[key] == to_map(s).insert(k, v)[key] by {
            let j = choose|j: int| 0 <= j < r.len() && #[trigger] r[j].0 == key;
            lemma_to_map_at(r, lt, j);
            lemma_to_map_at(s, lt, j);
            if j != i {
                if key == k {
                    lemma_sorted_distinct(s, lt, i, j);
                }
            }
        }
    }
}

/// Removing the entry at `i`.
pub proof fn lemma_remove_at<K, V>(s: Seq<(K, V)>, lt: spec_fn(K, K) -> bool, i: int)
    requires
        strict_total(lt),
        sorted_by(s, lt),
        0 <= i < s.len(),
    ensures
        sorted_by(s.remove(i), lt),
        to_map(s.remove(i)) == to_map(s).remove(s[i].0),
{
    let k = s[i].0;
    let r = s.remove(i);
    assert forall|a: int, b: int| 0 <= a < b < r.len() implies lt(#[trigger] r[a].0, #[trigger] r[b].0) by {
        if b < i {
        } else if a < i {
            assert(r[b] == s[b + 1]);
        } else {
            assert(r[a] == s[a + 1] && r[b] == s[b + 1]);
        }
    }
    assert(to_map(r) =~= to_map(s).remove(k)) by {
        assert forall|key: K| #[trigger] has_key(r, key) <==> (has_key(s, key) && key != k) by {
            if has_key(r, key) {
                let j = choose|j: int| 0 <= j < r.len() && #[trigger] r[j].0 == key;
                if j < i {
                    assert(s[j].0 == key);
                    if key == k {
                        lemma_sorted_distinct(s, lt, i, j);
                    }
                } else {
                    assert(s[j + 1].0 == key);
                    if key == k {
                        lemma_sorted_distinct(s, lt, i, j + 1);
                    }
                }
            }
            if has_key(s, key) && key != k {
                let j = choose|j: int| 0 <= j < s.len() && #[trigger] s[j].0 == key;
                if j < i {
                    assert(r[j].0 == key);
                } else {
                    assert(j != i);
                    assert(r[j - 1].0 == key);
                }
            }
        }
        assert forall|key: K| #[trigger] to_map(r).contains_key(key) implies to_map(r)[key] == to_map(s).remove(k)[key] by {
            let j = choose|j: int| 0 <= j < r.len() && #[trigger] r[j].0 == key;
            lemma_to_map_at(r, lt, j);
            if j < i {
                lemma_to_map_at(s, lt, j);
            } else {
                lemma_to_map_at(s, lt, j + 1);
            }
        }
    }
}

/// The keys of an association list, in order.
pub open spec fn keys_of<K, V>(s: Seq<(K, V)>) -> Seq<K> {
    Seq::new(s.len(), |i: int| s[i].0)
}

/// A sorted list has as many entries as its map has keys.
pub proof fn lemma_map_len<K, V>(s: Seq<(K, V)>, lt: spec_fn(K, K) -> bool)
    requires
        strict_total(lt),
        sorted_by(s, lt),
    ensures
        to_map(s).dom().finite(),
        to_map(s).dom().len() == s.len(),
{
    let ks = keys_of(s);
    assert(ks.no_duplicates()) by {
        assert forall|i: int, j: int| 0 <= i < ks.len() && 0 <= j < ks.len() && i != j implies ks[i] != ks[j] by {
            if ks[i] == ks[j] {
                lemma_sorted_distinct(s, lt, i, j);
            }
        }
    }
    assert(ks.to_set() =~= to_map(s).dom()) by {
        assert forall|k: K| ks.to_set().contains(k) <==> #[trigger] has_key(s, k) by {
            if has_key(s, k) {
                let i = choose|i: int| 0 <= i < s.len() && #[trigger] s[i].0 == k;
                assert(ks[i] == k);
            }
            if ks.contains(k) {
                let i = choose|i: int| 0 <= i < ks.len() && ks[i] == k;
                assert(s[i].0 == k);
            }
        }
    }
    ks.unique_seq_to_set();
    vstd::seq_lib::seq_to_set_is_finite(ks);
}

/// Where `k` goes in a sorted list that lacks it: after every smaller key and
/// before every larger one.
proof fn lemma_insert_pos<K, V>(s: Seq<(K, V)>, lt: spec_fn(K, K) -> bool, k: K, j: int) -> (i: int)
    requires
        strict_total(lt),
        !has_key(s, k),
        0 <= j <= s.len(),
        forall|a: int| 0 <= a < j ==> lt(#[trigger] s[a].0, k),
    ensures
        0 <= i <= s.len(),
        forall|a: int| 0 <= a < i ==> lt(#[trigger] s[a].0, k),
        i < s.len() ==> lt(k, s[i].0),
    decreases s.len() - j,
{
    if j == s.len() {
        j
    } else if lt(s[j].0, k) {
        lemma_insert_pos(s, lt, k, j + 1)
    } else {
        if s[j].0 == k {
            assert(has_key(s, k));
        }
        j
    }
}

/// Every finite map has a sorted listing.
pub proof fn lemma_sorted_entries_exist<K, V>(m: Map<K, V>, lt: spec_fn(K, K) -> bool)
    requires
        strict_total(lt),
        m.dom().finite(),
    ensures
        sorted_by(sorted_entries(m, lt), lt),
        to_map(sorted_entries(m, lt)) == m,
    decreases m.dom().len(),
{
    if m.dom().len() == 0 {
        let e = Seq::<(K, V)>::empty();
        assert(to_map(e) =~= m) by {
            assert forall|k: K| !m.dom().contains(k) by {
                if m.dom().contains(k) {
                    vstd::set_lib::lemma_set_empty_equivalency_len(m.dom());
                }
            }
        }
        assert(sorted_by(e, lt) && to_map(e) == m);
    } else {
        let k = m.dom().choose();
        vstd::set_lib::lemma_set_empty_equivalency_len(m.dom());
        assert(m.dom().contains(k));
        let r = m.remove(k);
        assert(r.dom() =~= m.dom().remove(k));
        lemma_sorted_entries_exist(r, lt);
        let t = sorted_entries(r, lt);
        assert(!has_key(t, k)) by {
            if has_key(t, k) {
                assert(to_map(t).dom().contains(k));
            }
        }
        let i = lemma_insert_pos(t, lt, k, 0);
        lemma_insert_at(t, lt, i, k, m[k]);
        let u = t.insert(i, (k, m[k]));
        assert(to_map(u) =~= m);
        assert(sorted_by(u, lt) && to_map(u) == m);
    }
}

/// Byte strings in lexicographic order (the order of `[u8]` and of `str`).
pub open spec fn bytes_lt(a: Seq<u8>, b: Seq<u8>) -> bool
    decreases a.len(),
{
    if a.len() == 0 {
        b.len() > 0
    } else if b.len() == 0 {
        false
    } else if a[0] != b[0] {
        a[0] < b[0]
    } else {
        bytes_lt(a.drop_first(), b.drop_first())
    }
}

pub open spec fn bytes_order() -> spec_fn(Seq<u8>, Seq<u8>) -> bool {
    |a: Seq<u8>, b: Seq<u8>| bytes_lt(a, b)
}

pub open spec fn u32_order() -> spec_fn(u32, u32) -> bool {
    |a: u32, b: u32| a < b
}

proof fn lemma_bytes_lt_irrefl(a: Seq<u8>)
    ensures
        !bytes_lt(a, a),
    decreases a.len(),
{
    if a.len() > 0 {
        lemma_bytes_lt_irrefl(a.drop_first());
    }
}

proof fn lemma_bytes_lt_trans(a: Seq<u8>, b: Seq<u8>, c: Seq<u8>)
    requires
        bytes_lt(a, b),
        bytes_lt(b, c),
    ensures
        bytes_lt(a, c),
    decreases a.len(),
{
    if a.len() > 0 && b.len() > 0 && c.len() > 0 && a[0] == b[0] && b[0] == c[0] {
        lemma_bytes_lt_trans(a.drop_first(), b.drop_first(), c.drop_first());
    }
}

proof fn lemma_bytes_lt_total(a: Seq<u8>, b: Seq<u8>)
    requires
        a != b,
    ensures
        bytes_lt(a, b) || bytes_lt(b, a),
    decreases a.len(),
{
    if a.len() > 0 && b.len() > 0 && a[0] == b[0] {
        if a.drop_first() == b.drop_first() {
            assert(a =~= seq![a[0]] + a.drop_first());
            assert(b =~= seq![b[0]] + b.drop_first());
        }
        lemma_bytes_lt_total(a.drop_first(), b.drop_first());
    } else if a.len() == 0 && b.len() == 0 {
        assert(a =~= b);
    }
}

/// Lexicographic byte order is a strict total order.
pub proof fn lemma_bytes_order_total()
    ensures
        strict_total(bytes_order()),
{
    assert forall|a: Seq<u8>| !(#[trigger] bytes_order()(a, a)) by {
        lemma_bytes_lt_irrefl(a);
    }
    assert forall|a: Seq<u8>, b: Seq<u8>, c: Seq<u8>|
        #[trigger] bytes_order()(a, b) && #[trigger] bytes_order()(b, c) implies bytes_order()(a, c) by {
        lemma_bytes_lt_trans(a, b, c);
    }
    assert forall|a: Seq<u8>, b: Seq<u8>| a != b implies #[trigger] bytes_order()(a, b)
        || #[trigger] bytes_order()(b, a) by {
        lemma_bytes_lt_total(a, b);
    }
}

/// The numeric order on `u32` is a strict total order.
pub proof fn lemma_u32_order_total()
    ensures
        strict_total(u32_order()),
{
}

/// Lexicographic comparison of byte strings.
pub fn bytes_less(a: &[u8], b: &[u8]) -> (r: bool)
    ensures
        r == bytes_lt(a@, b@),
{
    let mut i: usize = 0;
    assert(a@.subrange(0, a@.len() as int) =~= a@);
    assert(b@.subrange(0, b@.len() as int) =~= b@);
    while i < a.len() && i < b.len()
        invariant
            i <= a@.len(),
            i <= b@.len(),
            a@.subrange(0, i as int) == b@.subrange(0, i as int),
            bytes_lt(a@, b@) == bytes_lt(a@.subrange(i as int, a@.len() as int), b@.subrange(i as int, b@.len() as int)),
        decreases a@.len() - i,
    {
        let ghost sa = a@.subrange(i as int, a@.len() as int);
        let ghost sb = b@.subrange(i as int, b@.len() as int);
        if a[i] != b[i] {
            assert(sa[0] == a@[i as int] && sb[0] == b@[i as int]);
            return a[i] < b[i];
        }
        assert(sa.drop_first() =~= a@.subrange(i + 1, a@.len() as int));
        assert(sb.drop_first() =~= b@.subrange(i + 1, b@.len() as int));
        assert(a@.subrange(0, i + 1) =~= a@.subrange(0, i as int).push(a@[i as int]));
        assert(b@.subrange(0, i + 1) =~= b@.subrange(0, i as int).push(b@[i as int]));
        i = i + 1;
    }
    let ghost sa = a@.subrange(i as int, a@.len() as int);
    let ghost sb = b@.subrange(i as int, b@.len() as int);
    i >= a.len() && i < b.len()
}

} // verus!

//! Mathematical models of the bounded caches: a recency sequence for the
//! LRU maps (front is most recent), a plain sequence for the fixed ring, and
//! an injective map for the owner cache. The trusted wrappers state their
//! contracts over these; everything here is ordinary specification code.
use vstd::prelude::*;

verus! {

pub open spec fn lru_contains<V>(m: Seq<(u64, V)>, k: u64) -> bool {
    exists|i: int| 0 <= i < m.len() && (#[trigger] m[i]).0 == k
}

/// The value under key `k`, looking from the most recent entry.
pub open spec fn lru_get<V>(m: Seq<(u64, V)>, k: u64) -> Option<V>
    decreases m.len(),
{
    if m.len() == 0 {
        None
    } else if m[0].0 == k {
        Some(m[0].1)
    } else {
        lru_get(m.skip(1), k)
    }
}

/// The model with every entry under key `k` taken out, order kept.
pub open spec fn lru_remove<V>(m: Seq<(u64, V)>, k: u64) -> Seq<(u64, V)>
    decreases m.len(),
{
    if m.len() == 0 {
        m
    } else if m[0].0 == k {
        lru_remove(m.skip(1), k)
    } else {
        seq![m[0]] + lru_remove(m.skip(1), k)
    }
}

/// An insert at capacity `cap`: an existing entry is refreshed and promoted;
/// a fresh entry at capacity first drops the least recent one.
pub open spec fn lru_put<V>(m: Seq<(u64, V)>, cap: nat, k: u64, v: V) -> Seq<(u64, V)> {
    let rest = lru_remove(m, k);
    if lru_contains(m, k) {
        seq![(k, v)] + rest
    } else if m.len() >= cap {
        seq![(k, v)] + rest.drop_last()
    } else {
        seq![(k, v)] + rest
    }
}

/// A promoting read: the entry moves to the front, nothing else changes.
pub open spec fn lru_touch<V>(m: Seq<(u64, V)>, k: u64) -> Seq<(u64, V)> {
    match lru_get(m, k) {
        Some(v) => seq![(k, v)] + lru_remove(m, k),
        None => m,
    }
}

pub open spec fn lru_distinct<V>(m: Seq<(u64, V)>) -> bool {
    forall|i: int, j: int| 0 <= i < j < m.len() ==> (#[trigger] m[i]).0 != (#[trigger] m[j]).0
}

pub proof fn lemma_lru_get_contains<V>(m: Seq<(u64, V)>, k: u64)
    ensures
        lru_get(m, k) is Some <==> lru_contains(m, k),
    decreases m.len(),
{
    if m.len() > 0 && m[0].0 != k {
        lemma_lru_get_contains(m.skip(1), k);
        assert(lru_contains(m, k) == lru_contains(m.skip(1), k)) by {
            if lru_contains(m, k) {
                let i = choose|i: int| 0 <= i < m.len() && (#[trigger] m[i]).0 == k;
                assert(m.skip(1)[i - 1] == m[i]);
            }
            if lru_contains(m.skip(1), k) {
                let i = choose|i: int| 0 <= i < m.skip(1).len() && (#[trigger] m.skip(1)[i]).0
                    == k;
                assert(m[i + 1] == m.skip(1)[i]);
            }
        }
    }
}

/// Everything left by a removal was in the model.
pub proof fn lemma_lru_remove_subset<V>(m: Seq<(u64, V)>, k: u64)
    ensures
        forall|i: int| 0 <= i < lru_remove(m, k).len() ==> m.contains(
            #[trigger] lru_remove(m, k)[i],
        ),
        forall|i: int| 0 <= i < lru_remove(m, k).len() ==> (#[trigger] lru_remove(m, k)[i]).0
            != k,
        lru_remove(m, k).len() <= m.len(),
    decreases m.len(),
{
    if m.len() > 0 {
        lemma_lru_remove_subset(m.skip(1), k);
        assert(forall|i: int| 0 <= i < m.skip(1).len() ==> m.contains(#[trigger] m.skip(1)[i]));
    }
}

/// A removal under distinct keys keeps distinctness and keeps every other
/// key.
pub proof fn lemma_lru_remove_distinct<V>(m: Seq<(u64, V)>, k: u64)
    requires
        lru_distinct(m),
    ensures
        lru_distinct(lru_remove(m, k)),
        forall|x: (u64, V)| m.contains(x) && x.0 != k ==> lru_remove(m, k).contains(x),
        !lru_contains(m, k) ==> lru_remove(m, k) == m,
    decreases m.len(),
{
    let r = lru_remove(m, k);
    lemma_lru_remove_subset(m, k);
    if m.len() == 0 {
    } else {
        assert(forall|i: int, j: int| 0 <= i < j < m.skip(1).len() ==> (
        #[trigger] m.skip(1)[i]).0 != (#[trigger] m.skip(1)[j]).0);
        lemma_lru_remove_distinct(m.skip(1), k);
        if m[0].0 == k {
            assert forall|x: (u64, V)| m.contains(x) && x.0 != k implies r.contains(x) by {
                let i = choose|i: int| 0 <= i < m.len() && m[i] == x;
                assert(i != 0);
                assert(m.skip(1)[i - 1] == x);
            }
        } else {
            let r1 = lru_remove(m.skip(1), k);
            lemma_lru_remove_subset(m.skip(1), k);
            assert(r == seq![m[0]] + r1);
            assert forall|i: int, j: int| 0 <= i < j < r.len() implies (#[trigger] r[i]).0 != (
            #[trigger] r[j]).0 by {
                if i == 0 {
                    assert(r[j] == r1[j - 1]);
                    assert(m.skip(1).contains(r1[j - 1]));
                    let t = choose|t: int| 0 <= t < m.skip(1).len() && m.skip(1)[t] == r1[j - 1];
                    assert(m[t + 1] == r[j]);
                } else {
                    assert(r[i] == r1[i - 1] && r[j] == r1[j - 1]);
                }
            }
            assert forall|x: (u64, V)| m.contains(x) && x.0 != k implies r.contains(x) by {
                let i = choose|i: int| 0 <= i < m.len() && m[i] == x;
                if i == 0 {
                    assert(r[0] == x);
                } else {
                    assert(m.skip(1)[i - 1] == x);
                    assert(m.skip(1).contains(x));
                    assert(r1.contains(x));
                    let t = choose|t: int| 0 <= t < r1.len() && r1[t] == x;
                    assert(r[t + 1] == x);
                }
            }
            if !lru_contains(m, k) {
                assert(!lru_contains(m.skip(1), k)) by {
                    if lru_contains(m.skip(1), k) {
                        let i = choose|i: int|
                            0 <= i < m.skip(1).len() && (#[trigger] m.skip(1)[i]).0 == k;
                        assert(m[i + 1].0 == k);
                    }
                }
                assert(r =~= m);
            }
        }
    }
}

/// An insert keeps distinctness, keeps the length within a positive
/// capacity, puts the new entry at the front, and invents no other entry.
pub proof fn lemma_lru_put<V>(m: Seq<(u64, V)>, cap: nat, k: u64, v: V)
    requires
        lru_distinct(m),
        m.len() <= cap,
        cap >= 1,
    ensures
        lru_distinct(lru_put(m, cap, k, v)),
        lru_put(m, cap, k, v).len() <= cap,
        lru_put(m, cap, k, v)[0] == (k, v),
        lru_contains(lru_put(m, cap, k, v), k),
        forall|i: int| 0 <= i < lru_put(m, cap, k, v).len() ==> (#[trigger] lru_put(
            m,
            cap,
            k,
            v,
        )[i]) == (k, v) || m.contains(lru_put(m, cap, k, v)[i]),
{
    let r = lru_put(m, cap, k, v);
    lemma_lru_remove_subset(m, k);
    lemma_lru_remove_distinct(m, k);
    let rest = lru_remove(m, k);
    let kept = if !lru_contains(m, k) && m.len() >= cap {
        rest.drop_last()
    } else {
        rest
    };
    if lru_contains(m, k) {
        lemma_lru_remove_drops(m, k);
    }
    assert(r == seq![(k, v)] + kept);
    assert(r[0] == (k, v));
    assert(lru_contains(r, k));
    assert(forall|i: int| 0 <= i < kept.len() ==> rest.contains(#[trigger] kept[i]));
    assert forall|i: int| 0 <= i < r.len() implies (#[trigger] r[i]) == (k, v) || m.contains(
        r[i],
    ) by {
        if i > 0 {
            assert(r[i] == kept[i - 1]);
            assert(rest.contains(kept[i - 1]));
            let t = choose|t: int| 0 <= t < rest.len() && rest[t] == kept[i - 1];
            assert(m.contains(rest[t]));
        }
    }
    assert forall|i: int, j: int| 0 <= i < j < r.len() implies (#[trigger] r[i]).0 != (
    #[trigger] r[j]).0 by {
        if i == 0 {
            assert(r[j] == kept[j - 1]);
            assert(rest.contains(kept[j - 1]));
            let t = choose|t: int| 0 <= t < rest.len() && rest[t] == kept[j - 1];
            assert(rest[t].0 != k);
        } else {
            assert(r[i] == kept[i - 1] && r[j] == kept[j - 1]);
        }
    }
}

/// Removing a present key strictly shrinks the model.
pub proof fn lemma_lru_remove_drops<V>(m: Seq<(u64, V)>, k: u64)
    requires
        lru_contains(m, k),
    ensures
        lru_remove(m, k).len() < m.len(),
    decreases m.len(),
{
    lemma_lru_remove_subset(m, k);
    if m.len() > 0 {
        if m[0].0 == k {
            lemma_lru_remove_subset(m.skip(1), k);
        } else {
            assert(lru_contains(m.skip(1), k)) by {
                let i = choose|i: int| 0 <= i < m.len() && (#[trigger] m[i]).0 == k;
                assert(m.skip(1)[i - 1] == m[i]);
            }
            lemma_lru_remove_drops(m.skip(1), k);
        }
    }
}

/// A key left by a removal was a key before, and is not the removed one.
pub proof fn lemma_lru_remove_keys<V>(m: Seq<(u64, V)>, k: u64)
    ensures
        forall|x: u64| lru_contains(lru_remove(m, k), x) ==> x != k && lru_contains(m, x),
{
    lemma_lru_remove_subset(m, k);
    assert forall|x: u64| lru_contains(lru_remove(m, k), x) implies x != k && lru_contains(
        m,
        x,
    ) by {
        let r = lru_remove(m, k);
        let i = choose|i: int| 0 <= i < r.len() && (#[trigger] r[i]).0 == x;
        assert(m.contains(r[i]));
        let j = choose|j: int| 0 <= j < m.len() && m[j] == r[i];
        assert(m[j].0 == x);
    }
}

/// A key of an insert's result is the inserted key or an old key.
pub proof fn lemma_lru_put_keys<V>(m: Seq<(u64, V)>, cap: nat, k: u64, v: V)
    requires
        lru_distinct(m),
        m.len() <= cap,
        cap >= 1,
    ensures
        forall|x: u64| lru_contains(lru_put(m, cap, k, v), x) ==> x == k || lru_contains(m, x),
{
    lemma_lru_put(m, cap, k, v);
    let r = lru_put(m, cap, k, v);
    assert forall|x: u64| lru_contains(r, x) implies x == k || lru_contains(m, x) by {
        let i = choose|i: int| 0 <= i < r.len() && (#[trigger] r[i]).0 == x;
        if r[i] != (k, v) {
            assert(m.contains(r[i]));
            let j = choose|j: int| 0 <= j < m.len() && m[j] == r[i];
            assert(m[j].0 == x);
        }
    }
}

/// A promoting read keeps exactly the old entries.
pub proof fn lemma_lru_touch<V>(m: Seq<(u64, V)>, k: u64)
    requires
        lru_distinct(m),
    ensures
        lru_distinct(lru_touch(m, k)),
        lru_touch(m, k).len() == m.len(),
        forall|x: (u64, V)| lru_touch(m, k).contains(x) <==> m.contains(x),
        forall|x: u64| lru_contains(lru_touch(m, k), x) <==> lru_contains(m, x),
        lru_get(lru_touch(m, k), k) == lru_get(m, k),
    decreases m.len(),
{
    lemma_lru_get_contains(m, k);
    lemma_lru_remove_subset(m, k);
    lemma_lru_remove_distinct(m, k);
    let t = lru_touch(m, k);
    match lru_get(m, k) {
        None => {},
        Some(v) => {
            lemma_lru_get_is_entry(m, k);
            assert(m.contains((k, v)));
            lemma_lru_remove_drops(m, k);
            lemma_lru_remove_exact(m, k);
            assert(t == seq![(k, v)] + lru_remove(m, k));
            assert(t.len() == m.len());
            assert forall|x: (u64, V)| t.contains(x) implies m.contains(x) by {
                let i = choose|i: int| 0 <= i < t.len() && t[i] == x;
                if i == 0 {
                } else {
                    assert(lru_remove(m, k)[i - 1] == x);
                }
            }
            assert forall|x: (u64, V)| m.contains(x) implies t.contains(x) by {
                if x.0 == k {
                    lemma_lru_entry_unique(m, x);
                    assert(x == (k, v));
                    assert(t[0] == x);
                } else {
                    assert(lru_remove(m, k).contains(x));
                    let i = choose|i: int| 0 <= i < lru_remove(m, k).len() && lru_remove(m, k)[i]
                        == x;
                    assert(t[i + 1] == x);
                }
            }
            assert forall|i: int, j: int| 0 <= i < j < t.len() implies (#[trigger] t[i]).0 != (
            #[trigger] t[j]).0 by {
                if i == 0 {
                    assert(lru_remove(m, k).contains(t[j]));
                    lemma_lru_remove_keys(m, k);
                    assert(lru_contains(lru_remove(m, k), t[j].0));
                } else {
                    assert(t[i] == lru_remove(m, k)[i - 1] && t[j] == lru_remove(m, k)[j - 1]);
                }
            }
            assert forall|x: u64| lru_contains(t, x) implies lru_contains(m, x) by {
                let i = choose|i: int| 0 <= i < t.len() && (#[trigger] t[i]).0 == x;
                assert(m.contains(t[i]));
                let j = choose|j: int| 0 <= j < m.len() && m[j] == t[i];
            }
            assert forall|x: u64| lru_contains(m, x) implies lru_contains(t, x) by {
                let i = choose|i: int| 0 <= i < m.len() && (#[trigger] m[i]).0 == x;
                assert(t.contains(m[i]));
                let j = choose|j: int| 0 <= j < t.len() && t[j] == m[i];
            }
            assert(lru_get(t, k) == Some(v));
        },
    }
}

/// The looked-up value heads an entry of the model.
pub proof fn lemma_lru_get_is_entry<V>(m: Seq<(u64, V)>, k: u64)
    ensures
        match lru_get(m, k) {
            Some(v) => m.contains((k, v)),
            None => !lru_contains(m, k),
        },
    decreases m.len(),
{
    lemma_lru_get_contains(m, k);
    if m.len() > 0 && m[0].0 != k {
        lemma_lru_get_is_entry(m.skip(1), k);
        if lru_get(m.skip(1), k) is Some {
            let v = lru_get(m.skip(1), k)->Some_0;
            assert(m.skip(1).contains((k, v)));
            let i = choose|i: int| 0 <= i < m.skip(1).len() && m.skip(1)[i] == (k, v);
            assert(m[i + 1] == (k, v));
        }
    }
}

/// Under distinct keys, at most one entry carries a key.
pub proof fn lemma_lru_entry_unique<V>(m: Seq<(u64, V)>, x: (u64, V))
    requires
        lru_distinct(m),
        m.contains(x),
    ensures
        lru_get(m, x.0) == Some(x.1),
    decreases m.len(),
{
    let i = choose|i: int| 0 <= i < m.len() && m[i] == x;
    if m[0].0 == x.0 {
        assert(i == 0);
    } else {
        assert(m.skip(1)[i - 1] == x);
        assert(forall|a: int, b: int| 0 <= a < b < m.skip(1).len() ==> (
        #[trigger] m.skip(1)[a]).0 != (#[trigger] m.skip(1)[b]).0);
        lemma_lru_entry_unique(m.skip(1), x);
    }
}

/// Removing a present key under distinct keys takes out exactly one entry.
pub proof fn lemma_lru_remove_exact<V>(m: Seq<(u64, V)>, k: u64)
    requires
        lru_distinct(m),
        lru_contains(m, k),
    ensures
        lru_remove(m, k).len() == m.len() - 1,
    decreases m.len(),
{
    lemma_lru_remove_subset(m, k);
    if m.len() > 0 {
        assert(forall|a: int, b: int| 0 <= a < b < m.skip(1).len() ==> (
        #[trigger] m.skip(1)[a]).0 != (#[trigger] m.skip(1)[b]).0);
        if m[0].0 == k {
            lemma_lru_remove_distinct(m.skip(1), k);
            assert(!lru_contains(m.skip(1), k)) by {
                if lru_contains(m.skip(1), k) {
                    let i = choose|i: int|
                        0 <= i < m.skip(1).len() && (#[trigger] m.skip(1)[i]).0 == k;
                    assert(m[i + 1].0 == k);
                }
            }
        } else {
            assert(lru_contains(m.skip(1), k)) by {
                let i = choose|i: int| 0 <= i < m.len() && (#[trigger] m[i]).0 == k;
                assert(m.skip(1)[i - 1] == m[i]);
            }
            lemma_lru_remove_exact(m.skip(1), k);
        }
    }
}

/// An owner-map insert: any pair carrying the same owner leaves, then the
/// new pair goes in, so the map stays injective.
pub open spec fn owner_insert(m: Map<u64, (u64, u64)>, k: u64, r: (u64, u64)) -> Map<
    u64,
    (u64, u64),
> {
    m.remove_keys(m.dom().filter(|k2: u64| m[k2] == r)).insert(k, r)
}

pub open spec fn owner_injective(m: Map<u64, (u64, u64)>) -> bool {
    forall|a: u64, b: u64| m.contains_key(a) && m.contains_key(b) && a != b ==> #[trigger] m[a]
        != #[trigger] m[b]
}

pub proof fn lemma_owner_insert_injective(m: Map<u64, (u64, u64)>, k: u64, r: (u64, u64))
    requires
        owner_injective(m),
    ensures
        owner_injective(owner_insert(m, k, r)),
{
}

} // verus!

//! Trusted declarations of the outside cache crates, with contracts over the
//! models of `crate::caches`: the LRU maps, the bidirectional owner map, and
//! the fixed-capacity cleanup ring. Each wrapper's body only makes the one
//! outside call and converts values.
use crate::caches::lru_contains;
use crate::caches::lru_get;
use crate::caches::lru_put;
use crate::caches::lru_remove;
use crate::caches::lru_touch;
use crate::caches::owner_insert;
use vstd::prelude::*;

verus! {

#[verifier::external_type_specification]
#[verifier::external_body]
#[verifier::reject_recursive_types(K)]
#[verifier::reject_recursive_types(V)]
#[verifier::reject_recursive_types(S)]
pub struct ExLruCache<K, V, S>(lru::LruCache<K, V, S>);

/// The category cache's concrete type.
pub type CatLru = lru::LruCache<u64, (u64, Option<u64>), std::collections::hash_map::RandomState>;

/// The ignore cache's concrete type.
pub type IgnLru = lru::LruCache<u64, (), std::collections::hash_map::RandomState>;

/// The rate-limit cache's concrete type.
pub type RlLru = lru::LruCache<u64, u64, std::collections::hash_map::RandomState>;

#[verifier::external_type_specification]
#[verifier::external_body]
#[verifier::reject_recursive_types(L)]
#[verifier::reject_recursive_types(R)]
pub struct ExBiBTreeMap<L, R>(bimap::BiBTreeMap<L, R>);

/// What a cache entry moved out on a push: the old entry of the same key, or
/// the least recent entry of a full cache.
pub open spec fn lru_push_result<V>(m: Seq<(u64, V)>, cap: nat, k: u64) -> Option<(u64, V)> {
    if lru_contains(m, k) {
        match lru_get(m, k) {
            Some(ov) => Some((k, ov)),
            None => None,
        }
    } else if m.len() >= cap && m.len() > 0 {
        Some(m.last())
    } else {
        None
    }
}

/// The recency-ordered entries of the category cache, most recent first.
pub uninterp spec fn cat_model(c: CatLru) -> Seq<
    (u64, (u64, Option<u64>)),
>;

/// The capacity the category cache was made with.
pub uninterp spec fn cat_cap(c: CatLru) -> nat;

/// Relies on lru::LruCache::new: an empty cache of the given capacity.
#[verifier::external_body]
pub(crate) fn cat_cache_new(cap: usize) -> (r: CatLru)
    requires
        cap >= 1,
    ensures
        cat_model(r) == Seq::<(u64, (u64, Option<u64>))>::empty(),
        cat_cap(r) == cap as nat,
{
    lru::LruCache::with_hasher(
        std::num::NonZeroUsize::new(cap).unwrap(),
        std::collections::hash_map::RandomState::new(),
    )
}

/// Relies on lru::LruCache::push: promotes or inserts the pair at the front,
/// dropping the least recent entry of a full cache, and hands back what left.
#[verifier::external_body]
pub(crate) fn cat_cache_push(c: &mut CatLru, k: u64, v: (
    u64,
    Option<u64>,
)) -> (r: Option<(u64, (u64, Option<u64>))>)
    ensures
        cat_model(*final(c)) == lru_put(cat_model(*old(c)), cat_cap(*old(c)), k, v),
        cat_cap(*final(c)) == cat_cap(*old(c)),
        r == lru_push_result(cat_model(*old(c)), cat_cap(*old(c)), k),
{
    c.push(k, v)
}

/// Relies on lru::LruCache::peek: reads without touching recency.
#[verifier::external_body]
pub(crate) fn cat_cache_peek(c: &CatLru, k: u64) -> (r: Option<
    (u64, Option<u64>),
>)
    ensures
        r == lru_get(cat_model(*c), k),
{
    c.peek(&k).copied()
}

/// Relies on lru::LruCache::get: reads and promotes the entry to the front.
#[verifier::external_body]
pub(crate) fn cat_cache_get(c: &mut CatLru, k: u64) -> (r: Option<
    (u64, Option<u64>),
>)
    ensures
        cat_model(*final(c)) == lru_touch(cat_model(*old(c)), k),
        cat_cap(*final(c)) == cat_cap(*old(c)),
        r == lru_get(cat_model(*old(c)), k),
{
    c.get(&k).copied()
}

/// Relies on lru::LruCache::pop: removes the entry and hands its value back.
#[verifier::external_body]
pub(crate) fn cat_cache_pop(c: &mut CatLru, k: u64) -> (r: Option<
    (u64, Option<u64>),
>)
    ensures
        cat_model(*final(c)) == lru_remove(cat_model(*old(c)), k),
        cat_cap(*final(c)) == cat_cap(*old(c)),
        r == lru_get(cat_model(*old(c)), k),
{
    c.pop(&k)
}

/// The recency-ordered entries of the ignore cache, most recent first.
pub uninterp spec fn ign_model(c: IgnLru) -> Seq<(u64, ())>;

/// The capacity the ignore cache was made with.
pub uninterp spec fn ign_cap(c: IgnLru) -> nat;

/// Relies on lru::LruCache::new: an empty cache of the given capacity.
#[verifier::external_body]
pub(crate) fn ign_cache_new(cap: usize) -> (r: IgnLru)
    requires
        cap >= 1,
    ensures
        ign_model(r) == Seq::<(u64, ())>::empty(),
        ign_cap(r) == cap as nat,
{
    lru::LruCache::with_hasher(
        std::num::NonZeroUsize::new(cap).unwrap(),
        std::collections::hash_map::RandomState::new(),
    )
}

/// Relies on lru::LruCache::put: promotes or inserts the marker, dropping the
/// least recent entry of a full cache.
#[verifier::external_body]
pub(crate) fn ign_cache_put(c: &mut IgnLru, k: u64)
    ensures
        ign_model(*final(c)) == lru_put(ign_model(*old(c)), ign_cap(*old(c)), k, ()),
        ign_cap(*final(c)) == ign_cap(*old(c)),
{
    let _ = c.put(k, ());
}

/// Relies on lru::LruCache::get: tests the marker, promoting it when there.
#[verifier::external_body]
pub(crate) fn ign_cache_get(c: &mut IgnLru, k: u64) -> (r: bool)
    ensures
        ign_model(*final(c)) == lru_touch(ign_model(*old(c)), k),
        ign_cap(*final(c)) == ign_cap(*old(c)),
        r == lru_contains(ign_model(*old(c)), k),
{
    c.get(&k).is_some()
}

/// Relies on lru::LruCache::pop: removes the marker if it is there.
#[verifier::external_body]
pub(crate) fn ign_cache_pop(c: &mut IgnLru, k: u64)
    ensures
        ign_model(*final(c)) == lru_remove(ign_model(*old(c)), k),
        ign_cap(*final(c)) == ign_cap(*old(c)),
{
    let _ = c.pop(&k);
}

/// The recency-ordered entries of the rate-limit cache, most recent first.
pub uninterp spec fn rl_model(c: RlLru) -> Seq<(u64, u64)>;

/// The capacity the rate-limit cache was made with.
pub uninterp spec fn rl_cap(c: RlLru) -> nat;

/// Relies on lru::LruCache::new: an empty cache of the given capacity.
#[verifier::external_body]
pub(crate) fn rl_cache_new(cap: usize) -> (r: RlLru)
    requires
        cap >= 1,
    ensures
        rl_model(r) == Seq::<(u64, u64)>::empty(),
        rl_cap(r) == cap as nat,
{
    lru::LruCache::with_hasher(
        std::num::NonZeroUsize::new(cap).unwrap(),
        std::collections::hash_map::RandomState::new(),
    )
}

/// Relies on lru::LruCache::peek: reads without touching recency.
#[verifier::external_body]
pub(crate) fn rl_cache_peek(c: &RlLru, k: u64) -> (r: Option<u64>)
    ensures
        r == lru_get(rl_model(*c), k),
{
    c.peek(&k).copied()
}

/// Relies on lru::LruCache::put: promotes or inserts the stamp, dropping the
/// least recent entry of a full cache.
#[verifier::external_body]
pub(crate) fn rl_cache_put(c: &mut RlLru, k: u64, v: u64)
    ensures
        rl_model(*final(c)) == lru_put(rl_model(*old(c)), rl_cap(*old(c)), k, v),
        rl_cap(*final(c)) == rl_cap(*old(c)),
{
    let _ = c.put(k, v);
}

/// The owner cache's concrete type: voice channel id on the left, the
/// creator-guild pair on the right.
pub type OwnerPair = (u64, u64);

/// The owner map: voice channel id to its creator and guild.
pub uninterp spec fn owner_model(m: bimap::BiBTreeMap<u64, OwnerPair>) -> Map<u64, (u64, u64)>;

/// Whether some channel maps to this creator-guild pair.
pub open spec fn owner_has_right(m: Map<u64, (u64, u64)>, r: (u64, u64)) -> bool {
    exists|k: u64| #[trigger] m.contains_key(k) && m[k] == r
}

/// Relies on bimap::BiBTreeMap::new: the empty map.
#[verifier::external_body]
pub(crate) fn owner_cache_new() -> (r: bimap::BiBTreeMap<u64, OwnerPair>)
    ensures
        owner_model(r) == (Map::<u64, OwnerPair>::empty()),
{
    bimap::BiBTreeMap::new()
}

/// Relies on bimap::BiBTreeMap::insert: both colliding pairs leave, then the
/// new pair goes in.
#[verifier::external_body]
pub(crate) fn owner_cache_insert(m: &mut bimap::BiBTreeMap<u64, OwnerPair>, k: u64, v: OwnerPair)
    ensures
        owner_model(*final(m)) == owner_insert(owner_model(*old(m)), k, v),
{
    let _ = m.insert(k, v);
}

/// Relies on bimap::BiBTreeMap::contains_right.
#[verifier::external_body]
pub(crate) fn owner_cache_contains_right(m: &bimap::BiBTreeMap<u64, OwnerPair>, v: OwnerPair) -> (
    r: bool)
    ensures
        r == owner_has_right(owner_model(*m), v),
{
    m.contains_right(&v)
}

/// Relies on bimap::BiBTreeMap::get_by_left.
#[verifier::external_body]
pub(crate) fn owner_cache_get_by_left(m: &bimap::BiBTreeMap<u64, OwnerPair>, k: u64) -> (r: Option<
    (u64, u64),
>)
    ensures
        r == (if owner_model(*m).contains_key(k) {
            Some(owner_model(*m)[k])
        } else {
            None::<(u64, u64)>
        }),
{
    m.get_by_left(&k).copied()
}

/// Relies on bimap::BiBTreeMap::remove_by_left.
#[verifier::external_body]
pub(crate) fn owner_cache_remove_by_left(m: &mut bimap::BiBTreeMap<u64, OwnerPair>, k: u64)
    ensures
        owner_model(*final(m)) == owner_model(*old(m)).remove(k),
{
    let _ = m.remove_by_left(&k);
}

/// The pending-deletion ring: (category, voice, text) triples, front first.
pub type RingItem = (u64, u64, Option<u64>);

/// The pending-deletion ring, held opaquely: a fixed ring of 32 slots from
/// the outside deque crate.
#[verifier::external_body]
pub struct CleanupRing {
    inner: fixed_vec_deque::FixedVecDeque<[RingItem; 32]>,
}

/// The queued entries, front (oldest) first.
pub uninterp spec fn cq_model(q: CleanupRing) -> Seq<RingItem>;

/// Relies on fixed_vec_deque::FixedVecDeque::new: the empty ring.
#[verifier::external_body]
pub(crate) fn ring_new() -> (r: CleanupRing)
    ensures
        cq_model(r) == Seq::<RingItem>::empty(),
{
    CleanupRing { inner: fixed_vec_deque::FixedVecDeque::new() }
}

/// Relies on fixed_vec_deque::FixedVecDeque::push_back, which hands out the
/// new back slot, overwriting the front entry of a full ring.
#[verifier::external_body]
pub(crate) fn ring_push(q: &mut CleanupRing, v: RingItem)
    ensures
        cq_model(*final(q)) == if cq_model(*old(q)).len() < 32 {
            cq_model(*old(q)).push(v)
        } else {
            cq_model(*old(q)).drop_first().push(v)
        },
{
    *q.inner.push_back() = v;
}

/// Relies on fixed_vec_deque::FixedVecDeque::front.
#[verifier::external_body]
pub(crate) fn ring_front(q: &CleanupRing) -> (r: Option<
    RingItem,
>)
    ensures
        r == (if cq_model(*q).len() > 0 {
            Some(cq_model(*q)[0])
        } else {
            None::<RingItem>
        }),
{
    q.inner.front().copied()
}

/// Relies on fixed_vec_deque::FixedVecDeque::pop_front.
#[verifier::external_body]
pub(crate) fn ring_pop_front(q: &mut CleanupRing) -> (r: Option<
    RingItem,
>)
    ensures
        cq_model(*final(q)) == if cq_model(*old(q)).len() > 0 {
            cq_model(*old(q)).drop_first()
        } else {
            cq_model(*old(q))
        },
        r == (if cq_model(*old(q)).len() > 0 {
            Some(cq_model(*old(q))[0])
        } else {
            None::<RingItem>
        }),
{
    q.inner.pop_front().map(|x| *x)
}

/// Relies on fixed_vec_deque::FixedVecDeque::is_full.
#[verifier::external_body]
pub(crate) fn ring_is_full(q: &CleanupRing) -> (r: bool)
    ensures
        r == (cq_model(*q).len() >= 32),
{
    q.inner.is_full()
}

} // verus!

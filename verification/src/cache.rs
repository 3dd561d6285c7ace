//! The results of recent searches.

use crate::baduk::Placement;
use crate::matching::{results_view, SearchResult, SearchResultView};
use lru::LruCache;
use std::num::NonZeroUsize;
use vstd::prelude::*;

verus! {

/// A map of bounded size that forgets the entry that was not used for the longest time.
#[verifier::external_type_specification]
#[verifier::external_body]
#[verifier::reject_recursive_types(K)]
#[verifier::reject_recursive_types(V)]
#[verifier::reject_recursive_types(S)]
pub struct ExLruCache<K, V, S>(LruCache<K, V, S>);

/// The hasher that [`LruCache`] uses unless told otherwise.
#[verifier::external_type_specification]
#[verifier::external_body]
pub struct ExDefaultHasher(lru::DefaultHasher);

/// The key under which the results for a position are kept.
pub open spec fn position_key(position: Seq<Placement>) -> Seq<u32> {
    position.map_values(|placement: Placement| placement.spec_code())
}

/// The key under which the results for a position are kept.
pub fn key_of(position: &[Placement]) -> (key: Vec<u32>)
    ensures
        key@ == position_key(position@),
{
    let mut key: Vec<u32> = Vec::new();
    let n: usize = position.len();
    for i in 0..n
        invariant
            n == position@.len(),
            key@.len() == i,
            forall|j: int| 0 <= j < i ==> key@[j] == position@[j].spec_code(),
    {
        key.push(position[i].code());
    }
    assert(key@ =~= position_key(position@));
    key
}

/// Different positions have different keys.
pub proof fn position_keys_tell_positions_apart(a: Seq<Placement>, b: Seq<Placement>)
    requires
        position_key(a) == position_key(b),
    ensures
        a == b,
{
    assert(a.len() == position_key(a).len() == b.len());
    assert forall|i: int| 0 <= i < a.len() implies a[i] == b[i] by {
        assert(position_key(a)[i] == a[i].spec_code());
        assert(position_key(b)[i] == b[i].spec_code());
        crate::baduk::placement_codes_tell_placements_apart(a[i], b[i]);
    }
    assert(a =~= b);
}

/// The entries of the cache, the one that was used last first.
pub uninterp spec fn cached(cache: LruCache<Vec<u32>, Vec<SearchResult>>) -> Seq<
    (Seq<u32>, Seq<SearchResultView>),
>;

/// The largest number of entries of the cache.
pub uninterp spec fn cache_capacity(cache: LruCache<Vec<u32>, Vec<SearchResult>>) -> nat;

/// Whether one of the entries has this key.
pub open spec fn has_key(entries: Seq<(Seq<u32>, Seq<SearchResultView>)>, key: Seq<u32>) -> bool {
    exists|i: int| 0 <= i < entries.len() && (#[trigger] entries[i]).0 == key
}

/// The place of the entry with this key.
pub open spec fn place_of(entries: Seq<(Seq<u32>, Seq<SearchResultView>)>, key: Seq<u32>) -> int {
    choose|i: int| 0 <= i < entries.len() && (#[trigger] entries[i]).0 == key
}

/// The entries after the one with this key was used, if there is one.
pub open spec fn after_use(
    entries: Seq<(Seq<u32>, Seq<SearchResultView>)>,
    key: Seq<u32>,
) -> Seq<(Seq<u32>, Seq<SearchResultView>)> {
    if has_key(entries, key) {
        let i = place_of(entries, key);
        seq![entries[i]] + entries.remove(i)
    } else {
        entries
    }
}

/// The entries after results were kept under this key: the new entry comes first, in place of the
/// one with the same key, or else of the last one if there is no room for it.
pub open spec fn after_put(
    entries: Seq<(Seq<u32>, Seq<SearchResultView>)>,
    capacity: nat,
    key: Seq<u32>,
    results: Seq<SearchResultView>,
) -> Seq<(Seq<u32>, Seq<SearchResultView>)> {
    if has_key(entries, key) {
        seq![(key, results)] + entries.remove(place_of(entries, key))
    } else if entries.len() == capacity {
        seq![(key, results)] + entries.drop_last()
    } else {
        seq![(key, results)] + entries
    }
}

/// An empty cache, made with `LruCache::new`, which asks for room for all its entries at once.
#[verifier::external_body]
pub(crate) fn new_cache(capacity: usize) -> (cache: LruCache<Vec<u32>, Vec<SearchResult>>)
    requires
        0 < capacity <= 4096,
    ensures
        cached(cache) == Seq::<(Seq<u32>, Seq<SearchResultView>)>::empty(),
        cache_capacity(cache) == capacity,
{
    LruCache::new(NonZeroUsize::new(capacity).unwrap())
}

/// Looks a key up with `LruCache::get`, which moves the entry that it finds to the front. Keys are
/// the same if their numbers are.
#[verifier::external_body]
pub(crate) fn recall<'a>(
    cache: &'a mut LruCache<Vec<u32>, Vec<SearchResult>>,
    key: &Vec<u32>,
) -> (found: Option<&'a Vec<SearchResult>>)
    ensures
        cache_capacity(*final(cache)) == cache_capacity(*old(cache)),
        cached(*final(cache)) == after_use(cached(*old(cache)), key@),
        found is Some <==> has_key(cached(*old(cache)), key@),
        found matches Some(results) ==> results_view(results@) == cached(
            *old(cache),
        )[place_of(cached(*old(cache)), key@)].1,
{
    cache.get(key)
}

/// Keeps results with `LruCache::put`, which drops the entry that was not used for the longest time
/// if the cache is full and has no entry with this key.
#[verifier::external_body]
pub(crate) fn keep(
    cache: &mut LruCache<Vec<u32>, Vec<SearchResult>>,
    key: Vec<u32>,
    results: Vec<SearchResult>,
)
    ensures
        cache_capacity(*final(cache)) == cache_capacity(*old(cache)),
        cached(*final(cache)) == after_put(
            cached(*old(cache)),
            cache_capacity(*old(cache)),
            key@,
            results_view(results@),
        ),
{
    cache.put(key, results);
}

} // verus!

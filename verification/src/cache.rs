//! The bounded value cache used by the caching managers: a least-recently-
//! used mapping from key to the observed read result, `None` caching an
//! observed tombstone or absence.
//!
//! The cache itself comes from the `lru` crate; the spec name [`cache_map`]
//! stands for the mapping a cache value holds, and the trusted wrappers
//! state what each call does to it.  Which entry an insertion evicts is left
//! open: an insertion promises only that the result is a submap of the old
//! contents plus the new entry.

use vstd::prelude::*;
use crate::bytes::opt_view;
use crate::table_manager::{opt2_view, read_view, stored_lookup};

verus! {

/// The number of entries the cache holds at most.
pub const CACHE_CAPACITY: usize = 128;

#[verifier::external_type_specification]
#[verifier::external_body]
#[verifier::reject_recursive_types(K)]
#[verifier::reject_recursive_types(V)]
#[verifier::reject_recursive_types(S)]
pub struct ExLruCache<K, V, S>(lru::LruCache<K, V, S>);

#[verifier::external_type_specification]
#[verifier::external_body]
pub struct ExLruDefaultHasher(lru::DefaultHasher);

/// The mapping a cache holds.
pub uninterp spec fn cache_map(c: lru::LruCache<Vec<u8>, Option<Vec<u8>>>) -> Map<
    Seq<u8>,
    Option<Seq<u8>>,
>;

/// The capacity a cache was created with.
pub uninterp spec fn cache_cap(c: lru::LruCache<Vec<u8>, Option<Vec<u8>>>) -> nat;

/// The cache holds no more entries than its capacity.
pub open spec fn cache_bounded(c: lru::LruCache<Vec<u8>, Option<Vec<u8>>>) -> bool {
    cache_map(c).dom().finite() && cache_map(c).dom().len() <= cache_cap(c)
}

/// Every cached result agrees with what the backing mapping observes for its
/// key.
pub open spec fn cache_coherent(
    c: Map<Seq<u8>, Option<Seq<u8>>>,
    m: Map<Seq<u8>, Option<Seq<u8>>>,
) -> bool {
    forall|k: Seq<u8>| c.contains_key(k) ==> c[k] == read_view(m, k)
}

/// A mapping with no entries.
pub open spec fn empty_contents(c: Map<Seq<u8>, Option<Seq<u8>>>) -> bool {
    c == Map::<Seq<u8>, Option<Seq<u8>>>::empty()
}

/// Relies on `lru::LruCache::new`: a fresh cache holds nothing and
/// remembers the given capacity.
#[verifier::external_body]
pub fn cache_new(cap: usize) -> (r: lru::LruCache<Vec<u8>, Option<Vec<u8>>>)
    requires
        cap >= 1,
    ensures
        empty_contents(cache_map(r)),
        cache_cap(r) == cap,
        cache_bounded(r),
{
    lru::LruCache::new(std::num::NonZeroUsize::new(cap).unwrap())
}

/// Relies on `lru::LruCache::get`: returns the cached value for the key and
/// only reorders recency, changing no contents.
#[verifier::external_body]
pub fn cache_get(c: &mut lru::LruCache<Vec<u8>, Option<Vec<u8>>>, key: &Vec<u8>) -> (r: Option<
    Option<Vec<u8>>,
>)
    ensures
        cache_map(*final(c)) == cache_map(*old(c)),
        cache_cap(*final(c)) == cache_cap(*old(c)),
        opt2_view(r) == stored_lookup(cache_map(*old(c)), key@),
{
    c.get(key).cloned()
}

/// Relies on `lru::LruCache::put`: stores the pair, updating the key in
/// place when present and otherwise evicting at most the least recently used
/// entry to make room, so a cache within its capacity stays within it.
#[verifier::external_body]
pub fn cache_put(c: &mut lru::LruCache<Vec<u8>, Option<Vec<u8>>>, key: Vec<u8>, value: Option<
    Vec<u8>,
>)
    ensures
        cache_map(*final(c)).submap_of(cache_map(*old(c)).insert(key@, opt_view(value))),
        cache_map(*final(c)).contains_key(key@),
        cache_cap(*final(c)) == cache_cap(*old(c)),
        cache_bounded(*old(c)) ==> cache_bounded(*final(c)),
{
    c.put(key, value);
}

/// Relies on `lru::LruCache::contains`: reports whether the key is cached,
/// changing nothing.
#[verifier::external_body]
pub fn cache_contains(c: &lru::LruCache<Vec<u8>, Option<Vec<u8>>>, key: &Vec<u8>) -> (r: bool)
    ensures
        r == cache_map(*c).contains_key(key@),
{
    c.contains(key)
}

} // verus!

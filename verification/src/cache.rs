//! The cache of metadata: a bounded cache that drops the entry that was
//! used least recently. It is advisory: what it holds is a copy of what the
//! index holds.

use crate::common::ResourceMetadata;
use lru::LruCache;
use vstd::prelude::*;

verus! {

/// The cache of the `lru` crate. Nothing is known of what is inside but
/// what the functions of this file say.
#[verifier::external_type_specification]
#[verifier::external_body]
#[verifier::reject_recursive_types(K)]
#[verifier::reject_recursive_types(V)]
#[verifier::reject_recursive_types(S)]
pub struct ExLruCache<K, V, S>(LruCache<K, V, S>);

/// The hasher that a cache of the `lru` crate has when none is given.
#[verifier::external_type_specification]
#[verifier::external_body]
pub struct ExDefaultHasher(lru::DefaultHasher);

/// What a cache holds: the metadata that it has for the text of an
/// identifier.
pub uninterp spec fn cache_entries(cache: &LruCache<String, ResourceMetadata>) -> Map<
    Seq<char>,
    ResourceMetadata,
>;

/// The number of entries that a cache was made to hold at most.
pub uninterp spec fn cache_limit(cache: &LruCache<String, ResourceMetadata>) -> nat;

/// The largest number of entries that a cache is made for: room is made
/// for all of them at once.
pub const MAX_CACHE_CAPACITY: usize = 1_048_576;

/// Makes a cache with `LruCache::new`: it is empty and holds at most
/// `capacity` entries.
#[verifier::external_body]
pub(crate) fn cache_new(capacity: usize) -> (cache: LruCache<String, ResourceMetadata>)
    requires
        capacity <= MAX_CACHE_CAPACITY,
    ensures
        forall|key: Seq<char>| !(#[trigger] cache_entries(&cache).contains_key(key)),
        cache_limit(&cache) == capacity,
{
    LruCache::new(capacity)
}

/// Stores an entry with `LruCache::put`. The entry replaces the one of the
/// same key. A cache made to hold nothing stays empty. When the cache is
/// full and the key is new, one other entry leaves. No other entry changes.
#[verifier::external_body]
pub(crate) fn cache_put(
    cache: &mut LruCache<String, ResourceMetadata>,
    id: String,
    metadata: ResourceMetadata,
)
    ensures
        cache_limit(final(cache)) == cache_limit(old(cache)),
        forall|key: Seq<char>| #[trigger]
            cache_entries(final(cache)).contains_key(key) ==> cache_entries(old(cache)).insert(
                id@,
                metadata,
            ).contains_key(key) && cache_entries(final(cache))[key] == cache_entries(
                old(cache),
            ).insert(id@, metadata)[key],
        cache_limit(old(cache)) > 0 ==> cache_entries(final(cache)).contains_key(id@),
{
    cache.put(id, metadata);
}

/// Looks an entry up with `LruCache::get`. The cache holds after the call
/// what it held before.
#[verifier::external_body]
pub(crate) fn cache_get<'a>(cache: &'a mut LruCache<String, ResourceMetadata>, id: &str) -> (found:
    Option<&'a ResourceMetadata>)
    ensures
        cache_limit(final(cache)) == cache_limit(old(cache)),
        cache_entries(final(cache)) == cache_entries(old(cache)),
        match found {
            Some(metadata) => cache_entries(old(cache)).contains_key(id@) && *metadata
                == cache_entries(old(cache))[id@],
            None => !cache_entries(old(cache)).contains_key(id@),
        },
{
    cache.get(id)
}

/// Takes an entry out with `LruCache::pop`.
#[verifier::external_body]
pub(crate) fn cache_pop(cache: &mut LruCache<String, ResourceMetadata>, id: &str)
    ensures
        cache_limit(final(cache)) == cache_limit(old(cache)),
        cache_entries(final(cache)) == cache_entries(old(cache)).remove(id@),
{
    cache.pop(id);
}

/// Takes every entry out with `LruCache::clear`.
#[verifier::external_body]
pub(crate) fn cache_clear(cache: &mut LruCache<String, ResourceMetadata>)
    ensures
        cache_limit(final(cache)) == cache_limit(old(cache)),
        forall|key: Seq<char>| !(#[trigger] cache_entries(final(cache)).contains_key(key)),
{
    cache.clear();
}

} // verus!

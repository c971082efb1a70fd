//! The per-topic message cache: an `lru::LruCache` keyed by message id, seen
//! through the map of entries it holds and its capacity.

use vstd::prelude::*;
use lru::LruCache;
use crate::types::{MessageHeader, MessageId};

verus! {

/// Maximum number of cached messages per topic.
pub const MAX_CACHE_SIZE: usize = 10_000;

/// A cached message: payload, header, and the time (milliseconds) it was inserted.
#[derive(Clone, Debug)]
pub struct CachedMessage {
    pub payload: Vec<u8>,
    pub inserted_at: u64,
    pub header: MessageHeader,
}

/// What a cached message holds.
pub struct CachedView {
    pub payload: Seq<u8>,
    pub inserted_at: u64,
    pub header: MessageHeader,
}

impl CachedMessage {
    pub open spec fn view(&self) -> CachedView {
        CachedView { payload: self.payload@, inserted_at: self.inserted_at, header: self.header }
    }
}

#[verifier::external_type_specification]
#[verifier::external_body]
#[verifier::reject_recursive_types(K)]
#[verifier::reject_recursive_types(V)]
#[verifier::reject_recursive_types(S)]
pub struct ExLruCache<K, V, S>(LruCache<K, V, S>);

#[verifier::external_type_specification]
#[verifier::external_body]
pub struct ExDefaultHasher(lru::DefaultHasher);

/// The entries of a message cache.
pub uninterp spec fn cache_entries(c: LruCache<MessageId, CachedMessage>) -> Map<MessageId, CachedView>;

/// The capacity a message cache was made with.
pub uninterp spec fn cache_capacity(c: LruCache<MessageId, CachedMessage>) -> nat;

/// A cache's entries are finitely many and within its capacity.
pub open spec fn cache_bounded(c: LruCache<MessageId, CachedMessage>) -> bool {
    &&& cache_entries(c).dom().finite()
    &&& cache_entries(c).len() <= cache_capacity(c)
}

/// The entries of an empty cache.
pub open spec fn no_entries() -> Map<MessageId, CachedView> {
    Map::empty()
}

/// Relies on lru::LruCache::new: an empty cache that holds at most `cap` entries.
#[verifier::external_body]
pub(crate) fn cache_new(cap: usize) -> (r: LruCache<MessageId, CachedMessage>)
    requires
        0 < cap <= MAX_CACHE_SIZE,
    ensures
        cache_entries(r) == no_entries(),
        cache_capacity(r) == cap,
{
    LruCache::new(std::num::NonZeroUsize::new(cap).unwrap())
}

/// Relies on lru::LruCache::contains: whether `k` has an entry; recency is untouched.
#[verifier::external_body]
pub(crate) fn cache_contains(c: &LruCache<MessageId, CachedMessage>, k: &MessageId) -> (r: bool)
    ensures
        r == cache_entries(*c).contains_key(*k),
{
    c.contains(k)
}

/// Relies on lru::LruCache::len: the number of entries.
#[verifier::external_body]
pub(crate) fn cache_len(c: &LruCache<MessageId, CachedMessage>) -> (r: usize)
    ensures
        r == cache_entries(*c).len(),
{
    c.len()
}

/// Relies on lru::LruCache::put: the entry for `k` becomes `v`; when `k` had no entry
/// and the cache was full, one other entry (the least recently used) is evicted.
#[verifier::external_body]
pub(crate) fn cache_put(c: &mut LruCache<MessageId, CachedMessage>, k: MessageId, v: CachedMessage)
    requires
        cache_bounded(*old(c)),
    ensures
        cache_bounded(*final(c)),
        cache_capacity(*final(c)) == cache_capacity(*old(c)),
        cache_entries(*old(c)).contains_key(k) || cache_entries(*old(c)).len() < cache_capacity(
            *old(c),
        ) ==> cache_entries(*final(c)) == cache_entries(*old(c)).insert(k, v.view()),
        !cache_entries(*old(c)).contains_key(k) && cache_entries(*old(c)).len() >= cache_capacity(
            *old(c),
        ) ==> exists|e: MessageId|
            cache_entries(*old(c)).contains_key(e) && cache_entries(*final(c)) == cache_entries(
                *old(c),
            ).remove(e).insert(k, v.view()),
{
    c.put(k, v);
}

/// Relies on lru::LruCache::get: a copy of the entry for `k`, if any; only its
/// recency changes.
#[verifier::external_body]
pub(crate) fn cache_get(c: &mut LruCache<MessageId, CachedMessage>, k: &MessageId) -> (r: Option<
    CachedMessage,
>)
    ensures
        cache_entries(*final(c)) == cache_entries(*old(c)),
        cache_capacity(*final(c)) == cache_capacity(*old(c)),
        match r {
            Some(m) => cache_entries(*old(c)).contains_key(*k) && m.view() == cache_entries(
                *old(c),
            )[*k],
            None => !cache_entries(*old(c)).contains_key(*k),
        },
{
    c.get(k).cloned()
}

/// Relies on lru::LruCache::pop: removes the entry for `k`, if any.
#[verifier::external_body]
pub(crate) fn cache_pop(c: &mut LruCache<MessageId, CachedMessage>, k: &MessageId)
    requires
        cache_bounded(*old(c)),
    ensures
        cache_bounded(*final(c)),
        cache_capacity(*final(c)) == cache_capacity(*old(c)),
        cache_entries(*final(c)) == cache_entries(*old(c)).remove(*k),
{
    c.pop(k);
}

/// Relies on lru::LruCache::iter: every entry's id with its insertion time, each once.
#[verifier::external_body]
pub(crate) fn cache_insertion_times(c: &LruCache<MessageId, CachedMessage>) -> (r: Vec<
    (MessageId, u64),
>)
    ensures
        forall|i: int|
            0 <= i < r@.len() ==> cache_entries(*c).contains_key(#[trigger] r@[i].0)
                && cache_entries(*c)[r@[i].0].inserted_at == r@[i].1,
        forall|k: MessageId| #[trigger]
            cache_entries(*c).contains_key(k) ==> exists|i: int| 0 <= i < r@.len() && r@[i].0 == k,
{
    c.iter().map(|(k, m)| (*k, m.inserted_at)).collect()
}

} // verus!

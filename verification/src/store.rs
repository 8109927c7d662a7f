//! The concurrent key-value store: a mapping from key bytes to value bytes,
//! partitioned into independently locked shards selected by key hash.
//!
//! The sharded map itself comes from the `dashmap` crate and is used
//! through trusted wrappers; everything stated about it is over the map's
//! mathematical contents. What Verus checks here is the sequential meaning
//! of `get` and `set` against that model; that concurrent callers on
//! different shards do not block each other is the crate's own documented
//! behaviour.
//!
//! `set` takes the store exclusively so that its contract can relate the
//! contents before and after the call. A deployment that shares one store
//! across tasks therefore puts its own lock around the store, which trades
//! away the shard-level parallelism of the inner map; the per-key atomicity
//! of `get` against `set` is the inner map's own locking either way.

use vstd::prelude::*;

verus! {

#[verifier::external_type_specification]
#[verifier::external_body]
#[verifier::reject_recursive_types(K)]
#[verifier::reject_recursive_types(V)]
#[verifier::reject_recursive_types(S)]
pub struct ExDashMap<K, V, S>(dashmap::DashMap<K, V, S>);

/// The sharded map that backs the store.
pub type ShardMap = dashmap::DashMap<Vec<u8>, Vec<u8>>;

/// The contents of a store with no entries yet.
pub open spec fn empty_entries() -> Map<Seq<u8>, Seq<u8>> {
    Map::empty()
}

/// The entries a sharded map holds, as a mathematical map over byte
/// sequences.
pub uninterp spec fn kv_entries(
    m: dashmap::DashMap<Vec<u8>, Vec<u8>>,
) -> Map<Seq<u8>, Seq<u8>>;

/// Relies on dashmap::DashMap::with_shard_amount: builds an empty map with
/// the given number of shards; it panics unless the count is a power of
/// two greater than one, so those inputs are excluded here.
#[verifier::external_body]
fn new_shard_map(shard_count: usize) -> (r: ShardMap)
    requires
        shard_count > 1,
        is_pow2(shard_count as nat),
    ensures
        kv_entries(r) == empty_entries(),
{
    dashmap::DashMap::with_shard_amount(shard_count)
}

/// Relies on dashmap::DashMap::insert: maps the key to the value,
/// replacing any previous entry for an equal key.
#[verifier::external_body]
fn shard_insert(m: &mut ShardMap, key: Vec<u8>, value: Vec<u8>)
    ensures
        kv_entries(*final(m)) == kv_entries(*old(m)).insert(key@, value@),
{
    let _ = m.insert(key, value);
}

/// Relies on dashmap::DashMap::get: yields the value stored under an equal
/// key, if any; the value is copied out of the shard's guard.
#[verifier::external_body]
fn shard_get(m: &ShardMap, key: &Vec<u8>) -> (r: Option<Vec<u8>>)
    ensures
        match r {
            Some(v) => kv_entries(*m).contains_key(key@) && v@ == kv_entries(*m)[key@],
            None => !kv_entries(*m).contains_key(key@),
        },
{
    match m.get(key) {
        Some(entry) => Some(entry.value().clone()),
        None => None,
    }
}

/// A strictly positive power of two, the shard counts the map accepts.
pub open spec fn is_pow2(n: nat) -> bool
    decreases n,
{
    if n == 0 {
        false
    } else if n == 1 {
        true
    } else {
        n % 2 == 0 && is_pow2(n / 2)
    }
}

/// The store shared by all connection handlers: keys are unique, entries
/// are created or overwritten by `set`, read by `get`, and never expire.
pub struct KeyValueStore {
    shards: ShardMap,
}

impl View for KeyValueStore {
    type V = Map<Seq<u8>, Seq<u8>>;

    closed spec fn view(&self) -> Map<Seq<u8>, Seq<u8>> {
        kv_entries(self.shards)
    }
}

impl KeyValueStore {
    /// An empty store over `shard_count` independently locked shards;
    /// the count must be a power of two greater than one.
    pub fn new(shard_count: usize) -> (s: KeyValueStore)
        requires
            shard_count > 1,
            is_pow2(shard_count as nat),
        ensures
            s@ == Map::<Seq<u8>, Seq<u8>>::empty(),
    {
        KeyValueStore { shards: new_shard_map(shard_count) }
    }

    /// Creates or overwrites the entry for `key`.
    pub fn set(&mut self, key: Vec<u8>, value: Vec<u8>)
        ensures
            final(self)@ == old(self)@.insert(key@, value@),
    {
        shard_insert(&mut self.shards, key, value);
    }

    /// The value stored under `key`, if any.
    pub fn get(&self, key: &Vec<u8>) -> (r: Option<Vec<u8>>)
        ensures
            match r {
                Some(v) => self@.contains_key(key@) && v@ == self@[key@],
                None => !self@.contains_key(key@),
            },
    {
        shard_get(&self.shards, key)
    }
}

/// Sets on two distinct keys land independently: both values are visible
/// afterwards, and the order of the two sets does not matter.
pub proof fn lemma_distinct_keys_commute(
    m: Map<Seq<u8>, Seq<u8>>,
    k1: Seq<u8>,
    v1: Seq<u8>,
    k2: Seq<u8>,
    v2: Seq<u8>,
)
    requires
        k1 != k2,
    ensures
        m.insert(k1, v1).insert(k2, v2) == m.insert(k2, v2).insert(k1, v1),
        m.insert(k1, v1).insert(k2, v2)[k1] == v1,
        m.insert(k1, v1).insert(k2, v2)[k2] == v2,
{
    assert(m.insert(k1, v1).insert(k2, v2) =~= m.insert(k2, v2).insert(k1, v1));
}

/// Repeated sets on one key are serialized: the entry ends at the value of
/// whichever set applied last, with no other key disturbed.
pub proof fn lemma_same_key_last_wins(
    m: Map<Seq<u8>, Seq<u8>>,
    k: Seq<u8>,
    v1: Seq<u8>,
    v2: Seq<u8>,
)
    ensures
        m.insert(k, v1).insert(k, v2) == m.insert(k, v2),
        m.insert(k, v1).insert(k, v2)[k] == v2,
        forall|other: Seq<u8>| other != k ==> m.insert(k, v1).insert(k, v2).contains_key(other)
            == m.contains_key(other),
{
    assert(m.insert(k, v1).insert(k, v2) =~= m.insert(k, v2));
}

} // verus!

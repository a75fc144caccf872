//! Ways to find the value of a key, or to give it one, that agree on the result.

use crate::collect::model::CollectorView;
use crate::collect::{Collector, Pin};
use crate::contents;
use crate::sync_table::SyncTable;
use crate::util::HashBuilder;
use vstd::prelude::*;

verus! {

/// The value that a key has after it has been interned with `value`.
pub open spec fn interned_value(map: Map<u64, u64>, key: u64, value: u64) -> u64 {
    if map.contains_key(key) {
        map[key]
    } else {
        value
    }
}

/// The map after a key has been interned with `value`.
pub open spec fn interned(map: Map<u64, u64>, key: u64, value: u64) -> Map<u64, u64> {
    if map.contains_key(key) {
        map
    } else {
        map.insert(key, value)
    }
}

/// Whether `after` is the table `before` after it has been pruned, room for one more element has been made
/// if there was none, and the key has been inserted.
pub open spec fn added<S: HashBuilder<u64>, C>(
    before: SyncTable<u64, u64, S>,
    after: SyncTable<u64, u64, S>,
    collector_before: CollectorView<C>,
    collector: CollectorView<C>,
    key: u64,
    value: u64,
) -> bool {
    exists|
        pruned: SyncTable<u64, u64, S>,
        collector_pruned: CollectorView<C>,
        reserved: SyncTable<u64, u64, S>,
    |
        #![trigger
            pruned.pruned(before, collector_pruned, collector_before),
            after.inserted(reserved, key, value, true)
        ]
        {
            &&& pruned.pruned(before, collector_pruned, collector_before)
            &&& reserved.reserved(pruned, collector, collector_pruned)
            &&& after.inserted(reserved, key, value, true)
        }
}

/// Whether the key has been interned with `value`: nothing changes if it is there, and else it is added.
pub open spec fn has_interned<S: HashBuilder<u64>, C>(
    before: SyncTable<u64, u64, S>,
    after: SyncTable<u64, u64, S>,
    collector_before: Collector<C>,
    collector: Collector<C>,
    key: u64,
    value: u64,
) -> bool {
    &&& after@ == interned(before@, key, value)
    &&& after.builder() == before.builder()
    &&& if before@.contains_key(key) {
        after == before && collector == collector_before
    } else {
        added(before, after, collector_before@, collector@, key, value)
    }
}

/// Clones of integers are the integers, and a key is in the table if an equal one is.
proof fn lemma_integers(map: Map<u64, u64>, key: u64)
    ensures
        contents::clones_keep_keys::<u64>(),
        contents::has_key(map, key) == map.contains_key(key),
        forall|other: Map<u64, u64>| #[trigger]
            contents::cloned_map(map, other) ==> other == map,
{
    assert forall|other: Map<u64, u64>| #[trigger] contents::cloned_map(map, other) implies other
        == map by {
        contents::exact_clones_make_the_same_map(map, other);
    }
    if map.contains_key(key) {
        assert(contents::same_key(key, key));
    }
}

/// Looks for the key, and inserts it if it is missing.
pub fn intern_triple<S: HashBuilder<u64>, C>(
    table: &mut SyncTable<u64, u64, S>,
    collector: &mut Collector<C>,
    key: u64,
    value: u64,
    pin: Pin<'_>,
) -> (r: u64)
    requires
        old(table).wf(),
        old(collector).wf(),
        old(table).attached_to(old(collector)@),
        old(table).can_reserve_one(old(collector)@),
    ensures
        final(table).wf(),
        final(collector).wf(),
        final(table).attached_to(final(collector)@),
        has_interned(*old(table), *final(table), *old(collector), *final(collector), key, value),
        r == interned_value(old(table)@, key, value),
{
    proof {
        lemma_integers(table@, key);
    }
    let hash: u64 = table.hash_key(&key);
    if let Some((_, found)) = table.read(pin).get(&key, Some(hash)) {
        return *found;
    }
    let mut lock = table.lock(collector);
    if let Some((_, found)) = lock.read().get(&key, Some(hash)) {
        return *found;
    }
    lock.write().insert_new(key, value, Some(hash));
    value
}

/// Looks for the key or its slot, and inserts it there if it is still missing.
pub fn intern<S: HashBuilder<u64>, C>(
    table: &mut SyncTable<u64, u64, S>,
    collector: &mut Collector<C>,
    key: u64,
    value: u64,
    pin: Pin<'_>,
) -> (r: u64)
    requires
        old(table).wf(),
        old(collector).wf(),
        old(table).attached_to(old(collector)@),
        old(table).can_reserve_one(old(collector)@),
    ensures
        final(table).wf(),
        final(collector).wf(),
        final(table).attached_to(final(collector)@),
        has_interned(*old(table), *final(table), *old(collector), *final(collector), key, value),
        r == interned_value(old(table)@, key, value),
{
    proof {
        lemma_integers(table@, key);
    }
    let hash: u64 = table.hash_key(&key);
    let slot = match table.read(pin).get_potential(&key, Some(hash)) {
        Ok((_, found)) => {
            return *found;
        },
        Err(slot) => slot,
    };
    let mut lock = table.lock(collector);
    if let Some((_, found)) = slot.get(lock.read(), &key, Some(hash)) {
        return *found;
    }
    slot.insert_new(lock.write(), key, value, Some(hash));
    value
}

/// Looks for the key or its slot, makes room for it, and inserts it there if it is still missing.
pub fn intern_refresh<S: HashBuilder<u64>, C>(
    table: &mut SyncTable<u64, u64, S>,
    collector: &mut Collector<C>,
    key: u64,
    value: u64,
    hash: u64,
    pin: Pin<'_>,
) -> (r: u64)
    requires
        old(table).wf(),
        old(collector).wf(),
        old(table).attached_to(old(collector)@),
        old(table).can_reserve_one(old(collector)@),
        hash == old(table).builder().hash_of(key),
    ensures
        final(table).wf(),
        final(collector).wf(),
        final(table).attached_to(final(collector)@),
        has_interned(*old(table), *final(table), *old(collector), *final(collector), key, value),
        r == interned_value(old(table)@, key, value),
{
    proof {
        lemma_integers(table@, key);
    }
    let slot = match table.read(pin).get_potential(&key, Some(hash)) {
        Ok((_, found)) => {
            return *found;
        },
        Err(slot) => slot,
    };
    let mut lock = table.lock(collector);
    lock.write().reserve_one();
    match slot.refresh(lock.read(), &key, Some(hash)) {
        Ok((_, found)) => *found,
        Err(slot) => {
            slot.insert_new(lock.write(), key, value, Some(hash));
            value
        },
    }
}

/// Interning a key gives it a value exactly if it has none. The value that is returned is the one that
/// the key has then, and no other key is affected.
pub proof fn an_interned_key_has_the_returned_value(map: Map<u64, u64>, key: u64, value: u64)
    ensures
        interned(map, key, value).contains_key(key),
        interned(map, key, value)[key] == interned_value(map, key, value),
        map.contains_key(key) ==> interned_value(map, key, value) == map[key],
        !map.contains_key(key) ==> interned_value(map, key, value) == value,
        forall|other: u64|
            other != key ==> {
                &&& #[trigger] interned(map, key, value).contains_key(other) == map.contains_key(other)
                &&& map.contains_key(other) ==> interned(map, key, value)[other] == map[other]
            },
{
}

/// Interning a key once more changes nothing, and returns the value from the first time.
pub proof fn interning_again_gives_the_first_value(
    map: Map<u64, u64>,
    key: u64,
    value: u64,
    other: u64,
)
    ensures
        interned_value(interned(map, key, value), key, other) == interned_value(map, key, value),
        interned(interned(map, key, value), key, other) == interned(map, key, value),
{
}

/// A key that is there leaves the table and the collector as they are. One that is missing is added to the
/// table, which keeps its hasher and all its elements.
pub proof fn interning_adds_a_missing_key_only<S: HashBuilder<u64>, C>(
    before: SyncTable<u64, u64, S>,
    after: SyncTable<u64, u64, S>,
    collector_before: Collector<C>,
    collector: Collector<C>,
    key: u64,
    value: u64,
)
    requires
        has_interned(before, after, collector_before, collector, key, value),
    ensures
        before@.contains_key(key) ==> after == before && collector == collector_before,
        !before@.contains_key(key) ==> after@ == before@.insert(key, value),
        after.builder() == before.builder(),
{
}

} // verus!

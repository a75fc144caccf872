//! Operations on a table, and what each does to the model.

use crate::collect::model::CollectorView;
use crate::collect::Collector;
use crate::contents;
use crate::raw::table;
use crate::sync_table::{self, capacity, PotentialSlot, SyncTable};
use crate::util::HashBuilder;
use crate::workload::{self, ByteValue, Model};
use vstd::arithmetic::power2;
use vstd::prelude::*;
use vstd::set_lib;

verus! {

/// The largest capacity that a table of bytes is ever given.
pub const LARGEST_CAPACITY: usize = 514;

/// Whether all tables that the workloads need can be allocated.
pub open spec fn tables_fit<V>() -> bool {
    forall|cap: int|
        0 < cap <= LARGEST_CAPACITY ==> #[trigger] sync_table::can_allocate::<u8, V>(cap)
}

/// Returns whether all tables that the workloads need can be allocated.
pub fn do_tables_fit<V, S: HashBuilder<u8>>() -> (r: bool)
    ensures
        r == tables_fit::<V>(),
{
    let mut cap: usize = 1;
    while cap <= LARGEST_CAPACITY
        invariant
            1 <= cap <= LARGEST_CAPACITY + 1,
            forall|c: int| 0 < c < cap ==> #[trigger] sync_table::can_allocate::<u8, V>(c),
        decreases LARGEST_CAPACITY + 1 - cap,
    {
        if !SyncTable::<u8, V, S>::can_allocate(cap) {
            assert(!sync_table::can_allocate::<u8, V>(cap as int));
            return false;
        }
        cap = cap + 1;
    }
    true
}

/// Whether a table is consistent, small and belongs to the collector.
pub open spec fn table_wf<V, S: HashBuilder<u8>, C>(
    table: SyncTable<u8, V, S>,
    collector: Collector<C>,
) -> bool {
    &&& table.wf()
    &&& collector.wf()
    &&& table.attached_to(collector@)
    &&& table.table().n() <= 1024
    &&& table@.len() <= 256
}

/// Whether another table can be put into use.
pub open spec fn ids_left<V, S, C>(table: SyncTable<u8, V, S>, collector: CollectorView<C>) -> bool {
    table.generation() < u64::MAX && collector.next_id < u64::MAX
}

/// Whether at most one table has been put into use, and no thread has come or gone.
pub open spec fn one_table_later<V, S, C>(
    before: SyncTable<u8, V, S>,
    after: SyncTable<u8, V, S>,
    collector_before: CollectorView<C>,
    collector: CollectorView<C>,
) -> bool {
    &&& after.generation() <= before.generation() + 1
    &&& collector.next_id <= collector_before.next_id + 1
    &&& collector.threads == collector_before.threads
}

/// A small table stays small when it makes room for one more element, and keeps its keys.
pub proof fn lemma_reserved<V: Clone, S: HashBuilder<u8>, C>(
    before: SyncTable<u8, V, S>,
    after: SyncTable<u8, V, S>,
    collector: CollectorView<C>,
    collector_before: CollectorView<C>,
)
    requires
        before.wf(),
        before.table().n() <= 1024,
        before@.len() <= 256,
        before.room() == 0 ==> collector_before.next_id < u64::MAX,
        after.reserved(before, collector, collector_before),
    ensures
        after.table().n() <= 1024,
        after@.len() == before@.len(),
        one_table_later(before, after, collector_before, collector),
        contents::cloned_map(before@, after@) || after@ == before@,
{
    before.lemma_wf();
    if before.room() == 0 {
        let len = before.table().len() as int;
        let n = before.table().n();
        let cap = sync_table::expanded_capacity(len, n, 1);
        let new_n = after.table().n();
        reveal_with_fuel(power2::is_pow2, 12);
        assert(power2::is_pow2(1024));
        if len + 1 <= capacity::capacity_of(n) / 2 {
            sync_table::laws::a_half_empty_table_does_not_grow(len, n, 1, new_n);
        } else {
            assert(cap <= LARGEST_CAPACITY);
            if new_n > 1024 {
                capacity::lemma_pow2_gap(1024, new_n);
            }
        }
    }
}

/// There is room for one more element in a small table, or it can be made.
pub proof fn lemma_can_reserve<V, S: HashBuilder<u8>, C>(
    table: SyncTable<u8, V, S>,
    collector: CollectorView<C>,
)
    requires
        table.wf(),
        table.table().n() <= 1024,
        table@.len() <= 256,
        ids_left(table, collector),
        tables_fit::<V>(),
    ensures
        table.can_reserve_one(collector),
{
    table.lemma_wf();
    if table.room() == 0 {
        let len = table.table().len() as int;
        let n = table.table().n();
        let cap = sync_table::expanded_capacity(len, n, 1);
        if len + 1 <= capacity::capacity_of(n) / 2 {
            assert(cap <= LARGEST_CAPACITY);
        } else {
            assert(cap <= LARGEST_CAPACITY);
        }
        assert(sync_table::can_allocate::<u8, V>(cap));
    }
}

/// An operation on a table of bytes.
pub enum Op {
    Insert { key: u8, value: u8, use_hash: bool },
    InsertNew { key: u8, value: u8, use_hash: bool },
    Remove { key: u8, use_hash: bool },
    Replace { items: Vec<(u8, u8)>, capacity: usize },
    ReserveOne,
}

impl Op {
    /// Whether the operation turns what the model `before` describes into what `after` describes.
    pub open spec fn leads_to(self, before: Seq<Option<u8>>, after: Seq<Option<u8>>) -> bool {
        match self {
            Op::Insert { key, value, .. } | Op::InsertNew { key, value, .. } => {
                if before[key as int] is None {
                    after == workload::with_value(before, key, Some(value))
                } else {
                    after == before
                }
            },
            Op::Remove { key, .. } => after == workload::with_value(before, key, None),
            Op::Replace { items, .. } => items@ == workload::snapshot(after, 0),
            Op::ReserveOne => after == before,
        }
    }

    /// Whether the operation asks for no larger table than the workloads use.
    pub open spec fn is_small(self) -> bool {
        match self {
            Op::Replace { capacity, .. } => capacity <= LARGEST_CAPACITY,
            _ => true,
        }
    }
}

/// Hashes the key if that is asked for.
pub fn maybe_hash<V, S: HashBuilder<u8>>(
    table: &SyncTable<u8, V, S>,
    key: u8,
    use_hash: bool,
) -> (r: Option<u64>)
    ensures
        r == if use_hash {
            Some(table.builder().hash_of(key))
        } else {
            None
        },
{
    if use_hash {
        Some(table.hash_key(&key))
    } else {
        None
    }
}

/// Whether a table is consistent and contains what the model says.
pub open spec fn holds<V: ByteValue, S: HashBuilder<u8>, C>(
    table: SyncTable<u8, V, S>,
    collector: Collector<C>,
    model: Seq<Option<u8>>,
) -> bool {
    &&& table_wf(table, collector)
    &&& workload::bytes_of(table@) == workload::model_map(model)
    &&& model.len() == 256
}

/// The model after a pair has been inserted. A key that has a value keeps it.
pub open spec fn after_insert(model: Seq<Option<u8>>, key: u8, value: u8) -> Seq<Option<u8>> {
    if model[key as int] is None {
        workload::with_value(model, key, Some(value))
    } else {
        model
    }
}

/// What adding a pair to a table, or to one of clones, does to the model.
proof fn lemma_added<V: ByteValue>(
    before: Map<u8, V>,
    copy: Map<u8, V>,
    model: Seq<Option<u8>>,
    key: u8,
    value: V,
)
    requires
        model.len() == 256,
        workload::bytes_of(before) == workload::model_map(model),
        copy == before || contents::cloned_map(before, copy),
    ensures
        workload::bytes_of(copy) == workload::model_map(model),
        workload::bytes_of(copy.insert(key, value)) == workload::model_map(
            workload::with_value(model, key, Some(value.as_byte())),
        ),
{
    workload::lemma_cloned_bytes(before, copy);
    workload::lemma_with_value(model, key, Some(value.as_byte()));
    assert(workload::bytes_of(copy.insert(key, value)) =~= workload::bytes_of(copy).insert(
        key,
        value.as_byte(),
    ));
}

/// Inserts a pair. Returns whether it was added.
pub fn insert<V: ByteValue, S: HashBuilder<u8>, C>(
    table: &mut SyncTable<u8, V, S>,
    collector: &mut Collector<C>,
    key: u8,
    value: u8,
    hash: Option<u64>,
    model: &Model,
) -> (r: bool)
    requires
        holds(*old(table), *old(collector), model@),
        ids_left(*old(table), old(collector)@),
        tables_fit::<V>(),
        hash matches Some(h) ==> h == old(table).builder().hash_of(key),
    ensures
        holds(*final(table), *final(collector), after_insert(model@, key, value)),
        one_table_later(*old(table), *final(table), old(collector)@, final(collector)@),
        final(table).builder() == old(table).builder(),
        final(table).keeps_slots(*old(table)),
        r == (model@[key as int] is None),
{
    let ghost before = *table;
    let mut write = table.write(collector);
    let ghost pruned = write.table();
    let ghost collector_pruned = write.collector()@;
    proof {
        workload::lemma_byte_keys::<S>();
        workload::lemma_has_byte(before@, key);
        workload::lemma_value_of(before@, model@, key);
        lemma_can_reserve(pruned, collector_pruned);
    }
    let value = V::from_byte(value);
    let ghost added = value;
    let r = write.insert(key, value, hash);
    proof {
        let after = write.table();
        let reserved = choose|reserved: SyncTable<u8, V, S>| #[trigger]
            after.inserted(reserved, key, added, r) && reserved.reserved(
                pruned,
                write.collector()@,
                collector_pruned,
            );
        lemma_reserved(pruned, reserved, write.collector()@, collector_pruned);
        lemma_added(before@, reserved@, model@, key, added);
        after.lemma_wf();
        lemma_few_bytes(after@);
    }
    r
}

/// Inserts a pair with a new key. Returns whether what was inserted is the pair.
pub fn insert_new<V: ByteValue, S: HashBuilder<u8>, C>(
    table: &mut SyncTable<u8, V, S>,
    collector: &mut Collector<C>,
    key: u8,
    value: u8,
    hash: Option<u64>,
    model: &Model,
) -> (r: bool)
    requires
        holds(*old(table), *old(collector), model@),
        ids_left(*old(table), old(collector)@),
        tables_fit::<V>(),
        model@[key as int] is None,
        hash matches Some(h) ==> h == old(table).builder().hash_of(key),
    ensures
        holds(*final(table), *final(collector), after_insert(model@, key, value)),
        one_table_later(*old(table), *final(table), old(collector)@, final(collector)@),
        final(table).builder() == old(table).builder(),
        final(table).keeps_slots(*old(table)),
        r,
{
    let ghost before = *table;
    let mut write = table.write(collector);
    let ghost pruned = write.table();
    let ghost collector_pruned = write.collector()@;
    proof {
        workload::lemma_byte_keys::<S>();
        workload::lemma_has_byte(before@, key);
        workload::lemma_value_of(before@, model@, key);
        lemma_can_reserve(pruned, collector_pruned);
    }
    let item = V::from_byte(value);
    let ghost added = item;
    let (inserted_key, inserted_value) = write.insert_new(key, item, hash);
    let r: bool = *inserted_key == key && inserted_value.byte() == value;
    proof {
        let after = write.table();
        let reserved = choose|reserved: SyncTable<u8, V, S>| #[trigger]
            after.inserted(reserved, key, added, true) && reserved.reserved(
                pruned,
                write.collector()@,
                collector_pruned,
            );
        lemma_reserved(pruned, reserved, write.collector()@, collector_pruned);
        lemma_added(before@, reserved@, model@, key, added);
        after.lemma_wf();
        lemma_few_bytes(after@);
    }
    r
}

/// Inserts a pair with a new key by way of a slot. Returns whether what was inserted is the pair.
pub fn insert_in_slot<V: ByteValue, S: HashBuilder<u8>, C>(
    table: &mut SyncTable<u8, V, S>,
    collector: &mut Collector<C>,
    slot: PotentialSlot,
    key: u8,
    value: u8,
    hash: Option<u64>,
    model: &Model,
) -> (r: bool)
    requires
        holds(*old(table), *old(collector), model@),
        old(table).room() == 0 ==> ids_left(*old(table), old(collector)@),
        tables_fit::<V>(),
        model@[key as int] is None,
        slot.is_for(*old(table), key),
        hash matches Some(h) ==> h == old(table).builder().hash_of(key),
    ensures
        holds(*final(table), *final(collector), after_insert(model@, key, value)),
        one_table_later(*old(table), *final(table), old(collector)@, final(collector)@),
        old(table).room() > 0 ==> final(table).generation() == old(table).generation()
            && final(collector)@.next_id == old(collector)@.next_id,
        final(table).builder() == old(table).builder(),
        final(table).keeps_slots(*old(table)),
        r,
{
    let ghost before = *table;
    let mut write = table.write(collector);
    let ghost pruned = write.table();
    let ghost collector_pruned = write.collector()@;
    proof {
        workload::lemma_byte_keys::<S>();
        workload::lemma_has_byte(before@, key);
        workload::lemma_value_of(before@, model@, key);
        if pruned.room() == 0 {
            lemma_can_reserve(pruned, collector_pruned);
        }
    }
    let item = V::from_byte(value);
    let ghost added = item;
    let (inserted_key, inserted_value) = slot.insert_new(&mut write, key, item, hash);
    let r: bool = *inserted_key == key && inserted_value.byte() == value;
    proof {
        let after = write.table();
        let reserved = choose|reserved: SyncTable<u8, V, S>| #[trigger]
            after.inserted(reserved, key, added, true) && reserved.reserved(
                pruned,
                write.collector()@,
                collector_pruned,
            );
        lemma_reserved(pruned, reserved, write.collector()@, collector_pruned);
        lemma_added(before@, reserved@, model@, key, added);
        after.lemma_wf();
        lemma_few_bytes(after@);
    }
    r
}

/// Removes a key. Returns the pair that was removed.
pub fn remove<V: ByteValue, S: HashBuilder<u8>, C>(
    table: &mut SyncTable<u8, V, S>,
    collector: &mut Collector<C>,
    key: u8,
    hash: Option<u64>,
    model: &Model,
) -> (r: Option<(u8, u8)>)
    requires
        holds(*old(table), *old(collector), model@),
        hash matches Some(h) ==> h == old(table).builder().hash_of(key),
    ensures
        holds(*final(table), *final(collector), workload::with_value(model@, key, None)),
        final(table).generation() == old(table).generation(),
        final(collector)@.next_id == old(collector)@.next_id,
        final(collector)@.threads == old(collector)@.threads,
        final(table).builder() == old(table).builder(),
        final(table).keeps_slots(*old(table)),
        r == match model@[key as int] {
            Some(value) => Some((key, value)),
            None => None,
        },
{
    let ghost before = *table;
    let mut write = table.write(collector);
    proof {
        workload::lemma_byte_keys::<S>();
        workload::lemma_has_byte(before@, key);
        workload::lemma_value_of(before@, model@, key);
        workload::lemma_with_value(model@, key, None);
        assert(workload::bytes_of(before@.remove(key)) =~= workload::bytes_of(before@).remove(key));
        if !before@.contains_key(key) {
            assert(before@.remove(key) =~= before@);
        }
    }
    let r = match write.remove(&key, hash) {
        Some((found, value)) => Some((*found, value.byte())),
        None => None,
    };
    proof {
        write.table().lemma_wf();
        lemma_few_bytes(write.table()@);
    }
    r
}

/// Replaces the contents of a table with the pairs of a model. Returns whether it has room enough
/// afterwards.
pub fn replace<V: ByteValue, S: HashBuilder<u8>, C>(
    table: &mut SyncTable<u8, V, S>,
    collector: &mut Collector<C>,
    items: &Vec<(u8, u8)>,
    capacity: usize,
    replacement: &Model,
) -> (r: bool)
    requires
        table_wf(*old(table), *old(collector)),
        ids_left(*old(table), old(collector)@),
        tables_fit::<V>(),
        capacity <= LARGEST_CAPACITY,
        items@ == workload::snapshot(replacement@, 0),
    ensures
        holds(*final(table), *final(collector), replacement@),
        one_table_later(*old(table), *final(table), old(collector)@, final(collector)@),
        final(table).builder() == old(table).builder(),
        final(table).keeps_slots(*old(table)),
        r,
{
    let mut pairs: Vec<(u8, V)> = Vec::new();
    let mut i: usize = 0;
    while i < items.len()
        invariant
            i <= items@.len(),
            pairs@.len() == i,
            forall|j: int|
                0 <= j < i ==> (#[trigger] pairs@[j]).0 == items@[j].0 && pairs@[j].1.as_byte()
                    == items@[j].1,
        decreases items@.len() - i,
    {
        let (key, value) = items[i];
        pairs.push((key, V::from_byte(value)));
        i = i + 1;
    }
    proof {
        workload::lemma_byte_keys::<S>();
        workload::lemma_snapshot(replacement@, 0);
        lemma_same_bytes(items@, pairs@);
        let needed = table::max_int(pairs@.len() as int, capacity as int);
        contents::lemma_contents_len(items@);
        lemma_few_bytes(workload::model_map(replacement@));
        assert(needed <= LARGEST_CAPACITY);
        if needed > 0 {
            assert(sync_table::can_allocate::<u8, V>(needed));
        }
    }
    let len: usize = pairs.len();
    let mut write = table.write(collector);
    write.replace(pairs, capacity);
    proof {
        let after = write.table();
        after.lemma_wf();
        lemma_few_bytes(after@);
        if after.table().n() > 1024 {
            lemma_small_table(table::max_int(len as int, capacity as int), after.table().n());
        }
    }
    let room: usize = write.read().capacity();
    room >= capacity && room >= len
}

/// A table with room for few elements has few buckets.
proof fn lemma_small_table(cap: int, n: int)
    requires
        cap <= LARGEST_CAPACITY,
        capacity::buckets_for(cap, n),
    ensures
        n <= 1024,
{
    reveal_with_fuel(power2::is_pow2, 12);
    assert(power2::is_pow2(1024));
    if n > 1024 {
        capacity::lemma_pow2_gap(1024, n);
    }
}

/// Pairs of the same keys and bytes make up maps of the same bytes.
proof fn lemma_same_bytes<V: ByteValue>(items: Seq<(u8, u8)>, pairs: Seq<(u8, V)>)
    requires
        items.len() == pairs.len(),
        forall|j: int|
            0 <= j < items.len() ==> (#[trigger] pairs[j]).0 == items[j].0 && pairs[j].1.as_byte()
                == items[j].1,
        contents::distinct(contents::entries_of(items)),
    ensures
        contents::distinct(contents::entries_of(pairs)),
        workload::bytes_of(contents::contents(contents::entries_of(pairs))) == contents::contents(
            contents::entries_of(items),
        ),
{
    let a = contents::entries_of(items);
    let b = contents::entries_of(pairs);
    assert forall|k: u8| #[trigger] contents::same_key(k, k) by {}
    assert forall|i: int, j: int|
        b.contains_key(i) && b.contains_key(j) && i != j implies !#[trigger] contents::same_key(
        b[i].0,
        b[j].0,
    ) by {
        assert(pairs[i].0 == items[i].0 && pairs[j].0 == items[j].0);
        assert(!contents::same_key(a[i].0, a[j].0));
    }
    let left = workload::bytes_of(contents::contents(b));
    let right = contents::contents(a);
    assert forall|k: u8|
        #![trigger left.dom().contains(k)]
        #![trigger right.dom().contains(k)]
        #![trigger left[k]]
        left.contains_key(k) == right.contains_key(k) && (left.contains_key(k) ==> left[k]
            == right[k]) by {
        if left.contains_key(k) {
            let j = contents::lemma_entry_of_key(b, k);
            assert(pairs[j].0 == items[j].0);
            contents::lemma_entry(a, j);
        }
        if right.contains_key(k) {
            let j = contents::lemma_entry_of_key(a, k);
            assert(pairs[j].0 == items[j].0);
            contents::lemma_entry(b, j);
        }
    }
    assert(left =~= right);
}

/// Makes room for one more element.
pub fn reserve_one<V: ByteValue, S: HashBuilder<u8>, C>(
    table: &mut SyncTable<u8, V, S>,
    collector: &mut Collector<C>,
    model: &Model,
)
    requires
        holds(*old(table), *old(collector), model@),
        ids_left(*old(table), old(collector)@),
        tables_fit::<V>(),
    ensures
        holds(*final(table), *final(collector), model@),
        one_table_later(*old(table), *final(table), old(collector)@, final(collector)@),
        final(table).builder() == old(table).builder(),
        final(table).room() > 0,
        final(table).keeps_slots(*old(table)),
{
    let ghost before = *table;
    let mut write = table.write(collector);
    let ghost pruned = write.table();
    let ghost collector_pruned = write.collector()@;
    proof {
        workload::lemma_byte_keys::<S>();
        lemma_can_reserve(pruned, collector_pruned);
    }
    write.reserve_one();
    proof {
        lemma_reserved(pruned, write.table(), write.collector()@, collector_pruned);
        workload::lemma_cloned_bytes(before@, write.table()@);
    }
}

/// Applies an operation. Returns whether it answered as the model says.
pub fn apply_op<V: ByteValue, S: HashBuilder<u8>, C>(
    table: &mut SyncTable<u8, V, S>,
    collector: &mut Collector<C>,
    op: &Op,
    before: &Model,
    after: &Model,
) -> (r: bool)
    requires
        holds(*old(table), *old(collector), before@),
        ids_left(*old(table), old(collector)@),
        tables_fit::<V>(),
        op.is_small(),
        op.leads_to(before@, after@),
    ensures
        holds(*final(table), *final(collector), after@),
        one_table_later(*old(table), *final(table), old(collector)@, final(collector)@),
        final(table).builder() == old(table).builder(),
        final(table).keeps_slots(*old(table)),
        r,
{
    match op {
        Op::Insert { key, value, use_hash } => {
            let hash = maybe_hash(table, *key, *use_hash);
            let inserted = insert(table, collector, *key, *value, hash, before);
            inserted == before[*key as usize].is_none()
        },
        Op::InsertNew { key, value, use_hash } => {
            if before[*key as usize].is_none() {
                let hash = maybe_hash(table, *key, *use_hash);
                insert_new(table, collector, *key, *value, hash, before)
            } else {
                true
            }
        },
        Op::Remove { key, use_hash } => {
            let hash = maybe_hash(table, *key, *use_hash);
            let removed = remove(table, collector, *key, hash, before);
            match (removed, before[*key as usize]) {
                (Some((found_key, found_value)), Some(value)) => found_key == *key && found_value
                    == value,
                (None, None) => true,
                _ => false,
            }
        },
        Op::Replace { items, capacity } => replace(table, collector, items, *capacity, after),
        Op::ReserveOne => {
            reserve_one(table, collector, before);
            true
        },
    }
}

/// There are no more than 256 bytes.
proof fn lemma_few_bytes<V>(map: Map<u8, V>)
    requires
        map.dom().finite(),
    ensures
        map.len() <= 256,
{
    let all = Set::<int>::new(|i: int| 0 <= i < 256);
    set_lib::lemma_int_range(0, 256);
    assert(all =~= set_lib::set_int_range(0, 256));
    let image = map.dom().map(|k: u8| k as int);
    assert(image.subset_of(all));
    set_lib::lemma_map_size(map.dom(), image, |k: u8| k as int);
    set_lib::lemma_len_subset(image, all);
}

} // verus!

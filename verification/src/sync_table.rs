//! A hash table whose elements stay in place until no reader can see them.

pub mod capacity;
pub mod laws;
pub mod shard;

pub use self::shard::shard_index_by_hash;

use self::capacity::{bucket_mask_to_capacity, capacity_to_buckets};
use crate::collect::model::CollectorView;
use crate::collect::{pin_cold, Collector, Data, Pin, State};
use crate::contents;
use crate::hash_map::hasher;
use crate::raw::ctrl;
use crate::raw::group::{DELETED, EMPTY, WIDTH};
use crate::raw::table::{self, max_usize, Bucket, RawIterRange, TableInfo, TableRef};
use crate::retired::{self, RetireList};
use crate::util::{HashBuilder, Layout};
use vstd::arithmetic::power2;
use vstd::layout;
use vstd::prelude::*;

verus! {

/// Whether a table with room for `cap` pairs can be allocated: the number of buckets must not
/// overflow, and there must be a memory layout.
pub open spec fn can_allocate<K, V>(cap: int) -> bool {
    &&& cap < 8 || cap * 8 <= usize::MAX
    &&& forall|n: int| #[trigger] capacity::buckets_for(cap, n) ==> TableRef::<(K, V)>::has_layout(n)
}

/// The number of elements that a table gets room for when `additional` elements are to be added to
/// the `len` elements of a table with `n` buckets.
pub open spec fn expanded_capacity(len: int, n: int, additional: int) -> int {
    if len + additional <= capacity::capacity_of(n) / 2 {
        // Mostly tombstones, so aim for a new table which is at least 50% empty.
        2 * (len + additional)
    } else {
        table::max_int(len + additional, capacity::capacity_of(n) + 1)
    }
}

/// What the memory of a table holds between the buckets and the control bytes.
pub struct TableHeader {
    /// The counters.
    pub info: TableInfo,
    /// Whether no reader can see the table any more.
    pub can_free: bool,
    /// The address of the next retired table.
    pub next_retired: usize,
}

/// The size of a [TableHeader], and how it is aligned: at least as a group is, so that the control bytes
/// have a fixed distance from it.
pub open spec fn header() -> Layout {
    Layout {
        size: layout::size_of::<TableHeader>() as usize,
        align: table::max_int(layout::align_of::<TableHeader>() as int, WIDTH as int) as usize,
    }
}

/// Returns the size of a [TableHeader], and how it is aligned.
pub fn header_layout() -> (r: Layout)
    ensures
        r == header(),
        power2::is_pow2(r.align as int),
{
    layout::layout_for_type_is_valid::<TableHeader>();
    proof {
        reveal_with_fuel(power2::is_pow2, 6);
        assert(power2::is_pow2(WIDTH as int));
    }
    Layout {
        size: core::mem::size_of::<TableHeader>(),
        align: max_usize(core::mem::align_of::<TableHeader>(), WIDTH),
    }
}

impl<T> TableRef<T> {
    /// Whether there is a memory layout for a table with `bucket_count` buckets.
    pub open spec fn has_layout(bucket_count: int) -> bool {
        Self::fits(bucket_count, header())
    }

    /// Returns the memory layout of a table with `bucket_count` buckets, and where in it the header is.
    pub fn layout(bucket_count: usize) -> (r: Option<(Layout, usize)>)
        ensures
            r is Some <==> Self::has_layout(bucket_count as int),
            r matches Some((layout, offset)) ==> {
                &&& layout.size == Self::layout_size(bucket_count as int, header())
                &&& layout.align == Self::layout_align(header())
                &&& offset == Self::header_offset(bucket_count as int, header())
                &&& bucket_count + WIDTH <= isize::MAX
            },
    {
        Self::layout_with(bucket_count, header_layout())
    }

    /// Allocates a table with `bucket_count` buckets, a power of two of at least the group width,
    /// which is what [capacity_to_buckets] returns. One with a single bucket would be taken for the
    /// table that needs no memory.
    pub fn allocate(bucket_count: usize) -> (r: Self)
        requires
            power2::is_pow2(bucket_count as int),
            bucket_count >= WIDTH,
            Self::has_layout(bucket_count as int),
        ensures
            r.wf(),
            r.n() == bucket_count,
            r.info.growth_left == capacity::capacity_of(bucket_count as int),
            r.info.tombstones == 0,
            r.len() == 0,
            r.items() == Map::<int, T>::empty(),
    {
        let _layout = Self::layout(bucket_count).unwrap();
        Self::with_buckets(bucket_count, bucket_mask_to_capacity(bucket_count - 1))
    }
}

/// Whether every pair in the table is where the hash of its key puts it, no key is there twice, and
/// the table has the capacity that it should have.
spec fn storage_wf<K: Eq, V, S: HashBuilder<K>>(hash_builder: S, table: TableRef<(K, V)>) -> bool {
    &&& table.wf()
    &&& table.n() == 1 || table.n() >= 16 && TableRef::<(K, V)>::has_layout(table.n())
    &&& table.capacity() == capacity::capacity_of(table.n())
    &&& forall|i: int| #[trigger]
        table.holds(i) ==> table.hashes@[i] == hash_builder.hash_of(table.item(i).0)
    &&& contents::distinct(table.items())
}

/// A hash table whose elements stay in place until no reader can see them.
///
/// Replacing its storage retires the old one, which is kept until a [Collector] tells that no thread
/// can be reading from it.
pub struct SyncTable<K, V, S> {
    hash_builder: S,
    current: TableRef<(K, V)>,
    /// The tables that have been replaced and that a reader may still see.
    retired: RetireList<TableRef<(K, V)>>,
    /// How often the current table has been replaced.
    generation: u64,
}

impl<K, V, S> SyncTable<K, V, S> {
    /// The keys and values in the table.
    pub closed spec fn view(self) -> Map<K, V> {
        contents::contents(self.current.items())
    }

    /// The table's hasher.
    pub closed spec fn builder(self) -> S {
        self.hash_builder
    }

    /// The table in use.
    pub closed spec fn table(self) -> TableRef<(K, V)> {
        self.current
    }

    /// The retired tables, the oldest first.
    pub closed spec fn retired(self) -> Seq<(u64, TableRef<(K, V)>)> {
        self.retired@
    }

    /// How often the current table has been replaced.
    pub closed spec fn generation(self) -> u64 {
        self.generation
    }

    /// The number of elements that can be added before the table is replaced by another.
    pub open spec fn room(self) -> usize {
        self.table().info.growth_left
    }
}

impl<K: Eq, V, S: HashBuilder<K>> SyncTable<K, V, S> {
    /// Whether the table is consistent.
    pub closed spec fn wf(self) -> bool {
        &&& contents::lawful::<K, S>(self.hash_builder)
        &&& storage_wf(self.hash_builder, self.current)
        &&& self.retired.wf()
    }

    /// What the counters of a consistent table say.
    pub proof fn lemma_wf(self)
        requires
            self.wf(),
        ensures
            contents::lawful::<K, S>(self.builder()),
            self@.dom().finite(),
            self.table().len() == self@.len(),
            self.table().capacity() == capacity::capacity_of(self.table().n()),
            self.table().info.tombstones <= capacity::capacity_of(self.table().n()),
            self.table().n() == 1 || self.table().n() >= 16,
            power2::is_pow2(self.table().n()),
            forall|i: int, j: int|
                0 <= i < j < self.retired().len() ==> (#[trigger] self.retired()[i]).0 < (
                #[trigger] self.retired()[j]).0,
            forall|a: K, b: K|
                #![trigger self@.contains_key(a), self@.contains_key(b)]
                self@.contains_key(a) && self@.contains_key(b) && contents::same_key(a, b) ==> a
                    == b,
    {
        contents::lemma_pairs(self.current);
        assert forall|a: K, b: K|
            #![trigger self@.contains_key(a), self@.contains_key(b)]
            self@.contains_key(a) && self@.contains_key(b) && contents::same_key(a, b) implies a
            == b by {
            let i = contents::lemma_entry_of_key(self.current.items(), a);
            let j = contents::lemma_entry_of_key(self.current.items(), b);
            if i != j {
                assert(!contents::same_key(
                    self.current.items()[i].0,
                    self.current.items()[j].0,
                ));
            }
        }
    }

    proof fn lemma_found(self, index: int)
        requires
            self.wf(),
            self.current.holds(index),
        ensures
            self@.contains_key(self.current.item(index).0),
            self@[self.current.item(index).0] == self.current.item(index).1,
    {
        assert(self.current.items().contains_key(index));
        contents::lemma_entry(self.current.items(), index);
    }

    proof fn lemma_key(self, key: K) -> (index: int)
        requires
            self.wf(),
            self@.contains_key(key),
        ensures
            self.current.holds(index),
            self.current.item(index) == (key, self@[key]),
            self.current.hashes@[index] == self.hash_builder.hash_of(key),
    {
        let index = contents::lemma_entry_of_key(self.current.items(), key);
        assert(self.current.items()[index] == self.current.item(index));
        index
    }

    proof fn lemma_missing(self, key: K, hash: u64)
        requires
            self.wf(),
            hash == self.hash_builder.hash_of(key),
            forall|i: int| #[trigger]
                self.current.holds(i) && self.current.hashes@[i] == hash ==> !contents::same_key(
                    key,
                    self.current.item(i).0,
                ),
        ensures
            !contents::has_key(self@, key),
    {
        if contents::has_key(self@, key) {
            let k = choose|k: K| #[trigger] self@.contains_key(k) && contents::same_key(key, k);
            let i = self.lemma_key(k);
        }
    }

    /// Whether every slot that was right in `before` still is.
    pub open spec fn keeps_slots(self, before: Self) -> bool {
        forall|slot: PotentialSlot, key: K|
            slot.is_for(before, key) ==> #[trigger] slot.is_for(self, key)
    }

    /// A slot stays right if neither the keys nor the control bytes change.
    proof fn lemma_keeps_slots(self, before: Self)
        requires
            self.hash_builder == before.hash_builder,
            self.generation == before.generation,
            self.current.info.bucket_mask == before.current.info.bucket_mask,
            self.current.ctrl@ == before.current.ctrl@,
            self@.dom() == before@.dom(),
        ensures
            self.keeps_slots(before),
    {
        assert forall|slot: PotentialSlot, key: K| slot.is_for(before, key) implies #[trigger] slot.is_for(
            self,
            key,
        ) by {
            if contents::has_key(self@, key) {
                let k = choose|k: K| #[trigger]
                    self@.contains_key(k) && contents::same_key(key, k);
                assert(before@.contains_key(k));
            }
        }
    }

    /// No slot is right for a table that is no longer in use.
    proof fn lemma_new_table_keeps_slots(self, before: Self)
        requires
            self.generation > before.generation,
        ensures
            self.keeps_slots(before),
    {
    }

    /// A slot stays right while other elements come and go: if its bucket is still empty, the element
    /// is still missing and still belongs there.
    proof fn lemma_place_keeps_slots(self, before: Self, index: int, key: K, value: V)
        requires
            before.wf(),
            self.wf(),
            self.placed(before, index, key, value),
        ensures
            self.keeps_slots(before),
    {
        assert forall|slot: PotentialSlot, k: K| slot.is_for(before, k) implies #[trigger] slot.is_for(
            self,
            k,
        ) by {
            slot.lemma_survives_place(before, self, k, key, value, index);
        }
    }

    proof fn lemma_removal_keeps_slots(self, before: Self, index: int)
        requires
            before.wf(),
            before.current.holds(index),
            self.hash_builder == before.hash_builder,
            self.generation == before.generation,
            self.current.n() == before.current.n(),
            self.current.ctrl@ == ctrl::set(
                before.current.ctrl@,
                before.current.n(),
                index,
                DELETED,
            ),
            self@.dom().subset_of(before@.dom()),
        ensures
            self.keeps_slots(before),
    {
        let n = before.current.n();
        before.lemma_wf();
        ctrl::lemma_set(before.current.ctrl@, n, index, DELETED);
        assert forall|slot: PotentialSlot, key: K| slot.is_for(before, key) implies #[trigger] slot.is_for(
            self,
            key,
        ) by {
            if slot.is_current(self) {
                assert(slot.index != index);
                assert(before.current.ctrl@[slot.index as int] == EMPTY);
                if n >= 16 {
                    ctrl::lemma_set_keeps_insert_slot(
                        before.current.ctrl@,
                        n,
                        index,
                        DELETED,
                        before.hash_builder.hash_of(key),
                        slot.index as int,
                    );
                }
                if contents::has_key(self@, key) {
                    let k = choose|k: K| #[trigger]
                        self@.contains_key(k) && contents::same_key(key, k);
                    assert(before@.contains_key(k));
                }
            }
        }
    }

    /// Whether a new element with the hash `hash` belongs in the bucket `index`, which is empty.
    spec fn slot_at(self, hash: u64, index: int) -> bool {
        &&& 0 <= index < self.current.n()
        &&& self.current.ctrl@[index] == EMPTY
        &&& self.current.n() >= 16 ==> ctrl::insert_slot(
            self.current.ctrl@,
            self.current.n(),
            hash,
            index,
        )
    }

    proof fn lemma_slot_is_empty(self, hash: u64, index: int)
        requires
            self.wf(),
            0 <= index < self.current.n(),
            self.current.n() >= 16 ==> ctrl::insert_slot(
                self.current.ctrl@,
                self.current.n(),
                hash,
                index,
            ),
        ensures
            self.slot_at(hash, index),
    {
        if self.current.n() >= 16 {
            ctrl::lemma_insert_slot(self.current.ctrl@, self.current.n(), hash, index);
        } else {
            // There is no room, so the only bucket is empty.
            let empty = ctrl::lemma_some_empty(self.current.ctrl@, self.current.n());
        }
    }

    /// The number of items in the table.
    fn items(&self) -> (r: usize)
        requires
            self.wf(),
        ensures
            r == self@.len(),
            r == self.current.len(),
    {
        proof {
            self.lemma_wf();
        }
        bucket_mask_to_capacity(self.current.info.bucket_mask) - self.current.info.tombstones
            - self.current.info.growth_left
    }

    /// Changing the value of an element keeps the table consistent.
    proof fn lemma_value_may_change(self, index: int)
        requires
            self.wf(),
            self.current.holds(index),
        ensures
            forall|after: Self|
                {
                    &&& after.hash_builder == self.hash_builder
                    &&& after.retired == self.retired
                    &&& after.generation == self.generation
                    &&& after.current.wf()
                    &&& after.current.info == self.current.info
                    &&& after.current.ctrl == self.current.ctrl
                    &&& after.current.hashes == self.current.hashes
                    &&& after.current.items() == self.current.items().insert(
                        index,
                        (self.current.item(index).0, after.current.items()[index].1),
                    )
                } ==> {
                    &&& #[trigger] after.wf()
                    &&& after.keeps_slots(self)
                    &&& after@ == self@.insert(
                        self.current.item(index).0,
                        after.current.items()[index].1,
                    )
                },
    {
        assert(self.current.items().contains_key(index));
        assert(self.current.items()[index] == self.current.item(index));
        assert forall|after: Self|
            {
                &&& after.hash_builder == self.hash_builder
                &&& after.retired == self.retired
                &&& after.generation == self.generation
                &&& after.current.wf()
                &&& after.current.info == self.current.info
                &&& after.current.ctrl == self.current.ctrl
                &&& after.current.hashes == self.current.hashes
                &&& after.current.items() == self.current.items().insert(
                    index,
                    (self.current.item(index).0, after.current.items()[index].1),
                )
            } implies {
            &&& #[trigger] after.wf()
            &&& after.keeps_slots(self)
            &&& after@ == self@.insert(
                self.current.item(index).0,
                after.current.items()[index].1,
            )
        } by {
            contents::lemma_change(
                self.current.items(),
                index,
                after.current.items()[index].1,
            );
            assert forall|i: int| #[trigger] after.current.holds(i) implies after.current.hashes@[i]
                == after.hash_builder.hash_of(after.current.item(i).0) by {
                assert(self.current.holds(i));
                assert(after.current.items().contains_key(i));
                assert(after.current.items()[i] == after.current.item(i));
                assert(self.current.items()[i] == self.current.item(i));
            }
            self.lemma_found(index);
            assert(after@.dom() =~= self@.dom());
            after.lemma_keeps_slots(self);
        }
    }

    /// Whether this is `before` after the element has been put into the empty bucket `index`, where
    /// its hash belongs.
    spec fn placed(self, before: Self, index: int, key: K, value: V) -> bool {
        let hash = before.hash_builder.hash_of(key);
        &&& before.slot_at(hash, index)
        &&& self.generation == before.generation
        &&& self.hash_builder == before.hash_builder
        &&& self.current.n() == before.current.n()
        &&& self@ == before@.insert(key, value)
        &&& self.current.ctrl@ == ctrl::set(
            before.current.ctrl@,
            before.current.n(),
            index,
            table::tag(hash),
        )
    }

    /// Adds a new element to the table in its slot.
    fn place(&mut self, index: usize, key: K, value: V, hash: u64)
        requires
            old(self).wf(),
            old(self).room() > 0,
            hash == old(self).builder().hash_of(key),
            old(self).slot_at(hash, index as int),
            !contents::has_key(old(self)@, key),
        ensures
            final(self).wf(),
            final(self)@ == old(self)@.insert(key, value),
            final(self).same_but_contents(*old(self)),
            final(self).room() == old(self).room() - 1,
            final(self).table().info.tombstones == old(self).table().info.tombstones,
            final(self).current.holds(index as int),
            final(self).current.item(index as int) == (key, value),
            final(self).table().follows(old(self).table()),
            final(self).keeps_slots(*old(self)),
    {
        let ghost before = self.current;
        proof {
            if before.n() >= 16 {
                ctrl::lemma_insert_slot(before.ctrl@, before.n(), hash, index as int);
            }
            assert(!before.holds(index as int));
            assert(before.items().contains_key(index as int) == before.holds(index as int));
            contents::lemma_add::<K, V, S>(
                self.hash_builder,
                before.items(),
                index as int,
                key,
                value,
            );
        }
        self.current.insert_at(index, (key, value), hash);
        proof {
            let after = self.current;
            assert(after.items().contains_key(index as int));
            assert(after.items()[index as int] == (key, value));
            assert forall|i: int| #[trigger] after.holds(i) implies after.hashes@[i]
                == self.hash_builder.hash_of(after.item(i).0) by {
                assert(after.items().contains_key(i));
                assert(after.items()[i] == after.item(i));
                if i != index {
                    assert(before.items().contains_key(i));
                    assert(before.holds(i));
                    assert(before.items()[i] == before.item(i));
                }
            }
            self.lemma_place_keeps_slots(*old(self), index as int, key, value);
        }
    }

    /// Marks the element in the bucket as removed. It stays in the bucket.
    fn take_out(&mut self, index: usize)
        requires
            old(self).wf(),
            old(self).current.holds(index as int),
        ensures
            final(self).wf(),
            final(self)@ == old(self)@.remove(old(self).current.item(index as int).0),
            final(self).same_but_contents(*old(self)),
            final(self).room() == old(self).room(),
            final(self).table().info.tombstones == old(self).table().info.tombstones + 1,
            final(self).current.buckets == old(self).current.buckets,
            final(self).current.ctrl@[index as int] != EMPTY,
            final(self).table().follows(old(self).table()),
            final(self).keeps_slots(*old(self)),
    {
        let ghost before = self.current;
        proof {
            assert(before.items().contains_key(index as int));
            contents::lemma_take(before.items(), index as int);
        }
        self.current.remove_at(index);
        proof {
            let after = self.current;
            ctrl::lemma_set(before.ctrl@, before.n(), index as int, DELETED);
            assert forall|i: int| #[trigger] after.holds(i) implies after.hashes@[i]
                == self.hash_builder.hash_of(after.item(i).0) by {
                assert(after.items().contains_key(i));
                assert(before.items().contains_key(i));
                assert(before.holds(i));
            }
            self.lemma_removal_keeps_slots(*old(self), index as int);
        }
    }

    /// Searches for an element in the table. Returns its bucket, or else the one where a new element
    /// with the key belongs.
    fn find(&self, hash: u64, key: &K) -> (r: Result<usize, usize>)
        requires
            self.wf(),
            hash == self.hash_builder.hash_of(*key),
        ensures
            match r {
                Ok(index) => {
                    &&& self.current.holds(index as int)
                    &&& contents::same_key(*key, self.current.item(index as int).0)
                },
                Err(index) => {
                    &&& !contents::has_key(self@, *key)
                    &&& self.slot_at(hash, index as int)
                },
            },
    {
        let eq = |pair: &(K, V)| -> (b: bool)
            ensures
                b == contents::same_key(*key, pair.0),
        {
            *key == pair.0
        };
        let r = self.current.search(hash, eq);
        proof {
            if let Err(index) = r {
                self.lemma_missing(*key, hash);
                self.lemma_slot_is_empty(hash, index as int);
            }
        }
        r
    }

    fn unwrap_hash(&self, key: &K, hash: Option<u64>) -> (r: u64)
        requires
            hash matches Some(h) ==> h == self.builder().hash_of(*key),
        ensures
            r == self.builder().hash_of(*key),
    {
        match hash {
            Some(hash) => hash,
            None => self.hash_key(key),
        }
    }

    /// Hashes a key with the table's hasher.
    pub fn hash_key(&self, key: &K) -> (r: u64)
        ensures
            r == self.builder().hash_of(*key),
    {
        crate::util::make_insert_hash(&self.hash_builder, key)
    }

    /// Returns a reference to the table's hasher.
    pub fn hasher(&self) -> (r: &S)
        ensures
            *r == self.builder(),
    {
        &self.hash_builder
    }

    /// Whether a table with room for `capacity` elements can be allocated.
    pub fn can_allocate(capacity: usize) -> (r: bool)
        ensures
            r == can_allocate::<K, V>(capacity as int),
    {
        if capacity == 0 {
            proof {
                reveal_with_fuel(power2::is_pow2, 6);
                capacity::lemma_buckets_for(0, 16);
            }
            return TableRef::<(K, V)>::layout(WIDTH).is_some();
        }
        match capacity_to_buckets(capacity) {
            Some(n) => {
                proof {
                    capacity::lemma_buckets_for(capacity as int, n as int);
                }
                TableRef::<(K, V)>::layout(n).is_some()
            },
            None => false,
        }
    }

    /// Creates an empty [SyncTable] with the specified capacity, using `hash_builder`
    /// to hash the keys.
    ///
    /// The table will be able to hold at least `capacity` elements without
    /// reallocating. If `capacity` is 0, the table will not allocate.
    pub fn new_with(hash_builder: S, capacity: usize) -> (r: Self)
        requires
            contents::lawful::<K, S>(hash_builder),
            capacity > 0 ==> can_allocate::<K, V>(capacity as int),
        ensures
            r.wf(),
            r@ == Map::<K, V>::empty(),
            r.builder() == hash_builder,
            r.retired().len() == 0,
            r.generation() == 0,
            capacity == 0 ==> r.table().n() == 1,
            capacity > 0 ==> capacity::buckets_for(capacity as int, r.table().n()),
            r.room() == capacity::capacity_of(r.table().n()),
            r.room() >= capacity,
    {
        let current = Self::new_storage(capacity);
        let r = SyncTable { hash_builder, current, retired: RetireList::new(), generation: 0 };
        proof {
            assert(r@ =~= Map::<K, V>::empty());
            assert forall|i: int| !r.current.holds(i) by {
                assert(r.current.items().contains_key(i) == r.current.holds(i));
            }
        }
        r
    }

    /// Allocates a table with room for `capacity` elements.
    fn new_storage(capacity: usize) -> (r: TableRef<(K, V)>)
        requires
            capacity > 0 ==> can_allocate::<K, V>(capacity as int),
        ensures
            r.wf(),
            r.items() == Map::<int, (K, V)>::empty(),
            r.len() == 0,
            r.info.tombstones == 0,
            r.info.growth_left == capacity::capacity_of(r.n()),
            capacity == 0 ==> r.n() == 1,
            capacity > 0 ==> capacity::buckets_for(capacity as int, r.n()),
            capacity > 0 ==> TableRef::<(K, V)>::has_layout(r.n()),
    {
        if capacity > 0 {
            let buckets: usize = capacity_to_buckets(capacity).unwrap();
            TableRef::allocate(buckets)
        } else {
            TableRef::empty()
        }
    }

    /// Allocates a table and fills it with the pairs.
    fn filled_storage(hash_builder: &S, items: Vec<(K, V)>, buckets: usize) -> (r: TableRef<(K, V)>)
        requires
            contents::lawful::<K, S>(*hash_builder),
            contents::distinct(contents::entries_of(items@)),
            power2::is_pow2(buckets as int),
            buckets >= 16,
            TableRef::<(K, V)>::has_layout(buckets as int),
            items@.len() <= capacity::capacity_of(buckets as int),
        ensures
            storage_wf(*hash_builder, r),
            contents::contents(r.items()) == contents::contents(contents::entries_of(items@)),
            r.n() == buckets,
            r.len() == items@.len(),
            r.info.tombstones == 0,
    {
        let ghost pairs = items@;
        let hash_pair = |pair: &(K, V)| -> (h: u64)
            ensures
                h == hash_builder.hash_of(pair.0),
        {
            hasher(hash_builder, pair)
        };
        let (table, Ghost(places)) = TableRef::allocate(buckets).fill(items, hash_pair);
        proof {
            contents::lemma_filled(table, pairs, places);
            assert forall|i: int| #[trigger] table.holds(i) implies table.hashes@[i]
                == hash_builder.hash_of(table.item(i).0) by {
                assert(places.contains(i));
                let j = choose|j: int| 0 <= j < places.len() && places[j] == i;
                assert(table.hashes@[places[j]] == hash_builder.hash_of(pairs[j].0));
            }
        }
        table
    }

    /// Whether there is room for one more element, or it can be made.
    pub fn may_insert<C>(&self, collector: &Collector<C>) -> (r: bool)
        requires
            self.wf(),
        ensures
            r == self.can_reserve_one(collector@),
    {
        proof {
            self.lemma_wf();
        }
        if self.current.info.growth_left > 0 {
            return true;
        }
        self.may_replace_table(collector) && Self::can_allocate(self.capacity_with(1))
    }

    /// Whether the contents can be replaced with `len` elements, with room for `capacity`.
    pub fn may_replace<C>(&self, collector: &Collector<C>, len: usize, capacity: usize) -> (r: bool)
        requires
            self.wf(),
        ensures
            r == {
                let needed = table::max_int(len as int, capacity as int);
                self.can_replace(collector@) && (needed > 0 ==> can_allocate::<K, V>(needed))
            },
    {
        let needed: usize = max_usize(len, capacity);
        self.may_replace_table(collector) && (needed == 0 || Self::can_allocate(needed))
    }

    /// Whether the table in use can be replaced: ids are left.
    fn may_replace_table<C>(&self, collector: &Collector<C>) -> (r: bool)
        requires
            self.wf(),
        ensures
            r == self.can_replace(collector@),
    {
        self.generation < u64::MAX && (self.current.info.bucket_mask == 0 || collector.has_ids())
    }

    /// The number of elements that a table gets room for when `additional` elements are to be added.
    fn capacity_with(&self, additional: usize) -> (r: usize)
        requires
            self.wf(),
            self.current.len() + additional <= usize::MAX,
        ensures
            r == expanded_capacity(
                self.current.len() as int,
                self.current.n(),
                additional as int,
            ),
    {
        proof {
            self.lemma_wf();
        }
        let new_items: usize = self.items() + additional;
        let full_capacity: usize = bucket_mask_to_capacity(self.current.info.bucket_mask);
        if new_items <= full_capacity / 2 {
            // Mostly tombstones, so aim for a new table which is at least 50% empty.
            new_items * 2
        } else {
            max_usize(new_items, full_capacity + 1)
        }
    }

    /// Returns how many tables have been replaced and are kept because a reader may still see them.
    pub fn retired_len(&self) -> (r: usize)
        ensures
            r == self.retired().len(),
    {
        self.retired.len()
    }

    /// Creates a [Read] handle from a pinned region: the thread that the `Pin` speaks of is pinned.
    ///
    /// Use [crate::collect::pin] to get a `Pin` instance.
    pub fn read<'a>(&'a self, pin: Pin<'a>) -> (r: Read<'a, K, V, S>)
        ensures
            r.table() == self,
            pin@.state == State::Pinned,
    {
        proof {
            use_type_invariant(pin);
        }
        let _pin = pin;
        Read { table: self }
    }
}

/// A handle to a [SyncTable] with read access.
///
/// It is acquired either by a pin, or by exclusive access to the table.
pub struct Read<'a, K, V, S> {
    table: &'a SyncTable<K, V, S>,
}

impl<'a, K, V, S> Read<'a, K, V, S> {
    /// The table that is read.
    pub closed spec fn table(self) -> &'a SyncTable<K, V, S> {
        self.table
    }
}

impl<K, V, S> Copy for Read<'_, K, V, S> {}

impl<K, V, S> Clone for Read<'_, K, V, S> {
    fn clone(&self) -> (r: Self)
        ensures
            r == *self,
    {
        *self
    }
}

impl<'a, K: Eq, V, S: HashBuilder<K>> Read<'a, K, V, S> {
    /// Hashes a key with the table's hasher.
    pub fn hash_key(self, key: &K) -> (r: u64)
        ensures
            r == self.table().builder().hash_of(*key),
    {
        self.table.hash_key(key)
    }

    /// Gets a reference to an element in the table.
    ///
    /// `hash` must be a hash of `key` from the table's hasher if present.
    pub fn get(self, key: &K, hash: Option<u64>) -> (r: Option<(&'a K, &'a V)>)
        requires
            self.table().wf(),
            hash matches Some(h) ==> h == self.table().builder().hash_of(*key),
        ensures
            match r {
                Some((k, v)) => {
                    &&& self.table()@.contains_key(*k)
                    &&& self.table()@[*k] == *v
                    &&& contents::same_key(*key, *k)
                },
                None => !contents::has_key(self.table()@, *key),
            },
    {
        let hash: u64 = self.table.unwrap_hash(key, hash);
        match self.table.find(hash, key) {
            Ok(index) => {
                proof {
                    self.table.lemma_found(index as int);
                }
                Some(Bucket::new(index).as_pair_ref(&self.table.current))
            },
            Err(_) => None,
        }
    }

    /// Gets a reference to an element in the table or a potential location
    /// where that element could be.
    ///
    /// `hash` must be a hash of `key` from the table's hasher if present.
    pub fn get_potential(self, key: &K, hash: Option<u64>) -> (r: Result<
        (&'a K, &'a V),
        PotentialSlot,
    >)
        requires
            self.table().wf(),
            hash matches Some(h) ==> h == self.table().builder().hash_of(*key),
        ensures
            match r {
                Ok((k, v)) => {
                    &&& self.table()@.contains_key(*k)
                    &&& self.table()@[*k] == *v
                    &&& contents::same_key(*key, *k)
                },
                Err(slot) => {
                    &&& !contents::has_key(self.table()@, *key)
                    &&& slot.is_for(*self.table(), *key)
                    &&& slot.is_current(*self.table())
                },
            },
    {
        let hash: u64 = self.table.unwrap_hash(key, hash);
        match self.table.find(hash, key) {
            Ok(index) => {
                proof {
                    self.table.lemma_found(index as int);
                }
                Ok(Bucket::new(index).as_pair_ref(&self.table.current))
            },
            Err(index) => {
                Err(PotentialSlot { generation: self.table.generation, index })
            },
        }
    }

    /// Gets a reference to an element in the table, using a closure to find the match.
    pub fn get_from_hash<F: Fn(&K) -> bool>(self, hash: u64, is_match: F) -> (r: Option<
        (&'a K, &'a V),
    >)
        requires
            self.table().wf(),
            forall|k: &K| call_requires(is_match, (k,)),
        ensures
            match r {
                Some((k, v)) => {
                    &&& self.table()@.contains_key(*k)
                    &&& self.table()@[*k] == *v
                    &&& call_ensures(is_match, (k,), true)
                    &&& table::tag(self.table().builder().hash_of(*k)) == table::tag(hash)
                },
                None => forall|k: K| #[trigger]
                    self.table()@.contains_key(k) && self.table().builder().hash_of(k) == hash
                        ==> call_ensures(is_match, (&k,), false),
            },
    {
        let is_match = &is_match;
        let eq = |k: &K, _v: &V| -> (b: bool)
            ensures
                call_ensures(*is_match, (k,), b),
        {
            is_match(k)
        };
        self.get_with_eq(hash, eq)
    }

    /// Gets a reference to an element in the table with a custom equality function.
    pub fn get_with_eq<F: Fn(&K, &V) -> bool>(self, hash: u64, eq: F) -> (r: Option<
        (&'a K, &'a V),
    >)
        requires
            self.table().wf(),
            forall|k: &K, v: &V| call_requires(eq, (k, v)),
        ensures
            match r {
                Some((k, v)) => {
                    &&& self.table()@.contains_key(*k)
                    &&& self.table()@[*k] == *v
                    &&& call_ensures(eq, (k, v), true)
                    &&& table::tag(self.table().builder().hash_of(*k)) == table::tag(hash)
                },
                None => forall|k: K| #[trigger]
                    self.table()@.contains_key(k) && self.table().builder().hash_of(k) == hash
                        ==> call_ensures(eq, (&k, &self.table()@[k]), false),
            },
    {
        let eq = &eq;
        let pair_eq = |pair: &(K, V)| -> (b: bool)
            ensures
                call_ensures(*eq, (&pair.0, &pair.1), b),
        {
            eq(&pair.0, &pair.1)
        };
        match self.table.current.search(hash, pair_eq) {
            Ok(index) => {
                proof {
                    self.table.lemma_found(index as int);
                }
                Some(Bucket::new(index).as_pair_ref(&self.table.current))
            },
            Err(_) => {
                proof {
                    assert forall|k: K| #[trigger]
                        self.table()@.contains_key(k) && self.table().builder().hash_of(k)
                            == hash implies call_ensures(
                        eq,
                        (&k, &self.table()@[k]),
                        false,
                    ) by {
                        let i = self.table.lemma_key(k);
                    }
                }
                None
            },
        }
    }

    /// Returns the number of elements the table can hold without reallocating.
    pub fn capacity(self) -> (r: usize)
        requires
            self.table().wf(),
        ensures
            r == capacity::capacity_of(self.table().table().n()) - self.table().table().info.tombstones,
            r == self.table()@.len() + self.table().room(),
    {
        proof {
            self.table.lemma_wf();
        }
        bucket_mask_to_capacity(self.table.current.info.bucket_mask)
            - self.table.current.info.tombstones
    }

    /// Returns the number of elements in the table.
    pub fn len(self) -> (r: usize)
        requires
            self.table().wf(),
        ensures
            r == self.table()@.len(),
    {
        proof {
            self.table.lemma_wf();
        }
        self.table.items()
    }

    /// An iterator visiting all key-value pairs in arbitrary order.
    pub fn iter(self) -> (r: Iter<'a, K, V>)
        requires
            self.table().wf(),
        ensures
            r.wf(),
            r.rest() == contents::pairs(self.table().table()),
            contents::distinct(contents::entries_of(r.rest())),
            contents::contents(contents::entries_of(r.rest())) == self.table()@,
    {
        proof {
            contents::lemma_pairs(self.table.current);
        }
        Iter { inner: self.table.current.iter() }
    }

    /// Returns the control byte of each bucket, and the element in it unless it is empty. The
    /// elements of buckets that have been used but are free again are still there.
    pub fn dump(self) -> (r: Vec<(u8, Option<(&'a K, &'a V)>)>)
        requires
            self.table().wf(),
        ensures
            r@.len() == self.table().table().n(),
            forall|i: int|
                0 <= i < r@.len() ==> (#[trigger] r@[i]).0 == self.table().table().ctrl@[i] && (
                match r@[i].1 {
                    Some((k, v)) => {
                        &&& r@[i].0 != EMPTY
                        &&& *k == self.table().table().item(i).0
                        &&& *v == self.table().table().item(i).1
                    },
                    None => r@[i].0 == EMPTY,
                }),
    {
        proof {
            self.table.lemma_wf();
        }
        let table = &self.table.current;
        let mut rows: Vec<(u8, Option<(&'a K, &'a V)>)> = Vec::new();
        let mut i: usize = 0;
        while i < table.info.buckets()
            invariant
                table.wf(),
                *table == self.table().table(),
                i <= table.n(),
                rows@.len() == i,
                forall|j: int|
                    0 <= j < i ==> (#[trigger] rows@[j]).0 == table.ctrl@[j] && (match rows@[j].1 {
                        Some((k, v)) => {
                            &&& rows@[j].0 != EMPTY
                            &&& *k == table.item(j).0
                            &&& *v == table.item(j).1
                        },
                        None => rows@[j].0 == EMPTY,
                    }),
            decreases table.n() - i,
        {
            let ctrl: u8 = table.ctrl[i];
            let element = if ctrl == EMPTY {
                None
            } else {
                Some(Bucket::new(i).as_pair_ref(table))
            };
            rows.push((ctrl, element));
            i = i + 1;
        }
        rows
    }
}

/// Represents where a value would be if inserted.
///
/// Created by calling [Read::get_potential]. All methods on this type take a table handle
/// and this must be a handle to the same table `get_potential` was called on. Operations also must
/// be on the same element as given to `get_potential`. The operations have a fast path for when
/// the element is still missing.
#[derive(Copy, Clone)]
pub struct PotentialSlot {
    generation: u64,
    index: usize,
}

impl PotentialSlot {
    /// Whether the bucket of the slot is still in use and empty.
    pub closed spec fn is_current<K, V, S>(self, table: SyncTable<K, V, S>) -> bool {
        &&& self.generation == table.generation
        &&& table.current.ctrl@[self.index as int] == EMPTY
    }

    /// Whether the slot is one for `key` in the table: if its bucket is still in use and empty, a
    /// new element with that key belongs there, and there is none yet.
    pub closed spec fn is_for<K: Eq, V, S: HashBuilder<K>>(
        self,
        table: SyncTable<K, V, S>,
        key: K,
    ) -> bool {
        &&& self.generation <= table.generation
        &&& self.generation == table.generation ==> self.index < table.current.n()
        &&& self.is_current(table) ==> {
            &&& !contents::has_key(table@, key)
            &&& table.slot_at(table.hash_builder.hash_of(key), self.index as int)
        }
    }

    /// Putting another element into its place keeps the slot right.
    proof fn lemma_survives_place<K: Eq, V, S: HashBuilder<K>>(
        self,
        before: SyncTable<K, V, S>,
        after: SyncTable<K, V, S>,
        key: K,
        other: K,
        value: V,
        index: int,
    )
        requires
            before.wf(),
            after.wf(),
            self.is_for(before, key),
            after.placed(before, index, other, value),
        ensures
            self.is_for(after, key),
    {
        let n = before.current.n();
        let slot = self.index as int;
        let hash = before.hash_builder.hash_of(key);
        let other_hash = before.hash_builder.hash_of(other);
        if self.is_current(after) {
            before.lemma_wf();
            if n == 1 {
                // The only bucket has been filled.
                ctrl::lemma_small_pow2(n);
                ctrl::lemma_set(before.current.ctrl@, n, index, table::tag(other_hash));
                table::lemma_tag(other_hash);
            } else {
                ctrl::lemma_set(before.current.ctrl@, n, index, table::tag(other_hash));
                table::lemma_tag(other_hash);
                assert(slot != index);
                assert(before.current.ctrl@[slot] == EMPTY);
                ctrl::lemma_set_keeps_insert_slot(
                    before.current.ctrl@,
                    n,
                    index,
                    table::tag(other_hash),
                    hash,
                    slot,
                );
                if contents::has_key(after@, key) {
                    let k = choose|k: K| #[trigger]
                        after@.contains_key(k) && contents::same_key(key, k);
                    if k == other {
                        ctrl::lemma_insert_slot_unique(
                            before.current.ctrl@,
                            n,
                            hash,
                            slot,
                            index,
                        );
                    } else {
                        assert(before@.contains_key(k));
                    }
                }
            }
        }
    }

    fn is_empty<K: Eq, V, S: HashBuilder<K>>(self, table: &SyncTable<K, V, S>) -> (r: bool)
        requires
            table.wf(),
            self.generation == table.generation ==> self.index < table.current.n(),
        ensures
            r == self.is_current(*table),
    {
        // Check that we are still looking at the same table,
        // otherwise our index could be out of date due to expansion or a `replace` call.
        self.generation == table.generation && table.current.ctrl[self.index] == EMPTY
    }

    /// Gets a reference to an element in the table.
    ///
    /// `hash` must be a hash of `key` from the table's hasher if present.
    ///
    /// `table` and `key` must match the values given when `self` was
    /// created using a `get_potential` or `refresh` call.
    pub fn get<'b, K: Eq, V, S: HashBuilder<K>>(
        self,
        table: Read<'b, K, V, S>,
        key: &K,
        hash: Option<u64>,
    ) -> (r: Option<(&'b K, &'b V)>)
        requires
            table.table().wf(),
            self.is_for(*table.table(), *key),
            hash matches Some(h) ==> h == table.table().builder().hash_of(*key),
        ensures
            match r {
                Some((k, v)) => {
                    &&& table.table()@.contains_key(*k)
                    &&& table.table()@[*k] == *v
                    &&& contents::same_key(*key, *k)
                },
                None => !contents::has_key(table.table()@, *key),
            },
    {
        if self.is_empty(table.table) {
            return None;
        }
        table.get(key, hash)
    }

    /// Returns a new up-to-date potential slot.
    /// This can be useful if there could have been insertions since the slot was derived
    /// and you want to use `insert_new`.
    ///
    /// `hash` must be a hash of `key` from the table's hasher if present.
    ///
    /// `table` and `key` must match the values given when `self` was
    /// created using a `get_potential` or `refresh` call.
    pub fn refresh<'b, K: Eq, V, S: HashBuilder<K>>(
        self,
        table: Read<'b, K, V, S>,
        key: &K,
        hash: Option<u64>,
    ) -> (r: Result<(&'b K, &'b V), PotentialSlot>)
        requires
            table.table().wf(),
            self.is_for(*table.table(), *key),
            hash matches Some(h) ==> h == table.table().builder().hash_of(*key),
        ensures
            match r {
                Ok((k, v)) => {
                    &&& table.table()@.contains_key(*k)
                    &&& table.table()@[*k] == *v
                    &&& contents::same_key(*key, *k)
                },
                Err(slot) => {
                    &&& !contents::has_key(table.table()@, *key)
                    &&& slot.is_for(*table.table(), *key)
                    &&& slot.is_current(*table.table())
                },
            },
    {
        if self.is_empty(table.table) {
            return Err(self);
        }
        table.get_potential(key, hash)
    }
}

/// An iterator over the entries of a [SyncTable].
///
/// This `struct` is created by the [Read::iter] method on [Read]. See its
/// documentation for more.
pub struct Iter<'a, K, V> {
    inner: RawIterRange<'a, (K, V)>,
}

impl<'a, K, V> Iter<'a, K, V> {
    /// Whether the iterator is consistent.
    pub closed spec fn wf(self) -> bool {
        self.inner.wf()
    }

    /// The entries that are left.
    pub closed spec fn rest(self) -> Seq<(K, V)> {
        self.inner.rest().map_values(|i: int| self.inner.table().item(i))
    }

    /// Takes the next entry.
    pub fn next(&mut self) -> (r: Option<(&'a K, &'a V)>)
        requires
            old(self).wf(),
        ensures
            final(self).wf(),
            match r {
                Some((k, v)) => {
                    &&& old(self).rest().len() > 0
                    &&& (*k, *v) == old(self).rest()[0]
                    &&& final(self).rest() == old(self).rest().drop_first()
                },
                None => old(self).rest().len() == 0 && final(self).rest().len() == 0,
            },
    {
        let table = self.inner.get_table();
        match self.inner.next() {
            Some(index) => {
                let pair = table.bucket(index);
                assert(self.rest() =~= old(self).rest().drop_first());
                Some((&pair.0, &pair.1))
            },
            None => None,
        }
    }
}

impl<K, V, S> SyncTable<K, V, S> {
    /// Whether the collector knows the flags of all retired tables.
    pub open spec fn attached_to<C>(self, collector: CollectorView<C>) -> bool {
        retired::attached(self.retired(), collector)
    }

    /// Whether this is `before` with another table in use. The old one is retired, unless it is the
    /// one that needs no memory.
    pub open spec fn replaces<C>(
        self,
        before: Self,
        collector: CollectorView<C>,
        collector_before: CollectorView<C>,
    ) -> bool {
        &&& self.builder() == before.builder()
        &&& self.generation() == before.generation() + 1
        &&& if before.table().n() == 1 {
            &&& self.retired() == before.retired()
            &&& collector == collector_before
        } else {
            &&& self.retired() == before.retired().push(
                (collector_before.next_id, before.table()),
            )
            &&& collector == collector_before.deferred_new_id()
        }
    }

    /// Whether this is `before` after the retired tables at the front whose flags have been set have
    /// been freed, and their flags dropped.
    pub open spec fn pruned<C>(
        self,
        before: Self,
        collector: CollectorView<C>,
        collector_before: CollectorView<C>,
    ) -> bool {
        &&& self@ == before@
        &&& self.builder() == before.builder()
        &&& self.table() == before.table()
        &&& self.generation() == before.generation()
        &&& retired::pruned(before.retired(), self.retired(), collector, collector_before)
    }

    /// Whether this is `before` but for what the table in use holds.
    pub open spec fn same_but_contents(self, before: Self) -> bool {
        &&& self.builder() == before.builder()
        &&& self.generation() == before.generation()
        &&& self.retired() == before.retired()
        &&& self.table().n() == before.table().n()
    }

    /// Whether this is `before` after the element has been added, if `added`.
    pub open spec fn inserted(self, before: Self, key: K, value: V, added: bool) -> bool {
        if added {
            &&& self.same_but_contents(before)
            &&& self@ == before@.insert(key, value)
            &&& self.room() == before.room() - 1
            &&& self.table().info.tombstones == before.table().info.tombstones
            &&& self.table().follows(before.table())
        } else {
            self == before
        }
    }

    /// Whether the table in use can be replaced: ids are left.
    pub open spec fn can_replace<C>(self, collector: CollectorView<C>) -> bool {
        &&& self.generation() < u64::MAX
        &&& self.table().n() > 1 ==> collector.next_id < u64::MAX
    }

    /// Whether there is room for one more element, or it can be made.
    pub open spec fn can_reserve_one<C>(self, collector: CollectorView<C>) -> bool {
        self.room() == 0 ==> {
            &&& self.can_replace(collector)
            &&& can_allocate::<K, V>(
                expanded_capacity(self.table().len() as int, self.table().n(), 1),
            )
        }
    }
}

impl<K: Eq + Clone, V: Clone, S: HashBuilder<K>> SyncTable<K, V, S> {
    /// Whether this is `before` after room for one more element has been made, if there was none.
    pub open spec fn reserved<C>(
        self,
        before: Self,
        collector: CollectorView<C>,
        collector_before: CollectorView<C>,
    ) -> bool {
        if before.room() > 0 {
            self == before && collector == collector_before
        } else {
            self.expanded(before, collector, collector_before, 1)
        }
    }

    /// Whether this is `before` after its elements have been cloned to a table with room for
    /// `additional` more.
    pub open spec fn expanded<C>(
        self,
        before: Self,
        collector: CollectorView<C>,
        collector_before: CollectorView<C>,
        additional: int,
    ) -> bool {
        &&& self.replaces(before, collector, collector_before)
        &&& contents::cloned_map(before@, self@)
        &&& capacity::buckets_for(
            expanded_capacity(before.table().len() as int, before.table().n(), additional),
            self.table().n(),
        )
        &&& self.table().info.tombstones == 0
        &&& self.room() >= additional
    }
}

/// A handle to a [SyncTable] with write access.
pub struct Write<'a, K, V, S, C> {
    /// The table that is written to.
    pub table: &'a mut SyncTable<K, V, S>,
    /// The collector that is told of retired tables.
    pub collector: &'a mut Collector<C>,
}

impl<'a, K, V, S, C> Write<'a, K, V, S, C> {
    /// The table that is written to.
    pub open spec fn table(self) -> SyncTable<K, V, S> {
        *self.table
    }

    /// The collector that is told of retired tables.
    pub open spec fn collector(self) -> Collector<C> {
        *self.collector
    }
}

impl<'a, K: Eq, V, S: HashBuilder<K>, C> Write<'a, K, V, S, C> {
    /// Whether the table and the collector are consistent and belong to each other.
    pub open spec fn wf(self) -> bool {
        &&& self.table().wf()
        &&& self.collector().wf()
        &&& self.table().attached_to(self.collector()@)
    }

    /// Creates a [Read] handle which gives access to read operations.
    pub fn read(&self) -> (r: Read<'_, K, V, S>)
        ensures
            *r.table() == self.table(),
    {
        Read { table: &*self.table }
    }

    /// Puts another table into use and retires the old one.
    fn replace_table(&mut self, new_table: TableRef<(K, V)>)
        requires
            old(self).wf(),
            old(self).table().can_replace(old(self).collector()@),
            storage_wf(old(self).table().builder(), new_table),
        ensures
            final(self).wf(),
            final(self).table().replaces(
                old(self).table(),
                final(self).collector()@,
                old(self).collector()@,
            ),
            final(self).table().current == new_table,
            final(self).table().keeps_slots(old(self).table()),
            *final(final(self).table) == *final(old(self).table),
            *final(final(self).collector) == *final(old(self).collector),
    {
        let mut table = new_table;
        core::mem::swap(&mut self.table.current, &mut table);
        self.table.generation = self.table.generation + 1;

        proof {
            (*self.table).lemma_new_table_keeps_slots(old(self).table());
        }
        if table.info.bucket_mask == 0 {
            return;
        }
        // Keep ownership of retired tables in `self.table` so forgetting the container leaks
        // instead of running drop glue after borrowed data has expired.
        self.table.retired.retire(table, self.collector);
        proof {
            (*self.table).lemma_new_table_keeps_slots(old(self).table());
        }
    }

    /// Frees old unused tables
    pub fn prune(&mut self)
        requires
            old(self).wf(),
        ensures
            final(self).wf(),
            final(self).table().pruned(
                old(self).table(),
                final(self).collector()@,
                old(self).collector()@,
            ),
            final(self).table().keeps_slots(old(self).table()),
            *final(final(self).table) == *final(old(self).table),
            *final(final(self).collector) == *final(old(self).collector),
    {
        self.try_prune_tables();
    }

    fn try_prune_tables(&mut self)
        requires
            old(self).wf(),
        ensures
            final(self).wf(),
            final(self).table().pruned(
                old(self).table(),
                final(self).collector()@,
                old(self).collector()@,
            ),
            final(self).table().keeps_slots(old(self).table()),
            *final(final(self).table) == *final(old(self).table),
            *final(final(self).collector) == *final(old(self).collector),
    {
        if self.table.retired.front_is_ready(self.collector) {
            self.prune_tables();
        } else {
            proof {
                retired::lemma_nothing_to_prune(
                    old(self).table().retired(),
                    old(self).collector()@,
                );
                (*self.table).lemma_keeps_slots(old(self).table());
            }
        }
    }

    fn prune_tables(&mut self)
        requires
            old(self).wf(),
        ensures
            final(self).wf(),
            final(self).table().pruned(
                old(self).table(),
                final(self).collector()@,
                old(self).collector()@,
            ),
            final(self).table().keeps_slots(old(self).table()),
            *final(final(self).table) == *final(old(self).table),
            *final(final(self).collector) == *final(old(self).collector),
    {
        self.table.retired.prune(self.collector);
        proof {
            (*self.table).lemma_keeps_slots(old(self).table());
        }
    }
}

impl<'a, K: Eq, V, S: HashBuilder<K>, C> Write<'a, K, V, S, C> {
    /// Returns a reference to the table's hasher.
    pub fn hasher(&self) -> (r: &S)
        ensures
            *r == self.table().builder(),
    {
        &self.table.hash_builder
    }

    /// Removes an element from the table, and returns a reference to it if was present.
    ///
    /// The element will only be dropped after the internal table currently in use is replaced
    /// for example by `replace` or due to expansion.
    ///
    /// `hash` must be a hash of `key` from the table's hasher if present.
    pub fn remove(&mut self, key: &K, hash: Option<u64>) -> (r: Option<(&K, &V)>)
        requires
            old(self).wf(),
            hash matches Some(h) ==> h == old(self).table().builder().hash_of(*key),
        ensures
            final(self).wf(),
            final(self).collector() == old(self).collector(),
            final(self).table().same_but_contents(old(self).table()),
            final(self).table().room() == old(self).table().room(),
            final(self).table().table().buckets == old(self).table().table().buckets,
            final(self).table().table().follows(old(self).table().table()),
            match r {
                Some((k, v)) => {
                    &&& old(self).table()@.contains_key(*k)
                    &&& old(self).table()@[*k] == *v
                    &&& contents::same_key(*key, *k)
                    &&& final(self).table()@ == old(self).table()@.remove(*k)
                    &&& final(self).table().table().info.tombstones
                        == old(self).table().table().info.tombstones + 1
                },
                None => {
                    &&& !contents::has_key(old(self).table()@, *key)
                    &&& final(self).table() == old(self).table()
                },
            },
            final(self).table().keeps_slots(old(self).table()),
            *final(final(self).table) == *final(old(self).table),
            *final(final(self).collector) == *final(old(self).collector),
    {
        let hash: u64 = self.table.unwrap_hash(key, hash);
        match self.table.find(hash, key) {
            Ok(index) => {
                proof {
                    self.table.lemma_found(index as int);
                }
                self.table.take_out(index);
                proof {
                    assert((*self.table).retired() == old(self).table().retired());
                }
                Some(Bucket::new(index).as_pair_ref(&self.table.current))
            },
            Err(_) => None,
        }
    }

    /// Replaces the content of the table with the pairs.
    /// All the keys must be unique.
    /// `capacity` specifies the new capacity if it's greater than the number of pairs.
    pub fn replace(&mut self, items: Vec<(K, V)>, capacity: usize)
        requires
            old(self).wf(),
            old(self).table().can_replace(old(self).collector()@),
            contents::distinct(contents::entries_of(items@)),
            table::max_int(items@.len() as int, capacity as int) > 0 ==> can_allocate::<K, V>(
                table::max_int(items@.len() as int, capacity as int),
            ),
        ensures
            final(self).wf(),
            final(self).table()@ == contents::contents(contents::entries_of(items@)),
            final(self).table().replaces(
                old(self).table(),
                final(self).collector()@,
                old(self).collector()@,
            ),
            final(self).table().table().info.tombstones == 0,
            final(self).table().table().len() == items@.len(),
            ({
                let needed = table::max_int(items@.len() as int, capacity as int);
                if needed == 0 {
                    final(self).table().table().n() == 1
                } else {
                    capacity::buckets_for(needed, final(self).table().table().n())
                }
            }),
            final(self).table().keeps_slots(old(self).table()),
            *final(final(self).table) == *final(old(self).table),
            *final(final(self).collector) == *final(old(self).collector),
    {
        let table = if items.len() == 0 {
            let table = SyncTable::<K, V, S>::new_storage(capacity);
            proof {
                assert(contents::contents(table.items()) =~= contents::contents(
                    contents::entries_of(items@),
                ));
                assert forall|i: int| !table.holds(i) by {
                    assert(table.items().contains_key(i) == table.holds(i));
                }
            }
            table
        } else {
            let buckets: usize = capacity_to_buckets(max_usize(items.len(), capacity)).unwrap();
            SyncTable::filled_storage(&self.table.hash_builder, items, buckets)
        };
        self.replace_table(table);
    }
}

/// Clones the pairs of a table into a new table with `buckets` buckets, hashing each key with
/// `hash_builder`.
fn clone_table<K: Eq + Clone, V: Clone, S: HashBuilder<K>>(
    table: &TableRef<(K, V)>,
    hash_builder: &S,
    buckets: usize,
) -> (r: TableRef<(K, V)>)
    requires
        table.wf(),
        contents::distinct(table.items()),
        contents::lawful::<K, S>(*hash_builder),
        contents::clones_keep_keys::<K>(),
        power2::is_pow2(buckets as int),
        buckets >= 16,
        TableRef::<(K, V)>::has_layout(buckets as int),
        table.len() <= capacity::capacity_of(buckets as int),
    ensures
        storage_wf(*hash_builder, r),
        contents::cloned_map(
            contents::contents(table.items()),
            contents::contents(r.items()),
        ),
        r.n() == buckets,
        r.len() == table.len(),
        r.info.tombstones == 0,
{
    let clones = table.clone_pairs();
    proof {
        contents::lemma_pairs(*table);
        contents::lemma_cloned(contents::pairs(*table), clones@);
    }
    SyncTable::filled_storage(hash_builder, clones, buckets)
}

impl<'a, K: Eq + Clone, V: Clone, S: HashBuilder<K>, C> Write<'a, K, V, S, C> {
    /// Makes room for `additional` more elements by replacing the current table with a freshly
    /// allocated one holding clones of its elements.
    fn expand_by(&mut self, additional: usize)
        requires
            old(self).wf(),
            contents::clones_keep_keys::<K>(),
            additional > 0,
            old(self).table().can_replace(old(self).collector()@),
            old(self).table().table().len() + additional <= usize::MAX,
            can_allocate::<K, V>(
                expanded_capacity(
                    old(self).table().table().len() as int,
                    old(self).table().table().n(),
                    additional as int,
                ),
            ),
        ensures
            final(self).wf(),
            final(self).table().expanded(
                old(self).table(),
                final(self).collector()@,
                old(self).collector()@,
                additional as int,
            ),
            final(self).table().keeps_slots(old(self).table()),
            *final(final(self).table) == *final(old(self).table),
            *final(final(self).collector) == *final(old(self).collector),
    {
        proof {
            self.table.lemma_wf();
        }
        let new_capacity: usize = self.table.capacity_with(additional);
        let buckets: usize = capacity_to_buckets(new_capacity).unwrap();
        let new_table = clone_table(&self.table.current, &self.table.hash_builder, buckets);
        self.replace_table(new_table);
    }

    fn expand_by_one(&mut self)
        requires
            old(self).wf(),
            contents::clones_keep_keys::<K>(),
            old(self).table().room() == 0,
            old(self).table().can_reserve_one(old(self).collector()@),
        ensures
            final(self).wf(),
            final(self).table().expanded(
                old(self).table(),
                final(self).collector()@,
                old(self).collector()@,
                1,
            ),
            final(self).table().keeps_slots(old(self).table()),
            *final(final(self).table) == *final(old(self).table),
            *final(final(self).collector) == *final(old(self).collector),
    {
        proof {
            self.table.lemma_wf();
        }
        self.expand_by(1)
    }

    /// Reserve room for one more element.
    pub fn reserve_one(&mut self)
        requires
            old(self).wf(),
            contents::clones_keep_keys::<K>(),
            old(self).table().can_reserve_one(old(self).collector()@),
        ensures
            final(self).wf(),
            final(self).table().reserved(
                old(self).table(),
                final(self).collector()@,
                old(self).collector()@,
            ),
            final(self).table().room() > 0,
            final(self).table().keeps_slots(old(self).table()),
            *final(final(self).table) == *final(old(self).table),
            *final(final(self).collector) == *final(old(self).collector),
    {
        if self.table.current.info.growth_left == 0 {
            self.expand_by_one();
        }
    }

    /// Inserts an element into the table.
    /// Returns `false` if it already exists and doesn't update the value.
    ///
    /// `hash` must be a hash of `key` from the table's hasher if present.
    pub fn insert(&mut self, key: K, value: V, hash: Option<u64>) -> (r: bool)
        requires
            old(self).wf(),
            contents::clones_keep_keys::<K>(),
            old(self).table().can_reserve_one(old(self).collector()@),
            hash matches Some(h) ==> h == old(self).table().builder().hash_of(key),
        ensures
            final(self).wf(),
            r == !contents::has_key(old(self).table()@, key),
            exists|reserved: SyncTable<K, V, S>| #[trigger]
                final(self).table().inserted(reserved, key, value, r) && reserved.reserved(
                    old(self).table(),
                    final(self).collector()@,
                    old(self).collector()@,
                ),
            final(self).table().keeps_slots(old(self).table()),
            *final(final(self).table) == *final(old(self).table),
            *final(final(self).collector) == *final(old(self).collector),
    {
        let hash: u64 = self.table.unwrap_hash(&key, hash);
        self.reserve_one();
        let ghost reserved = *self.table;
        proof {
            old(self).table().lemma_wf();
            if old(self).table().room() == 0 {
                contents::lemma_cloned_has_key::<K, V, S>(
                    old(self).table().hash_builder,
                    old(self).table()@,
                    reserved@,
                    key,
                );
            }
        }
        match self.table.find(hash, &key) {
            Ok(index) => {
                proof {
                    reserved.lemma_found(index as int);
                    assert(contents::has_key(reserved@, key));
                    assert(self.table().inserted(reserved, key, value, false));
                }
                false
            },
            Err(index) => {
                self.table.place(index, key, value, hash);
                proof {
                    assert((*self.table).retired() == reserved.retired());
                    assert(self.table().inserted(reserved, key, value, true));
                }
                true
            },
        }
    }

    /// Inserts a new element into the table, and returns a reference to it.
    ///
    /// An element with the same `key` must not be in the table already.
    ///
    /// `hash` must be a hash of `key` from the table's hasher if present.
    pub fn insert_new(&mut self, key: K, value: V, hash: Option<u64>) -> (r: (&K, &V))
        requires
            old(self).wf(),
            contents::clones_keep_keys::<K>(),
            old(self).table().can_reserve_one(old(self).collector()@),
            !contents::has_key(old(self).table()@, key),
            hash matches Some(h) ==> h == old(self).table().builder().hash_of(key),
        ensures
            final(self).wf(),
            *r.0 == key,
            *r.1 == value,
            exists|reserved: SyncTable<K, V, S>| #[trigger]
                final(self).table().inserted(reserved, key, value, true) && reserved.reserved(
                    old(self).table(),
                    final(self).collector()@,
                    old(self).collector()@,
                ),
            final(self).table().keeps_slots(old(self).table()),
            *final(final(self).table) == *final(old(self).table),
            *final(final(self).collector) == *final(old(self).collector),
    {
        let hash: u64 = self.table.unwrap_hash(&key, hash);
        self.reserve_one();
        let ghost reserved = *self.table;
        proof {
            old(self).table().lemma_wf();
            if old(self).table().room() == 0 {
                contents::lemma_cloned_has_key::<K, V, S>(
                    old(self).table().hash_builder,
                    old(self).table()@,
                    reserved@,
                    key,
                );
            }
        }
        let index: usize = self.table.current.find_insert_slot(hash);
        self.table.place(index, key, value, hash);
        proof {
            assert((*self.table).retired() == reserved.retired());
            assert(self.table().inserted(reserved, key, value, true));
        }
        let pair = self.table.current.bucket(index);
        (&pair.0, &pair.1)
    }
}

impl PotentialSlot {
    /// Inserts a new element into the table, and returns a reference to it.
    ///
    /// An element with the same `key` must not be in the table already.
    ///
    /// `hash` must be a hash of `key` from the table's hasher if present.
    ///
    /// `table` and `key` must match the values given when `self` was
    /// created using a `get_potential` or `refresh` call.
    pub fn insert_new<'b, K: Eq + Clone, V: Clone, S: HashBuilder<K>, C>(
        self,
        table: &'b mut Write<'_, K, V, S, C>,
        key: K,
        value: V,
        hash: Option<u64>,
    ) -> (r: (&'b K, &'b V))
        requires
            old(table).wf(),
            self.is_for(old(table).table(), key),
            contents::clones_keep_keys::<K>(),
            old(table).table().can_reserve_one(old(table).collector()@),
            !contents::has_key(old(table).table()@, key),
            hash matches Some(h) ==> h == old(table).table().builder().hash_of(key),
        ensures
            final(table).wf(),
            *r.0 == key,
            *r.1 == value,
            exists|reserved: SyncTable<K, V, S>| #[trigger]
                final(table).table().inserted(reserved, key, value, true) && reserved.reserved(
                    old(table).table(),
                    final(table).collector()@,
                    old(table).collector()@,
                ),
            final(table).table().keeps_slots(old(table).table()),
            *final(final(table).table) == *final(old(table).table),
            *final(final(table).collector) == *final(old(table).collector),
    {
        let hash: u64 = table.table.unwrap_hash(&key, hash);
        if self.is_empty(&*table.table) && table.table.current.info.growth_left > 0 {
            table.table.place(self.index, key, value, hash);
            proof {
                assert((*table.table).retired() == old(table).table().retired());
                assert(table.table().inserted(old(table).table(), key, value, true));
            }
            let pair = table.table.current.bucket(self.index);
            (&pair.0, &pair.1)
        } else {
            table.insert_new(key, value, Some(hash))
        }
    }
}

/// A handle to a [SyncTable] with write access, for as long as nobody else can write to the table.
pub struct LockedWrite<'a, K, V, S, C> {
    /// The handle that gives access to write operations.
    pub write: Write<'a, K, V, S, C>,
}

impl<'a, K: Eq, V, S: HashBuilder<K>, C> LockedWrite<'a, K, V, S, C> {
    /// Returns a [Write] handle which gives access to write operations.
    ///
    /// This does not prune old tables.
    pub fn write(&mut self) -> (r: &mut Write<'a, K, V, S, C>)
        ensures
            *r == old(self).write,
            final(self).write == *final(r),
    {
        &mut self.write
    }

    /// Creates a [Read] handle which gives access to read operations.
    pub fn read(&self) -> (r: Read<'_, K, V, S>)
        ensures
            *r.table() == self.write.table(),
    {
        self.write.read()
    }

    /// Returns a reference to the table's hash builder.
    pub fn hasher(&self) -> (r: &S)
        ensures
            *r == self.write.table().builder(),
    {
        self.write.hasher()
    }
}

impl<K: Eq, V, S: HashBuilder<K>> SyncTable<K, V, S> {
    /// Creates a [Write] handle from a mutable reference.
    pub fn write<'a, C>(&'a mut self, collector: &'a mut Collector<C>) -> (r: Write<'a, K, V, S, C>)
        requires
            old(self).wf(),
            old(collector).wf(),
            old(self).attached_to(old(collector)@),
        ensures
            r.wf(),
            r.table().pruned(*old(self), r.collector()@, old(collector)@),
            r.table().keeps_slots(*old(self)),
            *final(r.table) == *final(self),
            *final(r.collector) == *final(collector),
    {
        let mut write = Write { table: self, collector };
        write.try_prune_tables();
        write
    }

    /// Creates a [Write] handle from a mutable reference.
    ///
    /// This does not prune old tables unlike [SyncTable::write].
    /// Instead [Write::prune] must be manually called to free old tables.
    pub fn write_no_prune<'a, C>(&'a mut self, collector: &'a mut Collector<C>) -> (r: Write<
        'a,
        K,
        V,
        S,
        C,
    >)
        requires
            old(self).wf(),
            old(collector).wf(),
            old(self).attached_to(old(collector)@),
        ensures
            r.wf(),
            r.table() == *old(self),
            r.collector() == *old(collector),
            *final(r.table) == *final(self),
            *final(r.collector) == *final(collector),
    {
        Write { table: self, collector }
    }

    /// Creates a [LockedWrite] handle from a mutable reference.
    pub fn lock<'a, C>(&'a mut self, collector: &'a mut Collector<C>) -> (r: LockedWrite<
        'a,
        K,
        V,
        S,
        C,
    >)
        requires
            old(self).wf(),
            old(collector).wf(),
            old(self).attached_to(old(collector)@),
        ensures
            r.write.wf(),
            r.write.table().pruned(*old(self), r.write.collector()@, old(collector)@),
            r.write.table().keeps_slots(*old(self)),
            *final(r.write.table) == *final(self),
            *final(r.write.collector) == *final(collector),
    {
        let mut lock = self.lock_no_prune(collector);
        lock.write().prune();
        lock
    }

    /// Creates a [LockedWrite] handle from a mutable reference.
    ///
    /// This does not prune old tables unlike [SyncTable::lock].
    /// Instead [Write::prune] must be manually called to free old tables.
    pub fn lock_no_prune<'a, C>(&'a mut self, collector: &'a mut Collector<C>) -> (r: LockedWrite<
        'a,
        K,
        V,
        S,
        C,
    >)
        requires
            old(self).wf(),
            old(collector).wf(),
            old(self).attached_to(old(collector)@),
        ensures
            r.write.wf(),
            r.write.table() == *old(self),
            r.write.collector() == *old(collector),
            *final(r.write.table) == *final(self),
            *final(r.write.collector) == *final(collector),
    {
        LockedWrite { write: self.write_no_prune(collector) }
    }

    /// Gets a mutable reference to the value of an element in the table.
    ///
    /// `hash` must be a hash of `key` from the table's hasher if present.
    pub fn get_mut(&mut self, key: &K, hash: Option<u64>) -> (r: Option<(&K, &mut V)>)
        requires
            old(self).wf(),
            hash matches Some(h) ==> h == old(self).builder().hash_of(*key),
        ensures
            final(self).wf(),
            final(self).same_but_contents(*old(self)),
            final(self).keeps_slots(*old(self)),
            final(self).room() == old(self).room(),
            final(self).table().info == old(self).table().info,
            match r {
                Some((k, v)) => {
                    &&& old(self)@.contains_key(*k)
                    &&& old(self)@[*k] == *v
                    &&& contents::same_key(*key, *k)
                    &&& final(self)@ == old(self)@.insert(*k, *final(v))
                },
                None => {
                    &&& !contents::has_key(old(self)@, *key)
                    &&& final(self)@ == old(self)@
                },
            },
    {
        let hash: u64 = self.unwrap_hash(key, hash);
        match self.find(hash, key) {
            Ok(index) => {
                let ghost before = *self;
                proof {
                    before.lemma_found(index as int);
                    before.lemma_value_may_change(index as int);
                }
                let pair = Bucket::new(index).as_mut(&mut self.current);
                Some((&pair.0, &mut pair.1))
            },
            Err(_) => None,
        }
    }
}

/// The map after the pairs have been inserted one after the other. A pair whose key is there already
/// changes nothing.
pub open spec fn insert_all<K: Eq, V>(map: Map<K, V>, pairs: Seq<(K, V)>) -> Map<K, V>
    decreases pairs.len(),
{
    if pairs.len() == 0 {
        map
    } else {
        let before = insert_all(map, pairs.drop_last());
        if contents::has_key(before, pairs.last().0) {
            before
        } else {
            before.insert(pairs.last().0, pairs.last().1)
        }
    }
}

impl<K: Eq + Clone, V: Clone, S: HashBuilder<K>> SyncTable<K, V, S> {
    /// Creates an empty [SyncTable].
    ///
    /// The table is initially created with a capacity of 0, so it will not allocate until it
    /// is first inserted into.
    pub fn new() -> (r: Self) where S: Default
        requires
            forall|s: S| call_ensures(S::default, (), s) ==> contents::lawful::<K, S>(s),
        ensures
            r.wf(),
            r@ == Map::<K, V>::empty(),
            call_ensures(S::default, (), r.builder()),
            r.retired().len() == 0,
            r.generation() == 0,
            r.table().n() == 1,
    {
        SyncTable::new_with(S::default(), 0)
    }

    /// Creates a table with the pairs. Of those with the same key the first is taken.
    pub fn from_iter<C>(items: Vec<(K, V)>, collector: &mut Collector<C>) -> (r: Self) where
        S: Default,

        requires
            forall|s: S| call_ensures(S::default, (), s) ==> contents::lawful::<K, S>(s),
            contents::clones_keep_keys::<K>(),
            items@.len() > 0 ==> can_allocate::<K, V>(items@.len() as int),
            old(collector).wf(),
        ensures
            r.wf(),
            r@ == insert_all(Map::empty(), items@),
            laws::has_the_first_of_each_key(Map::empty(), items@, r@),
            call_ensures(S::default, (), r.builder()),
            r.retired().len() == 0,
            r.generation() == 0,
            items@.len() == 0 ==> r.table().n() == 1,
            items@.len() > 0 ==> capacity::buckets_for(items@.len() as int, r.table().n()),
            final(collector).wf(),
            final(collector)@ == old(collector)@,
    {
        let ghost pairs = items@;
        let mut table = SyncTable::new_with(S::default(), items.len());
        let ghost builder = table.builder();
        let ghost n = table.table().n();
        let ghost collector_before = collector@;
        assert(pairs.subrange(0, 0) =~= Seq::empty());
        for item in iter: items
            invariant
                iter.seq() == pairs,
                contents::clones_keep_keys::<K>(),
                table.wf(),
                table.builder() == builder,
                table.retired().len() == 0,
                table.generation() == 0,
                table.table().n() == n,
                table.room() >= pairs.len() - iter.index(),
                table@ == insert_all(Map::empty(), pairs.subrange(0, iter.index() as int)),
                collector.wf(),
                collector@ == collector_before,
        {
            let ghost done = iter.index() as int;
            assert(item == pairs[done]);
            let mut write = table.write_no_prune(collector);
            let ghost before = write.table();
            let (key, value) = item;
            write.insert(key, value, None);
            proof {
                let upto = pairs.subrange(0, done + 1);
                assert(upto.drop_last() =~= pairs.subrange(0, done));
                assert(upto.last() == pairs[done]);
            }
        }
        assert(pairs.subrange(0, pairs.len() as int) =~= pairs);
        proof {
            table.lemma_wf();
            reveal(laws::is_equivalence);
            laws::inserting_pairs_takes_the_first_of_each_key(Map::<K, V>::empty(), pairs);
        }
        table
    }

    /// Whether this is a clone of `table`, with clones of its elements and of its hasher in as many
    /// buckets.
    pub open spec fn is_clone_of(self, table: Self) -> bool where S: Clone {
        &&& cloned::<S>(table.builder(), self.builder())
        &&& contents::cloned_map(table@, self@)
        &&& self.table().n() == table.table().n()
        &&& self.table().info.tombstones == 0
        &&& self.retired().len() == 0
        &&& self.generation() == 0
    }

    /// Clones the table. The thread is pinned meanwhile, so it is registered afterwards. Deferred
    /// callbacks must not clone a table.
    pub fn clone<C>(&self, data: &mut Data, collector: &mut Collector<C>) -> (r: Self) where
        S: Clone,

        requires
            self.wf(),
            contents::clones_keep_keys::<K>(),
            forall|s: S| #[trigger]
                cloned::<S>(self.builder(), s) ==> contents::lawful::<K, S>(s),
            old(collector).wf(),
            old(data)@.state != State::Collecting,
            old(data)@.attached_to(old(collector)@),
        ensures
            r.wf(),
            r.is_clone_of(*self),
            final(collector).wf(),
            final(data)@ == old(data)@.prepared(old(collector)@),
            final(data)@.attached_to(final(collector)@),
            final(collector)@ == old(data)@.prepared_collector(old(collector)@),
    {
        if !data.may_enter() {
            pin_cold(data, collector);
        }
        let old_state = data.enter();
        let r = self.clone_pinned(data.pinned());
        data.restore(old_state);
        r
    }

    /// Clones the table in a pinned region. The clones of the elements are hashed with the clone of the
    /// hasher, as it may not be equivalent to the old.
    pub fn clone_pinned(&self, pin: Pin<'_>) -> (r: Self) where S: Clone
        requires
            self.wf(),
            contents::clones_keep_keys::<K>(),
            forall|s: S| #[trigger]
                cloned::<S>(self.builder(), s) ==> contents::lawful::<K, S>(s),
        ensures
            r.wf(),
            r.is_clone_of(*self),
            pin@.state == State::Pinned,
    {
        proof {
            use_type_invariant(pin);
        }
        let _pin = pin;
        let hash_builder = self.hash_builder.clone();
        assert(cloned::<S>(self.builder(), hash_builder));
        let buckets: usize = self.current.info.buckets();
        proof {
            self.lemma_wf();
        }
        let current = if buckets > 1 {
            clone_table(&self.current, &hash_builder, buckets)
        } else {
            let current = TableRef::empty();
            proof {
                self@.dom().lemma_len0_is_empty();
                assert(self@ =~= Map::<K, V>::empty());
                assert(contents::contents(current.items()) =~= Map::<K, V>::empty());
                assert forall|i: int| !current.holds(i) by {
                    assert(current.items().contains_key(i) == current.holds(i));
                }
            }
            current
        };
        SyncTable { hash_builder, current, retired: RetireList::new(), generation: 0 }
    }
}

impl<K: Eq, V, S: HashBuilder<K>> SyncTable<K, V, S> {
    /// Drops the table and all retired ones. The collector forgets the flags of the latter.
    pub fn drop_impl<C>(self, collector: &mut Collector<C>)
        requires
            self.wf(),
            old(collector).wf(),
        ensures
            final(collector).wf(),
            final(collector)@ == retired::forgotten(self.retired(), old(collector)@),
    {
        self.detach(collector);
    }

    /// Lets the collector forget the flags of all retired tables. The table can only be dropped after
    /// that, which does not need the collector any more.
    pub fn detach<C>(&self, collector: &mut Collector<C>)
        requires
            self.wf(),
            old(collector).wf(),
        ensures
            final(collector).wf(),
            final(collector)@ == retired::forgotten(self.retired(), old(collector)@),
    {
        self.retired.forget_all(collector);
    }
}

} // verus!

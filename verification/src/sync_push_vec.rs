//! A contiguous push-only array type whose elements stay in place until no reader can see them.

pub mod laws;

use crate::collect::model::CollectorView;
use crate::collect::{Collector, Pin, State};
use crate::raw::table::{max_int, max_usize};
use crate::retired::{self, RetireList};
use crate::util::{self, Layout};
use vstd::arithmetic::div_mod;
use vstd::layout;
use vstd::prelude::*;

verus! {

/// The counters of the storage of a vector.
pub struct TableInfo {
    /// The number of elements.
    pub items: usize,
    /// The number of elements that there is room for.
    pub capacity: usize,
}

/// The storage of a vector.
pub struct TableRef<T> {
    items: Vec<T>,
    capacity: usize,
}

impl<T> TableRef<T> {
    /// The elements.
    pub closed spec fn view(self) -> Seq<T> {
        self.items@
    }

    /// The number of elements that there is room for.
    pub closed spec fn capacity(self) -> usize {
        self.capacity
    }

    /// Whether there is room for all elements.
    pub open spec fn wf(self) -> bool {
        self@.len() <= self.capacity()
    }

    /// The alignment of the memory of the storage.
    pub open spec fn layout_align() -> int {
        max_int(layout::align_of::<T>() as int, layout::align_of::<TableInfo>() as int)
    }

    /// Where the counters are held in the memory: after the elements.
    pub open spec fn info_offset(capacity: int) -> int {
        util::round_up(
            layout::size_of::<T>() * capacity,
            layout::align_of::<TableInfo>() as int,
        )
    }

    /// The size of the memory: the elements and the counters.
    pub open spec fn layout_size(capacity: int) -> int {
        Self::info_offset(capacity) + layout::size_of::<TableInfo>()
    }

    /// Whether there is a memory layout for storage with room for `capacity` elements: its size,
    /// rounded up to its alignment, may not be above `isize::MAX`.
    pub open spec fn has_layout(capacity: int) -> bool {
        Self::layout_size(capacity) <= isize::MAX - isize::MAX as int % Self::layout_align()
    }

    /// Returns the memory layout of storage with room for `capacity` elements, and where in it the
    /// counters are.
    pub fn layout(capacity: usize) -> (r: Option<(Layout, usize)>)
        ensures
            r is Some <==> Self::has_layout(capacity as int),
            r matches Some((layout, info_offset)) ==> {
                &&& layout.size == Self::layout_size(capacity as int)
                &&& layout.align == Self::layout_align()
                &&& info_offset == Self::info_offset(capacity as int)
            },
    {
        layout::layout_for_type_is_valid::<T>();
        layout::layout_for_type_is_valid::<TableInfo>();
        let info_size: usize = core::mem::size_of::<TableInfo>();
        let info_align: usize = core::mem::align_of::<TableInfo>();
        let align: usize = max_usize(core::mem::align_of::<T>(), info_align);
        let ghost items_size = layout::size_of::<T>() * capacity;
        proof {
            assert(items_size >= 0) by (nonlinear_arith)
                requires
                    items_size == layout::size_of::<T>() * capacity,
            ;
            util::lemma_round_up(items_size, info_align as int);
            div_mod::lemma_mod_decreases(isize::MAX as nat, align as nat);
        }
        let items_size: usize = match core::mem::size_of::<T>().checked_mul(capacity) {
            Some(size) => size,
            None => return None,
        };
        let info_offset: usize = match util::align_up(items_size, info_align) {
            Some(offset) => offset,
            None => return None,
        };
        let size: usize = match info_offset.checked_add(info_size) {
            Some(size) => size,
            None => return None,
        };
        match Layout::from_size_align(size, align) {
            Some(layout) => Some((layout, info_offset)),
            None => None,
        }
    }

    /// Returns storage without room for any element, which needs no memory.
    pub fn empty() -> (r: Self)
        ensures
            r.wf(),
            r@ == Seq::<T>::empty(),
            r.capacity() == 0,
    {
        TableRef { items: Vec::new(), capacity: 0 }
    }

    /// Allocates storage with room for `capacity` elements.
    fn allocate(capacity: usize) -> (r: Self)
        requires
            Self::has_layout(capacity as int),
        ensures
            r.wf(),
            r@ == Seq::<T>::empty(),
            r.capacity() == capacity,
    {
        let _layout = Self::layout(capacity).unwrap();
        TableRef { items: Vec::with_capacity(capacity), capacity }
    }

    /// Allocates storage with room for `capacity` elements, which needs no memory if there are none.
    fn with_capacity(capacity: usize) -> (r: Self)
        requires
            capacity > 0 ==> Self::has_layout(capacity as int),
        ensures
            r.wf(),
            r@ == Seq::<T>::empty(),
            r.capacity() == capacity,
    {
        if capacity > 0 {
            Self::allocate(capacity)
        } else {
            Self::empty()
        }
    }
}

/// The least number of elements that a vector makes room for when it is pushed to.
pub const MIN_CAPACITY: usize = 4;

/// The number of elements that storage with room for `capacity` gets room for when it needs room for
/// `required`: at least twice as many, so that a vector is not moved often.
pub open spec fn expanded_capacity(capacity: int, required: int) -> int {
    max_int(
        MIN_CAPACITY as int,
        max_int(
            required,
            if 2 * capacity <= usize::MAX {
                2 * capacity
            } else {
                usize::MAX as int
            },
        ),
    )
}

/// The number of elements that storage with room for `capacity` gets room for when it needs room for
/// `required`.
fn do_expanded_capacity(capacity: usize, required: usize) -> (r: usize)
    ensures
        r == expanded_capacity(capacity as int, required as int),
{
    let doubled: usize = if capacity <= usize::MAX / 2 {
        2 * capacity
    } else {
        usize::MAX
    };
    max_usize(MIN_CAPACITY, max_usize(required, doubled))
}

/// Whether the elements of a sequence are clones of those of another.
pub open spec fn cloned_seq<T: Clone>(from: Seq<T>, to: Seq<T>) -> bool {
    &&& from.len() == to.len()
    &&& forall|i: int| 0 <= i < from.len() ==> cloned::<T>(from[i], #[trigger] to[i])
}

/// If clones are the same as what they are clones of, so are sequences of clones.
pub proof fn exact_clones_make_the_same_seq<T: Clone>(from: Seq<T>, to: Seq<T>)
    requires
        cloned_seq(from, to),
        forall|a: T, b: T| #[trigger] cloned::<T>(a, b) ==> a == b,
    ensures
        from == to,
{
    assert(from =~= to) by {
        assert forall|i: int| 0 <= i < from.len() implies from[i] == to[i] by {
            assert(cloned::<T>(from[i], to[i]));
        }
    }
}

/// A contiguous push-only array type whose elements stay in place until no reader can see them.
pub struct SyncPushVec<T> {
    current: TableRef<T>,
    /// The storage that has been replaced and that a reader may still see.
    retired: RetireList<TableRef<T>>,
}

impl<T> SyncPushVec<T> {
    /// The elements.
    pub closed spec fn view(self) -> Seq<T> {
        self.current@
    }

    /// The storage in use.
    pub closed spec fn table(self) -> TableRef<T> {
        self.current
    }

    /// The retired storage, the oldest first.
    pub closed spec fn retired(self) -> Seq<(u64, TableRef<T>)> {
        self.retired@
    }

    /// Whether the vector is consistent.
    pub closed spec fn wf(self) -> bool {
        self.current.wf() && self.retired.wf()
    }

    /// The number of elements that there is room for.
    pub open spec fn capacity(self) -> usize {
        self.table().capacity()
    }

    /// What holds of every vector that is consistent.
    pub proof fn lemma_wf(self)
        requires
            self.wf(),
        ensures
            self@ == self.table()@,
            self@.len() <= self.capacity(),
    {
    }

    /// Whether the collector knows the flags of all retired storage.
    pub open spec fn attached_to<C>(self, collector: CollectorView<C>) -> bool {
        retired::attached(self.retired(), collector)
    }

    /// Whether this is `before` with other storage in use. The old one is retired, unless it needs no
    /// memory.
    pub open spec fn replaces<C>(
        self,
        before: Self,
        collector: CollectorView<C>,
        collector_before: CollectorView<C>,
    ) -> bool {
        if before.capacity() == 0 {
            &&& self.retired() == before.retired()
            &&& collector == collector_before
        } else {
            &&& self.retired() == before.retired().push((collector_before.next_id, before.table()))
            &&& collector == collector_before.deferred_new_id()
        }
    }

    /// Whether the storage in use can be replaced: ids are left.
    pub open spec fn can_replace<C>(self, collector: CollectorView<C>) -> bool {
        self.capacity() > 0 ==> collector.next_id < u64::MAX
    }

    /// Whether room for `additional` more elements can be made, if it has to be.
    pub open spec fn can_reserve<C>(self, additional: int, collector: CollectorView<C>) -> bool {
        self@.len() + additional > self.capacity() ==> {
            &&& self@.len() + additional <= usize::MAX
            &&& self.can_replace(collector)
            &&& TableRef::<T>::has_layout(
                expanded_capacity(self.capacity() as int, self@.len() + additional),
            )
        }
    }

    /// Whether room for `additional` more elements can be made, if it has to be.
    pub fn may_reserve<C>(&self, collector: &Collector<C>, additional: usize) -> (r: bool)
        requires
            self.wf(),
        ensures
            r == self.can_reserve(additional as int, collector@),
    {
        if self.current.capacity - self.current.items.len() >= additional {
            return true;
        }
        match self.current.items.len().checked_add(additional) {
            Some(required) => self.may_replace_storage(collector) && TableRef::<T>::layout(
                do_expanded_capacity(self.current.capacity, required),
            ).is_some(),
            None => false,
        }
    }

    /// Whether the contents can be replaced with `len` elements, with room for `capacity`.
    pub fn may_replace<C>(&self, collector: &Collector<C>, len: usize, capacity: usize) -> (r: bool)
        requires
            self.wf(),
        ensures
            r == {
                let needed = max_int(len as int, capacity as int);
                self.can_replace(collector@) && (needed > 0 ==> TableRef::<T>::has_layout(needed))
            },
    {
        let needed: usize = max_usize(len, capacity);
        self.may_replace_storage(collector) && (needed == 0 || TableRef::<T>::layout(
            needed,
        ).is_some())
    }

    /// Whether the storage in use can be replaced: ids are left.
    fn may_replace_storage<C>(&self, collector: &Collector<C>) -> (r: bool)
        ensures
            r == self.can_replace(collector@),
    {
        self.current.capacity == 0 || collector.has_ids()
    }

    /// Creates an empty vector. It will not allocate until it is first pushed to.
    pub fn new() -> (r: Self)
        ensures
            r.wf(),
            r@ == Seq::<T>::empty(),
            r.capacity() == 0,
            r.retired().len() == 0,
    {
        Self::with_capacity(0)
    }

    /// Creates an empty vector with room for `capacity` elements.
    pub fn with_capacity(capacity: usize) -> (r: Self)
        requires
            capacity > 0 ==> TableRef::<T>::has_layout(capacity as int),
        ensures
            r.wf(),
            r@ == Seq::<T>::empty(),
            r.capacity() == capacity,
            r.retired().len() == 0,
    {
        SyncPushVec { current: TableRef::with_capacity(capacity), retired: RetireList::new() }
    }

    /// Creates a vector with the elements.
    pub fn from_iter(items: Vec<T>) -> (r: Self)
        requires
            items@.len() > 0 ==> TableRef::<T>::has_layout(items@.len() as int),
        ensures
            r.wf(),
            r@ == items@,
            r.capacity() == items@.len(),
            r.retired().len() == 0,
    {
        let capacity: usize = items.len();
        SyncPushVec { current: TableRef { items, capacity }, retired: RetireList::new() }
    }

    /// Extracts a mutable slice of the entire vector.
    pub fn as_mut_slice(&mut self) -> (r: &mut [T])
        requires
            old(self).wf(),
        ensures
            r@ == old(self)@,
            final(self)@ == final(r)@,
            final(r)@.len() == r@.len() ==> final(self).wf(),
            final(self).capacity() == old(self).capacity(),
            final(self).retired() == old(self).retired(),
    {
        self.current.items.as_mut_slice()
    }

    /// Creates a [Read] handle from a pinned region: the thread that the `Pin` speaks of is pinned.
    ///
    /// Use [crate::collect::pin] to get a `Pin` instance.
    pub fn read<'a>(&'a self, pin: Pin<'a>) -> (r: Read<'a, T>)
        ensures
            r.table() == self,
            pin@.state == State::Pinned,
    {
        proof {
            use_type_invariant(pin);
        }
        let _pin = pin;
        Read { table: self }
    }

    /// Creates a [Write] handle from a mutable reference.
    pub fn write<'a, C>(&'a mut self, collector: &'a mut Collector<C>) -> (r: Write<'a, T, C>)
        requires
            old(self).wf(),
            old(collector).wf(),
            old(self).attached_to(old(collector)@),
        ensures
            r.wf(),
            r.table().table() == old(self).table(),
            retired::pruned(
                old(self).retired(),
                r.table().retired(),
                r.collector()@,
                old(collector)@,
            ),
            *final(r.table) == *final(self),
            *final(r.collector) == *final(collector),
    {
        let mut write = Write { table: self, collector };
        write.prune();
        write
    }

    /// Creates a [Write] handle from a mutable reference.
    ///
    /// This does not free old storage unlike [SyncPushVec::write].
    /// Instead [Write::prune] must be manually called to free it.
    pub fn write_no_prune<'a, C>(&'a mut self, collector: &'a mut Collector<C>) -> (r: Write<
        'a,
        T,
        C,
    >)
        requires
            old(self).wf(),
            old(collector).wf(),
            old(self).attached_to(old(collector)@),
        ensures
            r.wf(),
            r.table() == *old(self),
            r.collector() == *old(collector),
            *final(r.table) == *final(self),
            *final(r.collector) == *final(collector),
    {
        Write { table: self, collector }
    }

    /// Drops the vector and all retired storage. The collector forgets the flags of the latter.
    pub fn drop_impl<C>(self, collector: &mut Collector<C>)
        requires
            self.wf(),
            old(collector).wf(),
        ensures
            final(collector).wf(),
            final(collector)@ == retired::forgotten(self.retired(), old(collector)@),
    {
        self.detach(collector);
    }

    /// Lets the collector forget the flags of all retired storage. The vector can only be dropped after
    /// that, which does not need the collector any more.
    pub fn detach<C>(&self, collector: &mut Collector<C>)
        requires
            self.wf(),
            old(collector).wf(),
        ensures
            final(collector).wf(),
            final(collector)@ == retired::forgotten(self.retired(), old(collector)@),
    {
        self.retired.forget_all(collector);
    }
}

/// A handle to a [SyncPushVec] with read access.
pub struct Read<'a, T> {
    table: &'a SyncPushVec<T>,
}

impl<T> Copy for Read<'_, T> {}

impl<T> Clone for Read<'_, T> {
    fn clone(&self) -> (r: Self)
        ensures
            r == *self,
    {
        *self
    }
}

impl<'a, T> Read<'a, T> {
    /// The vector that is read.
    pub closed spec fn table(self) -> &'a SyncPushVec<T> {
        self.table
    }

    /// Returns the number of elements the vector can hold without reallocating.
    pub fn capacity(self) -> (r: usize)
        ensures
            r == self.table().capacity(),
    {
        self.table.current.capacity
    }

    /// Returns the number of elements in the vector.
    pub fn len(self) -> (r: usize)
        ensures
            r == self.table()@.len(),
    {
        self.table.current.items.len()
    }

    /// Extracts a slice containing the entire vector.
    pub fn as_slice(self) -> (r: &'a [T])
        ensures
            r@ == self.table()@,
    {
        self.table.current.items.as_slice()
    }
}

/// A handle to a [SyncPushVec] with write access.
pub struct Write<'a, T, C> {
    /// The vector that is written to.
    pub table: &'a mut SyncPushVec<T>,
    /// The collector that is told of retired storage.
    pub collector: &'a mut Collector<C>,
}

impl<'a, T, C> Write<'a, T, C> {
    /// The vector that is written to.
    pub open spec fn table(self) -> SyncPushVec<T> {
        *self.table
    }

    /// The collector that is told of retired storage.
    pub open spec fn collector(self) -> Collector<C> {
        *self.collector
    }

    /// Whether the vector and the collector are consistent and belong to each other.
    pub open spec fn wf(self) -> bool {
        &&& self.table().wf()
        &&& self.collector().wf()
        &&& self.table().attached_to(self.collector()@)
    }

    /// Creates a [Read] handle which gives access to read operations.
    pub fn read(&self) -> (r: Read<'_, T>)
        ensures
            *r.table() == self.table(),
    {
        Read { table: &*self.table }
    }

    /// Frees old unused storage
    pub fn prune(&mut self)
        requires
            old(self).wf(),
        ensures
            final(self).wf(),
            final(self).table().table() == old(self).table().table(),
            retired::pruned(
                old(self).table().retired(),
                final(self).table().retired(),
                final(self).collector()@,
                old(self).collector()@,
            ),
            *final(final(self).table) == *final(old(self).table),
            *final(final(self).collector) == *final(old(self).collector),
    {
        self.table.retired.prune(self.collector);
    }

    fn replace_table(&mut self, new_table: TableRef<T>)
        requires
            old(self).wf(),
            old(self).table().can_replace(old(self).collector()@),
            new_table.wf(),
        ensures
            final(self).wf(),
            final(self).table().table() == new_table,
            final(self).table().replaces(
                old(self).table(),
                final(self).collector()@,
                old(self).collector()@,
            ),
            *final(final(self).table) == *final(old(self).table),
            *final(final(self).collector) == *final(old(self).collector),
    {
        let mut table = new_table;
        core::mem::swap(&mut self.table.current, &mut table);
        if table.capacity == 0 {
            return;
        }
        self.table.retired.retire(table, self.collector);
    }

    /// Replaces the content of the vector with the elements.
    /// `capacity` specifies the new capacity if it's greater than the number of elements.
    pub fn replace(&mut self, items: Vec<T>, capacity: usize)
        requires
            old(self).wf(),
            old(self).table().can_replace(old(self).collector()@),
            max_int(items@.len() as int, capacity as int) > 0 ==> TableRef::<T>::has_layout(
                max_int(items@.len() as int, capacity as int),
            ),
        ensures
            final(self).wf(),
            final(self).table()@ == items@,
            final(self).table().capacity() == max_int(items@.len() as int, capacity as int),
            final(self).table().replaces(
                old(self).table(),
                final(self).collector()@,
                old(self).collector()@,
            ),
            *final(final(self).table) == *final(old(self).table),
            *final(final(self).collector) == *final(old(self).collector),
    {
        let capacity: usize = max_usize(items.len(), capacity);
        let mut table = TableRef::with_capacity(capacity);
        let ghost all = items@;
        let mut items = items;
        table.items.append(&mut items);
        assert(table@ =~= all);
        self.replace_table(table);
    }
}

impl<'a, T: Clone, C> Write<'a, T, C> {
    /// Whether `after` is `before` after room for `additional` more elements has been made, if there
    /// was not enough.
    pub open spec fn reserved(
        before: SyncPushVec<T>,
        after: SyncPushVec<T>,
        collector: CollectorView<C>,
        collector_before: CollectorView<C>,
        additional: int,
    ) -> bool {
        if before@.len() + additional <= before.capacity() {
            after == before && collector == collector_before
        } else {
            &&& after.replaces(before, collector, collector_before)
            &&& cloned_seq(before@, after@)
            &&& after.capacity() == expanded_capacity(
                before.capacity() as int,
                before@.len() + additional,
            )
        }
    }

    /// Replaces the storage with one that has room for `additional` more elements, and clones the
    /// elements into it.
    fn expand_by(&mut self, additional: usize)
        requires
            old(self).wf(),
            old(self).table()@.len() + additional > old(self).table().capacity(),
            old(self).table().can_reserve(additional as int, old(self).collector()@),
        ensures
            final(self).wf(),
            Self::reserved(
                old(self).table(),
                final(self).table(),
                final(self).collector()@,
                old(self).collector()@,
                additional as int,
            ),
            *final(final(self).table) == *final(old(self).table),
            *final(final(self).collector) == *final(old(self).collector),
    {
        let required: usize = self.table.current.items.len() + additional;
        let new_capacity: usize = do_expanded_capacity(self.table.current.capacity, required);
        let mut table = TableRef::allocate(new_capacity);
        let ghost before = self.table@;
        let mut i: usize = 0;
        while i < self.table.current.items.len()
            invariant
                *self == *old(self),
                before == self.table@,
                i <= before.len(),
                table@.len() == i,
                table.capacity() == new_capacity,
                forall|j: int| 0 <= j < i ==> cloned::<T>(before[j], #[trigger] table@[j]),
            decreases before.len() - i,
        {
            table.items.push(self.table.current.items[i].clone());
            i = i + 1;
        }
        self.replace_table(table);
    }

    /// Reserves capacity for at least `additional` more elements.
    pub fn reserve(&mut self, additional: usize)
        requires
            old(self).wf(),
            old(self).table().can_reserve(additional as int, old(self).collector()@),
        ensures
            final(self).wf(),
            Self::reserved(
                old(self).table(),
                final(self).table(),
                final(self).collector()@,
                old(self).collector()@,
                additional as int,
            ),
            final(self).table()@.len() == old(self).table()@.len(),
            final(self).table()@.len() + additional <= final(self).table().capacity(),
            *final(final(self).table) == *final(old(self).table),
            *final(final(self).collector) == *final(old(self).collector),
    {
        if self.table.current.capacity - self.table.current.items.len() < additional {
            self.expand_by(additional);
        }
    }

    /// Appends an element to the back of the vector. Returns a reference to it and its index.
    pub fn push(&mut self, value: T) -> (r: (&T, usize))
        requires
            old(self).wf(),
            old(self).table().can_reserve(1, old(self).collector()@),
        ensures
            final(self).wf(),
            *r.0 == value,
            r.1 == old(self).table()@.len(),
            exists|reserved: SyncPushVec<T>|
                {
                    &&& #[trigger] Self::reserved(
                        old(self).table(),
                        reserved,
                        final(self).collector()@,
                        old(self).collector()@,
                        1,
                    )
                    &&& final(self).table()@ == reserved@.push(value)
                    &&& final(self).table().capacity() == reserved.capacity()
                    &&& final(self).table().retired() == reserved.retired()
                },
            *final(final(self).table) == *final(old(self).table),
            *final(final(self).collector) == *final(old(self).collector),
    {
        self.reserve(1);
        let ghost reserved = *self.table;
        let index: usize = self.table.current.items.len();
        self.table.current.items.push(value);
        proof {
            assert(Self::reserved(
                old(self).table(),
                reserved,
                self.collector()@,
                old(self).collector()@,
                1,
            ));
        }
        (&self.table.current.items[index], index)
    }

    /// Appends all elements to the back of the vector.
    pub fn extend(&mut self, items: Vec<T>)
        requires
            old(self).wf(),
            old(self).table().can_reserve(items@.len() as int, old(self).collector()@),
        ensures
            final(self).wf(),
            exists|reserved: SyncPushVec<T>|
                {
                    &&& #[trigger] Self::reserved(
                        old(self).table(),
                        reserved,
                        final(self).collector()@,
                        old(self).collector()@,
                        items@.len() as int,
                    )
                    &&& final(self).table()@ == reserved@ + items@
                    &&& final(self).table().capacity() == reserved.capacity()
                    &&& final(self).table().retired() == reserved.retired()
                },
            *final(final(self).table) == *final(old(self).table),
            *final(final(self).collector) == *final(old(self).collector),
    {
        self.reserve(items.len());
        let ghost reserved = *self.table;
        let ghost all = items@;
        let mut items = items;
        self.table.current.items.append(&mut items);
        proof {
            assert(Self::reserved(
                old(self).table(),
                reserved,
                self.collector()@,
                old(self).collector()@,
                all.len() as int,
            ));
        }
    }
}

} // verus!

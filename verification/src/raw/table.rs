//! Tables of buckets with control bytes.

use crate::raw::bitmask::{BitMask, BitMaskIter};
use crate::raw::ctrl;
use crate::raw::group::{self, Group, DELETED, EMPTY, WIDTH};
use crate::raw::probe::{self, ProbeSeq};
use crate::util::{self, Layout};
use vstd::arithmetic::{div_mod, power2};
use vstd::layout;
use vstd::prelude::*;

verus! {

/// Primary hash function, used to select the initial bucket to probe from.
pub fn h1(hash: u64) -> (r: usize)
    ensures
        r == hash as usize,
{
    // On 32-bit platforms we simply ignore the higher hash bits.
    #[verifier::truncate]
    (hash as usize)
}

/// The top 7 bits of a hash. While the hash is normally a full 64-bit value, some hash functions
/// produce a `usize` result instead, so on 32-bit platforms these are the top bits of a `u32`.
pub open spec fn tag(hash: u64) -> u8 {
    ((hash >> ((usize::BITS - 7) as u64)) & 0x7fu64) as u8
}

/// Secondary hash function, saved in the low 7 bits of the control byte.
pub fn h2(hash: u64) -> (r: u8)
    ensures
        r == tag(hash),
        group::full_byte(r),
{
    let top7: u64 = hash >> ((usize::BITS - 7) as u64);
    assert((top7 & 0x7fu64) as u8 <= 0x7f) by (bit_vector);
    #[verifier::truncate]
    ((top7 & 0x7f) as u8)
}

/// A tag is the control byte of a full bucket.
pub proof fn lemma_tag(hash: u64)
    ensures
        group::full_byte(tag(hash)),
{
    let top7: u64 = hash >> ((usize::BITS - 7) as u64);
    assert((top7 & 0x7fu64) as u8 <= 0x7f) by (bit_vector);
}

/// The greater of two numbers.
pub open spec fn max_int(a: int, b: int) -> int {
    if a < b {
        b
    } else {
        a
    }
}

/// Returns the greater of two numbers.
pub fn max_usize(a: usize, b: usize) -> (r: usize)
    ensures
        r == max_int(a as int, b as int),
{
    if a < b {
        b
    } else {
        a
    }
}

/// The counters of a table.
pub struct TableInfo {
    /// Mask to get an index from a hash value. The value is one less than the
    /// number of buckets in the table.
    pub bucket_mask: usize,
    /// Number of elements that can be inserted before we need to grow the table
    pub growth_left: usize,
    /// Number of elements that have been removed from the table
    pub tombstones: usize,
}

impl TableInfo {
    /// Returns the number of buckets in the table.
    pub fn buckets(&self) -> (r: usize)
        requires
            self.bucket_mask < usize::MAX,
        ensures
            r == self.bucket_mask + 1,
    {
        self.bucket_mask + 1
    }

    /// Returns the number of control bytes of the table.
    pub fn num_ctrl_bytes(&self) -> (r: usize)
        requires
            self.bucket_mask + 1 + WIDTH <= usize::MAX,
        ensures
            r == self.bucket_mask + 1 + WIDTH,
    {
        self.buckets() + WIDTH
    }

    /// Returns an iterator-like object for a probe sequence on the table.
    ///
    /// This iterator never terminates, but is guaranteed to visit each bucket
    /// group exactly once. The loop using `probe_seq` must terminate upon
    /// reaching a group containing an empty bucket.
    pub fn probe_seq(&self, hash: u64) -> (r: ProbeSeq)
        requires
            power2::is_pow2(self.bucket_mask + 1),
        ensures
            r.stride == 0,
            r.pos == ctrl::start(hash, self.bucket_mask + 1),
            r.is_at(ctrl::start(hash, self.bucket_mask + 1), self.bucket_mask + 1, 0),
    {
        let h: usize = h1(hash);
        proof {
            probe::lemma_mask_is_mod(h, self.bucket_mask);
            div_mod::lemma_mod_twice(h as int, self.bucket_mask + 1);
        }
        ProbeSeq { pos: h & self.bucket_mask, stride: 0 }
    }
}

/// A table of buckets.
pub struct TableRef<T> {
    /// The counters of the table.
    pub info: TableInfo,
    /// The control bytes.
    pub ctrl: Vec<u8>,
    /// The elements. A bucket holds one from when it is filled until the table is freed, also
    /// after the element has been removed.
    pub buckets: Vec<Option<T>>,
    /// The hash that the element of each bucket was placed by.
    pub hashes: Ghost<Seq<u64>>,
}

impl<T> TableRef<T> {
    /// The number of buckets.
    pub open spec fn n(self) -> int {
        self.info.bucket_mask + 1
    }

    /// Whether bucket `index` holds an element of the table.
    pub open spec fn holds(self, index: int) -> bool {
        0 <= index < self.n() && group::full_byte(self.ctrl@[index])
    }

    /// The element in bucket `index`.
    pub open spec fn item(self, index: int) -> T {
        self.buckets@[index]->0
    }

    /// The elements of the table, by the buckets that they are in.
    pub open spec fn items(self) -> Map<int, T> {
        Map::new(|index: int| self.holds(index), |index: int| self.item(index))
    }

    /// The number of elements in the table.
    pub open spec fn len(self) -> nat {
        ctrl::count_full(self.ctrl@, self.n())
    }

    /// The buckets that hold an element, in order.
    pub open spec fn full(self) -> Seq<int> {
        full_from(self.ctrl@, self.n(), 0)
    }

    /// What the sequence of the buckets that hold an element is.
    pub proof fn lemma_full(self)
        requires
            self.n() >= 0,
        ensures
            self.full().len() == self.len(),
            forall|j: int| 0 <= j < self.full().len() ==> self.holds(#[trigger] self.full()[j]),
            forall|i: int, j: int|
                0 <= i < j < self.full().len() ==> #[trigger] self.full()[i]
                    < #[trigger] self.full()[j],
            forall|i: int| #[trigger] self.holds(i) ==> self.full().contains(i),
    {
        lemma_full_from(self.ctrl@, self.n(), 0);
    }

    /// The number of elements that the table holds, has held and has room for.
    pub open spec fn capacity(self) -> int {
        self.info.growth_left + self.len() + self.info.tombstones
    }

    /// Whether a search for its hash finds the element in bucket `index`.
    pub open spec fn placed(self, index: int) -> bool {
        &&& self.ctrl@[index] == tag(self.hashes@[index])
        &&& ctrl::reachable(self.ctrl@, self.n(), self.hashes@[index], index)
    }

    /// Whether the table is consistent: each bucket that is not `EMPTY` holds an element, every
    /// element can be found by its hash, the counters are right, and there is room enough for
    /// `growth_left` elements and an `EMPTY` bucket besides.
    pub open spec fn wf(self) -> bool {
        &&& ctrl::well_formed(self.ctrl@, self.n())
        &&& self.ctrl@.len() <= usize::MAX
        &&& self.buckets@.len() == self.n()
        &&& self.hashes@.len() == self.n()
        &&& forall|i: int|
            0 <= i < self.n() ==> (#[trigger] self.buckets@[i] is Some <==> self.ctrl@[i] != EMPTY)
        &&& forall|i: int| #[trigger] self.holds(i) ==> self.placed(i)
        &&& self.info.tombstones == ctrl::count_deleted(self.ctrl@, self.n())
        &&& self.capacity() < self.n()
    }

    /// Whether this is `before` after its empty bucket at `index` has been filled.
    pub open spec fn filled_from(self, before: Self, index: int, value: T, hash: u64) -> bool {
        &&& 0 <= index < before.n()
        &&& before.ctrl@[index] == EMPTY
        &&& self.n() == before.n()
        &&& self.ctrl@ == ctrl::set(before.ctrl@, before.n(), index, tag(hash))
        &&& self.buckets@ == before.buckets@.update(index, Some(value))
        &&& self.hashes@ == before.hashes@.update(index, hash)
    }

    /// Whether this is `before` after its full bucket at `index` has been marked as `DELETED`.
    pub open spec fn freed_from(self, before: Self, index: int) -> bool {
        &&& before.holds(index)
        &&& self.n() == before.n()
        &&& self.ctrl@ == ctrl::set(before.ctrl@, before.n(), index, DELETED)
        &&& self.buckets == before.buckets
        &&& self.hashes@ == before.hashes@
    }

    /// Whether this is `before` after at most one insertion or removal.
    pub open spec fn follows(self, before: Self) -> bool {
        ||| self == before
        ||| exists|index: int, value: T, hash: u64| #[trigger]
            self.filled_from(before, index, value, hash)
        ||| exists|index: int| #[trigger] self.freed_from(before, index)
    }

    /// Whether `after` differs from this table in the elements that its buckets hold only.
    spec fn same_shape(self, after: Self) -> bool {
        &&& after.info == self.info
        &&& after.ctrl == self.ctrl
        &&& after.hashes == self.hashes
        &&& after.buckets@.len() == self.buckets@.len()
        &&& forall|i: int|
            0 <= i < self.n() ==> (#[trigger] after.buckets@[i] is Some
                <==> self.buckets@[i] is Some)
    }

    /// Returns a table with one bucket and no room for any element.
    pub fn empty() -> (r: Self)
        ensures
            r.wf(),
            r.n() == 1,
            r.capacity() == 0,
            r.info.growth_left == 0,
            r.info.tombstones == 0,
            r.items() == Map::<int, T>::empty(),
    {
        proof {
            reveal(power2::is_pow2);
        }
        Self::with_buckets(1, 0)
    }

    /// The alignment of the memory of a table with the given header.
    pub open spec fn layout_align(header: Layout) -> int {
        max_int(layout::align_of::<T>() as int, max_int(header.align as int, WIDTH as int))
    }

    /// Where the header is held in the memory of a table: after the buckets.
    pub open spec fn header_offset(bucket_count: int, header: Layout) -> int {
        util::round_up(layout::size_of::<T>() * bucket_count, header.align as int)
    }

    /// The size of the memory of a table: the buckets, the header and the control bytes, which are
    /// aligned to groups.
    pub open spec fn layout_size(bucket_count: int, header: Layout) -> int {
        util::round_up(
            Self::header_offset(bucket_count, header) + header.size,
            WIDTH as int,
        ) + bucket_count + WIDTH
    }

    /// Whether there is a memory layout for a table with `bucket_count` buckets and the given header:
    /// its size, rounded up to its alignment, may not be above `isize::MAX`.
    pub open spec fn fits(bucket_count: int, header: Layout) -> bool {
        Self::layout_size(bucket_count, header) <= isize::MAX - isize::MAX as int
            % Self::layout_align(header)
    }

    /// Returns the memory layout of a table with `bucket_count` buckets and the given header, and where
    /// in it the header is.
    pub fn layout_with(bucket_count: usize, header: Layout) -> (r: Option<(Layout, usize)>)
        requires
            power2::is_pow2(header.align as int),
        ensures
            r is Some <==> Self::fits(bucket_count as int, header),
            r matches Some((layout, offset)) ==> {
                &&& layout.size == Self::layout_size(bucket_count as int, header)
                &&& layout.align == Self::layout_align(header)
                &&& offset == Self::header_offset(bucket_count as int, header)
                &&& bucket_count + WIDTH <= isize::MAX
            },
    {
        layout::layout_for_type_is_valid::<T>();
        let align: usize = max_usize(core::mem::align_of::<T>(), max_usize(header.align, WIDTH));
        let ghost buckets_size = layout::size_of::<T>() * bucket_count;
        proof {
            reveal_with_fuel(power2::is_pow2, 6);
            assert(power2::is_pow2(WIDTH as int));
            assert(buckets_size >= 0) by (nonlinear_arith)
                requires
                    buckets_size == layout::size_of::<T>() * bucket_count,
            ;
            util::lemma_round_up(buckets_size, header.align as int);
            util::lemma_round_up(
                Self::header_offset(bucket_count as int, header) + header.size,
                WIDTH as int,
            );
            div_mod::lemma_mod_decreases(isize::MAX as nat, align as nat);
        }
        // There can be padding at the start of the layout if the alignment of `T` is smaller than
        // that of the header.
        let buckets_size: usize = match core::mem::size_of::<T>().checked_mul(bucket_count) {
            Some(size) => size,
            None => return None,
        };
        let offset: usize = match util::align_up(buckets_size, header.align) {
            Some(offset) => offset,
            None => return None,
        };
        let after_header: usize = match offset.checked_add(header.size) {
            Some(offset) => offset,
            None => return None,
        };
        let ctrl_offset: usize = match util::align_up(after_header, WIDTH) {
            Some(offset) => offset,
            None => return None,
        };
        let ctrl_size: usize = match bucket_count.checked_add(WIDTH) {
            Some(size) => size,
            None => return None,
        };
        let size: usize = match ctrl_offset.checked_add(ctrl_size) {
            Some(size) => size,
            None => return None,
        };
        match Layout::from_size_align(size, align) {
            Some(layout) => Some((layout, offset)),
            None => None,
        }
    }

    /// Creates a table with `bucket_count` empty buckets and room for `growth_left` elements.
    pub(crate) fn with_buckets(bucket_count: usize, growth_left: usize) -> (r: Self)
        requires
            power2::is_pow2(bucket_count as int),
            bucket_count >= 1,
            bucket_count + WIDTH <= usize::MAX,
            growth_left < bucket_count,
        ensures
            r.wf(),
            r.n() == bucket_count,
            r.info.growth_left == growth_left,
            r.info.tombstones == 0,
            r.len() == 0,
            r.items() == Map::<int, T>::empty(),
    {
        let mut ctrl: Vec<u8> = Vec::with_capacity(bucket_count + WIDTH);
        let mut buckets: Vec<Option<T>> = Vec::with_capacity(bucket_count);
        let mut i: usize = 0;
        while i < bucket_count + WIDTH
            invariant
                bucket_count + WIDTH <= usize::MAX,
                i <= bucket_count + WIDTH,
                ctrl@.len() == i,
                forall|j: int| 0 <= j < i ==> ctrl@[j] == EMPTY,
                buckets@.len() == if i <= bucket_count {
                    i
                } else {
                    bucket_count
                },
                forall|j: int| 0 <= j < buckets@.len() ==> #[trigger] buckets@[j] is None,
            decreases bucket_count + WIDTH - i,
        {
            ctrl.push(EMPTY);
            if i < bucket_count {
                buckets.push(None);
            }
            i = i + 1;
        }
        let r = TableRef {
            info: TableInfo { bucket_mask: bucket_count - 1, growth_left, tombstones: 0 },
            ctrl,
            buckets,
            hashes: Ghost(Seq::new(bucket_count as nat, |i: int| 0u64)),
        };
        proof {
            ctrl::lemma_counts_zero(r.ctrl@, r.n());
            if r.n() < 16 {
                ctrl::lemma_small_pow2(r.n());
            }
            assert(r.items() =~= Map::<int, T>::empty());
        }
        r
    }

    /// Returns the element in bucket `index`.
    pub fn bucket(&self, index: usize) -> (r: &T)
        requires
            self.wf(),
            index < self.n(),
            self.ctrl@[index as int] != EMPTY,
        ensures
            *r == self.item(index as int),
    {
        self.buckets[index].as_ref().unwrap()
    }

    /// Returns the element in bucket `index` for changing it.
    fn bucket_mut(&mut self, index: usize) -> (r: &mut T)
        requires
            old(self).wf(),
            old(self).holds(index as int),
        ensures
            *r == old(self).item(index as int),
            final(self).wf(),
            final(self).info == old(self).info,
            final(self).ctrl == old(self).ctrl,
            final(self).hashes == old(self).hashes,
            final(self).items() == old(self).items().insert(index as int, *final(r)),
    {
        proof {
            let before = *self;
            assert forall|after: Self| before.same_shape(after) implies #[trigger] after.wf() by {
                assert forall|i: int| #[trigger] after.holds(i) implies after.placed(i) by {
                    assert(before.holds(i));
                }
            }
        }
        self.buckets[index].as_mut().unwrap()
    }

    /// Sets a control byte, and possibly also the replicated control byte at
    /// the end of the array.
    fn set_ctrl(&mut self, index: usize, byte: u8)
        requires
            ctrl::well_formed(old(self).ctrl@, old(self).n()),
            old(self).ctrl@.len() <= usize::MAX,
            index < old(self).n(),
        ensures
            final(self).ctrl@ == ctrl::set(old(self).ctrl@, old(self).n(), index as int, byte),
            final(self).info == old(self).info,
            final(self).buckets == old(self).buckets,
            final(self).hashes == old(self).hashes,
    {
        // Replicate the first `WIDTH` control bytes at the end of
        // the array without using a branch:
        // - If index >= WIDTH then index == index2.
        // - Otherwise index2 == self.bucket_mask + 1 + index.
        let shifted: usize = index.wrapping_sub(WIDTH);
        let mask: usize = self.info.bucket_mask;
        proof {
            probe::lemma_mask_is_mod(shifted, mask);
            lemma_replica_index(index, mask);
        }
        let index2: usize = (shifted & mask) + WIDTH;
        self.ctrl.set(index, byte);
        self.ctrl.set(index2, byte);
    }

    /// Searches for an empty bucket which is suitable for inserting a new element.
    ///
    /// Tombstones are never reused: a lookup stops only on an empty bucket, so filling a
    /// `DELETED` bucket in the middle of a probe sequence would hide the elements behind it.
    pub fn find_insert_slot(&self, hash: u64) -> (r: usize)
        requires
            self.wf(),
        ensures
            r < self.n(),
            self.ctrl@[r as int] == EMPTY,
            ctrl::reachable(self.ctrl@, self.n(), hash, r as int),
            self.n() >= 16 ==> ctrl::insert_slot(self.ctrl@, self.n(), hash, r as int),
    {
        let mask: usize = self.info.bucket_mask;
        let mut probe_seq = self.info.probe_seq(hash);
        let ghost n = self.n();
        let ghost first = ctrl::start(hash, n);
        let ghost mut step: int = 0;
        let ghost empty = ctrl::lemma_some_empty(self.ctrl@, n);
        loop
            invariant
                self.wf(),
                mask == self.info.bucket_mask,
                n == self.n(),
                first == ctrl::start(hash, n),
                0 <= empty < n,
                self.ctrl@[empty] == EMPTY,
                probe_seq.is_at(first, n, step),
                ctrl::search_gets_to(self.ctrl@, n, hash, step),
            decreases ctrl::steps(n) - step,
        {
            let pos: usize = probe_seq.pos;
            proof {
                ctrl::lemma_group_pos_bound(hash, n, step);
            }
            let group = Group::load(&self.ctrl, pos);
            let mask_of_empty = group.match_empty();
            if let Some(bit) = mask_of_empty.lowest_set_bit() {
                proof {
                    ctrl::lemma_group_byte(self.ctrl@, n, pos as int, bit as int);
                    probe::lemma_mask_is_mod((pos + bit) as usize, mask);
                    assert(self.ctrl@[pos + bit] == group@[bit as int]);
                    assert forall|before: int| 0 <= before < bit implies self.ctrl@[#[trigger] (pos
                        + before)] != EMPTY by {
                        assert(self.ctrl@[pos + before] == group@[before]);
                        assert(!mask_of_empty.has(before));
                    }
                    assert(ctrl::first_empty_at(self.ctrl@, n, hash, step, bit as int));
                }
                let result: usize = (pos + bit) & mask;
                // In tables smaller than the group width, trailing control
                // bytes outside the range of the table are filled with
                // EMPTY entries. These will unfortunately trigger a
                // match, but once masked may point to a full bucket that
                // is already occupied. We detect this situation here and
                // perform a second scan starting at the beginning of the
                // table. This second scan is guaranteed to find an empty
                // slot (due to the load factor) before hitting the trailing
                // control bytes (containing EMPTY).
                if self.ctrl[result] != EMPTY {
                    return self.first_empty_of_small_table(hash);
                }
                proof {
                    if n >= 16 {
                        ctrl::lemma_insert_slot(self.ctrl@, n, hash, result as int);
                    } else {
                        assert(ctrl::in_group(hash, n, 0, result as int));
                    }
                }
                return result;
            }
            proof {
                assert(!ctrl::group_has_empty(self.ctrl@, pos as int)) by {
                    assert forall|offset: int| 0 <= offset < 16 implies #[trigger] self.ctrl@[pos
                        + offset] != EMPTY by {
                        assert(self.ctrl@[pos + offset] == group@[offset]);
                        assert(!mask_of_empty.has(offset));
                    }
                }
                ctrl::lemma_search_ends(self.ctrl@, n, hash, step, empty);
                probe::lemma_probe_step(first, n, step);
            }
            probe_seq.move_next(mask);
            proof {
                step = step + 1;
            }
        }
    }

    /// Returns the first empty bucket of a table with fewer buckets than a group has bytes.
    fn first_empty_of_small_table(&self, hash: u64) -> (r: usize)
        requires
            self.wf(),
            self.n() < 16,
        ensures
            r < self.n(),
            self.ctrl@[r as int] == EMPTY,
            ctrl::reachable(self.ctrl@, self.n(), hash, r as int),
    {
        let ghost n = self.n();
        let ghost empty = ctrl::lemma_some_empty(self.ctrl@, n);
        let group = Group::load(&self.ctrl, 0);
        let mask_of_empty = group.match_empty();
        assert(group@[empty] == self.ctrl@[empty]);
        assert(mask_of_empty.has(empty));
        let r: usize = mask_of_empty.lowest_set_bit().unwrap();
        assert(group@[r as int] == self.ctrl@[r as int]);
        assert(ctrl::search_gets_to(self.ctrl@, n, hash, 0));
        proof {
            ctrl::lemma_group_pos_bound(hash, n, 0);
        }
        assert(ctrl::in_group(hash, n, 0, r as int));
        r
    }

    /// Fills the empty bucket at `index` with `value` and marks it as full with the tag of `hash`.
    pub fn insert_at(&mut self, index: usize, value: T, hash: u64)
        requires
            old(self).wf(),
            old(self).info.growth_left > 0,
            index < old(self).n(),
            old(self).ctrl@[index as int] == EMPTY,
            ctrl::reachable(old(self).ctrl@, old(self).n(), hash, index as int),
        ensures
            final(self).wf(),
            final(self).n() == old(self).n(),
            final(self).ctrl@ == ctrl::set(
                old(self).ctrl@,
                old(self).n(),
                index as int,
                tag(hash),
            ),
            final(self).items() == old(self).items().insert(index as int, value),
            final(self).hashes@ == old(self).hashes@.update(index as int, hash),
            final(self).filled_from(*old(self), index as int, value, hash),
            final(self).info.growth_left == old(self).info.growth_left - 1,
            final(self).info.tombstones == old(self).info.tombstones,
            final(self).len() == old(self).len() + 1,
    {
        let byte: u8 = h2(hash);
        self.buckets.set(index, Some(value));
        self.info.growth_left = self.info.growth_left - 1;
        self.set_ctrl(index, byte);
        proof {
            self.hashes@ = self.hashes@.update(index as int, hash);
            let before = old(self).ctrl@;
            let n = old(self).n();
            ctrl::lemma_set(before, n, index as int, byte);
            ctrl::lemma_counts_change(before, self.ctrl@, n, index as int);
            assert forall|i: int| #[trigger] self.holds(i) implies self.placed(i) by {
                if i != index {
                    assert(old(self).holds(i));
                }
                ctrl::lemma_set_keeps_reachable(
                    before,
                    n,
                    index as int,
                    byte,
                    self.hashes@[i],
                    i,
                );
            }
            assert(self.items() =~= old(self).items().insert(index as int, value)) by {
                assert forall|i: int| i != index implies self.holds(i) == old(self).holds(i) by {}
            }
        }
    }

    /// Marks the full bucket at `index` as `DELETED`. Its element stays in it.
    pub fn remove_at(&mut self, index: usize)
        requires
            old(self).wf(),
            old(self).holds(index as int),
        ensures
            final(self).wf(),
            final(self).n() == old(self).n(),
            final(self).ctrl@ == ctrl::set(old(self).ctrl@, old(self).n(), index as int, DELETED),
            final(self).items() == old(self).items().remove(index as int),
            final(self).item(index as int) == old(self).item(index as int),
            final(self).buckets@[index as int] is Some,
            final(self).hashes@ == old(self).hashes@,
            final(self).buckets == old(self).buckets,
            final(self).freed_from(*old(self), index as int),
            final(self).info.growth_left == old(self).info.growth_left,
            final(self).info.tombstones == old(self).info.tombstones + 1,
            final(self).len() == old(self).len() - 1,
    {
        let ghost before = self.ctrl@;
        let ghost n = self.n();
        self.set_ctrl(index, DELETED);
        proof {
            ctrl::lemma_set(before, n, index as int, DELETED);
            ctrl::lemma_counts_change(before, self.ctrl@, n, index as int);
            ctrl::lemma_counts_bound(self.ctrl@, n);
        }
        self.info.tombstones = self.info.tombstones + 1;
        proof {
            assert forall|i: int| #[trigger] self.holds(i) implies self.placed(i) by {
                assert(old(self).holds(i));
                ctrl::lemma_set_keeps_reachable(
                    before,
                    n,
                    index as int,
                    DELETED,
                    self.hashes@[i],
                    i,
                );
            }
            assert(self.items() =~= old(self).items().remove(index as int)) by {
                assert forall|i: int| i != index implies self.holds(i) == old(self).holds(i) by {}
            }
        }
    }

    /// Searches for an element in the table. Returns the bucket of an element with the hash `hash`
    /// that `eq` accepts, or else the first empty bucket that the search met.
    pub fn search(&self, hash: u64, eq: impl Fn(&T) -> bool) -> (r: Result<usize, usize>)
        requires
            self.wf(),
            forall|value: &T| call_requires(eq, (value,)),
        ensures
            match r {
                Ok(index) => {
                    &&& self.holds(index as int)
                    &&& self.ctrl@[index as int] == tag(hash)
                    &&& call_ensures(eq, (&self.item(index as int),), true)
                },
                Err(index) => {
                    &&& index < self.n()
                    &&& self.n() >= 16 ==> ctrl::insert_slot(
                        self.ctrl@,
                        self.n(),
                        hash,
                        index as int,
                    )
                    &&& forall|i: int|
                        #[trigger] self.holds(i) && self.hashes@[i] == hash ==> call_ensures(
                            eq,
                            (&self.item(i),),
                            false,
                        )
                },
            },
    {
        let h2_hash: u8 = h2(hash);
        let mask: usize = self.info.bucket_mask;
        let mut probe_seq = self.info.probe_seq(hash);
        let ghost n = self.n();
        let ghost first = ctrl::start(hash, n);
        let ghost mut step: int = 0;
        let ghost empty = ctrl::lemma_some_empty(self.ctrl@, n);
        loop
            invariant
                self.wf(),
                forall|value: &T| call_requires(eq, (value,)),
                mask == self.info.bucket_mask,
                n == self.n(),
                h2_hash == tag(hash),
                group::full_byte(h2_hash),
                first == ctrl::start(hash, n),
                0 <= empty < n,
                self.ctrl@[empty] == EMPTY,
                probe_seq.is_at(first, n, step),
                ctrl::search_gets_to(self.ctrl@, n, hash, step),
                forall|i: int, k: int|
                    self.holds(i) && self.ctrl@[i] == h2_hash && 0 <= k < step
                        && #[trigger] ctrl::in_group(hash, n, k, i) ==> call_ensures(
                        eq,
                        (&self.item(i),),
                        false,
                    ),
            decreases ctrl::steps(n) - step,
        {
            let pos: usize = probe_seq.pos;
            proof {
                ctrl::lemma_group_pos_bound(hash, n, step);
            }
            let group = Group::load(&self.ctrl, pos);
            let matches = group.match_byte(h2_hash);
            let mut bitmask = matches.into_iter();
            let mut more: bool = true;
            while more
                invariant
                    self.wf(),
                    forall|value: &T| call_requires(eq, (value,)),
                    mask == self.info.bucket_mask,
                    n == self.n(),
                    h2_hash == tag(hash),
                    group::full_byte(h2_hash),
                    0 <= pos < n,
                    group@ == self.ctrl@.subrange(pos as int, pos + WIDTH),
                    forall|i: int|
                        0 <= i < WIDTH ==> (#[trigger] matches.has(i) <==> group@[i] == h2_hash),
                    forall|i: int| #[trigger] bitmask.mask().has(i) ==> matches.has(i),
                    forall|i: int| #[trigger]
                        matches.has(i) && !bitmask.mask().has(i) ==> call_ensures(
                            eq,
                            (&self.item(probe::bucket_at(pos as int, i, n)),),
                            false,
                        ),
                    !more ==> forall|i: int| !bitmask.mask().has(i),
                decreases
                        (if more {
                            1int
                        } else {
                            0
                        }) + bitmask.left(),
            {
                match bitmask.next() {
                    Some(bit) => {
                        proof {
                            ctrl::lemma_group_byte(self.ctrl@, n, pos as int, bit as int);
                            probe::lemma_mask_is_mod((pos + bit) as usize, mask);
                            assert(matches.has(bit as int));
                            assert(self.ctrl@[pos + bit] == group@[bit as int]);
                        }
                        let index: usize = (pos + bit) & mask;
                        if eq(self.bucket(index)) {
                            return Ok(index);
                        }
                    },
                    None => {
                        more = false;
                    },
                }
            }
            proof {
                assert forall|i: int, k: int|
                    self.holds(i) && self.ctrl@[i] == h2_hash && 0 <= k < step + 1
                        && #[trigger] ctrl::in_group(hash, n, k, i) implies call_ensures(
                    eq,
                    (&self.item(i),),
                    false,
                ) by {
                    if k == step {
                        ctrl::lemma_bucket_in_group(self.ctrl@, n, pos as int, i);
                        let offset = ctrl::offset_in_group(pos as int, n, i);
                        assert(group@[offset] == h2_hash);
                        assert(matches.has(offset));
                    }
                }
            }
            let mask_of_empty = group.match_empty();
            if let Some(bit) = mask_of_empty.lowest_set_bit() {
                proof {
                    ctrl::lemma_group_byte(self.ctrl@, n, pos as int, bit as int);
                    probe::lemma_mask_is_mod((pos + bit) as usize, mask);
                    assert(self.ctrl@[pos + bit] == group@[bit as int]);
                    assert forall|before: int| 0 <= before < bit implies self.ctrl@[#[trigger] (pos
                        + before)] != EMPTY by {
                        assert(self.ctrl@[pos + before] == group@[before]);
                        assert(!mask_of_empty.has(before));
                    }
                    assert(ctrl::first_empty_at(self.ctrl@, n, hash, step, bit as int));
                    assert forall|i: int| #[trigger]
                        self.holds(i) && self.hashes@[i] == hash implies call_ensures(
                        eq,
                        (&self.item(i),),
                        false,
                    ) by {
                        assert(self.placed(i));
                        let k = choose|k: int|
                            ctrl::search_gets_to(self.ctrl@, n, hash, k) && #[trigger] ctrl::in_group(
                                hash,
                                n,
                                k,
                                i,
                            );
                        if k > step {
                            assert(!ctrl::group_has_empty(
                                self.ctrl@,
                                ctrl::group_pos(hash, n, step),
                            ));
                        }
                    }
                }
                return Err((pos + bit) & mask);
            }
            proof {
                assert(!ctrl::group_has_empty(self.ctrl@, pos as int)) by {
                    assert forall|offset: int| 0 <= offset < 16 implies #[trigger] self.ctrl@[pos
                        + offset] != EMPTY by {
                        assert(self.ctrl@[pos + offset] == group@[offset]);
                        assert(!mask_of_empty.has(offset));
                    }
                }
                ctrl::lemma_search_ends(self.ctrl@, n, hash, step, empty);
                probe::lemma_probe_step(first, n, step);
            }
            probe_seq.move_next(mask);
            proof {
                step = step + 1;
            }
        }
    }

    /// Returns an iterator over every element in the table.
    pub fn iter(&self) -> (r: RawIterRange<'_, T>)
        requires
            self.wf(),
        ensures
            r.wf(),
            r.table() == self,
            r.rest() == full_from(self.ctrl@, self.n(), 0),
    {
        RawIterRange::new(self)
    }

    /// Returns an iterator over occupied buckets that could match a given hash.
    ///
    /// In rare cases, the iterator may return a bucket with a different hash.
    pub fn iter_hash(&self, hash: u64) -> (r: RawIterHash<'_, T>)
        requires
            self.wf(),
        ensures
            r.wf(),
            r.table() == self,
            r.hash() == hash,
            r.seen() == Set::<int>::empty(),
    {
        RawIterHash::new(self, hash)
    }

    /// Fills this table, which is empty, with `items`, each hashed with `hasher`. Also tells which
    /// bucket each of them went to.
    pub fn fill<H: Fn(&T) -> u64>(self, items: Vec<T>, hasher: H) -> (r: (
        Self,
        Ghost<Seq<int>>,
    ))
        requires
            self.wf(),
            self.items() == Map::<int, T>::empty(),
            self.len() == 0,
            self.info.tombstones == 0,
            items@.len() <= self.info.growth_left,
            forall|value: &T| call_requires(hasher, (value,)),
        ensures
            r.0.wf(),
            r.0.n() == self.n(),
            r.0.info.growth_left == self.info.growth_left - items@.len(),
            r.0.info.tombstones == 0,
            r.0.len() == items@.len(),
            r.0.filled_with(items@, r.1@),
            forall|j: int|
                0 <= j < items@.len() ==> call_ensures(
                    hasher,
                    (&items@[j],),
                    r.0.hashes@[#[trigger] r.1@[j]],
                ),
    {
        let mut table: Self = self;
        let ghost mut places: Seq<int> = Seq::empty();
        let ghost all = items@;
        assert(table.filled_with(all.subrange(0, 0), places)) by {
            assert forall|i: int| !table.holds(i) by {
                assert(table.items().dom().contains(i) == table.holds(i));
            }
        }
        for item in iter: items
            invariant
                iter.seq() == all,
                forall|value: &T| call_requires(hasher, (value,)),
                table.wf(),
                table.n() == self.n(),
                all.len() <= self.info.growth_left,
                table.info.growth_left == self.info.growth_left - iter.index(),
                table.info.tombstones == 0,
                table.len() == iter.index(),
                places.len() == iter.index(),
                table.filled_with(all.subrange(0, iter.index() as int), places),
                forall|j: int|
                    0 <= j < iter.index() ==> call_ensures(
                        hasher,
                        (&all[j],),
                        table.hashes@[#[trigger] places[j]],
                    ),
        {
            let ghost done = iter.index() as int;
            assert(item == all[done]);
            let hash: u64 = hasher(&item);
            // We can use a simpler version of insert() here since:
            // - we know there is enough space in the table.
            // - all elements are unique.
            let index: usize = table.find_insert_slot(hash);
            let ghost before = table;
            let ghost places_before = places;
            let ghost value = item;
            table.insert_at(index, item, hash);
            proof {
                places = places.push(index as int);
                assert(all.subrange(0, done).push(value) =~= all.subrange(0, done + 1));
                assert forall|j: int| 0 <= j < done implies places_before[j] != index by {
                    assert(before.holds(places_before[j]));
                }
                before.lemma_filled_push(
                    table,
                    all.subrange(0, done),
                    places_before,
                    index as int,
                    value,
                );
            }
        }
        assert(all.subrange(0, all.len() as int) =~= all);
        (table, Ghost(places))
    }

    /// Whether the table holds exactly the elements of `items`, each in the bucket that `places`
    /// gives.
    pub open spec fn filled_with(self, items: Seq<T>, places: Seq<int>) -> bool {
        &&& places.len() == items.len()
        &&& forall|j: int|
            0 <= j < items.len() ==> self.holds(#[trigger] places[j]) && self.item(places[j])
                == items[j]
        &&& forall|i: int| #[trigger] self.holds(i) ==> places.contains(i)
        &&& forall|i: int, j: int|
            0 <= i < j < places.len() ==> #[trigger] places[i] != #[trigger] places[j]
    }

    /// What a table holds after an element has been added.
    proof fn lemma_inserted(self, after: Self, index: int, value: T)
        requires
            !self.holds(index),
            0 <= index < self.n(),
            after.n() == self.n(),
            after.items() == self.items().insert(index, value),
        ensures
            forall|i: int| #[trigger] after.holds(i) <==> self.holds(i) || i == index,
            forall|i: int|
                #![trigger after.item(i)]
                after.holds(i) ==> after.item(i) == (if i == index {
                    value
                } else {
                    self.item(i)
                }),
    {
        assert forall|i: int| #[trigger] after.holds(i) <==> self.holds(i) || i == index by {
            assert(after.items().dom().contains(i) == after.holds(i));
            assert(self.items().dom().contains(i) == self.holds(i));
        }
        assert forall|i: int|
            #![trigger after.item(i)]
            after.holds(i) implies after.item(i) == (if i == index {
            value
        } else {
            self.item(i)
        }) by {
            assert(after.items()[i] == after.item(i));
            if i != index {
                assert(self.items()[i] == self.item(i));
            }
        }
    }

    proof fn lemma_filled_push(
        self,
        after: Self,
        items: Seq<T>,
        places: Seq<int>,
        index: int,
        value: T,
    )
        requires
            self.filled_with(items, places),
            !self.holds(index),
            0 <= index < self.n(),
            after.n() == self.n(),
            after.items() == self.items().insert(index, value),
        ensures
            after.filled_with(items.push(value), places.push(index)),
    {
        self.lemma_inserted(after, index, value);
        let all_places = places.push(index);
        assert forall|i: int| #[trigger] after.holds(i) implies all_places.contains(i) by {
            if i == index {
                assert(all_places[places.len() as int] == i);
            } else {
                let j = choose|j: int| 0 <= j < places.len() && places[j] == i;
                assert(all_places[j] == i);
            }
        }
    }

    /// Searches for an element in the table by going through the buckets that could match.
    pub fn find(&self, hash: u64, eq: impl Fn(&T) -> bool) -> (r: Option<Bucket<T>>)
        requires
            self.wf(),
            forall|value: &T| call_requires(eq, (value,)),
        ensures
            match r {
                Some(bucket) => {
                    &&& self.holds(bucket.index())
                    &&& self.ctrl@[bucket.index()] == tag(hash)
                    &&& call_ensures(eq, (&self.item(bucket.index()),), true)
                },
                None => forall|i: int| #[trigger]
                    self.holds(i) && self.hashes@[i] == hash ==> call_ensures(
                        eq,
                        (&self.item(i),),
                        false,
                    ),
            },
    {
        let mut iter = self.iter_hash(hash);
        loop
            invariant
                self.wf(),
                forall|value: &T| call_requires(eq, (value,)),
                iter.wf(),
                iter.table() == self,
                iter.hash() == hash,
                forall|i: int| #[trigger]
                    iter.seen().contains(i) ==> call_ensures(eq, (&self.item(i),), false),
            decreases iter.groups_left(), iter.buckets_left(),
        {
            match iter.next() {
                Some(index) => {
                    if eq(self.bucket(index)) {
                        return Some(Bucket::new(index));
                    }
                },
                None => return None,
            }
        }
    }
}

/// A bucket of a table.
pub struct Bucket<T> {
    index: usize,
    marker: core::marker::PhantomData<T>,
}

impl<T> Bucket<T> {
    /// The place of the bucket in its table.
    pub closed spec fn index(self) -> int {
        self.index as int
    }

    /// Returns the bucket at `index`.
    pub fn new(index: usize) -> (r: Self)
        ensures
            r.index() == index,
    {
        Bucket { index, marker: core::marker::PhantomData }
    }

    /// Returns the element in the bucket.
    pub fn as_ref<'a>(&self, table: &'a TableRef<T>) -> (r: &'a T)
        requires
            table.wf(),
            0 <= self.index() < table.n(),
            table.ctrl@[self.index()] != EMPTY,
        ensures
            *r == table.item(self.index()),
    {
        table.bucket(self.index)
    }

    /// Returns the element in the bucket for changing it. The hash that it was placed by stays.
    pub fn as_mut<'a>(&self, table: &'a mut TableRef<T>) -> (r: &'a mut T)
        requires
            old(table).wf(),
            old(table).holds(self.index()),
        ensures
            *r == old(table).item(self.index()),
            final(table).wf(),
            final(table).info == old(table).info,
            final(table).ctrl == old(table).ctrl,
            final(table).hashes == old(table).hashes,
            final(table).items() == old(table).items().insert(self.index(), *final(r)),
    {
        table.bucket_mut(self.index)
    }
}

impl<K, V> Bucket<(K, V)> {
    /// Returns the key and the value in the bucket.
    pub fn as_pair_ref<'a>(&self, table: &'a TableRef<(K, V)>) -> (r: (&'a K, &'a V))
        requires
            table.wf(),
            0 <= self.index() < table.n(),
            table.ctrl@[self.index()] != EMPTY,
        ensures
            *r.0 == table.item(self.index()).0,
            *r.1 == table.item(self.index()).1,
    {
        let pair = table.bucket(self.index);
        (&pair.0, &pair.1)
    }
}

/// The full buckets from `from` on, in order.
pub open spec fn full_from(ctrl: Seq<u8>, n: int, from: int) -> Seq<int>
    decreases n - from,
{
    if from >= n {
        Seq::empty()
    } else if group::full_byte(ctrl[from]) {
        seq![from] + full_from(ctrl, n, from + 1)
    } else {
        full_from(ctrl, n, from + 1)
    }
}

proof fn lemma_full_from_skips(ctrl: Seq<u8>, n: int, from: int, to: int)
    requires
        from <= to <= n,
        forall|i: int| from <= i < to ==> !group::full_byte(#[trigger] ctrl[i]),
    ensures
        full_from(ctrl, n, from) == full_from(ctrl, n, to),
    decreases to - from,
{
    if from < to {
        lemma_full_from_skips(ctrl, n, from + 1, to);
    }
}

/// What the sequence of full buckets holds.
pub proof fn lemma_full_from(ctrl: Seq<u8>, n: int, from: int)
    requires
        0 <= from <= n,
    ensures
        full_from(ctrl, n, from).len() + ctrl::count_full(ctrl, from) == ctrl::count_full(ctrl, n),
        forall|j: int|
            0 <= j < full_from(ctrl, n, from).len() ==> {
                &&& from <= #[trigger] full_from(ctrl, n, from)[j] < n
                &&& group::full_byte(ctrl[full_from(ctrl, n, from)[j]])
            },
        forall|i: int, j: int|
            0 <= i < j < full_from(ctrl, n, from).len() ==> #[trigger] full_from(ctrl, n, from)[i]
                < #[trigger] full_from(ctrl, n, from)[j],
        forall|i: int|
            from <= i < n && group::full_byte(#[trigger] ctrl[i]) ==> full_from(
                ctrl,
                n,
                from,
            ).contains(i),
    decreases n - from,
{
    if from < n {
        lemma_full_from(ctrl, n, from + 1);
        let rest = full_from(ctrl, n, from + 1);
        let all = full_from(ctrl, n, from);
        if group::full_byte(ctrl[from]) {
            assert(all == seq![from] + rest);
            assert forall|i: int| from <= i < n && group::full_byte(#[trigger] ctrl[i]) implies
                all.contains(i) by {
                if i == from {
                    assert(all[0] == i);
                } else {
                    let j = choose|j: int| 0 <= j < rest.len() && rest[j] == i;
                    assert(all[j + 1] == i);
                }
            }
        }
    }
}

/// Iterator over the full buckets of a table, in the order of the buckets.
pub struct RawIterRange<'a, T> {
    table: &'a TableRef<T>,
    // Mask of full buckets in the current group. Bits are cleared from this
    // mask as each element is processed.
    current_group: BitMask,
    // The first bucket of the current group.
    data: usize,
    // The start of the next group.
    next_ctrl: usize,
    // The first bucket that has not been passed.
    from: Ghost<int>,
}

impl<'a, T> RawIterRange<'a, T> {
    /// The table that is iterated over.
    pub closed spec fn table(self) -> &'a TableRef<T> {
        self.table
    }

    /// The buckets that are left.
    pub closed spec fn rest(self) -> Seq<int> {
        full_from(self.table.ctrl@, self.table.n(), self.from@)
    }

    /// Whether the iterator is consistent.
    pub closed spec fn wf(self) -> bool {
        &&& self.table.wf()
        &&& self.next_ctrl == self.data + 16
        &&& 0 <= self.from@ <= self.table.n()
        &&& self.data <= self.from@
        &&& self.from@ <= self.next_ctrl
        &&& self.data + 16 <= self.table.ctrl@.len()
        &&& self.table.n() >= 16 ==> self.data as int % 16 == 0
        &&& self.table.n() < 16 ==> self.data == 0
        &&& forall|bit: int|
            0 <= bit < 16 ==> (#[trigger] self.current_group.has(bit) <==> {
                &&& self.from@ <= self.data + bit
                &&& self.table.holds(self.data + bit)
            })
    }

    /// Loads the full buckets of the group at `pos`.
    fn load(table: &'a TableRef<T>, pos: usize) -> (r: BitMask)
        requires
            table.wf(),
            pos + 16 <= table.ctrl@.len(),
            table.n() >= 16 ==> pos + 16 <= table.n(),
            table.n() < 16 ==> pos == 0,
        ensures
            forall|bit: int| 0 <= bit < 16 ==> (#[trigger] r.has(bit) <==> table.holds(pos + bit)),
    {
        let group = Group::load(&table.ctrl, pos);
        let r = group.match_full();
        proof {
            assert forall|bit: int| 0 <= bit < 16 implies (#[trigger] r.has(bit) <==> table.holds(
                pos + bit,
            )) by {
                assert(group@[bit] == table.ctrl@[pos + bit]);
            }
        }
        r
    }

    /// Returns a `RawIterRange` covering a table.
    fn new(table: &'a TableRef<T>) -> (r: Self)
        requires
            table.wf(),
        ensures
            r.wf(),
            r.table() == table,
            r.rest() == full_from(table.ctrl@, table.n(), 0),
    {
        // Load the first group and advance to the next group
        let current_group = Self::load(table, 0);
        RawIterRange { table, current_group, data: 0, next_ctrl: WIDTH, from: Ghost(0) }
    }

    /// Returns the table that is iterated over.
    pub fn get_table(&self) -> (r: &'a TableRef<T>)
        requires
            self.wf(),
        ensures
            r == self.table(),
            r.wf(),
    {
        self.table
    }

    /// Takes the next full bucket.
    pub fn next(&mut self) -> (r: Option<usize>)
        requires
            old(self).wf(),
        ensures
            final(self).wf(),
            final(self).table() == old(self).table(),
            match r {
                Some(index) => {
                    &&& old(self).rest().len() > 0
                    &&& index == old(self).rest()[0]
                    &&& final(self).rest() == old(self).rest().drop_first()
                    &&& final(self).table().holds(index as int)
                },
                None => old(self).rest().len() == 0 && final(self).rest().len() == 0,
            },
    {
        loop
            invariant
                self.wf(),
                self.table == old(self).table,
                self.rest() == old(self).rest(),
            decreases self.table.n() - self.from@, self.table.n() + 16 - self.next_ctrl,
        {
            let ghost ctrl = self.table.ctrl@;
            let ghost n = self.table.n();
            if let Some(index) = self.current_group.lowest_set_bit() {
                let result: usize = self.data + index;
                proof {
                    assert forall|i: int| self.from@ <= i < result implies !group::full_byte(
                        #[trigger] ctrl[i],
                    ) by {
                        assert(!self.current_group.has(i - self.data));
                    }
                    lemma_full_from_skips(ctrl, n, self.from@, result as int);
                    assert(self.rest().drop_first() =~= full_from(ctrl, n, result + 1));
                }
                let ghost group_before = self.current_group;
                self.current_group = self.current_group.remove_lowest_bit();
                self.from = Ghost(result + 1);
                proof {
                    assert forall|bit: int| 0 <= bit < 16 implies (
                    #[trigger] self.current_group.has(bit) <==> {
                        &&& self.from@ <= self.data + bit
                        &&& self.table.holds(self.data + bit)
                    }) by {
                        assert(group_before.lowest_is(index as int));
                        if group_before.has(bit) && bit != index {
                            assert(!group_before.lowest_is(bit));
                        }
                    }
                }
                return Some(result);
            }
            proof {
                let stop = if n < self.next_ctrl {
                    n
                } else {
                    self.next_ctrl as int
                };
                assert forall|i: int| self.from@ <= i < stop implies !group::full_byte(
                    #[trigger] ctrl[i],
                ) by {
                    assert(!self.current_group.has(i - self.data));
                }
                lemma_full_from_skips(ctrl, n, self.from@, stop);
            }
            if self.next_ctrl >= self.table.buckets.len() {
                return None;
            }
            proof {
                if n < 16 {
                    ctrl::lemma_small_pow2(n);
                }
                ctrl::lemma_groups_fill(n);
            }
            self.current_group = Self::load(self.table, self.next_ctrl);
            self.data = self.next_ctrl;
            self.from = Ghost(self.next_ctrl as int);
            self.next_ctrl = self.next_ctrl + WIDTH;
        }
    }
}

/// Iterator over occupied buckets that could match a given hash.
///
/// In rare cases, the iterator may return a bucket with a different hash.
pub struct RawIterHash<'a, T> {
    table: &'a TableRef<T>,
    // The top 7 bits of the hash.
    h2_hash: u8,
    // The sequence of groups to probe in the search.
    probe_seq: ProbeSeq,
    group: Group,
    // The elements within the group with a matching h2-hash.
    bitmask: BitMaskIter,
    hash: Ghost<u64>,
    step: Ghost<int>,
}

impl<'a, T> RawIterHash<'a, T> {
    /// The table that is searched.
    pub closed spec fn table(self) -> &'a TableRef<T> {
        self.table
    }

    /// The hash that is searched for.
    pub closed spec fn hash(self) -> u64 {
        self.hash@
    }

    /// The buckets that have been returned.
    pub closed spec fn seen(self) -> Set<int> {
        Set::new(|index: int| self.has_seen(index))
    }

    spec fn candidate(self, index: int) -> bool {
        self.table.holds(index) && self.table.ctrl@[index] == self.h2_hash
    }

    spec fn has_seen(self, index: int) -> bool {
        &&& self.candidate(index)
        &&& {
            ||| self.passed(index)
            ||| self.in_this_group(index) && !self.bitmask.mask().has(
                ctrl::offset_in_group(self.probe_seq.pos as int, self.table.n(), index),
            )
        }
    }

    spec fn passed(self, index: int) -> bool {
        exists|k: int|
            0 <= k < self.step@ && #[trigger] ctrl::in_group(self.hash@, self.table.n(), k, index)
    }

    spec fn in_this_group(self, index: int) -> bool {
        ctrl::in_group(self.hash@, self.table.n(), self.step@, index)
    }

    /// The number of groups that the search may still look at.
    pub closed spec fn groups_left(self) -> int {
        ctrl::steps(self.table.n()) - self.step@
    }

    /// The number of buckets of the current group that are left.
    pub closed spec fn buckets_left(self) -> nat {
        self.bitmask.left()
    }

    /// Whether the iterator is consistent.
    pub closed spec fn wf(self) -> bool {
        &&& self.table.wf()
        &&& self.h2_hash == tag(self.hash@)
        &&& group::full_byte(self.h2_hash)
        &&& self.probe_seq.is_at(
            ctrl::start(self.hash@, self.table.n()),
            self.table.n(),
            self.step@,
        )
        &&& ctrl::search_gets_to(self.table.ctrl@, self.table.n(), self.hash@, self.step@)
        &&& self.probe_seq.pos < self.table.n()
        &&& self.group@ == self.table.ctrl@.subrange(
            self.probe_seq.pos as int,
            self.probe_seq.pos + WIDTH,
        )
        &&& forall|i: int| #[trigger]
            self.bitmask.mask().has(i) ==> 0 <= i < 16 && self.group@[i] == self.h2_hash
    }

    fn new(table: &'a TableRef<T>, hash: u64) -> (r: Self)
        requires
            table.wf(),
        ensures
            r.wf(),
            r.table() == table,
            r.hash() == hash,
            r.seen() == Set::<int>::empty(),
    {
        let h2_hash: u8 = h2(hash);
        let probe_seq = table.info.probe_seq(hash);
        let group = Group::load(&table.ctrl, probe_seq.pos);
        let bitmask = group.match_byte(h2_hash).into_iter();
        let r = RawIterHash {
            table,
            h2_hash,
            probe_seq,
            group,
            bitmask,
            hash: Ghost(hash),
            step: Ghost(0),
        };
        proof {
            assert forall|index: int| !r.has_seen(index) by {
                if r.candidate(index) && r.in_this_group(index) {
                    ctrl::lemma_bucket_in_group(
                        table.ctrl@,
                        table.n(),
                        probe_seq.pos as int,
                        index,
                    );
                    let offset = ctrl::offset_in_group(probe_seq.pos as int, table.n(), index);
                    assert(group@[offset] == h2_hash);
                    assert(r.bitmask.mask().has(offset));
                }
            }
            assert(r.seen() =~= Set::<int>::empty());
        }
        r
    }

    /// A bucket that is in this group was not in a group before it.
    proof fn lemma_not_passed(self, index: int)
        requires
            self.wf(),
            self.candidate(index),
            self.in_this_group(index),
        ensures
            !self.passed(index),
    {
        let n = self.table.n();
        let hash = self.hash@;
        if self.passed(index) {
            let k = choose|k: int| 0 <= k < self.step@ && #[trigger] ctrl::in_group(hash, n, k, index);
            if n >= 16 {
                let first = ctrl::start(hash, n);
                ctrl::lemma_group_pos_bound(hash, n, k);
                ctrl::lemma_group_pos_bound(hash, n, self.step@);
                ctrl::lemma_bucket_in_group(
                    self.table.ctrl@,
                    n,
                    ctrl::group_pos(hash, n, k),
                    index,
                );
                ctrl::lemma_bucket_in_group(
                    self.table.ctrl@,
                    n,
                    ctrl::group_pos(hash, n, self.step@),
                    index,
                );
                assert(probe::covers(first, n, k, index));
                assert(probe::covers(first, n, self.step@, index));
                probe::probe_visits_each_bucket_once(first, n, index);
            }
        }
    }

    /// Takes the next bucket that could match.
    pub fn next(&mut self) -> (r: Option<usize>)
        requires
            old(self).wf(),
        ensures
            final(self).wf(),
            final(self).table() == old(self).table(),
            final(self).hash() == old(self).hash(),
            match r {
                Some(index) => {
                    &&& old(self).table().holds(index as int)
                    &&& old(self).table().ctrl@[index as int] == tag(old(self).hash())
                    &&& !old(self).seen().contains(index as int)
                    &&& final(self).seen() == old(self).seen().insert(index as int)
                    &&& final(self).groups_left() <= old(self).groups_left()
                    &&& final(self).groups_left() < old(self).groups_left()
                        || final(self).buckets_left() < old(self).buckets_left()
                },
                None => {
                    &&& final(self).seen() == old(self).seen()
                    &&& forall|i: int| #[trigger]
                        old(self).table().holds(i) && old(self).table().hashes@[i]
                            == old(self).hash() ==> old(self).seen().contains(i)
                },
            },
            0 <= final(self).groups_left(),
    {
        let mask: usize = self.table.info.bucket_mask;
        let ghost n = self.table.n();
        let ghost hash = self.hash@;
        let ghost ctrl = self.table.ctrl@;
        let ghost empty = ctrl::lemma_some_empty(ctrl, n);
        loop
            invariant
                self.wf(),
                self.table == old(self).table,
                self.hash == old(self).hash,
                self.h2_hash == old(self).h2_hash,
                self.seen() == old(self).seen(),
                self.groups_left() <= old(self).groups_left(),
                self.groups_left() < old(self).groups_left() || self.bitmask == old(self).bitmask,
                mask == self.table.info.bucket_mask,
                n == self.table.n(),
                hash == self.hash@,
                ctrl == self.table.ctrl@,
                0 <= empty < n,
                ctrl[empty] == EMPTY,
            decreases self.groups_left(),
        {
            let pos: usize = self.probe_seq.pos;
            let ghost before = *self;
            match self.bitmask.next() {
                Some(bit) => {
                    proof {
                        ctrl::lemma_group_byte(ctrl, n, pos as int, bit as int);
                        probe::lemma_mask_is_mod((pos + bit) as usize, mask);
                        assert(before.bitmask.mask().has(bit as int));
                        assert(ctrl[pos + bit] == self.group@[bit as int]);
                    }
                    let index: usize = (pos + bit) & mask;
                    proof {
                        assert(before.candidate(index as int));
                        assert(before.in_this_group(index as int));
                        before.lemma_not_passed(index as int);
                        assert forall|i: int| self.has_seen(i) == (before.has_seen(i) || i
                            == index) by {
                            if self.candidate(i) && self.in_this_group(i) {
                                ctrl::lemma_bucket_in_group(ctrl, n, pos as int, i);
                            }
                            assert(self.passed(i) == before.passed(i));
                        }
                        assert(self.seen() =~= before.seen().insert(index as int));
                    }
                    return Some(index);
                },
                None => {},
            }
            let mask_of_empty = self.group.match_empty();
            if mask_of_empty.any_bit_set() {
                proof {
                    let bit = choose|bit: int| mask_of_empty.has(bit);
                    assert(ctrl[pos + bit] == self.group@[bit]);
                    assert(ctrl::group_has_empty(ctrl, pos as int));
                    assert forall|i: int| #[trigger]
                        self.table.holds(i) && self.table.hashes@[i] == hash implies self.seen().contains(
                        i,
                    ) by {
                        assert(self.table.placed(i));
                        let k = choose|k: int|
                            ctrl::search_gets_to(ctrl, n, hash, k) && #[trigger] ctrl::in_group(
                                hash,
                                n,
                                k,
                                i,
                            );
                        if k > self.step@ {
                            assert(!ctrl::group_has_empty(
                                ctrl,
                                ctrl::group_pos(hash, n, self.step@),
                            ));
                        }
                    }
                }
                return None;
            }
            proof {
                assert(!ctrl::group_has_empty(ctrl, pos as int)) by {
                    assert forall|offset: int| 0 <= offset < 16 implies #[trigger] ctrl[pos
                        + offset] != EMPTY by {
                        assert(ctrl[pos + offset] == self.group@[offset]);
                        assert(!mask_of_empty.has(offset));
                    }
                }
                ctrl::lemma_search_ends(ctrl, n, hash, self.step@, empty);
                probe::lemma_probe_step(ctrl::start(hash, n), n, self.step@);
                ctrl::lemma_group_pos_bound(hash, n, self.step@ + 1);
            }
            self.probe_seq.move_next(mask);
            self.group = Group::load(&self.table.ctrl, self.probe_seq.pos);
            let matches = self.group.match_byte(self.h2_hash);
            self.bitmask = matches.into_iter();
            self.step = Ghost(self.step@ + 1);
            proof {
                assert forall|i: int| self.has_seen(i) == before.has_seen(i) by {
                    if before.candidate(i) {
                        if before.passed(i) {
                            let k = choose|k: int|
                                0 <= k < before.step@ && #[trigger] ctrl::in_group(hash, n, k, i);
                            assert(0 <= k < self.step@ && ctrl::in_group(hash, n, k, i));
                        }
                        if before.in_this_group(i) {
                            assert(ctrl::in_group(hash, n, before.step@, i));
                        }
                        if self.passed(i) {
                            let k = choose|k: int|
                                0 <= k < self.step@ && #[trigger] ctrl::in_group(hash, n, k, i);
                            if k < before.step@ {
                                assert(before.passed(i));
                            }
                        }
                        if self.in_this_group(i) {
                            ctrl::lemma_bucket_in_group(ctrl, n, self.probe_seq.pos as int, i);
                            let offset = ctrl::offset_in_group(self.probe_seq.pos as int, n, i);
                            assert(self.group@[offset] == self.h2_hash);
                            assert(matches.has(offset));
                        }
                    }
                }
                assert(self.seen() =~= before.seen());
            }
        }
    }
}

/// Whether the table `after` holds a clone of each element of `before`, each in the bucket that
/// `places` gives, and placed by the hash that `hasher` gives the element it is a clone of.
pub open spec fn moved<T: Clone, H: Fn(&T) -> u64>(
    before: TableRef<T>,
    after: TableRef<T>,
    hasher: H,
    places: Seq<int>,
) -> bool {
    &&& places.len() == before.full().len()
    &&& forall|j: int|
        0 <= j < places.len() ==> {
            &&& after.holds(#[trigger] places[j])
            &&& cloned::<T>(before.item(before.full()[j]), after.item(places[j]))
            &&& call_ensures(
                hasher,
                (&before.item(before.full()[j]),),
                after.hashes@[places[j]],
            )
        }
    &&& forall|i: int| #[trigger] after.holds(i) ==> places.contains(i)
    &&& forall|i: int, j: int|
        0 <= i < j < places.len() ==> #[trigger] places[i] != #[trigger] places[j]
}

/// Whether the table `after` holds a clone of each element of `before`, placed by the hash that
/// `hasher` gives the element it is a clone of, and nothing else.
pub open spec fn rehashed<T: Clone, H: Fn(&T) -> u64>(
    before: TableRef<T>,
    after: TableRef<T>,
    hasher: H,
) -> bool {
    exists|places: Seq<int>| #[trigger] moved(before, after, hasher, places)
}

impl<T: Clone> TableRef<T> {
    /// Allocates a new table of a different size and clones the contents of this
    /// table into it.
    pub fn resize<H: Fn(&T) -> u64>(
        &self,
        bucket_count: usize,
        growth_left: usize,
        hasher: &H,
    ) -> (r: Self)
        requires
            self.wf(),
            power2::is_pow2(bucket_count as int),
            bucket_count >= 1,
            bucket_count + WIDTH <= usize::MAX,
            growth_left < bucket_count,
            self.len() <= growth_left,
            forall|value: &T| call_requires(*hasher, (value,)),
        ensures
            r.wf(),
            r.n() == bucket_count,
            r.info.growth_left == growth_left - self.len(),
            r.info.tombstones == 0,
            r.len() == self.len(),
            rehashed(*self, r, *hasher),
    {
        let mut table: Self = Self::with_buckets(bucket_count, growth_left);
        let ghost mut places: Seq<int> = Seq::empty();
        let ghost all = self.full();
        proof {
            self.lemma_full();
            assert forall|i: int| !table.holds(i) by {
                assert(table.items().dom().contains(i) == table.holds(i));
            }
            assert(all.subrange(0, all.len() as int) =~= all);
        }
        let mut iter = self.iter();
        // Copy all elements to the new table.
        loop
            invariant
                self.wf(),
                forall|value: &T| call_requires(*hasher, (value,)),
                iter.wf(),
                iter.table() == self,
                all == self.full(),
                all.len() == self.len(),
                all.len() <= growth_left,
                places.len() <= all.len(),
                iter.rest() == all.subrange(places.len() as int, all.len() as int),
                table.wf(),
                table.n() == bucket_count,
                table.info.growth_left == growth_left - places.len(),
                table.info.tombstones == 0,
                table.len() == places.len(),
                forall|j: int|
                    0 <= j < places.len() ==> {
                        &&& table.holds(#[trigger] places[j])
                        &&& cloned::<T>(self.item(all[j]), table.item(places[j]))
                        &&& call_ensures(
                            *hasher,
                            (&self.item(all[j]),),
                            table.hashes@[places[j]],
                        )
                    },
                forall|i: int| #[trigger] table.holds(i) ==> places.contains(i),
                forall|i: int, j: int|
                    0 <= i < j < places.len() ==> #[trigger] places[i] != #[trigger] places[j],
            decreases all.len() - places.len(),
        {
            match iter.next() {
                Some(from) => {
                    let item = self.bucket(from);
                    let hash: u64 = hasher(item);
                    // We can use a simpler version of insert() here since:
                    // - there are no DELETED entries.
                    // - we know there is enough space in the table.
                    // - all elements are unique.
                    let index: usize = table.find_insert_slot(hash);
                    let ghost before = table;
                    let ghost places_before = places;
                    let value = item.clone();
                    let ghost copy = value;
                    table.insert_at(index, value, hash);
                    proof {
                        places = places.push(index as int);
                        assert(iter.rest() =~= all.subrange(places.len() as int, all.len() as int));
                        before.lemma_inserted(table, index as int, copy);
                        assert forall|i: int| #[trigger] table.holds(i) implies places.contains(
                            i,
                        ) by {
                            if i == index {
                                assert(places[places_before.len() as int] == i);
                            } else {
                                let j = choose|j: int|
                                    0 <= j < places_before.len() && places_before[j] == i;
                                assert(places[j] == i);
                            }
                        }
                    }
                },
                None => {
                    assert(moved(*self, table, *hasher, places));
                    return table;
                },
            }
        }
    }
}

impl<K: Clone, V: Clone> TableRef<(K, V)> {
    /// Clones every pair of the table, in the order of their buckets.
    pub fn clone_pairs(&self) -> (r: Vec<(K, V)>)
        requires
            self.wf(),
        ensures
            r@.len() == self.len(),
            self.full().len() == self.len(),
            forall|j: int|
                0 <= j < r@.len() ==> cloned::<K>(self.item(self.full()[j]).0, (#[trigger] r@[j]).0)
                    && cloned::<V>(self.item(self.full()[j]).1, r@[j].1),
    {
        let ghost all = self.full();
        proof {
            self.lemma_full();
        }
        let mut r: Vec<(K, V)> = Vec::new();
        let mut iter = self.iter();
        assert(all.subrange(0, all.len() as int) =~= all);
        loop
            invariant
                self.wf(),
                iter.wf(),
                iter.table() == self,
                r@.len() <= all.len(),
                iter.rest() == all.subrange(r@.len() as int, all.len() as int),
                all == self.full(),
                all.len() == self.len(),
                forall|j: int|
                    0 <= j < r@.len() ==> cloned::<K>(self.item(all[j]).0, (#[trigger] r@[j]).0)
                        && cloned::<V>(self.item(all[j]).1, r@[j].1),
            decreases all.len() - r@.len(),
        {
            match iter.next() {
                Some(index) => {
                    let pair = self.bucket(index);
                    r.push((pair.0.clone(), pair.1.clone()));
                    assert(iter.rest() =~= all.subrange(r@.len() as int, all.len() as int));
                },
                None => return r,
            }
        }
    }
}

/// The copy of a control byte is where it is written to.
proof fn lemma_replica_index(index: usize, mask: usize)
    requires
        power2::is_pow2(mask + 1),
        mask < usize::MAX,
        index <= mask,
    ensures
        index.wrapping_sub(WIDTH) as int % (mask + 1) + 16 == ctrl::replica(mask + 1, index as int),
{
    let n = mask + 1;
    if n < 16 {
        ctrl::lemma_small_pow2(n);
    } else if index >= 16 {
        div_mod::lemma_small_mod((index - 16) as nat, n as nat);
    } else {
        let top = usize::MAX + 1;
        probe::lemma_pow2_divides_range(n);
        let q = top / n;
        div_mod::lemma_fundamental_div_mod(top, n);
        assert(top == n * q);
        assert(index - 16 + top == n * (q - 1) + (n + index - 16)) by (nonlinear_arith)
            requires
                top == n * q,
        ;
        assert(n * (q - 1) == (q - 1) * n) by (nonlinear_arith);
        div_mod::lemma_fundamental_div_mod_converse(
            index - 16 + top,
            n,
            q - 1,
            n + index - 16,
        );
    }
}

/// Two hashes have the same tag exactly if their top 7 bits are the same, as far as a hash is a `usize`.
pub proof fn tags_are_the_top_bits(a: u64, b: u64)
    requires
        usize::BITS == 64,
    ensures
        tag(a) == tag(b) <==> a / 0x0200_0000_0000_0000 == b / 0x0200_0000_0000_0000,
        tag(a) == a / 0x0200_0000_0000_0000,
{
    assert((a >> 57) & 0x7f == a / 0x0200_0000_0000_0000) by (bit_vector);
    assert((b >> 57) & 0x7f == b / 0x0200_0000_0000_0000) by (bit_vector);
    assert(a / 0x0200_0000_0000_0000 < 0x80) by (bit_vector);
    assert(b / 0x0200_0000_0000_0000 < 0x80) by (bit_vector);
}

/// The memory of a table holds the buckets, the header and the control bytes, one behind the other, each
/// where its alignment allows, without overlap and with no more space in between than the alignment
/// takes. There are control bytes for all buckets and one group more.
pub proof fn the_parts_of_a_table_do_not_overlap<T>(bucket_count: int, header: Layout)
    requires
        bucket_count >= 0,
        power2::is_pow2(header.align as int),
    ensures
        ({
            let buckets = layout::size_of::<T>() * bucket_count;
            let offset = TableRef::<T>::header_offset(bucket_count, header);
            let ctrl = TableRef::<T>::layout_size(bucket_count, header) - bucket_count - WIDTH;
            &&& buckets <= offset < buckets + header.align
            &&& offset % (header.align as int) == 0
            &&& offset + header.size <= ctrl < offset + header.size + WIDTH
            &&& ctrl % (WIDTH as int) == 0
            &&& TableRef::<T>::layout_align(header) >= header.align
            &&& TableRef::<T>::layout_align(header) >= WIDTH
            &&& TableRef::<T>::layout_align(header) >= layout::align_of::<T>()
            &&& TableRef::<T>::layout_align(header) == header.align || TableRef::<T>::layout_align(
                header,
            ) == WIDTH || TableRef::<T>::layout_align(header) == layout::align_of::<T>()
        }),
{
    util::lemma_round_up(layout::size_of::<T>() * bucket_count, header.align as int);
    assert(power2::is_pow2(WIDTH as int)) by {
        reveal_with_fuel(power2::is_pow2, 6);
    }
    util::lemma_round_up(
        TableRef::<T>::header_offset(bucket_count, header) + header.size,
        WIDTH as int,
    );
}

/// Moving the elements to another table puts a clone of each of them there, under the hash that the
/// hasher gives it, and nothing else.
pub proof fn a_rehashed_table_has_a_clone_of_each_element<T: Clone, H: Fn(&T) -> u64>(
    before: TableRef<T>,
    after: TableRef<T>,
    hasher: H,
)
    requires
        before.wf(),
        rehashed(before, after, hasher),
    ensures
        forall|i: int| #[trigger]
            before.holds(i) ==> exists|j: int|
                {
                    &&& #[trigger] after.holds(j)
                    &&& cloned::<T>(before.item(i), after.item(j))
                    &&& call_ensures(hasher, (&before.item(i),), after.hashes@[j])
                },
        forall|j: int| #[trigger]
            after.holds(j) ==> exists|i: int|
                {
                    &&& #[trigger] before.holds(i)
                    &&& cloned::<T>(before.item(i), after.item(j))
                    &&& call_ensures(hasher, (&before.item(i),), after.hashes@[j])
                },
{
    let places = choose|places: Seq<int>| #[trigger] moved(before, after, hasher, places);
    before.lemma_full();
    let full = before.full();
    assert forall|i: int| #[trigger] before.holds(i) implies exists|j: int|
        {
            &&& #[trigger] after.holds(j)
            &&& cloned::<T>(before.item(i), after.item(j))
            &&& call_ensures(hasher, (&before.item(i),), after.hashes@[j])
        } by {
        let k = full.index_of(i);
        assert(full[k] == i);
        assert(after.holds(places[k]));
    }
    assert forall|j: int| #[trigger] after.holds(j) implies exists|i: int|
        {
            &&& #[trigger] before.holds(i)
            &&& cloned::<T>(before.item(i), after.item(j))
            &&& call_ensures(hasher, (&before.item(i),), after.hashes@[j])
        } by {
        let k = places.index_of(j);
        assert(places[k] == j);
        assert(before.holds(full[k]));
    }
}

/// There is a memory layout for a table exactly if its size, rounded up to its alignment, is not above
/// `isize::MAX`.
pub proof fn a_table_fits_if_its_memory_can_be_addressed<T>(bucket_count: int, header: Layout)
    requires
        bucket_count >= 0,
        power2::is_pow2(header.align as int),
        power2::is_pow2(layout::align_of::<T>() as int),
    ensures
        TableRef::<T>::fits(bucket_count, header) <==> util::round_up(
            TableRef::<T>::layout_size(bucket_count, header),
            TableRef::<T>::layout_align(header),
        ) <= isize::MAX,
{
    assert(power2::is_pow2(WIDTH as int)) by {
        reveal_with_fuel(power2::is_pow2, 6);
    }
    the_parts_of_a_table_do_not_overlap::<T>(bucket_count, header);
    assert(layout::size_of::<T>() * bucket_count >= 0) by (nonlinear_arith)
        requires
            bucket_count >= 0,
            layout::size_of::<T>() >= 0,
    ;
    util::rounding_up_stays_below_a_limit(
        TableRef::<T>::layout_size(bucket_count, header),
        TableRef::<T>::layout_align(header),
        isize::MAX as int,
    );
}

} // verus!

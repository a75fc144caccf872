//! What holds of a vector across several operations.

use super::{SyncPushVec, TableRef, Write};
use crate::collect::laws::Step;
use crate::collect::model::CollectorView;
use crate::retired;
use vstd::prelude::*;

verus! {

/// If clones are the same as what they are clones of, a push leaves all elements in their places and
/// adds one at the end.
pub proof fn a_push_with_exact_clones_appends<T: Clone, C>(
    before: SyncPushVec<T>,
    reserved: SyncPushVec<T>,
    collector: CollectorView<C>,
    collector_before: CollectorView<C>,
    value: T,
)
    requires
        Write::<T, C>::reserved(before, reserved, collector, collector_before, 1),
        forall|a: T, b: T| #[trigger] cloned::<T>(a, b) ==> a == b,
    ensures
        reserved@.push(value) == before@.push(value),
{
    if reserved@ != before@ {
        super::exact_clones_make_the_same_seq(before@, reserved@);
    }
}

/// A vector and the collector that it belongs to.
pub struct Scene<T, C> {
    pub vector: SyncPushVec<T>,
    pub collector: CollectorView<C>,
}

impl<T, C> Scene<T, C> {
    /// Whether this is `before` after other storage has been put into use.
    pub open spec fn replaces(self, before: Self) -> bool {
        &&& before.vector.can_replace(before.collector)
        &&& self.vector.replaces(before.vector, self.collector, before.collector)
    }

    /// Whether this is `before` after something that may happen while `thread` is pinned: the vector
    /// is written to or pruned, or the collector is used in any other way.
    pub open spec fn goes_on_from(self, before: Self, thread: u64) -> bool {
        ||| self.replaces(before)
        ||| retired::pruned(
            before.vector.retired(),
            self.vector.retired(),
            self.collector,
            before.collector,
        )
        ||| self.vector.retired() == before.vector.retired() && self.collector == before.collector
        ||| {
            &&& self.vector == before.vector
            &&& exists|step: Step<C>|
                {
                    &&& before.collector.allows(step)
                    &&& !step.ends_pin_of(thread)
                    &&& self.collector == #[trigger] before.collector.after(step)
                }
        }
    }

    /// The retired storage and the collector.
    pub open spec fn behind(self) -> retired::Scene<TableRef<T>, C> {
        retired::Scene { retired: self.vector.retired(), collector: self.collector }
    }
}

/// Whether scene `t + 1` goes on from scene `t`.
pub open spec fn next_goes_on<T, C>(scenes: Seq<Scene<T, C>>, thread: u64, t: int) -> bool {
    scenes[t + 1].goes_on_from(scenes[t], thread)
}

/// Whether these scenes follow each other while `thread` is pinned.
pub open spec fn during_pin<T, C>(scenes: Seq<Scene<T, C>>, thread: u64) -> bool {
    &&& scenes.len() > 0
    &&& scenes[0].collector.wf()
    &&& scenes[0].collector.threads.contains_key(thread)
    &&& forall|t: int| 0 <= t < scenes.len() - 1 ==> #[trigger] next_goes_on(scenes, thread, t)
}

/// Storage that a reader may have come by while it is pinned is still there when the pin ends: if the
/// storage in use is replaced, it stays among the retired storage, whatever is written to the vector,
/// pruned or done with the collector by others. This leaves out storage without room for any element,
/// which needs no memory.
pub proof fn storage_in_use_during_a_pin_is_kept<T, C>(
    scenes: Seq<Scene<T, C>>,
    thread: u64,
    t: int,
    end: int,
)
    requires
        during_pin(scenes, thread),
        0 <= t < end < scenes.len(),
        scenes[t + 1].replaces(scenes[t]),
        scenes[t].vector.capacity() > 0,
    ensures
        scenes[end].vector.retired().contains(
            (scenes[t].collector.next_id, scenes[t].vector.table()),
        ),
{
    let behind = Seq::new(scenes.len(), |t: int| scenes[t].behind());
    assert forall|t: int| 0 <= t < behind.len() - 1 implies #[trigger] retired::next_goes_on(
        behind,
        thread,
        t,
    ) by {
        assert(next_goes_on(scenes, thread, t));
        let before = scenes[t];
        let after = scenes[t + 1];
        if after.replaces(before) && before.vector.capacity() > 0 {
            assert(behind[t + 1].retires(behind[t], before.vector.table()));
        } else if after.collector == before.collector && after.vector.retired()
            == before.vector.retired() {
            let step = Step::<C>::CancelByIds(Set::empty());
            before.collector.cancelling_nothing_changes_nothing();
            assert(after.collector == before.collector.after(step));
        } else if !retired::pruned(
            before.vector.retired(),
            after.vector.retired(),
            after.collector,
            before.collector,
        ) {
            let step = choose|step: Step<C>|
                {
                    &&& before.collector.allows(step)
                    &&& !step.ends_pin_of(thread)
                    &&& after.collector == #[trigger] before.collector.after(step)
                };
            assert(behind[t].collector.allows(step));
        }
    }
    assert(behind[t + 1].retires(behind[t], scenes[t].vector.table()));
    retired::storage_retired_during_a_pin_is_kept(
        behind,
        thread,
        scenes[t].vector.table(),
        t,
        end,
    );
}

/// Whether the elements of `after` are those of `before`, or clones of them, in the same places.
pub open spec fn has_the_same_elements<T: Clone>(before: Seq<T>, after: Seq<T>) -> bool {
    &&& after.len() == before.len()
    &&& forall|i: int|
        0 <= i < before.len() ==> #[trigger] after[i] == before[i] || cloned::<T>(
            before[i],
            after[i],
        )
}

/// Making room leaves enough of it, keeps every element in its place, itself or as a clone, and does
/// nothing if there is enough room. If it has to, it at least doubles the room and retires the old
/// storage, unless that needs no memory.
pub proof fn making_room_keeps_every_element<T: Clone, C>(
    before: SyncPushVec<T>,
    after: SyncPushVec<T>,
    collector: CollectorView<C>,
    collector_before: CollectorView<C>,
    additional: int,
)
    requires
        additional >= 0,
        collector_before.next_id < u64::MAX,
        Write::<T, C>::reserved(before, after, collector, collector_before, additional),
    ensures
        has_the_same_elements(before@, after@),
        before@.len() + additional <= after.capacity(),
        before@.len() + additional <= before.capacity() ==> after == before && collector
            == collector_before,
        before@.len() + additional > before.capacity() ==> {
            &&& 2 * before.capacity() <= usize::MAX ==> after.capacity() >= 2 * before.capacity()
            &&& {
                ||| after.capacity() == before@.len() + additional
                ||| after.capacity() == 2 * before.capacity()
                ||| after.capacity() == super::MIN_CAPACITY
                ||| after.capacity() == usize::MAX
            }
            &&& before.capacity() == 0 ==> after.retired() == before.retired() && collector
                == collector_before
            &&& before.capacity() > 0 ==> {
                let id = collector_before.next_id;
                &&& after.retired().len() == before.retired().len() + 1
                &&& after.retired().last() == (id, before.table())
                &&& after.retired().drop_last() == before.retired()
                &&& collector.current.ids == collector_before.current.ids.push(id)
                &&& collector.events != collector_before.events
                &&& collector.threads == collector_before.threads
                &&& collector.ready == collector_before.ready
            }
        },
{
    if before@.len() + additional > before.capacity() {
        assert forall|i: int| 0 <= i < before@.len() implies #[trigger] after@[i] == before@[i]
            || cloned::<T>(before@[i], after@[i]) by {
            assert(cloned::<T>(before@[i], after@[i]));
        }
        if before.capacity() > 0 {
            assert(after.retired().drop_last() =~= before.retired());
        }
    }
}

/// A push adds one element behind all others, which stay in their places, themselves or as clones.
pub proof fn a_push_adds_one_element_at_the_end<T: Clone, C>(
    before: SyncPushVec<T>,
    reserved: SyncPushVec<T>,
    after: Seq<T>,
    collector: CollectorView<C>,
    collector_before: CollectorView<C>,
    value: T,
)
    requires
        collector_before.next_id < u64::MAX,
        Write::<T, C>::reserved(before, reserved, collector, collector_before, 1),
        after == reserved@.push(value),
    ensures
        after.len() == before@.len() + 1,
        after[before@.len() as int] == value,
        has_the_same_elements(before@, after.drop_last()),
        after.len() <= reserved.capacity(),
{
    making_room_keeps_every_element(before, reserved, collector, collector_before, 1);
    assert(after.drop_last() =~= reserved@);
}

/// Appending elements adds them in order behind all others, which stay in their places, themselves or as
/// clones.
pub proof fn appended_elements_follow_in_order<T: Clone, C>(
    before: SyncPushVec<T>,
    reserved: SyncPushVec<T>,
    after: Seq<T>,
    collector: CollectorView<C>,
    collector_before: CollectorView<C>,
    items: Seq<T>,
)
    requires
        collector_before.next_id < u64::MAX,
        Write::<T, C>::reserved(before, reserved, collector, collector_before, items.len() as int),
        after == reserved@ + items,
    ensures
        after.len() == before@.len() + items.len(),
        has_the_same_elements(before@, after.take(before@.len() as int)),
        forall|i: int|
            0 <= i < items.len() ==> after[before@.len() + i] == #[trigger] items[i],
        after.len() <= reserved.capacity(),
{
    making_room_keeps_every_element(
        before,
        reserved,
        collector,
        collector_before,
        items.len() as int,
    );
    assert(after.take(before@.len() as int) =~= reserved@);
}

/// The memory of storage holds the elements and, behind them, the counters, each where its alignment
/// allows, without overlap and with no more space in between than the alignment takes.
pub proof fn the_counters_follow_the_elements<T>(capacity: int)
    requires
        capacity >= 0,
        vstd::arithmetic::power2::is_pow2(vstd::layout::align_of::<super::TableInfo>() as int),
    ensures
        ({
            let offset = TableRef::<T>::info_offset(capacity);
            let align = vstd::layout::align_of::<super::TableInfo>() as int;
            let elements = vstd::layout::size_of::<T>() * capacity;
            &&& elements <= offset < elements + align
            &&& offset % align == 0
            &&& TableRef::<T>::layout_size(capacity) == offset + vstd::layout::size_of::<
                super::TableInfo,
            >()
            &&& TableRef::<T>::layout_align() >= align
            &&& TableRef::<T>::layout_align() >= vstd::layout::align_of::<T>()
        }),
{
    crate::util::lemma_round_up(
        vstd::layout::size_of::<T>() * capacity,
        vstd::layout::align_of::<super::TableInfo>() as int,
    );
}

/// There is a memory layout for storage exactly if its size, rounded up to its alignment, is not above
/// `isize::MAX`.
pub proof fn storage_fits_if_its_memory_can_be_addressed<T>(capacity: int)
    requires
        capacity >= 0,
        vstd::arithmetic::power2::is_pow2(vstd::layout::align_of::<super::TableInfo>() as int),
        vstd::arithmetic::power2::is_pow2(vstd::layout::align_of::<T>() as int),
    ensures
        TableRef::<T>::has_layout(capacity) <==> crate::util::round_up(
            TableRef::<T>::layout_size(capacity),
            TableRef::<T>::layout_align(),
        ) <= isize::MAX,
{
    the_counters_follow_the_elements::<T>(capacity);
    assert(vstd::layout::size_of::<T>() * capacity >= 0) by (nonlinear_arith)
        requires
            capacity >= 0,
            vstd::layout::size_of::<T>() >= 0,
    ;
    crate::util::rounding_up_stays_below_a_limit(
        TableRef::<T>::layout_size(capacity),
        TableRef::<T>::layout_align(),
        isize::MAX as int,
    );
}

/// Elements can always be added if there is room for them. If there is not, they can be as long as ids are
/// left for the storage that is retired and memory for larger storage can be addressed.
pub proof fn elements_can_be_added_as_long_as_memory_lasts<T, C>(
    vector: SyncPushVec<T>,
    collector: CollectorView<C>,
    additional: int,
)
    ensures
        vector@.len() + additional <= vector.capacity() ==> vector.can_reserve(
            additional,
            collector,
        ),
        vector@.len() + additional <= usize::MAX && collector.next_id < u64::MAX && TableRef::<
            T,
        >::has_layout(
            super::expanded_capacity(vector.capacity() as int, vector@.len() + additional),
        ) ==> vector.can_reserve(additional, collector),
{
}

} // verus!

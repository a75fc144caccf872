//! What holds of any run of a collector, whichever threads take part in it.

use super::model::{self, CollectorView, ThreadState};
use super::Collector;
use vstd::prelude::*;
use vstd::seq_lib;

verus! {

/// One operation on a collector.
pub enum Step<C> {
    /// A callback is deferred.
    Defer(C),
    /// A flag is registered under a new id.
    DeferById,
    /// The flags of these ids are cancelled.
    CancelByIds(Set<u64>),
    /// A flag is dropped once it has been seen to be set.
    DropFlag(u64),
    /// A thread registers.
    Register(u64),
    /// A thread leaves.
    Unregister(u64),
    /// A registered thread, or one that is not registered, collects.
    Collect(Option<u64>),
}

impl<C> Step<C> {
    /// Whether this is a collection by `thread` or its departure. A thread does neither while it is
    /// pinned.
    pub open spec fn ends_pin_of(self, thread: u64) -> bool {
        self == Step::<C>::Collect(Some(thread)) || self == Step::<C>::Unregister(thread)
    }

    /// The callback that the step defers, if any.
    pub open spec fn deferred(self) -> Seq<C> {
        match self {
            Step::Defer(callback) => seq![callback],
            _ => Seq::empty(),
        }
    }
}

impl<C> CollectorView<C> {
    /// Whether the step can be taken in this state.
    pub open spec fn allows(self, step: Step<C>) -> bool {
        match step {
            Step::Defer(_) => true,
            Step::DeferById => self.next_id < u64::MAX,
            Step::CancelByIds(_) => true,
            Step::DropFlag(_) => true,
            Step::Register(thread) => !self.threads.contains_key(thread),
            Step::Unregister(thread) => self.threads.contains_key(thread),
            Step::Collect(Some(thread)) => self.threads.contains_key(thread),
            Step::Collect(None) => true,
        }
    }

    /// The state after a step.
    pub open spec fn after(self, step: Step<C>) -> Self {
        match step {
            Step::Defer(callback) => self.deferred(callback),
            Step::DeferById => self.deferred_new_id(),
            Step::CancelByIds(ids) => self.cancelled(ids),
            Step::DropFlag(id) => self.without_flag(id),
            Step::Register(thread) => self.registered(thread),
            Step::Unregister(thread) => self.unregistered(thread),
            Step::Collect(thread) => self.collected(thread),
        }
    }

    /// The callbacks that a step hands out to be run.
    pub open spec fn handed_out(self, step: Step<C>) -> Seq<C> {
        match step {
            Step::Collect(thread) => self.garbage(thread).deferred,
            _ => Seq::empty(),
        }
    }

    /// Whether the steps can be taken one after the other, starting in this state.
    pub open spec fn allows_all(self, steps: Seq<Step<C>>) -> bool
        decreases steps.len(),
    {
        steps.len() > 0 ==> self.allows_all(steps.drop_last()) && self.after_all(
            steps.drop_last(),
        ).allows(steps.last())
    }

    /// The state after the steps.
    pub open spec fn after_all(self, steps: Seq<Step<C>>) -> Self
        decreases steps.len(),
    {
        if steps.len() == 0 {
            self
        } else {
            self.after_all(steps.drop_last()).after(steps.last())
        }
    }

    /// The callbacks that the steps hand out to be run.
    pub open spec fn all_handed_out(self, steps: Seq<Step<C>>) -> Seq<C>
        decreases steps.len(),
    {
        if steps.len() == 0 {
            Seq::empty()
        } else {
            self.all_handed_out(steps.drop_last()) + self.after_all(steps.drop_last()).handed_out(
                steps.last(),
            )
        }
    }

    pub(crate) proof fn lemma_step(self, step: Step<C>)
        requires
            self.wf(),
            self.allows(step),
        ensures
            self.after(step).wf(),
            self.held().deferred + step.deferred() == self.handed_out(step) + self.after(
                step,
            ).held().deferred,
    {
        let after = self.after(step);
        match step {
            Step::Defer(callback) => {
                self.deferral_keeps_wf(callback);
            },
            Step::DeferById => {
                self.registering_an_id_keeps_wf();
            },
            Step::CancelByIds(ids) => {
                self.cancellation_keeps_wf(ids);
            },
            Step::DropFlag(id) => {
                self.dropping_a_flag_keeps_wf(id);
            },
            Step::Register(thread) => {
                self.registration_keeps_wf(thread);
            },
            Step::Unregister(thread) => {
                self.unregistration_keeps_wf(thread);
            },
            Step::Collect(thread) => {
                self.collection_keeps_wf(thread);
                self.collection_hands_out_the_oldest(thread);
            },
        }
        assert(self.held().deferred + step.deferred() =~= self.handed_out(step)
            + after.held().deferred);
    }
}

/// The callbacks that the steps defer.
pub open spec fn all_deferred<C>(steps: Seq<Step<C>>) -> Seq<C>
    decreases steps.len(),
{
    if steps.len() == 0 {
        Seq::empty()
    } else {
        all_deferred(steps.drop_last()) + steps.last().deferred()
    }
}

/// A collector stays consistent, whatever is done with it.
pub proof fn a_collector_stays_consistent<C>(start: CollectorView<C>, steps: Seq<Step<C>>)
    requires
        start.wf(),
        start.allows_all(steps),
    ensures
        start.after_all(steps).wf(),
    decreases steps.len(),
{
    if steps.len() > 0 {
        a_collector_stays_consistent(start, steps.drop_last());
        start.after_all(steps.drop_last()).lemma_step(steps.last());
    }
}

/// Every callback is handed out at most once, and in the order in which they were deferred. Those
/// that were not handed out are still held.
pub proof fn callbacks_are_handed_out_once_and_in_order<C>(
    start: CollectorView<C>,
    steps: Seq<Step<C>>,
)
    requires
        start.wf(),
        start.allows_all(steps),
    ensures
        start.held().deferred + all_deferred(steps) == start.all_handed_out(steps)
            + start.after_all(steps).held().deferred,
    decreases steps.len(),
{
    if steps.len() > 0 {
        let before = steps.drop_last();
        let mid = start.after_all(before);
        callbacks_are_handed_out_once_and_in_order(start, before);
        a_collector_stays_consistent(start, before);
        mid.lemma_step(steps.last());
        assert(start.held().deferred + all_deferred(steps) =~= (start.held().deferred
            + all_deferred(before)) + steps.last().deferred());
        assert((start.all_handed_out(before) + mid.held().deferred) + steps.last().deferred()
            =~= start.all_handed_out(before) + (mid.held().deferred + steps.last().deferred()));
        assert(start.all_handed_out(before) + (mid.handed_out(steps.last())
            + start.after_all(steps).held().deferred) =~= start.all_handed_out(steps)
            + start.after_all(steps).held().deferred);
    } else {
        assert(start.held().deferred + all_deferred(steps) =~= start.all_handed_out(steps)
            + start.after_all(steps).held().deferred);
    }
}

/// The counter of busy threads is right in every consistent collector, and so after every operation,
/// as each leaves the collector consistent: it counts the threads that are marked as busy, and is 0
/// only if there is no thread.
pub proof fn the_busy_count_is_right<C>(collector: Collector<C>)
    requires
        collector.wf(),
    ensures
        collector.busy_count() == model::busy_threads(collector@.threads).len(),
        collector.busy_count() == 0 <==> collector@.threads.dom().is_empty(),
{
    collector.lemma_wf();
}

/// Unregistering a thread removes it alone, and keeps the counter of busy threads right: it counts the
/// threads that are marked as busy, and is 0 only if there is no thread. No callback is handed out,
/// lost or moved past another. The other threads keep their marks, unless the thread was the last one
/// that the epoch waited for: then all of them are busy again. If no thread is left, all callbacks are
/// ready to be run.
pub proof fn unregistering_keeps_the_count_and_every_callback<C>(
    before: Collector<C>,
    after: Collector<C>,
    thread: u64,
)
    requires
        before.wf(),
        before@.threads.contains_key(thread),
        after.wf(),
        after@ == before@.after(Step::Unregister(thread)),
    ensures
        before.busy_count() == model::busy_threads(before@.threads).len(),
        before.busy_count() == 0 <==> before@.threads.dom().is_empty(),
        after.busy_count() == model::busy_threads(after@.threads).len(),
        after.busy_count() == 0 <==> after@.threads.dom().is_empty(),
        after@.threads == if model::last_busy(before@.threads, thread) {
            model::all_busy(before@.threads.remove(thread))
        } else {
            before@.threads.remove(thread)
        },
        after@.threads.dom() == before@.threads.dom().remove(thread),
        before@.handed_out(Step::Unregister(thread)).len() == 0,
        after@.held() == before@.held(),
        after@.threads.dom().is_empty() ==> after@.pending == before@.held(),
{
    before.lemma_wf();
    after.lemma_wf();
    let left = CollectorView { threads: before@.threads.remove(thread), ..before@ };
    left.epoch_completion_keeps_callbacks(true);
    assert(model::all_busy(left.threads).dom() =~= left.threads.dom());
    assert(left.threads.dom() =~= before@.threads.dom().remove(thread));
    if left.threads.dom().is_empty() {
        assert forall|other: u64|
            before@.threads.contains_key(other) && #[trigger] before@.threads[other]
                == ThreadState::Busy implies other == thread by {
            assert(other == thread || left.threads.dom().contains(other));
        }
        assert(model::all_busy(left.threads) =~= left.threads);
    }
}

/// Whether the youngest `young` callbacks and the ids from `first_id` on wait for `thread`.
spec fn wait_for<C>(state: CollectorView<C>, thread: u64, young: nat, first_id: u64) -> bool {
    &&& state.threads.contains_key(thread)
    &&& match state.threads[thread] {
        ThreadState::Busy => state.previous.deferred.len() + state.current.deferred.len() >= young,
        ThreadState::Quiet => {
            &&& state.current.deferred.len() >= young
            &&& forall|id: u64| #[trigger] state.previous.ids.contains(id) ==> id < first_id
        },
    }
    &&& forall|id: u64| #[trigger] state.pending.ids.contains(id) ==> id < first_id
    &&& forall|id: u64| #[trigger] state.ready.contains(id) ==> id < first_id
}

proof fn lemma_wait_for_step<C>(
    state: CollectorView<C>,
    step: Step<C>,
    thread: u64,
    young: nat,
    first_id: u64,
)
    requires
        state.wf(),
        state.allows(step),
        !step.ends_pin_of(thread),
        wait_for(state, thread, young, first_id),
        first_id <= state.next_id,
    ensures
        wait_for(state.after(step), thread, young + step.deferred().len(), first_id),
{
    broadcast use seq_lib::group_seq_properties;

    let after = state.after(step);
    match step {
        Step::CancelByIds(ids) => {
            let keep = |id: u64| !ids.contains(id);
            assert forall|id: u64| #[trigger] after.pending.ids.contains(id) implies id
                < first_id by {
                state.pending.ids.lemma_filter_contains_rev(keep, id);
            }
            assert forall|id: u64| #[trigger]
                after.previous.ids.contains(id) implies state.previous.ids.contains(id) by {
                state.previous.ids.lemma_filter_contains_rev(keep, id);
            }
        },
        Step::Unregister(other) => {
            assert(state.threads.remove(other).contains_key(thread));
            assert(!state.threads.remove(other).dom().is_empty());
        },
        Step::Collect(Some(other)) => {
            assert(state.threads.contains_key(other));
            assert(!state.alone(other)) by {
                if state.alone(other) {
                    assert(set![other].contains(thread));
                }
            }
            let out = state.garbage(Some(other));
            assert forall|id: u64| #[trigger] after.ready.contains(id) implies id < first_id by {
                if out.ids.contains(id) {
                    assert(state.pending.ids.contains(id) || state.previous.ids.contains(id));
                }
            }
        },
        Step::Collect(None) => {
            assert(!state.threads.dom().is_empty());
        },
        _ => {},
    }
}

proof fn lemma_wait_for_steps<C>(start: CollectorView<C>, steps: Seq<Step<C>>, thread: u64)
    requires
        start.wf(),
        start.threads.contains_key(thread),
        start.allows_all(steps),
        forall|i: int| 0 <= i < steps.len() ==> !(#[trigger] steps[i]).ends_pin_of(thread),
    ensures
        start.next_id <= start.after_all(steps).next_id,
        wait_for(start.after_all(steps), thread, all_deferred(steps).len(), start.next_id),
    decreases steps.len(),
{
    if steps.len() > 0 {
        let before = steps.drop_last();
        assert forall|i: int| 0 <= i < before.len() implies !(#[trigger] before[i]).ends_pin_of(
            thread,
        ) by {
            assert(before[i] == steps[i]);
        }
        lemma_wait_for_steps(start, before, thread);
        a_collector_stays_consistent(start, before);
        assert(steps.last() == steps[steps.len() - 1]);
        lemma_wait_for_step(
            start.after_all(before),
            steps.last(),
            thread,
            all_deferred(before).len(),
            start.next_id,
        );
    } else {
        assert forall|id: u64| start.held().ids.contains(id) implies id < start.next_id by {}
        assert forall|id: u64| #[trigger] start.pending.ids.contains(id) implies id
            < start.next_id by {
            let i = choose|i: int| 0 <= i < start.pending.ids.len() && start.pending.ids[i] == id;
            assert(start.held().ids[i] == id);
            assert(start.held().ids.contains(id));
        }
        assert forall|id: u64| #[trigger] start.previous.ids.contains(id) implies id
            < start.next_id by {
            let i = choose|i: int|
                0 <= i < start.previous.ids.len() && start.previous.ids[i] == id;
            assert(start.held().ids[start.pending.ids.len() + i] == id);
            assert(start.held().ids.contains(id));
        }
    }
}

/// Whether the collector is consistent, and holds off the flags from `first_id` on until `thread`
/// collects or leaves.
pub closed spec fn holds_off<C>(state: CollectorView<C>, thread: u64, first_id: u64) -> bool {
    &&& state.wf()
    &&& first_id <= state.next_id
    &&& wait_for(state, thread, 0, first_id)
}

/// A collector holds off all flags that are yet to be registered until a registered thread collects or
/// leaves.
pub proof fn lemma_holds_off_new<C>(state: CollectorView<C>, thread: u64)
    requires
        state.wf(),
        state.threads.contains_key(thread),
    ensures
        holds_off(state, thread, state.next_id),
{
    lemma_wait_for_steps(state, Seq::<Step<C>>::empty(), thread);
}

/// What is held off has not been set.
pub proof fn lemma_holds_off_flags<C>(state: CollectorView<C>, thread: u64, first_id: u64)
    requires
        holds_off(state, thread, first_id),
    ensures
        state.wf(),
        first_id <= state.next_id,
        forall|id: u64| #[trigger] state.ready.contains(id) ==> id < first_id,
{
}

/// A collector goes on holding off flags, whatever else is done with it.
pub proof fn lemma_holds_off_step<C>(
    state: CollectorView<C>,
    step: Step<C>,
    thread: u64,
    first_id: u64,
)
    requires
        holds_off(state, thread, first_id),
        state.allows(step),
        !step.ends_pin_of(thread),
    ensures
        holds_off(state.after(step), thread, first_id),
{
    lemma_wait_for_step(state, step, thread, 0, first_id);
    state.lemma_step(step);
}

/// Dropping flags changes nothing for those that are held off.
pub proof fn lemma_holds_off_dropped<C>(
    state: CollectorView<C>,
    ready: Set<u64>,
    thread: u64,
    first_id: u64,
)
    requires
        holds_off(state, thread, first_id),
        ready.subset_of(state.ready),
    ensures
        holds_off(CollectorView { ready, ..state }, thread, first_id),
{
    let after = CollectorView { ready, ..state };
    assert(after.held() == state.held());
}

/// A pin holds off every callback that is deferred at or after its start: as long as a registered
/// thread neither collects nor leaves, all callbacks that are handed out, to whichever thread, had
/// been deferred before.
pub proof fn a_pin_holds_off_later_callbacks<C>(
    start: CollectorView<C>,
    steps: Seq<Step<C>>,
    thread: u64,
)
    requires
        start.wf(),
        start.threads.contains_key(thread),
        start.allows_all(steps),
        forall|i: int| 0 <= i < steps.len() ==> !(#[trigger] steps[i]).ends_pin_of(thread),
    ensures
        start.all_handed_out(steps).is_prefix_of(start.held().deferred),
{
    lemma_wait_for_steps(start, steps, thread);
    callbacks_are_handed_out_once_and_in_order(start, steps);
    let out = start.all_handed_out(steps);
    let all = start.held().deferred + all_deferred(steps);
    let left = start.after_all(steps).held().deferred;
    assert(left.len() >= all_deferred(steps).len());
    assert(all.len() == start.held().deferred.len() + all_deferred(steps).len());
    assert((out + left).len() == out.len() + left.len());
    assert(out =~= all.take(out.len() as int));
    assert(out =~= start.held().deferred.take(out.len() as int));
}

/// A pin holds off every flag that is registered at or after its start: as long as a registered
/// thread neither collects nor leaves, no such flag is set.
pub proof fn a_pin_holds_off_later_flags<C>(
    start: CollectorView<C>,
    steps: Seq<Step<C>>,
    thread: u64,
    id: u64,
)
    requires
        start.wf(),
        start.threads.contains_key(thread),
        start.allows_all(steps),
        forall|i: int| 0 <= i < steps.len() ==> !(#[trigger] steps[i]).ends_pin_of(thread),
        start.next_id <= id,
    ensures
        !start.after_all(steps).ready.contains(id),
{
    lemma_wait_for_steps(start, steps, thread);
}

/// A flag that is cancelled before it is set is never set.
pub proof fn a_cancelled_flag_is_never_set<C>(
    start: CollectorView<C>,
    ids: Set<u64>,
    steps: Seq<Step<C>>,
    id: u64,
)
    requires
        start.wf(),
        ids.contains(id),
        id < start.next_id,
        !start.ready.contains(id),
        start.cancelled(ids).allows_all(steps),
    ensures
        !start.cancelled(ids).after_all(steps).ready.contains(id),
{
    start.cancellation_keeps_wf(ids);
    start.cancellation_keeps_the_others(ids);
    let keep = |id: u64| !ids.contains(id);
    if start.held().ids.filter(keep).contains(id) {
        let i = choose|i: int|
            0 <= i < start.held().ids.filter(keep).len() && start.held().ids.filter(keep)[i] == id;
        start.held().ids.lemma_filter_pred(keep, i);
    }
    lemma_forgotten(start.cancelled(ids), steps, id);
}

proof fn lemma_forgotten<C>(start: CollectorView<C>, steps: Seq<Step<C>>, id: u64)
    requires
        start.wf(),
        id < start.next_id,
        !start.held().ids.contains(id),
        !start.ready.contains(id),
        start.allows_all(steps),
    ensures
        id < start.after_all(steps).next_id,
        !start.after_all(steps).held().ids.contains(id),
        !start.after_all(steps).ready.contains(id),
    decreases steps.len(),
{
    broadcast use seq_lib::group_seq_properties;

    if steps.len() > 0 {
        let before = steps.drop_last();
        lemma_forgotten(start, before, id);
        let mid = start.after_all(before);
        let after = start.after_all(steps);
        a_collector_stays_consistent(start, before);
        match steps.last() {
            Step::Defer(callback) => {
                assert(after.held().ids =~= mid.held().ids);
            },
            Step::DeferById => {
                assert(after.held().ids =~= mid.held().ids.push(mid.next_id));
            },
            Step::CancelByIds(ids) => {
                mid.cancellation_keeps_the_others(ids);
                let keep = |id: u64| !ids.contains(id);
                if after.held().ids.contains(id) {
                    mid.held().ids.lemma_filter_contains_rev(keep, id);
                }
            },
            Step::Register(_) | Step::DropFlag(_) => {
                assert(after.held() == mid.held());
            },
            Step::Unregister(thread) => {
                let left = CollectorView { threads: mid.threads.remove(thread), ..mid };
                left.epoch_completion_keeps_callbacks(true);
                assert(after.held() == mid.held());
            },
            Step::Collect(thread) => {
                mid.collection_hands_out_the_oldest(thread);
            },
        }
    }
}

/// Whether every registered thread collects or leaves in the steps, and none joins.
pub open spec fn is_round<C>(start: CollectorView<C>, steps: Seq<Step<C>>) -> bool {
    &&& start.allows_all(steps)
    &&& forall|thread: u64| #[trigger]
        start.threads.contains_key(thread) ==> ends_a_pin(steps, thread)
    &&& forall|i: int| 0 <= i < steps.len() ==> !(#[trigger] steps[i] is Register)
}

/// Whether one of the steps is a collection by `thread` or its departure.
pub open spec fn ends_a_pin<C>(steps: Seq<Step<C>>, thread: u64) -> bool {
    exists|i: int| 0 <= i < steps.len() && (#[trigger] steps[i]).ends_pin_of(thread)
}

/// How many callbacks wait for threads to collect or to leave.
pub open spec fn waiting<C>(state: CollectorView<C>) -> nat {
    state.previous.deferred.len() + state.current.deferred.len()
}

/// Whether a flag is registered, and waits for threads to collect or to leave.
pub open spec fn flag_waits<C>(state: CollectorView<C>, id: u64) -> bool {
    state.previous.ids.contains(id) || state.current.ids.contains(id)
}

spec fn epoch_ended<C>(start: CollectorView<C>, steps: Seq<Step<C>>) -> bool {
    let after = start.after_all(steps);
    &&& start.next_id <= after.next_id
    &&& forall|id: u64| #[trigger]
        after.previous.ids.contains(id) ==> start.current.ids.contains(id) || id >= start.next_id
    &&& forall|id: u64| #[trigger] after.current.ids.contains(id) ==> id >= start.next_id
    &&& waiting(after) <= start.current.deferred.len() + all_deferred(steps).len()
    &&& after.current.deferred.len() <= all_deferred(steps).len()
}

spec fn epoch_goes_on<C>(start: CollectorView<C>, steps: Seq<Step<C>>) -> bool {
    let after = start.after_all(steps);
    &&& start.next_id <= after.next_id
    &&& forall|id: u64| #[trigger]
        after.current.ids.contains(id) ==> start.current.ids.contains(id) || id >= start.next_id
    &&& after.current.deferred.len() == start.current.deferred.len() + all_deferred(steps).len()
    &&& !after.threads.dom().is_empty()
    &&& forall|thread: u64|
        after.threads.contains_key(thread) && #[trigger] after.threads[thread]
            == ThreadState::Busy ==> start.threads.contains_key(thread) && !ends_a_pin(
            steps,
            thread,
        )
}

/// Where the flags that wait after a step have been before it.
proof fn lemma_waiting_flags<C>(state: CollectorView<C>, step: Step<C>)
    requires
        state.wf(),
        state.allows(step),
        !(step is Register),
    ensures
        state.next_id <= state.after(step).next_id,
        forall|id: u64| #[trigger]
            state.after(step).current.ids.contains(id) ==> state.current.ids.contains(id) || id
                >= state.next_id,
        forall|id: u64| #[trigger]
            state.after(step).previous.ids.contains(id) ==> state.previous.ids.contains(id)
                || state.current.ids.contains(id),
        match step {
            Step::Unregister(thread) => model::last_busy(state.threads, thread),
            Step::Collect(Some(thread)) => state.waits_for(thread),
            _ => false,
        } ==> {
            &&& state.after(step).current.ids.len() == 0
            &&& forall|id: u64| #[trigger]
                state.after(step).previous.ids.contains(id) ==> state.current.ids.contains(id)
        },
{
    broadcast use seq_lib::group_seq_properties;

    match step {
        Step::CancelByIds(ids) => {
            let keep = |id: u64| !ids.contains(id);
            assert forall|id: u64| #[trigger]
                state.after(step).current.ids.contains(id) implies state.current.ids.contains(
                id,
            ) by {
                state.current.ids.lemma_filter_contains_rev(keep, id);
            }
            assert forall|id: u64| #[trigger]
                state.after(step).previous.ids.contains(id) implies state.previous.ids.contains(
                id,
            ) by {
                state.previous.ids.lemma_filter_contains_rev(keep, id);
            }
        },
        _ => {},
    }
}

proof fn lemma_epoch<C>(start: CollectorView<C>, steps: Seq<Step<C>>)
    requires
        start.wf(),
        !start.threads.dom().is_empty(),
        start.allows_all(steps),
        forall|i: int| 0 <= i < steps.len() ==> !(#[trigger] steps[i] is Register),
    ensures
        epoch_ended(start, steps) || epoch_goes_on(start, steps),
    decreases steps.len(),
{
    if steps.len() > 0 {
        let before = steps.drop_last();
        let step = steps.last();
        assert(step == steps[steps.len() - 1]);
        assert forall|i: int| 0 <= i < before.len() implies !(#[trigger] before[i] is Register) by {
            assert(before[i] == steps[i]);
        }
        lemma_epoch(start, before);
        a_collector_stays_consistent(start, before);
        let mid = start.after_all(before);
        let after = start.after_all(steps);
        assert(all_deferred(steps) == all_deferred(before) + step.deferred());
        lemma_waiting_flags(mid, step);
        if epoch_ended(start, before) {
            assert(epoch_ended(start, steps));
        } else {
            match step {
                Step::Unregister(thread) => {
                    if model::last_busy(mid.threads, thread) {
                        assert(epoch_ended(start, steps));
                    } else {
                        let busy = choose|busy: u64|
                            mid.threads.contains_key(busy) && #[trigger] mid.threads[busy]
                                == ThreadState::Busy && busy != thread;
                        assert(after.threads.contains_key(busy));
                        assert(epoch_goes_on(start, steps)) by {
                            lemma_still_busy(start, steps);
                        }
                    }
                },
                Step::Collect(Some(thread)) => {
                    assert(mid.threads.contains_key(thread));
                    if mid.waits_for(thread) {
                        assert(epoch_ended(start, steps));
                    } else {
                        assert(after.threads.contains_key(thread));
                        assert(epoch_goes_on(start, steps)) by {
                            lemma_still_busy(start, steps);
                        }
                    }
                },
                _ => {
                    assert(epoch_goes_on(start, steps)) by {
                        lemma_still_busy(start, steps);
                    }
                },
            }
        }
    } else {
        assert(epoch_goes_on(start, steps));
    }
}

proof fn lemma_still_busy<C>(start: CollectorView<C>, steps: Seq<Step<C>>)
    requires
        steps.len() > 0,
        epoch_goes_on(start, steps.drop_last()),
        ({
            let mid = start.after_all(steps.drop_last());
            let after = start.after_all(steps);
            forall|thread: u64|
                after.threads.contains_key(thread) && #[trigger] after.threads[thread]
                    == ThreadState::Busy ==> mid.threads.contains_key(thread)
                    && mid.threads[thread] == ThreadState::Busy && !steps.last().ends_pin_of(thread)
        }),
    ensures
        ({
            let after = start.after_all(steps);
            forall|thread: u64|
                after.threads.contains_key(thread) && #[trigger] after.threads[thread]
                    == ThreadState::Busy ==> start.threads.contains_key(thread) && !ends_a_pin(
                    steps,
                    thread,
                )
        }),
{
    let before = steps.drop_last();
    let mid = start.after_all(before);
    let after = start.after_all(steps);
    assert forall|thread: u64|
        after.threads.contains_key(thread) && #[trigger] after.threads[thread]
            == ThreadState::Busy implies start.threads.contains_key(thread) && !ends_a_pin(
        steps,
        thread,
    ) by {
        assert(mid.threads[thread] == ThreadState::Busy);
        if ends_a_pin(steps, thread) {
            let i = choose|i: int| 0 <= i < steps.len() && (#[trigger] steps[i]).ends_pin_of(thread);
            if i < before.len() {
                assert(before[i].ends_pin_of(thread));
            }
        }
    }
}

proof fn lemma_round<C>(start: CollectorView<C>, steps: Seq<Step<C>>)
    requires
        start.wf(),
        !start.threads.dom().is_empty(),
        is_round(start, steps),
    ensures
        epoch_ended(start, steps),
{
    lemma_epoch(start, steps);
    a_collector_stays_consistent(start, steps);
    let after = start.after_all(steps);
    if epoch_goes_on(start, steps) {
        let busy = choose|busy: u64|
            after.threads.contains_key(busy) && #[trigger] after.threads[busy] == ThreadState::Busy;
        assert(start.threads.contains_key(busy) && !ends_a_pin(steps, busy));
    }
}

/// Without threads, and without any that joins, only what is deferred waits.
proof fn lemma_nobody_joins<C>(start: CollectorView<C>, steps: Seq<Step<C>>)
    requires
        start.wf(),
        start.threads.dom().is_empty(),
        start.allows_all(steps),
        forall|i: int| 0 <= i < steps.len() ==> !(#[trigger] steps[i] is Register),
    ensures
        start.after_all(steps).threads.dom().is_empty(),
        start.next_id <= start.after_all(steps).next_id,
        waiting(start.after_all(steps)) <= start.current.deferred.len() + all_deferred(steps).len(),
        forall|id: u64| #[trigger]
            flag_waits(start.after_all(steps), id) ==> start.current.ids.contains(id) || id
                >= start.next_id,
    decreases steps.len(),
{
    if steps.len() > 0 {
        let before = steps.drop_last();
        let step = steps.last();
        assert(step == steps[steps.len() - 1]);
        assert forall|i: int| 0 <= i < before.len() implies !(#[trigger] before[i] is Register) by {
            assert(before[i] == steps[i]);
        }
        lemma_nobody_joins(start, before);
        a_collector_stays_consistent(start, before);
        let mid = start.after_all(before);
        lemma_waiting_flags(mid, step);
        mid.lemma_step(step);
        match step {
            Step::Unregister(thread) => {
                assert(mid.threads.dom().contains(thread));
            },
            Step::Collect(Some(thread)) => {
                assert(mid.threads.dom().contains(thread));
            },
            _ => {},
        }
        assert forall|id: u64| #[trigger]
            flag_waits(start.after_all(steps), id) implies start.current.ids.contains(id) || id
            >= start.next_id by {
            assert(flag_waits(mid, id) || id >= mid.next_id);
        }
    }
}

/// Once every registered thread has collected or left, the callbacks that were deferred before the
/// last epoch began wait no longer: they have been handed out, or the next collection hands them
/// out. What still waits was deferred since.
pub proof fn a_round_of_collections_ends_the_epoch<C>(start: CollectorView<C>, steps: Seq<Step<C>>)
    requires
        start.wf(),
        !start.threads.dom().is_empty(),
        is_round(start, steps),
    ensures
        waiting(start.after_all(steps)) <= start.current.deferred.len() + all_deferred(steps).len(),
        start.after_all(steps).current.deferred.len() <= all_deferred(steps).len(),
{
    lemma_round(start, steps);
}

/// Once every registered thread has collected or left, and all that are left then have done so once
/// more, every callback that was held at the beginning has been handed out, or the next collection
/// hands it out: no more callbacks wait than have been deferred since.
pub proof fn two_rounds_of_collections_reach_every_callback<C>(
    start: CollectorView<C>,
    first: Seq<Step<C>>,
    second: Seq<Step<C>>,
)
    requires
        start.wf(),
        !start.threads.dom().is_empty(),
        is_round(start, first),
        is_round(start.after_all(first), second),
    ensures
        waiting(start.after_all(first).after_all(second)) <= all_deferred(first).len()
            + all_deferred(second).len(),
{
    let mid = start.after_all(first);
    a_collector_stays_consistent(start, first);
    lemma_round(start, first);
    if mid.threads.dom().is_empty() {
        lemma_nobody_joins(mid, second);
    } else {
        lemma_round(mid, second);
    }
}

/// Once every registered thread has collected or left, and all that are left then have done so once
/// more, no flag that was registered at the beginning waits any longer: it has been set or cancelled,
/// or the next collection sets it.
pub proof fn two_rounds_of_collections_reach_every_flag<C>(
    start: CollectorView<C>,
    first: Seq<Step<C>>,
    second: Seq<Step<C>>,
    id: u64,
)
    requires
        start.wf(),
        !start.threads.dom().is_empty(),
        is_round(start, first),
        is_round(start.after_all(first), second),
        id < start.next_id,
    ensures
        !flag_waits(start.after_all(first).after_all(second), id),
{
    let mid = start.after_all(first);
    a_collector_stays_consistent(start, first);
    lemma_round(start, first);
    if mid.threads.dom().is_empty() {
        lemma_nobody_joins(mid, second);
    } else {
        lemma_round(mid, second);
    }
}

/// Once every registered thread has collected or left, all that are left then have done so once more,
/// and one more collection has been made, every flag that was registered at the beginning has been
/// set, unless it was cancelled or dropped.
pub proof fn a_collection_after_two_rounds_sets_every_flag<C>(
    start: CollectorView<C>,
    first: Seq<Step<C>>,
    second: Seq<Step<C>>,
    thread: Option<u64>,
    id: u64,
)
    requires
        start.wf(),
        is_round(start, first),
        is_round(start.after_all(first), second),
        start.after_all(first).after_all(second).allows(Step::Collect(thread)),
        id < start.next_id,
        ({
            let end = start.after_all(first).after_all(second);
            end.held().ids.contains(id) || end.ready.contains(id)
        }),
    ensures
        start.after_all(first).after_all(second).collected(thread).ready.contains(id),
{
    broadcast use seq_lib::group_seq_properties;

    let mid = start.after_all(first);
    let end = mid.after_all(second);
    a_collector_stays_consistent(start, first);
    if start.threads.dom().is_empty() {
        lemma_nobody_joins(start, first);
        lemma_nobody_joins(mid, second);
        if let Some(thread) = thread {
            assert(end.threads.dom().contains(thread));
        }
    } else {
        two_rounds_of_collections_reach_every_flag(start, first, second, id);
    }
    if end.held().ids.contains(id) {
        assert(end.garbage(thread).ids.contains(id)) by {
            if !end.threads.dom().is_empty() {
                assert(!flag_waits(end, id));
                assert(end.pending.ids.contains(id));
            }
        }
    }
}

/// A thread that is alone collects everything that is held, and so does one that is not registered
/// if no thread is.
pub proof fn a_lone_thread_collects_everything<C>(state: CollectorView<C>, thread: Option<u64>)
    requires
        state.wf(),
        match thread {
            Some(thread) => state.threads.dom() == set![thread],
            None => state.threads.dom().is_empty(),
        },
    ensures
        state.garbage(thread) == state.held(),
        !state.collected(thread).holds_any(),
{
    match thread {
        Some(thread) => {
            let busy = choose|busy: u64|
                state.threads.contains_key(busy) && #[trigger] state.threads[busy]
                    == ThreadState::Busy;
            assert(set![thread].contains(busy));
            assert(state.threads.dom().contains(thread));
        },
        None => {},
    }
}

/// Whether `thread`, which last saw the event counter at `seen`, still has to report a quiescent
/// state for callbacks or flags that wait, and does not know it.
pub open spec fn overlooks<C>(state: CollectorView<C>, thread: u64, seen: usize) -> bool {
    &&& state.threads.contains_key(thread)
    &&& state.threads[thread] == ThreadState::Busy
    &&& !(state.previous.is_none() && state.current.is_none())
    &&& seen == state.events
}

/// No step of another thread makes a thread overlook what waits for it, unless the event counter
/// wraps around to the value that the thread has seen.
pub proof fn a_busy_thread_is_signalled<C>(
    state: CollectorView<C>,
    step: Step<C>,
    thread: u64,
    seen: usize,
)
    requires
        state.wf(),
        state.allows(step),
        !step.ends_pin_of(thread),
        step != Step::<C>::Register(thread),
        !overlooks(state, thread, seen),
        seen != model::next_event(state.events),
    ensures
        !overlooks(state.after(step), thread, seen),
{
}

/// A thread that has just collected overlooks nothing, and neither does one that has just
/// registered and has set back the event counter that it has seen if callbacks or flags are held.
pub proof fn a_thread_starts_attentive<C>(state: CollectorView<C>, thread: u64, seen: usize)
    requires
        state.wf(),
    ensures
        state.threads.contains_key(thread) ==> !overlooks(
            state.collected(Some(thread)),
            thread,
            seen,
        ),
        seen != state.events || !state.holds_any() ==> !overlooks(
            state.registered(thread),
            thread,
            seen,
        ),
{
}

/// An id that is registered, or whose flag is set, stays so unless it is cancelled or its flag
/// dropped.
pub proof fn lemma_known_id<C>(state: CollectorView<C>, step: Step<C>, id: u64)
    requires
        state.wf(),
        state.allows(step),
        id < state.next_id,
        state.held().ids.contains(id) || state.ready.contains(id),
        match step {
            Step::CancelByIds(ids) => !ids.contains(id),
            Step::DropFlag(dropped) => dropped != id,
            _ => true,
        },
    ensures
        id < state.after(step).next_id,
        state.after(step).held().ids.contains(id) || state.after(step).ready.contains(id),
{
    broadcast use seq_lib::group_seq_properties;

    let after = state.after(step);
    match step {
        Step::Defer(callback) => {
            assert(after.held().ids =~= state.held().ids);
        },
        Step::DeferById => {
            assert(after.held().ids =~= state.held().ids.push(state.next_id));
        },
        Step::CancelByIds(ids) => {
            state.cancellation_keeps_the_others(ids);
            let keep = |id: u64| !ids.contains(id);
            if state.held().ids.contains(id) {
                let i = choose|i: int| 0 <= i < state.held().ids.len() && state.held().ids[i] == id;
                state.held().ids.lemma_filter_contains(keep, i);
            }
        },
        Step::Register(_) | Step::DropFlag(_) => {
            assert(after.held() == state.held());
        },
        Step::Unregister(thread) => {
            let left = CollectorView { threads: state.threads.remove(thread), ..state };
            left.epoch_completion_keeps_callbacks(true);
            assert(after.held() == state.held());
        },
        Step::Collect(thread) => {
            state.collection_hands_out_the_oldest(thread);
        },
    }
}

} // verus!

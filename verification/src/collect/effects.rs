//! What the operations on a collector are for: who gets to see what, and when.

use super::laws::Step;
use super::model::{CallbacksView, CollectorView, DataView, State, ThreadState};
use super::{Collector, Data};
use vstd::prelude::*;

verus! {

/// Whether something is held there.
pub open spec fn some<C>(callbacks: CallbacksView<C>) -> bool {
    callbacks.deferred.len() > 0 || callbacks.ids.len() > 0
}

/// Whether the event counter has been advanced by one. It wraps around.
pub open spec fn advanced(before: usize, after: usize) -> bool {
    after == before + 1 || before == usize::MAX && after == 0
}

/// Whether `thread` is busy while all other threads are quiet.
pub open spec fn only_busy<C>(state: CollectorView<C>, thread: u64) -> bool {
    &&& state.threads[thread] == ThreadState::Busy
    &&& forall|other: u64|
        state.threads.contains_key(other) && other != thread ==> #[trigger] state.threads[other]
            == ThreadState::Quiet
}

/// Whether a thread other than `thread` is registered.
pub open spec fn has_others<C>(state: CollectorView<C>, thread: u64) -> bool {
    exists|other: u64| #[trigger] state.threads.contains_key(other) && other != thread
}

/// Every collection, by whichever thread, hands out all callbacks that are ready to be run, before any
/// others, and sets all flags that are ready to be set. Nothing is left that is ready.
pub proof fn every_collection_takes_what_is_pending<C>(
    state: CollectorView<C>,
    thread: Option<u64>,
)
    requires
        state.wf(),
        thread matches Some(thread) ==> state.threads.contains_key(thread),
    ensures
        state.pending.deferred.is_prefix_of(state.garbage(thread).deferred),
        forall|id: u64| #[trigger]
            state.pending.ids.contains(id) ==> state.collected(thread).ready.contains(id),
        !some(state.collected(thread).pending),
{
    let out = state.garbage(thread);
    assert(out.deferred.take(state.pending.deferred.len() as int) =~= state.pending.deferred);
    assert forall|id: u64| #[trigger] state.pending.ids.contains(id) implies state.collected(
        thread,
    ).ready.contains(id) by {
        let i = choose|i: int| 0 <= i < state.pending.ids.len() && state.pending.ids[i] == id;
        assert(out.ids[i] == id);
        assert(out.ids.to_set().contains(id));
    }
}

/// A collection sets the flags that it takes, and these only. They wait no longer, and are not ready to
/// be set once more.
pub proof fn a_collection_sets_the_flags_that_it_takes<C>(
    state: CollectorView<C>,
    thread: Option<u64>,
    id: u64,
)
    requires
        state.wf(),
        thread matches Some(thread) ==> state.threads.contains_key(thread),
    ensures
        state.collected(thread).ready.contains(id) <==> state.ready.contains(id) || state.garbage(
            thread,
        ).ids.contains(id),
        state.garbage(thread).ids.contains(id) ==> {
            let after = state.collected(thread);
            &&& !after.pending.ids.contains(id)
            &&& !after.previous.ids.contains(id)
            &&& !after.current.ids.contains(id)
        },
        state.collected(thread).next_id == state.next_id,
{
    let out = state.garbage(thread).ids;
    let after = state.collected(thread);
    state.collection_hands_out_the_oldest(thread);
    assert(out.contains(id) <==> out.to_set().contains(id));
    if out.contains(id) {
        state.collection_keeps_wf(thread);
        assert(after.ready.contains(id));
        assert(!after.held().ids.contains(id));
        if after.pending.ids.contains(id) {
            let i = after.pending.ids.index_of(id);
            assert(after.held().ids[i] == id);
        }
        if after.previous.ids.contains(id) {
            let i = after.previous.ids.index_of(id);
            assert(after.held().ids[after.pending.ids.len() + i] == id);
        }
        if after.current.ids.contains(id) {
            let i = after.current.ids.index_of(id);
            assert(after.held().ids[after.pending.ids.len() + after.previous.ids.len() + i] == id);
        }
    }
}

/// A thread that is not registered gets what is ready, and everything if no thread is registered. It
/// changes nothing else.
pub proof fn an_unregistered_thread_collects_what_nobody_holds_off<C>(state: CollectorView<C>)
    requires
        state.wf(),
    ensures
        ({
            let out = state.garbage(None);
            let after = state.collected(None);
            let nobody = forall|thread: u64| !#[trigger] state.threads.contains_key(thread);
            &&& after.threads == state.threads
            &&& after.events == state.events
            &&& nobody ==> {
                &&& out.deferred == state.pending.deferred + state.previous.deferred
                    + state.current.deferred
                &&& out.ids == state.pending.ids + state.previous.ids + state.current.ids
                &&& !some(after.pending) && !some(after.previous) && !some(after.current)
            }
            &&& !nobody ==> {
                &&& out == state.pending
                &&& after.previous == state.previous
                &&& after.current == state.current
                &&& !some(after.pending)
            }
        }),
{
    if forall|thread: u64| !#[trigger] state.threads.contains_key(thread) {
        assert(state.threads.dom() =~= Set::empty());
    } else {
        let thread = choose|thread: u64| #[trigger] state.threads.contains_key(thread);
        assert(state.threads.dom().contains(thread));
    }
}

/// A registered thread that collects is quiet then. Unless it was the only busy one, the epoch goes on: it
/// gets what is ready, and everything else waits as before, the other threads too.
pub proof fn a_collection_within_an_epoch_moves_nothing<C>(state: CollectorView<C>, thread: u64)
    requires
        state.wf(),
        state.threads.contains_key(thread),
        !only_busy(state, thread),
    ensures
        ({
            let after = state.collected(Some(thread));
            &&& state.garbage(Some(thread)) == state.pending
            &&& after.threads == state.threads.insert(thread, ThreadState::Quiet)
            &&& after.previous == state.previous
            &&& after.current == state.current
            &&& !some(after.pending)
            &&& after.events == state.events
        }),
{
    if state.waits_for(thread) {
        assert forall|other: u64|
            state.threads.contains_key(other) && other
                != thread implies #[trigger] state.threads[other] == ThreadState::Quiet by {
            if state.threads[other] != ThreadState::Quiet {
                assert(state.threads[other] == ThreadState::Busy);
            }
        }
    }
}

/// The last busy thread that collects ends the epoch. It gets what is ready and what has waited for a
/// whole epoch, and also the rest if it is alone. What has been deferred in the epoch waits for the
/// others, which are all busy and signalled. The thread is quiet already if it leaves something for
/// them to wait for.
pub proof fn the_last_busy_thread_ends_the_epoch_when_it_collects<C>(
    state: CollectorView<C>,
    thread: u64,
)
    requires
        state.wf(),
        state.threads.contains_key(thread),
        only_busy(state, thread),
    ensures
        ({
            let out = state.garbage(Some(thread));
            let after = state.collected(Some(thread));
            let waited = state.pending.deferred + state.previous.deferred;
            let waited_ids = state.pending.ids + state.previous.ids;
            &&& after.threads.dom() == state.threads.dom()
            &&& forall|other: u64|
                state.threads.contains_key(other) && other != thread
                    ==> #[trigger] after.threads[other] == ThreadState::Busy
            &&& after.threads[thread] == ThreadState::Quiet <==> has_others(state, thread) && some(
                state.current,
            )
            &&& !some(after.pending) && !some(after.current)
            &&& has_others(state, thread) ==> {
                &&& out.deferred == waited
                &&& out.ids == waited_ids
                &&& after.previous == state.current
            }
            &&& !has_others(state, thread) ==> {
                &&& out.deferred == waited + state.current.deferred
                &&& out.ids == waited_ids + state.current.ids
                &&& !some(after.previous)
            }
            &&& some(state.current) ==> advanced(state.events, after.events)
            &&& !some(state.current) ==> after.events == state.events
        }),
{
    assert(state.waits_for(thread)) by {
        assert forall|other: u64|
            state.threads.contains_key(other) && #[trigger] state.threads[other]
                == ThreadState::Busy implies other == thread by {}
    }
    let after = state.collected(Some(thread));
    state.lemma_quieted_threads(thread);
    if has_others(state, thread) {
        let other = choose|other: u64| #[trigger]
            state.threads.contains_key(other) && other != thread;
        assert(!state.alone(thread)) by {
            if state.alone(thread) {
                assert(state.threads.dom().contains(other));
                assert(set![thread].contains(other));
            }
        }
        if !some(state.current) {
            assert(after.previous =~= state.current);
        }
    } else {
        assert(state.threads.dom() =~= set![thread]);
        if !some(state.current) {
            assert(state.held() =~= state.pending.followed_by(state.previous));
        }
    }
    assert forall|other: u64|
        state.threads.contains_key(other) && other != thread implies #[trigger] after.threads[other]
        == ThreadState::Busy by {}
}

/// A thread that leaves does not end the epoch as long as another one is busy: nothing else changes.
pub proof fn a_departure_within_an_epoch_moves_nothing<C>(
    state: CollectorView<C>,
    thread: u64,
    other: u64,
)
    requires
        state.wf(),
        state.threads.contains_key(thread),
        state.threads.contains_key(other),
        other != thread,
        state.threads[other] == ThreadState::Busy,
    ensures
        state.unregistered(thread) == (CollectorView {
            threads: state.threads.remove(thread),
            ..state
        }),
{
    assert(state.threads[other] == ThreadState::Busy);
}

/// If no other thread is busy, a thread that leaves ends the epoch: what has waited for a whole epoch
/// is ready, and what has been deferred in the epoch waits for the others, or is ready if there are
/// none. The others are all busy, and everyone is signalled if there is something for them to do.
pub proof fn the_last_busy_thread_ends_the_epoch_when_it_leaves<C>(
    state: CollectorView<C>,
    thread: u64,
)
    requires
        state.wf(),
        state.threads.contains_key(thread),
        forall|other: u64|
            state.threads.contains_key(other) && other != thread ==> #[trigger] state.threads[other]
                == ThreadState::Quiet,
    ensures
        ({
            let after = state.unregistered(thread);
            let waited = state.pending.deferred + state.previous.deferred;
            let waited_ids = state.pending.ids + state.previous.ids;
            &&& after.threads.dom() == state.threads.dom().remove(thread)
            &&& forall|other: u64| #[trigger]
                after.threads.contains_key(other) ==> after.threads[other] == ThreadState::Busy
            &&& !some(after.current)
            &&& has_others(state, thread) ==> {
                &&& after.pending.deferred == waited
                &&& after.pending.ids == waited_ids
                &&& after.previous == state.current
            }
            &&& !has_others(state, thread) ==> {
                &&& after.pending.deferred == waited + state.current.deferred
                &&& after.pending.ids == waited_ids + state.current.ids
                &&& !some(after.previous)
            }
            &&& some(after.pending) || some(after.previous) ==> advanced(
                state.events,
                after.events,
            )
            &&& !some(after.pending) && !some(after.previous) ==> after.events == state.events
            &&& after.ready == state.ready
            &&& after.next_id == state.next_id
        }),
{
    let left = state.threads.remove(thread);
    let after = state.unregistered(thread);
    if has_others(state, thread) {
        let other = choose|other: u64| #[trigger]
            state.threads.contains_key(other) && other != thread;
        assert(left.dom().contains(other));
    } else {
        assert(left.dom() =~= Set::empty());
    }
    assert(after.threads.dom() =~= state.threads.dom().remove(thread));
}

/// Whenever callbacks or flags become ready without being taken, or more of them, the event counter is
/// advanced: a thread that had seen all events will collect. This is so of every operation.
pub proof fn what_becomes_ready_is_signalled<C>(state: CollectorView<C>, step: Step<C>)
    requires
        state.wf(),
        state.allows(step),
    ensures
        ({
            let after = state.after(step);
            after.pending.deferred.len() > state.pending.deferred.len() || after.pending.ids.len()
                > state.pending.ids.len() ==> advanced(state.events, after.events)
        }),
{
    broadcast use vstd::seq_lib::group_seq_properties;

    match step {
        Step::CancelByIds(ids) => {
            let keep = |id: u64| !ids.contains(id);
            state.pending.ids.lemma_filter_len(keep);
        },
        Step::Unregister(thread) => {
            assert(state.threads.contains_key(thread));
        },
        Step::Collect(thread) => {
            every_collection_takes_what_is_pending(state, thread);
        },
        _ => {},
    }
}

/// No operation makes a thread, registered or not, overlook callbacks or flags that are ready: if it has
/// not seen the last event as long as something is ready, that stays so, unless the event counter wraps
/// around to the value that the thread has seen.
pub proof fn what_is_ready_is_not_overlooked<C>(state: CollectorView<C>, step: Step<C>, seen: usize)
    requires
        state.wf(),
        state.allows(step),
        some(state.pending) ==> seen != state.events,
        !advanced(state.events, seen),
    ensures
        some(state.after(step).pending) ==> seen != state.after(step).events,
{
    broadcast use vstd::seq_lib::group_seq_properties;

    match step {
        Step::CancelByIds(ids) => {
            let keep = |id: u64| !ids.contains(id);
            state.pending.ids.lemma_filter_len(keep);
        },
        Step::Collect(thread) => {
            every_collection_takes_what_is_pending(state, thread);
        },
        _ => {},
    }
}

/// A thread that leaves and makes something ready by that makes every thread collect that had seen all
/// events before.
pub proof fn a_departure_wakes_the_others<C>(state: CollectorView<C>, thread: u64, seen: usize)
    requires
        state.wf(),
        state.threads.contains_key(thread),
        seen == state.events,
        !some(state.pending),
        some(state.unregistered(thread).pending),
    ensures
        seen != state.unregistered(thread).events,
{
    what_becomes_ready_is_signalled(state, Step::Unregister(thread));
}

/// A thread that pins is registered, as a busy one, and the only thing that changes for others is that it
/// is there. If anything is held, whether it waits or is ready, and whether it is a callback or a flag,
/// the thread has yet to see the last event, so that its next collection is not skipped. A thread
/// that was registered changes nothing.
pub proof fn a_pin_registers_the_thread<C>(data: DataView, collector: CollectorView<C>)
    requires
        collector.wf(),
        data.state != State::Collecting,
        data.attached_to(collector),
    ensures
        ({
            let after = data.prepared(collector);
            let joined = data.prepared_collector(collector);
            &&& after.thread_id == data.thread_id
            &&& joined.threads.contains_key(data.thread_id)
            &&& data.state != State::Unregistered ==> after == data && joined == collector
            &&& data.state == State::Unregistered ==> {
                &&& !collector.threads.contains_key(data.thread_id)
                &&& after.state == State::Registered
                &&& joined.threads == collector.threads.insert(data.thread_id, ThreadState::Busy)
                &&& joined.pending == collector.pending
                &&& joined.previous == collector.previous
                &&& joined.current == collector.current
                &&& joined.events == collector.events
                &&& joined.ready == collector.ready
                &&& joined.next_id == collector.next_id
                &&& if some(joined.pending) || some(joined.previous) || some(joined.current) {
                    advanced(after.seen_events, joined.events) && after.seen_events
                        != joined.events
                } else {
                    after.seen_events == data.seen_events
                }
            }
        }),
{
}

/// What registering a thread does, wherever it is done.
pub proof fn a_thread_that_registers_does_not_overlook_what_is_held<C>(
    data: DataView,
    collector: CollectorView<C>,
)
    requires
        collector.wf(),
    ensures
        ({
            let after = data.registered_with(collector);
            let joined = collector.registered(data.thread_id);
            &&& after.state == State::Registered
            &&& after.thread_id == data.thread_id
            &&& joined.events == collector.events
            &&& joined.threads == collector.threads.insert(data.thread_id, ThreadState::Busy)
            &&& joined.pending == collector.pending && joined.previous == collector.previous
                && joined.current == collector.current
            &&& joined.ready == collector.ready && joined.next_id == collector.next_id
            &&& some(collector.pending) || some(collector.previous) || some(collector.current)
                ==> after.seen_events != joined.events
        }),
{
}

/// A callback that is deferred waits behind all others, and is signalled. Nothing else changes.
pub proof fn a_deferred_callback_waits_behind_all_others<C>(state: CollectorView<C>, callback: C)
    ensures
        ({
            let after = state.deferred(callback);
            &&& after.current.deferred == state.current.deferred.push(callback)
            &&& after.current.ids == state.current.ids
            &&& after.pending == state.pending
            &&& after.previous == state.previous
            &&& after.threads == state.threads
            &&& after.ready == state.ready
            &&& after.next_id == state.next_id
            &&& advanced(state.events, after.events)
        }),
{
}

/// A flag that is registered waits behind all others under an id that no flag has had, and is signalled.
/// Nothing else changes.
pub proof fn a_registered_flag_waits_behind_all_others<C>(state: CollectorView<C>)
    requires
        state.wf(),
        state.next_id < u64::MAX,
    ensures
        ({
            let after = state.deferred_new_id();
            let id = state.next_id;
            &&& after.current.ids == state.current.ids.push(id)
            &&& after.current.deferred == state.current.deferred
            &&& after.pending == state.pending
            &&& after.previous == state.previous
            &&& after.threads == state.threads
            &&& after.ready == state.ready
            &&& after.next_id == id + 1
            &&& !state.ready.contains(id)
            &&& !state.pending.ids.contains(id) && !state.previous.ids.contains(id)
                && !state.current.ids.contains(id)
            &&& advanced(state.events, after.events)
        }),
{
    let id = state.next_id;
    if state.pending.ids.contains(id) {
        let i = state.pending.ids.index_of(id);
        assert(state.held().ids[i] == id);
        assert(state.held().ids.contains(id));
    }
    if state.previous.ids.contains(id) {
        let i = state.previous.ids.index_of(id);
        assert(state.held().ids[state.pending.ids.len() + i] == id);
        assert(state.held().ids.contains(id));
    }
    if state.current.ids.contains(id) {
        let i = state.current.ids.index_of(id);
        assert(state.held().ids[state.pending.ids.len() + state.previous.ids.len() + i] == id);
        assert(state.held().ids.contains(id));
    }
}

/// Whether `after` has the elements of `before` that are not in `ids`, in the same order.
pub open spec fn has_the_others(before: Seq<u64>, after: Seq<u64>, ids: Set<u64>) -> bool {
    &&& forall|id: u64| #[trigger]
        after.contains(id) <==> before.contains(id) && !ids.contains(id)
    &&& exists|places: Seq<int>|
        {
            &&& #[trigger] places.len() == after.len()
            &&& forall|i: int|
                0 <= i < after.len() ==> 0 <= #[trigger] places[i] < before.len() && after[i]
                    == before[places[i]]
            &&& forall|i: int, j: int|
                0 <= i < j < after.len() ==> #[trigger] places[i] < #[trigger] places[j]
        }
}

proof fn lemma_filter_has_the_others(s: Seq<u64>, ids: Set<u64>)
    ensures
        has_the_others(s, s.filter(|id: u64| !ids.contains(id)), ids),
    decreases s.len(),
{
    reveal(Seq::filter);
    let keep = |id: u64| !ids.contains(id);
    let after = s.filter(keep);
    assert forall|id: u64| #[trigger] after.contains(id) <==> s.contains(id) && !ids.contains(
        id,
    ) by {
        if after.contains(id) {
            broadcast use vstd::seq_lib::group_filter_ensures;

            s.lemma_filter_contains_rev(keep, id);
            let i = after.index_of(id);
            assert(keep(after[i]));
        }
        if s.contains(id) && !ids.contains(id) {
            s.lemma_filter_contains(keep, s.index_of(id));
        }
    }
    if s.len() == 0 {
        assert(Seq::<int>::empty().len() == after.len());
    } else {
        let rest = s.drop_last();
        lemma_filter_has_the_others(rest, ids);
        let kept = rest.filter(keep);
        let places = choose|places: Seq<int>|
            {
                &&& #[trigger] places.len() == kept.len()
                &&& forall|i: int|
                    0 <= i < kept.len() ==> 0 <= #[trigger] places[i] < rest.len() && kept[i]
                        == rest[places[i]]
                &&& forall|i: int, j: int|
                    0 <= i < j < kept.len() ==> #[trigger] places[i] < #[trigger] places[j]
            };
        let all = if keep(s.last()) {
            places.push(s.len() - 1)
        } else {
            places
        };
        assert(all.len() == after.len());
        assert forall|i: int| 0 <= i < after.len() implies 0 <= #[trigger] all[i] < s.len()
            && after[i] == s[all[i]] by {
            if i < kept.len() {
                assert(all[i] == places[i]);
                assert(after[i] == kept[i]);
            }
        }
    }
}

/// Cancelling ids takes exactly these out of what waits or is ready to be set. The other ids keep their
/// order, and flags that have been set stay set. No callback is affected, and no thread.
pub proof fn cancelling_takes_out_these_ids_only<C>(state: CollectorView<C>, ids: Set<u64>)
    ensures
        ({
            let after = state.cancelled(ids);
            &&& has_the_others(state.pending.ids, after.pending.ids, ids)
            &&& has_the_others(state.previous.ids, after.previous.ids, ids)
            &&& has_the_others(state.current.ids, after.current.ids, ids)
            &&& after.pending.deferred == state.pending.deferred
            &&& after.previous.deferred == state.previous.deferred
            &&& after.current.deferred == state.current.deferred
            &&& after.threads == state.threads
            &&& after.events == state.events
            &&& after.ready == state.ready
            &&& after.next_id == state.next_id
        }),
{
    lemma_filter_has_the_others(state.pending.ids, ids);
    lemma_filter_has_the_others(state.previous.ids, ids);
    lemma_filter_has_the_others(state.current.ids, ids);
}

/// A flag that is dropped is not set any more. Nothing else changes.
pub proof fn dropping_a_flag_changes_nothing_else<C>(state: CollectorView<C>, id: u64)
    ensures
        ({
            let after = state.without_flag(id);
            &&& forall|other: u64| #[trigger]
                after.ready.contains(other) <==> state.ready.contains(other) && other != id
            &&& after == (CollectorView { ready: after.ready, ..state })
        }),
{
}

/// A new collector has no threads and nothing to do.
pub proof fn a_new_collector_is_empty<C>()
    ensures
        ({
            let state = CollectorView::<C>::initial();
            &&& forall|thread: u64| !#[trigger] state.threads.contains_key(thread)
            &&& !some(state.pending) && !some(state.previous) && !some(state.current)
            &&& forall|id: u64| !#[trigger] state.ready.contains(id)
            &&& state.wf()
        }),
{
}

/// A thread that is registered or pinned is known to the collector it is attached to, and one that is
/// not registered is not. A thread collects as itself exactly if it is registered.
pub proof fn a_thread_and_its_collector_agree<C>(data: DataView, collector: CollectorView<C>)
    requires
        data.attached_to(collector),
    ensures
        data.state == State::Registered || data.state == State::Pinned
            ==> collector.threads.contains_key(data.thread_id),
        data.state == State::Unregistered ==> !collector.threads.contains_key(data.thread_id),
        data.state == State::Registered ==> data.collects_as() == Some(data.thread_id),
        data.state == State::Unregistered ==> data.collects_as() is None,
{
}

/// A pinned region is entered by a thread that is pinned, and that the collector knows as a registered
/// one: nothing that is deferred from now on is handed out before the thread collects or leaves. The
/// same holds as long as the region lasts.
pub proof fn a_pinned_region_is_that_of_a_registered_thread<C>(
    before: DataView,
    collector_before: CollectorView<C>,
    data: Data,
    collector: Collector<C>,
)
    requires
        before.attached_to(collector_before),
        before.state != State::Collecting,
    ensures
        super::at_start_of_pin(before, collector_before, data, collector) ==> {
            &&& data@.state == State::Pinned
            &&& data@.thread_id == before.thread_id
            &&& collector@.threads.contains_key(before.thread_id)
            &&& collector@.events == collector_before.events
            &&& collector@.pending == collector_before.pending
            &&& collector@.previous == collector_before.previous
            &&& collector@.current == collector_before.current
        },
        super::within_pin(before.thread_id, data, collector) ==> {
            &&& data@.state == State::Pinned
            &&& data@.thread_id == before.thread_id
            &&& collector@.threads.contains_key(before.thread_id)
        },
{
}

/// A thread that changes its state changes nothing else.
pub proof fn a_change_of_state_keeps_the_rest(data: DataView, state: State)
    ensures
        data.in_state(state).state == state,
        data.in_state(state).thread_id == data.thread_id,
        data.in_state(state).seen_events == data.seen_events,
{
}

} // verus!

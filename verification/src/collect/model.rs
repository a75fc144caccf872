//! The state of a collector, what each of its operations does to that state, and what holds of any
//! run of them.

use vstd::prelude::*;

verus! {

/// Callbacks and the ids of flags, each in the order in which they were registered.
#[verifier::ext_equal]
pub struct CallbacksView<C> {
    pub deferred: Seq<C>,
    pub ids: Seq<u64>,
}

impl<C> CallbacksView<C> {
    /// No callbacks and no ids.
    pub open spec fn none() -> Self {
        CallbacksView { deferred: Seq::empty(), ids: Seq::empty() }
    }

    /// These callbacks and ids, followed by those of `other`.
    pub open spec fn followed_by(self, other: Self) -> Self {
        CallbacksView { deferred: self.deferred + other.deferred, ids: self.ids + other.ids }
    }

    /// Whether there are neither callbacks nor ids.
    pub open spec fn is_none(self) -> bool {
        self.deferred.len() == 0 && self.ids.len() == 0
    }

    /// The callbacks, and the ids that are not in `ids`.
    pub open spec fn without(self, ids: Set<u64>) -> Self {
        CallbacksView { deferred: self.deferred, ids: self.ids.filter(|id: u64| !ids.contains(id)) }
    }
}

/// What a thread has reported in the current epoch.
#[derive(Clone, Copy, PartialEq, Eq, Debug, Structural)]
pub enum ThreadState {
    /// The thread reported a quiescent state for the current epoch.
    Quiet,
    /// The thread still needs to report a quiescent state for the current epoch.
    Busy,
}

/// What a thread is doing.
#[derive(Clone, Copy, PartialEq, Eq, Debug, Structural)]
pub enum State {
    /// Registered with the collector and allowed to enter a pinned region immediately.
    Registered,
    /// Currently inside a pinned region.
    Pinned,
    /// Not currently known to the collector.
    Unregistered,
    /// Running deferred callbacks as part of a collection pass.
    Collecting,
}

/// The state of a thread.
pub struct DataView {
    /// Current collector state for the thread.
    pub state: State,
    /// Last observed value of the event counter.
    pub seen_events: usize,
    /// The id of the thread.
    pub thread_id: u64,
}

impl DataView {
    /// Whether the collector and the thread agree on whether the thread is registered.
    pub open spec fn attached_to<C>(self, collector: CollectorView<C>) -> bool {
        match self.state {
            State::Registered | State::Pinned => collector.threads.contains_key(self.thread_id),
            State::Unregistered => !collector.threads.contains_key(self.thread_id),
            State::Collecting => true,
        }
    }

    /// The thread after it has registered. It has yet to see the events if callbacks are held.
    pub open spec fn registered_with<C>(self, collector: CollectorView<C>) -> Self {
        DataView {
            state: State::Registered,
            seen_events: if collector.holds_any() {
                last_event(collector.events)
            } else {
                self.seen_events
            },
            ..self
        }
    }

    /// The thread before it enters a pinned region: it is registered.
    pub open spec fn prepared<C>(self, collector: CollectorView<C>) -> Self {
        if self.state == State::Unregistered {
            self.registered_with(collector)
        } else {
            self
        }
    }

    /// The collector before the thread enters a pinned region.
    pub open spec fn prepared_collector<C>(self, collector: CollectorView<C>) -> CollectorView<C> {
        if self.state == State::Unregistered {
            collector.registered(self.thread_id)
        } else {
            collector
        }
    }

    /// The thread in the given state.
    pub open spec fn in_state(self, state: State) -> Self {
        DataView { state, ..self }
    }

    /// The thread as the one that collects: `None` if it is not registered.
    pub open spec fn collects_as(self) -> Option<u64> {
        if self.state == State::Registered {
            Some(self.thread_id)
        } else {
            None
        }
    }
}

/// The state of a collector.
#[verifier::ext_equal]
pub struct CollectorView<C> {
    /// Callbacks that are ready to run on the next collection attempt.
    pub pending: CallbacksView<C>,
    /// Callbacks that become eligible once the current epoch completes.
    pub previous: CallbacksView<C>,
    /// Callbacks deferred during the current epoch.
    pub current: CallbacksView<C>,
    /// Participation state of each registered thread for the current epoch.
    pub threads: Map<u64, ThreadState>,
    /// Event counter used to notify threads that reclamation state changed.
    pub events: usize,
    /// The ids of the flags that have been set.
    pub ready: Set<u64>,
    /// The least id that has not been given out.
    pub next_id: u64,
}

/// The event counter after one more event. It wraps around.
pub open spec fn next_event(events: usize) -> usize {
    if events == usize::MAX {
        0
    } else {
        (events + 1) as usize
    }
}

/// The event counter before the last event. It wraps around.
pub open spec fn last_event(events: usize) -> usize {
    if events == 0 {
        usize::MAX
    } else {
        (events - 1) as usize
    }
}

/// The same threads, all of them busy.
pub open spec fn all_busy(threads: Map<u64, ThreadState>) -> Map<u64, ThreadState> {
    Map::new(|thread: u64| threads.contains_key(thread), |thread: u64| ThreadState::Busy)
}

/// The threads that are busy.
pub open spec fn busy_threads(threads: Map<u64, ThreadState>) -> Set<u64> {
    threads.dom().filter(|thread: u64| threads[thread] == ThreadState::Busy)
}

/// Whether `thread` is the only one that is busy.
pub open spec fn last_busy(threads: Map<u64, ThreadState>, thread: u64) -> bool {
    forall|other: u64|
        threads.contains_key(other) && #[trigger] threads[other] == ThreadState::Busy ==> other
            == thread
}

impl<C> CollectorView<C> {
    /// No threads and no callbacks.
    pub open spec fn initial() -> Self {
        CollectorView {
            pending: CallbacksView::none(),
            previous: CallbacksView::none(),
            current: CallbacksView::none(),
            threads: Map::empty(),
            events: 0,
            ready: Set::empty(),
            next_id: 0,
        }
    }

    /// All callbacks and ids that the collector holds, the oldest first.
    pub open spec fn held(self) -> CallbacksView<C> {
        self.pending.followed_by(self.previous).followed_by(self.current)
    }

    /// Whether the collector holds callbacks or ids.
    pub open spec fn holds_any(self) -> bool {
        !(self.pending.is_none() && self.previous.is_none() && self.current.is_none())
    }

    /// After `callback` is deferred.
    pub open spec fn deferred(self, callback: C) -> Self {
        CollectorView {
            current: CallbacksView { deferred: self.current.deferred.push(callback), ..self.current },
            events: next_event(self.events),
            ..self
        }
    }

    /// After a flag is registered under a new id, which is the old `next_id`.
    pub open spec fn deferred_new_id(self) -> Self {
        CollectorView {
            current: CallbacksView { ids: self.current.ids.push(self.next_id), ..self.current },
            events: next_event(self.events),
            next_id: (self.next_id + 1) as u64,
            ..self
        }
    }

    /// After the flags in `ids` are cancelled.
    pub open spec fn cancelled(self, ids: Set<u64>) -> Self {
        CollectorView {
            pending: self.pending.without(ids),
            previous: self.previous.without(ids),
            current: self.current.without(ids),
            ..self
        }
    }

    /// After `thread` has registered.
    pub open spec fn registered(self, thread: u64) -> Self {
        CollectorView { threads: self.threads.insert(thread, ThreadState::Busy), ..self }
    }

    /// After the current epoch is completed.
    pub open spec fn epoch_completed(self, signal_pending: bool) -> Self {
        let pending = self.pending.followed_by(self.previous);
        if self.threads.dom().is_empty() {
            let pending = pending.followed_by(self.current);
            CollectorView {
                pending,
                previous: CallbacksView::none(),
                current: CallbacksView::none(),
                events: if pending.is_none() {
                    self.events
                } else {
                    next_event(self.events)
                },
                ..self
            }
        } else {
            CollectorView {
                pending,
                previous: self.current,
                current: CallbacksView::none(),
                threads: all_busy(self.threads),
                events: if signal_pending && !pending.is_none() || !self.current.is_none() {
                    next_event(self.events)
                } else {
                    self.events
                },
                ..self
            }
        }
    }

    /// After `thread` has left. An epoch that waited for it alone is completed.
    pub open spec fn unregistered(self, thread: u64) -> Self {
        let left = CollectorView { threads: self.threads.remove(thread), ..self };
        if last_busy(self.threads, thread) {
            left.epoch_completed(true)
        } else {
            left
        }
    }

    /// What a thread that is not registered may collect.
    pub open spec fn unregistered_garbage(self) -> CallbacksView<C> {
        if self.threads.dom().is_empty() {
            self.held()
        } else {
            self.pending
        }
    }

    /// After a thread that is not registered has collected.
    pub open spec fn unregistered_collected(self) -> Self {
        if self.threads.dom().is_empty() {
            CollectorView {
                pending: CallbacksView::none(),
                previous: CallbacksView::none(),
                current: CallbacksView::none(),
                ..self
            }
        } else {
            CollectorView { pending: CallbacksView::none(), ..self }
        }
    }

    /// Whether `thread` is the one that the current epoch waits for.
    pub open spec fn waits_for(self, thread: u64) -> bool {
        self.threads[thread] == ThreadState::Busy && last_busy(self.threads, thread)
    }

    /// Whether `thread` is the only registered thread.
    pub open spec fn alone(self, thread: u64) -> bool {
        self.threads.dom() == set![thread]
    }

    /// What `thread` may collect when it reports a quiescent state.
    pub open spec fn quiet_garbage(self, thread: u64) -> CallbacksView<C> {
        if !self.waits_for(thread) {
            self.pending
        } else if self.alone(thread) {
            self.held()
        } else {
            self.pending.followed_by(self.previous)
        }
    }

    /// After `thread` has reported a quiescent state and collected.
    pub open spec fn quieted(self, thread: u64) -> Self {
        if !self.waits_for(thread) {
            CollectorView {
                pending: CallbacksView::none(),
                threads: self.threads.insert(thread, ThreadState::Quiet),
                ..self
            }
        } else if self.current.is_none() {
            CollectorView {
                pending: CallbacksView::none(),
                previous: CallbacksView::none(),
                threads: all_busy(self.threads),
                ..self
            }
        } else if self.alone(thread) {
            CollectorView {
                pending: CallbacksView::none(),
                previous: CallbacksView::none(),
                current: CallbacksView::none(),
                threads: all_busy(self.threads),
                events: next_event(self.events),
                ..self
            }
        } else {
            CollectorView {
                pending: CallbacksView::none(),
                previous: self.current,
                current: CallbacksView::none(),
                threads: all_busy(self.threads).insert(thread, ThreadState::Quiet),
                events: next_event(self.events),
                ..self
            }
        }
    }

    /// Whether `thread` starts the next epoch and reports its quiescent state in it at once.
    pub open spec fn quiet_catches_up(self, thread: u64) -> bool {
        self.waits_for(thread) && !self.current.is_none()
    }

    /// After the flags of the ids in `ids` are set.
    pub open spec fn marked(self, ids: Seq<u64>) -> Self {
        CollectorView { ready: self.ready.union(ids.to_set()), ..self }
    }

    /// What a collection by `thread` hands out. `None` is a thread that is not registered.
    pub open spec fn garbage(self, thread: Option<u64>) -> CallbacksView<C> {
        match thread {
            Some(thread) => self.quiet_garbage(thread),
            None => self.unregistered_garbage(),
        }
    }

    /// After a collection by `thread` has taken what it hands out. `None` is a thread that is not
    /// registered.
    pub open spec fn taken(self, thread: Option<u64>) -> Self {
        match thread {
            Some(thread) => self.quieted(thread),
            None => self.unregistered_collected(),
        }
    }

    /// After a collection by `thread`, which also sets the flags of the ids that it takes.
    pub open spec fn collected(self, thread: Option<u64>) -> Self {
        self.taken(thread).marked(self.garbage(thread).ids)
    }

    /// After the flag `id` is dropped, which is not looked at again.
    pub open spec fn without_flag(self, id: u64) -> Self {
        CollectorView { ready: self.ready.remove(id), ..self }
    }

    /// Whether no id is registered twice, or after its flag was set, and every id has been given
    /// out.
    pub open spec fn ids_wf(self) -> bool {
        &&& self.held().ids.no_duplicates()
        &&& forall|id: u64| #[trigger] self.held().ids.contains(id) ==> !self.ready.contains(id)
        &&& forall|id: u64| #[trigger] self.held().ids.contains(id) ==> id < self.next_id
        &&& forall|id: u64| #[trigger] self.ready.contains(id) ==> id < self.next_id
    }

    /// Whether the state is consistent: the epoch waits for a thread as long as there are any, no
    /// callback waits for the threads of an epoch if there are none, and the ids are in order.
    pub open spec fn wf(self) -> bool {
        &&& self.threads.dom().finite()
        &&& self.threads.dom().is_empty() || exists|thread: u64|
            self.threads.contains_key(thread) && #[trigger] self.threads[thread]
                == ThreadState::Busy
        &&& self.threads.dom().is_empty() ==> self.previous.is_none()
        &&& self.ids_wf()
    }

    /// Completing an epoch moves callbacks on, but neither drops nor reorders any.
    pub proof fn epoch_completion_keeps_callbacks(self, signal_pending: bool)
        ensures
            self.epoch_completed(signal_pending).held() == self.held(),
    {
        assert(self.epoch_completed(signal_pending).held() =~= self.held());
    }

    /// A collection hands out the oldest callbacks. It neither drops nor reorders any.
    pub proof fn collection_hands_out_the_oldest(self, thread: Option<u64>)
        ensures
            self.garbage(thread).followed_by(self.collected(thread).held()) == self.held(),
    {
        assert(self.garbage(thread).followed_by(self.collected(thread).held()) =~= self.held());
    }

    /// Cancelling ids keeps all callbacks and the order of those ids that are left.
    pub proof fn cancellation_keeps_the_others(self, ids: Set<u64>)
        ensures
            self.cancelled(ids).held() == self.held().without(ids),
    {
        let keep = |id: u64| !ids.contains(id);
        Seq::filter_distributes_over_add(self.pending.ids, self.previous.ids, keep);
        Seq::filter_distributes_over_add(
            self.pending.ids + self.previous.ids,
            self.current.ids,
            keep,
        );
    }

    /// A state stays consistent if its threads do, and if what it holds is the end of what it held
    /// before, and the flags of the rest have been set.
    pub(crate) proof fn lemma_ids_wf_suffix(self, before: Self, out: CallbacksView<C>)
        requires
            before.ids_wf(),
            out.followed_by(self.held()) == before.held(),
            before.ready.subset_of(self.ready),
            self.ready.subset_of(before.ready.union(out.ids.to_set())),
            self.next_id == before.next_id,
        ensures
            self.ids_wf(),
    {
        let ids = self.held().ids;
        let all = before.held().ids;
        assert(all == out.ids + ids);
        assert forall|i: int| 0 <= i < ids.len() implies #[trigger] ids[i] == all[i
            + out.ids.len()] by {}
        assert forall|i: int| 0 <= i < out.ids.len() implies #[trigger] out.ids[i] == all[i] by {}
        assert forall|id: u64| #[trigger] ids.contains(id) implies all.contains(id)
            && !self.ready.contains(id) by {
            let i = choose|i: int| 0 <= i < ids.len() && ids[i] == id;
            assert(all[i + out.ids.len()] == id);
            assert(before.held().ids.contains(id));
            if out.ids.contains(id) {
                let j = choose|j: int| 0 <= j < out.ids.len() && out.ids[j] == id;
                assert(all[j] == id);
            }
        }
        assert forall|id: u64| #[trigger] self.ready.contains(id) implies id < self.next_id by {
            if out.ids.contains(id) {
                let j = choose|j: int| 0 <= j < out.ids.len() && out.ids[j] == id;
                assert(all[j] == id);
                assert(all.contains(id));
            }
        }
    }

    /// Registering a thread keeps the state consistent.
    pub proof fn registration_keeps_wf(self, thread: u64)
        requires
            self.wf(),
        ensures
            self.registered(thread).wf(),
    {
        let after = self.registered(thread);
        assert(after.threads[thread] == ThreadState::Busy);
        assert(after.threads.contains_key(thread));
        after.lemma_ids_wf_suffix(self, CallbacksView::none());
    }

    /// The departure of a thread keeps the state consistent.
    pub proof fn unregistration_keeps_wf(self, thread: u64)
        requires
            self.wf(),
            self.threads.contains_key(thread),
        ensures
            self.unregistered(thread).wf(),
    {
        let left = CollectorView { threads: self.threads.remove(thread), ..self };
        let after = self.unregistered(thread);
        left.epoch_completion_keeps_callbacks(true);
        assert(CallbacksView::none().followed_by(after.held()) =~= self.held());
        after.lemma_ids_wf_suffix(self, CallbacksView::none());
        if last_busy(self.threads, thread) {
            if !after.threads.dom().is_empty() {
                let other = after.threads.dom().choose();
                assert(after.threads.contains_key(other));
                assert(after.threads[other] == ThreadState::Busy);
            }
            assert(after.threads.dom() =~= left.threads.dom());
        } else {
            let other = choose|other: u64|
                self.threads.contains_key(other) && #[trigger] self.threads[other]
                    == ThreadState::Busy && other != thread;
            assert(left.threads[other] == ThreadState::Busy);
        }
    }

    /// A collection keeps the state consistent.
    pub proof fn collection_keeps_wf(self, thread: Option<u64>)
        requires
            self.wf(),
            thread matches Some(thread) ==> self.threads.contains_key(thread),
        ensures
            self.taken(thread).wf(),
            self.collected(thread).wf(),
    {
        self.collection_hands_out_the_oldest(thread);
        assert(self.collected(thread).held() == self.taken(thread).held());
        self.taken(thread).lemma_ids_wf_suffix(self, self.garbage(thread));
        self.collected(thread).lemma_ids_wf_suffix(self, self.garbage(thread));
        match thread {
            Some(thread) => {
                self.lemma_quieted_threads(thread);
            },
            None => {},
        }
    }

    /// A thread that completes the epoch reports its quiescent state in the next one at once if the
    /// next one has callbacks.
    pub(crate) proof fn lemma_next_epoch(self, next: Self, thread: u64)
        requires
            self.wf(),
            self.threads.contains_key(thread),
            self.waits_for(thread),
            !self.current.is_none(),
            next == (CollectorView {
                pending: CallbacksView::none(),
                previous: self.current,
                current: CallbacksView::none(),
                threads: all_busy(self.threads),
                events: next_event(self.events),
                ..self
            }),
        ensures
            next.wf(),
            next.quieted(thread) == self.quieted(thread),
            self.quiet_garbage(thread) == self.pending.followed_by(self.previous).followed_by(
                next.quiet_garbage(thread),
            ),
    {
        assert(next.threads.dom() =~= self.threads.dom());
        assert(next.threads[thread] == ThreadState::Busy);
        assert(self.pending.followed_by(self.previous).followed_by(next.held()) =~= self.held());
        next.lemma_ids_wf_suffix(self, self.pending.followed_by(self.previous));
        assert(all_busy(next.threads) =~= all_busy(self.threads));
        if self.alone(thread) {
            assert(last_busy(next.threads, thread));
            assert(next.held() =~= self.current);
        } else {
            assert(!(self.threads.dom() =~= set![thread]));
            let other = choose|other: u64|
                #[trigger] self.threads.contains_key(other) && other != thread;
            assert(next.threads[other] == ThreadState::Busy);
            assert(next.quiet_garbage(thread) == CallbacksView::<C>::none());
            assert(self.pending.followed_by(self.previous).followed_by(CallbacksView::none())
                =~= self.pending.followed_by(self.previous));
        }
        assert(next.quieted(thread) =~= self.quieted(thread));
    }

    pub(crate) proof fn lemma_quieted_threads(self, thread: u64)
        requires
            self.wf(),
            self.threads.contains_key(thread),
        ensures
            self.quieted(thread).threads.dom() == self.threads.dom(),
            exists|busy: u64|
                self.threads.contains_key(busy) && #[trigger] self.quieted(thread).threads[busy]
                    == ThreadState::Busy,
    {
        let after = self.quieted(thread);
        assert(after.threads.dom() =~= self.threads.dom());
        let busy = if !self.waits_for(thread) {
            choose|busy: u64|
                self.threads.contains_key(busy) && #[trigger] self.threads[busy]
                    == ThreadState::Busy && busy != thread
        } else if self.current.is_none() || self.alone(thread) {
            thread
        } else {
            choose|busy: u64| #[trigger] self.threads.contains_key(busy) && busy != thread
        };
        if self.waits_for(thread) && !self.alone(thread) {
            assert(!(self.threads.dom() =~= set![thread]));
        }
        assert(self.threads.contains_key(busy));
        assert(after.threads[busy] == ThreadState::Busy);
    }

    /// Deferring a callback keeps the state consistent.
    pub proof fn deferral_keeps_wf(self, callback: C)
        requires
            self.wf(),
        ensures
            self.deferred(callback).wf(),
    {
        assert(self.deferred(callback).held().ids =~= self.held().ids);
        self.deferred(callback).lemma_ids_wf_suffix(
            CollectorView { current: self.deferred(callback).current, ..self },
            CallbacksView::none(),
        );
    }

    /// Registering a flag under a new id keeps the state consistent.
    pub proof fn registering_an_id_keeps_wf(self)
        requires
            self.wf(),
            self.next_id < u64::MAX,
        ensures
            self.deferred_new_id().wf(),
    {
        let after = self.deferred_new_id();
        assert(after.held().ids =~= self.held().ids.push(self.next_id));
        after.lemma_ids_wf_push(self, self.next_id);
    }

    /// Cancelling no ids changes nothing.
    pub(crate) proof fn cancelling_nothing_changes_nothing(self)
        ensures
            self.cancelled(Set::empty()) == self,
    {
        lemma_filter_all(self.pending.ids);
        lemma_filter_all(self.previous.ids);
        lemma_filter_all(self.current.ids);
    }

    /// Dropping a flag keeps the state consistent.
    pub proof fn dropping_a_flag_keeps_wf(self, id: u64)
        requires
            self.wf(),
        ensures
            self.without_flag(id).wf(),
    {
        let after = self.without_flag(id);
        assert(after.held() == self.held());
    }

    /// Cancelling ids keeps the state consistent.
    pub proof fn cancellation_keeps_wf(self, ids: Set<u64>)
        requires
            self.wf(),
        ensures
            self.cancelled(ids).wf(),
    {
        self.cancellation_keeps_the_others(ids);
        self.cancelled(ids).lemma_ids_wf_without(self, ids);
    }

    pub(crate) proof fn lemma_ids_wf_push(self, before: Self, id: u64)
        requires
            before.ids_wf(),
            self.held().ids == before.held().ids.push(id),
            self.ready == before.ready,
            before.next_id <= id < self.next_id,
        ensures
            self.ids_wf(),
    {
        let ids = self.held().ids;
        let all = before.held().ids;
        assert forall|other: u64| #[trigger] ids.contains(other) implies other == id
            || all.contains(other) by {
            let i = choose|i: int| 0 <= i < ids.len() && ids[i] == other;
            if i < all.len() {
                assert(all[i] == other);
            }
        }
        assert(!all.contains(id));
        assert forall|i: int, j: int| 0 <= i < j < ids.len() implies ids[i] != ids[j] by {
            if j == all.len() {
                assert(all.contains(all[i]));
            }
        }
    }

    pub(crate) proof fn lemma_ids_wf_without(self, before: Self, ids: Set<u64>)
        requires
            before.ids_wf(),
            self.held() == before.held().without(ids),
            self.ready == before.ready,
            self.next_id == before.next_id,
        ensures
            self.ids_wf(),
    {
        let keep = |id: u64| !ids.contains(id);
        lemma_filter_no_duplicates(before.held().ids, keep);
        assert forall|id: u64| #[trigger] self.held().ids.contains(id) implies
            before.held().ids.contains(id) by {
            before.held().ids.lemma_filter_contains_rev(keep, id);
        }
    }
}

proof fn lemma_filter_all(s: Seq<u64>)
    ensures
        s.filter(|id: u64| !Set::<u64>::empty().contains(id)) == s,
    decreases s.len(),
{
    reveal(Seq::filter);
    if s.len() > 0 {
        lemma_filter_all(s.drop_last());
        assert(s.drop_last().push(s.last()) =~= s);
    }
}

proof fn lemma_filter_no_duplicates(s: Seq<u64>, keep: spec_fn(u64) -> bool)
    requires
        s.no_duplicates(),
    ensures
        s.filter(keep).no_duplicates(),
    decreases s.len(),
{
    reveal(Seq::filter);
    if s.len() > 0 {
        let rest = s.drop_last();
        lemma_filter_no_duplicates(rest, keep);
        assert forall|i: int| 0 <= i < rest.filter(keep).len() implies #[trigger] rest.filter(
            keep,
        )[i] != s.last() by {
            let x = rest.filter(keep)[i];
            assert(rest.filter(keep).contains(x));
            rest.lemma_filter_contains_rev(keep, x);
            assert(rest.contains(x));
            let k = choose|k: int| 0 <= k < rest.len() && rest[k] == x;
            assert(s[k] == x);
        }
    }
}

} // verus!

//! An API for quiescent state based reclamation.
//!
//! Threads that read shared data pin themselves to mark the duration of the critical
//! section. Destruction of removed data is postponed with [defer] and later driven by
//! [collect], which advances the quiescent-state cycle of a [Collector].
//!
//! Threads which call [pin] will participate in memory reclamation and should
//! regularly call [collect] to allow memory reclamation to progress.
//! When threads are unable to do so, for example due to sleeping, they should call [release] so
//! they no longer delay reclamation.
//!
//! The collector holds the callbacks but runs none of them: [collect] hands out those that may
//! run. A callback is a value of any type `C`.

pub mod effects;
pub mod laws;
pub mod model;

pub use self::model::{State, ThreadState};

use self::model::{CallbacksView, CollectorView, DataView};
use std::collections::{HashMap, HashSet};
use std::marker::PhantomData;
use vstd::prelude::*;
use vstd::set_lib;

verus! {

/// Callbacks that are waiting to be run, and the ids of flags that are waiting to be set.
pub struct Callbacks<C> {
    deferred: Vec<C>,
    defer_by_id: Vec<u64>,
}

impl<C> Callbacks<C> {
    /// The callbacks and the ids.
    pub closed spec fn view(self) -> CallbacksView<C> {
        CallbacksView { deferred: self.deferred@, ids: self.defer_by_id@ }
    }

    fn new() -> (r: Self)
        ensures
            r@ == CallbacksView::<C>::none(),
    {
        Callbacks { deferred: Vec::new(), defer_by_id: Vec::new() }
    }

    fn push(&mut self, callback: C)
        ensures
            final(self)@.deferred == old(self)@.deferred.push(callback),
            final(self)@.ids == old(self)@.ids,
    {
        self.deferred.push(callback);
    }

    fn push_id(&mut self, ready: u64)
        requires
            !old(self)@.ids.contains(ready),
        ensures
            final(self)@.ids == old(self)@.ids.push(ready),
            final(self)@.deferred == old(self)@.deferred,
    {
        self.defer_by_id.push(ready);
    }

    fn extend(&mut self, other: Self)
        ensures
            final(self)@ == old(self)@.followed_by(other@),
    {
        let mut other = other;
        self.deferred.append(&mut other.deferred);
        self.defer_by_id.append(&mut other.defer_by_id);
    }

    /// Takes out all callbacks and ids.
    fn take(&mut self) -> (r: Self)
        ensures
            r@ == old(self)@,
            final(self)@ == CallbacksView::<C>::none(),
    {
        let mut r = Callbacks::new();
        core::mem::swap(&mut r.deferred, &mut self.deferred);
        core::mem::swap(&mut r.defer_by_id, &mut self.defer_by_id);
        r
    }

    /// Sets the flags of the ids and takes out the ids.
    fn mark_ready(&mut self, ready: &mut HashSet<u64>)
        ensures
            final(self)@ == (CallbacksView { ids: Seq::empty(), ..old(self)@ }),
            final(ready)@ == old(ready)@.union(old(self)@.ids.to_set()),
    {
        let mut ids: Vec<u64> = Vec::new();
        core::mem::swap(&mut ids, &mut self.defer_by_id);
        let mut i: usize = 0;
        while i < ids.len()
            invariant
                i <= ids@.len(),
                ready@ == old(ready)@.union(ids@.take(i as int).to_set()),
            decreases ids@.len() - i,
        {
            proof {
                lemma_take_next(ids@, i as int);
            }
            ready.insert(ids[i]);
            assert(ready@ =~= old(ready)@.union(ids@.take(i + 1).to_set()));
            i = i + 1;
        }
        assert(ids@.take(i as int) =~= ids@);
    }

    fn is_empty(&self) -> (r: bool)
        ensures
            r == self@.is_none(),
    {
        self.deferred.is_empty() && self.defer_by_id.is_empty()
    }

    fn cancel_by_ids(&mut self, ids: &HashSet<u64>)
        ensures
            final(self)@ == old(self)@.without(ids@),
    {
        let mut kept: Vec<u64> = Vec::new();
        let ghost all = self.defer_by_id@;
        let ghost keep = |id: u64| !ids@.contains(id);
        let mut i: usize = 0;
        while i < self.defer_by_id.len()
            invariant
                i <= self.defer_by_id@.len(),
                self.defer_by_id@ == all,
                self.deferred@ == old(self)@.deferred,
                keep == (|id: u64| !ids@.contains(id)),
                kept@ == all.subrange(0, i as int).filter(keep),
            decreases self.defer_by_id@.len() - i,
        {
            let id: u64 = self.defer_by_id[i];
            proof {
                let done = all.subrange(0, i as int);
                assert(all.subrange(0, i + 1) =~= done.push(id));
                reveal(Seq::filter);
                assert(all.subrange(0, i + 1).drop_last() =~= done);
            }
            if !ids.contains(&id) {
                kept.push(id);
            }
            i = i + 1;
        }
        assert(all.subrange(0, i as int) =~= all);
        self.defer_by_id = kept;
    }
}

/// Collector state shared by all participating threads.
pub struct Collector<C> {
    /// Callbacks that are ready to run on the next collection attempt.
    pending: Callbacks<C>,
    /// Number of registered threads still marked as [ThreadState::Busy].
    busy_count: usize,
    /// Per-thread participation state for the current epoch.
    threads: HashMap<u64, ThreadState>,
    /// Callbacks deferred during the current epoch.
    current_deferred: Callbacks<C>,
    /// Callbacks that became eligible once the current epoch completes.
    previous_deferred: Callbacks<C>,
    /// Event counter used to notify threads that reclamation state changed.
    events: usize,
    /// The ids of the flags that have been set.
    ready: HashSet<u64>,
    /// The least id that has not been given out.
    next_id: u64,
}

proof fn lemma_take_next(s: Seq<u64>, i: int)
    requires
        0 <= i < s.len(),
    ensures
        s.take(i + 1).to_set() == s.take(i).to_set().insert(s[i]),
{
    assert(s.take(i + 1) =~= s.take(i).push(s[i]));
    assert forall|x: u64| s.take(i + 1).to_set().contains(x) implies s.take(i).to_set().insert(
        s[i],
    ).contains(x) by {
        let t = s.take(i + 1);
        let j = choose|j: int| 0 <= j <= i && #[trigger] t[j] == x;
        if j < i {
            assert(s.take(i)[j] == x);
        }
    }
    assert forall|x: u64| s.take(i).to_set().insert(s[i]).contains(x) implies s.take(
        i + 1,
    ).to_set().contains(x) by {
        if x == s[i] {
            assert(s.take(i + 1)[i] == x);
        } else {
            let j = choose|j: int| 0 <= j < i && s.take(i)[j] == x;
            assert(s.take(i + 1)[j] == x);
        }
    }
    assert(s.take(i + 1).to_set() =~= s.take(i).to_set().insert(s[i]));
}

/// How many threads are busy tells whether any is, and whether one is the last.
proof fn lemma_busy_threads(threads: Map<u64, ThreadState>)
    requires
        threads.dom().finite(),
    ensures
        model::busy_threads(threads).finite(),
        model::busy_threads(threads).len() <= threads.dom().len(),
        model::busy_threads(threads).len() > 0 <==> exists|thread: u64|
            threads.contains_key(thread) && #[trigger] threads[thread] == ThreadState::Busy,
        forall|thread: u64|
            threads.contains_key(thread) && threads[thread] == ThreadState::Busy ==> (model::busy_threads(
                threads,
            ).len() == 1 <==> #[trigger] model::last_busy(threads, thread)),
{
    let busy = model::busy_threads(threads);
    set_lib::lemma_len_subset(busy, threads.dom());
    if busy.len() > 0 {
        assert(busy.contains(busy.choose()));
        assert(threads[busy.choose()] == ThreadState::Busy);
    }
    if exists|thread: u64|
        threads.contains_key(thread) && #[trigger] threads[thread] == ThreadState::Busy {
        let thread = choose|thread: u64|
            threads.contains_key(thread) && #[trigger] threads[thread] == ThreadState::Busy;
        assert(busy.contains(thread));
    }
    assert forall|thread: u64|
        threads.contains_key(thread) && threads[thread] == ThreadState::Busy implies (busy.len()
        == 1 <==> #[trigger] model::last_busy(threads, thread)) by {
        assert(busy.contains(thread));
        let rest = busy.remove(thread);
        if rest.len() > 0 {
            let other = rest.choose();
            assert(rest.contains(other));
            assert(threads[other] == ThreadState::Busy);
        }
        if !model::last_busy(threads, thread) {
            let other = choose|other: u64|
                threads.contains_key(other) && #[trigger] threads[other] == ThreadState::Busy
                    && other != thread;
            assert(rest.contains(other));
        }
    }
}

impl<C> Collector<C> {
    /// The state of the collector.
    pub closed spec fn view(self) -> CollectorView<C> {
        CollectorView {
            pending: self.pending@,
            previous: self.previous_deferred@,
            current: self.current_deferred@,
            threads: self.threads@,
            events: self.events,
            ready: self.ready@,
            next_id: self.next_id,
        }
    }

    /// The counter of busy threads.
    pub closed spec fn busy_count(self) -> nat {
        self.busy_count as nat
    }

    /// Whether the counter of busy threads is right.
    spec fn counts(self) -> bool {
        &&& self.threads@.dom().finite()
        &&& self.busy_count == model::busy_threads(self.threads@).len()
    }

    /// Whether the collector is consistent.
    pub closed spec fn wf(self) -> bool {
        self.counts() && self@.wf()
    }

    /// The state of a consistent collector is consistent, and the counter of busy threads is right:
    /// it is 0 only if there is no thread.
    pub proof fn lemma_wf(self)
        requires
            self.wf(),
        ensures
            self@.wf(),
            self.busy_count() == model::busy_threads(self@.threads).len(),
            self.busy_count() == 0 <==> self@.threads.dom().is_empty(),
    {
        lemma_busy_threads(self.threads@);
        if !self@.threads.dom().is_empty() {
            let busy = choose|busy: u64|
                self@.threads.contains_key(busy) && #[trigger] self@.threads[busy]
                    == ThreadState::Busy;
        }
    }

    /// Creates a collector without threads or callbacks.
    pub fn new() -> (r: Self)
        ensures
            r.wf(),
            r@ == CollectorView::<C>::initial(),
    {
        let r = Collector {
            pending: Callbacks::new(),
            busy_count: 0,
            threads: HashMap::new(),
            current_deferred: Callbacks::new(),
            previous_deferred: Callbacks::new(),
            events: 0,
            ready: HashSet::new(),
            next_id: 0,
        };
        proof {
            assert(model::busy_threads(r.threads@) =~= Set::<u64>::empty());
        }
        r
    }

    fn signal(&mut self)
        ensures
            final(self)@ == (CollectorView { events: model::next_event(old(self).events), ..old(self)@ }),
            *final(self) == (Self { events: model::next_event(old(self).events), ..*old(self) }),
    {
        self.events = self.events.wrapping_add(1);
    }

    fn complete_epoch(&mut self, signal_pending: bool)
        requires
            old(self).threads@.dom().finite(),
        ensures
            final(self)@ == old(self)@.epoch_completed(signal_pending),
            !old(self).threads@.dom().is_empty() ==> final(self).counts(),
            old(self).threads@.dom().is_empty() ==> final(self).busy_count == old(self).busy_count,
    {
        let previous = self.previous_deferred.take();
        self.pending.extend(previous);

        if self.threads.is_empty() {
            let current = self.current_deferred.take();
            self.pending.extend(current);
            if !self.pending.is_empty() {
                // Signal future threads to check in
                self.signal();
            }
            return;
        }

        self.busy_count = self.threads.len();
        self.mark_all_busy();
        self.previous_deferred = self.current_deferred.take();

        if (signal_pending && !self.pending.is_empty()) || !self.previous_deferred.is_empty() {
            // Signal all threads to check in
            self.signal();
        }
    }

    /// Marks every registered thread as busy.
    fn mark_all_busy(&mut self)
        requires
            old(self).threads@.dom().finite(),
        ensures
            *final(self) == (Self { threads: final(self).threads, ..*old(self) }),
            final(self).threads@ == model::all_busy(old(self).threads@),
            model::busy_threads(final(self).threads@) == old(self).threads@.dom(),
    {
        let ghost before = self.threads@;
        let mut ids: Vec<u64> = Vec::new();
        for id in iter: self.threads.keys()
            invariant
                iter.seq().unref().to_set() == before.dom(),
                ids@.len() == iter.index(),
                forall|j: int| 0 <= j < iter.index() ==> #[trigger] ids@[j] == *iter.seq()[j],
                iter.index() == iter.seq().len() ==> ids@.to_set() == before.dom(),
        {
            ids.push(*id);
            assert(iter.index() + 1 == iter.seq().len() ==> ids@ =~= iter.seq().unref());
        }
        let mut i: usize = 0;
        while i < ids.len()
            invariant
                i <= ids@.len(),
                ids@.to_set() == before.dom(),
                *self == (Self { threads: self.threads, ..*old(self) }),
                self.threads@.dom() == before.dom(),
                forall|j: int| 0 <= j < i ==> self.threads@[#[trigger] ids@[j]] == ThreadState::Busy,
            decreases ids@.len() - i,
        {
            assert(ids@.to_set().contains(ids@[i as int]));
            self.threads.insert(ids[i], ThreadState::Busy);
            assert(self.threads@.dom() =~= before.dom());
            i = i + 1;
        }
        proof {
            assert forall|thread: u64| before.contains_key(thread) implies self.threads@[thread]
                == ThreadState::Busy by {
                assert(ids@.to_set().contains(thread));
                let j = choose|j: int| 0 <= j < ids@.len() && ids@[j] == thread;
            }
            assert(self.threads@ =~= model::all_busy(before));
            assert(model::busy_threads(self.threads@) =~= before.dom());
        }
    }

    /// Registers a thread as a busy participant in the current epoch.
    ///
    /// Returns `true` if the collector holds callbacks.
    fn register(&mut self, thread_id: u64) -> (r: bool)
        requires
            old(self).wf(),
            !old(self)@.threads.contains_key(thread_id),
        ensures
            final(self).wf(),
            final(self)@ == old(self)@.registered(thread_id),
            r == old(self)@.holds_any(),
    {
        let ghost before = self.threads@;
        self.threads.insert(thread_id, ThreadState::Busy);
        proof {
            assert(model::busy_threads(self.threads@) =~= model::busy_threads(before).insert(thread_id));
            lemma_busy_threads(self.threads@);
            old(self)@.registration_keeps_wf(thread_id);
        }
        let _len: usize = self.threads.len();
        self.busy_count = self.busy_count + 1;

        !(self.pending.is_empty() && self.previous_deferred.is_empty()
            && self.current_deferred.is_empty())
    }

    fn unregister(&mut self, thread_id: u64)
        requires
            old(self).wf(),
            old(self)@.threads.contains_key(thread_id),
        ensures
            final(self).wf(),
            final(self)@ == old(self)@.unregistered(thread_id),
    {
        let ghost before = self.threads@;
        proof {
            lemma_busy_threads(before);
            old(self)@.unregistration_keeps_wf(thread_id);
        }
        let state = self.threads.remove(&thread_id).unwrap();
        proof {
            assert(model::busy_threads(self.threads@) =~= model::busy_threads(before).remove(thread_id));
            lemma_busy_threads(self.threads@);
        }
        if state == ThreadState::Busy {
            self.busy_count = self.busy_count - 1;

            if self.busy_count == 0 {
                self.complete_epoch(true);
            }
        } else if self.threads.is_empty() {
            self.complete_epoch(true);
        }
    }

    fn collect_unregistered(&mut self) -> (callbacks: Callbacks<C>)
        requires
            old(self).wf(),
        ensures
            final(self).wf(),
            final(self)@ == old(self)@.unregistered_collected(),
            callbacks@ == old(self)@.unregistered_garbage(),
    {
        proof {
            self@.collection_keeps_wf(None);
        }
        let mut callbacks = self.pending.take();

        if self.threads.is_empty() {
            callbacks.extend(self.previous_deferred.take());
            callbacks.extend(self.current_deferred.take());
        }
        callbacks
    }

    /// Reports a quiescent state of a thread, and takes the callbacks that are ready to run.
    fn quiet(&mut self, thread_id: u64, seen_events: &mut usize) -> (callbacks: Callbacks<C>)
        requires
            old(self).wf(),
            old(self)@.threads.contains_key(thread_id),
        ensures
            final(self).wf(),
            final(self)@ == old(self)@.quieted(thread_id),
            callbacks@ == old(self)@.quiet_garbage(thread_id),
            *final(seen_events) == if old(self)@.quiet_catches_up(thread_id) {
                final(self)@.events
            } else {
                *old(seen_events)
            },
        decreases
            (if old(self)@.current.is_none() {
                0int
            } else {
                1int
            }),
    {
        let ghost before = self.threads@;
        proof {
            self@.collection_keeps_wf(Some(thread_id));
            lemma_busy_threads(before);
        }
        let mut callbacks = self.pending.take();

        let busy: bool = match self.threads.get(&thread_id) {
            Some(state) => *state == ThreadState::Busy,
            None => false,
        };
        if !busy {
            assert(self@ =~= old(self)@.quieted(thread_id));
            return callbacks;
        }
        self.busy_count = self.busy_count - 1;
        self.threads.insert(thread_id, ThreadState::Quiet);
        proof {
            assert(model::busy_threads(self.threads@) =~= model::busy_threads(before).remove(thread_id));
        }

        if self.busy_count == 0 {
            // We pass `false` as we'll immediately take pending callbacks, so we don't need to
            // signal them.
            self.complete_epoch(false);
            callbacks.extend(self.pending.take());

            proof {
                assert(self.threads@ =~= model::all_busy(before));
                assert(callbacks@ =~= old(self)@.pending.followed_by(old(self)@.previous));
                if old(self)@.current.is_none() {
                    assert(self@ =~= old(self)@.quieted(thread_id));
                    assert(old(self)@.held() =~= callbacks@);
                }
            }
            if !self.previous_deferred.is_empty() {
                // We immediately call `quiet` so we will be up to date with the new epoch
                *seen_events = self.events;

                proof {
                    old(self)@.lemma_next_epoch(self@, thread_id);
                    lemma_busy_threads(self.threads@);
                }

                // Mark ourselves as quiet again
                let more = self.quiet(thread_id, seen_events);
                callbacks.extend(more);
            }
        }
        callbacks
    }

    fn defer(&mut self, callback: C)
        requires
            old(self).wf(),
        ensures
            final(self).wf(),
            final(self)@ == old(self)@.deferred(callback),
    {
        proof {
            old(self)@.deferral_keeps_wf(callback);
        }
        self.current_deferred.push(callback);
        self.signal();
    }

    /// Registers a new flag, to be set after all threads leave their current pinned regions, and
    /// returns its id.
    fn defer_by_id(&mut self) -> (id: u64)
        requires
            old(self).wf(),
            old(self)@.next_id < u64::MAX,
        ensures
            final(self).wf(),
            id == old(self)@.next_id,
            final(self)@ == old(self)@.deferred_new_id(),
    {
        proof {
            old(self)@.registering_an_id_keeps_wf();
        }
        let id: u64 = self.next_id;
        self.next_id = id + 1;
        proof {
            if self.current_deferred@.ids.contains(id) {
                let i = choose|i: int|
                    0 <= i < self.current_deferred@.ids.len() && self.current_deferred@.ids[i] == id;
                let all = old(self)@.held().ids;
                assert(all[all.len() - self.current_deferred@.ids.len() + i] == id);
                assert(all.contains(id));
            }
        }
        self.current_deferred.push_id(id);
        self.signal();
        id
    }

    fn cancel_by_ids(&mut self, ids: &HashSet<u64>)
        requires
            old(self).wf(),
        ensures
            final(self).wf(),
            final(self)@ == old(self)@.cancelled(ids@),
    {
        proof {
            old(self)@.cancellation_keeps_wf(ids@);
        }
        self.pending.cancel_by_ids(ids);
        self.current_deferred.cancel_by_ids(ids);
        self.previous_deferred.cancel_by_ids(ids);
    }

    /// Takes what `thread` may collect, and sets the flags of the ids among it. `None` is a thread
    /// that is not registered.
    fn collect(&mut self, thread: Option<u64>, seen_events: &mut usize) -> (callbacks: Vec<C>)
        requires
            old(self).wf(),
            thread matches Some(thread) ==> old(self)@.threads.contains_key(thread),
        ensures
            final(self).wf(),
            final(self)@ == old(self)@.collected(thread),
            callbacks@ == old(self)@.garbage(thread).deferred,
            *old(seen_events) == old(self)@.events ==> *final(seen_events) == final(self)@.events,
    {
        proof {
            self@.collection_keeps_wf(thread);
        }
        let mut callbacks = match thread {
            Some(thread_id) => self.quiet(thread_id, seen_events),
            None => self.collect_unregistered(),
        };
        callbacks.mark_ready(&mut self.ready);
        callbacks.deferred
    }

    /// The event counter.
    pub fn events(&self) -> (r: usize)
        ensures
            r == self@.events,
    {
        self.events
    }

    /// Whether the flag `id` has been set.
    pub fn is_ready(&self, id: u64) -> (r: bool)
        ensures
            r == self@.ready.contains(id),
    {
        self.ready.contains(&id)
    }

    /// Whether there is an id left for another flag.
    pub fn has_ids(&self) -> (r: bool)
        ensures
            r == (self@.next_id < u64::MAX),
    {
        self.next_id < u64::MAX
    }

    /// Drops the flag `id`, which must not be looked at again.
    pub(crate) fn drop_flag(&mut self, id: u64)
        requires
            old(self).wf(),
        ensures
            final(self).wf(),
            final(self)@ == old(self)@.without_flag(id),
    {
        proof {
            self@.dropping_a_flag_keeps_wf(id);
        }
        self.ready.remove(&id);
    }

    /// The number of registered threads.
    pub fn thread_count(&self) -> (r: usize)
        requires
            self.wf(),
        ensures
            r == self@.threads.dom().len(),
    {
        self.threads.len()
    }
}

/// Schedules a callback to run after all threads leave their current pinned regions.
///
/// The callback will be handed out by [collect]. It must not pin or collect, but it may defer,
/// which is useful for inner destructors.
pub fn defer<C>(collector: &mut Collector<C>, f: C)
    requires
        old(collector).wf(),
    ensures
        final(collector).wf(),
        final(collector)@ == old(collector)@.deferred(f),
{
    collector.defer(f);
}

/// Registers a new flag to be set after all threads leave their current pinned regions, and returns
/// its id.
///
/// [cancel_by_ids] can be used to prevent that.
pub fn defer_by_id<C>(collector: &mut Collector<C>) -> (id: u64)
    requires
        old(collector).wf(),
        old(collector)@.next_id < u64::MAX,
    ensures
        final(collector).wf(),
        id == old(collector)@.next_id,
        final(collector)@ == old(collector)@.deferred_new_id(),
{
    collector.defer_by_id()
}

/// Prevents that any flag registered by [defer_by_id] with one of these ids is set.
pub fn cancel_by_ids<C>(collector: &mut Collector<C>, ids: &Vec<u64>)
    requires
        old(collector).wf(),
    ensures
        final(collector).wf(),
        final(collector)@ == old(collector)@.cancelled(ids@.to_set()),
{
    let mut set: HashSet<u64> = HashSet::new();
    let mut i: usize = 0;
    while i < ids.len()
        invariant
            i <= ids@.len(),
            set@ == ids@.take(i as int).to_set(),
        decreases ids@.len() - i,
    {
        proof {
            lemma_take_next(ids@, i as int);
        }
        set.insert(ids[i]);
        i = i + 1;
    }
    assert(ids@.take(i as int) =~= ids@);
    if set.is_empty() {
        proof {
            collector@.cancelling_nothing_changes_nothing();
        }
        return;
    }
    collector.cancel_by_ids(&set);
}

/// What a thread must not do in its current state.
#[derive(Clone, Copy, PartialEq, Eq, Debug, Structural)]
pub enum Misuse {
    /// A deferred callback pins.
    PinInCallback,
    /// A pinned thread releases itself.
    ReleaseWhilePinned,
    /// A deferred callback releases the thread that runs it.
    ReleaseInCallback,
    /// A pinned thread collects.
    CollectWhilePinned,
    /// A deferred callback collects.
    CollectInCallback,
}

impl Misuse {
    /// Describes the misuse.
    pub fn message(self) -> (r: &'static str)
        ensures
            r@ == match self {
                Misuse::PinInCallback => "Deferred callbacks cannot call `pin`"@,
                Misuse::ReleaseWhilePinned => "Cannot call `release` while pinned"@,
                Misuse::ReleaseInCallback => "Deferred callbacks cannot call `release`"@,
                Misuse::CollectWhilePinned => "Cannot call `collect` while pinned"@,
                Misuse::CollectInCallback => "Deferred callbacks cannot call `collect`"@,
            },
    {
        match self {
            Misuse::PinInCallback => "Deferred callbacks cannot call `pin`",
            Misuse::ReleaseWhilePinned => "Cannot call `release` while pinned",
            Misuse::ReleaseInCallback => "Deferred callbacks cannot call `release`",
            Misuse::CollectWhilePinned => "Cannot call `collect` while pinned",
            Misuse::CollectInCallback => "Deferred callbacks cannot call `collect`",
        }
    }
}

/// Per-thread state.
pub struct Data {
    /// Current collector state for the thread.
    state: State,
    /// Last observed value of the event counter.
    seen_events: usize,
    /// The id that the thread has in [Collector::threads].
    thread_id: u64,
}

impl Data {
    /// The state of the thread.
    pub closed spec fn view(self) -> DataView {
        DataView {
            state: self.state,
            seen_events: self.seen_events,
            thread_id: self.thread_id,
        }
    }

    /// The state of a thread that is not registered.
    pub fn new(thread_id: u64) -> (r: Self)
        ensures
            r@ == (DataView { state: State::Unregistered, seen_events: 0, thread_id }),
    {
        Data { state: State::Unregistered, seen_events: 0, thread_id }
    }

    /// What the thread is doing.
    pub fn state(&self) -> (r: State)
        ensures
            r == self@.state,
    {
        self.state
    }

    /// The id of the thread.
    pub fn thread_id(&self) -> (r: u64)
        ensures
            r == self@.thread_id,
    {
        self.thread_id
    }

    /// Whether the thread may enter a pinned region immediately.
    pub fn may_enter(&self) -> (r: bool)
        ensures
            r == (self@.state == State::Registered || self@.state == State::Pinned),
    {
        matches!(self.state, State::Registered | State::Pinned)
    }

    /// Enters a pinned region. Returns the state to be restored at its end.
    pub fn enter(&mut self) -> (old_state: State)
        requires
            old(self)@.state == State::Registered || old(self)@.state == State::Pinned,
        ensures
            old_state == old(self)@.state,
            final(self)@ == old(self)@.in_state(State::Pinned),
    {
        let old_state = self.state;
        self.state = State::Pinned;
        old_state
    }

    /// Returns a proof that the thread is pinned, as long as it is not changed.
    pub fn pinned(&self) -> (r: Pin<'_>)
        requires
            self@.state == State::Pinned,
        ensures
            r@ == self@,
    {
        Pin { thread: Ghost(self@), _private: PhantomData }
    }

    /// Restores the state from before a pinned region or a collection.
    pub fn restore(&mut self, old_state: State)
        ensures
            final(self)@ == old(self)@.in_state(old_state),
    {
        self.state = old_state;
    }
}

/// Represents a proof that no callback deferred at or after the start of `'a` will run during
/// `'a`.
#[derive(Clone, Copy)]
pub struct Pin<'a> {
    /// The thread that is pinned.
    thread: Ghost<DataView>,
    _private: PhantomData<&'a ()>,
}

impl<'a> Pin<'a> {
    /// The thread that this proves pinned, in the state in which the proof was handed out.
    pub closed spec fn view(self) -> DataView {
        self.thread@
    }

    /// A proof is handed out for a pinned thread only.
    #[verifier::type_invariant]
    pub open spec fn of_pinned_thread(self) -> bool {
        self@.state == State::Pinned
    }
}

/// Whether the thread is in a pinned region, at the beginning of one that it enters in the given
/// states of the thread and of the collector.
pub open spec fn at_start_of_pin<C>(
    before: DataView,
    collector_before: CollectorView<C>,
    data: Data,
    collector: Collector<C>,
) -> bool {
    &&& data@ == before.prepared(collector_before).in_state(State::Pinned)
    &&& collector@ == before.prepared_collector(collector_before)
    &&& collector.wf()
}

/// Whether the thread, whose state is `data`, and the collector are as they may be during and at
/// the end of a pinned region.
pub open spec fn within_pin<C>(thread_id: u64, data: Data, collector: Collector<C>) -> bool {
    &&& data@.thread_id == thread_id
    &&& data@.state == State::Pinned
    &&& collector@.threads.contains_key(thread_id)
    &&& collector.wf()
}

/// Marks a thread as pinned and hands a proof of that to the closure, with the state of the thread
/// and the collector.
///
/// This adds the thread to the set of threads that needs to regularly call [collect]
/// before memory can be freed. [release] can be called if a thread no longer needs
/// access to shared data for an extended period of time.
///
/// Nested calls to [pin] are allowed. Deferred callbacks must not call it.
pub fn pin<C, R, F: FnOnce(Pin<'_>, &mut Data, &mut Collector<C>) -> R>(
    data: &mut Data,
    collector: &mut Collector<C>,
    f: F,
) -> (r: R)
    requires
        old(collector).wf(),
        old(data)@.state != State::Collecting,
        old(data)@.attached_to(old(collector)@),
        forall|pin: Pin<'_>, d: &mut Data, c: &mut Collector<C>|
            at_start_of_pin(old(data)@, old(collector)@, *d, *c) && pin@ == (*d)@
                ==> #[trigger] call_requires(f, (pin, d, c)),
        forall|pin: Pin<'_>, d: &mut Data, c: &mut Collector<C>, r: R|
            at_start_of_pin(old(data)@, old(collector)@, *d, *c) && pin@ == (*d)@
                && #[trigger] call_ensures(f, (pin, d, c), r)
                ==> within_pin(old(data)@.thread_id, *final(d), *final(c)),
    ensures
        final(collector).wf(),
        final(data)@.attached_to(final(collector)@),
        exists|pin: Pin<'_>, d: &mut Data, c: &mut Collector<C>|
            {
                &&& #[trigger] call_ensures(f, (pin, d, c), r)
                &&& at_start_of_pin(old(data)@, old(collector)@, *d, *c)
                &&& pin@ == (*d)@
                &&& *final(c) == *final(collector)
                &&& final(data)@ == (*final(d))@.in_state(
                    old(data)@.prepared(old(collector)@).state,
                )
            },
{
    if !data.may_enter() {
        pin_cold(data, collector);
    }
    let old_state = data.enter();
    let pin = Pin { thread: Ghost(data@), _private: PhantomData };
    let r = f(pin, data, collector);
    data.restore(old_state);
    r
}

/// What forbids the thread to pin, if anything.
pub fn pin_error(data: &Data) -> (r: Option<Misuse>)
    ensures
        r == match data@.state {
            State::Collecting => Some(Misuse::PinInCallback),
            _ => None,
        },
{
    match data.state {
        State::Collecting => Some(Misuse::PinInCallback),
        _ => None,
    }
}

/// Registers a thread that is about to enter a pinned region.
pub fn pin_cold<C>(data: &mut Data, collector: &mut Collector<C>)
    requires
        old(collector).wf(),
        old(data)@.state == State::Unregistered,
        old(data)@.attached_to(old(collector)@),
    ensures
        final(collector).wf(),
        final(collector)@ == old(collector)@.registered(old(data)@.thread_id),
        final(data)@ == old(data)@.registered_with(old(collector)@),
{
    if collector.register(data.thread_id) {
        // The collector has pending callbacks.
        // Set `seen_events` to ensure the next `collect` call triggers.
        data.seen_events = collector.events.wrapping_sub(1);
    }
    data.state = State::Registered;
}

/// What forbids the thread to release itself, if anything.
pub fn release_error(data: &Data) -> (r: Option<Misuse>)
    ensures
        r == match data@.state {
            State::Registered | State::Unregistered => None,
            State::Pinned => Some(Misuse::ReleaseWhilePinned),
            State::Collecting => Some(Misuse::ReleaseInCallback),
        },
{
    match data.state {
        State::Registered | State::Unregistered => None,
        State::Pinned => Some(Misuse::ReleaseWhilePinned),
        State::Collecting => Some(Misuse::ReleaseInCallback),
    }
}

/// Removes a thread from the threads allowed to access shared data.
///
/// This allows memory to be freed without waiting for [collect] calls from the thread.
/// [pin] can be called after to continue accessing shared data.
///
/// This will not hand out any garbage so [collect] should be called before the last thread
/// terminates to avoid memory leaks.
///
/// Calling this function when the thread is already unregistered is a no-op. It must not be called
/// while the thread is pinned or during a deferred callback.
pub fn release<C>(data: &mut Data, collector: &mut Collector<C>)
    requires
        old(collector).wf(),
        old(data)@.state == State::Registered || old(data)@.state == State::Unregistered,
        old(data)@.attached_to(old(collector)@),
    ensures
        final(collector).wf(),
        final(data)@ == old(data)@.in_state(State::Unregistered),
        final(data)@.attached_to(final(collector)@),
        final(collector)@ == if old(data)@.state == State::Registered {
            old(collector)@.unregistered(old(data)@.thread_id)
        } else {
            old(collector)@
        },
{
    match data.state {
        State::Registered => {
            data.state = State::Unregistered;
            collector.unregister(data.thread_id);
        },
        _ => {},
    }
}

/// The callbacks that a collection hands out.
pub struct Batch<C> {
    /// The callbacks to be run, in this order.
    pub callbacks: Vec<C>,
    /// The state to be restored once they have been run.
    pub old_state: State,
}

/// Signals a quiescent state where garbage may be collected.
///
/// Returns the callbacks to be run, if any event has happened since the thread last collected. The
/// thread is [State::Collecting] until the state from before has been restored with
/// [Data::restore], after the callbacks have been run.
///
/// It must not be called while the thread is pinned or during a deferred callback.
pub fn collect<C>(data: &mut Data, collector: &mut Collector<C>) -> (r: Option<Batch<C>>)
    requires
        old(collector).wf(),
        old(data)@.state == State::Registered || old(data)@.state == State::Unregistered,
        old(data)@.attached_to(old(collector)@),
    ensures
        final(collector).wf(),
        final(data)@.in_state(old(data)@.state).attached_to(final(collector)@),
        match r {
            None => {
                &&& old(collector)@.events == old(data)@.seen_events
                &&& final(collector)@ == old(collector)@
                &&& final(data)@ == old(data)@
            },
            Some(batch) => {
                let thread = old(data)@.collects_as();
                &&& old(collector)@.events != old(data)@.seen_events
                &&& batch.callbacks@ == old(collector)@.garbage(thread).deferred
                &&& batch.old_state == old(data)@.state
                &&& final(collector)@ == old(collector)@.collected(thread)
                &&& final(data)@ == (DataView {
                    state: State::Collecting,
                    seen_events: final(collector)@.events,
                    thread_id: old(data)@.thread_id,
                })
            },
        },
{
    // The event counter can wrap around causing us to miss an event.
    // That is unlikely and will just delay reclamation until another event is triggered.
    let new: usize = collector.events;
    if new != data.seen_events {
        Some(collect_cold(data, collector))
    } else {
        None
    }
}

/// What forbids the thread to collect, if anything.
pub fn assert_collect_state(data: &Data) -> (r: Option<Misuse>)
    ensures
        r == match data@.state {
            State::Registered | State::Unregistered => None,
            State::Pinned => Some(Misuse::CollectWhilePinned),
            State::Collecting => Some(Misuse::CollectInCallback),
        },
{
    match data.state {
        State::Registered | State::Unregistered => None,
        State::Pinned => Some(Misuse::CollectWhilePinned),
        State::Collecting => Some(Misuse::CollectInCallback),
    }
}

fn collect_cold<C>(data: &mut Data, collector: &mut Collector<C>) -> (batch: Batch<C>)
    requires
        old(collector).wf(),
        old(data)@.state == State::Registered || old(data)@.state == State::Unregistered,
        old(data)@.attached_to(old(collector)@),
    ensures
        final(collector).wf(),
        batch.callbacks@ == old(collector)@.garbage(old(data)@.collects_as()).deferred,
        batch.old_state == old(data)@.state,
        final(collector)@ == old(collector)@.collected(old(data)@.collects_as()),
        final(data)@.in_state(old(data)@.state).attached_to(final(collector)@),
        final(data)@ == (DataView {
            state: State::Collecting,
            seen_events: final(collector)@.events,
            thread_id: old(data)@.thread_id,
        }),
{
    data.seen_events = collector.events;

    let old_state = data.state;
    data.state = State::Collecting;

    // Check if we could block any deferred methods
    let thread: Option<u64> = if old_state == State::Registered {
        Some(data.thread_id)
    } else {
        None
    };
    proof {
        if old_state == State::Registered {
            collector@.lemma_quieted_threads(data.thread_id);
        }
    }
    let callbacks = collector.collect(thread, &mut data.seen_events);
    Batch { callbacks, old_state }
}

/// Whether one of the first `i` outcomes is an error.
pub open spec fn fails_before<P>(outcomes: Seq<Result<(), P>>, i: int) -> bool {
    exists|j: int| 0 <= j < i && #[trigger] outcomes[j] is Err
}

/// The first error among the outcomes.
pub open spec fn first_error<P>(outcomes: Seq<Result<(), P>>) -> Option<P>
    decreases outcomes.len(),
{
    if outcomes.len() == 0 {
        None
    } else {
        match first_error(outcomes.drop_last()) {
            Some(payload) => Some(payload),
            None => match outcomes.last() {
                Ok(()) => None,
                Err(payload) => Some(payload),
            },
        }
    }
}

/// There is an error to report exactly if some callback has failed, and it is the payload of the one that
/// has failed while all before it have succeeded.
pub proof fn the_payload_of_the_first_failure_is_kept<P>(outcomes: Seq<Result<(), P>>)
    ensures
        first_error(outcomes) is None <==> forall|i: int|
            0 <= i < outcomes.len() ==> #[trigger] outcomes[i] is Ok,
        first_error(outcomes) matches Some(payload) ==> exists|i: int|
            {
                &&& 0 <= i < outcomes.len()
                &&& #[trigger] outcomes[i] == Err::<(), P>(payload)
                &&& forall|j: int| 0 <= j < i ==> #[trigger] outcomes[j] is Ok
            },
    decreases outcomes.len(),
{
    if outcomes.len() > 0 {
        let rest = outcomes.drop_last();
        let last = outcomes.len() - 1;
        the_payload_of_the_first_failure_is_kept(rest);
        assert forall|i: int| 0 <= i < rest.len() implies rest[i] == #[trigger] outcomes[i] by {}
        assert(outcomes[last] == outcomes.last());
        if first_error(rest) is Some {
            let payload = first_error(rest)->Some_0;
            let i = choose|i: int|
                {
                    &&& 0 <= i < rest.len()
                    &&& #[trigger] rest[i] == Err::<(), P>(payload)
                    &&& forall|j: int| 0 <= j < i ==> #[trigger] rest[j] is Ok
                };
            assert(outcomes[i] == Err::<(), P>(payload));
            assert forall|j: int| 0 <= j < i implies #[trigger] outcomes[j] is Ok by {
                assert(rest[j] is Ok);
            }
            assert(outcomes[i] is Err);
        } else {
            assert forall|j: int| 0 <= j < last implies #[trigger] outcomes[j] is Ok by {
                assert(rest[j] is Ok);
            }
        }
    }
}

/// Runs each of the callbacks that a collection has handed out, in order, and returns the payload
/// of the first one that fails. Those after it are run all the same, and later payloads are
/// discarded.
pub fn run_callbacks<C, P, F: Fn(C) -> Result<(), P>, D: Fn(P)>(
    callbacks: Vec<C>,
    run: F,
    discard: D,
) -> (r: Option<P>)
    requires
        forall|i: int|
            0 <= i < callbacks@.len() ==> #[trigger] call_requires(run, (callbacks@[i],)),
        forall|payload: P| #[trigger] call_requires(discard, (payload,)),
    ensures
        exists|outcomes: Seq<Result<(), P>>|
            {
                &&& outcomes.len() == callbacks@.len()
                &&& forall|i: int|
                    0 <= i < outcomes.len() ==> call_ensures(
                        run,
                        (callbacks@[i],),
                        #[trigger] outcomes[i],
                    )
                &&& r == #[trigger] first_error(outcomes)
                &&& match r {
                    None => forall|i: int| 0 <= i < outcomes.len() ==> #[trigger] outcomes[i] is Ok,
                    Some(payload) => exists|first: int|
                        {
                            &&& 0 <= first < outcomes.len()
                            &&& #[trigger] outcomes[first] == Err::<(), P>(payload)
                            &&& forall|i: int| 0 <= i < first ==> #[trigger] outcomes[i] is Ok
                            &&& forall|i: int|
                                first < i < outcomes.len() && (#[trigger] outcomes[i] is Err)
                                    ==> call_ensures(discard, (outcomes[i]->Err_0,), ())
                        },
                }
                &&& forall|i: int|
                    0 <= i < outcomes.len() && fails_before(outcomes, i) && (
                    #[trigger] outcomes[i] is Err) ==> call_ensures(
                        discard,
                        (outcomes[i]->Err_0,),
                        (),
                    )
            },
{
    proof {
        assert forall|all: Seq<Result<(), P>>|
            {
                &&& #[trigger] first_error(all) is None ==> forall|i: int|
                    0 <= i < all.len() ==> #[trigger] all[i] is Ok
                &&& first_error(all) matches Some(payload) ==> exists|i: int|
                    {
                        &&& 0 <= i < all.len()
                        &&& #[trigger] all[i] == Err::<(), P>(payload)
                        &&& forall|j: int| 0 <= j < i ==> #[trigger] all[j] is Ok
                    }
            } by {
            the_payload_of_the_first_failure_is_kept(all);
        }
    }
    let mut first: Option<P> = None;
    let ghost mut outcomes: Seq<Result<(), P>> = Seq::empty();
    for callback in iter: callbacks
        invariant
            iter.seq() == callbacks@,
            forall|i: int|
                0 <= i < callbacks@.len() ==> #[trigger] call_requires(run, (callbacks@[i],)),
            forall|payload: P| #[trigger] call_requires(discard, (payload,)),
            outcomes.len() == iter.index(),
            forall|i: int|
                0 <= i < outcomes.len() ==> call_ensures(
                    run,
                    (callbacks@[i],),
                    #[trigger] outcomes[i],
                ),
            first == first_error(outcomes),
            first is Some <==> fails_before(outcomes, outcomes.len() as int),
            forall|i: int|
                0 <= i < outcomes.len() && fails_before(outcomes, i) && (
                #[trigger] outcomes[i] is Err) ==> call_ensures(
                    discard,
                    (outcomes[i]->Err_0,),
                    (),
                ),
    {
        let ghost done = outcomes;
        assert(callback == callbacks@[iter.index() as int]);
        let outcome = run(callback);
        proof {
            outcomes = outcomes.push(outcome);
            assert(outcomes.drop_last() =~= done);
            assert forall|i: int| 0 <= i <= done.len() implies fails_before(outcomes, i)
                == #[trigger] fails_before(done, i) by {
                if fails_before(outcomes, i) {
                    let j = choose|j: int| 0 <= j < i && #[trigger] outcomes[j] is Err;
                    assert(done[j] is Err);
                }
                if fails_before(done, i) {
                    let j = choose|j: int| 0 <= j < i && #[trigger] done[j] is Err;
                    assert(outcomes[j] is Err);
                }
            }
            assert(fails_before(outcomes, outcomes.len() as int) == (fails_before(
                done,
                done.len() as int,
            ) || outcome is Err)) by {
                if fails_before(done, done.len() as int) {
                    let j = choose|j: int| 0 <= j < done.len() && #[trigger] done[j] is Err;
                    assert(outcomes[j] is Err);
                }
                if outcome is Err {
                    assert(outcomes[done.len() as int] is Err);
                }
                if fails_before(outcomes, outcomes.len() as int) {
                    let j = choose|j: int| 0 <= j < outcomes.len() && #[trigger] outcomes[j] is Err;
                    if j < done.len() {
                        assert(done[j] is Err);
                    }
                }
            }
        }
        if let Err(payload) = outcome {
            if first.is_none() {
                first = Some(payload);
            } else {
                discard(payload);
            }
        }
    }
    first
}

} // verus!

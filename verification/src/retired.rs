//! Storage that has been replaced and is kept until no reader can see it.

use crate::collect::effects;
use crate::collect::laws::{self, Step};
use crate::collect::model::CollectorView;
use crate::collect::{self, Collector};
use std::collections::VecDeque;
use vstd::prelude::*;
use vstd::seq_lib;

verus! {

/// The flags of retired storage.
pub open spec fn flags<T>(retired: Seq<(u64, T)>) -> Set<u64> {
    Set::new(|id: u64| exists|i: int| 0 <= i < retired.len() && (#[trigger] retired[i]).0 == id)
}

/// Whether the collector knows the flags of all retired storage.
pub open spec fn attached<T, C>(retired: Seq<(u64, T)>, collector: CollectorView<C>) -> bool {
    forall|i: int|
        0 <= i < retired.len() ==> {
            let id = (#[trigger] retired[i]).0;
            &&& id < collector.next_id
            &&& collector.held().ids.contains(id) || collector.ready.contains(id)
        }
}

/// Whether `after` is `before` after the storage at the front whose flags have been set has been
/// freed, and these flags dropped.
pub open spec fn pruned<T, C>(
    before: Seq<(u64, T)>,
    after: Seq<(u64, T)>,
    collector: CollectorView<C>,
    collector_before: CollectorView<C>,
) -> bool {
    let count = before.len() - after.len();
    &&& 0 <= count
    &&& after == before.skip(count)
    &&& forall|i: int|
        0 <= i < count ==> collector_before.ready.contains((#[trigger] before[i]).0)
    &&& after.len() > 0 ==> !collector_before.ready.contains(after[0].0)
    &&& collector == (CollectorView {
        ready: collector_before.ready.difference(flags(before.take(count))),
        ..collector_before
    })
}

/// The collector after the flags of retired storage that have been set have been dropped, and the
/// others cancelled.
pub open spec fn forgotten<T, C>(
    retired: Seq<(u64, T)>,
    collector: CollectorView<C>,
) -> CollectorView<C> {
    CollectorView {
        ready: collector.ready.difference(flags(retired)),
        ..collector.cancelled(flags(retired).difference(collector.ready))
    }
}

proof fn lemma_flags_next<T>(retired: Seq<(u64, T)>, count: int)
    requires
        0 <= count < retired.len(),
    ensures
        flags(retired.take(count + 1)) == flags(retired.take(count)).insert(retired[count].0),
{
    let shorter = retired.take(count);
    let longer = retired.take(count + 1);
    assert forall|id: u64| flags(longer).contains(id) == flags(shorter).insert(
        retired[count].0,
    ).contains(id) by {
        if flags(longer).contains(id) {
            let i = choose|i: int| 0 <= i < longer.len() && (#[trigger] longer[i]).0 == id;
            if i < count {
                assert(shorter[i].0 == id);
            }
        }
        if flags(shorter).contains(id) {
            let i = choose|i: int| 0 <= i < shorter.len() && (#[trigger] shorter[i]).0 == id;
            assert(longer[i].0 == id);
        }
        assert(longer[count] == retired[count]);
    }
    assert(flags(longer) =~= flags(shorter).insert(retired[count].0));
}

proof fn lemma_no_flags<T>(retired: Seq<(u64, T)>, ready: Set<u64>)
    ensures
        flags(retired.take(0)) == Set::<u64>::empty(),
        ready.difference(flags(retired.take(0))) == ready,
        flags(retired.take(0)).difference(ready) == Set::<u64>::empty(),
        retired.skip(0) == retired,
{
    assert(flags(retired.take(0)) =~= Set::<u64>::empty());
    assert(ready.difference(flags(retired.take(0))) =~= ready);
    assert(flags(retired.take(0)).difference(ready) =~= Set::<u64>::empty());
    assert(retired.skip(0) =~= retired);
}

/// Nothing changes if the flag of the oldest has not been set.
pub proof fn lemma_nothing_to_prune<T, C>(retired: Seq<(u64, T)>, collector: CollectorView<C>)
    requires
        retired.len() > 0 ==> !collector.ready.contains(retired[0].0),
    ensures
        pruned(retired, retired, collector, collector),
{
    lemma_no_flags(retired, collector.ready);
}

proof fn lemma_push_to_set(ids: Seq<u64>, id: u64)
    ensures
        ids.push(id).to_set() == ids.to_set().insert(id),
{
    broadcast use seq_lib::group_seq_properties;

    assert(ids.push(id).to_set() =~= ids.to_set().insert(id));
}

/// A list of retired storage, the oldest first, with the ids of the flags that tell when each can be
/// freed.
pub struct RetireList<T> {
    list: VecDeque<(u64, T)>,
}

impl<T> RetireList<T> {
    /// The retired storage, the oldest first.
    pub closed spec fn view(self) -> Seq<(u64, T)> {
        self.list@
    }

    /// Whether no two have the same flag: the ids increase.
    pub open spec fn wf(self) -> bool {
        forall|i: int, j: int|
            0 <= i < j < self@.len() ==> (#[trigger] self@[i]).0 < (#[trigger] self@[j]).0
    }

    /// Creates an empty list.
    pub fn new() -> (r: Self)
        ensures
            r.wf(),
            r@ == Seq::<(u64, T)>::empty(),
    {
        RetireList { list: VecDeque::new() }
    }

    /// Returns how many are in the list.
    pub fn len(&self) -> (r: usize)
        ensures
            r == self@.len(),
    {
        self.list.len()
    }

    /// The flags of the first are not those of the others.
    proof fn lemma_first_flags(self, count: int, i: int)
        requires
            self.wf(),
            0 <= count <= i < self@.len(),
        ensures
            !flags(self@.take(count)).contains(self@[i].0),
    {
        let gone = self@.take(count);
        let id = self@[i].0;
        if flags(gone).contains(id) {
            let j = choose|j: int| 0 <= j < gone.len() && (#[trigger] gone[j]).0 == id;
            assert(self@[j].0 < self@[i].0);
        }
    }

    /// Adds storage to the list, and registers a flag for it.
    pub fn retire<C>(&mut self, storage: T, collector: &mut Collector<C>)
        requires
            old(self).wf(),
            old(collector).wf(),
            attached(old(self)@, old(collector)@),
            old(collector)@.next_id < u64::MAX,
        ensures
            final(self).wf(),
            final(collector).wf(),
            attached(final(self)@, final(collector)@),
            final(self)@ == old(self)@.push((old(collector)@.next_id, storage)),
            final(collector)@ == old(collector)@.deferred_new_id(),
    {
        let id: u64 = collect::defer_by_id(collector);
        self.list.push_back((id, storage));
        proof {
            let before = old(collector)@.held().ids;
            let after = collector@.held().ids;
            assert(after =~= before.push(id));
            assert(after[before.len() as int] == id);
            assert forall|i: int| 0 <= i < self@.len() implies {
                let id = (#[trigger] self@[i]).0;
                &&& id < collector@.next_id
                &&& collector@.held().ids.contains(id) || collector@.ready.contains(id)
            } by {
                if i < old(self)@.len() {
                    assert(self@[i] == old(self)@[i]);
                    if before.contains(self@[i].0) {
                        let k = choose|k: int| 0 <= k < before.len() && before[k] == self@[i].0;
                        assert(after[k] == self@[i].0);
                    }
                }
            }
            assert forall|i: int, j: int| 0 <= i < j < self@.len() implies (
            #[trigger] self@[i]).0 < (#[trigger] self@[j]).0 by {
                assert(old(self)@[i].0 < id);
            }
        }
    }

    /// Whether the oldest can be freed.
    pub fn front_is_ready<C>(&self, collector: &Collector<C>) -> (r: bool)
        ensures
            r == (self@.len() > 0 && collector@.ready.contains(self@[0].0)),
    {
        if self.list.len() > 0 {
            collector.is_ready(self.list[0].0)
        } else {
            false
        }
    }

    /// Frees the oldest as long as it can be freed.
    pub fn prune<C>(&mut self, collector: &mut Collector<C>)
        requires
            old(self).wf(),
            old(collector).wf(),
            attached(old(self)@, old(collector)@),
        ensures
            final(self).wf(),
            final(collector).wf(),
            attached(final(self)@, final(collector)@),
            pruned(old(self)@, final(self)@, final(collector)@, old(collector)@),
    {
        let ghost retired = self@;
        let ghost before = collector@;
        let ghost mut count: int = 0;
        proof {
            lemma_no_flags(retired, before.ready);
        }
        while self.front_is_ready(collector)
            invariant
                retired == old(self)@,
                before == old(collector)@,
                old(self).wf(),
                0 <= count <= retired.len(),
                self@ == retired.skip(count),
                collector.wf(),
                collector@ == (CollectorView {
                    ready: before.ready.difference(flags(retired.take(count))),
                    ..before
                }),
                forall|i: int| 0 <= i < count ==> before.ready.contains((#[trigger] retired[i]).0),
            decreases retired.len() - count,
        {
            // Remove from the list before freeing it.
            let ghost list = self@;
            if let Some((id, _storage)) = self.list.pop_front() {
                assert(list[0] == retired[count]);
                collector.drop_flag(id);
                proof {
                    lemma_flags_next(retired, count);
                    assert(self@ =~= retired.skip(count + 1));
                    count = count + 1;
                    assert(collector@.ready =~= before.ready.difference(
                        flags(retired.take(count)),
                    ));
                }
            }
        }
        proof {
            assert forall|i: int, j: int| 0 <= i < j < self@.len() implies (
            #[trigger] self@[i]).0 < (#[trigger] self@[j]).0 by {
                assert(retired[count + i].0 < retired[count + j].0);
            }
            assert(collector@.held() == before.held());
            assert forall|i: int| 0 <= i < self@.len() implies {
                let id = (#[trigger] self@[i]).0;
                &&& id < collector@.next_id
                &&& collector@.held().ids.contains(id) || collector@.ready.contains(id)
            } by {
                assert(self@[i] == retired[count + i]);
                old(self).lemma_first_flags(count, count + i);
            }
            if self@.len() > 0 {
                old(self).lemma_first_flags(count, count);
            }
        }
    }

    /// Lets the collector forget the flags of everything in the list, which can only be freed after that.
    pub fn forget_all<C>(&self, collector: &mut Collector<C>)
        requires
            self.wf(),
            old(collector).wf(),
        ensures
            final(collector).wf(),
            final(collector)@ == forgotten(self@, old(collector)@),
    {
        let mut ids: Vec<u64> = Vec::new();
        let mut i: usize = 0;
        let ghost retired = self@;
        let ghost before = collector@;
        proof {
            lemma_no_flags(retired, before.ready);
            assert(ids@.to_set() =~= Set::empty());
        }
        while i < self.list.len()
            invariant
                i <= self.list@.len(),
                retired == self@,
                self.wf(),
                collector.wf(),
                collector@ == (CollectorView {
                    ready: before.ready.difference(flags(retired.take(i as int))),
                    ..before
                }),
                ids@.to_set() == flags(retired.take(i as int)).difference(before.ready),
            decreases self.list@.len() - i,
        {
            let id: u64 = self.list[i].0;
            let ghost ids_before = ids@;
            proof {
                lemma_flags_next(retired, i as int);
                self.lemma_first_flags(i as int, i as int);
            }
            if collector.is_ready(id) {
                collector.drop_flag(id);
            } else {
                ids.push(id);
                proof {
                    lemma_push_to_set(ids_before, id);
                }
            }
            proof {
                assert(collector@.ready =~= before.ready.difference(flags(retired.take(i + 1))));
                assert(ids@.to_set() =~= flags(retired.take(i + 1)).difference(before.ready));
            }
            i = i + 1;
        }
        assert(retired.take(i as int) =~= retired);
        collect::cancel_by_ids(collector, &ids);
    }
}

/// Once the flags of all retired storage have been set, pruning frees all of it.
pub proof fn ready_storage_is_freed<T, C>(
    before: Seq<(u64, T)>,
    after: Seq<(u64, T)>,
    collector: CollectorView<C>,
    collector_before: CollectorView<C>,
)
    requires
        pruned(before, after, collector, collector_before),
        forall|i: int|
            0 <= i < before.len() ==> collector_before.ready.contains((#[trigger] before[i]).0),
    ensures
        after.len() == 0,
{
    if after.len() > 0 {
        assert(after[0] == before[before.len() - after.len()]);
    }
}

/// Whether the step neither cancels nor drops a flag of the retired storage.
pub open spec fn leaves_flags<T, C>(retired: Seq<(u64, T)>, step: Step<C>) -> bool {
    match step {
        Step::CancelByIds(ids) => forall|i: int|
            0 <= i < retired.len() ==> !ids.contains((#[trigger] retired[i]).0),
        Step::DropFlag(id) => forall|i: int|
            0 <= i < retired.len() ==> (#[trigger] retired[i]).0 != id,
        _ => true,
    }
}

/// Whether no step cancels or drops a flag of the retired storage.
pub open spec fn leave_flags<T, C>(retired: Seq<(u64, T)>, steps: Seq<Step<C>>) -> bool {
    forall|i: int| 0 <= i < steps.len() ==> leaves_flags(retired, #[trigger] steps[i])
}

/// The collector keeps knowing the flags of retired storage, whatever happens to it, unless they are
/// cancelled or dropped.
pub proof fn lemma_stays_attached<T, C>(
    retired: Seq<(u64, T)>,
    collector: CollectorView<C>,
    step: Step<C>,
)
    requires
        collector.wf(),
        collector.allows(step),
        attached(retired, collector),
        leaves_flags(retired, step),
    ensures
        attached(retired, collector.after(step)),
{
    let after = collector.after(step);
    assert forall|i: int| 0 <= i < retired.len() implies {
        let id = (#[trigger] retired[i]).0;
        &&& id < after.next_id
        &&& after.held().ids.contains(id) || after.ready.contains(id)
    } by {
        let id = retired[i].0;
        laws::lemma_known_id(collector, step, id);
    }
}

proof fn lemma_all_stay_attached<T, C>(
    retired: Seq<(u64, T)>,
    collector: CollectorView<C>,
    steps: Seq<Step<C>>,
)
    requires
        collector.wf(),
        collector.allows_all(steps),
        attached(retired, collector),
        leave_flags(retired, steps),
    ensures
        attached(retired, collector.after_all(steps)),
    decreases steps.len(),
{
    if steps.len() > 0 {
        let before = steps.drop_last();
        assert forall|i: int| 0 <= i < before.len() implies leaves_flags(
            retired,
            #[trigger] before[i],
        ) by {
            assert(before[i] == steps[i]);
        }
        lemma_all_stay_attached(retired, collector, before);
        laws::a_collector_stays_consistent(collector, before);
        assert(steps.last() == steps[steps.len() - 1]);
        lemma_stays_attached(retired, collector.after_all(before), steps.last());
    }
}

/// Once every registered thread has collected or left, all that are left then have done so once more,
/// and one more collection has been made, pruning frees all storage that had been retired.
pub proof fn storage_that_no_pin_can_reach_is_freed<T, C>(
    retired: Seq<(u64, T)>,
    start: CollectorView<C>,
    first: Seq<Step<C>>,
    second: Seq<Step<C>>,
    thread: Option<u64>,
    after: Seq<(u64, T)>,
    collector: CollectorView<C>,
)
    requires
        start.wf(),
        attached(retired, start),
        laws::is_round(start, first),
        laws::is_round(start.after_all(first), second),
        start.after_all(first).after_all(second).allows(Step::Collect(thread)),
        leave_flags(retired, first),
        leave_flags(retired, second),
        pruned(
            retired,
            after,
            collector,
            start.after_all(first).after_all(second).collected(thread),
        ),
    ensures
        after.len() == 0,
        forall|i: int|
            0 <= i < retired.len() ==> !collector.ready.contains((#[trigger] retired[i]).0),
{
    let mid = start.after_all(first);
    let end = mid.after_all(second);
    laws::a_collector_stays_consistent(start, first);
    lemma_all_stay_attached(retired, start, first);
    lemma_all_stay_attached(retired, mid, second);
    assert forall|i: int| 0 <= i < retired.len() implies end.collected(thread).ready.contains(
        (#[trigger] retired[i]).0,
    ) by {
        laws::a_collection_after_two_rounds_sets_every_flag(
            start,
            first,
            second,
            thread,
            retired[i].0,
        );
    }
    ready_storage_is_freed(retired, after, collector, end.collected(thread));
    assert(retired.take(retired.len() as int) =~= retired);
    assert forall|i: int| 0 <= i < retired.len() implies !collector.ready.contains(
        (#[trigger] retired[i]).0,
    ) by {
        assert(flags(retired).contains(retired[i].0));
    }
}

/// A list of retired storage and the collector that it belongs to.
pub struct Scene<T, C> {
    pub retired: Seq<(u64, T)>,
    pub collector: CollectorView<C>,
}

impl<T, C> Scene<T, C> {
    /// Whether this is `before` after `storage` has been retired.
    pub open spec fn retires(self, before: Self, storage: T) -> bool {
        &&& before.collector.allows(Step::DeferById)
        &&& self.retired == before.retired.push((before.collector.next_id, storage))
        &&& self.collector == before.collector.deferred_new_id()
    }

    /// Whether this is `before` after something that may happen while `thread` is pinned: storage is
    /// retired or pruned, or the collector is used in any other way.
    pub open spec fn goes_on_from(self, before: Self, thread: u64) -> bool {
        ||| exists|storage: T| #[trigger] self.retires(before, storage)
        ||| pruned(before.retired, self.retired, self.collector, before.collector)
        ||| {
            &&& self.retired == before.retired
            &&& exists|step: Step<C>|
                {
                    &&& before.collector.allows(step)
                    &&& !step.ends_pin_of(thread)
                    &&& self.collector == #[trigger] before.collector.after(step)
                }
        }
    }
}

/// Whether scene `t + 1` goes on from scene `t`.
pub open spec fn next_goes_on<T, C>(scenes: Seq<Scene<T, C>>, thread: u64, t: int) -> bool {
    scenes[t + 1].goes_on_from(scenes[t], thread)
}

/// Whether these scenes follow each other while `thread` is pinned.
pub open spec fn during_pin<T, C>(scenes: Seq<Scene<T, C>>, thread: u64) -> bool {
    &&& scenes.len() > 0
    &&& scenes[0].collector.wf()
    &&& scenes[0].collector.threads.contains_key(thread)
    &&& forall|t: int| 0 <= t < scenes.len() - 1 ==> #[trigger] next_goes_on(scenes, thread, t)
}

proof fn lemma_during_pin<T, C>(scenes: Seq<Scene<T, C>>, thread: u64, t: int)
    requires
        during_pin(scenes, thread),
        0 <= t < scenes.len(),
    ensures
        laws::holds_off(scenes[t].collector, thread, scenes[0].collector.next_id),
    decreases t,
{
    let first = scenes[0].collector.next_id;
    if t == 0 {
        laws::lemma_holds_off_new(scenes[0].collector, thread);
    } else {
        lemma_during_pin(scenes, thread, t - 1);
        let before = scenes[t - 1];
        let after = scenes[t];
        assert(next_goes_on(scenes, thread, t - 1));
        if exists|storage: T| #[trigger] after.retires(before, storage) {
            laws::lemma_holds_off_step(before.collector, Step::DeferById, thread, first);
        } else if pruned(before.retired, after.retired, after.collector, before.collector) {
            laws::lemma_holds_off_dropped(
                before.collector,
                after.collector.ready,
                thread,
                first,
            );
        } else {
            let step = choose|step: Step<C>|
                {
                    &&& before.collector.allows(step)
                    &&& !step.ends_pin_of(thread)
                    &&& after.collector == #[trigger] before.collector.after(step)
                };
            laws::lemma_holds_off_step(before.collector, step, thread, first);
        }
    }
}

/// Storage that is retired while a thread is pinned is still there when the pin ends, whatever is
/// retired, pruned or done with the collector by others.
pub proof fn storage_retired_during_a_pin_is_kept<T, C>(
    scenes: Seq<Scene<T, C>>,
    thread: u64,
    storage: T,
    t: int,
    end: int,
)
    requires
        during_pin(scenes, thread),
        0 <= t < end < scenes.len(),
        scenes[t + 1].retires(scenes[t], storage),
    ensures
        scenes[end].retired.contains((scenes[t].collector.next_id, storage)),
    decreases end - t,
{
    let id = scenes[t].collector.next_id;
    let entry = (id, storage);
    lemma_during_pin(scenes, thread, t);
    laws::lemma_holds_off_flags(scenes[t].collector, thread, scenes[0].collector.next_id);
    if end == t + 1 {
        let list = scenes[t + 1].retired;
        assert(list[list.len() - 1] == entry);
    } else {
        storage_retired_during_a_pin_is_kept(scenes, thread, storage, t, end - 1);
        let before = scenes[end - 1];
        let after = scenes[end];
        assert(next_goes_on(scenes, thread, end - 1));
        lemma_during_pin(scenes, thread, end - 1);
        laws::lemma_holds_off_flags(before.collector, thread, scenes[0].collector.next_id);
        let i = choose|i: int| 0 <= i < before.retired.len() && before.retired[i] == entry;
        if exists|storage: T| #[trigger] after.retires(before, storage) {
            assert(after.retired[i] == entry);
        } else if pruned(before.retired, after.retired, after.collector, before.collector) {
            let count = before.retired.len() - after.retired.len();
            if i < count {
                assert(before.collector.ready.contains(before.retired[i].0));
            }
            assert(after.retired[i - count] == entry);
        }
    }
}

/// Pruning frees the oldest storage as long as its flag has been set, and nothing whose flag has not. What
/// is left is there in the same order, and the first of it must wait. The collector forgets the flags of
/// what is freed, and nothing else.
pub proof fn pruning_frees_the_oldest_that_are_ready<T, C>(
    before: Seq<(u64, T)>,
    after: Seq<(u64, T)>,
    collector: CollectorView<C>,
    collector_before: CollectorView<C>,
)
    requires
        pruned(before, after, collector, collector_before),
    ensures
        after.len() <= before.len(),
        forall|i: int|
            0 <= i < after.len() ==> #[trigger] after[i] == before[before.len() - after.len() + i],
        forall|i: int|
            0 <= i < before.len() - after.len() ==> collector_before.ready.contains(
                (#[trigger] before[i]).0,
            ) && !collector.ready.contains(before[i].0),
        after.len() > 0 ==> !collector_before.ready.contains(after[0].0),
        forall|id: u64| #[trigger]
            collector.ready.contains(id) ==> collector_before.ready.contains(id),
        forall|id: u64| #[trigger]
            collector_before.ready.contains(id) && !collector.ready.contains(id) ==> exists|i: int|
                0 <= i < before.len() - after.len() && (#[trigger] before[i]).0 == id,
        collector == (CollectorView { ready: collector.ready, ..collector_before }),
{
    let count = before.len() - after.len();
    let gone = before.take(count);
    assert forall|i: int| 0 <= i < count implies !collector.ready.contains(
        (#[trigger] before[i]).0,
    ) by {
        assert(gone[i] == before[i]);
        assert(flags(gone).contains(before[i].0));
    }
    assert forall|id: u64| #[trigger]
        collector_before.ready.contains(id) && !collector.ready.contains(id) implies exists|i: int|
        0 <= i < count && (#[trigger] before[i]).0 == id by {
        assert(flags(gone).contains(id));
        let i = choose|i: int| 0 <= i < gone.len() && (#[trigger] gone[i]).0 == id;
        assert(before[i].0 == id);
    }
}

/// A collector that forgets the flags of retired storage neither holds any of them nor has them set, and
/// keeps all other flags as they are, and all callbacks and threads.
pub proof fn forgotten_flags_are_gone_and_the_others_stay<T, C>(
    retired: Seq<(u64, T)>,
    collector: CollectorView<C>,
)
    requires
        collector.wf(),
    ensures
        ({
            let after = forgotten(retired, collector);
            &&& forall|i: int|
                0 <= i < retired.len() ==> {
                    let id = (#[trigger] retired[i]).0;
                    &&& !after.ready.contains(id)
                    &&& !after.pending.ids.contains(id)
                    &&& !after.previous.ids.contains(id)
                    &&& !after.current.ids.contains(id)
                }
            &&& forall|id: u64|
                (forall|i: int| 0 <= i < retired.len() ==> (#[trigger] retired[i]).0 != id) ==> {
                    &&& #[trigger] after.ready.contains(id) == collector.ready.contains(id)
                    &&& after.pending.ids.contains(id) == collector.pending.ids.contains(id)
                    &&& after.previous.ids.contains(id) == collector.previous.ids.contains(id)
                    &&& after.current.ids.contains(id) == collector.current.ids.contains(id)
                }
            &&& after.pending.deferred == collector.pending.deferred
            &&& after.previous.deferred == collector.previous.deferred
            &&& after.current.deferred == collector.current.deferred
            &&& after.threads == collector.threads
            &&& after.events == collector.events
            &&& after.next_id == collector.next_id
        }),
{
    let after = forgotten(retired, collector);
    let ids = flags(retired).difference(collector.ready);
    effects::cancelling_takes_out_these_ids_only(collector, ids);
    assert forall|i: int| 0 <= i < retired.len() implies {
        let id = (#[trigger] retired[i]).0;
        &&& !after.ready.contains(id)
        &&& !after.pending.ids.contains(id)
        &&& !after.previous.ids.contains(id)
        &&& !after.current.ids.contains(id)
    } by {
        let id = retired[i].0;
        assert(flags(retired).contains(id));
        if collector.ready.contains(id) {
            lemma_not_held(collector, id);
        }
    }
    assert forall|id: u64|
        (forall|i: int| 0 <= i < retired.len() ==> (#[trigger] retired[i]).0 != id) implies {
        &&& #[trigger] after.ready.contains(id) == collector.ready.contains(id)
        &&& after.pending.ids.contains(id) == collector.pending.ids.contains(id)
        &&& after.previous.ids.contains(id) == collector.previous.ids.contains(id)
        &&& after.current.ids.contains(id) == collector.current.ids.contains(id)
    } by {
        assert(!flags(retired).contains(id));
    }
}

/// A flag that has been set is held nowhere.
proof fn lemma_not_held<C>(collector: CollectorView<C>, id: u64)
    requires
        collector.wf(),
        collector.ready.contains(id),
    ensures
        !collector.pending.ids.contains(id),
        !collector.previous.ids.contains(id),
        !collector.current.ids.contains(id),
{
    let held = collector.held().ids;
    if collector.pending.ids.contains(id) {
        let i = collector.pending.ids.index_of(id);
        assert(held[i] == id);
        assert(held.contains(id));
    }
    if collector.previous.ids.contains(id) {
        let i = collector.previous.ids.index_of(id);
        assert(held[collector.pending.ids.len() + i] == id);
        assert(held.contains(id));
    }
    if collector.current.ids.contains(id) {
        let i = collector.current.ids.index_of(id);
        assert(held[collector.pending.ids.len() + collector.previous.ids.len() + i] == id);
        assert(held.contains(id));
    }
}

/// The flag of all retired storage that belongs to a collector has been set, or is held: it is waiting
/// or ready to be set.
pub proof fn the_flags_of_retired_storage_are_known<T, C>(
    retired: Seq<(u64, T)>,
    collector: CollectorView<C>,
    i: int,
)
    requires
        attached(retired, collector),
        0 <= i < retired.len(),
    ensures
        ({
            let id = retired[i].0;
            ||| collector.ready.contains(id)
            ||| collector.pending.ids.contains(id)
            ||| collector.previous.ids.contains(id)
            ||| collector.current.ids.contains(id)
        }),
{
    broadcast use seq_lib::group_seq_properties;

    let id = retired[i].0;
    assert(collector.held().ids.contains(id) || collector.ready.contains(id));
}

} // verus!

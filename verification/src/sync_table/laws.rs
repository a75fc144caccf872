//! What holds of a table across several operations.

use super::{capacity, SyncTable};
use crate::collect::laws::{self, Step};
use crate::collect::model::CollectorView;
use crate::contents;
use crate::raw::race;
use crate::raw::table::TableRef;
use crate::retired;
use crate::util::HashBuilder;
use vstd::prelude::*;
use vstd::std_specs::cmp::PartialEqSpec;

verus! {

/// At most one element of a table has a key that equals a given one.
pub proof fn keys_are_unique<K: Eq, V, S: HashBuilder<K>>(
    table: SyncTable<K, V, S>,
    key: K,
    a: K,
    b: K,
)
    requires
        table.wf(),
        table@.contains_key(a),
        table@.contains_key(b),
        contents::same_key(key, a),
        contents::same_key(key, b),
    ensures
        a == b,
{
    table.lemma_wf();
    assert(contents::same_key(a, key));
    assert(contents::same_key(a, b));
}

/// What has been inserted is found under every key that equals its key, with its value.
pub proof fn an_inserted_element_is_found<K: Eq, V, S: HashBuilder<K>>(
    before: SyncTable<K, V, S>,
    after: SyncTable<K, V, S>,
    key: K,
    value: V,
    other: K,
)
    requires
        after.wf(),
        after.inserted(before, key, value, true),
        contents::same_key(other, key),
    ensures
        contents::has_key(after@, other),
        forall|k: K| #[trigger]
            after@.contains_key(k) && contents::same_key(other, k) ==> k == key && after@[k]
                == value,
{
    assert(after@.contains_key(key));
    assert forall|k: K| #[trigger]
        after@.contains_key(k) && contents::same_key(other, k) implies k == key && after@[k]
        == value by {
        keys_are_unique(after, other, k, key);
    }
}

/// An insertion changes nothing for keys that do not equal its key.
pub proof fn an_insertion_leaves_other_keys_alone<K: Eq, V, S: HashBuilder<K>>(
    before: SyncTable<K, V, S>,
    after: SyncTable<K, V, S>,
    key: K,
    value: V,
    added: bool,
    other: K,
)
    requires
        after.wf(),
        after.inserted(before, key, value, added),
        !contents::same_key(key, other),
    ensures
        before@.contains_key(other) == after@.contains_key(other),
        before@.contains_key(other) ==> after@[other] == before@[other],
{
    after.lemma_wf();
    assert(contents::same_key(key, key));
}

/// What has been removed is not found any more.
pub proof fn a_removed_element_is_gone<K: Eq, V, S: HashBuilder<K>>(
    before: SyncTable<K, V, S>,
    after: SyncTable<K, V, S>,
    key: K,
    removed: K,
)
    requires
        before.wf(),
        before@.contains_key(removed),
        contents::same_key(key, removed),
        after@ == before@.remove(removed),
    ensures
        !contents::has_key(after@, key),
        forall|k: K| k != removed ==> #[trigger] after@.contains_key(k) == before@.contains_key(k),
{
    if contents::has_key(after@, key) {
        let k = choose|k: K| #[trigger] after@.contains_key(k) && contents::same_key(key, k);
        keys_are_unique(before, key, k, removed);
    }
}

/// Moving the elements to another table keeps every key, with a clone of its value.
pub proof fn an_expansion_keeps_every_key<K: Eq + Clone, V: Clone, S: HashBuilder<K>, C>(
    before: SyncTable<K, V, S>,
    after: SyncTable<K, V, S>,
    collector: CollectorView<C>,
    collector_before: CollectorView<C>,
    additional: int,
    key: K,
)
    requires
        before.wf(),
        contents::clones_keep_keys::<K>(),
        after.expanded(before, collector, collector_before, additional),
    ensures
        contents::has_key(before@, key) == contents::has_key(after@, key),
        after@.len() == before@.len(),
{
    before.lemma_wf();
    contents::lemma_cloned_has_key::<K, V, S>(before.builder(), before@, after@, key);
}

/// Moving the elements to another table keeps the contents if clones are the same as what they are
/// clones of.
pub proof fn an_expansion_with_exact_clones_keeps_the_contents<
    K: Eq + Clone,
    V: Clone,
    S: HashBuilder<K>,
    C,
>(
    before: SyncTable<K, V, S>,
    after: SyncTable<K, V, S>,
    collector: CollectorView<C>,
    collector_before: CollectorView<C>,
    additional: int,
)
    requires
        after.expanded(before, collector, collector_before, additional),
        forall|a: K, b: K| #[trigger] cloned::<K>(a, b) ==> a == b,
        forall|a: V, b: V| #[trigger] cloned::<V>(a, b) ==> a == b,
    ensures
        after@ == before@,
{
    contents::exact_clones_make_the_same_map(before@, after@);
}

/// A table that is at most half full, not counting removed elements, does not grow when it makes
/// room for more: inserting and removing elements over and over needs no more memory.
pub proof fn a_half_empty_table_does_not_grow(len: int, n: int, additional: int, new_n: int)
    requires
        len >= 0,
        additional > 0,
        n == 1 || n >= 16,
        vstd::arithmetic::power2::is_pow2(n),
        len + additional <= capacity::capacity_of(n) / 2,
        capacity::buckets_for(super::expanded_capacity(len, n, additional), new_n),
    ensures
        new_n <= n,
{
    if n < new_n {
        capacity::lemma_pow2_gap(n, new_n);
        assert(capacity::capacity_of(n) <= capacity::capacity_of(new_n / 2));
    }
}

/// A table that is more than half full gets more buckets when it makes room for more.
pub proof fn a_filled_table_grows(len: int, n: int, additional: int, new_n: int)
    requires
        len >= 0,
        additional > 0,
        n == 1 || n >= 16,
        capacity::capacity_of(n) / 2 < len + additional,
        capacity::buckets_for(super::expanded_capacity(len, n, additional), new_n),
    ensures
        n < new_n,
{
}

/// A table never has more elements than its capacity, and making room for more leaves enough of it.
pub proof fn capacity_is_not_less_than_len<K: Eq, V, S: HashBuilder<K>>(table: SyncTable<K, V, S>)
    requires
        table.wf(),
    ensures
        table@.len() <= capacity::capacity_of(table.table().n()) - table.table().info.tombstones,
        capacity::capacity_of(table.table().n()) < table.table().n(),
{
    table.lemma_wf();
}

/// Whether a key that was missing in `before` has been inserted with some value, which leads to
/// `after`: what an insertion tells of the table and the collector.
pub open spec fn adds_fresh<K: Eq + Clone, V: Clone, S: HashBuilder<K>, C>(
    before: Scene<K, V, S, C>,
    after: Scene<K, V, S, C>,
) -> bool {
    exists|key: K, value: V, reserved: SyncTable<K, V, S>|
        {
            &&& #[trigger] after.table.inserted(reserved, key, value, true)
            &&& reserved.reserved(before.table, after.collector, before.collector)
            &&& !contents::has_key(before.table@, key)
            &&& after.table.wf()
        }
}

/// Whether each scene is the one before it after a missing key has been inserted.
pub open spec fn all_add_fresh<K: Eq + Clone, V: Clone, S: HashBuilder<K>, C>(
    scenes: Seq<Scene<K, V, S, C>>,
) -> bool {
    forall|t: int| 0 <= t < scenes.len() - 1 ==> adds_fresh(scenes[t], #[trigger] scenes[t + 1])
}

/// Inserting a missing key adds one element. As long as there is room, it keeps the capacity.
proof fn lemma_adds_fresh<K: Eq + Clone, V: Clone, S: HashBuilder<K>, C>(
    before: Scene<K, V, S, C>,
    after: Scene<K, V, S, C>,
)
    requires
        before.table.wf(),
        contents::clones_keep_keys::<K>(),
        adds_fresh(before, after),
    ensures
        after.table.wf(),
        after.table@.len() == before.table@.len() + 1,
        before.table.room() > 0 ==> after.table.room() == before.table.room() - 1,
        before.table.room() == 0 ==> after.table.room() > 0,
{
    let (key, value, reserved) = choose|key: K, value: V, reserved: SyncTable<K, V, S>|
        {
            &&& #[trigger] after.table.inserted(reserved, key, value, true)
            &&& reserved.reserved(before.table, after.collector, before.collector)
            &&& !contents::has_key(before.table@, key)
            &&& after.table.wf()
        };
    before.table.lemma_wf();
    after.table.lemma_wf();
    let n = before.table.table().n();
    let new_n = after.table.table().n();
    let len = before.table@.len() as int;
    if before.table.room() == 0 {
        contents::lemma_cloned_has_key::<K, V, S>(
            before.table.builder(),
            before.table@,
            reserved@,
            key,
        );
    }
    assert(!reserved@.contains_key(key)) by {
        if reserved@.contains_key(key) {
            assert(contents::same_key(key, key));
            assert(contents::has_key(reserved@, key));
        }
    }
    assert(reserved@.dom() =~= after.table@.dom().remove(key));
    if before.table.room() == 0 && len + 1 > capacity::capacity_of(n) / 2 {
        a_filled_table_grows(len, n, 1, new_n);
        capacity::lemma_pow2_gap(n, new_n);
        assert(capacity::capacity_of(new_n) > len + 1);
    }
}

/// A table never has more elements than its capacity. Inserting as many missing keys as the capacity
/// leaves room for keeps the capacity and fills the table exactly; one more makes more room than it
/// needs.
///
/// `scenes` starts with any table, and in each of the others one more key has been inserted.
pub proof fn a_table_is_filled_up_to_its_capacity_and_then_makes_room<
    K: Eq + Clone,
    V: Clone,
    S: HashBuilder<K>,
    C,
>(scenes: Seq<Scene<K, V, S, C>>)
    requires
        scenes.len() > 0,
        scenes[0].table.wf(),
        contents::clones_keep_keys::<K>(),
        all_add_fresh(scenes),
    ensures
        scenes[0].table@.len() <= scenes[0].capacity(),
        forall|t: int|
            0 <= t < scenes.len() && t <= scenes[0].capacity() - scenes[0].table@.len() ==> {
                &&& (#[trigger] scenes[t]).capacity() == scenes[0].capacity()
                &&& scenes[t].table@.len() == scenes[0].table@.len() + t
            },
        ({
            let free = scenes[0].capacity() - scenes[0].table@.len();
            &&& free < scenes.len() ==> scenes[free].table@.len() == scenes[free].capacity()
            &&& free + 1 < scenes.len() ==> scenes[free + 1].capacity() > scenes[free
                + 1].table@.len()
        }),
{
    let free = scenes[0].capacity() - scenes[0].table@.len();
    assert forall|t: int| 0 <= t < scenes.len() && t <= free implies {
        &&& (#[trigger] scenes[t]).capacity() == scenes[0].capacity()
        &&& scenes[t].table@.len() == scenes[0].table@.len() + t
    } by {
        lemma_fills(scenes, t);
    }
    if free + 1 < scenes.len() {
        lemma_fills(scenes, free);
        assert(adds_fresh(scenes[free], scenes[free + 1]));
        lemma_adds_fresh(scenes[free], scenes[free + 1]);
    }
}

proof fn lemma_fills<K: Eq + Clone, V: Clone, S: HashBuilder<K>, C>(
    scenes: Seq<Scene<K, V, S, C>>,
    t: int,
)
    requires
        scenes.len() > 0,
        scenes[0].table.wf(),
        contents::clones_keep_keys::<K>(),
        all_add_fresh(scenes),
        0 <= t < scenes.len(),
        t <= scenes[0].table.room(),
    ensures
        scenes[t].table.wf(),
        scenes[t].table@.len() == scenes[0].table@.len() + t,
        scenes[t].table.room() == scenes[0].table.room() - t,
    decreases t,
{
    if t > 0 {
        lemma_fills(scenes, t - 1);
        assert(adds_fresh(scenes[t - 1], scenes[t - 1 + 1]));
        lemma_adds_fresh(scenes[t - 1], scenes[t]);
    }
}

/// A table and the collector that it belongs to.
pub struct Scene<K, V, S, C> {
    pub table: SyncTable<K, V, S>,
    pub collector: CollectorView<C>,
}

impl<K: Eq, V, S: HashBuilder<K>, C> Scene<K, V, S, C> {
    /// The number of elements that the table can hold without reallocating.
    pub open spec fn capacity(self) -> int {
        self.table@.len() + self.table.room()
    }

    /// Whether this is `before` after other storage has been put into use.
    pub open spec fn replaces(self, before: Self) -> bool {
        &&& before.table.can_replace(before.collector)
        &&& self.table.replaces(before.table, self.collector, before.collector)
    }

    /// Whether this is `before` after something that may happen while `thread` is pinned: the table is
    /// written to or pruned, or the collector is used in any other way.
    pub open spec fn goes_on_from(self, before: Self, thread: u64) -> bool {
        ||| self.replaces(before)
        ||| self.table.pruned(before.table, self.collector, before.collector)
        ||| self.table.same_but_contents(before.table) && self.collector == before.collector
        ||| {
            &&& self.table == before.table
            &&& exists|step: Step<C>|
                {
                    &&& before.collector.allows(step)
                    &&& !step.ends_pin_of(thread)
                    &&& self.collector == #[trigger] before.collector.after(step)
                }
        }
    }

    /// The retired storage and the collector.
    pub open spec fn behind(self) -> retired::Scene<TableRef<(K, V)>, C> {
        retired::Scene { retired: self.table.retired(), collector: self.collector }
    }
}

/// Whether scene `t + 1` goes on from scene `t`.
pub open spec fn next_goes_on<K: Eq, V, S: HashBuilder<K>, C>(
    scenes: Seq<Scene<K, V, S, C>>,
    thread: u64,
    t: int,
) -> bool {
    scenes[t + 1].goes_on_from(scenes[t], thread)
}

/// Whether these scenes follow each other while `thread` is pinned.
pub open spec fn during_pin<K: Eq, V, S: HashBuilder<K>, C>(
    scenes: Seq<Scene<K, V, S, C>>,
    thread: u64,
) -> bool {
    &&& scenes.len() > 0
    &&& scenes[0].collector.wf()
    &&& scenes[0].collector.threads.contains_key(thread)
    &&& forall|t: int| 0 <= t < scenes.len() - 1 ==> #[trigger] next_goes_on(scenes, thread, t)
}

/// Storage that a reader may have come by while it is pinned is still there when the pin ends: if the
/// storage in use is replaced, it stays among the retired storage, whatever is written to the table,
/// pruned or done with the collector by others. This leaves out the storage of a table that has never
/// been allocated, which needs no memory.
pub proof fn storage_in_use_during_a_pin_is_kept<K: Eq, V, S: HashBuilder<K>, C>(
    scenes: Seq<Scene<K, V, S, C>>,
    thread: u64,
    t: int,
    end: int,
)
    requires
        during_pin(scenes, thread),
        0 <= t < end < scenes.len(),
        scenes[t + 1].replaces(scenes[t]),
        scenes[t].table.table().n() > 1,
    ensures
        scenes[end].table.retired().contains(
            (scenes[t].collector.next_id, scenes[t].table.table()),
        ),
{
    let behind = Seq::new(scenes.len(), |t: int| scenes[t].behind());
    assert forall|t: int| 0 <= t < behind.len() - 1 implies #[trigger] retired::next_goes_on(
        behind,
        thread,
        t,
    ) by {
        assert(next_goes_on(scenes, thread, t));
        let before = scenes[t];
        let after = scenes[t + 1];
        if after.replaces(before) && before.table.table().n() > 1 {
            assert(behind[t + 1].retires(behind[t], before.table.table()));
        } else if after.collector == before.collector && after.table.retired()
            == before.table.retired() {
            let step = Step::<C>::CancelByIds(Set::empty());
            before.collector.cancelling_nothing_changes_nothing();
            assert(after.collector == before.collector.after(step));
        } else if !after.table.pruned(before.table, after.collector, before.collector) {
            let step = choose|step: Step<C>|
                {
                    &&& before.collector.allows(step)
                    &&& !step.ends_pin_of(thread)
                    &&& after.collector == #[trigger] before.collector.after(step)
                };
            assert(behind[t].collector.allows(step));
        }
    }
    assert(behind[t + 1].retires(behind[t], scenes[t].table.table()));
    retired::storage_retired_during_a_pin_is_kept(
        behind,
        thread,
        scenes[t].table.table(),
        t,
        end,
    );
}

/// The collector keeps knowing the flags of a table's retired tables, whatever happens to it, unless
/// their ids are cancelled or their flags dropped.
pub proof fn a_table_stays_attached<K, V, S, C>(
    table: SyncTable<K, V, S>,
    collector: CollectorView<C>,
    step: Step<C>,
)
    requires
        collector.wf(),
        collector.allows(step),
        table.attached_to(collector),
        retired::leaves_flags(table.retired(), step),
    ensures
        table.attached_to(collector.after(step)),
{
    retired::lemma_stays_attached(table.retired(), collector, step);
}

/// Whether the table has the same contents and the same capacity in both scenes, in the same storage.
pub open spec fn same_elements<K: Eq, V, S: HashBuilder<K>, C>(
    before: Scene<K, V, S, C>,
    after: Scene<K, V, S, C>,
) -> bool {
    &&& after.table@ == before.table@
    &&& after.capacity() == before.capacity()
    &&& after.table.table() == before.table.table()
}

/// Pruning changes neither the contents nor the capacity of a table. Whatever happens while a thread is
/// pinned, pruning at the end of it, or any time before, frees no storage that was in use at the start
/// of the pin or later, but for that of a table that has never been allocated, which needs no memory.
/// Once every registered thread has collected or left, all that are left then have done so once more,
/// and one more collection has been made, pruning frees all retired storage, each once: the flags in
/// the list differ, and neither the storage nor its flag is there afterwards.
///
/// `scenes` is what happens during the pin, and ends with a pruning. `first`, `second` and a collection
/// by `thread` follow, and then a pruning that leads to `last`.
pub proof fn pruning_waits_for_every_pin_and_then_frees_everything<
    K: Eq,
    V,
    S: HashBuilder<K>,
    C,
>(
    scenes: Seq<Scene<K, V, S, C>>,
    pinned: u64,
    first: Seq<Step<C>>,
    second: Seq<Step<C>>,
    thread: Option<u64>,
    last: Scene<K, V, S, C>,
)
    requires
        scenes.len() >= 2,
        during_pin(scenes, pinned),
        scenes.last().table.pruned(
            scenes[scenes.len() - 2].table,
            scenes.last().collector,
            scenes[scenes.len() - 2].collector,
        ),
        scenes.last().table.wf(),
        scenes.last().collector.wf(),
        scenes.last().table.attached_to(scenes.last().collector),
        laws::is_round(scenes.last().collector, first),
        laws::is_round(scenes.last().collector.after_all(first), second),
        scenes.last().collector.after_all(first).after_all(second).allows(Step::Collect(thread)),
        retired::leave_flags(scenes.last().table.retired(), first),
        retired::leave_flags(scenes.last().table.retired(), second),
        last.table.pruned(
            scenes.last().table,
            last.collector,
            scenes.last().collector.after_all(first).after_all(second).collected(thread),
        ),
    ensures
        same_elements(scenes[scenes.len() - 2], scenes.last()),
        forall|t: int|
            0 <= t < scenes.len() - 1 && #[trigger] scenes[t + 1].replaces(scenes[t])
                && scenes[t].table.table().n() > 1 ==> scenes.last().table.retired().contains(
                (scenes[t].collector.next_id, scenes[t].table.table()),
            ),
        same_elements(scenes.last(), last),
        last.table.retired().len() == 0,
        ({
            let freed = scenes.last().table.retired();
            &&& forall|i: int, j: int|
                0 <= i < j < freed.len() ==> (#[trigger] freed[i]).0 != (#[trigger] freed[j]).0
            &&& forall|i: int|
                0 <= i < freed.len() ==> !last.collector.ready.contains((#[trigger] freed[i]).0)
        }),
{
    let end = scenes.len() - 1;
    assert forall|t: int|
        0 <= t < scenes.len() - 1 && #[trigger] scenes[t + 1].replaces(scenes[t])
            && scenes[t].table.table().n() > 1 implies scenes.last().table.retired().contains(
        (scenes[t].collector.next_id, scenes[t].table.table()),
    ) by {
        storage_in_use_during_a_pin_is_kept(scenes, pinned, t, end);
    }
    scenes.last().table.lemma_wf();
    retired::storage_that_no_pin_can_reach_is_freed(
        scenes.last().table.retired(),
        scenes.last().collector,
        first,
        second,
        thread,
        last.table.retired(),
        last.collector,
    );
}

/// The storage of a table in each of its states.
pub open spec fn storage<K, V, S>(states: Seq<SyncTable<K, V, S>>) -> Seq<TableRef<(K, V)>> {
    Seq::new(states.len(), |t: int| states[t].table())
}

/// Whether these are states of one table that is inserted into and removed from, without its storage
/// being replaced.
pub open spec fn is_run<K: Eq, V, S: HashBuilder<K>>(states: Seq<SyncTable<K, V, S>>) -> bool {
    &&& states.len() > 0
    &&& forall|t: int|
        0 <= t < states.len() ==> (#[trigger] states[t]).wf() && states[t].builder()
            == states[0].builder()
    &&& race::is_run(storage(states))
}

/// A reader that looks for a key while others insert and remove elements gets an answer that is right
/// for one of the states that the table went through: a pair that it finds was in the table in one of
/// them, and if it finds none the key was missing in one of them. If the storage is replaced, the
/// reader goes on with the old one, which does not change any more.
pub proof fn a_lookup_during_writes_answers_as_one_of_the_states<K: Eq, V, S: HashBuilder<K>>(
    states: Seq<SyncTable<K, V, S>>,
    key: K,
    groups: Seq<Seq<u8>>,
    answer: Option<int>,
)
    requires
        is_run(states),
        race::loaded(storage(states), states[0].builder().hash_of(key), groups),
        race::answers(
            storage(states),
            states[0].builder().hash_of(key),
            |pair: (K, V)| contents::same_key(key, pair.0),
            groups,
            answer,
        ),
    ensures
        match answer {
            Some(index) => exists|t: int|
                0 <= t < states.len() && ({
                    let (k, v) = (#[trigger] states[t]).table().item(index);
                    &&& states[t]@.contains_key(k)
                    &&& states[t]@[k] == v
                    &&& contents::same_key(key, k)
                }),
            None => exists|t: int|
                0 <= t < states.len() && !contents::has_key((#[trigger] states[t])@, key),
        },
{
    let hash = states[0].builder().hash_of(key);
    let accepts = |pair: (K, V)| contents::same_key(key, pair.0);
    let all = storage(states);
    assert forall|t: int, i: int|
        0 <= t < all.len() && #[trigger] all[t].holds(i) && accepts(
            all[t].item(i),
        ) implies all[t].hashes@[i] == hash by {
        states[t].lemma_wf();
    }
    assert forall|t: int, i: int, j: int|
        0 <= t < all.len() && #[trigger] all[t].holds(i) && accepts(all[t].item(i))
            && #[trigger] all[t].holds(j) && accepts(all[t].item(j)) implies i == j by {
        states[t].lemma_wf();
        let entries = all[t].items();
        assert(entries.contains_key(i) && entries.contains_key(j));
        assert(contents::same_key(entries[i].0, key));
        assert(contents::same_key(entries[i].0, entries[j].0));
    }
    race::a_search_during_writes_answers_as_one_of_the_states(all, hash, accepts, groups, answer);
    match answer {
        Some(index) => {
            let t = choose|t: int|
                0 <= t < all.len() && #[trigger] all[t].holds(index) && accepts(
                    all[t].item(index),
                );
            states[t].lemma_found(index);
            assert(states[t].table() == all[t]);
        },
        None => {
            let t = choose|t: int| 0 <= t < all.len() && !race::present(#[trigger] all[t], accepts);
            if contents::has_key(states[t]@, key) {
                let k = choose|k: K| #[trigger]
                    states[t]@.contains_key(k) && contents::same_key(key, k);
                let i = states[t].lemma_key(k);
                assert(all[t].holds(i) && accepts(all[t].item(i)));
            }
        },
    }
}

/// Whether `==` on keys is an equivalence.
#[verifier::opaque]
pub open spec fn is_equivalence<K: Eq>() -> bool {
    &&& forall|a: K| #[trigger] contents::same_key(a, a)
    &&& forall|a: K, b: K| #[trigger] contents::same_key(a, b) ==> contents::same_key(b, a)
    &&& forall|a: K, b: K, c: K|
        #[trigger] contents::same_key(a, b) && #[trigger] contents::same_key(b, c)
            ==> contents::same_key(a, c)
}

/// Whether no key of the map equals another.
pub open spec fn has_unique_keys<K: Eq, V>(map: Map<K, V>) -> bool {
    forall|a: K, b: K|
        #![trigger map.contains_key(a), map.contains_key(b)]
        map.contains_key(a) && map.contains_key(b) && contents::same_key(a, b) ==> a == b
}

/// Whether no pair before the pair `i` has a key that equals that of the pair.
pub open spec fn comes_first<K: Eq, V>(pairs: Seq<(K, V)>, i: int) -> bool {
    forall|j: int| 0 <= j < i ==> !contents::same_key((#[trigger] pairs[j]).0, pairs[i].0)
}

proof fn lemma_equal_keys<K: Eq>(a: K, b: K, c: K)
    requires
        is_equivalence::<K>(),
    ensures
        contents::same_key(a, a),
        contents::same_key(a, b) ==> contents::same_key(b, a),
        contents::same_key(a, b) && contents::same_key(b, c) ==> contents::same_key(a, c),
{
    reveal(is_equivalence);
}

/// Whether `after` has what is in the map, and the first of the pairs with each key that is not, and
/// nothing else.
pub open spec fn has_the_first_of_each_key<K: Eq, V>(
    map: Map<K, V>,
    pairs: Seq<(K, V)>,
    after: Map<K, V>,
) -> bool {
    &&& has_unique_keys(after)
    &&& forall|k: K| #[trigger] map.contains_key(k) ==> after.contains_key(k) && after[k] == map[k]
    &&& forall|i: int|
        0 <= i < pairs.len() && comes_first(pairs, i) && !contents::has_key(
            map,
            (#[trigger] pairs[i]).0,
        ) ==> after.contains_key(pairs[i].0) && after[pairs[i].0] == pairs[i].1
    &&& forall|i: int|
        0 <= i < pairs.len() ==> contents::has_key(after, (#[trigger] pairs[i]).0)
    &&& forall|k: K| #[trigger]
        after.contains_key(k) ==> map.contains_key(k) || exists|i: int|
            0 <= i < pairs.len() && (#[trigger] pairs[i]).0 == k && comes_first(pairs, i)
                && pairs[i].1 == after[k]
}

/// Whether a pair is the first with its key does not depend on the pairs after it.
proof fn lemma_comes_first<K: Eq, V>(pairs: Seq<(K, V)>, i: int)
    requires
        0 <= i < pairs.len() - 1,
    ensures
        comes_first(pairs, i) == comes_first(pairs.drop_last(), i),
        pairs.drop_last()[i] == pairs[i],
{
    let rest = pairs.drop_last();
    if comes_first(pairs, i) {
        assert forall|j: int| 0 <= j < i implies !contents::same_key(
            (#[trigger] rest[j]).0,
            rest[i].0,
        ) by {
            assert(pairs[j] == rest[j]);
        }
    }
    if comes_first(rest, i) {
        assert forall|j: int| 0 <= j < i implies !contents::same_key(
            (#[trigger] pairs[j]).0,
            pairs[i].0,
        ) by {
            assert(pairs[j] == rest[j]);
        }
    }
}

/// Whether each key is one of the map, or that of the first pair with it.
spec fn come_from<K: Eq, V>(map: Map<K, V>, pairs: Seq<(K, V)>, after: Map<K, V>) -> bool {
    forall|k: K| #[trigger]
        after.contains_key(k) ==> map.contains_key(k) || exists|i: int|
            0 <= i < pairs.len() && (#[trigger] pairs[i]).0 == k && comes_first(pairs, i)
                && pairs[i].1 == after[k]
}

/// The first pair with a key that is there already has a key of the map.
#[verifier::rlimit(40)]
proof fn lemma_known_key<K: Eq, V>(map: Map<K, V>, pairs: Seq<(K, V)>, after: Map<K, V>)
    requires
        is_equivalence::<K>(),
        pairs.len() > 0,
        come_from(map, pairs.drop_last(), after),
        contents::has_key(after, pairs.last().0),
        comes_first(pairs, pairs.len() - 1),
    ensures
        contents::has_key(map, pairs.last().0),
{
    let rest = pairs.drop_last();
    let key = pairs.last().0;
    let k = choose|k: K| #[trigger] after.contains_key(k) && contents::same_key(key, k);
    if !map.contains_key(k) {
        let j = choose|j: int|
            0 <= j < rest.len() && (#[trigger] rest[j]).0 == k && comes_first(rest, j) && rest[j].1
                == after[k];
        assert(pairs[j] == rest[j]);
        lemma_equal_keys(key, k, k);
    }
}

/// The keys come from the same pairs if there is one pair more.
proof fn lemma_come_from_more<K: Eq, V>(map: Map<K, V>, pairs: Seq<(K, V)>, after: Map<K, V>)
    requires
        pairs.len() > 0,
        come_from(map, pairs.drop_last(), after),
    ensures
        come_from(map, pairs, after),
{
    let rest = pairs.drop_last();
    assert forall|k: K| #[trigger] after.contains_key(k) implies map.contains_key(k) || exists|
        i: int,
    |
        0 <= i < pairs.len() && (#[trigger] pairs[i]).0 == k && comes_first(pairs, i)
            && pairs[i].1 == after[k] by {
        if !map.contains_key(k) {
            let i = choose|i: int|
                0 <= i < rest.len() && (#[trigger] rest[i]).0 == k && comes_first(rest, i)
                    && rest[i].1 == after[k];
            lemma_comes_first(pairs, i);
            assert(pairs[i].0 == k && comes_first(pairs, i));
        }
    }
}

/// A pair whose key is there already changes nothing.
#[verifier::rlimit(40)]
proof fn lemma_key_is_there<K: Eq, V>(map: Map<K, V>, pairs: Seq<(K, V)>, after: Map<K, V>)
    requires
        is_equivalence::<K>(),
        pairs.len() > 0,
        has_the_first_of_each_key(map, pairs.drop_last(), after),
        contents::has_key(after, pairs.last().0),
    ensures
        has_the_first_of_each_key(map, pairs, after),
{
    let rest = pairs.drop_last();
    let last = pairs.len() - 1;
    assert(come_from(map, rest, after));
    lemma_come_from_more(map, pairs, after);
    assert forall|i: int|
        0 <= i < pairs.len() && comes_first(pairs, i) && !contents::has_key(
            map,
            (#[trigger] pairs[i]).0,
        ) implies after.contains_key(pairs[i].0) && after[pairs[i].0] == pairs[i].1 by {
        if i < last {
            lemma_comes_first(pairs, i);
            assert(rest[i] == pairs[i]);
        } else {
            lemma_known_key(map, pairs, after);
        }
    }
    assert forall|i: int| 0 <= i < pairs.len() implies contents::has_key(
        after,
        (#[trigger] pairs[i]).0,
    ) by {
        if i < last {
            assert(rest[i] == pairs[i]);
        }
    }
}

/// The key of the last pair is that of no other if it is missing.
#[verifier::rlimit(40)]
proof fn lemma_new_key<K: Eq, V>(pairs: Seq<(K, V)>, before: Map<K, V>)
    requires
        is_equivalence::<K>(),
        pairs.len() > 0,
        forall|i: int|
            0 <= i < pairs.len() - 1 ==> contents::has_key(
                before,
                (#[trigger] pairs.drop_last()[i]).0,
            ),
        !contents::has_key(before, pairs.last().0),
    ensures
        comes_first(pairs, pairs.len() - 1),
        !before.contains_key(pairs.last().0),
{
    let rest = pairs.drop_last();
    let last = pairs.len() - 1;
    let key = pairs[last].0;
    lemma_equal_keys(key, key, key);
    assert forall|j: int| 0 <= j < last implies !contents::same_key(
        (#[trigger] pairs[j]).0,
        key,
    ) by {
        assert(pairs[j] == rest[j]);
        if contents::same_key(rest[j].0, key) {
            let k = choose|k: K| #[trigger]
                before.contains_key(k) && contents::same_key(rest[j].0, k);
            lemma_equal_keys(rest[j].0, key, key);
            lemma_equal_keys(key, rest[j].0, k);
            assert(contents::has_key(before, key));
        }
    }
}

/// Keys stay unique when a missing one is added.
proof fn lemma_still_unique<K: Eq, V>(before: Map<K, V>, key: K, value: V)
    requires
        is_equivalence::<K>(),
        has_unique_keys(before),
        !contents::has_key(before, key),
    ensures
        has_unique_keys(before.insert(key, value)),
{
    let after = before.insert(key, value);
    assert forall|a: K, b: K|
        #![trigger after.contains_key(a), after.contains_key(b)]
        after.contains_key(a) && after.contains_key(b) && contents::same_key(a, b) implies a
        == b by {
        if a == key && b != key {
            assert(before.contains_key(b) && contents::same_key(key, b));
        }
        if b == key && a != key {
            lemma_equal_keys(a, b, b);
            assert(before.contains_key(a) && contents::same_key(key, a));
        }
        if a != key && b != key {
            assert(before.contains_key(a) && before.contains_key(b));
        }
    }
}

/// A pair whose key is missing is added.
#[verifier::rlimit(40)]
proof fn lemma_key_is_missing<K: Eq, V>(map: Map<K, V>, pairs: Seq<(K, V)>, before: Map<K, V>)
    requires
        is_equivalence::<K>(),
        pairs.len() > 0,
        has_the_first_of_each_key(map, pairs.drop_last(), before),
        !contents::has_key(before, pairs.last().0),
    ensures
        has_the_first_of_each_key(
            map,
            pairs,
            before.insert(pairs.last().0, pairs.last().1),
        ),
{
    let rest = pairs.drop_last();
    let last = pairs.len() - 1;
    let (key, value) = pairs[last];
    let after = before.insert(key, value);
    lemma_new_key(pairs, before);
    lemma_still_unique(before, key, value);
    lemma_come_from_more(map, pairs, before);
    assert(come_from(map, pairs, before));
    assert forall|i: int|
        0 <= i < pairs.len() && comes_first(pairs, i) && !contents::has_key(
            map,
            (#[trigger] pairs[i]).0,
        ) implies after.contains_key(pairs[i].0) && after[pairs[i].0] == pairs[i].1 by {
        if i < last {
            lemma_comes_first(pairs, i);
            assert(rest[i] == pairs[i]);
            assert(before.contains_key(pairs[i].0));
        }
    }
    assert forall|i: int| 0 <= i < pairs.len() implies contents::has_key(
        after,
        (#[trigger] pairs[i]).0,
    ) by {
        if i < last {
            assert(rest[i] == pairs[i]);
            let k = choose|k: K| #[trigger]
                before.contains_key(k) && contents::same_key(pairs[i].0, k);
            assert(after.contains_key(k));
        } else {
            lemma_equal_keys(key, key, key);
            assert(after.contains_key(key) && contents::same_key(key, key));
        }
    }
    assert forall|k: K| #[trigger] after.contains_key(k) implies map.contains_key(k) || exists|
        i: int,
    |
        0 <= i < pairs.len() && (#[trigger] pairs[i]).0 == k && comes_first(pairs, i)
            && pairs[i].1 == after[k] by {
        if k == key {
            assert(pairs[last].0 == k);
        } else {
            assert(before.contains_key(k));
        }
    }
}

/// Inserting pairs one after the other into a map keeps what is in the map. Each pair whose key is not
/// in the map, nor that of a pair before it, is in the map afterwards, and nothing else is. So every pair
/// has its key there, with the value that the key had or else that of the first pair with the key.
pub proof fn inserting_pairs_takes_the_first_of_each_key<K: Eq, V>(
    map: Map<K, V>,
    pairs: Seq<(K, V)>,
)
    requires
        is_equivalence::<K>(),
        has_unique_keys(map),
    ensures
        has_the_first_of_each_key(map, pairs, super::insert_all(map, pairs)),
    decreases pairs.len(),
{
    if pairs.len() > 0 {
        inserting_pairs_takes_the_first_of_each_key(map, pairs.drop_last());
        let before = super::insert_all(map, pairs.drop_last());
        if contents::has_key(before, pairs.last().0) {
            lemma_key_is_there(map, pairs, before);
        } else {
            lemma_key_is_missing(map, pairs, before);
        }
    }
}

/// A table made from pairs has, for each of them, a key that equals its key, with the value of the first
/// of the pairs that have this key, and has no other keys.
pub proof fn a_table_of_pairs_has_the_first_of_each_key<K: Eq, V>(pairs: Seq<(K, V)>)
    requires
        is_equivalence::<K>(),
    ensures
        forall|i: int|
            0 <= i < pairs.len() && comes_first(pairs, i) ==> super::insert_all(
                Map::<K, V>::empty(),
                pairs,
            ).contains_key((#[trigger] pairs[i]).0) && super::insert_all(
                Map::<K, V>::empty(),
                pairs,
            )[pairs[i].0] == pairs[i].1,
        forall|i: int|
            0 <= i < pairs.len() ==> contents::has_key(
                super::insert_all(Map::<K, V>::empty(), pairs),
                (#[trigger] pairs[i]).0,
            ),
        forall|k: K| #[trigger]
            super::insert_all(Map::<K, V>::empty(), pairs).contains_key(k) ==> exists|i: int|
                0 <= i < pairs.len() && (#[trigger] pairs[i]).0 == k && comes_first(pairs, i),
{
    inserting_pairs_takes_the_first_of_each_key(Map::<K, V>::empty(), pairs);
    assert forall|i: int| 0 <= i < pairs.len() implies !contents::has_key(
        Map::<K, V>::empty(),
        (#[trigger] pairs[i]).0,
    ) by {}
}

/// After an insertion a key is found exactly if it was found before or equals the inserted one. There is
/// one more element if the key was missing, and it has the inserted value. Every element from before is
/// there, itself or as a clone.
#[verifier::rlimit(40)]
pub proof fn an_insertion_adds_the_key_and_nothing_else<
    K: Eq + Clone,
    V: Clone,
    S: HashBuilder<K>,
    C,
>(
    before: SyncTable<K, V, S>,
    reserved: SyncTable<K, V, S>,
    after: SyncTable<K, V, S>,
    collector: CollectorView<C>,
    collector_before: CollectorView<C>,
    key: K,
    value: V,
)
    requires
        before.wf(),
        after.wf(),
        contents::clones_keep_keys::<K>(),
        reserved.reserved(before, collector, collector_before),
        after.inserted(reserved, key, value, !contents::has_key(before@, key)),
    ensures
        forall|k: K| #[trigger]
            contents::has_key(after@, k) <==> contents::has_key(before@, k) || contents::same_key(
                k,
                key,
            ),
        contents::has_key(before@, key) ==> after@.len() == before@.len(),
        !contents::has_key(before@, key) ==> {
            &&& after@.len() == before@.len() + 1
            &&& after@.contains_key(key)
            &&& after@[key] == value
        },
        forall|k: K| #[trigger]
            before@.contains_key(k) ==> after@.contains_key(k) && after@[k] == before@[k] || exists|
                c: K,
            | #[trigger]
                after@.contains_key(c) && cloned::<K>(k, c) && cloned::<V>(before@[k], after@[c]),
        before.room() > 0 && contents::has_key(before@, key) ==> after@ == before@,
        after.builder() == before.builder(),
{
    let added = !contents::has_key(before@, key);
    before.lemma_wf();
    after.lemma_wf();
    assert forall|k: K| contents::has_key(reserved@, k) == #[trigger] contents::has_key(
        before@,
        k,
    ) by {
        if before.room() == 0 {
            contents::lemma_cloned_has_key::<K, V, S>(before.builder(), before@, reserved@, k);
        }
    }
    assert(contents::same_key(key, key));
    if added {
        assert(!reserved@.contains_key(key)) by {
            if reserved@.contains_key(key) {
                assert(contents::has_key(reserved@, key));
            }
        }
        assert(reserved@.dom() =~= after@.dom().remove(key));
    }
    assert forall|k: K| #[trigger] contents::has_key(after@, k) <==> contents::has_key(before@, k)
        || contents::same_key(k, key) by {
        if contents::has_key(after@, k) {
            let c = choose|c: K| #[trigger] after@.contains_key(c) && contents::same_key(k, c);
            if reserved@.contains_key(c) {
                assert(contents::has_key(reserved@, k));
            }
        }
        if contents::has_key(before@, k) {
            assert(contents::has_key(reserved@, k));
            let c = choose|c: K| #[trigger] reserved@.contains_key(c) && contents::same_key(k, c);
            assert(after@.contains_key(c));
        }
        if contents::same_key(k, key) && !added {
            let c = choose|c: K| #[trigger] before@.contains_key(c) && contents::same_key(key, c);
            assert(contents::same_key(k, c));
            assert(contents::has_key(before@, k));
        }
    }
    assert forall|k: K| #[trigger] before@.contains_key(k) implies after@.contains_key(k)
        && after@[k] == before@[k] || exists|c: K| #[trigger]
        after@.contains_key(c) && cloned::<K>(k, c) && cloned::<V>(before@[k], after@[c]) by {
        if before.room() == 0 {
            let c = contents::lemma_has_clone(k, before@[k], reserved@);
            assert(after@.contains_key(c));
        } else {
            assert(after@.contains_key(k));
        }
    }
}

/// A table whose contents have been replaced has each of the pairs, and nothing else.
pub proof fn a_replacement_has_the_pairs_and_nothing_else<K: Eq, V, S: HashBuilder<K>>(
    after: SyncTable<K, V, S>,
    pairs: Seq<(K, V)>,
)
    requires
        after.wf(),
        contents::distinct(contents::entries_of(pairs)),
        after@ == contents::contents(contents::entries_of(pairs)),
    ensures
        forall|i: int|
            0 <= i < pairs.len() ==> after@.contains_key((#[trigger] pairs[i]).0)
                && after@[pairs[i].0] == pairs[i].1,
        forall|key: K| #[trigger]
            after@.contains_key(key) ==> exists|i: int|
                0 <= i < pairs.len() && #[trigger] pairs[i] == (key, after@[key]),
        after@.len() == pairs.len(),
{
    after.lemma_wf();
    assert forall|a: K| #[trigger] a.eq_spec(&a) by {
        assert(contents::same_key(a, a));
    }
    contents::pairs_that_make_up_a_map_are_its_elements(pairs, after@);
}

/// A clone of a table has the same keys, as many elements, a clone of each element and nothing but such
/// clones. It has storage of its own, and nothing that is retired.
pub proof fn a_clone_has_a_clone_of_each_element<K: Eq + Clone, V: Clone, S: HashBuilder<K> + Clone>(
    table: SyncTable<K, V, S>,
    clone: SyncTable<K, V, S>,
)
    requires
        table.wf(),
        contents::clones_keep_keys::<K>(),
        clone.is_clone_of(table),
    ensures
        clone@.len() == table@.len(),
        forall|key: K| #[trigger]
            contents::has_key(clone@, key) <==> contents::has_key(table@, key),
        forall|k: K| #[trigger]
            table@.contains_key(k) ==> exists|c: K| #[trigger]
                clone@.contains_key(c) && cloned::<K>(k, c) && cloned::<V>(table@[k], clone@[c]),
        forall|c: K| #[trigger]
            clone@.contains_key(c) ==> exists|k: K| #[trigger]
                table@.contains_key(k) && cloned::<K>(k, c) && cloned::<V>(table@[k], clone@[c]),
        clone.retired().len() == 0,
        cloned::<S>(table.builder(), clone.builder()),
        clone.table().n() == table.table().n(),
{
    table.lemma_wf();
    contents::a_map_of_clones_has_a_clone_of_each_element(table@, clone@);
    assert forall|key: K| #[trigger] contents::has_key(clone@, key) <==> contents::has_key(
        table@,
        key,
    ) by {
        contents::lemma_cloned_has_key::<K, V, S>(table.builder(), table@, clone@, key);
    }
}

/// If clones are the same as what they are clones of, a clone of a table has the same contents.
pub proof fn a_clone_with_exact_clones_has_the_same_contents<
    K: Eq + Clone,
    V: Clone,
    S: HashBuilder<K> + Clone,
>(table: SyncTable<K, V, S>, clone: SyncTable<K, V, S>)
    requires
        clone.is_clone_of(table),
        forall|a: K, b: K| #[trigger] cloned::<K>(a, b) ==> a == b,
        forall|a: V, b: V| #[trigger] cloned::<V>(a, b) ==> a == b,
    ensures
        clone@ == table@,
{
    contents::exact_clones_make_the_same_map(table@, clone@);
}

/// Storage that is replaced is retired under a new id, behind all that has been retired before, and
/// the collector is told of it. A table that has never been allocated has nothing to retire.
pub proof fn replaced_storage_is_retired<K, V, S, C>(
    before: SyncTable<K, V, S>,
    after: SyncTable<K, V, S>,
    collector: CollectorView<C>,
    collector_before: CollectorView<C>,
)
    requires
        after.replaces(before, collector, collector_before),
        collector_before.next_id < u64::MAX,
    ensures
        after.builder() == before.builder(),
        after.generation() == before.generation() + 1,
        before.table().n() == 1 ==> after.retired() == before.retired() && collector
            == collector_before,
        before.table().n() != 1 ==> {
            let id = collector_before.next_id;
            &&& after.retired().len() == before.retired().len() + 1
            &&& after.retired().last() == (id, before.table())
            &&& after.retired().drop_last() == before.retired()
            &&& collector.current.ids == collector_before.current.ids.push(id)
            &&& collector.pending == collector_before.pending
            &&& collector.previous == collector_before.previous
            &&& collector.current.deferred == collector_before.current.deferred
            &&& collector.threads == collector_before.threads
            &&& collector.ready == collector_before.ready
            &&& collector.next_id == id + 1
            &&& collector.events != collector_before.events
        },
{
    assert(after.retired().drop_last() =~= before.retired() || before.table().n() == 1);
}

/// A table with at least as many buckets as a group holds as many elements as seven eighths of its
/// buckets, and a smaller one all but one of its buckets: an empty bucket ends every search.
pub proof fn the_load_factor_is_seven_eighths(n: int)
    requires
        n >= 1,
        vstd::arithmetic::power2::is_pow2(n),
    ensures
        n <= 8 ==> capacity::capacity_of(n) == n - 1,
        n > 8 ==> 8 * capacity::capacity_of(n) == 7 * n,
        0 <= capacity::capacity_of(n) < n,
{
    if n > 8 {
        if n < 16 {
            crate::raw::ctrl::lemma_small_pow2(n);
        }
        crate::raw::ctrl::lemma_groups_fill(n);
    }
}

/// A table gets the least power of two of at least 16 buckets that leaves room for the elements.
pub proof fn a_table_gets_no_more_buckets_than_it_needs(cap: int, n: int, other: int)
    requires
        capacity::buckets_for(cap, n),
        vstd::arithmetic::power2::is_pow2(other),
        other >= 16,
        8 * cap <= 7 * other,
    ensures
        16 <= n <= other,
        vstd::arithmetic::power2::is_pow2(n),
        8 * cap <= 7 * n,
{
    the_load_factor_is_seven_eighths(n);
    the_load_factor_is_seven_eighths(other);
    if other < n {
        capacity::lemma_pow2_gap(other, n);
        assert(n / 2 >= other);
        assert(capacity::capacity_of(n / 2) >= capacity::capacity_of(other));
    }
}

/// What a table that makes room for more gets room for: always enough. If it was more than half full, not
/// counting removed elements, one more element gives it twice the buckets, or 16 if it had not been
/// allocated. If it was not, it gets room for twice as many elements as it then has, and no more than
/// that takes.
pub proof fn making_room_doubles_a_filled_table_and_shrinks_a_half_empty_one(
    len: int,
    n: int,
    additional: int,
    new_n: int,
)
    requires
        len >= 0,
        additional > 0,
        n == 1 || n >= 16,
        vstd::arithmetic::power2::is_pow2(n),
        len <= capacity::capacity_of(n),
        capacity::buckets_for(super::expanded_capacity(len, n, additional), new_n),
    ensures
        len + additional <= capacity::capacity_of(new_n),
        2 * (len + additional) > capacity::capacity_of(n) && additional == 1 ==> new_n == if n == 1 {
            16
        } else {
            2 * n
        },
        2 * (len + additional) <= capacity::capacity_of(n) ==> {
            &&& 2 * (len + additional) <= capacity::capacity_of(new_n)
            &&& new_n <= n
            &&& new_n > 16 ==> capacity::capacity_of(new_n / 2) < 2 * (len + additional)
        },
{
    the_load_factor_is_seven_eighths(n);
    the_load_factor_is_seven_eighths(new_n);
    if 2 * (len + additional) <= capacity::capacity_of(n) {
        a_half_empty_table_does_not_grow(len, n, additional, new_n);
    } else if additional == 1 {
        a_filled_table_grows(len, n, additional, new_n);
        lemma_twice_the_buckets(n, new_n);
    }
}

proof fn lemma_twice_the_buckets(n: int, new_n: int)
    requires
        n == 1 || n >= 16,
        vstd::arithmetic::power2::is_pow2(n),
        capacity::buckets_for(capacity::capacity_of(n) + 1, new_n),
        n < new_n,
    ensures
        new_n == if n == 1 {
            16
        } else {
            2 * n
        },
{
    let least = if n == 1 {
        16
    } else {
        2 * n
    };
    assert(vstd::arithmetic::power2::is_pow2(least)) by {
        if n == 1 {
            reveal_with_fuel(vstd::arithmetic::power2::is_pow2, 6);
        } else {
            reveal_with_fuel(vstd::arithmetic::power2::is_pow2, 2);
        }
    }
    the_load_factor_is_seven_eighths(n);
    the_load_factor_is_seven_eighths(least);
    assert(capacity::buckets_for(capacity::capacity_of(n) + 1, least));
    capacity::lemma_buckets_for(capacity::capacity_of(n) + 1, least);
}

/// A table can be allocated for a number of elements exactly if the number of buckets does not overflow
/// and the memory for these buckets can be addressed.
pub proof fn a_table_can_be_allocated_if_its_memory_can_be_addressed<K, V>(cap: int, n: int)
    requires
        capacity::buckets_for(cap, n),
    ensures
        super::can_allocate::<K, V>(cap) <==> (cap < 8 || cap * 8 <= usize::MAX) && TableRef::<
            (K, V),
        >::fits(n, super::header()),
{
    capacity::lemma_buckets_for(cap, n);
}

/// An element can always be inserted if there is room for it. If there is not, it can be as long as ids
/// are left for the storage that is retired and memory for a larger table can be addressed.
pub proof fn an_element_can_be_inserted_as_long_as_memory_lasts<K, V, S, C>(
    table: SyncTable<K, V, S>,
    collector: CollectorView<C>,
)
    ensures
        table.room() > 0 ==> table.can_reserve_one(collector),
        table.generation() < u64::MAX && collector.next_id < u64::MAX && super::can_allocate::<K, V>(
            super::expanded_capacity(table.table().len() as int, table.table().n(), 1),
        ) ==> table.can_reserve_one(collector),
        table.generation() < u64::MAX && collector.next_id < u64::MAX ==> table.can_replace(
            collector,
        ),
{
}

} // verus!

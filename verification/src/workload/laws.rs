//! What the workloads do, told by the bytes that they are made from.

use super::steps::{OpView, Step, StepView};
use super::{drop, fuzz, steps, ByteValue};
use crate::collect::effects;
use crate::collect::model::CollectorView;
use crate::collect::{Data, State};
use vstd::prelude::*;

verus! {

/// The byte at a position, or 0 behind the end.
pub open spec fn byte_at(bytes: Seq<u8>, i: int) -> u8 {
    byte_or(bytes, i, 0)
}

/// The byte at a position, or `default` behind the end.
pub open spec fn byte_or(bytes: Seq<u8>, i: int, default: u8) -> u8 {
    if i < bytes.len() {
        bytes[i]
    } else {
        default
    }
}

/// The bytes from a position on, or none behind the end.
pub open spec fn from(bytes: Seq<u8>, i: int) -> Seq<u8> {
    if i < bytes.len() {
        bytes.skip(i)
    } else {
        Seq::empty()
    }
}

proof fn lemma_from(bytes: Seq<u8>, i: int)
    requires
        0 <= i,
    ensures
        super::after_first(from(bytes, i)) == from(bytes, i + 1),
        forall|default: u8| #[trigger]
            super::first_or(from(bytes, i), default) == byte_or(bytes, i, default),
        super::first_is_odd(from(bytes, i)) == (byte_at(bytes, i) % 2 == 1),
        fuzz::first_mod(from(bytes, i), 16) == byte_at(bytes, i) as int % 16,
        fuzz::first_mod(from(bytes, i), 24) == byte_at(bytes, i) as int % 24,
        from(bytes, 0) == bytes,
{
    assert(super::after_first(from(bytes, i)) =~= from(bytes, i + 1));
    assert(from(bytes, 0) =~= bytes);
}

/// Whether the pair `j` of those that start at a position has the key.
pub open spec fn pair_has_key(bytes: Seq<u8>, start: int, j: int, key: int) -> bool {
    byte_at(bytes, start + 2 * j) == key
}

/// Whether `after` gives each key the value of the last pair that has it, of `len` pairs that start at a
/// position, and the other keys what `before` gives them.
pub open spec fn has_pairs(
    bytes: Seq<u8>,
    start: int,
    len: int,
    before: Seq<Option<u8>>,
    after: Seq<Option<u8>>,
) -> bool {
    &&& after.len() == 256
    &&& forall|key: int, j: int|
        0 <= key < 256 && 0 <= j < len && #[trigger] pair_has_key(bytes, start, j, key) && (
        forall|later: int| j < later < len ==> !#[trigger] pair_has_key(bytes, start, later, key))
            ==> after[key] == Some(byte_at(bytes, start + 2 * j + 1))
    &&& forall|key: int|
        0 <= key < 256 && (forall|j: int|
            0 <= j < len ==> !#[trigger] pair_has_key(bytes, start, j, key))
            ==> #[trigger] after[key] == before[key]
}

/// Pairs of bytes give each key the last of its values, and take two bytes each.
pub proof fn pairs_give_each_key_its_last_value(
    bytes: Seq<u8>,
    start: int,
    len: nat,
    model: Seq<Option<u8>>,
)
    requires
        0 <= start,
        model.len() == 256,
    ensures
        has_pairs(
            bytes,
            start,
            len as int,
            model,
            fuzz::pairs_model(from(bytes, start), len, model),
        ),
        fuzz::after_pairs(from(bytes, start), len) == from(bytes, start + 2 * len),
    decreases len,
{
    if len > 0 {
        lemma_from(bytes, start);
        lemma_from(bytes, start + 1);
        let first = byte_at(bytes, start);
        let value = byte_at(bytes, start + 1);
        let next = model.update(first as int, Some(value));
        let fewer = (len - 1) as nat;
        pairs_give_each_key_its_last_value(bytes, start + 2, fewer, next);
        let after = fuzz::pairs_model(from(bytes, start), len, model);
        assert(after == fuzz::pairs_model(from(bytes, start + 2), fewer, next));
        assert forall|key: int, j: int| #[trigger]
            pair_has_key(bytes, start, j, key) == pair_has_key(bytes, start + 2, j - 1, key) by {}
        assert forall|key: int, j: int|
            0 <= key < 256 && 0 <= j < len && #[trigger] pair_has_key(bytes, start, j, key) && (
            forall|later: int|
                j < later < len ==> !#[trigger] pair_has_key(
                    bytes,
                    start,
                    later,
                    key,
                )) implies after[key] == Some(byte_at(bytes, start + 2 * j + 1)) by {
            assert forall|later: int| j - 1 < later < fewer implies !#[trigger] pair_has_key(
                bytes,
                start + 2,
                later,
                key,
            ) by {
                assert(!pair_has_key(bytes, start, later + 1, key));
            }
            if j > 0 {
                assert(pair_has_key(bytes, start + 2, j - 1, key));
                assert(start + 2 + 2 * (j - 1) + 1 == start + 2 * j + 1);
            } else {
                assert(after[key] == next[key]);
            }
        }
        assert forall|key: int|
            0 <= key < 256 && (forall|j: int|
                0 <= j < len ==> !#[trigger] pair_has_key(
                    bytes,
                    start,
                    j,
                    key,
                )) implies #[trigger] after[key] == model[key] by {
            assert(!pair_has_key(bytes, start, 0, key));
            assert forall|j: int| 0 <= j < fewer implies !#[trigger] pair_has_key(
                bytes,
                start + 2,
                j,
                key,
            ) by {
                assert(!pair_has_key(bytes, start, j + 1, key));
            }
            assert(after[key] == next[key]);
        }
    }
}

/// Whether `after` gives the key this value, and the others what `before` gives them.
pub open spec fn gives(
    before: Seq<Option<u8>>,
    after: Seq<Option<u8>>,
    key: u8,
    value: Option<u8>,
) -> bool {
    &&& after.len() == before.len()
    &&& after[key as int] == value
    &&& forall|other: int|
        0 <= other < before.len() && other != key ==> #[trigger] after[other] == before[other]
}

/// The value of a key after it has been inserted with `value`: its own if it has one.
pub open spec fn kept_or(before: Option<u8>, value: u8) -> Option<u8> {
    if before is Some {
        before
    } else {
        Some(value)
    }
}

/// The first byte chooses the operation, the next two are its key and its value. An insertion, in
/// whichever way, gives a missing key the value; a removal takes the key out; a replacement leaves
/// nothing but its pairs, the last of those with the same key; a change gives a key that is there the
/// value; everything else changes nothing.
pub proof fn an_operation_changes_its_key_only(bytes: Seq<u8>, model: Seq<Option<u8>>)
    requires
        model.len() == 256,
        bytes.len() > 0,
    ensures
        ({
            let op = bytes[0] % 9;
            let key = byte_at(bytes, 1);
            let value = byte_at(bytes, 2);
            let before = model[key as int];
            let (rest, after) = fuzz::turn(bytes, model);
            let len = byte_at(bytes, 3) as int % 16;
            &&& op == 0 || op == 1 || op == 5 ==> gives(model, after, key, kept_or(before, value))
            &&& op == 2 ==> gives(model, after, key, None)
            &&& op == 3 ==> has_pairs(bytes, 5, len, Seq::new(256, |i: int| None), after)
            &&& op == 6 ==> gives(
                model,
                after,
                key,
                if before is Some {
                    Some(value)
                } else {
                    None
                },
            )
            &&& op == 4 || op == 7 || op == 8 ==> after == model
            &&& rest == from(
                bytes,
                if op == 3 {
                    5 + 2 * len
                } else if op == 7 || op == 8 {
                    3
                } else {
                    4
                },
            )
        }),
{
    lemma_from(bytes, 0);
    lemma_from(bytes, 1);
    lemma_from(bytes, 2);
    lemma_from(bytes, 3);
    lemma_from(bytes, 4);
    pairs_give_each_key_its_last_value(
        bytes,
        5,
        (byte_at(bytes, 3) as int % 16) as nat,
        fuzz::no_model(),
    );
}

/// The same of the workload for values that own something, which has fewer operations and takes no
/// hashes.
pub proof fn an_operation_on_values_changes_its_key_only(bytes: Seq<u8>, model: Seq<Option<u8>>)
    requires
        model.len() == 256,
        bytes.len() > 0,
    ensures
        ({
            let op = bytes[0] % 6;
            let key = byte_at(bytes, 1);
            let value = byte_at(bytes, 2);
            let before = model[key as int];
            let (rest, after) = drop::turn(bytes, model);
            let len = byte_at(bytes, 3) as int % 16;
            &&& op == 0 || op == 1 ==> gives(model, after, key, kept_or(before, value))
            &&& op == 2 ==> gives(model, after, key, None)
            &&& op == 3 ==> has_pairs(bytes, 5, len, Seq::new(256, |i: int| None), after)
            &&& op == 4 || op == 5 ==> after == model
            &&& rest == from(
                bytes,
                if op == 3 {
                    5 + 2 * len
                } else {
                    3
                },
            )
        }),
{
    lemma_from(bytes, 0);
    lemma_from(bytes, 1);
    lemma_from(bytes, 2);
    lemma_from(bytes, 3);
    lemma_from(bytes, 4);
    pairs_give_each_key_its_last_value(
        bytes,
        5,
        (byte_at(bytes, 3) as int % 16) as nat,
        fuzz::no_model(),
    );
}

/// One operation follows the other, as long as there are bytes and operations left.
pub proof fn a_play_takes_one_operation_after_the_other(
    bytes: Seq<u8>,
    model: Seq<Option<u8>>,
    steps: nat,
)
    ensures
        steps == 0 || bytes.len() == 0 ==> fuzz::played(bytes, model, steps) == model
            && drop::played(bytes, model, steps) == model,
        steps > 0 && bytes.len() > 0 ==> {
            let (rest, after) = fuzz::turn(bytes, model);
            fuzz::played(bytes, model, steps) == fuzz::played(rest, after, (steps - 1) as nat)
        },
        steps > 0 && bytes.len() > 0 ==> {
            let (rest, after) = drop::turn(bytes, model);
            drop::played(bytes, model, steps) == drop::played(rest, after, (steps - 1) as nat)
        },
{
}

/// The first four bytes of a step choose its operation, the two other keys to be looked at, how often
/// readers look and whether they hold a slot. The operation takes its key and value from the bytes that
/// follow, or else from the two other keys, and the step tells what the table contains before and after
/// it.
pub proof fn a_step_is_read_from_the_bytes(bytes: Seq<u8>, model: Seq<Option<u8>>)
    requires
        model.len() == 256,
        bytes.len() > 0,
    ensures
        ({
            let (step, rest) = steps::step_of(bytes, model);
            let tag = bytes[0];
            let focus = byte_or(bytes, 1, tag);
            let probe = byte_or(
                bytes,
                2,
                if focus == 255 {
                    0
                } else {
                    (focus + 1) as u8
                },
            );
            let control = byte_at(bytes, 3);
            let key = byte_or(bytes, 4, focus);
            let value = byte_or(bytes, 5, probe);
            let len = byte_at(bytes, 4) as int % 24;
            &&& step.before == model
            &&& step.focus == focus
            &&& step.probe == probe
            &&& step.loops == control % 8 + 1
            &&& step.potential == ((control / 8) % 2 == 1)
            &&& tag % 5 == 0 || tag % 5 == 1 ==> {
                let use_hash = byte_at(bytes, 6) % 2 == 1;
                &&& step.op == if tag % 5 == 0 {
                    OpView::Insert { key, value, use_hash }
                } else {
                    OpView::InsertNew { key, value, use_hash }
                }
                &&& gives(model, step.after, key, kept_or(model[key as int], value))
                &&& rest == from(bytes, 7)
            }
            &&& tag % 5 == 2 ==> {
                &&& step.op == OpView::Remove { key, use_hash: byte_at(bytes, 5) % 2 == 1 }
                &&& gives(model, step.after, key, None)
                &&& rest == from(bytes, 6)
            }
            &&& tag % 5 == 3 ==> {
                &&& step.op matches OpView::Replace { items, capacity } && items == super::snapshot(
                    step.after,
                    0,
                ) && capacity == byte_at(bytes, 5)
                &&& has_pairs(bytes, 6, len, Seq::new(256, |i: int| None), step.after)
                &&& rest == from(bytes, 6 + 2 * len)
            }
            &&& tag % 5 == 4 ==> {
                &&& step.op == OpView::ReserveOne
                &&& step.after == model
                &&& rest == from(bytes, 4)
            }
        }),
{
    lemma_from(bytes, 0);
    lemma_from(bytes, 1);
    lemma_from(bytes, 2);
    lemma_from(bytes, 3);
    lemma_from(bytes, 4);
    lemma_from(bytes, 5);
    lemma_from(bytes, 6);
    pairs_give_each_key_its_last_value(
        bytes,
        6,
        (byte_at(bytes, 4) as int % 24) as nat,
        fuzz::no_model(),
    );
}

/// Steps are read one after the other, as long as there are bytes and steps left, and each starts with
/// what the one before it has left.
pub proof fn steps_follow_each_other(bytes: Seq<u8>, model: Seq<Option<u8>>, count: nat)
    ensures
        ({
            let all = steps::steps_of(bytes, model, count);
            &&& all.len() <= count
            &&& count == 0 || bytes.len() == 0 ==> all.len() == 0
            &&& count > 0 && bytes.len() > 0 ==> {
                let (step, rest) = steps::step_of(bytes, model);
                &&& all.len() > 0
                &&& all[0] == step
                &&& all.drop_first() == steps::steps_of(rest, step.after, (count - 1) as nat)
            }
            &&& all.len() > 0 ==> all[0].before == model
            &&& forall|i: int|
                0 <= i < all.len() - 1 ==> (#[trigger] all[i + 1]).before == all[i].after
        }),
    decreases count,
{
    if count > 0 && bytes.len() > 0 {
        let (step, rest) = steps::step_of(bytes, model);
        let later = steps::steps_of(rest, step.after, (count - 1) as nat);
        let all = steps::steps_of(bytes, model, count);
        steps_follow_each_other(rest, step.after, (count - 1) as nat);
        assert(all.drop_first() =~= later);
        assert forall|i: int| 0 <= i < all.len() - 1 implies (#[trigger] all[i + 1]).before
            == all[i].after by {
            assert(all[i + 1] == later[i]);
            if i > 0 {
                assert(all[i] == later[i - 1]);
                assert(later[i - 1 + 1].before == later[i - 1].after);
            }
        }
    }
}

/// What a run of steps leaves is what its last step leaves, or nothing if there are none.
pub proof fn a_run_ends_with_what_its_last_step_leaves(bytes: Seq<u8>)
    ensures
        ({
            let all = steps::steps_of(bytes, Seq::new(256, |i: int| None), 32);
            &&& all.len() > 0 ==> steps::played(bytes) == all[all.len() - 1].after
            &&& all.len() == 0 ==> steps::played(bytes).len() == 256 && forall|key: int|
                0 <= key < 256 ==> #[trigger] steps::played(bytes)[key] is None
        }),
{
}

/// The pairs of a model are those keys that have a value, with it, in the order of the keys.
pub proof fn a_snapshot_has_each_value_in_order(model: Seq<Option<u8>>, start: int)
    requires
        0 <= start <= 256,
        model.len() == 256,
    ensures
        ({
            let pairs = super::snapshot(model, start);
            &&& forall|i: int|
                0 <= i < pairs.len() ==> start <= (#[trigger] pairs[i]).0 && model[pairs[i].0 as int]
                    == Some(pairs[i].1)
            &&& forall|i: int, j: int|
                0 <= i < j < pairs.len() ==> (#[trigger] pairs[i]).0 < (#[trigger] pairs[j]).0
            &&& forall|key: int|
                start <= key < 256 && (#[trigger] model[key]) is Some ==> pairs.contains(
                    (key as u8, model[key]->0),
                )
        }),
    decreases 256 - start,
{
    if start < 256 {
        a_snapshot_has_each_value_in_order(model, start + 1);
        let pairs = super::snapshot(model, start);
        let later = super::snapshot(model, start + 1);
        if model[start] is Some {
            assert(pairs[0] == (start as u8, model[start]->0));
            assert forall|i: int| 0 < i < pairs.len() implies #[trigger] pairs[i] == later[i
                - 1] by {}
            assert forall|key: int|
                start <= key < 256 && (#[trigger] model[key]) is Some implies pairs.contains(
                (key as u8, model[key]->0),
            ) by {
                if key > start {
                    let i = later.index_of((key as u8, model[key]->0));
                    assert(pairs[i + 1] == later[i]);
                }
            }
        }
    }
}

/// What may be seen while a step is taken: no element has a value that it has neither before nor after
/// the step, and each of the three keys that are looked at is as it is before or after it, also where it
/// is missing.
pub proof fn only_what_is_there_before_or_after_a_step_may_be_seen<V: ByteValue>(
    step: StepView,
    map: Map<u8, V>,
)
    ensures
        ({
            let seen = |key: u8|
                if map.contains_key(key) {
                    Some(map[key].as_byte())
                } else {
                    None::<u8>
                };
            let fits = |key: u8|
                seen(key) == step.before[key as int] || seen(key) == step.after[key as int];
            let main = match step.op {
                OpView::Insert { key, .. } => key,
                OpView::InsertNew { key, .. } => key,
                OpView::Remove { key, .. } => key,
                _ => step.focus,
            };
            steps::may_be_seen(step, map) <==> {
                &&& forall|key: u8| #[trigger] map.contains_key(key) ==> fits(key)
                &&& fits(main) && fits(step.focus) && fits(step.probe)
            }
        }),
{
    assert forall|key: u8| #[trigger] super::value_of(map, key) == (if map.contains_key(key) {
        Some(map[key].as_byte())
    } else {
        None::<u8>
    }) by {}
}

/// A value is possible for a key exactly if the key has it before or after one of the steps.
pub proof fn a_possible_value_is_that_of_some_step(all: Seq<Step>, key: int, value: u8)
    ensures
        steps::is_possible(all, key, value) <==> exists|i: int|
            0 <= i < all.len() && ((#[trigger] all[i]).before@[key] == Some(value)
                || all[i].after@[key] == Some(value)),
{
}

/// A model describes the map of those keys that have a value.
pub proof fn a_model_describes_the_keys_that_have_a_value(model: Seq<Option<u8>>, key: u8)
    ensures
        super::model_map(model).contains_key(key) <==> model[key as int] is Some,
        model[key as int] matches Some(value) ==> super::model_map(model)[key] == value,
{
}

/// A thread that settles is not registered any more, and no other thread comes or goes. If it has not seen
/// the last event then, nothing stays ready, and nothing is held at all if no thread is left.
pub proof fn a_thread_that_settles_leaves_nothing_that_is_ready<C>(
    data: Data,
    collector: CollectorView<C>,
)
    requires
        collector.wf(),
        fuzz::idle(data, collector),
    ensures
        ({
            let after = fuzz::settled(data, collector);
            &&& !after.threads.contains_key(data@.thread_id)
            &&& after.threads.dom() == collector.threads.dom().remove(data@.thread_id)
            &&& after.events != data@.seen_events ==> !effects::some(after.pending)
            &&& after.events != data@.seen_events && after.threads.dom().is_empty() ==> {
                &&& !effects::some(after.previous)
                &&& !effects::some(after.current)
            }
        }),
{
    let thread = data@.thread_id;
    let left = if data@.state == State::Registered {
        collector.unregistered(thread)
    } else {
        collector
    };
    assert(left.threads.dom() =~= collector.threads.dom().remove(thread));
    if data@.state == State::Registered {
        collector.unregistration_keeps_wf(thread);
    }
    if left.events != data@.seen_events {
        effects::every_collection_takes_what_is_pending(left, None);
        effects::an_unregistered_thread_collects_what_nobody_holds_off(left);
        if left.threads.dom().is_empty() {
            assert forall|other: u64| !#[trigger] left.threads.contains_key(other) by {
                assert(!left.threads.dom().contains(other));
            }
        }
    }
}

} // verus!

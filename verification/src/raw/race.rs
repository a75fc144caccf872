//! What a reader sees of a table that is written to while the reader looks at it.
//!
//! A table goes through a run of states, each of which follows from the one before it by an insertion
//! or a removal. A load of a control byte gives the byte that its place has in any one of them, and
//! two loads, also of the same group, may give bytes of different states. An element is in its bucket
//! before its control byte says so, and stays there.

use crate::raw::ctrl;
use crate::raw::group::{self, EMPTY};
use crate::raw::probe;
use crate::raw::table::{self, TableRef};
use vstd::prelude::*;

verus! {

/// Whether state `t + 1` follows state `t`.
pub open spec fn next_follows<T>(states: Seq<TableRef<T>>, t: int) -> bool {
    states[t + 1].follows(states[t])
}

/// Whether these are the states of one table that is written to.
pub open spec fn is_run<T>(states: Seq<TableRef<T>>) -> bool {
    &&& states.len() > 0
    &&& forall|t: int| 0 <= t < states.len() ==> (#[trigger] states[t]).wf()
    &&& forall|t: int| 0 <= t < states.len() - 1 ==> #[trigger] next_follows(states, t)
}

/// Whether a load at `place` may give `byte`.
pub open spec fn may_load<T>(states: Seq<TableRef<T>>, place: int, byte: u8) -> bool {
    exists|t: int| 0 <= t < states.len() && (#[trigger] states[t]).ctrl@[place] == byte
}

/// The number of buckets, which stays the same.
pub open spec fn bucket_count<T>(states: Seq<TableRef<T>>) -> int {
    states[0].n()
}

/// The element that is in a bucket once it has been filled.
pub open spec fn element<T>(states: Seq<TableRef<T>>, index: int) -> T {
    states.last().item(index)
}

/// Whether the groups are what a search for `hash` may load, one after the other.
pub open spec fn loaded<T>(states: Seq<TableRef<T>>, hash: u64, groups: Seq<Seq<u8>>) -> bool {
    forall|step: int, offset: int|
        0 <= step < groups.len() && 0 <= offset < 16 ==> may_load(
            states,
            ctrl::group_pos(hash, bucket_count(states), step) + offset,
            #[trigger] groups[step][offset],
        )
}

/// Whether the group has an `EMPTY` byte, at which a search ends.
pub open spec fn has_empty(group: Seq<u8>) -> bool {
    exists|offset: int| 0 <= offset < 16 && #[trigger] group[offset] == EMPTY
}

/// The bucket that byte `offset` of group `step` of a search stands for.
pub open spec fn bucket_of<T>(
    states: Seq<TableRef<T>>,
    hash: u64,
    step: int,
    offset: int,
) -> int {
    let n = bucket_count(states);
    probe::bucket_at(ctrl::group_pos(hash, n, step), offset, n)
}

/// Whether byte `offset` of group `step` is the tag of `hash` and stands for an element that is
/// searched for.
pub open spec fn is_match<T>(
    states: Seq<TableRef<T>>,
    hash: u64,
    accepts: spec_fn(T) -> bool,
    groups: Seq<Seq<u8>>,
    step: int,
    offset: int,
) -> bool {
    &&& 0 <= offset < 16
    &&& groups[step][offset] == table::tag(hash)
    &&& accepts(element(states, bucket_of(states, hash, step, offset)))
}

/// Whether group `step` has no byte that stands for an element that is searched for.
pub open spec fn has_no_match<T>(
    states: Seq<TableRef<T>>,
    hash: u64,
    accepts: spec_fn(T) -> bool,
    groups: Seq<Seq<u8>>,
    step: int,
) -> bool {
    forall|offset: int| !#[trigger] is_match(states, hash, accepts, groups, step, offset)
}

/// Whether a search for an element with the hash `hash` that `accepts` accepts, which has loaded the
/// groups, ends with the answer: the bucket of an element, or none.
pub open spec fn answers<T>(
    states: Seq<TableRef<T>>,
    hash: u64,
    accepts: spec_fn(T) -> bool,
    groups: Seq<Seq<u8>>,
    answer: Option<int>,
) -> bool {
    let last = groups.len() - 1;
    &&& groups.len() > 0
    &&& forall|step: int|
        0 <= step < last ==> has_no_match(states, hash, accepts, groups, step) && !has_empty(
            #[trigger] groups[step],
        )
    &&& match answer {
        Some(index) => exists|offset: int|
            #[trigger] is_match(states, hash, accepts, groups, last, offset) && index == bucket_of(
                states,
                hash,
                last,
                offset,
            ),
        None => has_no_match(states, hash, accepts, groups, last) && has_empty(groups[last]),
    }
}

/// Whether no state holds two elements that `accepts` accepts, and all such elements have the hash
/// `hash`.
pub open spec fn unique<T>(
    states: Seq<TableRef<T>>,
    hash: u64,
    accepts: spec_fn(T) -> bool,
) -> bool {
    &&& forall|t: int, i: int|
        0 <= t < states.len() && #[trigger] states[t].holds(i) && accepts(states[t].item(i))
            ==> states[t].hashes@[i] == hash
    &&& forall|t: int, i: int, j: int|
        0 <= t < states.len() && #[trigger] states[t].holds(i) && accepts(states[t].item(i))
            && #[trigger] states[t].holds(j) && accepts(states[t].item(j)) ==> i == j
}

/// Whether the table holds an element that `accepts` accepts.
pub open spec fn present<T>(state: TableRef<T>, accepts: spec_fn(T) -> bool) -> bool {
    exists|i: int| #[trigger] state.holds(i) && accepts(state.item(i))
}

/// A bucket that is not empty keeps its element, and stays so.
proof fn lemma_step<T>(before: TableRef<T>, after: TableRef<T>, i: int)
    requires
        before.wf(),
        after.wf(),
        after.follows(before),
        0 <= i < before.n(),
    ensures
        after.n() == before.n(),
        before.ctrl@[i] != EMPTY ==> {
            &&& after.ctrl@[i] != EMPTY
            &&& after.buckets@[i] == before.buckets@[i]
            &&& after.hashes@[i] == before.hashes@[i]
        },
{
    let n = before.n();
    if exists|index: int, value: T, hash: u64| #[trigger]
        after.filled_from(before, index, value, hash) {
        let (index, value, hash) = choose|index: int, value: T, hash: u64| #[trigger]
            after.filled_from(before, index, value, hash);
        table::lemma_tag(hash);
        ctrl::lemma_set(before.ctrl@, n, index, table::tag(hash));
    } else if exists|index: int| #[trigger] after.freed_from(before, index) {
        let index = choose|index: int| #[trigger] after.freed_from(before, index);
        ctrl::lemma_set(before.ctrl@, n, index, group::DELETED);
    }
}

/// A bucket that is not empty in one state keeps its element in the later ones.
proof fn lemma_run<T>(states: Seq<TableRef<T>>, a: int, b: int, i: int)
    requires
        is_run(states),
        0 <= a <= b < states.len(),
        0 <= i < states[a].n(),
    ensures
        states[b].n() == states[a].n(),
        states[a].ctrl@[i] != EMPTY ==> {
            &&& states[b].ctrl@[i] != EMPTY
            &&& states[b].buckets@[i] == states[a].buckets@[i]
            &&& states[b].hashes@[i] == states[a].hashes@[i]
        },
    decreases b - a,
{
    if a < b {
        lemma_run(states, a, b - 1, i);
        assert(next_follows(states, b - 1));
        lemma_step(states[b - 1], states[b], i);
    }
}

/// All states have the same buckets, and what is in one of them stays.
proof fn lemma_state<T>(states: Seq<TableRef<T>>, t: int)
    requires
        is_run(states),
        0 <= t < states.len(),
    ensures
        states[t].n() == bucket_count(states),
        forall|i: int|
            #[trigger] states[t].holds(i) ==> element(states, i) == states[t].item(i),
{
    lemma_run(states, 0, t, 0);
    assert forall|i: int| #[trigger] states[t].holds(i) implies element(states, i)
        == states[t].item(i) by {
        lemma_run(states, t, states.len() - 1, i);
    }
}

/// If all states up to `t` hold an element that is searched for, it is the same in all of them.
proof fn lemma_stays<T>(
    states: Seq<TableRef<T>>,
    hash: u64,
    accepts: spec_fn(T) -> bool,
    t: int,
) -> (i: int)
    requires
        is_run(states),
        unique(states, hash, accepts),
        0 <= t < states.len(),
        forall|s: int| 0 <= s <= t ==> present(#[trigger] states[s], accepts),
    ensures
        forall|s: int|
            0 <= s <= t ==> (#[trigger] states[s]).holds(i) && accepts(states[s].item(i)),
    decreases t,
{
    assert(present(states[t], accepts));
    let j = choose|j: int| #[trigger] states[t].holds(j) && accepts(states[t].item(j));
    if t > 0 {
        let i = lemma_stays(states, hash, accepts, t - 1);
        let before = states[t - 1];
        let after = states[t];
        assert(next_follows(states, t - 1));
        assert(before.holds(i) && accepts(before.item(i)));
        lemma_step(before, after, i);
        lemma_step(before, after, j);
        if exists|index: int, value: T, hash: u64| #[trigger]
            after.filled_from(before, index, value, hash) {
            let (index, value, hash) = choose|index: int, value: T, hash: u64| #[trigger]
                after.filled_from(before, index, value, hash);
            table::lemma_tag(hash);
            ctrl::lemma_set(before.ctrl@, before.n(), index, table::tag(hash));
            assert(after.holds(i) && accepts(after.item(i)));
        } else if exists|index: int| #[trigger] after.freed_from(before, index) {
            let index = choose|index: int| #[trigger] after.freed_from(before, index);
            ctrl::lemma_set(before.ctrl@, before.n(), index, group::DELETED);
            assert(before.holds(j) && accepts(before.item(j)));
        }
        assert(i == j);
    }
    j
}

/// Only one group of a probe sequence holds the control byte of a bucket.
proof fn lemma_one_group(hash: u64, n: int, a: int, b: int, index: int, state: Seq<u8>)
    requires
        ctrl::well_formed(state, n),
        0 <= index < n,
        0 <= a < ctrl::steps(n),
        0 <= b < ctrl::steps(n),
        ctrl::in_group(hash, n, a, index),
        ctrl::in_group(hash, n, b, index),
    ensures
        a == b,
{
    if n >= 16 {
        ctrl::lemma_group_pos_bound(hash, n, a);
        ctrl::lemma_group_pos_bound(hash, n, b);
        ctrl::lemma_bucket_in_group(state, n, ctrl::group_pos(hash, n, a), index);
        ctrl::lemma_bucket_in_group(state, n, ctrl::group_pos(hash, n, b), index);
        let start = ctrl::start(hash, n);
        probe::probe_visits_each_bucket_once(start, n, index);
        assert(probe::covers(start, n, a, index));
        assert(probe::covers(start, n, b, index));
    }
}

/// A search that runs while the table is written to gives an answer that is right for one of the
/// states that the table went through: an element that is found was there in one of them, and if
/// none is found there was none in one of them. So it finds every element that is there all along.
pub proof fn a_search_during_writes_answers_as_one_of_the_states<T>(
    states: Seq<TableRef<T>>,
    hash: u64,
    accepts: spec_fn(T) -> bool,
    groups: Seq<Seq<u8>>,
    answer: Option<int>,
)
    requires
        is_run(states),
        unique(states, hash, accepts),
        loaded(states, hash, groups),
        answers(states, hash, accepts, groups, answer),
    ensures
        match answer {
            Some(index) => exists|t: int|
                0 <= t < states.len() && #[trigger] states[t].holds(index) && accepts(
                    states[t].item(index),
                ),
            None => exists|t: int|
                0 <= t < states.len() && !present(#[trigger] states[t], accepts),
        },
{
    let n = bucket_count(states);
    let last = groups.len() - 1;
    match answer {
        Some(index) => {
            let offset = choose|offset: int|
                #[trigger] is_match(states, hash, accepts, groups, last, offset) && index
                    == bucket_of(states, hash, last, offset);
            let pos = ctrl::group_pos(hash, n, last);
            assert(may_load(states, pos + offset, groups[last][offset]));
            let t = choose|t: int|
                0 <= t < states.len() && (#[trigger] states[t]).ctrl@[pos + offset]
                    == groups[last][offset];
            lemma_state(states, t);
            table::lemma_tag(hash);
            ctrl::lemma_group_pos_bound(hash, n, last);
            ctrl::lemma_group_byte(states[t].ctrl@, n, pos, offset);
            assert(states[t].holds(index));
        },
        None => {
            if forall|t: int| 0 <= t < states.len() ==> present(#[trigger] states[t], accepts) {
                let i = lemma_stays(states, hash, accepts, states.len() - 1);
                assert(states[0].holds(i) && accepts(states[0].item(i)));
                assert(states[0].placed(i));
                let step = choose|step: int|
                    ctrl::search_gets_to(states[0].ctrl@, n, hash, step)
                        && #[trigger] ctrl::in_group(hash, n, step, i);
                assert forall|t: int, before: int, offset: int|
                    0 <= t < states.len() && 0 <= before < step && 0 <= offset
                        < 16 implies #[trigger] states[t].ctrl@[#[trigger] ctrl::group_pos(
                    hash,
                    n,
                    before,
                ) + offset] != EMPTY by {
                    lemma_state(states, t);
                    assert(states[t].holds(i) && accepts(states[t].item(i)));
                    assert(states[t].placed(i));
                    let other = choose|other: int|
                        ctrl::search_gets_to(states[t].ctrl@, n, hash, other)
                            && #[trigger] ctrl::in_group(hash, n, other, i);
                    lemma_one_group(hash, n, step, other, i, states[t].ctrl@);
                    assert(!ctrl::group_has_empty(
                        states[t].ctrl@,
                        ctrl::group_pos(hash, n, before),
                    ));
                }
                if last < step {
                    let offset = choose|offset: int|
                        0 <= offset < 16 && #[trigger] groups[last][offset] == EMPTY;
                    let pos = ctrl::group_pos(hash, n, last);
                    assert(may_load(states, pos + offset, EMPTY));
                } else {
                    let pos = ctrl::group_pos(hash, n, step);
                    ctrl::lemma_group_pos_bound(hash, n, step);
                    ctrl::lemma_bucket_in_group(states[0].ctrl@, n, pos, i);
                    let offset = ctrl::offset_in_group(pos, n, i);
                    assert(may_load(states, pos + offset, groups[step][offset]));
                    let t = choose|t: int|
                        0 <= t < states.len() && (#[trigger] states[t]).ctrl@[pos + offset]
                            == groups[step][offset];
                    lemma_state(states, t);
                    assert(states[t].holds(i) && accepts(states[t].item(i)));
                    assert(states[t].placed(i));
                    ctrl::lemma_bucket_in_group(states[t].ctrl@, n, pos, i);
                    assert(is_match(states, hash, accepts, groups, step, offset));
                    assert(has_no_match(states, hash, accepts, groups, step)) by {
                        if step < last {
                            assert(!has_empty(groups[step]));
                        }
                    }
                }
                assert(false);
            }
        },
    }
}

/// A search that runs while the table is written to meets an `EMPTY` byte before it has gone through
/// all groups.
pub proof fn a_search_during_writes_ends<T>(
    states: Seq<TableRef<T>>,
    hash: u64,
    groups: Seq<Seq<u8>>,
)
    requires
        is_run(states),
        loaded(states, hash, groups),
        groups.len() == ctrl::steps(bucket_count(states)),
    ensures
        exists|step: int| 0 <= step < groups.len() && has_empty(#[trigger] groups[step]),
{
    let n = bucket_count(states);
    let end = states.last();
    lemma_state(states, states.len() - 1);
    let empty = ctrl::lemma_some_empty(end.ctrl@, n);
    let step = ctrl::lemma_some_group_holds(hash, n, empty);
    let pos = ctrl::group_pos(hash, n, step);
    ctrl::lemma_group_pos_bound(hash, n, step);
    ctrl::lemma_bucket_in_group(end.ctrl@, n, pos, empty);
    let offset = ctrl::offset_in_group(pos, n, empty);
    assert(may_load(states, pos + offset, groups[step][offset]));
    let t = choose|t: int|
        0 <= t < states.len() && (#[trigger] states[t]).ctrl@[pos + offset]
            == groups[step][offset];
    lemma_state(states, t);
    lemma_run(states, t, states.len() - 1, empty);
    ctrl::lemma_bucket_in_group(states[t].ctrl@, n, pos, empty);
    assert(has_empty(groups[step]));
}

/// An iteration that runs while the table is written to, and has loaded the control bytes of all
/// buckets, comes by every element that is there all along, and by none that never was.
pub proof fn an_iteration_during_writes_comes_by_what_stays<T>(
    states: Seq<TableRef<T>>,
    bytes: Seq<u8>,
    index: int,
)
    requires
        is_run(states),
        forall|i: int|
            0 <= i < bucket_count(states) ==> may_load(states, i, #[trigger] bytes[i]),
        0 <= index < bucket_count(states),
    ensures
        group::full_byte(bytes[index]) ==> exists|t: int|
            0 <= t < states.len() && #[trigger] states[t].holds(index) && states[t].item(index)
                == element(states, index),
        (forall|t: int| 0 <= t < states.len() ==> #[trigger] states[t].holds(index))
            ==> group::full_byte(bytes[index]),
{
    assert(may_load(states, index, bytes[index]));
    let t = choose|t: int|
        0 <= t < states.len() && (#[trigger] states[t]).ctrl@[index] == bytes[index];
    lemma_state(states, t);
    if group::full_byte(bytes[index]) {
        assert(states[t].holds(index));
    }
    if forall|t: int| 0 <= t < states.len() ==> #[trigger] states[t].holds(index) {
        assert(states[t].holds(index));
    }
}

} // verus!

//! What holds of the contents of a map that values are set in.

use super::SyncInsertMap;
use crate::contents;
use crate::sync_table::laws;
use crate::util::HashBuilder;
use vstd::prelude::*;

verus! {

/// Whether no pair after the pair `i` has a key that equals that of the pair.
pub open spec fn comes_last<K: Eq, V>(pairs: Seq<(K, V)>, i: int) -> bool {
    forall|j: int|
        i < j < pairs.len() ==> !contents::same_key(pairs[i].0, (#[trigger] pairs[j]).0)
}

proof fn lemma_equal_keys<K: Eq>(a: K, b: K, c: K)
    requires
        laws::is_equivalence::<K>(),
    ensures
        contents::same_key(a, a),
        contents::same_key(a, b) ==> contents::same_key(b, a),
        contents::same_key(a, b) && contents::same_key(b, c) ==> contents::same_key(a, c),
{
    reveal(laws::is_equivalence);
}

/// Setting a value makes it the value of every key that equals the given one, of which there is one. A
/// key that was there stays as it is, and all other keys keep their values.
pub proof fn a_value_that_is_set_is_found<K: Eq, V>(map: Map<K, V>, key: K, value: V)
    requires
        laws::is_equivalence::<K>(),
        laws::has_unique_keys(map),
    ensures
        laws::has_unique_keys(super::set_value(map, key, value)),
        contents::has_key(super::set_value(map, key, value), key),
        forall|k: K| #[trigger]
            super::set_value(map, key, value).contains_key(k) && contents::same_key(key, k) ==> super::set_value(
                map,
                key,
                value,
            )[k] == value,
        forall|k: K|
            !contents::same_key(key, k) ==> {
                &&& #[trigger] super::set_value(map, key, value).contains_key(k) == map.contains_key(k)
                &&& map.contains_key(k) ==> super::set_value(map, key, value)[k] == map[k]
            },
        forall|k: K| #[trigger]
            map.contains_key(k) ==> super::set_value(map, key, value).contains_key(k),
        contents::has_key(map, key) ==> super::set_value(map, key, value).dom() == map.dom(),
        !contents::has_key(map, key) ==> super::set_value(map, key, value).dom() == map.dom().insert(key)
            && !map.contains_key(key),
{
    let after = super::set_value(map, key, value);
    lemma_equal_keys(key, key, key);
    if contents::has_key(map, key) {
        let found = super::the_key(map, key);
        assert(map.contains_key(found) && contents::same_key(key, found));
        assert(after.dom() =~= map.dom());
        assert forall|k: K| #[trigger] after.contains_key(k) && contents::same_key(
            key,
            k,
        ) implies after[k] == value by {
            lemma_equal_keys(key, found, found);
            lemma_equal_keys(found, key, k);
            assert(map.contains_key(k));
            assert(found == k);
        }
        assert forall|a: K, b: K|
            #![trigger after.contains_key(a), after.contains_key(b)]
            after.contains_key(a) && after.contains_key(b) && contents::same_key(a, b) implies a
            == b by {
            assert(map.contains_key(a) && map.contains_key(b));
        }
    } else {
        assert(!map.contains_key(key));
        assert(after.dom() =~= map.dom().insert(key));
        assert forall|k: K| #[trigger] after.contains_key(k) && contents::same_key(
            key,
            k,
        ) implies after[k] == value by {
            if map.contains_key(k) {
                assert(contents::has_key(map, key));
            }
        }
        assert forall|a: K, b: K|
            #![trigger after.contains_key(a), after.contains_key(b)]
            after.contains_key(a) && after.contains_key(b) && contents::same_key(a, b) implies a
            == b by {
            if a == key && b != key {
                assert(map.contains_key(b) && contents::same_key(key, b));
            }
            if b == key && a != key {
                lemma_equal_keys(a, b, b);
                assert(map.contains_key(a) && contents::same_key(key, a));
            }
            if a != key && b != key {
                assert(map.contains_key(a) && map.contains_key(b));
            }
        }
        assert(after.contains_key(key) && contents::same_key(key, key));
    }
}

/// Whether `after` has the keys of the map and of the pairs, and nothing else, each key that a pair has
/// with the value of the last pair that has it, and the others with the value from before.
pub open spec fn has_the_last_of_each_key<K: Eq, V>(
    map: Map<K, V>,
    pairs: Seq<(K, V)>,
    after: Map<K, V>,
) -> bool {
    &&& laws::has_unique_keys(after)
    &&& forall|k: K| #[trigger] map.contains_key(k) ==> after.contains_key(k)
    &&& forall|k: K| #[trigger]
        map.contains_key(k) && (forall|i: int|
            0 <= i < pairs.len() ==> !contents::same_key((#[trigger] pairs[i]).0, k)) ==> after[k]
            == map[k]
    &&& forall|i: int|
        0 <= i < pairs.len() ==> contents::has_key(after, (#[trigger] pairs[i]).0)
    &&& forall|i: int, k: K|
        0 <= i < pairs.len() && comes_last(pairs, i) && #[trigger] after.contains_key(k)
            && contents::same_key((#[trigger] pairs[i]).0, k) ==> after[k] == pairs[i].1
    &&& forall|k: K| #[trigger]
        after.contains_key(k) ==> map.contains_key(k) || exists|i: int|
            0 <= i < pairs.len() && (#[trigger] pairs[i]).0 == k
}

/// Whether `after` is `before` after the value of the key has been set.
spec fn is_set<K: Eq, V>(before: Map<K, V>, after: Map<K, V>, key: K, value: V) -> bool {
    &&& laws::has_unique_keys(after)
    &&& contents::has_key(after, key)
    &&& forall|k: K| #[trigger]
        after.contains_key(k) && contents::same_key(key, k) ==> after[k] == value
    &&& forall|k: K| #[trigger]
        after.contains_key(k) && !contents::same_key(key, k) ==> before.contains_key(k) && after[k]
            == before[k]
    &&& forall|k: K| #[trigger] before.contains_key(k) ==> after.contains_key(k)
    &&& forall|k: K| #[trigger] after.contains_key(k) ==> before.contains_key(k) || k == key
}

proof fn lemma_is_set<K: Eq, V>(before: Map<K, V>, key: K, value: V)
    requires
        laws::is_equivalence::<K>(),
        laws::has_unique_keys(before),
    ensures
        is_set(before, super::set_value(before, key, value), key, value),
{
    let after = super::set_value(before, key, value);
    a_value_that_is_set_is_found(before, key, value);
    assert forall|k: K| #[trigger] after.contains_key(k) implies before.contains_key(k) || k
        == key by {
        if contents::has_key(before, key) {
            assert(before.dom().contains(k));
        } else {
            assert(before.dom().insert(key).contains(k));
        }
    }
}

proof fn lemma_others_keep_their_values<K: Eq, V>(
    map: Map<K, V>,
    pairs: Seq<(K, V)>,
    before: Map<K, V>,
    after: Map<K, V>,
    k: K,
)
    requires
        pairs.len() > 0,
        has_the_last_of_each_key(map, pairs.drop_last(), before),
        is_set(before, after, pairs.last().0, pairs.last().1),
        map.contains_key(k),
        forall|i: int| 0 <= i < pairs.len() ==> !contents::same_key((#[trigger] pairs[i]).0, k),
    ensures
        after[k] == map[k],
{
    let rest = pairs.drop_last();
    assert(!contents::same_key(pairs[pairs.len() - 1].0, k));
    assert forall|i: int| 0 <= i < rest.len() implies !contents::same_key(
        (#[trigger] rest[i]).0,
        k,
    ) by {
        assert(rest[i] == pairs[i]);
    }
    assert(before.contains_key(k) && after.contains_key(k));
}

#[verifier::rlimit(40)]
proof fn lemma_last_value<K: Eq, V>(
    pairs: Seq<(K, V)>,
    before: Map<K, V>,
    after: Map<K, V>,
    i: int,
    k: K,
)
    requires
        laws::is_equivalence::<K>(),
        pairs.len() > 0,
        contents::same_key(pairs.last().0, k) ==> after[k] == pairs.last().1,
        !contents::same_key(pairs.last().0, k) ==> before.contains_key(k) && after[k] == before[k],
        i < pairs.len() - 1 && comes_last(pairs.drop_last(), i) && before.contains_key(k) ==> before[k]
            == pairs[i].1,
        0 <= i < pairs.len(),
        comes_last(pairs, i),
        after.contains_key(k),
        contents::same_key(pairs[i].0, k),
    ensures
        after[k] == pairs[i].1,
{
    let rest = pairs.drop_last();
    let last = pairs.len() - 1;
    let key = pairs[last].0;
    if i < last {
        assert(!contents::same_key(pairs[i].0, pairs[last].0));
        if contents::same_key(key, k) {
            lemma_equal_keys(key, k, k);
            lemma_equal_keys(pairs[i].0, k, key);
        }
        assert(before.contains_key(k));
        assert(comes_last(rest, i)) by {
            assert forall|j: int| i < j < rest.len() implies !contents::same_key(
                rest[i].0,
                (#[trigger] rest[j]).0,
            ) by {
                assert(rest[j] == pairs[j]);
            }
        }
    }
}

#[verifier::rlimit(40)]
proof fn lemma_one_more_value<K: Eq, V>(
    map: Map<K, V>,
    pairs: Seq<(K, V)>,
    before: Map<K, V>,
    after: Map<K, V>,
)
    requires
        laws::is_equivalence::<K>(),
        pairs.len() > 0,
        has_the_last_of_each_key(map, pairs.drop_last(), before),
        is_set(before, after, pairs.last().0, pairs.last().1),
    ensures
        has_the_last_of_each_key(map, pairs, after),
{
    let rest = pairs.drop_last();
    let last = pairs.len() - 1;
    assert forall|k: K| #[trigger]
        map.contains_key(k) && (forall|i: int|
            0 <= i < pairs.len() ==> !contents::same_key((#[trigger] pairs[i]).0, k)) implies after[k]
        == map[k] by {
        lemma_others_keep_their_values(map, pairs, before, after, k);
    }
    assert forall|i: int, k: K|
        0 <= i < pairs.len() && comes_last(pairs, i) && #[trigger] after.contains_key(k)
            && contents::same_key((#[trigger] pairs[i]).0, k) implies after[k] == pairs[i].1 by {
        if i < last {
            assert(rest[i] == pairs[i]);
        }
        lemma_last_value(pairs, before, after, i, k);
    }
    assert forall|i: int| 0 <= i < pairs.len() implies contents::has_key(
        after,
        (#[trigger] pairs[i]).0,
    ) by {
        if i < last {
            assert(rest[i] == pairs[i]);
            let k = choose|k: K| #[trigger]
                before.contains_key(k) && contents::same_key(rest[i].0, k);
            assert(after.contains_key(k));
        }
    }
    assert forall|k: K| #[trigger] after.contains_key(k) implies map.contains_key(k) || exists|
        i: int,
    |
        0 <= i < pairs.len() && (#[trigger] pairs[i]).0 == k by {
        if !before.contains_key(k) {
            assert(pairs[last].0 == k);
        } else if !map.contains_key(k) {
            let i = choose|i: int| 0 <= i < rest.len() && (#[trigger] rest[i]).0 == k;
            assert(pairs[i].0 == k);
        }
    }
    assert forall|k: K| #[trigger] map.contains_key(k) implies after.contains_key(k) by {
        assert(before.contains_key(k));
    }
}

/// Setting values one after the other gives each key the last of its values. Keys that are there stay as
/// they are.
pub proof fn setting_values_takes_the_last_of_each_key<K: Eq, V>(
    map: Map<K, V>,
    pairs: Seq<(K, V)>,
)
    requires
        laws::is_equivalence::<K>(),
        laws::has_unique_keys(map),
    ensures
        has_the_last_of_each_key(map, pairs, super::set_all(map, pairs)),
    decreases pairs.len(),
{
    if pairs.len() > 0 {
        let before = super::set_all(map, pairs.drop_last());
        setting_values_takes_the_last_of_each_key(map, pairs.drop_last());
        lemma_is_set(before, pairs.last().0, pairs.last().1);
        lemma_one_more_value(map, pairs, before, super::set_all(map, pairs));
    }
}

/// At most one key of a map equals a given one.
pub proof fn keys_are_unique<K: Eq, V, S: HashBuilder<K>>(map: SyncInsertMap<K, V, S>)
    requires
        map.wf(),
    ensures
        laws::has_unique_keys(map@),
        laws::is_equivalence::<K>(),
{
    map.lemma_wf();
    reveal(laws::is_equivalence);
    assert forall|a: K, b: K|
        #![trigger map@.contains_key(a), map@.contains_key(b)]
        map@.contains_key(a) && map@.contains_key(b) && contents::same_key(a, b) implies a == b by {
        assert(contents::same_key(a, a));
    }
}

/// Setting values one after the other, with clones made in between, makes exactly the keys of the pairs
/// be found besides those that were found before.
pub proof fn setting_values_with_clones_keeps_every_key<K: Eq + Clone, V: Clone, S: HashBuilder<K>>(
    hash_builder: S,
    map: Map<K, V>,
    pairs: Seq<(K, V)>,
    after: Map<K, V>,
    key: K,
)
    requires
        contents::lawful::<K, S>(hash_builder),
        contents::clones_keep_keys::<K>(),
        super::set_all_cloning(map, pairs, after),
    ensures
        contents::has_key(after, key) <==> contents::has_key(map, key) || exists|i: int|
            0 <= i < pairs.len() && contents::same_key(key, (#[trigger] pairs[i]).0),
    decreases pairs.len(),
{
    if pairs.len() == 0 {
        if map != after {
            contents::lemma_cloned_has_key::<K, V, S>(hash_builder, map, after, key);
        }
    } else {
        let rest = pairs.drop_last();
        let last = pairs.len() - 1;
        let (before, copy) = choose|before: Map<K, V>, copy: Map<K, V>|
            {
                &&& #[trigger] super::same_or_cloned(before, copy)
                &&& super::set_all_cloning(map, pairs.drop_last(), before)
                &&& after == super::set_value(copy, pairs.last().0, pairs.last().1)
            };
        setting_values_with_clones_keeps_every_key(hash_builder, map, rest, before, key);
        if before != copy {
            contents::lemma_cloned_has_key::<K, V, S>(hash_builder, before, copy, key);
        }
        let new = pairs[last].0;
        assert(contents::same_key(new, new));
        if contents::has_key(copy, new) {
            let k = super::the_key(copy, new);
            assert(copy.contains_key(k) && contents::same_key(new, k));
            assert(after.dom() =~= copy.dom());
        } else {
            assert(after.dom() =~= copy.dom().insert(new));
        }
        if contents::has_key(after, key) {
            let k = choose|k: K| #[trigger] after.contains_key(k) && contents::same_key(key, k);
            if !copy.contains_key(k) {
                assert(contents::same_key(key, pairs[last].0));
            } else {
                assert(contents::has_key(copy, key));
                if !contents::has_key(map, key) {
                    let i = choose|i: int|
                        0 <= i < rest.len() && contents::same_key(key, (#[trigger] rest[i]).0);
                    assert(pairs[i] == rest[i]);
                }
            }
        }
        if contents::has_key(copy, key) {
            let k = choose|k: K| #[trigger] copy.contains_key(k) && contents::same_key(key, k);
            assert(after.contains_key(k));
        }
        if exists|i: int| 0 <= i < pairs.len() && contents::same_key(key, (#[trigger] pairs[i]).0) {
            let i = choose|i: int|
                0 <= i < pairs.len() && contents::same_key(key, (#[trigger] pairs[i]).0);
            if i < last {
                assert(contents::same_key(key, rest[i].0));
            } else if contents::has_key(copy, new) {
                let k = super::the_key(copy, new);
                assert(contents::same_key(key, k));
                assert(after.contains_key(k));
            } else {
                assert(after.contains_key(new));
            }
        }
    }
}

/// Making room keeps every key, and as many elements as there are.
pub proof fn making_room_keeps_every_key<K: Eq + Clone, V: Clone, S: HashBuilder<K>>(
    before: SyncInsertMap<K, V, S>,
    after: SyncInsertMap<K, V, S>,
    additional: int,
    key: K,
)
    requires
        before.wf(),
        after.wf(),
        contents::clones_keep_keys::<K>(),
        after.reserved(before, additional),
    ensures
        after.room() >= additional,
        after@.len() == before@.len(),
        contents::has_key(after@, key) == contents::has_key(before@, key),
        before.room() >= additional ==> after@ == before@,
        forall|k: K| #[trigger]
            before@.contains_key(k) ==> after@.contains_key(k) && after@[k] == before@[k] || exists|
                c: K,
            | #[trigger]
                after@.contains_key(c) && cloned::<K>(k, c) && cloned::<V>(before@[k], after@[c]),
{
    before.lemma_wf();
    if before.room() < additional {
        contents::a_map_of_clones_has_a_clone_of_each_element(before@, after@);
        contents::lemma_cloned_has_key::<K, V, S>(before.builder(), before@, after@, key);
    }
}

} // verus!

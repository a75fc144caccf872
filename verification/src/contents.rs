//! What a table holds, as a map from keys to values.

use crate::raw::table::TableRef;
use crate::util::HashBuilder;
use vstd::prelude::*;
use vstd::seq_lib;
use vstd::std_specs::cmp::PartialEqSpec;

verus! {

/// Whether two keys are equal by their `==`.
pub open spec fn same_key<K: PartialEq>(a: K, b: K) -> bool {
    a.eq_spec(&b)
}

/// Whether keys and their hashes are what a hash table needs: `==` is what it is specified to be,
/// is an equivalence, and equal keys have the same hash.
pub open spec fn lawful<K: Eq, S: HashBuilder<K>>(hash_builder: S) -> bool {
    &&& K::obeys_eq_spec()
    &&& forall|a: K| #[trigger] same_key(a, a)
    &&& forall|a: K, b: K| #[trigger] same_key(a, b) ==> same_key(b, a)
    &&& forall|a: K, b: K, c: K|
        #[trigger] same_key(a, b) && #[trigger] same_key(b, c) ==> same_key(a, c)
    &&& forall|a: K, b: K| #[trigger]
        same_key(a, b) ==> hash_builder.hash_of(a) == hash_builder.hash_of(b)
}

/// Whether a clone of a key equals it.
pub open spec fn clones_keep_keys<K: Eq + Clone>() -> bool {
    forall|a: K, b: K| #[trigger] cloned::<K>(a, b) ==> same_key(a, b)
}

/// Whether no two entries have the same key.
pub open spec fn distinct<K: Eq, V>(entries: Map<int, (K, V)>) -> bool {
    forall|i: int, j: int|
        entries.contains_key(i) && entries.contains_key(j) && i != j ==> !#[trigger] same_key(
            entries[i].0,
            entries[j].0,
        )
}

/// The entries of a sequence, by their positions.
pub open spec fn entries_of<K, V>(pairs: Seq<(K, V)>) -> Map<int, (K, V)> {
    Map::new(|i: int| 0 <= i < pairs.len(), |i: int| pairs[i])
}

/// The map that the entries make up.
pub open spec fn contents<K, V>(entries: Map<int, (K, V)>) -> Map<K, V> {
    Map::new(
        |key: K| exists|i: int| entries.contains_key(i) && #[trigger] entries[i].0 == key,
        |key: K|
            entries[choose|i: int| entries.contains_key(i) && #[trigger] entries[i].0 == key].1,
    )
}

/// Whether the map has a key that equals `key`.
pub open spec fn has_key<K: Eq, V>(map: Map<K, V>, key: K) -> bool {
    exists|k: K| #[trigger] map.contains_key(k) && same_key(key, k)
}

/// Whether each entry of a map has a clone in the other, and each entry of the other is one.
pub open spec fn cloned_map<K: Clone, V: Clone>(map: Map<K, V>, other: Map<K, V>) -> bool {
    &&& map.len() == other.len()
    &&& forall|k: K| #[trigger] map.contains_key(k) ==> has_clone(k, map[k], other)
    &&& forall|k: K| #[trigger] other.contains_key(k) ==> is_clone(map, k, other[k])
}

/// Whether the map has a clone of the entry.
#[verifier::opaque]
pub open spec fn has_clone<K: Clone, V: Clone>(key: K, value: V, map: Map<K, V>) -> bool {
    exists|k: K| #[trigger]
        map.contains_key(k) && cloned::<K>(key, k) && cloned::<V>(value, map[k])
}

/// Whether the entry is a clone of one in the map.
#[verifier::opaque]
pub open spec fn is_clone<K: Clone, V: Clone>(map: Map<K, V>, key: K, value: V) -> bool {
    exists|k: K| #[trigger]
        map.contains_key(k) && cloned::<K>(k, key) && cloned::<V>(map[k], value)
}

/// The clone of an entry.
pub proof fn lemma_has_clone<K: Clone, V: Clone>(key: K, value: V, map: Map<K, V>) -> (k: K)
    requires
        has_clone(key, value, map),
    ensures
        map.contains_key(k),
        cloned::<K>(key, k),
        cloned::<V>(value, map[k]),
{
    reveal(has_clone);
    choose|k: K| #[trigger]
        map.contains_key(k) && cloned::<K>(key, k) && cloned::<V>(value, map[k])
}

/// What an entry is a clone of.
pub proof fn lemma_is_clone<K: Clone, V: Clone>(map: Map<K, V>, key: K, value: V) -> (k: K)
    requires
        is_clone(map, key, value),
    ensures
        map.contains_key(k),
        cloned::<K>(k, key),
        cloned::<V>(map[k], value),
{
    reveal(is_clone);
    choose|k: K| #[trigger]
        map.contains_key(k) && cloned::<K>(k, key) && cloned::<V>(map[k], value)
}

/// If clones are the same as what they are clones of, so are maps of clones.
pub proof fn exact_clones_make_the_same_map<K: Clone, V: Clone>(map: Map<K, V>, other: Map<K, V>)
    requires
        cloned_map(map, other),
        forall|a: K, b: K| #[trigger] cloned::<K>(a, b) ==> a == b,
        forall|a: V, b: V| #[trigger] cloned::<V>(a, b) ==> a == b,
    ensures
        map == other,
{
    assert forall|k: K|
        #![trigger map.dom().contains(k)]
        #![trigger other.dom().contains(k)]
        #![trigger map[k]]
        map.contains_key(k) == other.contains_key(k) && (map.contains_key(k) ==> map[k]
            == other[k]) by {
        if map.contains_key(k) {
            let c = lemma_has_clone(k, map[k], other);
        }
        if other.contains_key(k) {
            let c = lemma_is_clone(map, k, other[k]);
        }
    }
    assert(map =~= other);
}

/// An entry is in the map with its value.
pub proof fn lemma_entry<K: Eq, V>(entries: Map<int, (K, V)>, i: int)
    requires
        forall|a: K| #[trigger] same_key(a, a),
        distinct(entries),
        entries.contains_key(i),
    ensures
        contents(entries).contains_key(entries[i].0),
        contents(entries)[entries[i].0] == entries[i].1,
{
    let key = entries[i].0;
    let j = choose|j: int| entries.contains_key(j) && #[trigger] entries[j].0 == key;
    assert(entries.contains_key(j) && entries[j].0 == key);
    assert(same_key(entries[i].0, entries[j].0));
}

/// A key of the map is that of an entry.
pub proof fn lemma_entry_of_key<K: Eq, V>(entries: Map<int, (K, V)>, key: K) -> (i: int)
    requires
        contents(entries).contains_key(key),
    ensures
        entries.contains_key(i),
        entries[i].0 == key,
        contents(entries)[key] == entries[i].1,
{
    choose|i: int| entries.contains_key(i) && #[trigger] entries[i].0 == key
}

/// Adding an entry with a new key adds it to the map.
pub proof fn lemma_add<K: Eq, V, S: HashBuilder<K>>(
    hash_builder: S,
    entries: Map<int, (K, V)>,
    i: int,
    key: K,
    value: V,
)
    requires
        lawful::<K, S>(hash_builder),
        distinct(entries),
        !entries.contains_key(i),
        !has_key(contents(entries), key),
    ensures
        distinct(entries.insert(i, (key, value))),
        contents(entries.insert(i, (key, value))) == contents(entries).insert(key, value),
{
    let after = entries.insert(i, (key, value));
    assert forall|j: int| entries.contains_key(j) implies !same_key(key, #[trigger] entries[j].0)
        && !same_key(entries[j].0, key) by {
        lemma_entry(entries, j);
    }
    assert(distinct(after)) by {
        assert forall|a: int, b: int|
            after.contains_key(a) && after.contains_key(b) && a != b implies !#[trigger] same_key(
            after[a].0,
            after[b].0,
        ) by {
            if a != i && b != i {
                assert(!same_key(entries[a].0, entries[b].0));
            }
        }
    }
    let left = contents(after);
    let right = contents(entries).insert(key, value);
    assert forall|k: K|
        #![trigger left.dom().contains(k)]
        #![trigger right.dom().contains(k)]
        #![trigger left[k]]
        left.contains_key(k) == right.contains_key(k) && (left.contains_key(k) ==> left[k]
            == right[k]) by {
        if left.contains_key(k) {
            let j = lemma_entry_of_key(after, k);
            if j != i {
                assert(entries.contains_key(j));
                assert(entries[j] == after[j]);
                lemma_entry(entries, j);
            }
        }
        if right.contains_key(k) {
            if k == key {
                lemma_entry(after, i);
            } else {
                let j = lemma_entry_of_key(entries, k);
                assert(after[j] == entries[j]);
                lemma_entry(after, j);
            }
        }
    }
    assert(left =~= right);
}

/// Removing an entry removes its key from the map.
pub proof fn lemma_take<K: Eq, V>(entries: Map<int, (K, V)>, i: int)
    requires
        forall|a: K| #[trigger] same_key(a, a),
        distinct(entries),
        entries.contains_key(i),
    ensures
        distinct(entries.remove(i)),
        contents(entries.remove(i)) == contents(entries).remove(entries[i].0),
{
    let after = entries.remove(i);
    let key = entries[i].0;
    assert(distinct(after)) by {
        assert forall|a: int, b: int|
            after.contains_key(a) && after.contains_key(b) && a != b implies !#[trigger] same_key(
            after[a].0,
            after[b].0,
        ) by {
            assert(!same_key(entries[a].0, entries[b].0));
        }
    }
    let left = contents(after);
    let right = contents(entries).remove(key);
    assert forall|k: K|
        #![trigger left.dom().contains(k)]
        #![trigger right.dom().contains(k)]
        #![trigger left[k]]
        left.contains_key(k) == right.contains_key(k) && (left.contains_key(k) ==> left[k]
            == right[k]) by {
        if left.contains_key(k) {
            let j = lemma_entry_of_key(after, k);
            assert(entries[j] == after[j]);
            lemma_entry(entries, j);
            if k == key {
                assert(same_key(entries[i].0, entries[j].0));
            }
        }
        if right.contains_key(k) {
            let j = lemma_entry_of_key(entries, k);
            assert(after.contains_key(j));
            assert(after[j] == entries[j]);
            lemma_entry(after, j);
        }
    }
    assert(left =~= right);
}

/// Changing the value of an entry changes that of its key in the map.
pub proof fn lemma_change<K: Eq, V>(entries: Map<int, (K, V)>, i: int, value: V)
    requires
        forall|a: K| #[trigger] same_key(a, a),
        distinct(entries),
        entries.contains_key(i),
    ensures
        distinct(entries.insert(i, (entries[i].0, value))),
        contents(entries.insert(i, (entries[i].0, value))) == contents(entries).insert(
            entries[i].0,
            value,
        ),
{
    let key = entries[i].0;
    let after = entries.insert(i, (key, value));
    assert(distinct(after)) by {
        assert forall|a: int, b: int|
            after.contains_key(a) && after.contains_key(b) && a != b implies !#[trigger] same_key(
            after[a].0,
            after[b].0,
        ) by {
            assert(!same_key(entries[a].0, entries[b].0));
        }
    }
    let left = contents(after);
    let right = contents(entries).insert(key, value);
    assert forall|k: K|
        #![trigger left.dom().contains(k)]
        #![trigger right.dom().contains(k)]
        #![trigger left[k]]
        left.contains_key(k) == right.contains_key(k) && (left.contains_key(k) ==> left[k]
            == right[k]) by {
        if left.contains_key(k) {
            let j = lemma_entry_of_key(after, k);
            lemma_entry(entries, j);
            if k == key && j != i {
                assert(same_key(entries[i].0, entries[j].0));
            }
        }
        if right.contains_key(k) {
            lemma_entry(after, i);
            if k != key {
                let j = lemma_entry_of_key(entries, k);
                assert(after[j] == entries[j]);
                lemma_entry(after, j);
            }
        }
    }
    assert(left =~= right);
}

/// A table that is filled with distinct pairs holds the map that they make up.
pub proof fn lemma_filled<K: Eq, V>(
    table: TableRef<(K, V)>,
    pairs: Seq<(K, V)>,
    places: Seq<int>,
)
    requires
        forall|a: K| #[trigger] same_key(a, a),
        distinct(entries_of(pairs)),
        table.filled_with(pairs, places),
    ensures
        distinct(table.items()),
        contents(table.items()) == contents(entries_of(pairs)),
{
    let items = table.items();
    let entries = entries_of(pairs);
    assert forall|i: int| items.contains_key(i) implies exists|j: int|
        0 <= j < pairs.len() && #[trigger] places[j] == i && items[i] == pairs[j] by {
        assert(table.holds(i));
        assert(places.contains(i));
        let j = choose|j: int| 0 <= j < places.len() && places[j] == i;
        assert(places[j] == i);
    }
    assert forall|a: int, b: int|
        items.contains_key(a) && items.contains_key(b) && a != b implies !#[trigger] same_key(
        items[a].0,
        items[b].0,
    ) by {
        let i = choose|j: int|
            0 <= j < pairs.len() && #[trigger] places[j] == a && items[a] == pairs[j];
        let j = choose|j: int|
            0 <= j < pairs.len() && #[trigger] places[j] == b && items[b] == pairs[j];
        assert(!same_key(entries[i].0, entries[j].0));
    }
    let left = contents(items);
    let right = contents(entries);
    assert forall|k: K|
        #![trigger left.dom().contains(k)]
        #![trigger right.dom().contains(k)]
        #![trigger left[k]]
        left.contains_key(k) == right.contains_key(k) && (left.contains_key(k) ==> left[k]
            == right[k]) by {
        if left.contains_key(k) {
            let i = lemma_entry_of_key(items, k);
            let j = choose|j: int|
                0 <= j < pairs.len() && #[trigger] places[j] == i && items[i] == pairs[j];
            assert(entries.contains_key(j));
            lemma_entry(entries, j);
        }
        if right.contains_key(k) {
            let j = lemma_entry_of_key(entries, k);
            assert(table.holds(places[j]));
            assert(items.contains_key(places[j]));
            lemma_entry(items, places[j]);
        }
    }
    assert(left =~= right);
}

/// The map of a sequence of distinct pairs is as large as the sequence is long.
pub proof fn lemma_contents_len<K: Eq, V>(pairs: Seq<(K, V)>)
    requires
        forall|a: K| #[trigger] same_key(a, a),
        distinct(entries_of(pairs)),
    ensures
        contents(entries_of(pairs)).dom().finite(),
        contents(entries_of(pairs)).len() == pairs.len(),
{
    let entries = entries_of(pairs);
    let keys = Seq::new(pairs.len(), |i: int| pairs[i].0);
    assert(keys.no_duplicates()) by {
        assert forall|i: int, j: int|
            0 <= i < keys.len() && 0 <= j < keys.len() && i != j implies keys[i] != keys[j] by {
            assert(!same_key(entries[i].0, entries[j].0));
        }
    }
    keys.unique_seq_to_set();
    assert(contents(entries).dom() =~= keys.to_set()) by {
        assert forall|k: K| contents(entries).contains_key(k) == keys.to_set().contains(k) by {
            if contents(entries).contains_key(k) {
                let i = lemma_entry_of_key(entries, k);
                assert(keys[i] == k);
            }
            if keys.to_set().contains(k) {
                let i = choose|i: int| 0 <= i < keys.len() && keys[i] == k;
                lemma_entry(entries, i);
            }
        }
    }
    seq_lib::seq_to_set_is_finite(keys);
}

/// The pairs of a table, in the order of their buckets.
pub open spec fn pairs<K, V>(table: TableRef<(K, V)>) -> Seq<(K, V)> {
    table.full().map_values(|i: int| table.item(i))
}

/// The pairs of a table make up the map that it holds.
pub proof fn lemma_pairs<K: Eq, V>(table: TableRef<(K, V)>)
    requires
        forall|a: K| #[trigger] same_key(a, a),
        table.wf(),
        distinct(table.items()),
    ensures
        pairs(table).len() == table.len(),
        distinct(entries_of(pairs(table))),
        contents(entries_of(pairs(table))) == contents(table.items()),
        contents(table.items()).dom().finite(),
        contents(table.items()).len() == table.len(),
{
    let full = table.full();
    let all = pairs(table);
    table.lemma_full();
    assert forall|a: int, b: int|
        entries_of(all).contains_key(a) && entries_of(all).contains_key(b) && a
            != b implies !#[trigger] same_key(entries_of(all)[a].0, entries_of(all)[b].0) by {
        assert(table.holds(full[a]) && table.holds(full[b]));
        assert(full[a] != full[b]) by {
            if a < b {
                assert(full[a] < full[b]);
            } else {
                assert(full[b] < full[a]);
            }
        }
        assert(table.items().contains_key(full[a]) && table.items().contains_key(full[b]));
        assert(!same_key(table.items()[full[a]].0, table.items()[full[b]].0));
    }
    assert(table.filled_with(all, full)) by {
        assert forall|i: int, j: int| 0 <= i < j < full.len() implies #[trigger] full[i]
            != #[trigger] full[j] by {}
    }
    lemma_filled(table, all, full);
    lemma_contents_len(all);
}

/// Clones of the pairs of a map make up a map of clones.
pub proof fn lemma_cloned<K: Eq + Clone, V: Clone>(from: Seq<(K, V)>, to: Seq<(K, V)>)
    requires
        forall|a: K| #[trigger] same_key(a, a),
        forall|a: K, b: K| #[trigger] same_key(a, b) ==> same_key(b, a),
        forall|a: K, b: K, c: K|
            #[trigger] same_key(a, b) && #[trigger] same_key(b, c) ==> same_key(a, c),
        clones_keep_keys::<K>(),
        distinct(entries_of(from)),
        from.len() == to.len(),
        forall|j: int|
            0 <= j < from.len() ==> cloned::<K>(from[j].0, (#[trigger] to[j]).0) && cloned::<V>(
                from[j].1,
                to[j].1,
            ),
    ensures
        distinct(entries_of(to)),
        cloned_map(contents(entries_of(from)), contents(entries_of(to))),
{
    let a = entries_of(from);
    let b = entries_of(to);
    assert forall|i: int, j: int|
        b.contains_key(i) && b.contains_key(j) && i != j implies !#[trigger] same_key(
        b[i].0,
        b[j].0,
    ) by {
        assert(cloned::<K>(from[i].0, to[i].0) && cloned::<K>(from[j].0, to[j].0));
        assert(!same_key(a[i].0, a[j].0));
        if same_key(to[i].0, to[j].0) {
            assert(same_key(from[i].0, to[i].0));
            assert(same_key(from[j].0, to[j].0));
            assert(same_key(to[j].0, from[j].0));
            assert(same_key(from[i].0, to[j].0));
        }
    }
    lemma_contents_len(from);
    lemma_contents_len(to);
    assert forall|k: K| #[trigger] contents(a).contains_key(k) implies has_clone(
        k,
        contents(a)[k],
        contents(b),
    ) by {
        let j = lemma_entry_of_key(a, k);
        assert(cloned::<K>(from[j].0, to[j].0));
        lemma_entry(b, j);
        reveal(has_clone);
    }
    assert forall|k: K| #[trigger] contents(b).contains_key(k) implies is_clone(
        contents(a),
        k,
        contents(b)[k],
    ) by {
        let j = lemma_entry_of_key(b, k);
        assert(cloned::<K>(from[j].0, to[j].0));
        lemma_entry(a, j);
        reveal(is_clone);
    }
}

/// A map of clones has the keys of the map.
pub proof fn lemma_cloned_has_key<K: Eq + Clone, V: Clone, S: HashBuilder<K>>(
    hash_builder: S,
    map: Map<K, V>,
    other: Map<K, V>,
    key: K,
)
    requires
        lawful::<K, S>(hash_builder),
        clones_keep_keys::<K>(),
        cloned_map(map, other),
    ensures
        has_key(map, key) == has_key(other, key),
{
    if has_key(map, key) {
        let k = choose|k: K| #[trigger] map.contains_key(k) && same_key(key, k);
        let c = lemma_has_clone(k, map[k], other);
        assert(same_key(k, c));
        assert(same_key(key, c));
    }
    if has_key(other, key) {
        let c = choose|c: K| #[trigger] other.contains_key(c) && same_key(key, c);
        let k = lemma_is_clone(map, c, other[c]);
        assert(same_key(k, c));
        assert(same_key(c, k));
        assert(same_key(key, k));
    }
}

/// The map that entries with different keys make up has each of them, and nothing else.
pub proof fn the_contents_are_the_entries<K: Eq, V>(entries: Map<int, (K, V)>)
    requires
        forall|a: K| #[trigger] a.eq_spec(&a),
        forall|i: int, j: int|
            entries.contains_key(i) && entries.contains_key(j) && i != j
                ==> !#[trigger] entries[i].0.eq_spec(&entries[j].0),
    ensures
        forall|i: int| #[trigger]
            entries.contains_key(i) ==> contents(entries).contains_key(entries[i].0)
                && contents(entries)[entries[i].0] == entries[i].1,
        forall|key: K| #[trigger]
            contents(entries).contains_key(key) ==> exists|i: int|
                entries.contains_key(i) && #[trigger] entries[i] == (key, contents(entries)[key]),
{
    assert(distinct(entries)) by {
        assert forall|i: int, j: int|
            entries.contains_key(i) && entries.contains_key(j) && i != j implies !#[trigger] same_key(
            entries[i].0,
            entries[j].0,
        ) by {
            assert(!entries[i].0.eq_spec(&entries[j].0));
        }
    }
    assert forall|a: K| #[trigger] same_key(a, a) by {
        assert(a.eq_spec(&a));
    }
    assert forall|i: int| #[trigger] entries.contains_key(i) implies contents(
        entries,
    ).contains_key(entries[i].0) && contents(entries)[entries[i].0] == entries[i].1 by {
        lemma_entry(entries, i);
    }
    assert forall|key: K| #[trigger] contents(entries).contains_key(key) implies exists|i: int|
        entries.contains_key(i) && #[trigger] entries[i] == (key, contents(entries)[key]) by {
        let i = lemma_entry_of_key(entries, key);
        assert(entries[i] == (key, contents(entries)[key]));
    }
}

/// Entries by position are the elements of the sequence.
pub proof fn the_entries_of_a_sequence_are_its_elements<K, V>(pairs: Seq<(K, V)>)
    ensures
        forall|i: int| #[trigger] entries_of(pairs).contains_key(i) <==> 0 <= i < pairs.len(),
        forall|i: int| 0 <= i < pairs.len() ==> #[trigger] entries_of(pairs)[i] == pairs[i],
{
}

/// Pairs with different keys that make up a map are the elements of the map, each of them once.
pub proof fn pairs_that_make_up_a_map_are_its_elements<K: Eq, V>(
    pairs: Seq<(K, V)>,
    map: Map<K, V>,
)
    requires
        forall|a: K| #[trigger] a.eq_spec(&a),
        distinct(entries_of(pairs)),
        contents(entries_of(pairs)) == map,
    ensures
        forall|i: int|
            0 <= i < pairs.len() ==> map.contains_key((#[trigger] pairs[i]).0) && map[pairs[i].0]
                == pairs[i].1,
        forall|key: K| #[trigger]
            map.contains_key(key) ==> exists|i: int|
                0 <= i < pairs.len() && #[trigger] pairs[i] == (key, map[key]),
        forall|i: int, j: int|
            0 <= i < pairs.len() && 0 <= j < pairs.len() && i != j
                ==> !(#[trigger] pairs[i]).0.eq_spec(&(#[trigger] pairs[j]).0),
        map.dom().finite(),
        map.len() == pairs.len(),
{
    let entries = entries_of(pairs);
    assert forall|a: K| #[trigger] same_key(a, a) by {
        assert(a.eq_spec(&a));
    }
    assert forall|i: int, j: int|
        0 <= i < pairs.len() && 0 <= j < pairs.len() && i != j implies !(
    #[trigger] pairs[i]).0.eq_spec(&(#[trigger] pairs[j]).0) by {
        assert(!same_key(entries[i].0, entries[j].0));
    }
    assert forall|i: int| 0 <= i < pairs.len() implies map.contains_key((#[trigger] pairs[i]).0)
        && map[pairs[i].0] == pairs[i].1 by {
        lemma_entry(entries, i);
    }
    assert forall|key: K| #[trigger] map.contains_key(key) implies exists|i: int|
        0 <= i < pairs.len() && #[trigger] pairs[i] == (key, map[key]) by {
        let i = lemma_entry_of_key(entries, key);
        assert(pairs[i] == (key, map[key]));
    }
    lemma_contents_len(pairs);
}

/// A key is in a map if the map has a key that is equal to it by `==`.
pub proof fn a_key_is_found_by_its_equality<K: Eq, V>(map: Map<K, V>, key: K)
    ensures
        has_key(map, key) <==> exists|k: K| #[trigger] map.contains_key(k) && key.eq_spec(&k),
{
    if has_key(map, key) {
        let k = choose|k: K| #[trigger] map.contains_key(k) && same_key(key, k);
        assert(map.contains_key(k) && key.eq_spec(&k));
    }
    if exists|k: K| #[trigger] map.contains_key(k) && key.eq_spec(&k) {
        let k = choose|k: K| #[trigger] map.contains_key(k) && key.eq_spec(&k);
        assert(map.contains_key(k) && same_key(key, k));
    }
}

/// A map of clones has as many elements, a clone of each element, key and value, and nothing but such
/// clones.
pub proof fn a_map_of_clones_has_a_clone_of_each_element<K: Clone, V: Clone>(
    map: Map<K, V>,
    other: Map<K, V>,
)
    requires
        cloned_map(map, other),
    ensures
        other.len() == map.len(),
        forall|k: K| #[trigger]
            map.contains_key(k) ==> exists|c: K| #[trigger]
                other.contains_key(c) && cloned::<K>(k, c) && cloned::<V>(map[k], other[c]),
        forall|c: K| #[trigger]
            other.contains_key(c) ==> exists|k: K| #[trigger]
                map.contains_key(k) && cloned::<K>(k, c) && cloned::<V>(map[k], other[c]),
{
    assert forall|k: K| #[trigger] map.contains_key(k) implies exists|c: K| #[trigger]
        other.contains_key(c) && cloned::<K>(k, c) && cloned::<V>(map[k], other[c]) by {
        let c = lemma_has_clone(k, map[k], other);
    }
    assert forall|c: K| #[trigger] other.contains_key(c) implies exists|k: K| #[trigger]
        map.contains_key(k) && cloned::<K>(k, c) && cloned::<V>(map[k], other[c]) by {
        let k = lemma_is_clone(map, c, other[c]);
    }
}

} // verus!

//! Workloads that hold tables to a model of what they should contain.

pub mod drop;
pub mod fuzz;
pub mod laws;
pub mod ops;
pub mod steps;

use crate::contents;
use crate::sync_table::Read;
use crate::util::HashBuilder;
use vstd::prelude::*;

verus! {

/// What a table should contain: the value of each key.
pub type Model = [Option<u8>; 256];

/// The map that a model describes.
pub open spec fn model_map(model: Seq<Option<u8>>) -> Map<u8, u8> {
    Map::new(|key: u8| model[key as int] is Some, |key: u8| model[key as int]->0)
}

/// A value that stands for a byte.
pub trait ByteValue: Clone + Sized {
    /// The byte.
    spec fn as_byte(self) -> u8;

    /// Makes a value that stands for `byte`.
    fn from_byte(byte: u8) -> (r: Self)
        ensures
            r.as_byte() == byte,
    ;

    /// Returns the byte.
    fn byte(&self) -> (r: u8)
        ensures
            r == self.as_byte(),
    ;

    /// A clone stands for the same byte.
    proof fn lemma_clone(a: Self, b: Self)
        requires
            cloned::<Self>(a, b),
        ensures
            a.as_byte() == b.as_byte(),
    ;
}

impl ByteValue for u8 {
    open spec fn as_byte(self) -> u8 {
        self
    }

    fn from_byte(byte: u8) -> (r: Self) {
        byte
    }

    fn byte(&self) -> (r: u8) {
        *self
    }

    proof fn lemma_clone(a: Self, b: Self) {
    }
}

/// The bytes that the values of a map stand for.
pub open spec fn bytes_of<V: ByteValue>(map: Map<u8, V>) -> Map<u8, u8> {
    map.map_values(|value: V| value.as_byte())
}

/// Clones of values stand for the same bytes.
pub proof fn lemma_cloned_bytes<V: ByteValue>(map: Map<u8, V>, other: Map<u8, V>)
    requires
        map == other || contents::cloned_map(map, other),
    ensures
        bytes_of(map) == bytes_of(other),
{
    if map != other {
        assert forall|k: u8|
            #![trigger map.dom().contains(k)]
            #![trigger other.dom().contains(k)]
            map.contains_key(k) == other.contains_key(k) && (map.contains_key(k)
                ==> map[k].as_byte() == other[k].as_byte()) by {
            if map.contains_key(k) {
                let c = contents::lemma_has_clone(k, map[k], other);
                V::lemma_clone(map[k], other[c]);
            }
            if other.contains_key(k) {
                let c = contents::lemma_is_clone(map, k, other[k]);
            }
        }
        assert(bytes_of(map) =~= bytes_of(other));
    }
}

/// A model without keys.
pub fn empty_model() -> (r: Model)
    ensures
        forall|i: int| 0 <= i < 256 ==> r@[i] is None,
        model_map(r@) == Map::<u8, u8>::empty(),
{
    let r: Model = [None; 256];
    assert(model_map(r@) =~= Map::<u8, u8>::empty());
    r
}

/// Bytes that a workload is made from.
pub struct Input<'a> {
    data: &'a [u8],
    index: usize,
}

impl<'a> Input<'a> {
    /// The bytes that are left.
    pub closed spec fn rest(self) -> Seq<u8> {
        self.data@.skip(self.index as int)
    }

    /// Whether the input is consistent.
    pub closed spec fn wf(self) -> bool {
        self.index <= self.data@.len()
    }

    /// Starts at the first byte.
    pub fn new(data: &'a [u8]) -> (r: Self)
        ensures
            r.wf(),
            r.rest() == data@,
    {
        assert(data@.skip(0) =~= data@);
        Input { data, index: 0 }
    }

    /// Takes the next byte, if there is one.
    pub fn next(&mut self) -> (r: Option<u8>)
        requires
            old(self).wf(),
        ensures
            final(self).wf(),
            r == first(old(self).rest()),
            final(self).rest() == after_first(old(self).rest()),
    {
        if self.index < self.data.len() {
            let byte: u8 = self.data[self.index];
            self.index = self.index + 1;
            assert(self.rest() =~= old(self).rest().drop_first());
            Some(byte)
        } else {
            None
        }
    }

    /// Takes the next byte, or else `default`.
    pub fn next_or(&mut self, default: u8) -> (r: u8)
        requires
            old(self).wf(),
        ensures
            final(self).wf(),
            r == first_or(old(self).rest(), default),
            final(self).rest() == after_first(old(self).rest()),
    {
        match self.next() {
            Some(byte) => byte,
            None => default,
        }
    }

    /// Takes the next byte, and returns whether it is odd.
    pub fn next_bool(&mut self) -> (r: bool)
        requires
            old(self).wf(),
        ensures
            final(self).wf(),
            r == first_is_odd(old(self).rest()),
            final(self).rest() == after_first(old(self).rest()),
    {
        match self.next() {
            Some(byte) => byte % 2 == 1,
            None => false,
        }
    }
}

/// The first byte, if there is one.
pub open spec fn first(bytes: Seq<u8>) -> Option<u8> {
    if bytes.len() > 0 {
        Some(bytes[0])
    } else {
        None
    }
}

/// The first byte, or else `default`.
pub open spec fn first_or(bytes: Seq<u8>, default: u8) -> u8 {
    if bytes.len() > 0 {
        bytes[0]
    } else {
        default
    }
}

/// Whether there is a first byte and it is odd.
pub open spec fn first_is_odd(bytes: Seq<u8>) -> bool {
    bytes.len() > 0 && bytes[0] % 2 == 1
}

/// The bytes after the first.
pub open spec fn after_first(bytes: Seq<u8>) -> Seq<u8> {
    if bytes.len() > 0 {
        bytes.drop_first()
    } else {
        bytes
    }
}

/// The pairs of a model from the key `from` on, in the order of the keys.
pub open spec fn snapshot(model: Seq<Option<u8>>, from: int) -> Seq<(u8, u8)>
    decreases 256 - from,
{
    if from >= 256 {
        Seq::empty()
    } else {
        match model[from] {
            Some(value) => seq![(from as u8, value)] + snapshot(model, from + 1),
            None => snapshot(model, from + 1),
        }
    }
}

/// Returns the pairs of a model in the order of their keys.
pub fn model_snapshot(model: &Model) -> (r: Vec<(u8, u8)>)
    ensures
        r@ == snapshot(model@, 0),
        contents::distinct(contents::entries_of(r@)),
        contents::contents(contents::entries_of(r@)) == model_map(model@),
        r@.len() <= 256,
{
    let mut r: Vec<(u8, u8)> = Vec::new();
    let mut key: usize = 0;
    while key < 256
        invariant
            key <= 256,
            r@ + snapshot(model@, key as int) == snapshot(model@, 0),
            r@.len() <= key,
        decreases 256 - key,
    {
        if let Some(value) = model[key] {
            let ghost before = r@;
            r.push((key as u8, value));
            assert(before + (seq![(key as u8, value)] + snapshot(model@, key + 1)) =~= r@
                + snapshot(model@, key + 1));
        }
        key = key + 1;
    }
    assert(r@ + Seq::<(u8, u8)>::empty() =~= r@);
    proof {
        lemma_snapshot(model@, 0);
    }
    r
}

/// What the pairs of a model are.
pub(crate) proof fn lemma_snapshot(model: Seq<Option<u8>>, from: int)
    requires
        0 <= from <= 256,
    ensures
        forall|j: int|
            0 <= j < snapshot(model, from).len() ==> {
                &&& from <= (#[trigger] snapshot(model, from)[j]).0
                &&& model[snapshot(model, from)[j].0 as int] == Some(snapshot(model, from)[j].1)
            },
        forall|i: int, j: int|
            0 <= i < j < snapshot(model, from).len() ==> (#[trigger] snapshot(model, from)[i]).0
                < (#[trigger] snapshot(model, from)[j]).0,
        forall|key: u8|
            from <= key && #[trigger] model[key as int] is Some ==> snapshot(model, from).contains(
                (key, model[key as int]->0),
            ),
        from == 0 ==> contents::distinct(contents::entries_of(snapshot(model, 0))),
        from == 0 ==> contents::contents(contents::entries_of(snapshot(model, 0))) == model_map(
            model,
        ),
    decreases 256 - from,
{
    let all = snapshot(model, from);
    if from < 256 {
        lemma_snapshot(model, from + 1);
        let rest = snapshot(model, from + 1);
        if model[from] is Some {
            assert(all == seq![(from as u8, model[from]->0)] + rest);
            assert forall|key: u8| from <= key && #[trigger] model[key as int] is Some implies
                all.contains((key, model[key as int]->0)) by {
                if key == from {
                    assert(all[0] == (key, model[key as int]->0));
                } else {
                    let j = choose|j: int|
                        0 <= j < rest.len() && rest[j] == (key, model[key as int]->0);
                    assert(all[j + 1] == (key, model[key as int]->0));
                }
            }
        }
    }
    if from == 0 {
        let entries = contents::entries_of(all);
        assert forall|i: int, j: int|
            entries.contains_key(i) && entries.contains_key(j) && i
                != j implies !#[trigger] contents::same_key(entries[i].0, entries[j].0) by {
            if i < j {
                assert(all[i].0 < all[j].0);
            } else {
                assert(all[j].0 < all[i].0);
            }
        }
        let left = contents::contents(entries);
        let right = model_map(model);
        assert forall|k: u8|
            #![trigger left.dom().contains(k)]
            #![trigger right.dom().contains(k)]
            #![trigger left[k]]
            left.contains_key(k) == right.contains_key(k) && (left.contains_key(k) ==> left[k]
                == right[k]) by {
            if left.contains_key(k) {
                let j = contents::lemma_entry_of_key(entries, k);
                assert(all[j].0 == k);
            }
            if right.contains_key(k) {
                assert(all.contains((k, model[k as int]->0)));
                let j = choose|j: int| 0 <= j < all.len() && all[j] == (k, model[k as int]->0);
                assert(entries.contains_key(j));
                contents::lemma_entry(entries, j);
            }
        }
        assert(left =~= right);
    }
}

/// Keys that are bytes are what a hash table needs, whatever their hashes are, and a clone of a byte
/// is the byte.
pub proof fn lemma_byte_keys<S: HashBuilder<u8>>()
    ensures
        forall|hash_builder: S| #[trigger] contents::lawful::<u8, S>(hash_builder),
        contents::clones_keep_keys::<u8>(),
        forall|a: u8, b: u8| #[trigger] cloned::<u8>(a, b) ==> a == b,
        forall|a: u8, b: u8| #[trigger] contents::same_key(a, b) <==> a == b,
{
}

/// Whether a map of bytes has a key.
pub(crate) proof fn lemma_has_byte<V>(map: Map<u8, V>, key: u8)
    ensures
        contents::has_key(map, key) == map.contains_key(key),
{
    if map.contains_key(key) {
        assert(contents::same_key(key, key));
    }
}

/// Two models describe the same map only if they are the same.
pub(crate) proof fn lemma_same_model(a: Seq<Option<u8>>, b: Seq<Option<u8>>)
    requires
        a.len() == 256,
        b.len() == 256,
    ensures
        a == b <==> model_map(a) == model_map(b),
{
    if model_map(a) == model_map(b) {
        assert forall|i: int| 0 <= i < 256 implies a[i] == b[i] by {
            let key = i as u8;
            assert(model_map(a).dom().contains(key) == model_map(b).dom().contains(key));
            if a[i] is Some {
                assert(model_map(a)[key] == model_map(b)[key]);
            }
        }
        assert(a =~= b);
    }
}

/// The model after a key has been given a value, or none.
pub open spec fn with_value(model: Seq<Option<u8>>, key: u8, value: Option<u8>) -> Seq<Option<u8>> {
    model.update(key as int, value)
}

/// What giving a key a value does to the map that a model describes.
pub(crate) proof fn lemma_with_value(model: Seq<Option<u8>>, key: u8, value: Option<u8>)
    requires
        model.len() == 256,
    ensures
        model_map(with_value(model, key, value)) == match value {
            Some(value) => model_map(model).insert(key, value),
            None => model_map(model).remove(key),
        },
{
    match value {
        Some(v) => {
            assert(model_map(with_value(model, key, value)) =~= model_map(model).insert(key, v));
        },
        None => {
            assert(model_map(with_value(model, key, value)) =~= model_map(model).remove(key));
        },
    }
}

/// Whether two models are the same.
pub fn same_model(a: &Model, b: &Model) -> (r: bool)
    ensures
        r == (a@ == b@),
{
    let mut key: usize = 0;
    while key < 256
        invariant
            key <= 256,
            forall|i: int| 0 <= i < key ==> a@[i] == b@[i],
        decreases 256 - key,
    {
        if a[key] != b[key] {
            return false;
        }
        key = key + 1;
    }
    assert(a@ =~= b@);
    true
}

/// Goes through all entries of a table. Returns what it contains, and whether no key showed up twice.
pub fn read_model<V: ByteValue, S: HashBuilder<u8>>(read: Read<'_, u8, V, S>) -> (r: (Model, bool))
    requires
        read.table().wf(),
    ensures
        model_map(r.0@) == bytes_of(read.table()@),
        r.1,
{
    let mut actual: Model = empty_model();
    let mut unique: bool = true;
    let mut iter = read.iter();
    let ghost all = iter.rest();
    let ghost mut done: int = 0;
    proof {
        lemma_byte_keys::<S>();
        let none = contents::contents(contents::entries_of(all.take(0)));
        assert(bytes_of(none) =~= Map::<u8, u8>::empty());
        assert(all.skip(0) =~= all);
    }
    loop
        invariant
            iter.wf(),
            0 <= done <= all.len(),
            iter.rest() == all.skip(done),
            contents::distinct(contents::entries_of(all)),
            model_map(actual@) == bytes_of(
                contents::contents(contents::entries_of(all.take(done))),
            ),
            contents::contents(contents::entries_of(all)) == read.table()@,
            unique,
        ensures
            model_map(actual@) == bytes_of(read.table()@),
            unique,
        decreases all.len() - done,
    {
        match iter.next() {
            Some((key, value)) => {
                let index: usize = *key as usize;
                let byte: u8 = value.byte();
                proof {
                    let before = contents::contents(contents::entries_of(all.take(done)));
                    lemma_next_entry::<V, S>(all, done);
                    assert(iter.rest() =~= all.skip(done + 1));
                    lemma_with_value(actual@, *key, Some(byte));
                    assert(bytes_of(before.insert(*key, *value)) =~= bytes_of(before).insert(
                        *key,
                        byte,
                    ));
                    assert(model_map(actual@).contains_key(*key) == (actual@[*key as int] is Some));
                    assert(bytes_of(before).contains_key(*key) == before.contains_key(*key));
                    done = done + 1;
                }
                if actual[index].is_some() {
                    unique = false;
                }
                actual[index] = Some(byte);
            },
            None => {
                assert(all.take(done) =~= all);
                break;
            },
        }
    }
    (actual, unique)
}

/// The next of distinct entries has a new key.
proof fn lemma_next_entry<V, S: HashBuilder<u8>>(all: Seq<(u8, V)>, done: int)
    requires
        0 <= done < all.len(),
        contents::distinct(contents::entries_of(all)),
    ensures
        ({
            let before = contents::contents(contents::entries_of(all.take(done)));
            &&& !before.contains_key(all[done].0)
            &&& contents::contents(contents::entries_of(all.take(done + 1))) == before.insert(
                all[done].0,
                all[done].1,
            )
        }),
{
    lemma_byte_keys::<S>();
    let entries = contents::entries_of(all);
    let shorter = contents::entries_of(all.take(done));
    assert forall|i: int, j: int|
        shorter.contains_key(i) && shorter.contains_key(j) && i
            != j implies !#[trigger] contents::same_key(shorter[i].0, shorter[j].0) by {
        assert(!contents::same_key(entries[i].0, entries[j].0));
    }
    let before = contents::contents(shorter);
    if before.contains_key(all[done].0) {
        let i = contents::lemma_entry_of_key(shorter, all[done].0);
        assert(!contents::same_key(entries[i].0, entries[done].0));
    }
    lemma_has_byte(before, all[done].0);
    contents::lemma_add::<u8, V, S>(
        arbitrary::<S>(),
        shorter,
        done,
        all[done].0,
        all[done].1,
    );
    assert(shorter.insert(done, all[done]) =~= contents::entries_of(all.take(done + 1)));
}

/// Checks that a table contains what the model says, in every way that it can be looked at: its
/// entries, its length and capacity, and a lookup of each key.
pub fn assert_table_matches<V: ByteValue, S: HashBuilder<u8>>(
    read: Read<'_, u8, V, S>,
    model: &Model,
) -> (r: bool)
    requires
        read.table().wf(),
    ensures
        r == (bytes_of(read.table()@) == model_map(model@)),
{
    let expected = model_snapshot(model);
    let (actual, unique) = read_model(read);
    proof {
        lemma_same_model(actual@, model@);
        lemma_byte_keys::<S>();
        contents::lemma_contents_len(expected@);
        read.table().lemma_wf();
        assert(bytes_of(read.table()@).dom() =~= read.table()@.dom());
    }
    if !unique || !same_model(&actual, model) {
        return false;
    }
    if read.len() != expected.len() || read.capacity() < expected.len() {
        return false;
    }
    let mut key: usize = 0;
    while key < 256
        invariant
            key <= 256,
            read.table().wf(),
            bytes_of(read.table()@) == model_map(model@),
        decreases 256 - key,
    {
        proof {
            lemma_value_of(read.table()@, model@, key as u8);
        }
        if !lookups_agree(read, key as u8, model[key], model[key]) {
            return false;
        }
        key = key + 1;
    }
    true
}

/// The byte that the value of a key stands for, if it has one.
pub open spec fn value_of<V: ByteValue>(map: Map<u8, V>, key: u8) -> Option<u8> {
    if map.contains_key(key) {
        Some(map[key].as_byte())
    } else {
        None
    }
}

/// The value of a key is what the model says.
pub proof fn lemma_value_of<V: ByteValue>(map: Map<u8, V>, model: Seq<Option<u8>>, key: u8)
    requires
        bytes_of(map) == model_map(model),
    ensures
        value_of(map, key) == model[key as int],
        map.contains_key(key) == (model[key as int] is Some),
{
    assert(bytes_of(map).contains_key(key) == map.contains_key(key));
    assert(model_map(model).contains_key(key) == (model[key as int] is Some));
    if map.contains_key(key) {
        assert(bytes_of(map)[key] == map[key].as_byte());
        assert(model_map(model)[key] == model[key as int]->0);
    }
}

/// Looks up a key in three ways, and returns whether each gives one of the two values.
pub fn lookups_agree<V: ByteValue, S: HashBuilder<u8>>(
    read: Read<'_, u8, V, S>,
    key: u8,
    before: Option<u8>,
    after: Option<u8>,
) -> (r: bool)
    requires
        read.table().wf(),
    ensures
        r == (value_of(read.table()@, key) == before || value_of(read.table()@, key) == after),
{
    let hash: u64 = read.hash_key(&key);
    proof {
        lemma_byte_keys::<S>();
        lemma_has_byte(read.table()@, key);
    }
    let is_match = |candidate: &u8| -> (b: bool)
        ensures
            b == (*candidate == key),
    {
        *candidate == key
    };
    let eq = |candidate: &u8, _value: &V| -> (b: bool)
        ensures
            b == (*candidate == key),
    {
        *candidate == key
    };
    let current: Option<u8> = match read.get(&key, Some(hash)) {
        Some((_, value)) => Some(value.byte()),
        None => None,
    };
    let from_hash: Option<u8> = match read.get_from_hash(hash, is_match) {
        Some((_, value)) => Some(value.byte()),
        None => None,
    };
    let with_eq: Option<u8> = match read.get_with_eq(hash, eq) {
        Some((_, value)) => Some(value.byte()),
        None => None,
    };
    (current == before || current == after) && (from_hash == before || from_hash == after) && (
    with_eq == before || with_eq == after)
}

} // verus!

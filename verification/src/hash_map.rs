//! Functions to treat a table of pairs as a hash map.

use crate::contents;
use crate::util::{make_insert_hash, HashBuilder};
use vstd::prelude::*;
use vstd::std_specs::cmp::PartialEqSpec;

verus! {

/// Hashes the first element of a pair with the `hash_builder` passed.
/// This is useful to pass to table methods expecting a hash function.
pub fn hasher<K, V, S: HashBuilder<K>>(hash_builder: &S, val: &(K, V)) -> (r: u64)
    ensures
        r == hash_builder.hash_of(val.0),
{
    make_insert_hash(hash_builder, &val.0)
}

/// Returns a function comparing the first element of a pair with `key`.
/// This is useful to pass to table methods expecting an equality function.
pub fn eq<'a, K: Eq, V>(key: &'a K) -> (r: impl Fn(&(K, V)) -> bool + 'a)
    requires
        K::obeys_eq_spec(),
    ensures
        forall|x: &(K, V)| call_requires(r, (x,)),
        forall|x: &(K, V), b: bool| #[trigger]
            call_ensures(r, (x,), b) ==> b == contents::same_key(*key, x.0),
{
    move |x: &(K, V)| -> (b: bool)
        ensures
            b == contents::same_key(*key, x.0),
        { *key == x.0 }
}

} // verus!

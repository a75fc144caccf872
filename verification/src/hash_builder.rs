//! Hash builders for integer keys.

use crate::util::HashBuilder;
use std::collections::hash_map::{DefaultHasher, RandomState};
use std::hash::{BuildHasher, Hasher};
use vstd::bytes::{self, u64_to_le_bytes};
use vstd::prelude::*;
use vstd::std_specs::hash::DefaultHasherAdditionalSpecFns;

verus! {

/// [RandomState::new] makes a state with keys that are random, and differ from those of other states.
/// Nothing is claimed of them: they depend on chance.
#[verifier::external_body]
fn random_state() -> RandomState {
    RandomState::new()
}

/// [BuildHasher::hash_one] hashes an integer with the keys of a state. Which hash that is depends on
/// the keys, and so on chance: nothing is claimed of it.
#[verifier::external_body]
fn random_hash(state: &RandomState, key: u64) -> u64 {
    state.hash_one(key)
}

/// Hashes with the hash function of std's hash maps, and a seed. The seed is normally random, so that
/// keys with many collisions cannot be chosen in advance.
#[derive(Clone, Copy, Debug)]
pub struct DefaultHashBuilder {
    /// What is hashed before each key.
    pub seed: u64,
}

impl Default for DefaultHashBuilder {
    /// Takes a random seed.
    fn default() -> (r: Self) {
        DefaultHashBuilder { seed: random_hash(&random_state(), 0) }
    }
}

impl HashBuilder<u64> for DefaultHashBuilder {
    open spec fn hash_of(&self, key: u64) -> u64 {
        DefaultHasher::spec_finish(
            seq![bytes::spec_u64_to_le_bytes(self.seed), bytes::spec_u64_to_le_bytes(key)],
        )
    }

    fn hash_one(&self, key: &u64) -> (r: u64) {
        let mut hasher = DefaultHasher::new();
        hasher.write(u64_to_le_bytes(self.seed).as_slice());
        hasher.write(u64_to_le_bytes(*key).as_slice());
        assert(hasher@ =~= seq![
            bytes::spec_u64_to_le_bytes(self.seed),
            bytes::spec_u64_to_le_bytes(*key),
        ]);
        hasher.finish()
    }
}

/// Uses a key as its own hash.
#[derive(Clone, Copy, Debug)]
pub struct IdentityHashBuilder;

impl Default for IdentityHashBuilder {
    fn default() -> (r: Self) {
        IdentityHashBuilder
    }
}

impl HashBuilder<u64> for IdentityHashBuilder {
    open spec fn hash_of(&self, key: u64) -> u64 {
        key
    }

    fn hash_one(&self, key: &u64) -> (r: u64) {
        *key
    }
}

/// The hash of a key is the key, whichever it is.
pub proof fn an_identity_hash_is_the_key(builder: IdentityHashBuilder, key: u64)
    ensures
        builder.hash_of(key) == key,
{
}

/// A hash depends on the seed and the key only: the bytes of the seed are hashed, and then those of the
/// key.
pub proof fn a_hash_is_that_of_the_seed_and_the_key(builder: DefaultHashBuilder, key: u64)
    ensures
        builder.hash_of(key) == DefaultHasher::spec_finish(
            Seq::<Seq<u8>>::empty().push(bytes::spec_u64_to_le_bytes(builder.seed)).push(
                bytes::spec_u64_to_le_bytes(key),
            ),
        ),
{
    assert(Seq::<Seq<u8>>::empty().push(bytes::spec_u64_to_le_bytes(builder.seed)).push(
        bytes::spec_u64_to_le_bytes(key),
    ) =~= seq![bytes::spec_u64_to_le_bytes(builder.seed), bytes::spec_u64_to_le_bytes(key)]);
}

} // verus!

//! Keys: how a key is hashed and compared.

use std::collections::hash_map::DefaultHasher;
use std::hash::{Hash, Hasher};
use vstd::prelude::*;
use vstd::std_specs::hash::DefaultHasherAdditionalSpecFns;

verus! {

/// What `<String as Hash>::hash` writes into a hasher for a string.
pub uninterp spec fn string_hash_writes(s: Seq<char>) -> Seq<Seq<u8>>;

/// Relies on `<String as Hash>::hash`: the writes it makes into the hasher
/// depend on the characters of the string alone.
#[verifier::external_body]
fn feed_string(s: &String, state: &mut DefaultHasher)
    ensures
        final(state)@ == old(state)@ + string_hash_writes(s@),
{
    s.hash(state)
}

/// A key the index can store: it has a deterministic 64-bit hash, and two
/// keys are equal when their views are.
pub trait HashKey: View + Sized {
    /// The hash of a key, as a function of its view.
    spec fn spec_hash(k: Self::V) -> u64;

    fn hash_code(&self) -> (r: u64)
        ensures
            r == Self::spec_hash(self@),
    ;

    fn key_eq(&self, other: &Self) -> (r: bool)
        ensures
            r == (self@ == other@),
    ;
}

impl HashKey for String {
    open spec fn spec_hash(k: Seq<char>) -> u64 {
        DefaultHasher::spec_finish(string_hash_writes(k))
    }

    /// The digest of a fresh `DefaultHasher` fed with the string.
    fn hash_code(&self) -> (r: u64) {
        let mut hasher = DefaultHasher::new();
        feed_string(self, &mut hasher);
        proof {
            assert(Seq::<Seq<u8>>::empty() + string_hash_writes(self@) =~= string_hash_writes(self@));
        }
        hasher.finish()
    }

    fn key_eq(&self, other: &Self) -> (r: bool) {
        <String as PartialEq>::eq(self, other)
    }
}

} // verus!

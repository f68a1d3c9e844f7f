//! Fast string hashing for the id maps and the interner.

use vstd::prelude::*;
use std::hash::Hash;
use std::hash::Hasher;

verus! {

/// What the fast hasher returns for a string's characters.
pub uninterp spec fn fx_hash_of(s: Seq<char>) -> u64;

/// Relies on rustc_hash::FxHasher: a polynomial hash of the input bytes,
/// seeded with zero, so the result depends on the string alone for a given
/// build target.
#[verifier::external_body]
pub fn fx_hash_str(s: &str) -> (r: u64)
    ensures
        r == fx_hash_of(s@),
{
    let mut hasher = rustc_hash::FxHasher::default();
    s.hash(&mut hasher);
    hasher.finish()
}

} // verus!

//! The `Shuffler` trait and the one error a shuffler can report.

use vstd::prelude::*;

verus! {

/// The single failure kind: the random source did not yield distinguishing
/// bits within the engine's round bound, so the permutation could not be
/// validated as fully mixed.
#[derive(Debug, PartialEq, Eq, Structural)]
pub enum ShuffleError {
    RandomnessInadequate,
}

/// Algorithms that permute a sequence in place, drawing randomness from a
/// caller-supplied generator.
///
/// Every implementation guarantees that the data it leaves behind is a
/// permutation of the data it was given — the same multiset of elements —
/// whether or not the call succeeds, and that sequences of length zero or
/// one are always shuffled successfully and left unchanged.
pub trait Shuffler<T> {
    fn shuffle<R: rand::RngCore + ?Sized>(
        &mut self,
        data: &mut Vec<T>,
        rng: &mut R,
    ) -> (r: Result<(), ShuffleError>) where T: Copy
        ensures
            final(data)@.to_multiset() == old(data)@.to_multiset(),
            final(data)@.len() == old(data)@.len(),
            old(data)@.len() <= 1 ==> (r is Ok && final(data)@ == old(data)@),
    ;
}

} // verus!

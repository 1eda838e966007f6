//! Shuffling algorithms driven by a caller-supplied source of random bits.
//!
//! The centre of the crate is the inverse riffle shuffle ([`irs::Irs`]): a
//! round-based algorithm that assigns each element one random bit per round,
//! stably partitions by that bit, and stops once the accumulated bit
//! histories are pairwise distinct.  A Fisher-Yates shuffler
//! ([`fy::FisherYates`]) is provided as a simpler point of comparison.
//! Both implement the [`shuffler::Shuffler`] trait and are proved to return
//! a permutation of their input.

pub mod fy;
pub mod irs;
pub mod perm;
pub mod shuffler;

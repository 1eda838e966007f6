//! The Fisher-Yates shuffle, as a point of comparison with the inverse
//! riffle shuffle: it needs a bounded random integer per step rather than a
//! plain stream of bits.

use vstd::prelude::*;
use rand::Rng;
use rand::RngCore;

verus! {

use crate::perm::lemma_swap_multiset;
use crate::shuffler::ShuffleError;
use crate::shuffler::Shuffler;

/// Relies on rand::Rng::gen_range over `0..bound`: it returns a value of
/// that range, and panics only when the range is empty, which the
/// precondition rules out.
#[verifier::external_body]
fn gen_index<R: RngCore + ?Sized>(rng: &mut R, bound: usize) -> (r: usize)
    requires
        bound >= 1,
    ensures
        r < bound,
{
    rng.gen_range(0..bound)
}

/// The Fisher-Yates shuffler.  It keeps no state between calls.
#[derive(Debug, Default)]
pub struct FisherYates {
}

impl<T> Shuffler<T> for FisherYates {
    fn shuffle<R: RngCore + ?Sized>(
        &mut self,
        data: &mut Vec<T>,
        rng: &mut R,
    ) -> (r: Result<(), ShuffleError>) where T: Copy
        ensures
            r is Ok,
    {
        let mut i: usize = data.len();
        while i > 1
            invariant
                i <= data@.len(),
                data@.len() == old(data)@.len(),
                data@.to_multiset() == old(data)@.to_multiset(),
                old(data)@.len() <= 1 ==> data@ == old(data)@,
            decreases i,
        {
            i = i - 1;
            let j = gen_index(rng, i + 1);
            let a = data[i];
            let b = data[j];
            let ghost prev = data@;
            data.set(i, b);
            data.set(j, a);
            proof {
                lemma_swap_multiset(prev, i as int, j as int);
            }
        }
        Ok(())
    }
}

} // verus!

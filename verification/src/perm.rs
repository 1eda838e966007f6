//! Lemmas relating sequences to their multisets of elements.
//!
//! The shuffle contracts state the permutation property as multiset
//! equality between the sequence before and after a call; the proofs walk
//! through element writes, so they need the effect of `update` and of
//! concatenation on `to_multiset`.

use vstd::prelude::*;

verus! {

use vstd::seq_lib::group_to_multiset_ensures;
use vstd::seq_lib::lemma_multiset_commutative;
use vstd::multiset::group_multiset_axioms;
use vstd::multiset::Multiset;

/// Swapping two entries of a sequence leaves its multiset of elements
/// unchanged.
pub proof fn lemma_swap_multiset<T>(s: Seq<T>, i: int, j: int)
    requires
        0 <= i < s.len(),
        0 <= j < s.len(),
    ensures
        s.update(i, s[j]).update(j, s[i]).to_multiset() == s.to_multiset(),
{
    broadcast use group_to_multiset_ensures, group_multiset_axioms;

    let a = s[i];
    let b = s[j];
    let s1 = s.update(i, b);
    let t = s1.update(j, a);
    if i == j {
        assert(t =~= s);
        assert(t.to_multiset() =~= s.to_multiset());
    } else {
        assert(s.contains(a)) by {
            assert(s[i] == a);
        }
        assert(s.contains(b)) by {
            assert(s[j] == b);
        }
        assert(s1[j] == b);
        assert(s1.to_multiset() == s.to_multiset().insert(b).remove(a));
        assert(t.to_multiset() == s1.to_multiset().insert(a).remove(b));
        assert(t.to_multiset() =~= s.to_multiset()) by {
            assert(forall|x: T|
                #![trigger t.to_multiset().count(x)]
                t.to_multiset().count(x) == s.to_multiset().count(x)) by {
                assert(s.to_multiset().count(a) > 0);
                assert(s.to_multiset().count(b) > 0);
            }
        }
    }
}

/// Two one-element sequences with the same multiset are the same sequence.
pub proof fn lemma_singleton_multiset_eq<T>(a: Seq<T>, b: Seq<T>)
    requires
        a.len() == 1,
        b.len() == 1,
        a.to_multiset() == b.to_multiset(),
    ensures
        a == b,
{
    broadcast use group_to_multiset_ensures, group_multiset_axioms;

    assert(b.contains(b[0])) by {
        assert(b[0] == b[0]);
    }
    assert(a.to_multiset().count(b[0]) > 0);
    assert(a.contains(b[0]));
    let k = choose|k: int| 0 <= k < a.len() && a[k] == b[0];
    assert(k == 0);
    assert(a =~= b);
}

/// Prepending one element to a sequence inserts it into the multiset.
pub proof fn lemma_cons_multiset<T>(x: T, s: Seq<T>)
    ensures
        (seq![x] + s).to_multiset() == s.to_multiset().insert(x),
{
    broadcast use group_to_multiset_ensures, group_multiset_axioms;

    assert(seq![x] + s =~= s.insert(0, x));
}

/// Prepending one element to the left part of a concatenation inserts that
/// element into the multiset of the whole concatenation.
pub proof fn lemma_prepend_left_multiset<T>(x: T, a: Seq<T>, b: Seq<T>)
    ensures
        ((seq![x] + a) + b).to_multiset() == (a + b).to_multiset().insert(x),
{
    broadcast use group_to_multiset_ensures, group_multiset_axioms;

    lemma_multiset_commutative(seq![x] + a, b);
    lemma_multiset_commutative(seq![x], a);
    lemma_multiset_commutative(a, b);
    assert(seq![x].to_multiset() =~= Multiset::empty().insert(x)) by {
        assert(seq![x] =~= Seq::empty().push(x));
        assert(Seq::<T>::empty().to_multiset() =~= Multiset::empty()) by {
            assert(Seq::<T>::empty().to_multiset().len() == 0);
        }
    }
    assert(((seq![x] + a) + b).to_multiset() =~= (a + b).to_multiset().insert(x));
}

/// Prepending one element to the right part of a concatenation inserts that
/// element into the multiset of the whole concatenation.
pub proof fn lemma_prepend_right_multiset<T>(x: T, a: Seq<T>, b: Seq<T>)
    ensures
        (a + (seq![x] + b)).to_multiset() == (a + b).to_multiset().insert(x),
{
    broadcast use group_to_multiset_ensures, group_multiset_axioms;

    lemma_multiset_commutative(a, seq![x] + b);
    lemma_prepend_left_multiset(x, b, Seq::empty());
    assert(seq![x] + b + Seq::empty() =~= seq![x] + b);
    assert(b + Seq::<T>::empty() =~= b);
    lemma_multiset_commutative(a, b);
    assert((a + (seq![x] + b)).to_multiset() =~= (a + b).to_multiset().insert(x));
}

} // verus!

//! The shuffled sweep order.
//!
//! The sequential relaxation visits the pair list in a fresh uniformly
//! random order on every sweep; the order carries no meaning beyond
//! decorrelating update bias, so all that is stated of it is that it is a
//! permutation of the pair indices. The randomness comes from a
//! caller-supplied seedable generator, so runs are reproducible.

use rand::seq::SliceRandom;
use vstd::prelude::*;

verus! {

/// Relies on rand's `StdRng`: the seedable generator the caller supplies.
/// The type is opaque here; it is only threaded through to the shuffle.
#[verifier::external_type_specification]
#[verifier::external_body]
pub struct ExStdRng(rand::rngs::StdRng);

/// Relies on rand's `SliceRandom::shuffle`: a Fisher-Yates shuffle that
/// permutes the slice in place by swaps, so the entries and the length are
/// kept; which permutation comes out depends on the generator's state, so
/// nothing more is stated.
#[verifier::external_body]
fn shuffle_indices(v: &mut Vec<usize>, rng: &mut rand::rngs::StdRng)
    ensures
        final(v)@.len() == old(v)@.len(),
        final(v)@.to_multiset() == old(v)@.to_multiset(),
{
    v.shuffle(rng)
}

/// The pair indices `0 .. num_pairs` in ascending order.
pub open spec fn identity_order(num_pairs: nat) -> Seq<usize> {
    Seq::new(num_pairs, |p: int| p as usize)
}

/// A uniformly shuffled visiting order over `num_pairs` pair indices: a
/// permutation of `0 .. num_pairs`, drawn from the caller's generator.
pub fn sweep_order(num_pairs: usize, rng: &mut rand::rngs::StdRng) -> (order: Vec<usize>)
    ensures
        order@.len() == num_pairs,
        order@.to_multiset() == identity_order(num_pairs as nat).to_multiset(),
        forall|p: int| 0 <= p < order@.len() ==> (#[trigger] order@[p]) < num_pairs,
        forall|k: usize| k < num_pairs ==> order@.contains(k),
{
    let mut order: Vec<usize> = Vec::new();
    let mut t: usize = 0;
    while t < num_pairs
        invariant
            t <= num_pairs,
            order@ =~= identity_order(t as nat),
        decreases num_pairs - t,
    {
        order.push(t);
        t = t + 1;
        proof {
            assert(order@ =~= identity_order(t as nat));
        }
    }
    assert(order@ =~= identity_order(num_pairs as nat));
    shuffle_indices(&mut order, rng);
    proof {
        broadcast use vstd::seq_lib::group_to_multiset_ensures;

        let ident = identity_order(num_pairs as nat);
        assert forall|p: int| 0 <= p < order@.len() implies (#[trigger] order@[p]) < num_pairs by {
            let x = order@[p];
            assert(order@.contains(x));
            assert(ident.to_multiset().count(x) > 0);
            assert(ident.contains(x));
            let q = choose|q: int| 0 <= q < ident.len() && ident[q] == x;
        };
        assert forall|k: usize| k < num_pairs implies order@.contains(k) by {
            assert(ident[k as int] == k);
            assert(ident.contains(k));
            assert(order@.to_multiset().count(k) > 0);
        };
    }
    order
}

} // verus!

//! The two circuits as checks of their witnesses: what a prover must hold
//! for a proof of inclusion and for a proof of solvency to exist.

use vstd::prelude::*;
use crate::encoding::amounts;
use crate::hash::DIGEST_LEN;
use crate::node::NodeView;

pub mod inclusion;
pub mod solvency;

verus! {

/// Why a circuit could not be given its witness.
#[derive(Clone, Copy, Debug, PartialEq, Eq, Structural)]
pub enum CircuitError {
    /// The tree was not built with the shape of the circuit.
    ShapeMismatch,
    /// There is no leaf at the index.
    IndexOutOfRange,
    /// There is not one claimed reserve per asset.
    ReservesCountMismatch,
}

/// The digest of zeros that stands in for a real digest where only the
/// shape of a circuit matters.
pub open spec fn placeholder_digest() -> Seq<u8> {
    Seq::new(DIGEST_LEN as nat, |i: int| 0u8)
}

/// The node of zeros that stands in for a real node.
pub open spec fn placeholder_node(n_assets: nat) -> NodeView {
    NodeView { hash: placeholder_digest(), sums: Seq::new(n_assets, |i: int| 0nat) }
}

/// A vector of `n` zero amounts.
pub fn zero_amounts(n: usize) -> (zeros: Vec<u128>)
    ensures
        zeros@.len() == n,
        forall|i: int| 0 <= i < n ==> zeros@[i] == 0,
        amounts(zeros@) == Seq::new(n as nat, |i: int| 0nat),
{
    let mut zeros: Vec<u128> = Vec::new();
    let mut i: usize = 0;
    while i < n
        invariant
            i <= n,
            zeros@.len() == i,
            forall|j: int| 0 <= j < i ==> zeros@[j] == 0,
        decreases n - i,
    {
        zeros.push(0);
        i = i + 1;
    }
    proof {
        assert(amounts(zeros@) =~= Seq::new(n as nat, |i: int| 0nat));
    }
    zeros
}

/// A digest of zeros.
pub fn zero_digest() -> (zeros: Vec<u8>)
    ensures
        zeros@ == placeholder_digest(),
{
    let mut zeros: Vec<u8> = Vec::new();
    let mut i: usize = 0;
    while i < DIGEST_LEN
        invariant
            i <= DIGEST_LEN,
            zeros@.len() == i,
            forall|j: int| 0 <= j < i ==> zeros@[j] == 0,
        decreases DIGEST_LEN - i,
    {
        zeros.push(0);
        i = i + 1;
    }
    proof {
        assert(zeros@ =~= placeholder_digest());
    }
    zeros
}

} // verus!

//! The solvency circuit: the liabilities that the root commits to do not
//! exceed the claimed reserves, asset by asset.
//!
//! The root is bound to its public digest by hashing the two nodes below
//! it inside the circuit: they are the private witness, and the root's
//! sums are never taken on trust.

use vstd::prelude::*;
use crate::circuits::{
    placeholder_digest,
    placeholder_node,
    zero_amounts,
    zero_digest,
    CircuitError,
};
use crate::encoding::{amounts, bytes_equal, encode_instance, instance_words};
use crate::entry::{all_within, copy_amounts};
use crate::hash::DIGEST_LEN;
use crate::merkle_sum_tree::MerkleSumTree;
use crate::node::{parent_node, Node, NodeView};
use crate::shape::Shape;

verus! {

/// The node is well-formed: its digest has the length of a digest, and it
/// has one sum per asset, each within the byte width.
pub open spec fn node_fits(node: NodeView, shape: Shape) -> bool {
    &&& node.hash.len() == DIGEST_LEN
    &&& node.sums.len() == shape.n_assets
    &&& node.in_range(shape.spec_max_amount())
}

/// The reserves cover the liabilities: for every asset the claimed reserve
/// is at least the liability, and exceeds it by no more than the byte width
/// can hold.
pub open spec fn reserves_cover(liabilities: Seq<nat>, reserves: Seq<nat>, max: nat) -> bool {
    &&& reserves.len() == liabilities.len()
    &&& forall|asset: int|
        0 <= asset < liabilities.len() ==> liabilities[asset] <= #[trigger] reserves[asset]
            <= liabilities[asset] + max
}

/// The constraints of the solvency circuit. The two nodes below the root
/// fit the shape, the root over them keeps its sums within the byte width
/// and has the public digest, and the claimed reserves cover its sums.
pub open spec fn solvency_satisfied(
    shape: Shape,
    left: NodeView,
    right: NodeView,
    root_hash: Seq<u8>,
    reserves: Seq<nat>,
) -> bool {
    &&& shape.valid()
    &&& node_fits(left, shape)
    &&& node_fits(right, shape)
    &&& parent_node(left, right).in_range(shape.spec_max_amount())
    &&& parent_node(left, right).hash == root_hash
    &&& reserves_cover(parent_node(left, right).sums, reserves, shape.spec_max_amount())
}

/// The solvency circuit of one shape, with its private witness (the two
/// nodes below the root) and its public instance (the root's digest and
/// the claimed reserves).
#[derive(Clone, Debug, PartialEq, Eq)]
pub struct SolvencyCircuit {
    pub shape: Shape,
    pub left: Node,
    pub right: Node,
    pub root_hash: Vec<u8>,
    pub claimed_reserves: Vec<u128>,
}

/// Whether every reserve is at least the liability of its asset and
/// exceeds it by no more than `max`.
pub fn covers(liabilities: &Vec<u128>, reserves: &Vec<u128>, max: u128) -> (ok: bool)
    ensures
        ok == reserves_cover(amounts(liabilities@), amounts(reserves@), max as nat),
{
    if reserves.len() != liabilities.len() {
        return false;
    }
    let mut i: usize = 0;
    while i < liabilities.len()
        invariant
            i <= liabilities@.len(),
            reserves@.len() == liabilities@.len(),
            forall|j: int|
                0 <= j < i ==> liabilities@[j] <= #[trigger] reserves@[j] <= liabilities@[j] + max,
        decreases liabilities@.len() - i,
    {
        let owed: u128 = liabilities[i];
        let held: u128 = reserves[i];
        if held < owed || held - owed > max {
            proof {
                let l = amounts(liabilities@);
                let r = amounts(reserves@);
                assert(!(l[i as int] <= r[i as int] <= l[i as int] + max));
            }
            return false;
        }
        i = i + 1;
    }
    proof {
        let l = amounts(liabilities@);
        let r = amounts(reserves@);
        assert forall|asset: int| 0 <= asset < l.len() implies l[asset] <= #[trigger] r[asset]
            <= l[asset] + max by {
            assert(liabilities@[asset] <= reserves@[asset] <= liabilities@[asset] + max);
        }
    }
    true
}

/// Whether the node has a digest of full length and `n_assets` sums, none
/// above `max`.
pub fn node_is_fit(node: &Node, shape: &Shape) -> (ok: bool)
    requires
        shape.valid(),
    ensures
        ok == node_fits(node@, *shape),
{
    let max = shape.max_amount();
    let within = all_within(&node.sums, max);
    proof {
        assert(node@.sums.len() == node.sums@.len());
        if within {
            assert forall|a: int| 0 <= a < node@.sums.len() implies node@.sums[a] <= max by {
                assert(node.sums@[a] <= max);
            }
        } else {
            let a = choose|a: int| 0 <= a < node.sums@.len() && !(node.sums@[a] <= max);
            assert(node@.sums[a] > max);
        }
    }
    node.hash.len() == DIGEST_LEN && node.sums.len() == shape.n_assets && within
}

impl SolvencyCircuit {
    /// The witness satisfies the constraints under the public instance.
    pub open spec fn satisfied(&self) -> bool {
        solvency_satisfied(
            self.shape,
            self.left@,
            self.right@,
            self.root_hash@,
            amounts(self.claimed_reserves@),
        )
    }

    /// The circuit of the given shape with placeholders for witness and
    /// instance, from which the keys are derived.
    pub fn init_empty(shape: Shape) -> (circuit: Self)
        ensures
            circuit.shape == shape,
            circuit.left@ == placeholder_node(shape.n_assets as nat),
            circuit.right@ == placeholder_node(shape.n_assets as nat),
            circuit.root_hash@ == placeholder_digest(),
            circuit.claimed_reserves@.len() == shape.n_assets,
            forall|i: int| 0 <= i < shape.n_assets ==> circuit.claimed_reserves@[i] == 0,
    {
        let n = shape.n_assets;
        SolvencyCircuit {
            shape,
            left: Node {
                hash: zero_digest(),
                sums: zero_amounts(n),
            },
            right: Node {
                hash: zero_digest(),
                sums: zero_amounts(n),
            },
            root_hash: zero_digest(),
            claimed_reserves: zero_amounts(n),
        }
    }

    /// The circuit of the given shape for `tree` and the claimed reserves:
    /// the witness is the two nodes below the tree's root, the instance is
    /// the root's digest and the claim. The claim is not judged here: a
    /// claim that does not cover the liabilities gives a circuit that is
    /// not satisfied.
    pub fn init(shape: Shape, tree: &MerkleSumTree, claimed_reserves: &Vec<u128>) -> (result:
        Result<Self, CircuitError>)
        ensures
            match result {
                Ok(circuit) => {
                    &&& shape == tree@.shape
                    &&& claimed_reserves@.len() == shape.n_assets
                    &&& circuit.shape == shape
                    &&& parent_node(circuit.left@, circuit.right@) == tree@.root()
                    &&& circuit.root_hash@ == tree@.root().hash
                    &&& circuit.root_hash@.len() == DIGEST_LEN
                    &&& circuit.claimed_reserves@ == claimed_reserves@
                    &&& circuit.satisfied() <==> reserves_cover(
                        tree@.root().sums,
                        amounts(claimed_reserves@),
                        shape.spec_max_amount(),
                    )
                },
                Err(CircuitError::ShapeMismatch) => shape != tree@.shape,
                Err(CircuitError::ReservesCountMismatch) => shape == tree@.shape
                    && claimed_reserves@.len() != shape.n_assets,
                Err(CircuitError::IndexOutOfRange) => false,
            },
    {
        let tree_shape = tree.shape();
        if shape.levels != tree_shape.levels || shape.n_assets != tree_shape.n_assets
            || shape.n_bytes != tree_shape.n_bytes {
            return Err(CircuitError::ShapeMismatch);
        }
        if claimed_reserves.len() != shape.n_assets {
            return Err(CircuitError::ReservesCountMismatch);
        }
        let root = tree.root();
        let children = tree.root_children();
        let left = children.0.duplicate();
        let right = children.1.duplicate();
        proof {
            assert(left@.sums.len() == left.sums@.len());
            assert(right@.sums.len() == right.sums@.len());
        }
        Ok(
            SolvencyCircuit {
                shape,
                left,
                right,
                root_hash: crate::entry::copy_bytes(&root.hash),
                claimed_reserves: copy_amounts(claimed_reserves),
            },
        )
    }

    /// The public instance in the order in which a verifier takes it: the
    /// root's digest first, then the claimed reserves as words of 32 bytes,
    /// in the order of the assets.
    pub fn instances(&self) -> (words: Vec<Vec<u8>>)
        ensures
            words.deep_view() == instance_words(self.root_hash@, self.claimed_reserves@),
    {
        encode_instance(&self.root_hash, &self.claimed_reserves)
    }

    /// Whether the witness satisfies the constraints under the public
    /// instance, so that a proof can be made.
    pub fn is_satisfied(&self) -> (ok: bool)
        ensures
            ok == self.satisfied(),
            ok ==> self.root_hash@.len() == DIGEST_LEN && self.claimed_reserves@.len()
                == self.shape.n_assets,
    {
        if !self.shape.is_valid() {
            return false;
        }
        let max = self.shape.max_amount();
        if !node_is_fit(&self.left, &self.shape) || !node_is_fit(&self.right, &self.shape) {
            return false;
        }
        proof {
            assert(self.left@.sums.len() == self.left.sums@.len());
            assert(self.right@.sums.len() == self.right.sums@.len());
        }
        match Node::parent(&self.left, &self.right, max) {
            None => false,
            Some(root) => bytes_equal(&root.hash, &self.root_hash) && covers(
                &root.sums,
                &self.claimed_reserves,
                max,
            ),
        }
    }
}

} // verus!

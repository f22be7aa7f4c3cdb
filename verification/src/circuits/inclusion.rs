//! The inclusion circuit: an entry is a leaf of the committed tree, and
//! the sums on the way to the root are those that the root commits to.

use vstd::prelude::*;
use vstd::arithmetic::power2::lemma_pow2_unfold;
use crate::circuits::{
    placeholder_digest,
    placeholder_node,
    zero_amounts,
    zero_digest,
    CircuitError,
};
use crate::encoding::{amounts, amounts_equal, bytes_equal, encode_instance, instance_words};
use crate::entry::{all_within, Entry, EntryView};
use crate::hash::DIGEST_LEN;
use crate::merkle_sum_tree::{lemma_nodes_in_range, MerkleSumTree, TreeView};
use crate::node::{leaf_node, Node, NodeView};
use crate::path::PathStep;
use crate::shape::Shape;
use crate::tree_model::{
    ancestor,
    climb,
    lemma_ancestor_in_level,
    lemma_climb_reaches_ancestor,
    lemma_path_leads_to_root,
    merkle_path,
    sibling_of,
    step_up,
    StepView,
};

verus! {

/// The step is well-formed: its direction is a bit, its digest has the
/// length of a digest, and it has one sum per asset, each within the byte
/// width.
pub open spec fn step_fits(step: StepView, shape: Shape) -> bool {
    &&& step.direction <= 1
    &&& step.sibling.hash.len() == DIGEST_LEN
    &&& step.sibling.sums.len() == shape.n_assets
    &&& step.sibling.in_range(shape.spec_max_amount())
}

/// The constraints of the inclusion circuit. The entry and every step fit
/// the shape, there is one step per level, every node on the way keeps its
/// sums within the byte width, and the way ends in `root`, digest and sums.
pub open spec fn inclusion_satisfied(
    shape: Shape,
    entry: EntryView,
    path: Seq<StepView>,
    root: NodeView,
) -> bool {
    &&& shape.valid()
    &&& entry.fits(shape)
    &&& path.len() == shape.levels
    &&& forall|k: int| 0 <= k < path.len() ==> step_fits(#[trigger] path[k], shape)
    &&& forall|k: int|
        1 <= k <= path.len() ==> (#[trigger] climb(leaf_node(entry), path.take(k))).in_range(
            shape.spec_max_amount(),
        )
    &&& climb(leaf_node(entry), path) == root
}

/// The witness that stands in for real data where only the shape matters:
/// the entry without identifier and balances of zero.
pub open spec fn placeholder_entry(n_assets: nat) -> EntryView {
    EntryView { id: Seq::empty(), balances: Seq::new(n_assets, |i: int| 0nat) }
}

/// The step that stands in for a real step: a sibling of zeros, on the
/// right.
pub open spec fn placeholder_step(n_assets: nat) -> StepView {
    StepView { sibling: placeholder_node(n_assets), direction: 0 }
}

/// The inclusion circuit of one shape, with its private witness (an entry
/// and its path) and its public instance (the root's digest and sums).
#[derive(Clone, Debug, PartialEq, Eq)]
pub struct MstInclusionCircuit {
    pub shape: Shape,
    pub entry: Entry,
    pub path: Vec<PathStep>,
    pub root_hash: Vec<u8>,
    pub root_sums: Vec<u128>,
}

impl MstInclusionCircuit {
    /// The public instance as a node: the root that the proof is held
    /// against.
    pub open spec fn root(&self) -> NodeView {
        NodeView { hash: self.root_hash@, sums: amounts(self.root_sums@) }
    }

    /// The witness satisfies the constraints under the public instance.
    pub open spec fn satisfied(&self) -> bool {
        inclusion_satisfied(self.shape, self.entry@, self.path.deep_view(), self.root())
    }

    /// The circuit of the given shape with placeholders for witness and
    /// instance, from which the keys are derived.
    pub fn init_empty(shape: Shape) -> (circuit: Self)
        ensures
            circuit.shape == shape,
            circuit.entry@ == placeholder_entry(shape.n_assets as nat),
            circuit.path.deep_view() == Seq::new(
                shape.levels as nat,
                |k: int| placeholder_step(shape.n_assets as nat),
            ),
            circuit.root_hash@ == placeholder_digest(),
            circuit.root_sums@.len() == shape.n_assets,
            forall|i: int| 0 <= i < shape.n_assets ==> circuit.root_sums@[i] == 0,
    {
        let mut path: Vec<PathStep> = Vec::new();
        let mut k: usize = 0;
        while k < shape.levels
            invariant
                k <= shape.levels,
                path@.len() == k,
                forall|j: int|
                    0 <= j < k ==> (#[trigger] path@[j])@ == placeholder_step(
                        shape.n_assets as nat,
                    ),
            decreases shape.levels - k,
        {
            let sibling = Node { hash: zero_digest(), sums: zero_amounts(shape.n_assets) };
            path.push(PathStep { sibling, direction: 0 });
            k = k + 1;
        }
        let entry = Entry { id: String::new(), balances: zero_amounts(shape.n_assets) };
        let circuit = MstInclusionCircuit {
            shape,
            entry,
            path,
            root_hash: zero_digest(),
            root_sums: zero_amounts(shape.n_assets),
        };
        proof {
            assert(circuit.path.deep_view() =~= Seq::new(
                shape.levels as nat,
                |k: int| placeholder_step(shape.n_assets as nat),
            ));
        }
        circuit
    }

    /// The circuit of the given shape for the leaf at `leaf_index` of
    /// `tree`: the witness is that leaf's entry and path, the instance is
    /// the tree's root.
    pub fn init(shape: Shape, tree: &MerkleSumTree, leaf_index: usize) -> (result: Result<
        Self,
        CircuitError,
    >)
        ensures
            match result {
                Ok(circuit) => {
                    &&& shape == tree@.shape
                    &&& leaf_index < shape.spec_capacity()
                    &&& circuit.shape == shape
                    &&& circuit.entry@ == tree@.entries[leaf_index as int]
                    &&& circuit.path.deep_view() == merkle_path(
                        tree@.leaves(),
                        shape.levels as nat,
                        leaf_index as int,
                    )
                    &&& circuit.root() == tree@.root()
                    &&& circuit.root_hash@.len() == DIGEST_LEN
                    &&& circuit.root_sums@.len() == shape.n_assets
                    &&& circuit.satisfied()
                },
                Err(CircuitError::ShapeMismatch) => shape != tree@.shape,
                Err(CircuitError::IndexOutOfRange) => shape == tree@.shape && leaf_index
                    >= shape.spec_capacity(),
                Err(CircuitError::ReservesCountMismatch) => false,
            },
    {
        let tree_shape = tree.shape();
        if shape.levels != tree_shape.levels || shape.n_assets != tree_shape.n_assets
            || shape.n_bytes != tree_shape.n_bytes {
            return Err(CircuitError::ShapeMismatch);
        }
        let path = match tree.path(leaf_index) {
            Ok(path) => path,
            Err(_) => {
                return Err(CircuitError::IndexOutOfRange);
            },
        };
        let entry = tree.entry(leaf_index).duplicate();
        let root = tree.root().duplicate();
        let circuit = MstInclusionCircuit {
            shape,
            entry,
            path,
            root_hash: root.hash,
            root_sums: root.sums,
        };
        proof {
            lemma_real_witness_satisfies(tree@, leaf_index as int, circuit.path.deep_view());
        }
        Ok(circuit)
    }

    /// The public instance in the order in which a verifier takes it: the
    /// root's digest first, then the root's sums as words of 32 bytes, in
    /// the order of the assets.
    pub fn instances(&self) -> (words: Vec<Vec<u8>>)
        ensures
            words.deep_view() == instance_words(self.root_hash@, self.root_sums@),
    {
        encode_instance(&self.root_hash, &self.root_sums)
    }

    /// Whether the witness satisfies the constraints under the public
    /// instance, so that a proof can be made.
    pub fn is_satisfied(&self) -> (ok: bool)
        ensures
            ok == self.satisfied(),
            ok ==> self.root_hash@.len() == DIGEST_LEN && self.root_sums@.len()
                == self.shape.n_assets,
    {
        if !self.shape.is_valid() {
            return false;
        }
        let max = self.shape.max_amount();
        if !self.entry.fits(&self.shape) {
            return false;
        }
        if self.path.len() != self.shape.levels {
            return false;
        }
        let ghost leaf = leaf_node(self.entry@);
        let ghost path = self.path.deep_view();
        let mut current = Node::leaf(&self.entry);
        let mut k: usize = 0;
        proof {
            assert(path.take(0) =~= Seq::<StepView>::empty());
            assert(current@.sums.len() == current.sums@.len());
        }
        while k < self.path.len()
            invariant
                self.shape.valid(),
                max == self.shape.spec_max_amount(),
                leaf == leaf_node(self.entry@),
                path == self.path.deep_view(),
                path.len() == self.path@.len(),
                k <= self.path@.len(),
                current@ == climb(leaf, path.take(k as int)),
                current.sums@.len() == self.shape.n_assets,
                current.hash@.len() == DIGEST_LEN,
                forall|j: int| 0 <= j < k ==> step_fits(#[trigger] path[j], self.shape),
                forall|j: int|
                    1 <= j <= k ==> (#[trigger] climb(leaf, path.take(j))).in_range(max as nat),
            decreases self.path@.len() - k,
        {
            let step = &self.path[k];
            proof {
                assert(path[k as int] == step@);
                assert(step@.sibling.sums.len() == step.sibling.sums@.len());
                assert(path.take(k + 1).drop_last() =~= path.take(k as int));
                assert(path.take(k + 1).last() == step@);
                assert(climb(leaf, path.take(k + 1)) == step_up(current@, step@));
            }
            let sums_ok = all_within(&step.sibling.sums, max);
            proof {
                if sums_ok {
                    assert forall|a: int| 0 <= a < step@.sibling.sums.len() implies (
                    #[trigger] step@.sibling.sums[a]) <= max by {
                        assert(step.sibling.sums@[a] <= max);
                    }
                } else {
                    let a = choose|a: int|
                        0 <= a < step.sibling.sums@.len() && !(step.sibling.sums@[a] <= max);
                    assert(step@.sibling.sums[a] > max);
                }
            }
            if step.direction > 1 || step.sibling.hash.len() != DIGEST_LEN
                || step.sibling.sums.len() != self.shape.n_assets || !sums_ok {
                proof {
                    assert(!step_fits(path[k as int], self.shape));
                }
                return false;
            }
            let above = if step.direction == 0 {
                Node::parent(&current, &step.sibling, max)
            } else {
                Node::parent(&step.sibling, &current, max)
            };
            match above {
                None => {
                    proof {
                        assert(!climb(leaf, path.take(k + 1)).in_range(max as nat));
                    }
                    return false;
                },
                Some(node) => {
                    proof {
                        assert(node@.sums.len() == node.sums@.len());
                        assert(current@.sums.len() == current.sums@.len());
                    }
                    current = node;
                },
            }
            k = k + 1;
        }
        proof {
            assert(path.take(path.len() as int) =~= path);
        }
        let same_hash = bytes_equal(&current.hash, &self.root_hash);
        let same_sums = amounts_equal(&current.sums, &self.root_sums);
        same_hash && same_sums
    }
}

/// The entry and the path of a leaf of a valid tree satisfy the
/// constraints under the root of that tree, provided the digests on the
/// path have the length of a digest.
pub proof fn lemma_real_witness_satisfies(tree: TreeView, index: int, path: Seq<StepView>)
    requires
        tree.valid(),
        0 <= index < tree.shape.spec_capacity(),
        path == merkle_path(tree.leaves(), tree.shape.levels as nat, index),
        forall|k: int|
            0 <= k < path.len() ==> (#[trigger] path[k]).sibling.hash.len() == DIGEST_LEN,
    ensures
        inclusion_satisfied(tree.shape, tree.entries[index], path, tree.root()),
{
    let shape = tree.shape;
    let levels = shape.levels as nat;
    let leaves = tree.leaves();
    let entry = tree.entries[index];
    assert(entry.fits(shape));
    assert(leaves[index] == leaf_node(entry));
    lemma_path_leads_to_root(leaves, levels, index);
    assert forall|k: int| 0 <= k < path.len() implies step_fits(#[trigger] path[k], shape) by {
        lemma_ancestor_in_level(levels, index, k as nat);
        let at = ancestor(index, k as nat);
        lemma_pow2_unfold((levels - k) as nat);
        lemma_nodes_in_range(tree, k as nat, sibling_of(at));
    }
    assert forall|k: int| 1 <= k <= path.len() implies (#[trigger] climb(
        leaf_node(entry),
        path.take(k),
    )).in_range(shape.spec_max_amount()) by {
        lemma_climb_reaches_ancestor(leaves, levels, index, k as nat);
        lemma_ancestor_in_level(levels, index, k as nat);
        lemma_nodes_in_range(tree, k as nat, ancestor(index, k as nat));
    }
}

} // verus!

//! Nodes of the tree: a digest and one sum per asset.

use vstd::prelude::*;
use vstd::utf8::encode_utf8;
use crate::encoding::amounts;
use crate::entry::{copy_amounts, copy_bytes, Entry, EntryView};
use crate::hash::{hash_leaf, hash_node, leaf_digest, node_digest, DIGEST_LEN};

verus! {

/// A node of the tree.
#[derive(Clone, Debug, PartialEq, Eq)]
pub struct Node {
    pub hash: Vec<u8>,
    pub sums: Vec<u128>,
}

/// The mathematical value of a [`Node`].
pub struct NodeView {
    pub hash: Seq<u8>,
    pub sums: Seq<nat>,
}

impl View for Node {
    type V = NodeView;

    open spec fn view(&self) -> NodeView {
        NodeView { hash: self.hash@, sums: amounts(self.sums@) }
    }
}

impl DeepView for Node {
    type V = NodeView;

    open spec fn deep_view(&self) -> NodeView {
        self@
    }
}

/// The sums of a node over two children: asset by asset, the sum of theirs.
pub open spec fn add_sums(left: Seq<nat>, right: Seq<nat>) -> Seq<nat> {
    Seq::new(left.len(), |i: int| left[i] + right[i])
}

/// The leaf that stands for an entry: its digest binds the identifier and
/// every balance, and its sums are the balances.
pub open spec fn leaf_node(entry: EntryView) -> NodeView {
    NodeView {
        hash: leaf_digest(encode_utf8(entry.id), entry.balances),
        sums: entry.balances,
    }
}

/// The node over two children: its digest binds both children's digests and
/// sums, and its sums are the children's, added.
pub open spec fn parent_node(left: NodeView, right: NodeView) -> NodeView {
    NodeView {
        hash: node_digest(left.hash, left.sums, right.hash, right.sums),
        sums: add_sums(left.sums, right.sums),
    }
}

impl NodeView {
    /// No sum of the node exceeds `max`.
    pub open spec fn in_range(&self, max: nat) -> bool {
        forall|i: int| 0 <= i < self.sums.len() ==> self.sums[i] <= max
    }
}

/// Adds two vectors of sums asset by asset, unless a sum would exceed `max`.
pub fn checked_add_sums(left: &Vec<u128>, right: &Vec<u128>, max: u128) -> (sums: Option<
    Vec<u128>,
>)
    requires
        left@.len() == right@.len(),
    ensures
        sums is Some <==> (forall|i: int|
            0 <= i < left@.len() ==> left@[i] + right@[i] <= max),
        sums is Some ==> amounts(sums->0@) == add_sums(amounts(left@), amounts(right@)),
{
    let mut sums: Vec<u128> = Vec::new();
    let mut i: usize = 0;
    while i < left.len()
        invariant
            i <= left@.len(),
            left@.len() == right@.len(),
            sums@.len() == i,
            forall|j: int| 0 <= j < i ==> left@[j] + right@[j] <= max,
            forall|j: int| 0 <= j < i ==> sums@[j] == left@[j] + right@[j],
        decreases left@.len() - i,
    {
        let a: u128 = left[i];
        let b: u128 = right[i];
        if a > max || b > max - a {
            return None;
        }
        sums.push(a + b);
        i = i + 1;
    }
    proof {
        assert(amounts(sums@) =~= add_sums(amounts(left@), amounts(right@)));
    }
    Some(sums)
}

impl Node {
    /// The leaf that stands for `entry`.
    pub fn leaf(entry: &Entry) -> (node: Self)
        ensures
            node@ == leaf_node(entry@),
            node.hash@.len() == DIGEST_LEN,
    {
        Node {
            hash: hash_leaf(entry.id.as_str(), &entry.balances),
            sums: copy_amounts(&entry.balances),
        }
    }

    /// The node over `left` and `right`, unless one of its sums would
    /// exceed `max`.
    pub fn parent(left: &Node, right: &Node, max: u128) -> (node: Option<Self>)
        requires
            left.sums@.len() == right.sums@.len(),
        ensures
            node is Some <==> parent_node(left@, right@).in_range(max as nat),
            node is Some ==> node->0@ == parent_node(left@, right@),
            node is Some ==> node->0.hash@.len() == DIGEST_LEN,
    {
        proof {
            let p = parent_node(left@, right@);
            if p.in_range(max as nat) {
                assert forall|i: int| 0 <= i < left.sums@.len() implies left.sums@[i]
                    + right.sums@[i] <= max by {
                    assert(p.sums[i] <= max);
                }
            }
            if forall|i: int| 0 <= i < left.sums@.len() ==> left.sums@[i] + right.sums@[i] <= max {
                assert forall|i: int| 0 <= i < p.sums.len() implies p.sums[i] <= max by {
                    assert(left.sums@[i] + right.sums@[i] <= max);
                }
            }
        }
        match checked_add_sums(&left.sums, &right.sums, max) {
            None => None,
            Some(sums) => {
                let hash = hash_node(&left.hash, &left.sums, &right.hash, &right.sums);
                Some(Node { hash, sums })
            },
        }
    }

    /// A node of the same value.
    pub fn duplicate(&self) -> (copy: Self)
        ensures
            copy@ == self@,
            copy.hash@ == self.hash@,
            copy.sums@ == self.sums@,
    {
        Node { hash: copy_bytes(&self.hash), sums: copy_amounts(&self.sums) }
    }
}

} // verus!

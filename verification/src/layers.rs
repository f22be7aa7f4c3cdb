//! The steps of construction: padding the entries, hashing the leaves, and
//! building one level of nodes from the level below.

use vstd::prelude::*;
use crate::entry::{sentinel_entry, Entry};
use crate::hash::DIGEST_LEN;
use crate::node::{leaf_node, parent_node, Node, NodeView};
use crate::tree_model::{leaf_nodes, padded};

verus! {

/// Every node has a digest of full length and `n_assets` sums, none above
/// `max`.
pub open spec fn nodes_fit(nodes: Seq<Node>, n_assets: nat, max: nat) -> bool {
    forall|i: int|
        0 <= i < nodes.len() ==> {
            &&& (#[trigger] nodes[i]).hash@.len() == DIGEST_LEN
            &&& nodes[i].sums@.len() == n_assets
            &&& nodes[i]@.in_range(max)
        }
}

/// The level above `below`: node `i` stands over nodes `2i` and `2i + 1`.
pub open spec fn level_above(below: Seq<NodeView>) -> Seq<NodeView> {
    Seq::new(below.len() / 2, |i: int| parent_node(below[2 * i], below[2 * i + 1]))
}

/// Appends sentinel entries to `entries` until there are `capacity`.
pub fn pad_entries(entries: Vec<Entry>, capacity: usize, n_assets: usize) -> (all: Vec<Entry>)
    requires
        entries@.len() <= capacity,
    ensures
        all.deep_view() == padded(entries.deep_view(), capacity as nat, n_assets as nat),
        all@.len() == capacity,
{
    let ghost given = entries.deep_view();
    let mut all = entries;
    while all.len() < capacity
        invariant
            given.len() <= all@.len() <= capacity,
            forall|i: int| 0 <= i < given.len() ==> all@[i]@ == given[i],
            forall|i: int|
                given.len() <= i < all@.len() ==> all@[i]@ == sentinel_entry(n_assets as nat),
        decreases capacity - all@.len(),
    {
        all.push(Entry::sentinel(n_assets));
    }
    proof {
        assert(all.deep_view() =~= padded(given, capacity as nat, n_assets as nat));
    }
    all
}

/// Hashes every entry into its leaf.
pub fn leaf_layer(entries: &Vec<Entry>) -> (leaves: Vec<Node>)
    ensures
        leaves.deep_view() == leaf_nodes(entries.deep_view()),
        leaves@.len() == entries@.len(),
        forall|i: int|
            0 <= i < leaves@.len() ==> (#[trigger] leaves@[i]).hash@.len() == DIGEST_LEN
                && leaves@[i].sums@.len() == entries@[i].balances@.len(),
{
    let mut leaves: Vec<Node> = Vec::new();
    let mut i: usize = 0;
    while i < entries.len()
        invariant
            i <= entries@.len(),
            leaves@.len() == i,
            forall|j: int| 0 <= j < i ==> (#[trigger] leaves@[j])@ == leaf_node(entries@[j]@),
            forall|j: int|
                0 <= j < i ==> (#[trigger] leaves@[j]).hash@.len() == DIGEST_LEN
                    && leaves@[j].sums@.len() == entries@[j].balances@.len(),
        decreases entries@.len() - i,
    {
        let node = Node::leaf(&entries[i]);
        proof {
            assert(node@.sums.len() == node.sums@.len());
            assert(entries@[i as int]@.balances.len() == entries@[i as int].balances@.len());
        }
        leaves.push(node);
        i = i + 1;
    }
    proof {
        assert(leaves.deep_view() =~= leaf_nodes(entries.deep_view()));
    }
    leaves
}

/// Builds the level above `below`, unless a sum of one of its nodes would
/// exceed `max`.
pub fn next_layer(below: &Vec<Node>, n_assets: usize, max: u128) -> (above: Option<Vec<Node>>)
    requires
        below@.len() % 2 == 0,
        nodes_fit(below@, n_assets as nat, max as nat),
    ensures
        above is Some <==> (forall|i: int|
            0 <= i < below@.len() / 2 ==> (#[trigger] level_above(below.deep_view())[i]).in_range(
                max as nat,
            )),
        above is Some ==> above->0.deep_view() == level_above(below.deep_view()),
        above is Some ==> nodes_fit(above->0@, n_assets as nat, max as nat),
{
    let half: usize = below.len() / 2;
    let ghost target = level_above(below.deep_view());
    let mut above: Vec<Node> = Vec::new();
    let mut i: usize = 0;
    while i < half
        invariant
            i <= half,
            half == below@.len() / 2,
            below@.len() % 2 == 0,
            below@.len() <= usize::MAX,
            target == level_above(below.deep_view()),
            nodes_fit(below@, n_assets as nat, max as nat),
            above@.len() == i,
            forall|j: int| 0 <= j < i ==> (#[trigger] above@[j])@ == target[j],
            forall|j: int| 0 <= j < i ==> (#[trigger] target[j]).in_range(max as nat),
            nodes_fit(above@, n_assets as nat, max as nat),
        decreases half - i,
    {
        assert(2 * i + 1 < below@.len());
        let left = &below[2 * i];
        let right = &below[2 * i + 1];
        proof {
            assert(target[i as int] == parent_node(left@, right@));
        }
        match Node::parent(left, right, max) {
            None => {
                proof {
                    assert(!target[i as int].in_range(max as nat));
                }
                return None;
            },
            Some(node) => {
                proof {
                    assert(node@.sums.len() == node.sums@.len());
                    assert(left@.sums.len() == left.sums@.len());
                }
                above.push(node);
            },
        }
        i = i + 1;
    }
    proof {
        assert(above.deep_view() =~= target);
    }
    Some(above)
}

} // verus!

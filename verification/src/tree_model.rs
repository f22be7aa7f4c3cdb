//! The tree as mathematics: what each node is, given the leaves, and what
//! its sums add up to.

use vstd::prelude::*;
use vstd::arithmetic::power2::{pow2, lemma_pow2_unfold, lemma_pow2_pos};
use crate::entry::{sentinel_entry, EntryView};
use crate::node::{leaf_node, parent_node, NodeView};

verus! {

/// The leaves that stand for `entries`, in order.
pub open spec fn leaf_nodes(entries: Seq<EntryView>) -> Seq<NodeView> {
    Seq::new(entries.len(), |i: int| leaf_node(entries[i]))
}

/// `entries` followed by as many sentinel entries as fill `capacity` leaves.
pub open spec fn padded(entries: Seq<EntryView>, capacity: nat, n_assets: nat) -> Seq<EntryView> {
    Seq::new(
        capacity,
        |i: int|
            if i < entries.len() {
                entries[i]
            } else {
                sentinel_entry(n_assets)
            },
    )
}

/// The node at `index` on level `height`, where level 0 holds the leaves:
/// the node over the two nodes below it.
pub open spec fn subtree(leaves: Seq<NodeView>, height: nat, index: int) -> NodeView
    decreases height,
{
    if height == 0 {
        leaves[index]
    } else {
        parent_node(
            subtree(leaves, (height - 1) as nat, 2 * index),
            subtree(leaves, (height - 1) as nat, 2 * index + 1),
        )
    }
}

/// The root of the tree of height `levels` over `leaves`.
pub open spec fn merkle_root(leaves: Seq<NodeView>, levels: nat) -> NodeView {
    subtree(leaves, levels, 0)
}

/// The sum of asset `asset` over the nodes from `lo` up to, not including,
/// `hi`.
pub open spec fn asset_total(nodes: Seq<NodeView>, asset: int, lo: int, hi: int) -> nat
    decreases hi - lo,
{
    if lo >= hi {
        0
    } else {
        asset_total(nodes, asset, lo, hi - 1) + nodes[hi - 1].sums[asset]
    }
}

/// The sum of the balances of asset `asset` over `entries`.
pub open spec fn balance_total(entries: Seq<EntryView>, asset: int) -> nat
    decreases entries.len(),
{
    if entries.len() == 0 {
        0
    } else {
        balance_total(entries.drop_last(), asset) + entries.last().balances[asset]
    }
}

/// Every node of `nodes` has `n_assets` sums.
pub open spec fn uniform(nodes: Seq<NodeView>, n_assets: nat) -> bool {
    forall|i: int| 0 <= i < nodes.len() ==> (#[trigger] nodes[i]).sums.len() == n_assets
}

/// Every entry of `entries` has `n_assets` balances.
pub open spec fn uniform_entries(entries: Seq<EntryView>, n_assets: nat) -> bool {
    forall|i: int| 0 <= i < entries.len() ==> (#[trigger] entries[i]).balances.len() == n_assets
}

/// A total over a range is the total over its two parts.
pub proof fn lemma_asset_total_split(nodes: Seq<NodeView>, asset: int, lo: int, mid: int, hi: int)
    requires
        lo <= mid <= hi,
    ensures
        asset_total(nodes, asset, lo, hi) == asset_total(nodes, asset, lo, mid) + asset_total(
            nodes,
            asset,
            mid,
            hi,
        ),
    decreases hi - mid,
{
    if mid < hi {
        lemma_asset_total_split(nodes, asset, lo, mid, hi - 1);
    }
}

/// A total over a part of a range is at most the total over the range.
pub proof fn lemma_asset_total_part(
    nodes: Seq<NodeView>,
    asset: int,
    lo: int,
    from: int,
    to: int,
    hi: int,
)
    requires
        lo <= from <= to <= hi,
    ensures
        asset_total(nodes, asset, from, to) <= asset_total(nodes, asset, lo, hi),
{
    lemma_asset_total_split(nodes, asset, lo, from, hi);
    lemma_asset_total_split(nodes, asset, from, to, hi);
}

/// The first leaf below the node at `index` on level `height`.
pub open spec fn span_start(height: nat, index: int) -> int {
    index * pow2(height)
}

/// The leaves below a node are those below its left child, followed by
/// those below its right child.
pub proof fn lemma_span_children(height: nat, index: int)
    requires
        height > 0,
    ensures
        span_start((height - 1) as nat, 2 * index) == span_start(height, index),
        span_start((height - 1) as nat, 2 * index + 1) == span_start(height, index) + pow2(
            (height - 1) as nat,
        ),
        span_start((height - 1) as nat, 2 * index + 2) == span_start(height, index + 1),
        span_start(height, index + 1) == span_start(height, index) + 2 * pow2(
            (height - 1) as nat,
        ),
{
    lemma_pow2_unfold(height);
    let w = pow2((height - 1) as nat) as int;
    assert((index + 1) * (2 * w) == index * (2 * w) + 2 * w) by (nonlinear_arith);
    assert((2 * index) * w == index * (2 * w)) by (nonlinear_arith);
    assert((2 * index + 1) * w == index * (2 * w) + w) by (nonlinear_arith);
    assert((2 * index + 2) * w == (index + 1) * (2 * w)) by (nonlinear_arith);
}

/// A node has as many sums as the leaves below it.
pub proof fn lemma_subtree_len(leaves: Seq<NodeView>, n_assets: nat, height: nat, index: int)
    requires
        uniform(leaves, n_assets),
        0 <= index,
        span_start(height, index + 1) <= leaves.len(),
    ensures
        subtree(leaves, height, index).sums.len() == n_assets,
    decreases height,
{
    lemma_pow2_pos(height);
    if height == 0 {
        vstd::arithmetic::power2::lemma2_to64();
        assert(span_start(0, index + 1) == index + 1) by (nonlinear_arith)
            requires
                span_start(0, index + 1) == (index + 1) * 1,
        ;
    } else {
        lemma_span_children(height, index);
        lemma_pow2_pos((height - 1) as nat);
        lemma_subtree_len(leaves, n_assets, (height - 1) as nat, 2 * index);
    }
}

/// A node has as many sums as the leaves below it, and each sum is the
/// total of that asset over those leaves.
pub proof fn lemma_subtree_sums(
    leaves: Seq<NodeView>,
    n_assets: nat,
    height: nat,
    index: int,
    asset: int,
)
    requires
        uniform(leaves, n_assets),
        0 <= index,
        span_start(height, index + 1) <= leaves.len(),
        0 <= asset < n_assets,
    ensures
        subtree(leaves, height, index).sums.len() == n_assets,
        subtree(leaves, height, index).sums[asset] == asset_total(
            leaves,
            asset,
            span_start(height, index),
            span_start(height, index + 1),
        ),
    decreases height,
{
    lemma_pow2_pos(height);
    if height == 0 {
        assert(pow2(0) == 1) by {
            vstd::arithmetic::power2::lemma2_to64();
        }
        assert(span_start(0, index) == index) by (nonlinear_arith)
            requires
                span_start(0, index) == index * 1,
        ;
        assert(span_start(0, index + 1) == index + 1) by (nonlinear_arith)
            requires
                span_start(0, index + 1) == (index + 1) * 1,
        ;
        assert(asset_total(leaves, asset, index, index) == 0);
    } else {
        let below = (height - 1) as nat;
        lemma_span_children(height, index);
        lemma_pow2_pos(below);
        lemma_subtree_sums(leaves, n_assets, below, 2 * index, asset);
        lemma_subtree_sums(leaves, n_assets, below, 2 * index + 1, asset);
        lemma_asset_total_split(
            leaves,
            asset,
            span_start(height, index),
            span_start(below, 2 * index + 1),
            span_start(height, index + 1),
        );
    }
}

/// The total of an asset over the leaves of some entries is the total of
/// their balances.
pub proof fn lemma_leaf_total(entries: Seq<EntryView>, asset: int)
    ensures
        asset_total(leaf_nodes(entries), asset, 0, entries.len() as int) == balance_total(
            entries,
            asset,
        ),
    decreases entries.len(),
{
    if entries.len() > 0 {
        let front = entries.drop_last();
        lemma_leaf_total(front, asset);
        lemma_asset_total_prefix(leaf_nodes(entries), leaf_nodes(front), asset, front.len() as int);
    }
}

/// A total depends only on the nodes in its range.
pub proof fn lemma_asset_total_prefix(a: Seq<NodeView>, b: Seq<NodeView>, asset: int, hi: int)
    requires
        0 <= hi <= a.len(),
        hi <= b.len(),
        forall|i: int| 0 <= i < hi ==> a[i] == b[i],
    ensures
        asset_total(a, asset, 0, hi) == asset_total(b, asset, 0, hi),
    decreases hi,
{
    if hi > 0 {
        lemma_asset_total_prefix(a, b, asset, hi - 1);
    }
}

/// A range of nodes whose sums of an asset are all zero totals zero.
pub proof fn lemma_asset_total_zero(nodes: Seq<NodeView>, asset: int, lo: int, hi: int)
    requires
        0 <= lo <= hi <= nodes.len(),
        forall|i: int| lo <= i < hi ==> nodes[i].sums[asset] == 0,
    ensures
        asset_total(nodes, asset, lo, hi) == 0,
    decreases hi - lo,
{
    if lo < hi {
        lemma_asset_total_zero(nodes, asset, lo, hi - 1);
    }
}

/// The root's sums are, asset by asset, the totals of the balances of all
/// the entries under the leaves.
pub proof fn lemma_root_sums_are_totals(
    entries: Seq<EntryView>,
    n_assets: nat,
    levels: nat,
    asset: int,
)
    requires
        entries.len() == pow2(levels),
        uniform_entries(entries, n_assets),
        0 <= asset < n_assets,
    ensures
        merkle_root(leaf_nodes(entries), levels).sums.len() == n_assets,
        merkle_root(leaf_nodes(entries), levels).sums[asset] == balance_total(entries, asset),
{
    let leaves = leaf_nodes(entries);
    assert(uniform(leaves, n_assets)) by {
        assert forall|i: int| 0 <= i < leaves.len() implies (#[trigger] leaves[i]).sums.len()
            == n_assets by {
            assert(entries[i].balances.len() == n_assets);
        }
    }
    assert(span_start(levels, 1) == pow2(levels)) by (nonlinear_arith)
        requires
            span_start(levels, 1) == 1 * pow2(levels),
    ;
    assert(span_start(levels, 0) == 0) by (nonlinear_arith)
        requires
            span_start(levels, 0) == 0 * pow2(levels),
    ;
    lemma_subtree_sums(leaves, n_assets, levels, 0, asset);
    lemma_leaf_total(entries, asset);
}

/// Sentinel entries add nothing: the root's sums over the padded entries
/// are the totals of the balances of the real entries alone.
pub proof fn lemma_padding_adds_nothing(
    entries: Seq<EntryView>,
    n_assets: nat,
    levels: nat,
    asset: int,
)
    requires
        entries.len() <= pow2(levels),
        uniform_entries(entries, n_assets),
        0 <= asset < n_assets,
    ensures
        merkle_root(leaf_nodes(padded(entries, pow2(levels), n_assets)), levels).sums[asset]
            == balance_total(entries, asset),
        forall|i: int|
            entries.len() <= i < pow2(levels) ==> #[trigger] padded(
                entries,
                pow2(levels),
                n_assets,
            )[i] == sentinel_entry(n_assets),
{
    let all = padded(entries, pow2(levels), n_assets);
    assert(uniform_entries(all, n_assets)) by {
        assert forall|i: int| 0 <= i < all.len() implies (#[trigger] all[i]).balances.len()
            == n_assets by {
            if i < entries.len() {
                assert(entries[i].balances.len() == n_assets);
            }
        }
    }
    lemma_root_sums_are_totals(all, n_assets, levels, asset);
    lemma_leaf_total(all, asset);
    lemma_leaf_total(entries, asset);
    let n = entries.len() as int;
    lemma_asset_total_split(leaf_nodes(all), asset, 0, n, all.len() as int);
    lemma_asset_total_zero(leaf_nodes(all), asset, n, all.len() as int);
    lemma_asset_total_prefix(leaf_nodes(all), leaf_nodes(entries), asset, n);
}

/// One step of a path: the node beside the current one, and on which side
/// the current one stands (0 on the left, 1 on the right).
pub struct StepView {
    pub sibling: NodeView,
    pub direction: nat,
}

/// The index of the node that shares a parent with the node at `index`.
pub open spec fn sibling_of(index: int) -> int {
    if index % 2 == 0 {
        index + 1
    } else {
        index - 1
    }
}

/// The index, on level `height`, of the node above leaf `index`.
pub open spec fn ancestor(index: int, height: nat) -> int {
    index / (pow2(height) as int)
}

/// The step that a path from leaf `index` takes on level `height`.
pub open spec fn path_step(leaves: Seq<NodeView>, index: int, height: nat) -> StepView {
    StepView {
        sibling: subtree(leaves, height, sibling_of(ancestor(index, height))),
        direction: (ancestor(index, height) % 2) as nat,
    }
}

/// The path from leaf `index` to the root: one step per level, from the
/// leaves upwards.
pub open spec fn merkle_path(leaves: Seq<NodeView>, levels: nat, index: int) -> Seq<StepView> {
    Seq::new(levels, |k: int| path_step(leaves, index, k as nat))
}

/// The node over `current` and the sibling of `step`, each on its side.
pub open spec fn step_up(current: NodeView, step: StepView) -> NodeView {
    if step.direction == 0 {
        parent_node(current, step.sibling)
    } else {
        parent_node(step.sibling, current)
    }
}

/// The node reached from `start` by taking the steps of `path` in order.
pub open spec fn climb(start: NodeView, path: Seq<StepView>) -> NodeView
    decreases path.len(),
{
    if path.len() == 0 {
        start
    } else {
        step_up(climb(start, path.drop_last()), path.last())
    }
}

/// The node above a leaf on the next level is the parent of the node above
/// it on this level.
pub proof fn lemma_ancestor_step(index: int, height: nat)
    requires
        0 <= index,
    ensures
        ancestor(index, height + 1) == ancestor(index, height) / 2,
        0 <= ancestor(index, height),
{
    lemma_pow2_pos(height);
    lemma_pow2_unfold(height + 1);
    let w = pow2(height) as int;
    vstd::arithmetic::div_mod::lemma_div_denominator(index, w, 2);
    assert(w * 2 == 2 * w);
    vstd::arithmetic::div_mod::lemma_div_pos_is_pos(index, w);
}

/// The node above a leaf on some level is one of the nodes of that level.
pub proof fn lemma_ancestor_in_level(levels: nat, index: int, height: nat)
    requires
        0 <= index < pow2(levels),
        height <= levels,
    ensures
        0 <= ancestor(index, height) < pow2((levels - height) as nat),
    decreases height,
{
    if height == 0 {
        vstd::arithmetic::power2::lemma2_to64();
        assert(ancestor(index, 0) == index);
    } else {
        lemma_ancestor_in_level(levels, index, (height - 1) as nat);
        lemma_ancestor_step(index, (height - 1) as nat);
        lemma_pow2_unfold((levels - height + 1) as nat);
    }
}

/// After `height` steps, the path from a leaf has reached the node above
/// that leaf on level `height`.
pub proof fn lemma_climb_reaches_ancestor(
    leaves: Seq<NodeView>,
    levels: nat,
    index: int,
    height: nat,
)
    requires
        0 <= index,
        height <= levels,
    ensures
        climb(leaves[index], merkle_path(leaves, levels, index).take(height as int)) == subtree(
            leaves,
            height,
            ancestor(index, height),
        ),
    decreases height,
{
    let path = merkle_path(leaves, levels, index);
    if height == 0 {
        vstd::arithmetic::power2::lemma2_to64();
        assert(path.take(0).len() == 0);
        assert(ancestor(index, 0) == index);
    } else {
        let below = (height - 1) as nat;
        lemma_climb_reaches_ancestor(leaves, levels, index, below);
        lemma_ancestor_step(index, below);
        let taken = path.take(height as int);
        assert(taken.drop_last() =~= path.take(below as int));
        assert(taken.last() == path_step(leaves, index, below));
    }
}

/// The path from a leaf leads to the root.
pub proof fn lemma_path_leads_to_root(leaves: Seq<NodeView>, levels: nat, index: int)
    requires
        0 <= index < pow2(levels),
    ensures
        climb(leaves[index], merkle_path(leaves, levels, index)) == merkle_root(leaves, levels),
{
    lemma_climb_reaches_ancestor(leaves, levels, index, levels);
    let path = merkle_path(leaves, levels, index);
    assert(path.take(levels as int) =~= path);
    vstd::arithmetic::div_mod::lemma_basic_div(index, pow2(levels) as int);
}

} // verus!

//! What holds of every tree and of every witness: the laws that the
//! construction and the two circuits obey.

use vstd::prelude::*;
use crate::circuits::inclusion::inclusion_satisfied;
use crate::circuits::solvency::{node_fits, reserves_cover, solvency_satisfied};
use crate::entry::{sentinel_entry, EntryView};
use crate::hash::{
    keccak256_digest,
    keccak_collision,
    lemma_node_preimage_binds_digests,
    node_preimage,
};
use crate::merkle_sum_tree::{arranged, lemma_arranged_total, BuildMode, TreeView};
use crate::node::{leaf_node, parent_node, NodeView};
use crate::shape::Shape;
use crate::sorting::{key_le, lemma_sorted_is_ordered, lemma_sorted_is_permutation, sorted_entries};
use crate::tree_model::{
    balance_total,
    climb,
    lemma_padding_adds_nothing,
    lemma_root_sums_are_totals,
    step_up,
    uniform_entries,
    StepView,
};

verus! {

/// Construction is a function of its input: two trees built from the same
/// shape, entries and mode hold the same entries in the same leaves, and
/// have the same root, digest and sums.
pub proof fn law_build_is_deterministic(
    shape: Shape,
    entries: Seq<EntryView>,
    mode: BuildMode,
    first: TreeView,
    second: TreeView,
)
    requires
        first.built_from(shape, entries, mode),
        second.built_from(shape, entries, mode),
    ensures
        first == second,
        first.root().hash == second.root().hash,
        first.root().sums == second.root().sums,
{
}

/// The root's sums are, asset by asset, the totals of the balances of all
/// the entries of the tree, real and sentinel.
pub proof fn law_root_sums_are_totals(tree: TreeView, asset: int)
    requires
        tree.entries.len() == tree.shape.spec_capacity(),
        uniform_entries(tree.entries, tree.shape.n_assets as nat),
        0 <= asset < tree.shape.n_assets,
    ensures
        tree.root().sums.len() == tree.shape.n_assets,
        tree.root().sums[asset] == balance_total(tree.entries, asset),
{
    lemma_root_sums_are_totals(
        tree.entries,
        tree.shape.n_assets as nat,
        tree.shape.levels as nat,
        asset,
    );
}

/// The two modes commit to the same liabilities: the trees built from the
/// same entries in natural and in sorted order have the same root sums.
pub proof fn law_modes_agree_on_sums(
    shape: Shape,
    entries: Seq<EntryView>,
    natural: TreeView,
    sorted: TreeView,
    asset: int,
)
    requires
        natural.built_from(shape, entries, BuildMode::Natural),
        sorted.built_from(shape, entries, BuildMode::Sorted),
        entries.len() <= shape.spec_capacity(),
        uniform_entries(entries, shape.n_assets as nat),
        0 <= asset < shape.n_assets,
    ensures
        natural.root().sums[asset] == sorted.root().sums[asset],
{
    law_padding_adds_nothing(shape, entries, BuildMode::Natural, natural, asset);
    law_padding_adds_nothing(shape, entries, BuildMode::Sorted, sorted, asset);
}

/// The sorted mode puts the entries given, each as often as it was given,
/// into the first leaves in the order of their identifiers.
pub proof fn law_sorted_mode_orders_entries(shape: Shape, entries: Seq<EntryView>, tree: TreeView)
    requires
        tree.built_from(shape, entries, BuildMode::Sorted),
        entries.len() <= shape.spec_capacity(),
    ensures
        tree.entries.subrange(0, entries.len() as int) == sorted_entries(entries),
        sorted_entries(entries).to_multiset() == entries.to_multiset(),
        forall|i: int, j: int|
            0 <= i < j < entries.len() ==> key_le(
                #[trigger] tree.entries[i],
                #[trigger] tree.entries[j],
            ),
{
    lemma_sorted_is_permutation(entries);
    lemma_sorted_is_ordered(entries);
    let sorted = sorted_entries(entries);
    assert(tree.entries.subrange(0, entries.len() as int) =~= sorted);
    assert forall|i: int, j: int| 0 <= i < j < entries.len() implies key_le(
        #[trigger] tree.entries[i],
        #[trigger] tree.entries[j],
    ) by {
        assert(tree.entries[i] == sorted[i]);
        assert(tree.entries[j] == sorted[j]);
    }
}

/// A tree built from fewer entries than it has leaves holds the arranged
/// entries in its first leaves and a sentinel entry in every other leaf,
/// and the sentinels add nothing: its root sums are the totals of the
/// balances of the entries given.
pub proof fn law_padding_adds_nothing(
    shape: Shape,
    entries: Seq<EntryView>,
    mode: BuildMode,
    tree: TreeView,
    asset: int,
)
    requires
        tree.built_from(shape, entries, mode),
        entries.len() <= shape.spec_capacity(),
        uniform_entries(entries, shape.n_assets as nat),
        0 <= asset < shape.n_assets,
    ensures
        tree.entries.len() == shape.spec_capacity(),
        forall|i: int|
            0 <= i < entries.len() ==> #[trigger] tree.entries[i] == arranged(entries, mode)[i],
        forall|i: int|
            entries.len() <= i < shape.spec_capacity() ==> #[trigger] tree.entries[i]
                == sentinel_entry(shape.n_assets as nat),
        tree.root().sums[asset] == balance_total(entries, asset),
{
    let placed = arranged(entries, mode);
    lemma_sorted_is_permutation(entries);
    lemma_arranged_total(entries, mode, shape);
    assert(uniform_entries(placed, shape.n_assets as nat)) by {
        assert forall|i: int| 0 <= i < placed.len() implies (#[trigger] placed[i]).balances.len()
            == shape.n_assets by {
            if mode == BuildMode::Sorted {
                crate::sorting::lemma_sorted_members(entries, i);
                let j = choose|j: int| 0 <= j < entries.len() && entries[j] == placed[i];
                assert(entries[j].balances.len() == shape.n_assets);
            }
        }
    }
    lemma_padding_adds_nothing(placed, shape.n_assets as nat, shape.levels as nat, asset);
}

/// The sum of asset `asset` over the siblings of a path.
pub open spec fn path_total(path: Seq<StepView>, asset: int) -> nat
    decreases path.len(),
{
    if path.len() == 0 {
        0
    } else {
        path_total(path.drop_last(), asset) + path.last().sibling.sums[asset]
    }
}

/// Every sibling of `path` has `n_assets` sums.
pub open spec fn uniform_path(path: Seq<StepView>, n_assets: nat) -> bool {
    forall|k: int| 0 <= k < path.len() ==> (#[trigger] path[k]).sibling.sums.len() == n_assets
}

/// The node at the end of a path has the sums of the node at its start
/// with the sums of every sibling added.
pub proof fn lemma_climb_adds_siblings(
    start: NodeView,
    path: Seq<StepView>,
    n_assets: nat,
    asset: int,
)
    requires
        start.sums.len() == n_assets,
        uniform_path(path, n_assets),
        0 <= asset < n_assets,
    ensures
        climb(start, path).sums.len() == n_assets,
        climb(start, path).sums[asset] == start.sums[asset] + path_total(path, asset),
    decreases path.len(),
{
    if path.len() > 0 {
        let front = path.drop_last();
        assert(uniform_path(front, n_assets)) by {
            assert forall|k: int| 0 <= k < front.len() implies (
            #[trigger] front[k]).sibling.sums.len() == n_assets by {
                assert(front[k] == path[k]);
            }
        }
        lemma_climb_adds_siblings(start, front, n_assets, asset);
        assert(path.last() == path[path.len() - 1]);
    }
}

/// Paths that agree on an asset at every level but one, and differ there,
/// have different totals of that asset.
pub proof fn lemma_path_total_differs(
    path: Seq<StepView>,
    other: Seq<StepView>,
    level: int,
    asset: int,
)
    requires
        other.len() == path.len(),
        0 <= level < path.len(),
        forall|k: int|
            0 <= k < path.len() && k != level ==> (#[trigger] other[k]).sibling.sums[asset]
                == path[k].sibling.sums[asset],
    ensures
        path_total(other, asset) - other[level].sibling.sums[asset] == path_total(path, asset)
            - path[level].sibling.sums[asset],
    decreases path.len(),
{
    let last = path.len() - 1;
    if level == last {
        lemma_path_total_agrees(path.drop_last(), other.drop_last(), asset);
    } else {
        assert(other[last].sibling.sums[asset] == path[last].sibling.sums[asset]);
        lemma_path_total_differs(path.drop_last(), other.drop_last(), level, asset);
    }
}

/// Paths that agree on an asset at every level have the same total of it.
pub proof fn lemma_path_total_agrees(path: Seq<StepView>, other: Seq<StepView>, asset: int)
    requires
        other.len() == path.len(),
        forall|k: int|
            0 <= k < path.len() ==> (#[trigger] other[k]).sibling.sums[asset]
                == path[k].sibling.sums[asset],
    ensures
        path_total(other, asset) == path_total(path, asset),
    decreases path.len(),
{
    if path.len() > 0 {
        let last = path.len() - 1;
        assert(other[last].sibling.sums[asset] == path[last].sibling.sums[asset]);
        lemma_path_total_agrees(path.drop_last(), other.drop_last(), asset);
    }
}

/// A path with one sibling sum changed does not verify: where a witness
/// satisfies the constraints under a root, no path that differs from its
/// path in the sum of one asset at one level, and agrees with it on that
/// asset at every other level, satisfies them under that root.
pub proof fn law_tampered_sum_is_rejected(
    shape: Shape,
    entry: EntryView,
    path: Seq<StepView>,
    tampered: Seq<StepView>,
    root: NodeView,
    level: int,
    asset: int,
)
    requires
        inclusion_satisfied(shape, entry, path, root),
        tampered.len() == path.len(),
        0 <= level < path.len(),
        0 <= asset < shape.n_assets,
        tampered[level].sibling.sums[asset] != path[level].sibling.sums[asset],
        forall|k: int|
            0 <= k < path.len() && k != level ==> (#[trigger] tampered[k]).sibling.sums[asset]
                == path[k].sibling.sums[asset],
    ensures
        !inclusion_satisfied(shape, entry, tampered, root),
{
    if inclusion_satisfied(shape, entry, tampered, root) {
        let n_assets = shape.n_assets as nat;
        let leaf = leaf_node(entry);
        assert(uniform_path(path, n_assets)) by {
            assert forall|k: int| 0 <= k < path.len() implies (
            #[trigger] path[k]).sibling.sums.len() == n_assets by {
                assert(crate::circuits::inclusion::step_fits(path[k], shape));
            }
        }
        assert(uniform_path(tampered, n_assets)) by {
            assert forall|k: int| 0 <= k < tampered.len() implies (
            #[trigger] tampered[k]).sibling.sums.len() == n_assets by {
                assert(crate::circuits::inclusion::step_fits(tampered[k], shape));
            }
        }
        lemma_climb_adds_siblings(leaf, path, n_assets, asset);
        lemma_climb_adds_siblings(leaf, tampered, n_assets, asset);
        lemma_path_total_differs(path, tampered, level, asset);
    }
}

/// The two ways part at `level` in the digest of the sibling alone.
pub open spec fn differs_in_digest_at(
    path: Seq<StepView>,
    tampered: Seq<StepView>,
    level: int,
) -> bool {
    &&& tampered.len() == path.len()
    &&& 0 <= level < path.len()
    &&& tampered[level].sibling.hash != path[level].sibling.hash
    &&& tampered[level].sibling.sums == path[level].sibling.sums
    &&& tampered[level].direction == path[level].direction
    &&& forall|k: int| 0 <= k < path.len() && k != level ==> #[trigger] tampered[k] == path[k]
}

/// The preimage of the node that a step makes over `current`.
pub open spec fn step_preimage(current: NodeView, step: StepView) -> Seq<u8> {
    if step.direction == 0 {
        node_preimage(current.hash, current.sums, step.sibling.hash, step.sibling.sums)
    } else {
        node_preimage(step.sibling.hash, step.sibling.sums, current.hash, current.sums)
    }
}

/// At `height` the two ways hash different preimages to one digest.
pub open spec fn collides_at(
    start: NodeView,
    path: Seq<StepView>,
    tampered: Seq<StepView>,
    height: int,
) -> bool {
    let p = step_preimage(climb(start, path.take(height)), path[height]);
    let q = step_preimage(climb(start, tampered.take(height)), tampered[height]);
    p != q && keccak256_digest(p) == keccak256_digest(q)
}

/// Somewhere from `from` up to, not including, `to`, the two ways hash
/// different preimages to one digest.
pub open spec fn collides_between(
    start: NodeView,
    path: Seq<StepView>,
    tampered: Seq<StepView>,
    from: int,
    to: int,
) -> bool {
    exists|height: int| from <= height < to && collides_at(start, path, tampered, height)
}

/// Above the level at which two ways part in a digest, they have reached
/// nodes of the same sums and of different digests, unless they have
/// hashed different preimages to one digest on the way.
pub proof fn lemma_ways_stay_apart(
    start: NodeView,
    path: Seq<StepView>,
    tampered: Seq<StepView>,
    level: int,
    height: int,
)
    requires
        differs_in_digest_at(path, tampered, level),
        level < height <= path.len(),
    ensures
        climb(start, path.take(height)).sums == climb(start, tampered.take(height)).sums,
        collides_between(start, path, tampered, level, height) || climb(
            start,
            path.take(height),
        ).hash != climb(start, tampered.take(height)).hash,
    decreases height,
{
    let below = height - 1;
    let taken = path.take(height);
    let other = tampered.take(height);
    assert(taken.drop_last() =~= path.take(below));
    assert(other.drop_last() =~= tampered.take(below));
    assert(taken.last() == path[below]);
    assert(other.last() == tampered[below]);
    let current = climb(start, path.take(below));
    let twin = climb(start, tampered.take(below));
    let step = path[below];
    let changed = tampered[below];
    assert(climb(start, taken) == step_up(current, step));
    assert(climb(start, other) == step_up(twin, changed));
    if below == level {
        assert(path.take(below) =~= tampered.take(below));
        assert(current == twin);
    } else {
        lemma_ways_stay_apart(start, path, tampered, level, below);
        assert(changed == step);
    }
    if collides_between(start, path, tampered, level, below) {
        let at = choose|at: int| level <= at < below && collides_at(start, path, tampered, at);
        assert(level <= at < height && collides_at(start, path, tampered, at));
    } else {
        let p = step_preimage(current, step);
        let q = step_preimage(twin, changed);
        assert(step_up(current, step).hash == keccak256_digest(p));
        assert(step_up(twin, changed).hash == keccak256_digest(q));
        if step.direction == 0 {
            lemma_node_preimage_binds_digests(
                current.hash,
                step.sibling.hash,
                twin.hash,
                changed.sibling.hash,
                current.sums,
                step.sibling.sums,
            );
        } else {
            lemma_node_preimage_binds_digests(
                step.sibling.hash,
                current.hash,
                changed.sibling.hash,
                twin.hash,
                step.sibling.sums,
                current.sums,
            );
        }
        assert(p != q);
        if keccak256_digest(p) == keccak256_digest(q) {
            assert(collides_at(start, path, tampered, below));
        }
    }
}

/// A path with one sibling digest changed verifies only where the hash
/// fails: where a witness and the same witness with the digest of one
/// sibling changed both satisfy the constraints under one root, the two
/// ways hash different preimages to one digest at the level of the change
/// or above it.
pub proof fn law_tampered_digest_needs_collision(
    shape: Shape,
    entry: EntryView,
    path: Seq<StepView>,
    tampered: Seq<StepView>,
    root: NodeView,
    level: int,
)
    requires
        inclusion_satisfied(shape, entry, path, root),
        inclusion_satisfied(shape, entry, tampered, root),
        differs_in_digest_at(path, tampered, level),
    ensures
        collides_between(leaf_node(entry), path, tampered, level, path.len() as int),
        keccak_collision(),
{
    let leaf = leaf_node(entry);
    lemma_ways_stay_apart(leaf, path, tampered, level, path.len() as int);
    assert(path.take(path.len() as int) =~= path);
    assert(tampered.take(path.len() as int) =~= tampered);
    let at = choose|at: int| level <= at < path.len() && collides_at(leaf, path, tampered, at);
    let p = step_preimage(climb(leaf, path.take(at)), path[at]);
    let q = step_preimage(climb(leaf, tampered.take(at)), tampered[at]);
    assert(p != q && keccak256_digest(p) == keccak256_digest(q));
}

/// Where the two ways never hash different preimages to one digest, a path
/// with one sibling digest changed does not verify.
pub proof fn law_tampered_digest_is_rejected(
    shape: Shape,
    entry: EntryView,
    path: Seq<StepView>,
    tampered: Seq<StepView>,
    root: NodeView,
    level: int,
)
    requires
        inclusion_satisfied(shape, entry, path, root),
        differs_in_digest_at(path, tampered, level),
        !collides_between(leaf_node(entry), path, tampered, level, path.len() as int),
    ensures
        !inclusion_satisfied(shape, entry, tampered, root),
{
    if inclusion_satisfied(shape, entry, tampered, root) {
        law_tampered_digest_needs_collision(shape, entry, path, tampered, root, level);
    }
}

/// Reserves below the liabilities cannot be proved: where the claimed
/// reserve of one asset is less than the root's sum of it, the constraints
/// of the solvency circuit are not satisfied.
pub proof fn law_insolvency_is_unsatisfiable(
    shape: Shape,
    left: NodeView,
    right: NodeView,
    root_hash: Seq<u8>,
    reserves: Seq<nat>,
    asset: int,
)
    requires
        0 <= asset < parent_node(left, right).sums.len(),
        asset < reserves.len(),
        reserves[asset] < parent_node(left, right).sums[asset],
    ensures
        !solvency_satisfied(shape, left, right, root_hash, reserves),
{
}

/// Reserves that cover the liabilities can be proved: with the two nodes
/// below the root of a tree as witness and the root's digest as instance,
/// the constraints of the solvency circuit are satisfied exactly when the
/// claimed reserves cover the root's sums.
pub proof fn law_solvency_is_satisfiable(
    shape: Shape,
    left: NodeView,
    right: NodeView,
    reserves: Seq<nat>,
)
    requires
        shape.valid(),
        node_fits(left, shape),
        node_fits(right, shape),
        parent_node(left, right).in_range(shape.spec_max_amount()),
    ensures
        solvency_satisfied(shape, left, right, parent_node(left, right).hash, reserves)
            <==> reserves_cover(parent_node(left, right).sums, reserves, shape.spec_max_amount()),
{
}

} // verus!

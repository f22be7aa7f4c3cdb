//! The Merkle sum tree: a complete binary tree over the padded entries in
//! which every node carries a digest and, per asset, the sum of the sums
//! below it.

use vstd::prelude::*;
use vstd::arithmetic::power2::{pow2, lemma_pow2_adds, lemma_pow2_pos, lemma_pow2_unfold};
use crate::entry::{Entry, EntryView};
use crate::layers::{leaf_layer, level_above, next_layer, nodes_fit, pad_entries};
use crate::node::{Node, NodeView};
use crate::path::PathStep;
use crate::shape::Shape;
use crate::sorting::{
    lemma_sorted_is_permutation,
    lemma_sorted_members,
    lemma_sorted_total,
    sort_entries,
    sorted_entries,
};
use crate::tree_model::{
    ancestor,
    balance_total,
    lemma_ancestor_step,
    leaf_nodes,
    lemma_asset_total_part,
    lemma_leaf_total,
    lemma_padding_adds_nothing,
    lemma_root_sums_are_totals,
    lemma_subtree_len,
    lemma_subtree_sums,
    merkle_path,
    merkle_root,
    padded,
    path_step,
    sibling_of,
    span_start,
    subtree,
    uniform,
    uniform_entries,
};

verus! {

/// The order in which the entries take their leaves.
#[derive(Clone, Copy, Debug, PartialEq, Eq, Structural)]
pub enum BuildMode {
    /// In the order given.
    Natural,
    /// By identifier.
    Sorted,
}

/// Why a tree could not be built or queried.
#[derive(Clone, Copy, Debug, PartialEq, Eq, Structural)]
pub enum TreeError {
    /// The height or the byte width is out of bounds.
    InvalidShape,
    /// There are more entries than leaves.
    TooManyEntries,
    /// An entry does not have one balance per asset.
    AssetCountMismatch,
    /// A balance exceeds the byte width.
    BalanceOutOfRange,
    /// The total of an asset exceeds the byte width.
    SumOutOfRange,
    /// There is no leaf at the index.
    IndexOutOfRange,
}

/// The entries in the order in which `mode` assigns them to leaves.
pub open spec fn arranged(entries: Seq<EntryView>, mode: BuildMode) -> Seq<EntryView> {
    match mode {
        BuildMode::Natural => entries,
        BuildMode::Sorted => sorted_entries(entries),
    }
}

/// Some asset's total over `entries` exceeds `max`.
pub open spec fn some_total_exceeds(entries: Seq<EntryView>, n_assets: nat, max: nat) -> bool {
    exists|asset: int| 0 <= asset < n_assets && #[trigger] balance_total(entries, asset) > max
}

/// The error with which construction answers `entries`, if any. The
/// checks are made in the order in which they stand here.
pub open spec fn build_error(shape: Shape, entries: Seq<EntryView>) -> Option<TreeError> {
    if !shape.valid() {
        Some(TreeError::InvalidShape)
    } else if entries.len() > shape.spec_capacity() {
        Some(TreeError::TooManyEntries)
    } else if !uniform_entries(entries, shape.n_assets as nat) {
        Some(TreeError::AssetCountMismatch)
    } else if exists|i: int|
        0 <= i < entries.len() && !(#[trigger] entries[i]).in_range(shape.spec_max_amount()) {
        Some(TreeError::BalanceOutOfRange)
    } else if some_total_exceeds(entries, shape.n_assets as nat, shape.spec_max_amount()) {
        Some(TreeError::SumOutOfRange)
    } else {
        None
    }
}

/// Every node of `layer` is the node of the tree over `leaves` at its own
/// index on level `height`.
pub open spec fn layer_matches(layer: Seq<Node>, leaves: Seq<NodeView>, height: nat) -> bool {
    forall|j: int| 0 <= j < layer.len() ==> (#[trigger] layer[j])@ == subtree(leaves, height, j)
}

/// The mathematical value of a tree: its shape and its padded entries.
pub struct TreeView {
    pub shape: Shape,
    pub entries: Seq<EntryView>,
}

impl TreeView {
    /// The leaves of the tree.
    pub open spec fn leaves(&self) -> Seq<NodeView> {
        leaf_nodes(self.entries)
    }

    /// The root of the tree.
    pub open spec fn root(&self) -> NodeView {
        merkle_root(self.leaves(), self.shape.levels as nat)
    }

    /// The tree has a valid shape and one entry per leaf, every entry fits
    /// the shape, and so does the total of every asset.
    pub open spec fn valid(&self) -> bool {
        &&& self.shape.valid()
        &&& self.entries.len() == self.shape.spec_capacity()
        &&& forall|i: int|
            0 <= i < self.entries.len() ==> (#[trigger] self.entries[i]).fits(self.shape)
        &&& !some_total_exceeds(
            self.entries,
            self.shape.n_assets as nat,
            self.shape.spec_max_amount(),
        )
    }

    /// The tree is the one of the given shape over `entries`, arranged as
    /// `mode` says and padded with sentinel entries.
    pub open spec fn built_from(
        &self,
        shape: Shape,
        entries: Seq<EntryView>,
        mode: BuildMode,
    ) -> bool {
        &&& self.shape == shape
        &&& self.entries == padded(
            arranged(entries, mode),
            shape.spec_capacity(),
            shape.n_assets as nat,
        )
    }
}

/// A Merkle sum tree. It is built once and never changed.
pub struct MerkleSumTree {
    shape: Shape,
    entries: Vec<Entry>,
    layers: Vec<Vec<Node>>,
}

impl View for MerkleSumTree {
    type V = TreeView;

    closed spec fn view(&self) -> TreeView {
        TreeView { shape: self.shape, entries: self.entries.deep_view() }
    }
}

/// Whether every entry has `n_assets` balances.
pub fn all_have_assets(entries: &Vec<Entry>, n_assets: usize) -> (ok: bool)
    ensures
        ok == uniform_entries(entries.deep_view(), n_assets as nat),
{
    let mut i: usize = 0;
    while i < entries.len()
        invariant
            i <= entries@.len(),
            forall|j: int| 0 <= j < i ==> (#[trigger] entries@[j]).balances@.len() == n_assets,
        decreases entries@.len() - i,
    {
        if entries[i].balances.len() != n_assets {
            proof {
                let e = entries.deep_view();
                assert(e[i as int].balances.len() != n_assets);
            }
            return false;
        }
        i = i + 1;
    }
    proof {
        let e = entries.deep_view();
        assert forall|j: int| 0 <= j < e.len() implies (#[trigger] e[j]).balances.len()
            == n_assets by {
            assert(entries@[j].balances@.len() == n_assets);
        }
    }
    true
}

/// Whether no balance of any entry exceeds `max`.
pub fn all_in_range(entries: &Vec<Entry>, max: u128) -> (ok: bool)
    ensures
        ok == (forall|i: int|
            0 <= i < entries@.len() ==> (#[trigger] entries.deep_view()[i]).in_range(max as nat)),
{
    let mut i: usize = 0;
    while i < entries.len()
        invariant
            i <= entries@.len(),
            forall|j: int| 0 <= j < i ==> (#[trigger] entries.deep_view()[j]).in_range(max as nat),
        decreases entries@.len() - i,
    {
        let ok = crate::entry::all_within(&entries[i].balances, max);
        proof {
            let e = entries@[i as int];
            assert(entries.deep_view()[i as int] == e@);
            if ok {
                assert forall|a: int| 0 <= a < e@.balances.len() implies e@.balances[a]
                    <= max by {
                    assert(e.balances@[a] <= max);
                }
            } else {
                let a = choose|a: int| 0 <= a < e.balances@.len() && !(e.balances@[a] <= max);
                assert(e@.balances[a] > max);
            }
        }
        if !ok {
            return false;
        }
        i = i + 1;
    }
    true
}

/// The leaves below a node lie within the tree.
pub proof fn lemma_span_within(levels: nat, height: nat, index: int)
    requires
        height <= levels,
        0 <= index < pow2((levels - height) as nat),
    ensures
        0 <= span_start(height, index),
        span_start(height, index + 1) <= pow2(levels),
        span_start(height, index) <= span_start(height, index + 1),
{
    lemma_pow2_adds((levels - height) as nat, height);
    lemma_pow2_pos(height);
    let w = pow2(height) as int;
    let n = pow2((levels - height) as nat) as int;
    assert((index + 1) * w <= n * w) by (nonlinear_arith)
        requires
            index + 1 <= n,
            w > 0,
    ;
    assert(0 <= index * w) by (nonlinear_arith)
        requires
            0 <= index,
            w > 0,
    ;
    assert(index * w <= (index + 1) * w) by (nonlinear_arith)
        requires
            w > 0,
    ;
}

/// Where a node of the tree over the padded entries has a sum above
/// `max`, the total of that asset over the real entries is above `max`.
pub proof fn lemma_node_sum_bounds_total(
    entries: Seq<EntryView>,
    shape: Shape,
    height: nat,
    index: int,
)
    requires
        shape.valid(),
        entries.len() <= shape.spec_capacity(),
        uniform_entries(entries, shape.n_assets as nat),
        height <= shape.levels,
        0 <= index < pow2((shape.levels - height) as nat),
        !subtree(
            leaf_nodes(padded(entries, shape.spec_capacity(), shape.n_assets as nat)),
            height,
            index,
        ).in_range(shape.spec_max_amount()),
    ensures
        some_total_exceeds(entries, shape.n_assets as nat, shape.spec_max_amount()),
{
    let n_assets = shape.n_assets as nat;
    let levels = shape.levels as nat;
    let all = padded(entries, pow2(levels), n_assets);
    let leaves = leaf_nodes(all);
    let node = subtree(leaves, height, index);
    let max = shape.spec_max_amount();
    let asset = choose|a: int| 0 <= a < node.sums.len() && !(node.sums[a] <= max);
    lemma_span_within(levels, height, index);
    assert(uniform(leaves, n_assets)) by {
        assert forall|i: int| 0 <= i < leaves.len() implies (#[trigger] leaves[i]).sums.len()
            == n_assets by {
            if i < entries.len() {
                assert(entries[i].balances.len() == n_assets);
            }
        }
    }
    lemma_subtree_len(leaves, n_assets, height, index);
    lemma_subtree_sums(leaves, n_assets, height, index, asset);
    lemma_asset_total_part(
        leaves,
        asset,
        0,
        span_start(height, index),
        span_start(height, index + 1),
        leaves.len() as int,
    );
    lemma_leaf_total(all, asset);
    assert(uniform_entries(all, n_assets)) by {
        assert forall|i: int| 0 <= i < all.len() implies (#[trigger] all[i]).balances.len()
            == n_assets by {
            if i < entries.len() {
                assert(entries[i].balances.len() == n_assets);
            }
        }
    }
    lemma_root_sums_are_totals(all, n_assets, levels, asset);
    lemma_padding_adds_nothing(entries, n_assets, levels, asset);
    assert(balance_total(entries, asset) > max);
}

impl MerkleSumTree {
    /// The tree holds one entry per leaf, each fitting the shape, and on
    /// every level the nodes that the leaves determine.
    #[verifier::type_invariant]
    closed spec fn well_formed(&self) -> bool {
        &&& self.shape.valid()
        &&& self.entries@.len() == self.shape.spec_capacity()
        &&& forall|i: int|
            0 <= i < self.entries@.len() ==> (#[trigger] self.entries@[i])@.fits(self.shape)
        &&& self.layers@.len() == self.shape.levels + 1
        &&& forall|h: int|
            0 <= h <= self.shape.levels ==> {
                &&& (#[trigger] self.layers@[h])@.len() == pow2((self.shape.levels - h) as nat)
                &&& nodes_fit(
                    self.layers@[h]@,
                    self.shape.n_assets as nat,
                    self.shape.spec_max_amount(),
                )
                &&& layer_matches(self.layers@[h]@, self@.leaves(), h as nat)
            }
    }

    /// Builds the tree of the given shape over `entries`, which take the
    /// first leaves in the order that `mode` gives them; sentinel entries
    /// fill the rest.
    pub fn build(shape: Shape, entries: Vec<Entry>, mode: BuildMode) -> (result: Result<
        Self,
        TreeError,
    >)
        ensures
            match result {
                Ok(tree) => {
                    &&& build_error(shape, entries.deep_view()) is None
                    &&& tree@.built_from(shape, entries.deep_view(), mode)
                    &&& tree@.valid()
                },
                Err(error) => build_error(shape, entries.deep_view()) == Some(error),
            },
    {
        let ghost given = entries.deep_view();
        if !shape.is_valid() {
            return Err(TreeError::InvalidShape);
        }
        let capacity = shape.capacity();
        let max = shape.max_amount();
        if entries.len() > capacity {
            return Err(TreeError::TooManyEntries);
        }
        if !all_have_assets(&entries, shape.n_assets) {
            return Err(TreeError::AssetCountMismatch);
        }
        if !all_in_range(&entries, max) {
            proof {
                let i = choose|i: int|
                    0 <= i < entries@.len() && !(#[trigger] entries.deep_view()[i]).in_range(
                        max as nat,
                    );
                assert(!given[i].in_range(shape.spec_max_amount()));
            }
            return Err(TreeError::BalanceOutOfRange);
        }
        let ordered = match mode {
            BuildMode::Natural => entries,
            BuildMode::Sorted => sort_entries(entries),
        };
        let ghost placed = arranged(given, mode);
        proof {
            assert(ordered.deep_view() == placed);
            lemma_arranged_fits(given, mode, shape);
        }
        let all = pad_entries(ordered, capacity, shape.n_assets);
        let ghost padded_entries = padded(placed, capacity as nat, shape.n_assets as nat);
        let ghost leaves = leaf_nodes(padded_entries);
        let bottom = leaf_layer(&all);
        proof {
            assert forall|i: int| 0 <= i < all@.len() implies (#[trigger] all@[i])@.fits(shape) by {
                assert(all@[i]@ == padded_entries[i]);
                if i < placed.len() {
                    assert(placed[i].fits(shape));
                }
            }
            assert(nodes_fit(bottom@, shape.n_assets as nat, max as nat)) by {
                assert forall|i: int| 0 <= i < bottom@.len() implies {
                    &&& (#[trigger] bottom@[i]).hash@.len() == crate::hash::DIGEST_LEN
                    &&& bottom@[i].sums@.len() == shape.n_assets
                    &&& bottom@[i]@.in_range(max as nat)
                } by {
                    assert(bottom@[i]@ == bottom.deep_view()[i]);
                    assert(leaves[i] == crate::node::leaf_node(padded_entries[i]));
                    assert(all@[i]@.fits(shape));
                    assert(all@[i]@.balances.len() == all@[i].balances@.len());
                }
            }
            assert(layer_matches(bottom@, leaves, 0)) by {
                assert forall|j: int| 0 <= j < bottom@.len() implies (#[trigger] bottom@[j])@
                    == subtree(leaves, 0, j) by {
                    assert(bottom@[j]@ == bottom.deep_view()[j]);
                }
            }
        }
        let mut layers: Vec<Vec<Node>> = Vec::new();
        layers.push(bottom);
        let mut height: usize = 0;
        while height < shape.levels
            invariant
                shape.valid(),
                height <= shape.levels,
                max == shape.spec_max_amount(),
                capacity == shape.spec_capacity(),
                given == entries.deep_view(),
                given.len() <= capacity,
                uniform_entries(given, shape.n_assets as nat),
                forall|i: int|
                    0 <= i < given.len() ==> (#[trigger] given[i]).in_range(
                        shape.spec_max_amount(),
                    ),
                placed == arranged(given, mode),
                placed.len() == given.len(),
                uniform_entries(placed, shape.n_assets as nat),
                padded_entries == padded(placed, capacity as nat, shape.n_assets as nat),
                leaves == leaf_nodes(padded_entries),
                layers@.len() == height + 1,
                forall|h: int|
                    0 <= h <= height ==> {
                        &&& (#[trigger] layers@[h])@.len() == pow2((shape.levels - h) as nat)
                        &&& nodes_fit(layers@[h]@, shape.n_assets as nat, max as nat)
                        &&& layer_matches(layers@[h]@, leaves, h as nat)
                    },
            decreases shape.levels - height,
        {
            let below = &layers[height];
            proof {
                lemma_pow2_unfold((shape.levels - height) as nat);
            }
            let ghost target = level_above(below.deep_view());
            proof {
                assert forall|j: int| 0 <= j < below@.len() / 2 implies #[trigger] target[j]
                    == subtree(leaves, (height + 1) as nat, j) by {
                    assert(below.deep_view()[2 * j] == below@[2 * j]@);
                    assert(below.deep_view()[2 * j + 1] == below@[2 * j + 1]@);
                }
            }
            match next_layer(below, shape.n_assets, max) {
                None => {
                    proof {
                        let j = choose|j: int|
                            0 <= j < below@.len() / 2 && !(#[trigger] target[j]).in_range(
                                max as nat,
                            );
                        lemma_arranged_total(given, mode, shape);
                        lemma_node_sum_bounds_total(placed, shape, (height + 1) as nat, j);
                        assert(some_total_exceeds(
                            given,
                            shape.n_assets as nat,
                            shape.spec_max_amount(),
                        ));
                    }
                    return Err(TreeError::SumOutOfRange);
                },
                Some(above) => {
                    proof {
                        assert(above.deep_view().len() == above@.len());
                        assert(target.len() == below@.len() / 2);
                        assert(above@.len() == pow2((shape.levels - (height + 1)) as nat));
                        assert(layer_matches(above@, leaves, (height + 1) as nat)) by {
                            assert forall|j: int| 0 <= j < above@.len() implies (
                            #[trigger] above@[j])@ == subtree(leaves, (height + 1) as nat, j) by {
                                assert(above@[j]@ == above.deep_view()[j]);
                                assert(above.deep_view()[j] == target[j]);
                            }
                        }
                    }
                    let ghost before = layers@;
                    layers.push(above);
                    proof {
                        assert forall|h: int| 0 <= h <= height + 1 implies {
                            &&& (#[trigger] layers@[h])@.len() == pow2((shape.levels - h) as nat)
                            &&& nodes_fit(layers@[h]@, shape.n_assets as nat, max as nat)
                            &&& layer_matches(layers@[h]@, leaves, h as nat)
                        } by {
                            if h <= height {
                                assert(layers@[h] == before[h]);
                            }
                        }
                    }
                },
            }
            height = height + 1;
        }
        proof {
            let top = layers@[shape.levels as int]@;
            vstd::arithmetic::power2::lemma2_to64();
            assert(top.len() == 1);
            assert(top[0]@ == merkle_root(leaves, shape.levels as nat));
            assert(top[0]@.in_range(max as nat));
            lemma_arranged_total(given, mode, shape);
            assert(!some_total_exceeds(given, shape.n_assets as nat, shape.spec_max_amount())) by {
                assert forall|asset: int| 0 <= asset < shape.n_assets implies !(
                #[trigger] balance_total(given, asset) > shape.spec_max_amount()) by {
                    lemma_padding_adds_nothing(
                        placed,
                        shape.n_assets as nat,
                        shape.levels as nat,
                        asset,
                    );
                    lemma_root_sums_are_totals(
                        padded_entries,
                        shape.n_assets as nat,
                        shape.levels as nat,
                        asset,
                    );
                    assert(top[0]@.sums[asset] <= max);
                }
            }
        }
        let tree = MerkleSumTree { shape, entries: all, layers };
        proof {
            lemma_root_bounds_totals(tree@, tree@.root());
            assert forall|i: int| 0 <= i < tree@.entries.len() implies (
            #[trigger] tree@.entries[i]).fits(shape) by {
                assert(tree.entries@[i]@.fits(shape));
            }
        }
        Ok(tree)
    }

    /// The shape with which the tree was built.
    pub fn shape(&self) -> (shape: Shape)
        ensures
            shape == self@.shape,
            self@.valid(),
    {
        proof {
            use_type_invariant(self);
            assert forall|i: int| 0 <= i < self@.entries.len() implies (
            #[trigger] self@.entries[i]).fits(self.shape) by {
                assert(self.entries@[i]@.fits(self.shape));
            }
            vstd::arithmetic::power2::lemma2_to64();
            let top = self.layers@[self.shape.levels as int];
            assert(top@.len() == 1);
            assert(top@[0]@ == self@.root());
            lemma_root_bounds_totals(self@, self@.root());
        }
        self.shape
    }

    /// The top node: its digest commits to every entry, and its sums are
    /// the total liabilities per asset.
    pub fn root(&self) -> (root: &Node)
        ensures
            root@ == self@.root(),
            root.hash@.len() == crate::hash::DIGEST_LEN,
            root.sums@.len() == self@.shape.n_assets,
            root@.in_range(self@.shape.spec_max_amount()),
    {
        proof {
            use_type_invariant(self);
            vstd::arithmetic::power2::lemma2_to64();
            let top = self.layers@[self.shape.levels as int];
            assert(top@.len() == 1);
            assert(top@[0]@ == subtree(self@.leaves(), self.shape.levels as nat, 0));
        }
        &self.layers[self.shape.levels][0]
    }

    /// The two nodes below the root, left and right.
    pub fn root_children(&self) -> (children: (&Node, &Node))
        ensures
            children.0@ == subtree(self@.leaves(), (self@.shape.levels - 1) as nat, 0),
            children.1@ == subtree(self@.leaves(), (self@.shape.levels - 1) as nat, 1),
            self@.root() == crate::node::parent_node(children.0@, children.1@),
            children.0.hash@.len() == crate::hash::DIGEST_LEN,
            children.1.hash@.len() == crate::hash::DIGEST_LEN,
            children.0.sums@.len() == self@.shape.n_assets,
            children.1.sums@.len() == self@.shape.n_assets,
            children.0@.in_range(self@.shape.spec_max_amount()),
            children.1@.in_range(self@.shape.spec_max_amount()),
    {
        proof {
            use_type_invariant(self);
            vstd::arithmetic::power2::lemma2_to64();
            let below = self.layers@[self.shape.levels - 1];
            assert(below@.len() == 2);
            assert(below@[0]@ == subtree(self@.leaves(), (self.shape.levels - 1) as nat, 0));
            assert(below@[1]@ == subtree(self@.leaves(), (self.shape.levels - 1) as nat, 1));
        }
        let below = &self.layers[self.shape.levels - 1];
        (&below[0], &below[1])
    }

    /// The entry at leaf `index`: one of the entries given, or a sentinel.
    pub fn entry(&self, index: usize) -> (entry: &Entry)
        requires
            index < self@.shape.spec_capacity(),
        ensures
            entry@ == self@.entries[index as int],
            entry@.fits(self@.shape),
    {
        proof {
            use_type_invariant(self);
        }
        &self.entries[index]
    }

    /// The path from leaf `index` to the root, unless there is no such leaf.
    pub fn path(&self, index: usize) -> (result: Result<Vec<PathStep>, TreeError>)
        ensures
            match result {
                Ok(path) => {
                    &&& index < self@.shape.spec_capacity()
                    &&& path.deep_view() == merkle_path(
                        self@.leaves(),
                        self@.shape.levels as nat,
                        index as int,
                    )
                    &&& forall|k: int|
                        0 <= k < path@.len() ==> {
                            &&& (#[trigger] path@[k]).sibling.hash@.len() == crate::hash::DIGEST_LEN
                            &&& path@[k].sibling.sums@.len() == self@.shape.n_assets
                            &&& path@[k].sibling@.in_range(self@.shape.spec_max_amount())
                        }
                },
                Err(error) => error == TreeError::IndexOutOfRange && index
                    >= self@.shape.spec_capacity(),
            },
    {
        proof {
            use_type_invariant(self);
        }
        if index >= self.entries.len() {
            return Err(TreeError::IndexOutOfRange);
        }
        let ghost leaves = self@.leaves();
        let ghost levels = self.shape.levels as nat;
        let ghost target = merkle_path(leaves, levels, index as int);
        let mut path: Vec<PathStep> = Vec::new();
        let mut at: usize = index;
        let mut height: usize = 0;
        proof {
            vstd::arithmetic::power2::lemma2_to64();
            assert(ancestor(index as int, 0) == index);
        }
        while height < self.shape.levels
            invariant
                height <= self.shape.levels,
                levels == self.shape.levels,
                leaves == self@.leaves(),
                target == merkle_path(leaves, levels, index as int),
                at == ancestor(index as int, height as nat),
                at < pow2((levels - height) as nat),
                path@.len() == height,
                forall|k: int| 0 <= k < height ==> (#[trigger] path@[k])@ == target[k],
                forall|k: int|
                    0 <= k < height ==> {
                        &&& (#[trigger] path@[k]).sibling.hash@.len() == crate::hash::DIGEST_LEN
                        &&& path@[k].sibling.sums@.len() == self@.shape.n_assets
                        &&& path@[k].sibling@.in_range(self@.shape.spec_max_amount())
                    },
            decreases self.shape.levels - height,
        {
            proof {
                use_type_invariant(self);
                lemma_pow2_unfold((levels - height) as nat);
                lemma_ancestor_step(index as int, height as nat);
            }
            let layer = &self.layers[height];
            let beside: usize = if at % 2 == 0 {
                at + 1
            } else {
                at - 1
            };
            let node = &layer[beside];
            proof {
                assert(beside == sibling_of(at as int));
                assert(node@ == subtree(leaves, height as nat, beside as int));
                assert(target[height as int] == path_step(leaves, index as int, height as nat));
            }
            let step = PathStep { sibling: node.duplicate(), direction: (at % 2) as u8 };
            path.push(step);
            at = at / 2;
            height = height + 1;
        }
        proof {
            assert(path.deep_view() =~= target);
        }
        Ok(path)
    }
}

/// Where the root of a tree stays within the byte width, so does the total
/// of every asset.
pub proof fn lemma_root_bounds_totals(tree: TreeView, root: NodeView)
    requires
        tree.shape.valid(),
        tree.entries.len() == tree.shape.spec_capacity(),
        forall|i: int|
            0 <= i < tree.entries.len() ==> (#[trigger] tree.entries[i]).fits(tree.shape),
        root == tree.root(),
        root.in_range(tree.shape.spec_max_amount()),
    ensures
        !some_total_exceeds(tree.entries, tree.shape.n_assets as nat, tree.shape.spec_max_amount()),
{
    let n_assets = tree.shape.n_assets as nat;
    assert forall|asset: int| 0 <= asset < n_assets implies !(#[trigger] balance_total(
        tree.entries,
        asset,
    ) > tree.shape.spec_max_amount()) by {
        lemma_root_sums_are_totals(tree.entries, n_assets, tree.shape.levels as nat, asset);
        assert(root.sums[asset] <= tree.shape.spec_max_amount());
    }
}

/// Every node of a valid tree has one sum per asset, each within the byte
/// width.
pub proof fn lemma_nodes_in_range(tree: TreeView, height: nat, index: int)
    requires
        tree.valid(),
        height <= tree.shape.levels,
        0 <= index < pow2((tree.shape.levels - height) as nat),
    ensures
        subtree(tree.leaves(), height, index).sums.len() == tree.shape.n_assets,
        subtree(tree.leaves(), height, index).in_range(tree.shape.spec_max_amount()),
{
    let n_assets = tree.shape.n_assets as nat;
    let levels = tree.shape.levels as nat;
    let leaves = tree.leaves();
    let node = subtree(leaves, height, index);
    lemma_span_within(levels, height, index);
    assert(uniform(leaves, n_assets)) by {
        assert forall|i: int| 0 <= i < leaves.len() implies (#[trigger] leaves[i]).sums.len()
            == n_assets by {
            assert(tree.entries[i].fits(tree.shape));
        }
    }
    lemma_subtree_len(leaves, n_assets, height, index);
    assert forall|asset: int| 0 <= asset < node.sums.len() implies node.sums[asset]
        <= tree.shape.spec_max_amount() by {
        lemma_subtree_sums(leaves, n_assets, height, index, asset);
        lemma_asset_total_part(
            leaves,
            asset,
            0,
            span_start(height, index),
            span_start(height, index + 1),
            leaves.len() as int,
        );
        lemma_leaf_total(tree.entries, asset);
        assert(!(balance_total(tree.entries, asset) > tree.shape.spec_max_amount()));
    }
}

/// The arranged entries fit the shape where the given entries do.
pub proof fn lemma_arranged_fits(given: Seq<EntryView>, mode: BuildMode, shape: Shape)
    requires
        forall|i: int| 0 <= i < given.len() ==> (#[trigger] given[i]).fits(shape),
    ensures
        arranged(given, mode).len() == given.len(),
        forall|i: int|
            0 <= i < given.len() ==> (#[trigger] arranged(given, mode)[i]).fits(shape),
        uniform_entries(arranged(given, mode), shape.n_assets as nat),
{
    let placed = arranged(given, mode);
    lemma_sorted_is_permutation(given);
    assert forall|i: int| 0 <= i < given.len() implies (#[trigger] placed[i]).fits(shape) by {
        if mode == BuildMode::Sorted {
            lemma_sorted_members(given, i);
            let j = choose|j: int| 0 <= j < given.len() && given[j] == placed[i];
            assert(given[j].fits(shape));
        }
    }
}

/// The arranged entries have the totals of the given entries.
pub proof fn lemma_arranged_total(given: Seq<EntryView>, mode: BuildMode, shape: Shape)
    ensures
        forall|asset: int| #[trigger]
            balance_total(arranged(given, mode), asset) == balance_total(given, asset),
{
    assert forall|asset: int| #[trigger]
        balance_total(arranged(given, mode), asset) == balance_total(given, asset) by {
        lemma_sorted_total(given, asset);
    }
}

} // verus!

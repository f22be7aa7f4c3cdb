//! Merkle paths: from a leaf to the root, the node beside each node on the
//! way and the side on which it lies.

use vstd::prelude::*;
use crate::node::Node;
use crate::tree_model::StepView;

verus! {

/// One step of a path: the sibling's digest and sums, and the direction
/// bit, which is 0 where the node on the path is the left child and 1 where
/// it is the right child.
#[derive(Clone, Debug, PartialEq, Eq)]
pub struct PathStep {
    pub sibling: Node,
    pub direction: u8,
}

impl View for PathStep {
    type V = StepView;

    open spec fn view(&self) -> StepView {
        StepView { sibling: self.sibling@, direction: self.direction as nat }
    }
}

impl DeepView for PathStep {
    type V = StepView;

    open spec fn deep_view(&self) -> StepView {
        self@
    }
}

impl PathStep {
    /// A step of the same value.
    pub fn duplicate(&self) -> (copy: Self)
        ensures
            copy@ == self@,
            copy.sibling.hash@ == self.sibling.hash@,
            copy.sibling.sums@ == self.sibling.sums@,
            copy.direction == self.direction,
    {
        PathStep { sibling: self.sibling.duplicate(), direction: self.direction }
    }
}

} // verus!

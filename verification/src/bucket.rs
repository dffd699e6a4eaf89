//! The middle-node records that survive between the backward and forward
//! search phases.

use vstd::prelude::*;

use crate::graph::NodeId;
use crate::graph::Weight;

verus! {

/// One middle-node record: reaching (or leaving) `middle_node` for the row
/// or column numbered `column_index` costs `(weight, duration)`.
#[derive(Copy, Clone, Debug, PartialEq, Eq, Structural)]
pub struct Bucket {
    pub middle_node: NodeId,
    pub column_index: usize,
    pub weight: Weight,
    pub duration: Weight,
}

/// The bucket list is sorted by middle node, which is what lets the joiner
/// binary-search it.
pub open spec fn sorted_by_middle(ts: Seq<Bucket>) -> bool {
    forall|i: int, j: int|
        0 <= i <= j < ts.len() ==> #[trigger] ts[i].middle_node <= #[trigger] ts[j].middle_node
}

} // verus!

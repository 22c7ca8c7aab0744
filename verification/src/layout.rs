//! The records that an index file is made of.

use crate::distance::Point;
use vstd::prelude::*;

verus! {

/// A link to no node.
pub const NULL: u32 = u32::MAX;

/// A node of a vantage-point tree.
#[derive(Clone, Copy)]
pub struct Node {
    /// Quantised features of the vantage point, and two zero lanes.
    pub vector: [i16; 16],
    /// Squared radius that parts the two subtrees.
    pub radius_sq: i32,
    /// Index of the subtree inside the radius, or `NULL`.
    pub left: u32,
    /// Index of the subtree outside the radius, or `NULL`.
    pub right: u32,
    /// 1 for fraud, 0 for legit.
    pub label: u8,
}

impl Node {
    /// The labelled vector that the node holds.
    pub open spec fn point(self) -> Point {
        (self.vector, self.label)
    }
}

/// A partition: its key, its tree and the bounding box of its points.
#[derive(Clone, Copy)]
pub struct PartitionHeader {
    /// Partition key (eight bits).
    pub key: u32,
    /// Index of the root of its tree, or `NULL` if it has no points.
    pub root: u32,
    /// Number of its points.
    pub count: u32,
    /// Smallest value of each lane.
    pub min: [i16; 16],
    /// Largest value of each lane.
    pub max: [i16; 16],
}

}

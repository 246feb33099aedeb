//! The node flags of a buddy tree stored one byte per node.
use vstd::prelude::*;

verus! {

/// One node of a [`BuddyTree`]: whether it is split and whether it is occupied.
#[derive(Clone, Copy, PartialEq, Eq, Structural)]
pub struct BuddyTreeNode(pub u8);

impl BuddyTreeNode {
    pub const HAS_CHILDREN: u8 = 1;
    pub const IS_OCCUPIED: u8 = 2;
}

/// A buddy tree over `size` pages, one flag byte per node.
pub struct BuddyTree {
    pub size: usize,
    pub children: Vec<BuddyTreeNode>,
}

} // verus!

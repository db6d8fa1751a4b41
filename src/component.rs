//! The nine kinds of values that a BV graph writes for each node.
use vstd::prelude::*;

verus! {

/// The number of components.
pub const COMPONENTS: usize = 9;

/// A kind of value in the BV record of a node, in wire order.
#[derive(Clone, Copy, Debug, PartialEq, Eq, Hash, Structural)]
pub enum BVGraphComponent {
    Outdegree,
    ReferenceOffset,
    BlockCount,
    Blocks,
    IntervalCount,
    IntervalStart,
    IntervalLen,
    FirstResidual,
    Residual,
}

impl BVGraphComponent {
    /// The position of the component in wire order.
    pub open spec fn idx(self) -> nat {
        match self {
            BVGraphComponent::Outdegree => 0,
            BVGraphComponent::ReferenceOffset => 1,
            BVGraphComponent::BlockCount => 2,
            BVGraphComponent::Blocks => 3,
            BVGraphComponent::IntervalCount => 4,
            BVGraphComponent::IntervalStart => 5,
            BVGraphComponent::IntervalLen => 6,
            BVGraphComponent::FirstResidual => 7,
            BVGraphComponent::Residual => 8,
        }
    }

    /// Returns the position of the component in wire order.
    pub fn index(self) -> (r: usize)
        ensures
            r == self.idx(),
            r < COMPONENTS,
    {
        match self {
            BVGraphComponent::Outdegree => 0,
            BVGraphComponent::ReferenceOffset => 1,
            BVGraphComponent::BlockCount => 2,
            BVGraphComponent::Blocks => 3,
            BVGraphComponent::IntervalCount => 4,
            BVGraphComponent::IntervalStart => 5,
            BVGraphComponent::IntervalLen => 6,
            BVGraphComponent::FirstResidual => 7,
            BVGraphComponent::Residual => 8,
        }
    }

    /// Returns the component at position `i` in wire order.
    pub fn from_index(i: usize) -> (r: Option<BVGraphComponent>)
        ensures
            i < COMPONENTS <==> r is Some,
            r matches Some(c) ==> c.idx() == i,
    {
        match i {
            0 => Some(BVGraphComponent::Outdegree),
            1 => Some(BVGraphComponent::ReferenceOffset),
            2 => Some(BVGraphComponent::BlockCount),
            3 => Some(BVGraphComponent::Blocks),
            4 => Some(BVGraphComponent::IntervalCount),
            5 => Some(BVGraphComponent::IntervalStart),
            6 => Some(BVGraphComponent::IntervalLen),
            7 => Some(BVGraphComponent::FirstResidual),
            8 => Some(BVGraphComponent::Residual),
            _ => None,
        }
    }
}

} // verus!

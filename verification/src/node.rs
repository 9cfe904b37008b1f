//! Solver nodes: a targeted tape cell together with the cost of reaching it.

use vstd::prelude::*;

verus! {

/// One output step: the tape cell it writes and emits from, the cost charged
/// for it, and whether it was produced by a rolling loop.
///
/// Two nodes are equal exactly when they target the same tape cell; the cost
/// and the rolling flag do not take part in equality.
#[derive(Clone, Copy, Debug)]
pub struct Node {
    /// Tape pointer targeted by this step.
    pub pointer: i32,
    /// Cost charged for this step.
    pub cost: i32,
    /// True when the step was produced by a rolling loop.
    pub rolling: bool,
}

impl Node {
    /// Creates a non-rolling node at the given pointer with the supplied cost.
    pub fn new(pointer: i32, cost: i32) -> (n: Node)
        ensures
            n.pointer == pointer,
            n.cost == cost,
            !n.rolling,
    {
        Node { pointer, cost, rolling: false }
    }

    /// Creates a node flagged as originating from a rolling sequence.
    pub fn new_with_rolling(pointer: i32, cost: i32) -> (n: Node)
        ensures
            n.pointer == pointer,
            n.cost == cost,
            n.rolling,
    {
        Node { pointer, cost, rolling: true }
    }
}

impl PartialEq for Node {
    fn eq(&self, other: &Self) -> (r: bool) {
        self.pointer == other.pointer
    }
}

impl Eq for Node {

}

impl vstd::std_specs::cmp::PartialEqSpecImpl for Node {
    open spec fn obeys_eq_spec() -> bool {
        true
    }

    open spec fn eq_spec(&self, other: &Node) -> bool {
        self.pointer == other.pointer
    }
}

} // verus!

use vstd::prelude::*;

verus! {

/// State of a neuron node in the nebula graph.
///
/// Gray: at rest, not computed; Yellow: active or awaiting constraints;
/// Green: valid output; Purple: singular (mathematical fault), isolated.
#[derive(Debug, Clone, Copy, PartialEq, Eq, Structural)]
pub enum NodeState {
    Gray,
    Yellow,
    Green,
    Purple,
}

impl NodeState {
    /// A node is stable exactly when it is Green.
    pub fn is_stable(&self) -> (r: bool)
        ensures
            r <==> *self == NodeState::Green,
    {
        matches!(self, NodeState::Green)
    }

    /// The state's name in lower case.
    pub fn label(&self) -> (r: &'static str)
        ensures
            r@ == state_label(*self),
    {
        match self {
            NodeState::Gray => "gray",
            NodeState::Yellow => "yellow",
            NodeState::Green => "green",
            NodeState::Purple => "purple",
        }
    }
}

/// The lower-case name of a state.
pub open spec fn state_label(s: NodeState) -> Seq<char> {
    match s {
        NodeState::Gray => "gray"@,
        NodeState::Yellow => "yellow"@,
        NodeState::Green => "green"@,
        NodeState::Purple => "purple"@,
    }
}

} // verus!

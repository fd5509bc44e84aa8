use vstd::prelude::*;

verus! {

/// A call that builds the circuit was given arguments that no circuit can be
/// built from. The circuit is as it was before the call.
#[derive(Debug, Clone, Copy, PartialEq, Eq, Structural)]
pub enum ConstructionError {
    /// Two slices that go together differ in length.
    LengthMismatch { left: usize, right: usize },
    /// A hint was given no argument, so that its output has no depth.
    NoArguments,
}

/// A value was to be assigned to a node that is not an input. The node is as
/// it was before.
#[derive(Debug, Clone, Copy, PartialEq, Eq, Structural)]
pub struct InvalidAssignment {
    /// The node that was to be assigned.
    pub id: usize,
}

/// An evaluation could not run to its end.
#[derive(Debug, Clone, Copy, PartialEq, Eq, Structural)]
pub enum EvalError {
    /// A gate reads the input `id`, which lies at `depth` and was never
    /// assigned.
    UnfilledInput { id: usize, depth: u64 },
    /// An evaluation was given `values` values for `inputs` inputs, which are
    /// fewer.
    ExcessValues { inputs: usize, values: usize },
}

/// The nodes that the refusals name, in order.
pub open spec fn refused_ids(refused: Seq<InvalidAssignment>) -> Seq<usize> {
    refused.map_values(|r: InvalidAssignment| r.id)
}

} // verus!

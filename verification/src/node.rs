use vstd::prelude::*;

verus! {

/// What a caller holds of a node: its identifier in the store of the builder
/// that created it.
#[derive(Debug, Clone, Copy, PartialEq, Eq, Structural)]
pub struct NodeHandle {
    pub id: usize,
}

/// The identifiers of some handles, in order.
pub open spec fn ids_of(handles: Seq<NodeHandle>) -> Seq<usize> {
    handles.map_values(|h: NodeHandle| h.id)
}

} // verus!

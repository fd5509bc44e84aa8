use vstd::prelude::*;
use crate::builder::Derivation;
use crate::circuit::Circuit;

verus! {

/// What is known of a node when an asserted pair fails: its identifier, the
/// value it holds, its depth, how it comes by its value, and the nodes that the
/// value derives from, each with the value it holds.
#[derive(Debug)]
pub struct NodeReport<V> {
    pub id: usize,
    pub value: Option<V>,
    pub depth: u64,
    pub derivation: Derivation,
    pub parents: Vec<(usize, Option<V>)>,
}

/// An asserted pair whose nodes hold different values: its place among the
/// asserted pairs, and both nodes.
#[derive(Debug)]
pub struct ConstraintViolation<V> {
    pub index: usize,
    pub left: NodeReport<V>,
    pub right: NodeReport<V>,
}

impl<V> NodeReport<V> {
    /// Whether the report says of the node `id` what `circuit` holds of it
    /// and of its parents.
    pub open spec fn describes(&self, circuit: Circuit<V>, id: usize) -> bool {
        &&& self.id == id
        &&& self.value == circuit.nodes[id as int].value
        &&& self.depth == circuit.nodes[id as int].depth
        &&& self.derivation == circuit.nodes[id as int].derivation
        &&& self.parents@ == circuit.nodes[id as int].parents.map_values(
            |p: usize| (p, circuit.nodes[p as int].value),
        )
    }
}

impl<V> ConstraintViolation<V> {
    /// Whether this is the first asserted pair of `circuit` that does not
    /// agree, with both of its nodes as they are.
    pub open spec fn describes(&self, circuit: Circuit<V>) -> bool {
        &&& circuit.first_violation(self.index as int)
        &&& self.left.describes(circuit, circuit.assertions[self.index as int].0)
        &&& self.right.describes(circuit, circuit.assertions[self.index as int].1)
    }
}

} // verus!

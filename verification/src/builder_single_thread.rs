use vstd::prelude::*;
use crate::builder::Derivation;
use crate::circuit::Circuit;
use crate::circuit::GateModel;
use crate::circuit::LevelModel;
use crate::circuit::NodeModel;
use crate::circuit::is_function;
use crate::circuit::is_gate_kind;
use crate::error::EvalError;
use crate::field::Field;
use crate::graph_builder::product_relation;
use crate::graph_builder::sum_relation;
use crate::node::NodeHandle;
use crate::report::ConstraintViolation;
use crate::report::NodeReport;

verus! {

/// A node of the store: the value it holds, if it holds one, its depth, its
/// identifier, the nodes its value derives from, and how.
#[derive(Debug)]
pub struct Node<F: Field> {
    pub value: Option<F>,
    pub depth: u64,
    pub id: usize,
    pub parents: Vec<usize>,
    pub derivation: Derivation,
}

impl<F: Field> View for Node<F> {
    type V = NodeModel<F>;

    open spec fn view(&self) -> NodeModel<F> {
        NodeModel {
            value: self.value,
            depth: self.depth as nat,
            parents: self.parents@,
            derivation: self.derivation,
        }
    }
}

impl<F: Field> Node<F> {
    /// Puts `value` in place of what the node holds.
    fn set_value(&mut self, value: Option<F>)
        ensures
            final(self).value == value,
            final(self).depth == old(self).depth,
            final(self).id == old(self).id,
            final(self).parents == old(self).parents,
            final(self).derivation == old(self).derivation,
    {
        self.value = value;
    }

    /// The value that the node holds.
    pub fn read(&self) -> (value: F)
        requires
            self.value is Some,
        ensures
            self.value == Some(value),
    {
        self.value.unwrap()
    }
}

/// An addition gate: the identifiers of its two operands and of its output.
#[derive(Debug)]
pub struct AddGate {
    pub left_input: usize,
    pub right_input: usize,
    pub output: usize,
}

impl AddGate {
    /// This gate as the contracts see it, over the values of `F`.
    pub open spec fn model<F: Field>(&self) -> GateModel<F> {
        GateModel {
            inputs: seq![self.left_input, self.right_input],
            output: self.output,
            relation: sum_relation::<F>(),
        }
    }
}

/// A multiplication gate: the identifiers of its two operands and of its
/// output.
#[derive(Debug)]
pub struct MultiplyGate {
    pub left_input: usize,
    pub right_input: usize,
    pub output: usize,
}

impl MultiplyGate {
    /// This gate as the contracts see it, over the values of `F`.
    pub open spec fn model<F: Field>(&self) -> GateModel<F> {
        GateModel {
            inputs: seq![self.left_input, self.right_input],
            output: self.output,
            relation: product_relation::<F>(),
        }
    }
}

/// The gates of one depth level, by kind.
#[derive(Debug)]
pub struct LevelGates {
    pub adder_gates: Vec<AddGate>,
    pub multiplier_gates: Vec<MultiplyGate>,
}

impl LevelGates {
    /// The level as the contracts see it, over the values of `F`.
    pub open spec fn model<F: Field>(&self) -> LevelModel<F> {
        LevelModel {
            adds: self.adder_gates@.map_values(|g: AddGate| g.model::<F>()),
            muls: self.multiplier_gates@.map_values(|g: MultiplyGate| g.model::<F>()),
            hints: Seq::empty(),
        }
    }
}

/// A pair of nodes that are asserted to hold the same value.
#[derive(Debug, Clone, Copy, PartialEq, Eq, Structural)]
pub struct EqualityAssertion {
    pub left_node: usize,
    pub right_node: usize,
}

/// A circuit of additions and multiplications over the values of `F`, under
/// construction and evaluation on one thread: the store of its nodes, its
/// inputs and its constants in the order of their creation, its gates by level
/// and kind, and the asserted pairs.
#[derive(Debug)]
pub struct BuilderSingleThread<F: Field> {
    nodes: Vec<Node<F>>,
    input_nodes: Vec<usize>,
    constant_nodes: Vec<usize>,
    gates_per_level: Vec<LevelGates>,
    assertions: Vec<EqualityAssertion>,
}

impl<F: Field> View for BuilderSingleThread<F> {
    type V = Circuit<F>;

    closed spec fn view(&self) -> Circuit<F> {
        Circuit {
            nodes: self.nodes@.map_values(|n: Node<F>| n@),
            levels: self.gates_per_level@.map_values(|l: LevelGates| l.model::<F>()),
            assertions: self.assertions@.map_values(
                |a: EqualityAssertion| (a.left_node, a.right_node),
            ),
        }
    }
}

impl<F: Field> Default for BuilderSingleThread<F> {
    fn default() -> (builder: Self)
        ensures
            builder.wf(),
            builder@ == Circuit::<F>::empty(),
            builder.inputs() == Seq::<usize>::empty(),
    {
        Self::new()
    }
}

impl<F: Field> BuilderSingleThread<F> {
    /// The identifiers of the inputs, in the order of their creation.
    pub closed spec fn inputs(&self) -> Seq<usize> {
        self.input_nodes@
    }

    /// What the store keeps beside the circuit: each node carries its
    /// identifier, and the inputs and the constants are listed as what they
    /// are.
    pub closed spec fn inv(&self) -> bool {
        &&& forall|i: int| 0 <= i < self.nodes.len() ==> (#[trigger] self.nodes[i]).id == i
        &&& forall|t: int|
            0 <= t < self.input_nodes.len() ==> (#[trigger] self.input_nodes[t]) < self.nodes.len()
                && self.nodes[self.input_nodes[t] as int].derivation == Derivation::Input
        &&& forall|t: int|
            0 <= t < self.constant_nodes.len() ==> (#[trigger] self.constant_nodes[t])
                < self.nodes.len() && self.nodes[self.constant_nodes[t] as int].derivation
                == Derivation::Const
    }

    /// Whether the builder is well formed: its circuit is, what it lists as
    /// inputs are inputs of the circuit, and the store is in order.
    pub open spec fn wf(&self) -> bool {
        &&& self@.wf()
        &&& self.inv()
        &&& self@.contains_all(self.inputs())
        &&& forall|t: int|
            0 <= t < self.inputs().len() ==> self@.nodes[#[trigger] self.inputs()[t] as int].derivation
                == Derivation::Input
    }

    /// Whether the handle names a node of this builder.
    pub open spec fn holds(&self, node: NodeHandle) -> bool {
        self@.contains(node.id)
    }

    /// An empty circuit.
    pub fn new() -> (builder: Self)
        ensures
            builder.wf(),
            builder@ == Circuit::<F>::empty(),
            builder.inputs() == Seq::<usize>::empty(),
    {
        let builder = BuilderSingleThread {
            nodes: Vec::new(),
            input_nodes: Vec::new(),
            constant_nodes: Vec::new(),
            gates_per_level: Vec::new(),
            assertions: Vec::new(),
        };
        proof {
            assert(builder@ =~= Circuit::<F>::empty());
        }
        builder
    }

    /// Adds an input, and returns its handle. The input holds no value until
    /// an evaluation assigns one.
    pub fn init(&mut self) -> (node: NodeHandle)
        requires
            old(self).wf(),
        ensures
            final(self).wf(),
            final(self)@ == old(self)@.with_input(),
            final(self).inputs() == old(self).inputs().push(node.id),
            node.id == old(self)@.nodes.len(),
    {
        let id = self.nodes.len();
        self.nodes.push(
            Node { value: None, depth: 0, id, parents: Vec::new(), derivation: Derivation::Input },
        );
        self.input_nodes.push(id);
        proof {
            assert(self.nodes.len() <= usize::MAX);
            assert(self@ =~= old(self)@.with_input());
            old(self)@.lemma_with_source(Derivation::Input, None);
            assert forall|t: int| 0 <= t < self.inputs().len() implies self@.contains(
                #[trigger] self.inputs()[t],
            ) && self@.nodes[self.inputs()[t] as int].derivation == Derivation::Input by {
                if t < old(self).inputs().len() {
                    assert(old(self)@.contains(old(self).inputs()[t]));
                }
            }
        }
        NodeHandle { id }
    }

    /// Adds a constant that holds `value`, and returns its handle.
    pub fn constant(&mut self, value: F) -> (node: NodeHandle)
        requires
            old(self).wf(),
        ensures
            final(self).wf(),
            final(self)@ == old(self)@.with_constant(value),
            final(self).inputs() == old(self).inputs(),
            node.id == old(self)@.nodes.len(),
    {
        let id = self.nodes.len();
        self.nodes.push(
            Node {
                value: Some(value),
                depth: 0,
                id,
                parents: Vec::new(),
                derivation: Derivation::Const,
            },
        );
        self.constant_nodes.push(id);
        proof {
            assert(self.nodes.len() <= usize::MAX);
            assert(self@ =~= old(self)@.with_constant(value));
            old(self)@.lemma_with_source(Derivation::Const, Some(value));
            assert forall|t: int| 0 <= t < self.inputs().len() implies self@.contains(
                #[trigger] self.inputs()[t],
            ) && self@.nodes[self.inputs()[t] as int].derivation == Derivation::Input by {
                assert(old(self)@.contains(old(self).inputs()[t]));
            }
        }
        NodeHandle { id }
    }

    /// Adds an addition gate over `a` and `b`, and returns the handle of its
    /// output, which lies one level above the deeper of the two.
    pub fn add(&mut self, a: &NodeHandle, b: &NodeHandle) -> (node: NodeHandle)
        requires
            old(self).wf(),
            old(self).holds(*a),
            old(self).holds(*b),
        ensures
            final(self).wf(),
            final(self)@ == old(self)@.with_gate(
                Derivation::Add,
                seq![a.id, b.id],
                sum_relation::<F>(),
            ),
            final(self).inputs() == old(self).inputs(),
            node.id == old(self)@.nodes.len(),
    {
        let a_depth = self.nodes[a.id].depth;
        let b_depth = self.nodes[b.id].depth;
        let depth_gate = if a_depth > b_depth {
            a_depth
        } else {
            b_depth
        };
        let id = self.nodes.len();
        let ghost inputs = seq![a.id, b.id];
        let ghost before = self@;
        proof {
            before.lemma_max_depth_pair(a.id, b.id);
            assert(before.takes(Derivation::Add, inputs));
            before.lemma_gate_level(inputs);
        }
        let mut parents = Vec::new();
        parents.push(a.id);
        parents.push(b.id);
        self.nodes.push(
            Node { value: None, depth: depth_gate + 1, id, parents, derivation: Derivation::Add },
        );
        proof {
            assert(self.nodes.len() <= usize::MAX);
            before.lemma_with_gate(Derivation::Add, inputs, sum_relation::<F>());
        }
        if self.gates_per_level.len() <= depth_gate as usize {
            self.gates_per_level.push(
                LevelGates { adder_gates: Vec::new(), multiplier_gates: Vec::new() },
            );
        }
        self.gates_per_level[depth_gate as usize].adder_gates.push(
            AddGate { left_input: a.id, right_input: b.id, output: id },
        );
        proof {
            let after = before.with_gate(Derivation::Add, inputs, sum_relation::<F>());
            assert(parents@ =~= inputs);
            assert(self@.nodes =~= after.nodes);
            assert(self@.levels =~= after.levels) by {
                assert forall|k: int| 0 <= k < after.levels.len() implies self@.levels[k]
                    == after.levels[k] by {
                    assert(self@.levels[k] =~= after.levels[k]);
                }
            }
            assert(self@ =~= after);
            assert forall|t: int| 0 <= t < self.inputs().len() implies self@.contains(
                #[trigger] self.inputs()[t],
            ) && self@.nodes[self.inputs()[t] as int].derivation == Derivation::Input by {
                assert(before.contains(old(self).inputs()[t]));
            }
        }
        NodeHandle { id }
    }

    /// Adds a multiplication gate over `a` and `b`, and returns the handle of
    /// its output, which lies one level above the deeper of the two.
    pub fn mul(&mut self, a: &NodeHandle, b: &NodeHandle) -> (node: NodeHandle)
        requires
            old(self).wf(),
            old(self).holds(*a),
            old(self).holds(*b),
        ensures
            final(self).wf(),
            final(self)@ == old(self)@.with_gate(
                Derivation::Mul,
                seq![a.id, b.id],
                product_relation::<F>(),
            ),
            final(self).inputs() == old(self).inputs(),
            node.id == old(self)@.nodes.len(),
    {
        let a_depth = self.nodes[a.id].depth;
        let b_depth = self.nodes[b.id].depth;
        let depth_gate = if a_depth > b_depth {
            a_depth
        } else {
            b_depth
        };
        let id = self.nodes.len();
        let ghost inputs = seq![a.id, b.id];
        let ghost before = self@;
        proof {
            before.lemma_max_depth_pair(a.id, b.id);
            assert(before.takes(Derivation::Mul, inputs));
            before.lemma_gate_level(inputs);
        }
        let mut parents = Vec::new();
        parents.push(a.id);
        parents.push(b.id);
        self.nodes.push(
            Node { value: None, depth: depth_gate + 1, id, parents, derivation: Derivation::Mul },
        );
        proof {
            assert(self.nodes.len() <= usize::MAX);
            before.lemma_with_gate(Derivation::Mul, inputs, product_relation::<F>());
        }
        if self.gates_per_level.len() <= depth_gate as usize {
            self.gates_per_level.push(
                LevelGates { adder_gates: Vec::new(), multiplier_gates: Vec::new() },
            );
        }
        self.gates_per_level[depth_gate as usize].multiplier_gates.push(
            MultiplyGate { left_input: a.id, right_input: b.id, output: id },
        );
        proof {
            let after = before.with_gate(Derivation::Mul, inputs, product_relation::<F>());
            assert(parents@ =~= inputs);
            assert(self@.nodes =~= after.nodes);
            assert(self@.levels =~= after.levels) by {
                assert forall|k: int| 0 <= k < after.levels.len() implies self@.levels[k]
                    == after.levels[k] by {
                    assert(self@.levels[k] =~= after.levels[k]);
                }
            }
            assert(self@ =~= after);
            assert forall|t: int| 0 <= t < self.inputs().len() implies self@.contains(
                #[trigger] self.inputs()[t],
            ) && self@.nodes[self.inputs()[t] as int].derivation == Derivation::Input by {
                assert(before.contains(old(self).inputs()[t]));
            }
        }
        NodeHandle { id }
    }

    /// Asserts that `a` and `b` hold the same value, for `check_constraints`
    /// to check, and returns the pair.
    pub fn assert_equal(&mut self, a: &NodeHandle, b: &NodeHandle) -> (pair: EqualityAssertion)
        requires
            old(self).wf(),
            old(self).holds(*a),
            old(self).holds(*b),
        ensures
            final(self).wf(),
            final(self)@ == old(self)@.with_assertion(a.id, b.id),
            final(self).inputs() == old(self).inputs(),
            pair == (EqualityAssertion { left_node: a.id, right_node: b.id }),
    {
        let pair = EqualityAssertion { left_node: a.id, right_node: b.id };
        self.assertions.push(pair);
        proof {
            assert(self@.assertions =~= old(self)@.with_assertion(a.id, b.id).assertions);
            assert(self@ =~= old(self)@.with_assertion(a.id, b.id));
            old(self)@.lemma_with_assertion(a.id, b.id);
        }
        pair
    }

    /// Whether `node` names a node of this builder.
    pub fn contains(&self, node: &NodeHandle) -> (held: bool)
        requires
            self.wf(),
        ensures
            held == self.holds(*node),
    {
        node.id < self.nodes.len()
    }

    /// The number of nodes.
    pub fn len(&self) -> (count: usize)
        requires
            self.wf(),
        ensures
            count == self@.nodes.len(),
    {
        self.nodes.len()
    }

    /// The node that `node` names, as the store holds it.
    pub fn get(&self, node: &NodeHandle) -> (raw: &Node<F>)
        requires
            self.wf(),
            self.holds(*node),
        ensures
            raw@ == self@.nodes[node.id as int],
            raw.id == node.id,
    {
        &self.nodes[node.id]
    }

    /// The first input without a value that an evaluation would read, if
    /// there is one: gates are taken level by level, and within a level the
    /// additions first, then the multiplications.
    pub fn first_unfilled(&self) -> (found: Option<usize>)
        requires
            self.wf(),
        ensures
            found == self@.first_missing(),
            found is Some ==> self@.contains(found.unwrap()) && self@.unassigned(found.unwrap()),
    {
        let mut k: usize = 0;
        while k < self.gates_per_level.len()
            invariant
                0 <= k <= self.gates_per_level@.len(),
                self.wf(),
                self@.first_missing() == self@.missing_from(k as int),
            decreases self.gates_per_level@.len() - k,
        {
            let level = &self.gates_per_level[k];
            let ghost here = self@.levels[k as int];
            assert(here == level.model::<F>());
            assert(here.list(Derivation::Add) == here.adds);
            assert(here.list(Derivation::Mul) == here.muls);
            assert(self@.missing_in(here.hints, 0) is None);
            let mut j: usize = 0;
            while j < level.adder_gates.len()
                invariant
                    0 <= j <= level.adder_gates@.len(),
                    self.wf(),
                    0 <= k < self.gates_per_level@.len(),
                    here == self@.levels[k as int],
                    here == level.model::<F>(),
                    self@.first_missing() == self@.missing_from(k as int),
                    here.list(Derivation::Add) == here.adds,
                    self@.missing_in(here.adds, 0) == self@.missing_in(here.adds, j as int),
                decreases level.adder_gates@.len() - j,
            {
                let gate = &level.adder_gates[j];
                proof {
                    assert(here.adds[j as int] == gate.model::<F>());
                    self@.lemma_operand(k as int, Derivation::Add, j as int, 0);
                    self@.lemma_operand(k as int, Derivation::Add, j as int, 1);
                }
                match self.scan_pair(gate.left_input, gate.right_input) {
                    Some(id) => {
                        return Some(id);
                    },
                    None => {},
                }
                j = j + 1;
            }
            let mut j: usize = 0;
            while j < level.multiplier_gates.len()
                invariant
                    0 <= j <= level.multiplier_gates@.len(),
                    self.wf(),
                    0 <= k < self.gates_per_level@.len(),
                    here == self@.levels[k as int],
                    here == level.model::<F>(),
                    self@.first_missing() == self@.missing_from(k as int),
                    here.list(Derivation::Mul) == here.muls,
                    self@.missing_in(here.adds, 0) is None,
                    self@.missing_in(here.hints, 0) is None,
                    self@.missing_in(here.muls, 0) == self@.missing_in(here.muls, j as int),
                decreases level.multiplier_gates@.len() - j,
            {
                let gate = &level.multiplier_gates[j];
                proof {
                    assert(here.muls[j as int] == gate.model::<F>());
                    self@.lemma_operand(k as int, Derivation::Mul, j as int, 0);
                    self@.lemma_operand(k as int, Derivation::Mul, j as int, 1);
                }
                match self.scan_pair(gate.left_input, gate.right_input) {
                    Some(id) => {
                        return Some(id);
                    },
                    None => {},
                }
                j = j + 1;
            }
            k = k + 1;
        }
        None
    }

    /// Assigns each of `node_values` to the input at its place in the order
    /// of creation, and evaluates the circuit: every gate writes to its output
    /// what it makes of its operands, level by level from the lowest, and
    /// within a level the additions first, then the multiplications. Inputs
    /// beyond the values given keep what they hold.
    ///
    /// More values than inputs are refused, and nothing is assigned. Where a
    /// gate reads an input that is still without a value after the
    /// assignment, nothing is evaluated, and the call names the first such
    /// input in that order.
    pub fn fill_nodes(&mut self, node_values: Vec<F>) -> (result: Result<(), EvalError>)
        requires
            old(self).wf(),
        ensures
            final(self).wf(),
            final(self).inputs() == old(self).inputs(),
            node_values@.len() > old(self).inputs().len() ==> result == Err::<(), EvalError>(
                EvalError::ExcessValues {
                    inputs: old(self).inputs().len() as usize,
                    values: node_values@.len() as usize,
                },
            ) && final(self)@ == old(self)@,
            node_values@.len() <= old(self).inputs().len() ==> ({
                let assigned = old(self)@.with_assignments(
                    old(self).inputs().take(node_values@.len() as int),
                    node_values@,
                );
                match result {
                    Ok(()) => {
                        &&& assigned.first_missing() is None
                        &&& assigned.sources_kept(final(self)@)
                        &&& final(self)@.evaluated()
                    },
                    Err(error) => {
                        &&& assigned.first_missing() is Some
                        &&& error == (EvalError::UnfilledInput {
                            id: assigned.first_missing().unwrap(),
                            depth: assigned.nodes[assigned.first_missing().unwrap() as int].depth as u64,
                        })
                        &&& final(self)@ == assigned
                    },
                }
            }),
    {
        if node_values.len() > self.input_nodes.len() {
            return Err(
                EvalError::ExcessValues { inputs: self.input_nodes.len(), values: node_values.len() },
            );
        }
        let ghost initial = self@;
        let ghost ids = self.inputs().take(node_values@.len() as int);
        proof {
            assert(ids.take(0) =~= Seq::<usize>::empty());
            assert forall|t: int| 0 <= t < ids.len() implies initial.contains(
                #[trigger] ids[t],
            ) by {
                assert(initial.contains(self.inputs()[t]));
            }
        }
        let mut i: usize = 0;
        while i < node_values.len()
            invariant
                0 <= i <= node_values@.len(),
                node_values@.len() <= self.inputs().len(),
                initial.wf(),
                initial.contains_all(ids),
                ids == self.inputs().take(node_values@.len() as int),
                self.inputs() == old(self).inputs(),
                old(self).wf(),
                initial == old(self)@,
                self.inv(),
                self@ == initial.with_assignments(ids.take(i as int), node_values@.take(i as int)),
            decreases node_values@.len() - i,
        {
            let id = self.input_nodes[i];
            proof {
                assert(ids[i as int] == id);
                assert(initial.contains(ids[i as int]));
                assert(ids.take(i as int + 1).drop_last() =~= ids.take(i as int));
                assert(node_values@.take(i as int + 1).drop_last() =~= node_values@.take(i as int));
                initial.lemma_with_assignments(ids.take(i as int), node_values@.take(i as int));
                assert(initial.nodes[old(self).inputs()[i as int] as int].derivation
                    == Derivation::Input);
            }
            self.store(id, node_values[i]);
            i = i + 1;
        }
        let ghost assigned = self@;
        proof {
            assert(ids.take(i as int) =~= ids);
            assert(node_values@.take(i as int) =~= node_values@);
            initial.lemma_with_assignments(ids, node_values@);
            assert(self.wf()) by {
                assert forall|t: int| 0 <= t < self.inputs().len() implies self@.contains(
                    #[trigger] self.inputs()[t],
                ) && self@.nodes[self.inputs()[t] as int].derivation == Derivation::Input by {
                    assert(initial.contains(old(self).inputs()[t]));
                }
            }
        }
        match self.first_unfilled() {
            Some(id) => {
                return Err(EvalError::UnfilledInput { id, depth: self.nodes[id].depth });
            },
            None => {},
        }
        proof {
            assigned.lemma_first_missing();
        }
        let mut k: usize = 0;
        while k < self.gates_per_level.len()
            invariant
                0 <= k <= self.gates_per_level@.len(),
                self@.wf(),
                self.inv(),
                self.inputs() == old(self).inputs(),
                assigned.wf(),
                assigned.sources_kept(self@),
                self@.supplied(),
                self@.done(k as int, Derivation::Add, 0),
            decreases self.gates_per_level@.len() - k,
        {
            let ghost level = k as int;
            proof {
                let here = self@.levels[level];
                assert(here == self.gates_per_level[level].model::<F>());
                assert(here.list(Derivation::Add) == here.adds);
            }
            let mut j: usize = 0;
            while j < self.gates_per_level[k].adder_gates.len()
                invariant
                    0 <= k < self.gates_per_level@.len(),
                    level == k,
                    0 <= j <= self.gates_per_level[level].adder_gates@.len(),
                    self@.wf(),
                    self.inv(),
                    self.inputs() == old(self).inputs(),
                    assigned.wf(),
                    assigned.sources_kept(self@),
                    self@.supplied(),
                    self@.done(level, Derivation::Add, j as int),
                decreases self.gates_per_level[level].adder_gates@.len() - j,
            {
                let ghost start = self@;
                proof {
                    let here = start.levels[level];
                    assert(here == self.gates_per_level[level].model::<F>());
                    assert(here.list(Derivation::Add) == here.adds);
                    assert(here.adds[j as int] == self.gates_per_level[level].adder_gates[j as int].model::<F>());
                    start.lemma_ready(level, Derivation::Add, j as int);
                    F::lemma_operators();
                }
                let left_id = self.gates_per_level[k].adder_gates[j].left_input;
                let right_id = self.gates_per_level[k].adder_gates[j].right_input;
                let output = self.gates_per_level[k].adder_gates[j].output;
                proof {
                    let gate = start.levels[level].list(Derivation::Add)[j as int];
                    assert(gate.inputs[0] == left_id && gate.inputs[1] == right_id);
                    assert(start.contains(gate.inputs[0]) && start.contains(gate.inputs[1]));
                    assert(start.nodes[left_id as int] == self.nodes[left_id as int]@);
                    assert(start.nodes[right_id as int] == self.nodes[right_id as int]@);
                }
                let left = self.nodes[left_id].read();
                let right = self.nodes[right_id].read();
                let sum = left + right;
                proof {
                    let gate = start.levels[level].list(Derivation::Add)[j as int];
                    assert(start.values_of(gate.inputs)[0] == left);
                    assert(start.values_of(gate.inputs)[1] == right);
                    start.lemma_write(level, Derivation::Add, j as int, sum);
                }
                self.store(output, sum);
                proof {
                    assigned.lemma_sources_kept_trans(start, self@);
                    start.lemma_supplied_kept(self@);
                }
                j = j + 1;
            }
            proof {
                let here = self@.levels[level];
                assert(here == self.gates_per_level[level].model::<F>());
                assert(here.list(Derivation::Add) == here.adds);
                assert(here.list(Derivation::Mul) == here.muls);
                self@.lemma_done_next(level, Derivation::Add);
            }
            let mut j: usize = 0;
            while j < self.gates_per_level[k].multiplier_gates.len()
                invariant
                    0 <= k < self.gates_per_level@.len(),
                    level == k,
                    0 <= j <= self.gates_per_level[level].multiplier_gates@.len(),
                    self@.wf(),
                    self.inv(),
                    self.inputs() == old(self).inputs(),
                    assigned.wf(),
                    assigned.sources_kept(self@),
                    self@.supplied(),
                    self@.done(level, Derivation::Mul, j as int),
                decreases self.gates_per_level[level].multiplier_gates@.len() - j,
            {
                let ghost start = self@;
                proof {
                    let here = start.levels[level];
                    assert(here == self.gates_per_level[level].model::<F>());
                    assert(here.list(Derivation::Mul) == here.muls);
                    assert(here.muls[j as int] == self.gates_per_level[level].multiplier_gates[j as int].model::<F>());
                    start.lemma_ready(level, Derivation::Mul, j as int);
                    F::lemma_operators();
                }
                let left_id = self.gates_per_level[k].multiplier_gates[j].left_input;
                let right_id = self.gates_per_level[k].multiplier_gates[j].right_input;
                let output = self.gates_per_level[k].multiplier_gates[j].output;
                proof {
                    let gate = start.levels[level].list(Derivation::Mul)[j as int];
                    assert(gate.inputs[0] == left_id && gate.inputs[1] == right_id);
                    assert(start.contains(gate.inputs[0]) && start.contains(gate.inputs[1]));
                    assert(start.nodes[left_id as int] == self.nodes[left_id as int]@);
                    assert(start.nodes[right_id as int] == self.nodes[right_id as int]@);
                }
                let left = self.nodes[left_id].read();
                let right = self.nodes[right_id].read();
                let product = left * right;
                proof {
                    let gate = start.levels[level].list(Derivation::Mul)[j as int];
                    assert(start.values_of(gate.inputs)[0] == left);
                    assert(start.values_of(gate.inputs)[1] == right);
                    start.lemma_write(level, Derivation::Mul, j as int, product);
                }
                self.store(output, product);
                proof {
                    assigned.lemma_sources_kept_trans(start, self@);
                    start.lemma_supplied_kept(self@);
                }
                j = j + 1;
            }
            proof {
                let here = self@.levels[level];
                assert(here == self.gates_per_level[level].model::<F>());
                assert(here.list(Derivation::Mul) == here.muls);
                assert(here.list(Derivation::Hint) == here.hints);
                self@.lemma_done_next(level, Derivation::Mul);
                self@.lemma_done_next(level, Derivation::Hint);
            }
            k = k + 1;
        }
        proof {
            assert forall|i: int| 0 <= i < self@.levels.len() implies #[trigger] self@.level_holds(
                i,
            ) by {}
            assert(self.wf()) by {
                assert forall|t: int| 0 <= t < self.inputs().len() implies self@.contains(
                    #[trigger] self.inputs()[t],
                ) && self@.nodes[self.inputs()[t] as int].derivation == Derivation::Input by {
                    assert(assigned.contains(old(self).inputs()[t]));
                }
            }
        }
        Ok(())
    }

    /// Whether both nodes of every asserted pair hold a value, so that the
    /// pairs can be checked.
    pub fn is_checkable(&self) -> (checkable: bool)
        requires
            self.wf(),
        ensures
            checkable == self@.checkable(),
    {
        let mut a: usize = 0;
        while a < self.assertions.len()
            invariant
                0 <= a <= self.assertions@.len(),
                self.wf(),
                forall|b: int|
                    0 <= b < a ==> self@.nodes[(#[trigger] self@.assertions[b]).0 as int].value is Some
                        && self@.nodes[self@.assertions[b].1 as int].value is Some,
            decreases self.assertions@.len() - a,
        {
            let left_id = self.assertions[a].left_node;
            let right_id = self.assertions[a].right_node;
            proof {
                assert(self@.assertions[a as int] == (left_id, right_id));
                assert(self@.contains(self@.assertions[a as int].0));
                assert(self@.nodes[left_id as int] == self.nodes@[left_id as int]@);
                assert(self@.nodes[right_id as int] == self.nodes@[right_id as int]@);
            }
            if self.nodes[left_id].value.is_none() || self.nodes[right_id].value.is_none() {
                return false;
            }
            a = a + 1;
        }
        true
    }

    /// The first asserted pair whose nodes hold different values, with what
    /// the store holds of both nodes and of their parents; or nothing where
    /// every asserted pair agrees. The circuit stays as it is.
    ///
    /// Both nodes of every asserted pair must hold a value: after an
    /// evaluation they do, unless one is an input that no gate reads and that
    /// was never assigned.
    pub fn first_violation(&self) -> (found: Option<ConstraintViolation<F>>)
        requires
            self.wf(),
            self@.checkable(),
        ensures
            match found {
                None => self@.satisfied(),
                Some(violation) => violation.describes(self@),
            },
    {
        let mut a: usize = 0;
        while a < self.assertions.len()
            invariant
                0 <= a <= self.assertions@.len(),
                self.wf(),
                self@.checkable(),
                forall|b: int| 0 <= b < a ==> #[trigger] self@.agrees(b),
            decreases self.assertions@.len() - a,
        {
            let left_id = self.assertions[a].left_node;
            let right_id = self.assertions[a].right_node;
            proof {
                assert(self@.assertions[a as int] == (left_id, right_id));
                assert(self@.contains(self@.assertions[a as int].0));
                assert(self@.nodes[left_id as int] == self.nodes@[left_id as int]@);
                assert(self@.nodes[right_id as int] == self.nodes@[right_id as int]@);
            }
            let left = self.nodes[left_id].read();
            let right = self.nodes[right_id].read();
            proof {
                F::lemma_operators();
            }
            if left != right {
                let violation = ConstraintViolation {
                    index: a,
                    left: self.report(left_id),
                    right: self.report(right_id),
                };
                return Some(violation);
            }
            a = a + 1;
        }
        None
    }

    /// Whether every asserted pair agrees: both of its nodes hold the same
    /// value. The circuit stays as it is.
    ///
    /// Both nodes of every asserted pair must hold a value, as for
    /// `first_violation`.
    pub fn check_constraints(&self) -> (passed: bool)
        requires
            self.wf(),
            self@.checkable(),
        ensures
            passed == self@.satisfied(),
    {
        match self.first_violation() {
            Some(violation) => {
                assert(!self@.agrees(violation.index as int));
                false
            },
            None => true,
        }
    }

    /// Additions and multiplications are functions of their operands.
    pub proof fn lemma_functional(&self)
        ensures
            self@.functional(),
    {
        assert forall|k: int, kind: Derivation, j: int|
            0 <= k < self@.levels.len() && is_gate_kind(kind) && 0 <= j < self@.levels[k].list(
                kind,
            ).len() implies is_function((#[trigger] self@.levels[k].list(kind)[j]).relation) by {
            let level = self.gates_per_level[k];
            assert(self@.levels[k] == level.model::<F>());
            match kind {
                Derivation::Add => {
                    assert(level.model::<F>().adds[j] == level.adder_gates[j].model::<F>());
                },
                Derivation::Mul => {
                    assert(level.model::<F>().muls[j] == level.multiplier_gates[j].model::<F>());
                },
                _ => {},
            }
        }
    }

    /// Law: evaluation is deterministic. Two evaluations that start from
    /// builders with one circuit, and so with the same values in its inputs
    /// and constants, leave the same values in every node.
    pub proof fn law_deterministic(&self, first: &Self, second: &Self)
        requires
            self.wf(),
            self@.sources_kept(first@),
            first@.evaluated(),
            self@.sources_kept(second@),
            second@.evaluated(),
        ensures
            first@ == second@,
    {
        self.lemma_functional();
        self@.law_evaluation_deterministic(first@, second@);
    }

    /// Writes `value` to the node `id`.
    fn store(&mut self, id: usize, value: F)
        requires
            old(self).inv(),
            old(self)@.contains(id),
        ensures
            final(self).inv(),
            final(self)@ == old(self)@.with_value(id, value),
            final(self).inputs() == old(self).inputs(),
    {
        self.nodes[id].set_value(Some(value));
        proof {
            assert(self@.nodes =~= old(self)@.with_value(id, value).nodes);
            assert(self@ =~= old(self)@.with_value(id, value));
        }
    }

    /// Whether the node `id` is an input without a value.
    fn is_unassigned(&self, id: usize) -> (unassigned: bool)
        requires
            self@.contains(id),
        ensures
            unassigned == self@.unassigned(id),
    {
        match self.nodes[id].derivation {
            Derivation::Input => self.nodes[id].value.is_none(),
            _ => false,
        }
    }

    /// The first of `left` and `right` that is an input without a value.
    fn scan_pair(&self, left: usize, right: usize) -> (found: Option<usize>)
        requires
            self@.contains(left),
            self@.contains(right),
        ensures
            found == self@.missing_among(seq![left, right], 0),
            found is Some ==> self@.contains(found.unwrap()) && self@.unassigned(found.unwrap()),
    {
        proof {
            let both = seq![left, right];
            assert(self@.missing_among(both, 2) is None);
            assert(self@.missing_among(both, 1) == if self@.unassigned(right) {
                Some(right)
            } else {
                None
            });
        }
        if self.is_unassigned(left) {
            Some(left)
        } else if self.is_unassigned(right) {
            Some(right)
        } else {
            None
        }
    }

    /// What the store holds of the node `id` and of its parents.
    fn report(&self, id: usize) -> (report: NodeReport<F>)
        requires
            self.wf(),
            self@.contains(id),
        ensures
            report.describes(self@, id),
    {
        let node = &self.nodes[id];
        let ghost expected = self@.nodes[id as int].parents.map_values(
            |p: usize| (p, self@.nodes[p as int].value),
        );
        proof {
            assert(self@.node_ok(id as int));
            assert(self@.nodes[id as int] == node@);
        }
        let mut parents: Vec<(usize, Option<F>)> = Vec::new();
        let mut t: usize = 0;
        while t < node.parents.len()
            invariant
                0 <= t <= node.parents@.len(),
                self.wf(),
                self@.contains(id),
                self@.node_ok(id as int),
                self@.nodes[id as int] == node@,
                expected == self@.nodes[id as int].parents.map_values(
                    |p: usize| (p, self@.nodes[p as int].value),
                ),
                parents@ == expected.take(t as int),
            decreases node.parents@.len() - t,
        {
            let parent = node.parents[t];
            proof {
                assert(self@.nodes[id as int].parents[t as int] < id);
                assert(self@.nodes[parent as int] == self.nodes@[parent as int]@);
            }
            parents.push((parent, self.nodes[parent].value));
            proof {
                assert(parents@ =~= expected.take(t as int + 1));
            }
            t = t + 1;
        }
        proof {
            assert(parents@ =~= expected);
        }
        NodeReport {
            id,
            value: node.value,
            depth: node.depth,
            derivation: node.derivation,
            parents,
        }
    }
}

} // verus!

use vstd::prelude::*;
use vstd::std_specs::ops::AddSpec;
use vstd::std_specs::ops::MulSpec;
use crate::builder::Derivation;
use crate::circuit::Circuit;
use crate::circuit::GateModel;
use crate::circuit::LevelModel;
use crate::circuit::NodeModel;
use crate::circuit::is_function;
use crate::circuit::is_gate_kind;
use crate::error::ConstructionError;
use crate::error::EvalError;
use crate::error::InvalidAssignment;
use crate::error::refused_ids;
use crate::node::NodeHandle;
use crate::node::ids_of;
use crate::field::Field;
use crate::parallel::par_map;
use crate::parallel::par_map_range;
use crate::report::ConstraintViolation;
use crate::report::NodeReport;

verus! {

/// A hint function as a caller may name it.
pub type Lambda<F> = fn(Vec<F>) -> F;

/// A node of the store: the value it holds, if it holds one, its depth, its
/// identifier, the nodes its value derives from, and how.
#[derive(Debug)]
pub struct Node<F: Field> {
    pub value: Option<F>,
    pub depth: u64,
    pub id: usize,
    pub parents: Vec<usize>,
    pub derivation: Derivation,
}

impl<F: Field> View for Node<F> {
    type V = NodeModel<F>;

    open spec fn view(&self) -> NodeModel<F> {
        NodeModel {
            value: self.value,
            depth: self.depth as nat,
            parents: self.parents@,
            derivation: self.derivation,
        }
    }
}

impl<F: Field> Node<F> {
    /// Puts `value` in place of what the node holds.
    pub fn set(&mut self, value: Option<F>)
        ensures
            final(self).value == value,
            final(self).depth == old(self).depth,
            final(self).id == old(self).id,
            final(self).parents == old(self).parents,
            final(self).derivation == old(self).derivation,
    {
        self.value = value;
    }

    /// The value that the node holds.
    pub fn read(&self) -> (value: F)
        requires
            self.value is Some,
        ensures
            self.value == Some(value),
    {
        self.value.unwrap()
    }
}

/// An addition gate: the identifiers of its two operands and of its output.
#[derive(Debug)]
pub struct AddGate {
    pub left_id: usize,
    pub right_id: usize,
    pub output_id: usize,
}

impl AddGate {
    /// This gate as the contracts see it, over the values of `F`.
    pub open spec fn model<F: Field>(&self) -> GateModel<F> {
        GateModel {
            inputs: seq![self.left_id, self.right_id],
            output: self.output_id,
            relation: sum_relation::<F>(),
        }
    }
}

/// A multiplication gate: the identifiers of its two operands and of its
/// output.
#[derive(Debug)]
pub struct MultiplyGate {
    pub left_id: usize,
    pub right_id: usize,
    pub output_id: usize,
}

impl MultiplyGate {
    /// This gate as the contracts see it, over the values of `F`.
    pub open spec fn model<F: Field>(&self) -> GateModel<F> {
        GateModel {
            inputs: seq![self.left_id, self.right_id],
            output: self.output_id,
            relation: product_relation::<F>(),
        }
    }
}

/// A hint gate: the identifiers of its operands, in the order in which the
/// function takes them, the identifier of its output, and the function.
#[derive(Debug)]
pub struct LambdaGate<H> {
    pub input_ids: Vec<usize>,
    pub output_id: usize,
    pub lambda: H,
}

impl<H> LambdaGate<H> {
    /// This gate as the contracts see it, over the values of `F`.
    pub open spec fn model<F: Field>(&self) -> GateModel<F> where H: Fn(Vec<F>) -> F {
        GateModel {
            inputs: self.input_ids@,
            output: self.output_id,
            relation: hint_relation(self.lambda),
        }
    }
}

/// The gates of one depth level, by kind.
#[derive(Debug)]
pub struct LevelGates<H> {
    pub adder_gates: Vec<AddGate>,
    pub multiplier_gates: Vec<MultiplyGate>,
    pub lambda_gates: Vec<LambdaGate<H>>,
}

impl<H> LevelGates<H> {
    /// The level as the contracts see it, over the values of `F`.
    pub open spec fn model<F: Field>(&self) -> LevelModel<F> where H: Fn(Vec<F>) -> F {
        LevelModel {
            adds: self.adder_gates@.map_values(|g: AddGate| g.model::<F>()),
            muls: self.multiplier_gates@.map_values(|g: MultiplyGate| g.model::<F>()),
            hints: self.lambda_gates@.map_values(|g: LambdaGate<H>| g.model::<F>()),
        }
    }
}

/// A pair of nodes that are asserted to hold the same value.
#[derive(Debug, Clone, Copy, PartialEq, Eq, Structural)]
pub struct EqualityAssertion {
    pub left_id: usize,
    pub right_id: usize,
}

/// The pairs of identifiers that the asserted pairs hold, in order.
pub open spec fn pairs_of(assertions: Seq<EqualityAssertion>) -> Seq<(usize, usize)> {
    assertions.map_values(|a: EqualityAssertion| (a.left_id, a.right_id))
}

/// A circuit over the values of `F` under construction and evaluation: the store
/// of its nodes, its gates by level and kind, and the asserted pairs.
#[derive(Debug)]
pub struct GraphBuilder<F: Field, H> {
    nodes: Vec<Node<F>>,
    gates: Vec<LevelGates<H>>,
    assertions: Vec<EqualityAssertion>,
    next_id: usize,
}

impl<F: Field, H: Fn(Vec<F>) -> F> View for GraphBuilder<F, H> {
    type V = Circuit<F>;

    closed spec fn view(&self) -> Circuit<F> {
        Circuit {
            nodes: self.nodes@.map_values(|n: Node<F>| n@),
            levels: self.gates@.map_values(|l: LevelGates<H>| l.model::<F>()),
            assertions: pairs_of(self.assertions@),
        }
    }
}

/// What an addition gate may write: the sum of its two operands.
pub open spec fn sum_relation<F: Field>() -> spec_fn(Seq<F>, F) -> bool {
    |args: Seq<F>, out: F| out == args[0].add_spec(args[1])
}

/// What a multiplication gate may write: the product of its two operands.
pub open spec fn product_relation<F: Field>() -> spec_fn(Seq<F>, F) -> bool {
    |args: Seq<F>, out: F| out == args[0].mul_spec(args[1])
}

/// What a hint gate may write: whatever its function may return for the
/// operand values.
pub open spec fn hint_relation<F: Field, H: Fn(Vec<F>) -> F>(lambda: H) -> spec_fn(Seq<F>, F) -> bool {
    |args: Seq<F>, out: F| exists|given: Vec<F>| given@ == args && call_ensures(lambda, (given,), out)
}

/// Whether the function accepts every vector of `arity` values.
pub open spec fn hint_total<F: Field, H: Fn(Vec<F>) -> F>(lambda: H, arity: nat) -> bool {
    forall|given: Vec<F>| given@.len() == arity ==> call_requires(lambda, (given,))
}

/// Whether the function returns one value for given values.
pub open spec fn hint_pure<F: Field, H: Fn(Vec<F>) -> F>(lambda: H) -> bool {
    is_function(hint_relation(lambda))
}

impl<F: Field, H: Fn(Vec<F>) -> F + Sync> Default for GraphBuilder<F, H> {
    fn default() -> (builder: Self)
        ensures
            builder.wf(),
            builder@ == Circuit::<F>::empty(),
    {
        Self::new()
    }
}

impl<F: Field, H: Fn(Vec<F>) -> F + Sync> GraphBuilder<F, H> {
    /// What the store keeps beside the circuit: each node carries its
    /// identifier, the next identifier is the number of nodes, and every hint
    /// function accepts whatever values its operands may hold.
    pub closed spec fn inv(&self) -> bool {
        &&& self.next_id == self.nodes.len()
        &&& forall|i: int| 0 <= i < self.nodes.len() ==> (#[trigger] self.nodes[i]).id == i
        &&& forall|k: int, j: int|
            0 <= k < self.gates.len() && 0 <= j < self.gates[k].lambda_gates.len() ==> hint_total(
                (#[trigger] self.gates[k].lambda_gates[j]).lambda,
                self.gates[k].lambda_gates[j].input_ids@.len(),
            )
    }

    /// Whether the builder is well formed: its circuit is, and the store is
    /// in order.
    pub open spec fn wf(&self) -> bool {
        self@.wf() && self.inv()
    }

    /// Whether the handle names a node of this builder.
    pub open spec fn holds(&self, node: NodeHandle) -> bool {
        self@.contains(node.id)
    }

    /// An empty circuit.
    pub fn new() -> (builder: Self)
        ensures
            builder.wf(),
            builder@ == Circuit::<F>::empty(),
    {
        let builder = GraphBuilder { nodes: Vec::new(), gates: Vec::new(), assertions: Vec::new(), next_id: 0 };
        proof {
            assert(builder@ =~= Circuit::<F>::empty());
        }
        builder
    }

    /// Adds an input, and returns its handle. The input holds no value until
    /// one is assigned.
    pub fn init(&mut self) -> (node: NodeHandle)
        requires
            old(self).wf(),
        ensures
            final(self).wf(),
            final(self)@ == old(self)@.with_input(),
            node.id == old(self)@.nodes.len(),
    {
        let id = self.next_id;
        self.nodes.push(
            Node {
                value: None,
                depth: 0,
                id,
                parents: Vec::new(),
                derivation: Derivation::Input,
            },
        );
        self.next_id = self.nodes.len();
        proof {
            assert(self@ =~= old(self)@.with_input());
            old(self)@.lemma_with_source(Derivation::Input, None);
        }
        NodeHandle { id }
    }

    /// Adds `num_inputs` inputs, and returns their handles in the order of
    /// their identifiers. The nodes are made on the worker pool; their
    /// identifiers are set aside before.
    ///
    /// The store names its nodes by `usize`, which bounds their number.
    pub fn batch_init(&mut self, num_inputs: usize) -> (nodes: Vec<NodeHandle>)
        requires
            old(self).wf(),
            old(self)@.nodes.len() + num_inputs <= usize::MAX,
        ensures
            final(self).wf(),
            final(self)@ == old(self)@.with_inputs(num_inputs as nat),
            nodes@.len() == num_inputs,
            forall|i: int| 0 <= i < num_inputs ==> (#[trigger] nodes@[i]).id == old(self)@.nodes.len() + i,
    {
        let init_count = self.next_id;
        let mut fresh = par_map_range(num_inputs, &init_count, input_at);
        let handles = par_map_range(num_inputs, &init_count, handle_at);
        proof {
            let after = old(self)@.with_inputs(num_inputs as nat);
            assert((self.nodes@ + fresh@).map_values(|n: Node<F>| n@) =~= after.nodes);
            old(self)@.lemma_with_sources(
                Derivation::Input,
                Seq::new(num_inputs as nat, |i: int| None),
            );
        }
        self.nodes.append(&mut fresh);
        self.next_id = self.nodes.len();
        proof {
            assert(self@ =~= old(self)@.with_inputs(num_inputs as nat));
        }
        handles
    }

    /// Adds a constant that holds `value`, and returns its handle.
    pub fn constant(&mut self, value: F) -> (node: NodeHandle)
        requires
            old(self).wf(),
        ensures
            final(self).wf(),
            final(self)@ == old(self)@.with_constant(value),
            node.id == old(self)@.nodes.len(),
    {
        let id = self.next_id;
        self.nodes.push(
            Node {
                value: Some(value),
                depth: 0,
                id,
                parents: Vec::new(),
                derivation: Derivation::Const,
            },
        );
        self.next_id = self.nodes.len();
        proof {
            assert(self@ =~= old(self)@.with_constant(value));
            old(self)@.lemma_with_source(Derivation::Const, Some(value));
        }
        NodeHandle { id }
    }

    /// Adds one constant for each of `values`, in their order, and returns
    /// their handles. The nodes are made on the worker pool; their
    /// identifiers are set aside before.
    ///
    /// The store names its nodes by `usize`, which bounds their number.
    pub fn batch_constant(&mut self, values: &[F]) -> (nodes: Vec<NodeHandle>)
        requires
            old(self).wf(),
            old(self)@.nodes.len() + values@.len() <= usize::MAX,
        ensures
            final(self).wf(),
            final(self)@ == old(self)@.with_constants(values@),
            nodes@.len() == values@.len(),
            forall|i: int|
                0 <= i < values@.len() ==> (#[trigger] nodes@[i]).id == old(self)@.nodes.len() + i,
    {
        let init_count = self.next_id;
        let batch = (init_count, values);
        let mut fresh = par_map_range(values.len(), &batch, constant_at);
        let handles = par_map_range(values.len(), &init_count, handle_at);
        proof {
            let after = old(self)@.with_constants(values@);
            assert((self.nodes@ + fresh@).map_values(|n: Node<F>| n@) =~= after.nodes);
            old(self)@.lemma_with_sources(
                Derivation::Const,
                values@.map_values(|v: F| Some(v)),
            );
        }
        self.nodes.append(&mut fresh);
        self.next_id = self.nodes.len();
        proof {
            assert(self@ =~= old(self)@.with_constants(values@));
        }
        handles
    }

    /// Adds an addition gate over `a` and `b`, and returns the handle of its
    /// output, which lies one level above the deeper of the two.
    pub fn add(&mut self, a: NodeHandle, b: NodeHandle) -> (node: NodeHandle)
        requires
            old(self).wf(),
            old(self).holds(a),
            old(self).holds(b),
        ensures
            final(self).wf(),
            final(self)@ == old(self)@.with_gate(
                Derivation::Add,
                seq![a.id, b.id],
                sum_relation::<F>(),
            ),
            final(self)@.hints_pure() == old(self)@.hints_pure(),
            node.id == old(self)@.nodes.len(),
    {
        let a_depth = self.nodes[a.id].depth;
        let b_depth = self.nodes[b.id].depth;
        let depth_gate = if a_depth > b_depth {
            a_depth
        } else {
            b_depth
        };
        let id = self.next_id;
        let ghost inputs = seq![a.id, b.id];
        let ghost before = self@;
        proof {
            before.lemma_max_depth_pair(a.id, b.id);
            assert(before.takes(Derivation::Add, inputs));
            before.lemma_gate_level(inputs);
        }
        let mut parents = Vec::new();
        parents.push(a.id);
        parents.push(b.id);
        self.nodes.push(
            Node {
                value: None,
                depth: depth_gate + 1,
                id,
                parents,
                derivation: Derivation::Add,
            },
        );
        self.next_id = self.nodes.len();
        proof {
            before.lemma_with_gate(Derivation::Add, inputs, sum_relation::<F>());
            before.lemma_hints_with_gate(Derivation::Add, inputs, sum_relation::<F>());
        }
        if self.gates.len() <= depth_gate as usize {
            self.gates.push(
                LevelGates {
                    adder_gates: Vec::new(),
                    multiplier_gates: Vec::new(),
                    lambda_gates: Vec::new(),
                },
            );
        }
        self.gates[depth_gate as usize].adder_gates.push(
            AddGate { left_id: a.id, right_id: b.id, output_id: id },
        );
        proof {
            let after = before.with_gate(Derivation::Add, inputs, sum_relation::<F>());
            assert(parents@ =~= inputs);
            assert(self@.nodes =~= after.nodes);
            assert(self@.levels =~= after.levels) by {
                assert forall|k: int| 0 <= k < after.levels.len() implies self@.levels[k]
                    == after.levels[k] by {
                    assert(self@.levels[k] =~= after.levels[k]);
                }
            }
            assert(self@ =~= after);
        }
        NodeHandle { id }
    }

    /// Adds a multiplication gate over `a` and `b`, and returns the handle of its
    /// output, which lies one level above the deeper of the two.
    pub fn mul(&mut self, a: NodeHandle, b: NodeHandle) -> (node: NodeHandle)
        requires
            old(self).wf(),
            old(self).holds(a),
            old(self).holds(b),
        ensures
            final(self).wf(),
            final(self)@ == old(self)@.with_gate(
                Derivation::Mul,
                seq![a.id, b.id],
                product_relation::<F>(),
            ),
            final(self)@.hints_pure() == old(self)@.hints_pure(),
            node.id == old(self)@.nodes.len(),
    {
        let a_depth = self.nodes[a.id].depth;
        let b_depth = self.nodes[b.id].depth;
        let depth_gate = if a_depth > b_depth {
            a_depth
        } else {
            b_depth
        };
        let id = self.next_id;
        let ghost inputs = seq![a.id, b.id];
        let ghost before = self@;
        proof {
            before.lemma_max_depth_pair(a.id, b.id);
            assert(before.takes(Derivation::Mul, inputs));
            before.lemma_gate_level(inputs);
        }
        let mut parents = Vec::new();
        parents.push(a.id);
        parents.push(b.id);
        self.nodes.push(
            Node {
                value: None,
                depth: depth_gate + 1,
                id,
                parents,
                derivation: Derivation::Mul,
            },
        );
        self.next_id = self.nodes.len();
        proof {
            before.lemma_with_gate(Derivation::Mul, inputs, product_relation::<F>());
            before.lemma_hints_with_gate(Derivation::Mul, inputs, product_relation::<F>());
        }
        if self.gates.len() <= depth_gate as usize {
            self.gates.push(
                LevelGates {
                    adder_gates: Vec::new(),
                    multiplier_gates: Vec::new(),
                    lambda_gates: Vec::new(),
                },
            );
        }
        self.gates[depth_gate as usize].multiplier_gates.push(
            MultiplyGate { left_id: a.id, right_id: b.id, output_id: id },
        );
        proof {
            let after = before.with_gate(Derivation::Mul, inputs, product_relation::<F>());
            assert(parents@ =~= inputs);
            assert(self@.nodes =~= after.nodes);
            assert(self@.levels =~= after.levels) by {
                assert forall|k: int| 0 <= k < after.levels.len() implies self@.levels[k]
                    == after.levels[k] by {
                    assert(self@.levels[k] =~= after.levels[k]);
                }
            }
            assert(self@ =~= after);
        }
        NodeHandle { id }
    }

    /// Adds a hint gate that applies `lambda` to the values of `arguments`,
    /// in their order, and returns the handle of its output, which lies one
    /// level above the deepest argument. Nothing relates what `lambda` returns
    /// to the rest of the circuit but the pairs that the caller asserts.
    ///
    /// Without arguments the output would have no depth: the call is refused.
    pub fn hint(&mut self, arguments: &[NodeHandle], lambda: H) -> (result: Result<
        NodeHandle,
        ConstructionError,
    >)
        requires
            old(self).wf(),
            forall|i: int| 0 <= i < arguments@.len() ==> old(self).holds(#[trigger] arguments@[i]),
            hint_total(lambda, arguments@.len()),
        ensures
            final(self).wf(),
            arguments@.len() == 0 ==> result == Err::<NodeHandle, ConstructionError>(
                ConstructionError::NoArguments,
            ) && final(self)@ == old(self)@,
            arguments@.len() > 0 ==> result == Ok::<NodeHandle, ConstructionError>(
                NodeHandle { id: old(self)@.nodes.len() as usize },
            ) && final(self)@ == old(self)@.with_gate(
                Derivation::Hint,
                ids_of(arguments@),
                hint_relation(lambda),
            ) && final(self)@.hints_pure() == (old(self)@.hints_pure() && hint_pure(lambda)),
    {
        if arguments.len() == 0 {
            return Err(ConstructionError::NoArguments);
        }
        let ghost before = self@;
        let ghost inputs = ids_of(arguments@);
        let mut depth_gate: u64 = 0;
        let mut parents: Vec<usize> = Vec::new();
        let mut argument_ids: Vec<usize> = Vec::new();
        let mut i: usize = 0;
        while i < arguments.len()
            invariant
                0 <= i <= arguments@.len(),
                self@ == before,
                forall|k: int| 0 <= k < arguments@.len() ==> self.holds(#[trigger] arguments@[k]),
                parents@ == inputs.take(i as int),
                argument_ids@ == inputs.take(i as int),
                inputs == ids_of(arguments@),
                depth_gate == before.max_depth(inputs.take(i as int)),
            decreases arguments@.len() - i,
        {
            let id = arguments[i].id;
            assert(self.holds(arguments@[i as int]));
            let depth = self.nodes[id].depth;
            proof {
                before.lemma_max_depth_push(inputs.take(i as int), id);
                assert(inputs.take(i as int + 1) =~= inputs.take(i as int).push(id));
            }
            if depth > depth_gate {
                depth_gate = depth;
            }
            parents.push(id);
            argument_ids.push(id);
            i = i + 1;
        }
        let id = self.next_id;
        proof {
            assert(inputs.take(i as int) =~= inputs);
            assert(before.takes(Derivation::Hint, inputs)) by {
                assert forall|k: int| 0 <= k < inputs.len() implies before.contains(
                    #[trigger] inputs[k],
                ) by {
                    assert(self.holds(arguments@[k]));
                }
            }
            before.lemma_gate_level(inputs);
        }
        self.nodes.push(
            Node {
                value: None,
                depth: depth_gate + 1,
                id,
                parents,
                derivation: Derivation::Hint,
            },
        );
        self.next_id = self.nodes.len();
        proof {
            before.lemma_with_gate(Derivation::Hint, inputs, hint_relation(lambda));
            before.lemma_hints_with_gate(Derivation::Hint, inputs, hint_relation(lambda));
        }
        if self.gates.len() <= depth_gate as usize {
            self.gates.push(
                LevelGates {
                    adder_gates: Vec::new(),
                    multiplier_gates: Vec::new(),
                    lambda_gates: Vec::new(),
                },
            );
        }
        self.gates[depth_gate as usize].lambda_gates.push(
            LambdaGate { input_ids: argument_ids, output_id: id, lambda },
        );
        proof {
            let after = before.with_gate(Derivation::Hint, inputs, hint_relation(lambda));
            assert(self@.nodes =~= after.nodes);
            assert(self@.levels =~= after.levels) by {
                assert forall|k: int| 0 <= k < after.levels.len() implies self@.levels[k]
                    == after.levels[k] by {
                    assert(self@.levels[k] =~= after.levels[k]);
                }
            }
            assert(self@ =~= after);
        }
        Ok(NodeHandle { id })
    }

    /// Whether `node` names a node of this builder.
    pub fn contains(&self, node: NodeHandle) -> (held: bool)
        requires
            self.wf(),
        ensures
            held == self.holds(node),
    {
        node.id < self.nodes.len()
    }

    /// The number of nodes.
    pub fn len(&self) -> (count: usize)
        requires
            self.wf(),
        ensures
            count == self@.nodes.len(),
    {
        self.nodes.len()
    }

    /// The node that `node` names, as the store holds it.
    pub fn get(&self, node: NodeHandle) -> (raw: &Node<F>)
        requires
            self.wf(),
            self.holds(node),
        ensures
            raw@ == self@.nodes[node.id as int],
            raw.id == node.id,
    {
        &self.nodes[node.id]
    }

    /// Assigns `value` to the input `node`. A node that is not an input is
    /// left as it is, and the call says so: a constant keeps its value, and
    /// only an evaluation writes what a gate puts out.
    pub fn set(&mut self, node: &NodeHandle, value: F) -> (result: Result<(), InvalidAssignment>)
        requires
            old(self).wf(),
            old(self).holds(*node),
        ensures
            final(self).wf(),
            old(self)@.nodes[node.id as int].derivation == Derivation::Input ==> result == Ok::<
                (),
                InvalidAssignment,
            >(()) && final(self)@ == old(self)@.with_value(node.id, value),
            old(self)@.nodes[node.id as int].derivation != Derivation::Input ==> result == Err::<
                (),
                InvalidAssignment,
            >(InvalidAssignment { id: node.id }) && final(self)@ == old(self)@,
    {
        match self.nodes[node.id].derivation {
            Derivation::Input => {
                proof {
                    self@.lemma_with_value(node.id, value);
                }
                self.store(node.id, value);
                Ok(())
            },
            _ => Err(InvalidAssignment { id: node.id }),
        }
    }

    /// Assigns each of `values` to the input at its place in `nodes`, one
    /// after the other, so that the last assignment to a node stands. Nodes
    /// that are not inputs are left as they are; the call returns them, in
    /// order.
    ///
    /// Slices of different lengths are refused.
    pub fn batch_set(&mut self, nodes: &[NodeHandle], values: &[F]) -> (result: Result<
        Vec<InvalidAssignment>,
        ConstructionError,
    >)
        requires
            old(self).wf(),
            forall|i: int| 0 <= i < nodes@.len() ==> old(self).holds(#[trigger] nodes@[i]),
        ensures
            final(self).wf(),
            nodes@.len() != values@.len() ==> result == Err::<
                Vec<InvalidAssignment>,
                ConstructionError,
            >(ConstructionError::LengthMismatch { left: nodes@.len() as usize, right: values@.len() as usize })
                && final(self)@ == old(self)@,
            nodes@.len() == values@.len() ==> result is Ok && final(self)@
                == old(self)@.with_assignments(ids_of(nodes@), values@) && refused_ids(
                result.unwrap()@,
            ) == old(self)@.rejected(ids_of(nodes@)),
    {
        if nodes.len() != values.len() {
            return Err(ConstructionError::LengthMismatch { left: nodes.len(), right: values.len() });
        }
        let ghost before = self@;
        let ghost ids = ids_of(nodes@);
        let mut refused: Vec<InvalidAssignment> = Vec::new();
        let mut i: usize = 0;
        proof {
            assert(ids.take(0) =~= Seq::<usize>::empty());
        }
        while i < nodes.len()
            invariant
                0 <= i <= nodes@.len(),
                nodes@.len() == values@.len(),
                before.wf(),
                ids == ids_of(nodes@),
                before.contains_all(ids),
                self.inv(),
                self@ == before.with_assignments(ids.take(i as int), values@.take(i as int)),
                refused_ids(refused@) == before.rejected(ids.take(i as int)),
            decreases nodes@.len() - i,
        {
            let id = nodes[i].id;
            let ghost upto = ids.take(i as int + 1);
            proof {
                assert(before.contains(ids[i as int]));
                assert(upto.drop_last() =~= ids.take(i as int));
                assert(values@.take(i as int + 1).drop_last() =~= values@.take(i as int));
                before.lemma_with_assignments(ids.take(i as int), values@.take(i as int));
                assert(upto.last() == id);
                assert(self@.nodes[id as int].derivation == before.nodes[id as int].derivation);
                assert(self@.nodes[id as int] == self.nodes[id as int]@);
            }
            match self.nodes[id].derivation {
                Derivation::Input => {
                    self.store(id, values[i]);
                },
                _ => {
                    refused.push(InvalidAssignment { id });
                    proof {
                        assert(refused_ids(refused@) =~= before.rejected(upto));
                    }
                },
            }
            i = i + 1;
        }
        proof {
            assert(ids.take(i as int) =~= ids);
            assert(values@.take(i as int) =~= values@);
            before.lemma_with_assignments(ids, values@);
        }
        Ok(refused)
    }

    /// Asserts that `left_arg` and `right_arg` hold the same value, for
    /// `check_constraints` to check, and returns the pair.
    pub fn assert_equal(&mut self, left_arg: NodeHandle, right_arg: NodeHandle) -> (pair: EqualityAssertion)
        requires
            old(self).wf(),
            old(self).holds(left_arg),
            old(self).holds(right_arg),
        ensures
            final(self).wf(),
            final(self)@ == old(self)@.with_assertion(left_arg.id, right_arg.id),
            pair == (EqualityAssertion { left_id: left_arg.id, right_id: right_arg.id }),
    {
        let pair = EqualityAssertion { left_id: left_arg.id, right_id: right_arg.id };
        self.assertions.push(pair);
        proof {
            assert(self@.assertions =~= old(self)@.with_assertion(
                left_arg.id,
                right_arg.id,
            ).assertions);
            assert(self@ =~= old(self)@.with_assertion(left_arg.id, right_arg.id));
            old(self)@.lemma_with_assertion(left_arg.id, right_arg.id);
        }
        pair
    }

    /// Asserts of each of `left_args` that it holds the same value as the node
    /// at its place in `right_args`, and returns the pairs in that order. The
    /// pairs are made on the worker pool.
    ///
    /// Slices of different lengths are refused.
    pub fn batch_assert_equal(&mut self, left_args: &[NodeHandle], right_args: &[NodeHandle]) -> (result:
        Result<Vec<EqualityAssertion>, ConstructionError>)
        requires
            old(self).wf(),
            forall|i: int| 0 <= i < left_args@.len() ==> old(self).holds(#[trigger] left_args@[i]),
            forall|i: int| 0 <= i < right_args@.len() ==> old(self).holds(#[trigger] right_args@[i]),
        ensures
            final(self).wf(),
            left_args@.len() != right_args@.len() ==> result == Err::<
                Vec<EqualityAssertion>,
                ConstructionError,
            >(
                ConstructionError::LengthMismatch {
                    left: left_args@.len() as usize,
                    right: right_args@.len() as usize,
                },
            ) && final(self)@ == old(self)@,
            left_args@.len() == right_args@.len() ==> result is Ok && pairs_of(result.unwrap()@)
                == ids_of(left_args@).zip_with(ids_of(right_args@)) && final(self)@
                == old(self)@.with_assertions(ids_of(left_args@).zip_with(ids_of(right_args@))),
    {
        if left_args.len() != right_args.len() {
            return Err(
                ConstructionError::LengthMismatch { left: left_args.len(), right: right_args.len() },
            );
        }
        let both = (left_args, right_args);
        let mut fresh = par_map_range(right_args.len(), &both, assertion_at);
        let new_assertions = par_map_range(right_args.len(), &both, assertion_at);
        proof {
            let pairs = ids_of(left_args@).zip_with(ids_of(right_args@));
            let after = old(self)@.with_assertions(pairs);
            assert(pairs_of(new_assertions@) =~= pairs);
            assert(pairs_of(self.assertions@ + fresh@) =~= after.assertions);
            assert forall|a: int| 0 <= a < pairs.len() implies old(self)@.contains(
                (#[trigger] pairs[a]).0,
            ) && old(self)@.contains(pairs[a].1) by {
                assert(old(self).holds(left_args@[a]));
                assert(old(self).holds(right_args@[a]));
            }
            old(self)@.lemma_with_assertions(pairs);
        }
        self.assertions.append(&mut fresh);
        proof {
            assert(self@ =~= old(self)@.with_assertions(
                ids_of(left_args@).zip_with(ids_of(right_args@)),
            ));
        }
        Ok(new_assertions)
    }

    /// The first input without a value that an evaluation would read, if
    /// there is one: gates are taken level by level, and within a level the
    /// additions first, then the multiplications, then the hints.
    pub fn first_unfilled(&self) -> (found: Option<usize>)
        requires
            self.wf(),
        ensures
            found == self@.first_missing(),
            found is Some ==> self@.contains(found.unwrap()) && self@.unassigned(found.unwrap()),
    {
        proof {
            self@.lemma_first_missing();
            self@.lemma_missing_from(0);
        }
        let mut k: usize = 0;
        while k < self.gates.len()
            invariant
                0 <= k <= self.gates@.len(),
                self.wf(),
                self@.first_missing() == self@.missing_from(k as int),
            decreases self.gates@.len() - k,
        {
            let level = &self.gates[k];
            let ghost here = self@.levels[k as int];
            assert(here == level.model::<F>());
            assert(here.list(Derivation::Add) == here.adds);
            assert(here.list(Derivation::Mul) == here.muls);
            assert(here.list(Derivation::Hint) == here.hints);
            let mut j: usize = 0;
            while j < level.adder_gates.len()
                invariant
                    0 <= j <= level.adder_gates@.len(),
                    self.wf(),
                    0 <= k < self.gates@.len(),
                    here == self@.levels[k as int],
                    here == level.model::<F>(),
                    self@.first_missing() == self@.missing_from(k as int),
                    here.list(Derivation::Add) == here.adds,
                    self@.missing_in(here.adds, 0) == self@.missing_in(here.adds, j as int),
                decreases level.adder_gates@.len() - j,
            {
                let gate = &level.adder_gates[j];
                proof {
                    assert(here.adds[j as int] == gate.model::<F>());
                    self@.lemma_operand(k as int, Derivation::Add, j as int, 0);
                    self@.lemma_operand(k as int, Derivation::Add, j as int, 1);
                }
                match self.scan_pair(gate.left_id, gate.right_id) {
                    Some(id) => {
                        return Some(id);
                    },
                    None => {},
                }
                j = j + 1;
            }
            let mut j: usize = 0;
            while j < level.multiplier_gates.len()
                invariant
                    0 <= j <= level.multiplier_gates@.len(),
                    self.wf(),
                    0 <= k < self.gates@.len(),
                    here == self@.levels[k as int],
                    here == level.model::<F>(),
                    self@.first_missing() == self@.missing_from(k as int),
                    here.list(Derivation::Mul) == here.muls,
                    self@.missing_in(here.adds, 0) is None,
                    self@.missing_in(here.muls, 0) == self@.missing_in(here.muls, j as int),
                decreases level.multiplier_gates@.len() - j,
            {
                let gate = &level.multiplier_gates[j];
                proof {
                    assert(here.muls[j as int] == gate.model::<F>());
                    self@.lemma_operand(k as int, Derivation::Mul, j as int, 0);
                    self@.lemma_operand(k as int, Derivation::Mul, j as int, 1);
                }
                match self.scan_pair(gate.left_id, gate.right_id) {
                    Some(id) => {
                        return Some(id);
                    },
                    None => {},
                }
                j = j + 1;
            }
            let mut j: usize = 0;
            while j < level.lambda_gates.len()
                invariant
                    0 <= j <= level.lambda_gates@.len(),
                    self.wf(),
                    0 <= k < self.gates@.len(),
                    here == self@.levels[k as int],
                    here == level.model::<F>(),
                    self@.first_missing() == self@.missing_from(k as int),
                    here.list(Derivation::Hint) == here.hints,
                    self@.missing_in(here.adds, 0) is None,
                    self@.missing_in(here.muls, 0) is None,
                    self@.missing_in(here.hints, 0) == self@.missing_in(here.hints, j as int),
                decreases level.lambda_gates@.len() - j,
            {
                let gate = &level.lambda_gates[j];
                proof {
                    assert(here.hints[j as int] == gate.model::<F>());
                    assert forall|t: int| 0 <= t < gate.input_ids@.len() implies self@.contains(
                        #[trigger] gate.input_ids@[t],
                    ) by {
                        self@.lemma_operand(k as int, Derivation::Hint, j as int, t);
                    }
                }
                match self.scan(&gate.input_ids) {
                    Some(id) => {
                        return Some(id);
                    },
                    None => {},
                }
                j = j + 1;
            }
            k = k + 1;
        }
        None
    }

    /// Evaluates the circuit: every gate writes to its output what it makes of
    /// its operands, level by level from the lowest, and within a level the
    /// additions first, then the multiplications, then the hints. The gates of
    /// one kind at one level are worked out on the worker pool, from the
    /// values that the lower levels have left.
    ///
    /// Where a gate reads an input that was never assigned, nothing is
    /// evaluated, and the call names the first such input in that order.
    pub fn fill_nodes(&mut self) -> (result: Result<(), EvalError>)
        requires
            old(self).wf(),
        ensures
            final(self).wf(),
            match result {
                Ok(()) => {
                    &&& old(self)@.first_missing() is None
                    &&& old(self)@.sources_kept(final(self)@)
                    &&& final(self)@.evaluated()
                },
                Err(error) => {
                    &&& old(self)@.first_missing() is Some
                    &&& error == (EvalError::UnfilledInput {
                        id: old(self)@.first_missing().unwrap(),
                        depth: old(self)@.nodes[old(self)@.first_missing().unwrap() as int].depth as u64,
                    })
                    &&& final(self)@ == old(self)@
                },
            },
    {
        match self.first_unfilled() {
            Some(id) => {
                return Err(EvalError::UnfilledInput { id, depth: self.nodes[id].depth });
            },
            None => {},
        }
        let ghost before = self@;
        proof {
            before.lemma_first_missing();
        }
        let mut k: usize = 0;
        while k < self.gates.len()
            invariant
                0 <= k <= self.gates@.len(),
                self.wf(),
                before.wf(),
                before.sources_kept(self@),
                self@.supplied(),
                self@.done(k as int, Derivation::Add, 0),
            decreases self.gates@.len() - k,
        {
            let ghost level = k as int;
            let ghost start = self@;
            proof {
                assert(start.levels[level] == self.gates[level].model::<F>());
                assert(start.levels[level].list(Derivation::Add) == start.levels[level].adds);
                assert(start.levels[level].list(Derivation::Mul) == start.levels[level].muls);
                assert(start.levels[level].list(Derivation::Hint) == start.levels[level].hints);
            }
            // additions
            proof {
                assert forall|j: int| 0 <= j < self.gates[level].adder_gates@.len() implies all_filled(
                    self.nodes@,
                    (#[trigger] self.gates[level].adder_gates@[j]).model::<F>().inputs,
                ) by {
                    assert(start.levels[level].adds[j] == self.gates[level].adder_gates@[j].model::<F>());
                    start.lemma_ready(level, Derivation::Add, j);
                    filled_in_store(self, self.gates[level].adder_gates@[j].model::<F>().inputs);
                }
            }
            let sums = par_map(&self.gates[k].adder_gates, &self.nodes, eval_add::<F>);
            proof {
                let gates = start.levels[level].list(Derivation::Add);
                assert forall|j: int| 0 <= j < sums@.len() implies {
                    &&& (#[trigger] sums@[j]).0 == gates[j].output
                    &&& start.filled(gates[j].inputs)
                    &&& (gates[j].relation)(start.values_of(gates[j].inputs), sums@[j].1)
                    &&& start.contains(sums@[j].0)
                } by {
                    assert(gates[j] == self.gates[level].adder_gates@[j].model::<F>());
                    start.lemma_ready(level, Derivation::Add, j);
                    values_in_store(self, gates[j].inputs);
                }
                start.lemma_store(level, Derivation::Add, sums@);
            }
            self.store_all(&sums);
            proof {
                self@.lemma_done_next(level, Derivation::Add);
                before.lemma_sources_kept_trans(start, self@);
                start.lemma_supplied_kept(self@);
            }
            // multiplications
            let ghost start = self@;
            proof {
                assert(start.levels[level] == self.gates[level].model::<F>());
                assert forall|j: int|
                    0 <= j < self.gates[level].multiplier_gates@.len() implies all_filled(
                    self.nodes@,
                    (#[trigger] self.gates[level].multiplier_gates@[j]).model::<F>().inputs,
                ) by {
                    assert(start.levels[level].muls[j] == self.gates[level].multiplier_gates@[j].model::<F>());
                    start.lemma_ready(level, Derivation::Mul, j);
                    filled_in_store(self, self.gates[level].multiplier_gates@[j].model::<F>().inputs);
                }
            }
            let products = par_map(&self.gates[k].multiplier_gates, &self.nodes, eval_mul::<F>);
            proof {
                let gates = start.levels[level].list(Derivation::Mul);
                assert forall|j: int| 0 <= j < products@.len() implies {
                    &&& (#[trigger] products@[j]).0 == gates[j].output
                    &&& start.filled(gates[j].inputs)
                    &&& (gates[j].relation)(start.values_of(gates[j].inputs), products@[j].1)
                    &&& start.contains(products@[j].0)
                } by {
                    assert(gates[j] == self.gates[level].multiplier_gates@[j].model::<F>());
                    start.lemma_ready(level, Derivation::Mul, j);
                    values_in_store(self, gates[j].inputs);
                }
                start.lemma_store(level, Derivation::Mul, products@);
            }
            self.store_all(&products);
            proof {
                self@.lemma_done_next(level, Derivation::Mul);
                before.lemma_sources_kept_trans(start, self@);
                start.lemma_supplied_kept(self@);
            }
            // hints
            let ghost start = self@;
            proof {
                assert(start.levels[level] == self.gates[level].model::<F>());
                assert forall|j: int|
                    0 <= j < self.gates[level].lambda_gates@.len() implies all_filled(
                    self.nodes@,
                    (#[trigger] self.gates[level].lambda_gates@[j]).model::<F>().inputs,
                ) && hint_total(
                    self.gates[level].lambda_gates@[j].lambda,
                    self.gates[level].lambda_gates@[j].input_ids@.len(),
                ) by {
                    assert(start.levels[level].hints[j] == self.gates[level].lambda_gates@[j].model::<F>());
                    start.lemma_ready(level, Derivation::Hint, j);
                    filled_in_store(self, self.gates[level].lambda_gates@[j].model::<F>().inputs);
                }
            }
            let hinted = par_map(&self.gates[k].lambda_gates, &self.nodes, eval_hint);
            proof {
                let gates = start.levels[level].list(Derivation::Hint);
                assert forall|j: int| 0 <= j < hinted@.len() implies {
                    &&& (#[trigger] hinted@[j]).0 == gates[j].output
                    &&& start.filled(gates[j].inputs)
                    &&& (gates[j].relation)(start.values_of(gates[j].inputs), hinted@[j].1)
                    &&& start.contains(hinted@[j].0)
                } by {
                    assert(gates[j] == self.gates[level].lambda_gates@[j].model::<F>());
                    start.lemma_ready(level, Derivation::Hint, j);
                    values_in_store(self, gates[j].inputs);
                }
                start.lemma_store(level, Derivation::Hint, hinted@);
            }
            self.store_all(&hinted);
            proof {
                self@.lemma_done_next(level, Derivation::Hint);
                before.lemma_sources_kept_trans(start, self@);
                start.lemma_supplied_kept(self@);
            }
            k = k + 1;
        }
        proof {
            assert forall|i: int| 0 <= i < self@.levels.len() implies #[trigger] self@.level_holds(
                i,
            ) by {}
        }
        Ok(())
    }

    /// Whether both nodes of every asserted pair hold a value, so that the
    /// pairs can be checked.
    pub fn is_checkable(&self) -> (checkable: bool)
        requires
            self.wf(),
        ensures
            checkable == self@.checkable(),
    {
        let mut a: usize = 0;
        while a < self.assertions.len()
            invariant
                0 <= a <= self.assertions@.len(),
                self.wf(),
                forall|b: int|
                    0 <= b < a ==> self@.nodes[(#[trigger] self@.assertions[b]).0 as int].value is Some
                        && self@.nodes[self@.assertions[b].1 as int].value is Some,
            decreases self.assertions@.len() - a,
        {
            let left_id = self.assertions[a].left_id;
            let right_id = self.assertions[a].right_id;
            proof {
                assert(self@.assertions[a as int] == (left_id, right_id));
                assert(self@.contains(self@.assertions[a as int].0));
                assert(self@.nodes[left_id as int] == self.nodes@[left_id as int]@);
                assert(self@.nodes[right_id as int] == self.nodes@[right_id as int]@);
            }
            if self.nodes[left_id].value.is_none() || self.nodes[right_id].value.is_none() {
                return false;
            }
            a = a + 1;
        }
        true
    }

    /// The first asserted pair whose nodes hold different values, with what
    /// the store holds of both nodes and of their parents; or nothing where
    /// every asserted pair agrees. The circuit stays as it is.
    ///
    /// Both nodes of every asserted pair must hold a value: after an
    /// evaluation they do, unless one is an input that no gate reads and that
    /// was never assigned.
    pub fn first_violation(&self) -> (found: Option<ConstraintViolation<F>>)
        requires
            self.wf(),
            self@.checkable(),
        ensures
            match found {
                None => self@.satisfied(),
                Some(violation) => violation.describes(self@),
            },
    {
        let mut a: usize = 0;
        while a < self.assertions.len()
            invariant
                0 <= a <= self.assertions@.len(),
                self.wf(),
                self@.checkable(),
                forall|b: int| 0 <= b < a ==> #[trigger] self@.agrees(b),
            decreases self.assertions@.len() - a,
        {
            let left_id = self.assertions[a].left_id;
            let right_id = self.assertions[a].right_id;
            proof {
                assert(self@.assertions[a as int] == (left_id, right_id));
                assert(self@.contains(self@.assertions[a as int].0));
                assert(self@.nodes[left_id as int] == self.nodes@[left_id as int]@);
                assert(self@.nodes[right_id as int] == self.nodes@[right_id as int]@);
            }
            let left = self.nodes[left_id].read();
            let right = self.nodes[right_id].read();
            proof {
                F::lemma_operators();
            }
            if left != right {
                let violation = ConstraintViolation {
                    index: a,
                    left: self.report(left_id),
                    right: self.report(right_id),
                };
                return Some(violation);
            }
            a = a + 1;
        }
        None
    }

    /// Whether every asserted pair agrees: both of its nodes hold the same
    /// value. The circuit stays as it is.
    ///
    /// Both nodes of every asserted pair must hold a value, as for
    /// `first_violation`.
    pub fn check_constraints(&self) -> (passed: bool)
        requires
            self.wf(),
            self@.checkable(),
        ensures
            passed == self@.satisfied(),
    {
        match self.first_violation() {
            Some(violation) => {
                assert(!self@.agrees(violation.index as int));
                false
            },
            None => true,
        }
    }

    /// Additions and multiplications are functions of their operands, so
    /// that every gate is one where the hints are.
    pub proof fn lemma_functional(&self)
        requires
            self@.hints_pure(),
        ensures
            self@.functional(),
    {
        assert forall|k: int, kind: Derivation, j: int|
            0 <= k < self@.levels.len() && is_gate_kind(kind) && 0 <= j < self@.levels[k].list(
                kind,
            ).len() implies is_function((#[trigger] self@.levels[k].list(kind)[j]).relation) by {
            let level = self.gates[k];
            assert(self@.levels[k] == level.model::<F>());
            match kind {
                Derivation::Add => {
                    assert(level.model::<F>().adds[j] == level.adder_gates[j].model::<F>());
                },
                Derivation::Mul => {
                    assert(level.model::<F>().muls[j] == level.multiplier_gates[j].model::<F>());
                },
                _ => {
                    assert(is_function(self@.levels[k].hints[j].relation));
                },
            }
        }
    }

    /// Law: evaluation is deterministic. Two evaluations that start from
    /// builders with one circuit, and so with the same values in its inputs
    /// and constants, leave the same values in every node, whatever the
    /// number of workers and the order in which they took the gates, provided
    /// that every hint function returns one value for given values.
    pub proof fn law_deterministic(&self, first: &Self, second: &Self)
        requires
            self.wf(),
            self@.hints_pure(),
            self@.sources_kept(first@),
            first@.evaluated(),
            self@.sources_kept(second@),
            second@.evaluated(),
        ensures
            first@ == second@,
    {
        self.lemma_functional();
        self@.law_evaluation_deterministic(first@, second@);
    }

    /// Writes `value` to the node `id`.
    fn store(&mut self, id: usize, value: F)
        requires
            old(self).inv(),
            old(self)@.contains(id),
        ensures
            final(self).inv(),
            final(self)@ == old(self)@.with_value(id, value),
    {
        self.nodes[id].set(Some(value));
        proof {
            assert(self@.nodes =~= old(self)@.with_value(id, value).nodes);
            assert(self@ =~= old(self)@.with_value(id, value));
        }
    }

    /// Writes each value to the node it comes with, one after the other.
    fn store_all(&mut self, writes: &Vec<(usize, F)>)
        requires
            old(self).inv(),
            forall|j: int| 0 <= j < writes@.len() ==> old(self)@.contains((#[trigger] writes@[j]).0),
        ensures
            final(self).inv(),
            final(self)@ == old(self)@.with_values(writes@),
    {
        let ghost before = self@;
        let mut j: usize = 0;
        while j < writes.len()
            invariant
                0 <= j <= writes@.len(),
                self.inv(),
                forall|i: int| 0 <= i < writes@.len() ==> before.contains((#[trigger] writes@[i]).0),
                self@ == before.with_values(writes@.take(j as int)),
            decreases writes@.len() - j,
        {
            proof {
                assert(writes@.take(j as int + 1).drop_last() =~= writes@.take(j as int));
                assert forall|i: int| 0 <= i < writes@.take(j as int).len() implies before.contains(
                    (#[trigger] writes@.take(j as int)[i]).0,
                ) by {
                    assert(writes@.take(j as int)[i] == writes@[i]);
                }
                before.lemma_with_values_len(writes@.take(j as int));
                assert(before.contains(writes@[j as int].0));
            }
            let id = writes[j].0;
            let value = writes[j].1;
            self.store(id, value);
            j = j + 1;
        }
        proof {
            assert(writes@.take(j as int) =~= writes@);
        }
    }

    /// Whether the node `id` is an input without a value.
    fn is_unassigned(&self, id: usize) -> (unassigned: bool)
        requires
            self@.contains(id),
        ensures
            unassigned == self@.unassigned(id),
    {
        match self.nodes[id].derivation {
            Derivation::Input => self.nodes[id].value.is_none(),
            _ => false,
        }
    }

    /// The first of `ids` that is an input without a value.
    fn scan(&self, ids: &Vec<usize>) -> (found: Option<usize>)
        requires
            self@.contains_all(ids@),
        ensures
            found == self@.missing_among(ids@, 0),
            found is Some ==> self@.contains(found.unwrap()) && self@.unassigned(found.unwrap()),
    {
        let mut t: usize = 0;
        while t < ids.len()
            invariant
                0 <= t <= ids@.len(),
                self@.contains_all(ids@),
                self@.missing_among(ids@, 0) == self@.missing_among(ids@, t as int),
            decreases ids@.len() - t,
        {
            assert(self@.contains(ids@[t as int]));
            if self.is_unassigned(ids[t]) {
                return Some(ids[t]);
            }
            t = t + 1;
        }
        None
    }

    /// The first of `left` and `right` that is an input without a value.
    fn scan_pair(&self, left: usize, right: usize) -> (found: Option<usize>)
        requires
            self@.contains(left),
            self@.contains(right),
        ensures
            found == self@.missing_among(seq![left, right], 0),
            found is Some ==> self@.contains(found.unwrap()) && self@.unassigned(found.unwrap()),
    {
        proof {
            let both = seq![left, right];
            assert(self@.missing_among(both, 2) is None);
            assert(self@.missing_among(both, 1) == if self@.unassigned(right) {
                Some(right)
            } else {
                None
            });
        }
        if self.is_unassigned(left) {
            Some(left)
        } else if self.is_unassigned(right) {
            Some(right)
        } else {
            None
        }
    }

    /// What the store holds of the node `id` and of its parents.
    fn report(&self, id: usize) -> (report: NodeReport<F>)
        requires
            self.wf(),
            self@.contains(id),
        ensures
            report.describes(self@, id),
    {
        let node = &self.nodes[id];
        let ghost expected = self@.nodes[id as int].parents.map_values(
            |p: usize| (p, self@.nodes[p as int].value),
        );
        proof {
            assert(self@.node_ok(id as int));
            assert(self@.nodes[id as int] == node@);
        }
        let mut parents: Vec<(usize, Option<F>)> = Vec::new();
        let mut t: usize = 0;
        while t < node.parents.len()
            invariant
                0 <= t <= node.parents@.len(),
                self.wf(),
                self@.contains(id),
                self@.node_ok(id as int),
                self@.nodes[id as int] == node@,
                expected == self@.nodes[id as int].parents.map_values(
                    |p: usize| (p, self@.nodes[p as int].value),
                ),
                parents@ == expected.take(t as int),
            decreases node.parents@.len() - t,
        {
            let parent = node.parents[t];
            proof {
                assert(self@.nodes[id as int].parents[t as int] < id);
                assert(self@.nodes[parent as int] == self.nodes@[parent as int]@);
            }
            parents.push((parent, self.nodes[parent].value));
            proof {
                assert(parents@ =~= expected.take(t as int + 1));
            }
            t = t + 1;
        }
        proof {
            assert(parents@ =~= expected);
        }
        NodeReport {
            id,
            value: node.value,
            depth: node.depth,
            derivation: node.derivation,
            parents,
        }
    }
}

/// The input that takes the identifier `start + offset`.
fn input_at<F: Field>(offset: usize, start: &usize) -> (node: Node<F>)
    requires
        *start + offset <= usize::MAX,
    ensures
        node@ == (NodeModel::<F> {
            value: None,
            depth: 0,
            parents: Seq::empty(),
            derivation: Derivation::Input,
        }),
        node.id == *start + offset,
{
    Node {
        value: None,
        depth: 0,
        id: *start + offset,
        parents: Vec::new(),
        derivation: Derivation::Input,
    }
}

/// The constant that takes the identifier `batch.0 + offset` and holds the
/// value at `offset` in `batch.1`.
fn constant_at<F: Field>(offset: usize, batch: &(usize, &[F])) -> (node: Node<F>)
    requires
        batch.0 + offset <= usize::MAX,
        offset < batch.1@.len(),
    ensures
        node@ == (NodeModel::<F> {
            value: Some(batch.1@[offset as int]),
            depth: 0,
            parents: Seq::empty(),
            derivation: Derivation::Const,
        }),
        node.id == batch.0 + offset,
{
    Node {
        value: Some(batch.1[offset]),
        depth: 0,
        id: batch.0 + offset,
        parents: Vec::new(),
        derivation: Derivation::Const,
    }
}

/// The handle of the node `start + offset`.
fn handle_at(offset: usize, start: &usize) -> (node: NodeHandle)
    requires
        *start + offset <= usize::MAX,
    ensures
        node.id == *start + offset,
{
    NodeHandle { id: *start + offset }
}

/// The pair of the nodes at `offset` in both slices.
fn assertion_at(offset: usize, both: &(&[NodeHandle], &[NodeHandle])) -> (pair: EqualityAssertion)
    requires
        offset < both.0@.len(),
        offset < both.1@.len(),
    ensures
        pair.left_id == both.0@[offset as int].id,
        pair.right_id == both.1@[offset as int].id,
{
    EqualityAssertion { left_id: both.0[offset].id, right_id: both.1[offset].id }
}

/// The values that the nodes `ids` hold, in order.
pub open spec fn values_at<F: Field>(nodes: Seq<Node<F>>, ids: Seq<usize>) -> Seq<F> {
    Seq::new(ids.len(), |t: int| nodes[ids[t] as int].value.unwrap())
}

/// Whether `ids` name nodes among `nodes`, each of which holds a value.
pub open spec fn all_filled<F: Field>(nodes: Seq<Node<F>>, ids: Seq<usize>) -> bool {
    forall|t: int|
        0 <= t < ids.len() ==> (#[trigger] ids[t]) < nodes.len() && nodes[ids[t] as int].value is Some
}

/// What an addition gate writes, and where.
fn eval_add<F: Field>(gate: &AddGate, nodes: &Vec<Node<F>>) -> (out: (usize, F))
    requires
        all_filled(nodes@, gate.model::<F>().inputs),
    ensures
        out.0 == gate.output_id,
        sum_relation::<F>()(values_at(nodes@, gate.model::<F>().inputs), out.1),
{
    assert(gate.model::<F>().inputs[0] == gate.left_id && gate.model::<F>().inputs[1]
        == gate.right_id);
    let left = nodes[gate.left_id].read();
    let right = nodes[gate.right_id].read();
    proof {
        F::lemma_operators();
    }
    (gate.output_id, left + right)
}

/// What a multiplication gate writes, and where.
fn eval_mul<F: Field>(gate: &MultiplyGate, nodes: &Vec<Node<F>>) -> (out: (usize, F))
    requires
        all_filled(nodes@, gate.model::<F>().inputs),
    ensures
        out.0 == gate.output_id,
        product_relation::<F>()(values_at(nodes@, gate.model::<F>().inputs), out.1),
{
    assert(gate.model::<F>().inputs[0] == gate.left_id && gate.model::<F>().inputs[1]
        == gate.right_id);
    let left = nodes[gate.left_id].read();
    let right = nodes[gate.right_id].read();
    proof {
        F::lemma_operators();
    }
    (gate.output_id, left * right)
}

/// What a hint gate writes, and where: it hands the values of its operands,
/// in order, to its function.
fn eval_hint<F: Field, H: Fn(Vec<F>) -> F>(gate: &LambdaGate<H>, nodes: &Vec<Node<F>>) -> (out: (
    usize,
    F,
))
    requires
        all_filled(nodes@, gate.model::<F>().inputs),
        hint_total(gate.lambda, gate.input_ids@.len()),
    ensures
        out.0 == gate.output_id,
        hint_relation(gate.lambda)(values_at(nodes@, gate.model::<F>().inputs), out.1),
{
    let mut arguments: Vec<F> = Vec::new();
    let mut t: usize = 0;
    while t < gate.input_ids.len()
        invariant
            0 <= t <= gate.input_ids@.len(),
            all_filled(nodes@, gate.input_ids@),
            arguments@ == values_at(nodes@, gate.input_ids@).take(t as int),
        decreases gate.input_ids@.len() - t,
    {
        assert(gate.input_ids@[t as int] < nodes@.len());
        let value = nodes[gate.input_ids[t]].read();
        arguments.push(value);
        proof {
            assert(arguments@ =~= values_at(nodes@, gate.input_ids@).take(t as int + 1));
        }
        t = t + 1;
    }
    proof {
        assert(arguments@ =~= values_at(nodes@, gate.model::<F>().inputs));
    }
    let value = (gate.lambda)(arguments);
    (gate.output_id, value)
}

/// The store holds a value wherever the circuit does.
proof fn filled_in_store<F: Field, H: Fn(Vec<F>) -> F>(builder: &GraphBuilder<F, H>, ids: Seq<usize>)
    requires
        builder@.contains_all(ids),
        builder@.filled(ids),
    ensures
        all_filled(builder.nodes@, ids),
{
    assert forall|t: int| 0 <= t < ids.len() implies (#[trigger] ids[t]) < builder.nodes@.len()
        && builder.nodes@[ids[t] as int].value is Some by {
        assert(builder@.contains(ids[t]));
        assert(builder@.nodes[ids[t] as int] == builder.nodes@[ids[t] as int]@);
    }
}

/// The store holds the values that the circuit does.
proof fn values_in_store<F: Field, H: Fn(Vec<F>) -> F>(builder: &GraphBuilder<F, H>, ids: Seq<usize>)
    requires
        builder@.contains_all(ids),
    ensures
        values_at(builder.nodes@, ids) == builder@.values_of(ids),
{
    assert forall|t: int| 0 <= t < ids.len() implies builder.nodes@[ids[t] as int].value
        == builder@.nodes[ids[t] as int].value by {
        assert(builder@.contains(ids[t]));
        assert(builder@.nodes[ids[t] as int] == builder.nodes@[ids[t] as int]@);
    }
    assert(values_at(builder.nodes@, ids) =~= builder@.values_of(ids));
}

} // verus!

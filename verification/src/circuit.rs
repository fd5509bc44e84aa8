use vstd::prelude::*;
use crate::builder::Derivation;

verus! {

/// A node as the contracts see it. Its identifier is its place in
/// `Circuit::nodes`.
#[verifier::ext_equal]
pub struct NodeModel<V> {
    pub value: Option<V>,
    pub depth: nat,
    pub parents: Seq<usize>,
    pub derivation: Derivation,
}

/// A gate as the contracts see it: the nodes it reads, in order, the node it
/// writes, and what it may write for given operand values.
#[verifier::ext_equal]
#[verifier::reject_recursive_types(V)]
pub struct GateModel<V> {
    pub inputs: Seq<usize>,
    pub output: usize,
    pub relation: spec_fn(Seq<V>, V) -> bool,
}

/// The gates of one depth level, by kind.
#[verifier::ext_equal]
#[verifier::reject_recursive_types(V)]
pub struct LevelModel<V> {
    pub adds: Seq<GateModel<V>>,
    pub muls: Seq<GateModel<V>>,
    pub hints: Seq<GateModel<V>>,
}

/// A circuit as the contracts see it: the node store, the gates by level and
/// kind, and the asserted pairs.
#[verifier::ext_equal]
#[verifier::reject_recursive_types(V)]
pub struct Circuit<V> {
    pub nodes: Seq<NodeModel<V>>,
    pub levels: Seq<LevelModel<V>>,
    pub assertions: Seq<(usize, usize)>,
}

/// Whether nodes of this derivation are written by a gate.
pub open spec fn is_gate_kind(kind: Derivation) -> bool {
    kind == Derivation::Add || kind == Derivation::Mul || kind == Derivation::Hint
}

/// Whether the outputs of the gates ascend, which makes them distinct.
pub open spec fn ascending<V>(gates: Seq<GateModel<V>>) -> bool {
    forall|i: int, j: int| 0 <= i < j < gates.len() ==> gates[i].output < gates[j].output
}

/// The place of a kind of gate in the order in which a level is evaluated.
pub open spec fn rank(kind: Derivation) -> int {
    match kind {
        Derivation::Add => 0,
        Derivation::Mul => 1,
        Derivation::Hint => 2,
        _ => -1,
    }
}

/// Whether `relation` allows one output for given operand values.
pub open spec fn is_function<V>(relation: spec_fn(Seq<V>, V) -> bool) -> bool {
    forall|args: Seq<V>, x: V, y: V| #[trigger]
        relation(args, x) && #[trigger] relation(args, y) ==> x == y
}

impl<V> LevelModel<V> {
    /// A level without gates.
    pub open spec fn empty() -> Self {
        LevelModel { adds: Seq::empty(), muls: Seq::empty(), hints: Seq::empty() }
    }

    /// The gates of one kind.
    pub open spec fn list(self, kind: Derivation) -> Seq<GateModel<V>> {
        match kind {
            Derivation::Add => self.adds,
            Derivation::Mul => self.muls,
            Derivation::Hint => self.hints,
            _ => Seq::empty(),
        }
    }

    /// The level with one more gate of the given kind, behind the others.
    pub open spec fn with(self, kind: Derivation, gate: GateModel<V>) -> Self {
        match kind {
            Derivation::Add => LevelModel { adds: self.adds.push(gate), ..self },
            Derivation::Mul => LevelModel { muls: self.muls.push(gate), ..self },
            Derivation::Hint => LevelModel { hints: self.hints.push(gate), ..self },
            _ => self,
        }
    }
}

impl<V> Circuit<V> {
    /// The circuit without nodes.
    pub open spec fn empty() -> Self {
        Circuit { nodes: Seq::empty(), levels: Seq::empty(), assertions: Seq::empty() }
    }

    /// Whether `id` names a node of the circuit.
    pub open spec fn contains(self, id: usize) -> bool {
        id < self.nodes.len()
    }

    /// Whether all of `ids` name nodes of the circuit.
    pub open spec fn contains_all(self, ids: Seq<usize>) -> bool {
        forall|k: int| 0 <= k < ids.len() ==> self.contains(#[trigger] ids[k])
    }

    /// The largest depth among the nodes `ids`, and 0 where there is none.
    pub open spec fn max_depth(self, ids: Seq<usize>) -> nat
        decreases ids.len(),
    {
        if ids.len() == 0 {
            0
        } else {
            let rest = self.max_depth(ids.drop_last());
            let last = self.nodes[ids.last() as int].depth;
            if last > rest {
                last
            } else {
                rest
            }
        }
    }

    /// What holds of each node: its parents were created before it, and its
    /// depth is 0 for an input or a constant and one more than the largest
    /// depth among its parents otherwise.
    pub open spec fn node_ok(self, i: int) -> bool {
        let n = self.nodes[i];
        &&& n.depth <= i
        &&& forall|k: int| 0 <= k < n.parents.len() ==> (#[trigger] n.parents[k]) < i
        &&& match n.derivation {
            Derivation::Input => n.depth == 0 && n.parents.len() == 0,
            Derivation::Const => n.depth == 0 && n.parents.len() == 0 && n.value is Some,
            Derivation::Add => n.parents.len() == 2 && n.depth == 1 + self.max_depth(n.parents),
            Derivation::Mul => n.parents.len() == 2 && n.depth == 1 + self.max_depth(n.parents),
            Derivation::Hint => n.parents.len() >= 1 && n.depth == 1 + self.max_depth(n.parents),
        }
    }

    /// What holds of a gate of kind `kind` that is kept at `level`: its output
    /// is a node of that derivation with the operands as parents, one level
    /// up.
    pub open spec fn gate_ok(self, gate: GateModel<V>, level: int, kind: Derivation) -> bool {
        &&& gate.output < self.nodes.len()
        &&& self.nodes[gate.output as int].derivation == kind
        &&& self.nodes[gate.output as int].parents == gate.inputs
        &&& self.nodes[gate.output as int].depth == level + 1
    }

    /// Whether every gate kept at `level` is as `gate_ok` says.
    pub open spec fn level_ok(self, level: int) -> bool {
        forall|kind: Derivation, j: int|
            is_gate_kind(kind) && 0 <= j < self.levels[level].list(kind).len() ==> self.gate_ok(
                #[trigger] self.levels[level].list(kind)[j],
                level,
                kind,
            )
    }

    /// Whether node `i` is the output of a gate of its derivation, kept one
    /// level below its depth.
    pub open spec fn has_gate(self, i: int) -> bool {
        let n = self.nodes[i];
        &&& 1 <= n.depth <= self.levels.len()
        &&& exists|j: int|
            0 <= j < self.levels[n.depth - 1].list(n.derivation).len() && (
            #[trigger] self.levels[n.depth - 1].list(n.derivation)[j]).output == i
    }

    /// Whether the circuit is well formed: the nodes are as `node_ok` says, the
    /// gates as `gate_ok` says and in ascending order of their outputs, every
    /// node that is neither input nor constant is the output of a gate, and
    /// the asserted pairs name nodes of the circuit.
    pub open spec fn wf(self) -> bool {
        &&& self.nodes.len() <= usize::MAX
        &&& forall|i: int| 0 <= i < self.nodes.len() ==> #[trigger] self.node_ok(i)
        &&& forall|k: int| 0 <= k < self.levels.len() ==> #[trigger] self.level_ok(k)
        &&& forall|k: int, kind: Derivation|
            0 <= k < self.levels.len() && is_gate_kind(kind) ==> ascending(
                #[trigger] self.levels[k].list(kind),
            )
        &&& forall|i: int|
            0 <= i < self.nodes.len() && is_gate_kind(self.nodes[i].derivation)
                ==> #[trigger] self.has_gate(i)
        &&& forall|a: int|
            0 <= a < self.assertions.len() ==> self.contains((#[trigger] self.assertions[a]).0)
                && self.contains(self.assertions[a].1)
    }

    /// Whether `inputs` can be the operands of a gate of kind `kind`: they are
    /// nodes of the circuit, two for an addition or a multiplication and at
    /// least one for a hint.
    pub open spec fn takes(self, kind: Derivation, inputs: Seq<usize>) -> bool {
        &&& is_gate_kind(kind)
        &&& self.contains_all(inputs)
        &&& inputs.len() >= 1
        &&& kind != Derivation::Hint ==> inputs.len() == 2
    }
}

impl<V> Circuit<V> {
    /// The circuit with one more node of depth 0: an input or a constant.
    pub open spec fn with_source(self, derivation: Derivation, value: Option<V>) -> Self {
        Circuit {
            nodes: self.nodes.push(
                NodeModel { value, depth: 0, parents: Seq::empty(), derivation },
            ),
            ..self
        }
    }

    /// The circuit with one more input, not yet assigned.
    pub open spec fn with_input(self) -> Self {
        self.with_source(Derivation::Input, None)
    }

    /// The circuit with one more constant.
    pub open spec fn with_constant(self, value: V) -> Self {
        self.with_source(Derivation::Const, Some(value))
    }

    /// The circuit with more nodes of depth 0, one for each of `values` and in
    /// their order: inputs or constants.
    pub open spec fn with_sources(self, derivation: Derivation, values: Seq<Option<V>>) -> Self {
        Circuit {
            nodes: self.nodes + values.map_values(
                |value: Option<V>|
                    NodeModel { value, depth: 0, parents: Seq::empty(), derivation },
            ),
            ..self
        }
    }

    /// The circuit with `count` more inputs, none of them assigned.
    pub open spec fn with_inputs(self, count: nat) -> Self {
        self.with_sources(Derivation::Input, Seq::new(count, |i: int| None))
    }

    /// The circuit with more constants, one for each of `values` and in their
    /// order.
    pub open spec fn with_constants(self, values: Seq<V>) -> Self {
        self.with_sources(Derivation::Const, values.map_values(|v: V| Some(v)))
    }

    /// The circuit with one more gate over `inputs`, and with the node that
    /// it writes: the node lies one level above the deepest operand, and its
    /// gate is kept at that operand's level, behind the gates of its kind that
    /// are there already.
    pub open spec fn with_gate(
        self,
        kind: Derivation,
        inputs: Seq<usize>,
        relation: spec_fn(Seq<V>, V) -> bool,
    ) -> Self {
        let level = self.max_depth(inputs) as int;
        let gate = GateModel { inputs, output: self.nodes.len() as usize, relation };
        let levels = if level < self.levels.len() {
            self.levels
        } else {
            self.levels.push(LevelModel::empty())
        };
        Circuit {
            nodes: self.nodes.push(
                NodeModel {
                    value: None,
                    depth: (level + 1) as nat,
                    parents: inputs,
                    derivation: kind,
                },
            ),
            levels: levels.update(level, levels[level].with(kind, gate)),
            assertions: self.assertions,
        }
    }

    /// The circuit in which node `id` holds `value`.
    pub open spec fn with_value(self, id: usize, value: V) -> Self {
        Circuit {
            nodes: self.nodes.update(
                id as int,
                NodeModel { value: Some(value), ..self.nodes[id as int] },
            ),
            ..self
        }
    }

    /// The circuit after the values `writes` have gone to the nodes they
    /// name, one after the other.
    pub open spec fn with_values(self, writes: Seq<(usize, V)>) -> Self
        decreases writes.len(),
    {
        if writes.len() == 0 {
            self
        } else {
            self.with_values(writes.drop_last()).with_value(writes.last().0, writes.last().1)
        }
    }

    /// The circuit after each of `values` has been assigned to the node at
    /// its place in `ids`, one after the other, but for the nodes that are not
    /// inputs: these are left as they are.
    pub open spec fn with_assignments(self, ids: Seq<usize>, values: Seq<V>) -> Self
        decreases ids.len(),
    {
        if ids.len() == 0 {
            self
        } else {
            let before = self.with_assignments(ids.drop_last(), values.drop_last());
            if self.nodes[ids.last() as int].derivation == Derivation::Input {
                before.with_value(ids.last(), values.last())
            } else {
                before
            }
        }
    }

    /// Those of `ids`, in order, that are not inputs.
    pub open spec fn rejected(self, ids: Seq<usize>) -> Seq<usize>
        decreases ids.len(),
    {
        if ids.len() == 0 {
            Seq::empty()
        } else if self.nodes[ids.last() as int].derivation == Derivation::Input {
            self.rejected(ids.drop_last())
        } else {
            self.rejected(ids.drop_last()).push(ids.last())
        }
    }

    /// The circuit with one more asserted pair.
    pub open spec fn with_assertion(self, left: usize, right: usize) -> Self {
        Circuit { assertions: self.assertions.push((left, right)), ..self }
    }

    /// The circuit with more asserted pairs, in their order.
    pub open spec fn with_assertions(self, pairs: Seq<(usize, usize)>) -> Self {
        Circuit { assertions: self.assertions + pairs, ..self }
    }
}

impl<V> Circuit<V> {
    /// The values that the nodes `ids` hold, in order.
    pub open spec fn values_of(self, ids: Seq<usize>) -> Seq<V> {
        Seq::new(ids.len(), |k: int| self.nodes[ids[k] as int].value.unwrap())
    }

    /// Whether each of the nodes `ids` holds a value.
    pub open spec fn filled(self, ids: Seq<usize>) -> bool {
        forall|k: int| 0 <= k < ids.len() ==> self.nodes[#[trigger] ids[k] as int].value is Some
    }

    /// Whether the output of `gate` holds what `gate` makes of the values that
    /// its operands hold.
    pub open spec fn gate_holds(self, gate: GateModel<V>) -> bool {
        &&& self.filled(gate.inputs)
        &&& self.nodes[gate.output as int].value is Some
        &&& (gate.relation)(
            self.values_of(gate.inputs),
            self.nodes[gate.output as int].value.unwrap(),
        )
    }

    /// Whether every gate kept at `level` holds.
    pub open spec fn level_holds(self, level: int) -> bool {
        forall|kind: Derivation, j: int|
            is_gate_kind(kind) && 0 <= j < self.levels[level].list(kind).len()
                ==> self.gate_holds(#[trigger] self.levels[level].list(kind)[j])
    }

    /// Whether every gate of the circuit holds: the values are a witness.
    pub open spec fn evaluated(self) -> bool {
        forall|k: int| 0 <= k < self.levels.len() ==> #[trigger] self.level_holds(k)
    }

    /// Whether node `id` is an input that has not been assigned.
    pub open spec fn unassigned(self, id: usize) -> bool {
        self.nodes[id as int].derivation == Derivation::Input && self.nodes[id as int].value is None
    }

    /// The first of `ids`, from place `from` on, that is an unassigned input.
    pub open spec fn missing_among(self, ids: Seq<usize>, from: int) -> Option<usize>
        decreases ids.len() - from,
    {
        if from < 0 || from >= ids.len() {
            None
        } else if self.unassigned(ids[from]) {
            Some(ids[from])
        } else {
            self.missing_among(ids, from + 1)
        }
    }

    /// The first unassigned input that one of `gates` reads, from gate `from`
    /// on.
    pub open spec fn missing_in(self, gates: Seq<GateModel<V>>, from: int) -> Option<usize>
        decreases gates.len() - from,
    {
        if from < 0 || from >= gates.len() {
            None
        } else {
            match self.missing_among(gates[from].inputs, 0) {
                Some(id) => Some(id),
                None => self.missing_in(gates, from + 1),
            }
        }
    }

    /// The first unassigned input that a gate kept at `level` reads:
    /// additions come first, then multiplications, then hints.
    pub open spec fn missing_at(self, level: int) -> Option<usize> {
        match self.missing_in(self.levels[level].adds, 0) {
            Some(id) => Some(id),
            None => match self.missing_in(self.levels[level].muls, 0) {
                Some(id) => Some(id),
                None => self.missing_in(self.levels[level].hints, 0),
            },
        }
    }

    /// The first unassigned input that a gate reads, from `level` on.
    pub open spec fn missing_from(self, level: int) -> Option<usize>
        decreases self.levels.len() - level,
    {
        if level < 0 || level >= self.levels.len() {
            None
        } else {
            match self.missing_at(level) {
                Some(id) => Some(id),
                None => self.missing_from(level + 1),
            }
        }
    }

    /// The first unassigned input that an evaluation would read, if there is
    /// one.
    pub open spec fn first_missing(self) -> Option<usize> {
        self.missing_from(0)
    }

    /// Whether `other` has the nodes of `self` as they are but for their
    /// values, and maybe more behind them.
    pub open spec fn shapes_kept(self, other: Self) -> bool {
        &&& self.nodes.len() <= other.nodes.len()
        &&& forall|i: int|
            0 <= i < self.nodes.len() ==> {
                &&& (#[trigger] other.nodes[i]).depth == self.nodes[i].depth
                &&& other.nodes[i].parents == self.nodes[i].parents
                &&& other.nodes[i].derivation == self.nodes[i].derivation
            }
    }

    /// Whether `other` differs from `self` in the values of nodes only, and in
    /// those of neither inputs nor constants.
    pub open spec fn sources_kept(self, other: Self) -> bool {
        &&& other.nodes.len() == self.nodes.len()
        &&& other.levels == self.levels
        &&& other.assertions == self.assertions
        &&& self.shapes_kept(other)
        &&& forall|i: int|
            0 <= i < self.nodes.len() && !is_gate_kind(self.nodes[i].derivation) ==> (
            #[trigger] other.nodes[i]).value == self.nodes[i].value
    }

    /// Whether every hint allows one output for given operand values, as the
    /// additions and multiplications do by themselves.
    pub open spec fn hints_pure(self) -> bool {
        forall|k: int, j: int|
            0 <= k < self.levels.len() && 0 <= j < self.levels[k].hints.len() ==> is_function(
                (#[trigger] self.levels[k].hints[j]).relation,
            )
    }

    /// Whether every gate allows one output for given operand values.
    pub open spec fn functional(self) -> bool {
        forall|k: int, kind: Derivation, j: int|
            0 <= k < self.levels.len() && is_gate_kind(kind) && 0 <= j < self.levels[k].list(
                kind,
            ).len() ==> is_function((#[trigger] self.levels[k].list(kind)[j]).relation)
    }
}

impl<V> Circuit<V> {
    /// Whether both nodes of an asserted pair hold a value.
    pub open spec fn checkable(self) -> bool {
        forall|a: int|
            0 <= a < self.assertions.len() ==> self.nodes[(#[trigger] self.assertions[a]).0 as int].value is Some
                && self.nodes[self.assertions[a].1 as int].value is Some
    }

    /// Whether the two nodes of the asserted pair `a` hold the same.
    pub open spec fn agrees(self, a: int) -> bool {
        self.nodes[self.assertions[a].0 as int].value == self.nodes[self.assertions[a].1 as int].value
    }

    /// Whether every asserted pair agrees.
    pub open spec fn satisfied(self) -> bool {
        forall|a: int| 0 <= a < self.assertions.len() ==> #[trigger] self.agrees(a)
    }

    /// Whether `a` is the first asserted pair that does not agree.
    pub open spec fn first_violation(self, a: int) -> bool {
        &&& 0 <= a < self.assertions.len()
        &&& !self.agrees(a)
        &&& forall|b: int| 0 <= b < a ==> #[trigger] self.agrees(b)
    }
}

} // verus!

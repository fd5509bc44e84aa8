use vstd::prelude::*;
use crate::builder::Derivation;
use crate::circuit::Circuit;
use crate::circuit::GateModel;
use crate::circuit::LevelModel;
use crate::circuit::ascending;
use crate::circuit::is_function;
use crate::circuit::is_gate_kind;

verus! {

impl<V> Circuit<V> {
    /// Whether `other` has the gates of `self` where they are, and maybe more
    /// behind them.
    pub open spec fn gates_kept(self, other: Self) -> bool {
        &&& self.levels.len() <= other.levels.len()
        &&& forall|k: int, kind: Derivation, j: int|
            0 <= k < self.levels.len() && 0 <= j < self.levels[k].list(kind).len() ==> {
                &&& j < other.levels[k].list(kind).len()
                &&& other.levels[k].list(kind)[j] == #[trigger] self.levels[k].list(kind)[j]
            }
    }

    /// Whether `other` differs from `self` in the values of inputs only.
    pub open spec fn kept_but_inputs(self, other: Self) -> bool {
        &&& other.nodes.len() == self.nodes.len()
        &&& other.levels == self.levels
        &&& other.assertions == self.assertions
        &&& forall|i: int|
            0 <= i < self.nodes.len() ==> {
                &&& (#[trigger] other.nodes[i]).depth == self.nodes[i].depth
                &&& other.nodes[i].parents == self.nodes[i].parents
                &&& other.nodes[i].derivation == self.nodes[i].derivation
                &&& self.nodes[i].derivation != Derivation::Input ==> other.nodes[i].value
                    == self.nodes[i].value
            }
    }

    /// The largest depth among nodes depends on their depths alone.
    pub proof fn lemma_max_depth_kept(self, other: Self, ids: Seq<usize>)
        requires
            self.shapes_kept(other),
            self.contains_all(ids),
        ensures
            other.max_depth(ids) == self.max_depth(ids),
        decreases ids.len(),
    {
        if ids.len() > 0 {
            assert(self.contains(ids[ids.len() - 1]));
            assert forall|k: int| 0 <= k < ids.drop_last().len() implies self.contains(
                #[trigger] ids.drop_last()[k],
            ) by {
                assert(ids.drop_last()[k] == ids[k]);
            }
            self.lemma_max_depth_kept(other, ids.drop_last());
        }
    }

    /// The largest depth among nodes is the depth of one of them and bounds
    /// the depth of each.
    pub proof fn lemma_max_depth(self, ids: Seq<usize>)
        requires
            ids.len() >= 1,
        ensures
            exists|k: int| 0 <= k < ids.len() && self.max_depth(ids) == self.nodes[ids[k] as int].depth,
            forall|k: int| 0 <= k < ids.len() ==> self.nodes[#[trigger] ids[k] as int].depth <= self.max_depth(ids),
        decreases ids.len(),
    {
        let rest = ids.drop_last();
        let last = ids.len() - 1;
        if ids.len() == 1 {
            assert(self.max_depth(rest) == 0);
            assert(self.max_depth(ids) == self.nodes[ids[0] as int].depth);
        } else {
            self.lemma_max_depth(rest);
            let k0 = choose|k: int| 0 <= k < rest.len() && self.max_depth(rest) == self.nodes[rest[k] as int].depth;
            assert(rest[k0] == ids[k0]);
            if self.nodes[ids[last] as int].depth > self.max_depth(rest) {
                assert(self.max_depth(ids) == self.nodes[ids[last] as int].depth);
            } else {
                assert(self.max_depth(ids) == self.nodes[ids[k0] as int].depth);
            }
            assert forall|k: int| 0 <= k < ids.len() implies self.nodes[#[trigger] ids[k] as int].depth <= self.max_depth(ids) by {
                if k < last {
                    assert(rest[k] == ids[k]);
                }
            }
        }
    }

    /// The largest depth of two nodes.
    pub proof fn lemma_max_depth_pair(self, left: usize, right: usize)
        ensures
            self.max_depth(seq![left, right]) == if self.nodes[left as int].depth
                > self.nodes[right as int].depth {
                self.nodes[left as int].depth
            } else {
                self.nodes[right as int].depth
            },
    {
        let both = seq![left, right];
        let one = seq![left];
        assert(both.drop_last() =~= one);
        assert(one.drop_last() =~= Seq::<usize>::empty());
        assert(self.max_depth(one.drop_last()) == 0);
        assert(self.max_depth(one) == self.nodes[left as int].depth);
    }

    /// The largest depth of some nodes and one more.
    pub proof fn lemma_max_depth_push(self, ids: Seq<usize>, id: usize)
        ensures
            self.max_depth(ids.push(id)) == if self.nodes[id as int].depth > self.max_depth(ids) {
                self.nodes[id as int].depth
            } else {
                self.max_depth(ids)
            },
    {
        assert(ids.push(id).drop_last() =~= ids);
    }

    /// In a well-formed circuit a node is no deeper than the levels reach, and
    /// no deeper than its identifier.
    pub proof fn lemma_depth_bounds(self, i: int)
        requires
            self.wf(),
            0 <= i < self.nodes.len(),
        ensures
            self.nodes[i].depth <= self.levels.len(),
            self.nodes[i].depth <= i,
    {
        assert(self.node_ok(i));
        if is_gate_kind(self.nodes[i].derivation) {
            assert(self.has_gate(i));
        }
    }

    /// The level at which a gate over `ids` would be kept exists already or is
    /// the next one.
    pub proof fn lemma_gate_level(self, ids: Seq<usize>)
        requires
            self.wf(),
            self.contains_all(ids),
            ids.len() >= 1,
        ensures
            self.max_depth(ids) <= self.levels.len(),
            self.max_depth(ids) < self.nodes.len(),
    {
        self.lemma_max_depth(ids);
        let k = choose|k: int| 0 <= k < ids.len() && self.max_depth(ids) == self.nodes[ids[k] as int].depth;
        assert(self.contains(ids[k]));
        self.lemma_depth_bounds(ids[k] as int);
    }

    /// A node stays as `node_ok` says where the nodes up to it keep their
    /// shapes and a constant keeps a value.
    pub(crate) proof fn lemma_node_ok_kept(self, other: Self, i: int)
        requires
            self.shapes_kept(other),
            0 <= i < self.nodes.len(),
            self.node_ok(i),
            self.nodes[i].derivation == Derivation::Const ==> other.nodes[i].value is Some,
        ensures
            other.node_ok(i),
    {
        let n = self.nodes[i];
        assert(other.nodes[i].parents == n.parents);
        assert forall|k: int| 0 <= k < n.parents.len() implies self.contains(
            #[trigger] n.parents[k],
        ) by {}
        self.lemma_max_depth_kept(other, n.parents);
    }

    /// A gate stays as `gate_ok` says where the nodes keep their shapes.
    pub(crate) proof fn lemma_gate_ok_kept(self, other: Self, gate: GateModel<V>, level: int, kind: Derivation)
        requires
            self.shapes_kept(other),
            self.gate_ok(gate, level, kind),
        ensures
            other.gate_ok(gate, level, kind),
    {
        assert(other.nodes[gate.output as int].depth == self.nodes[gate.output as int].depth);
    }

    /// A node stays the output of a gate where nodes keep their shapes and
    /// gates their places.
    pub(crate) proof fn lemma_has_gate_kept(self, other: Self, i: int)
        requires
            self.shapes_kept(other),
            self.gates_kept(other),
            0 <= i < self.nodes.len(),
            self.has_gate(i),
        ensures
            other.has_gate(i),
    {
        let n = self.nodes[i];
        let m = other.nodes[i];
        assert(m.depth == n.depth && m.derivation == n.derivation);
        let j = choose|j: int|
            0 <= j < self.levels[n.depth - 1].list(n.derivation).len() && (
            #[trigger] self.levels[n.depth - 1].list(n.derivation)[j]).output == i;
        assert(self.levels[n.depth - 1].list(n.derivation)[j].output == i);
        assert(0 <= j < other.levels[m.depth - 1].list(m.derivation).len());
        assert(other.levels[m.depth - 1].list(m.derivation)[j].output == i);
    }

    /// A circuit that differs from a well-formed one in the values of its
    /// gates' outputs only is well formed.
    pub proof fn lemma_kept_wf(self, other: Self)
        requires
            self.wf(),
            self.sources_kept(other),
        ensures
            other.wf(),
    {
        assert(self.gates_kept(other));
        assert forall|i: int| 0 <= i < other.nodes.len() implies #[trigger] other.node_ok(i) by {
            assert(self.node_ok(i));
            self.lemma_node_ok_kept(other, i);
        }
        assert forall|k: int| 0 <= k < other.levels.len() implies #[trigger] other.level_ok(k) by {
            assert(self.level_ok(k));
            assert forall|kind: Derivation, j: int|
                is_gate_kind(kind) && 0 <= j < other.levels[k].list(kind).len() implies other.gate_ok(
                #[trigger] other.levels[k].list(kind)[j],
                k,
                kind,
            ) by {
                self.lemma_gate_ok_kept(other, self.levels[k].list(kind)[j], k, kind);
            }
        }
        assert forall|k: int, kind: Derivation|
            0 <= k < other.levels.len() && is_gate_kind(kind) implies ascending(
            #[trigger] other.levels[k].list(kind),
        ) by {
            assert(ascending(self.levels[k].list(kind)));
        }
        assert forall|i: int|
            0 <= i < other.nodes.len() && is_gate_kind(other.nodes[i].derivation) implies #[trigger] other.has_gate(
            i,
        ) by {
            assert(self.has_gate(i));
            self.lemma_has_gate_kept(other, i);
        }
        assert forall|a: int| 0 <= a < other.assertions.len() implies other.contains(
            (#[trigger] other.assertions[a]).0,
        ) && other.contains(other.assertions[a].1) by {
            assert(self.contains(self.assertions[a].0));
        }
    }

    /// Adding an input or a constant keeps a circuit well formed.
    pub proof fn lemma_with_source(self, derivation: Derivation, value: Option<V>)
        requires
            self.wf(),
            self.nodes.len() < usize::MAX,
            derivation == Derivation::Input || (derivation == Derivation::Const && value is Some),
        ensures
            self.with_source(derivation, value).wf(),
    {
        let d = self.with_source(derivation, value);
        let n = self.nodes.len() as int;
        assert(self.shapes_kept(d));
        assert forall|i: int| 0 <= i < d.nodes.len() implies #[trigger] d.node_ok(i) by {
            if i < n {
                assert(self.node_ok(i));
                self.lemma_node_ok_kept(d, i);
            } else {
                assert(d.nodes[i].parents.len() == 0);
            }
        }
        assert forall|k: int| 0 <= k < d.levels.len() implies #[trigger] d.level_ok(k) by {
            assert(self.level_ok(k));
            assert forall|kind: Derivation, j: int|
                is_gate_kind(kind) && 0 <= j < d.levels[k].list(kind).len() implies d.gate_ok(
                #[trigger] d.levels[k].list(kind)[j],
                k,
                kind,
            ) by {
                self.lemma_gate_ok_kept(d, self.levels[k].list(kind)[j], k, kind);
            }
        }
        assert forall|k: int, kind: Derivation|
            0 <= k < d.levels.len() && is_gate_kind(kind) implies ascending(
            #[trigger] d.levels[k].list(kind),
        ) by {
            assert(ascending(self.levels[k].list(kind)));
        }
        assert forall|i: int|
            0 <= i < d.nodes.len() && is_gate_kind(d.nodes[i].derivation) implies #[trigger] d.has_gate(
            i,
        ) by {
            assert(i < n);
            assert(self.has_gate(i));
            self.lemma_has_gate_kept(d, i);
        }
        assert forall|a: int| 0 <= a < d.assertions.len() implies d.contains(
            (#[trigger] d.assertions[a]).0,
        ) && d.contains(d.assertions[a].1) by {
            assert(self.contains(self.assertions[a].0));
        }
    }

    /// Adding several inputs, or several constants, is adding them one by one,
    /// and keeps a circuit well formed.
    pub proof fn lemma_with_sources(self, derivation: Derivation, values: Seq<Option<V>>)
        requires
            self.wf(),
            self.nodes.len() + values.len() <= usize::MAX,
            derivation == Derivation::Input || (derivation == Derivation::Const && forall|i: int|
                0 <= i < values.len() ==> (#[trigger] values[i]) is Some),
        ensures
            self.with_sources(derivation, values).wf(),
            values.len() > 0 ==> self.with_sources(derivation, values) == self.with_sources(
                derivation,
                values.drop_last(),
            ).with_source(derivation, values.last()),
        decreases values.len(),
    {
        if values.len() == 0 {
            assert(self.with_sources(derivation, values).nodes =~= self.nodes);
            assert(self.with_sources(derivation, values) =~= self);
        } else {
            let before = self.with_sources(derivation, values.drop_last());
            self.lemma_with_sources(derivation, values.drop_last());
            before.lemma_with_source(derivation, values.last());
            assert(self.with_sources(derivation, values).nodes =~= before.with_source(
                derivation,
                values.last(),
            ).nodes);
            assert(self.with_sources(derivation, values) =~= before.with_source(
                derivation,
                values.last(),
            ));
        }
    }

    /// Adding a gate over nodes of the circuit keeps it well formed.
    pub proof fn lemma_with_gate(
        self,
        kind: Derivation,
        inputs: Seq<usize>,
        relation: spec_fn(Seq<V>, V) -> bool,
    )
        requires
            self.wf(),
            self.nodes.len() < usize::MAX,
            self.takes(kind, inputs),
        ensures
            self.with_gate(kind, inputs, relation).wf(),
            self.max_depth(inputs) <= self.levels.len(),
            self.max_depth(inputs) < self.nodes.len(),
    {
        let d = self.with_gate(kind, inputs, relation);
        let n = self.nodes.len() as int;
        let level = self.max_depth(inputs) as int;
        let gate = GateModel { inputs, output: n as usize, relation };
        self.lemma_gate_level(inputs);
        let base = if level < self.levels.len() {
            self.levels
        } else {
            self.levels.push(LevelModel::empty())
        };
        assert(d.levels == base.update(level, base[level].with(kind, gate)));
        assert(d.levels[level] == base[level].with(kind, gate));
        assert(d.levels[level].list(kind) == base[level].list(kind).push(gate));
        assert(self.shapes_kept(d));
        assert(self.gates_kept(d)) by {
            assert forall|k: int, kd: Derivation, j: int|
                0 <= k < self.levels.len() && 0 <= j < self.levels[k].list(kd).len() implies j
                < d.levels[k].list(kd).len() && d.levels[k].list(kd)[j]
                == #[trigger] self.levels[k].list(kd)[j] by {
                if k == level {
                    assert(base[level] == self.levels[level]);
                }
            }
        }
        assert forall|i: int| 0 <= i < d.nodes.len() implies #[trigger] d.node_ok(i) by {
            if i < n {
                assert(self.node_ok(i));
                self.lemma_node_ok_kept(d, i);
            } else {
                self.lemma_max_depth_kept(d, inputs);
                assert(d.nodes[i].parents == inputs);
                assert forall|k: int| 0 <= k < inputs.len() implies (#[trigger] inputs[k]) < i by {
                    assert(self.contains(inputs[k]));
                }
            }
        }
        assert forall|k: int| 0 <= k < d.levels.len() implies #[trigger] d.level_ok(k) by {
            assert forall|kd: Derivation, j: int|
                is_gate_kind(kd) && 0 <= j < d.levels[k].list(kd).len() implies d.gate_ok(
                #[trigger] d.levels[k].list(kd)[j],
                k,
                kd,
            ) by {
                if k < self.levels.len() && j < self.levels[k].list(kd).len() {
                    assert(self.level_ok(k));
                    assert(d.levels[k].list(kd)[j] == self.levels[k].list(kd)[j]);
                    self.lemma_gate_ok_kept(d, self.levels[k].list(kd)[j], k, kd);
                } else {
                    // the one gate that is new
                    if k != level {
                        assert(d.levels[k] == base[k]);
                    } else if kd != kind {
                        assert(d.levels[k].list(kd) == base[k].list(kd));
                    } else {
                        assert(d.levels[k].list(kd)[j] == gate);
                    }
                }
            }
        }
        assert forall|k: int, kd: Derivation|
            0 <= k < d.levels.len() && is_gate_kind(kd) implies ascending(
            #[trigger] d.levels[k].list(kd),
        ) by {
            let now = d.levels[k].list(kd);
            if k < self.levels.len() {
                assert(self.level_ok(k));
                assert(ascending(self.levels[k].list(kd)));
            }
            assert forall|i: int, j: int| 0 <= i < j < now.len() implies now[i].output
                < now[j].output by {
                if k == level && kd == kind {
                    let before = base[level].list(kind);
                    assert(now == before.push(gate));
                    if j == before.len() {
                        assert(self.gate_ok(self.levels[k].list(kd)[i], k, kd));
                    }
                } else if k == level {
                    assert(now == base[k].list(kd));
                } else {
                    assert(d.levels[k] == base[k]);
                }
            }
        }
        assert forall|i: int|
            0 <= i < d.nodes.len() && is_gate_kind(d.nodes[i].derivation) implies #[trigger] d.has_gate(
            i,
        ) by {
            if i < n {
                assert(self.has_gate(i));
                self.lemma_has_gate_kept(d, i);
            } else {
                let last = base[level].list(kind).len() as int;
                assert(d.levels[level].list(kind)[last] == gate);
                assert(d.levels[d.nodes[i].depth - 1].list(d.nodes[i].derivation)[last].output == i);
            }
        }
        assert forall|a: int| 0 <= a < d.assertions.len() implies d.contains(
            (#[trigger] d.assertions[a]).0,
        ) && d.contains(d.assertions[a].1) by {
            assert(self.contains(self.assertions[a].0));
        }
    }

    /// A new gate leaves the hints as they are, unless it is a hint itself:
    /// then the hints are functions exactly where they were before and the new
    /// one is.
    pub proof fn lemma_hints_with_gate(
        self,
        kind: Derivation,
        inputs: Seq<usize>,
        relation: spec_fn(Seq<V>, V) -> bool,
    )
        requires
            self.wf(),
            self.takes(kind, inputs),
        ensures
            self.with_gate(kind, inputs, relation).hints_pure() == (self.hints_pure() && (kind
                == Derivation::Hint ==> is_function(relation))),
    {
        let d = self.with_gate(kind, inputs, relation);
        let level = self.max_depth(inputs) as int;
        let gate = GateModel { inputs, output: self.nodes.len() as usize, relation };
        self.lemma_gate_level(inputs);
        let base = if level < self.levels.len() {
            self.levels
        } else {
            self.levels.push(LevelModel::empty())
        };
        assert(d.levels[level] == base[level].with(kind, gate));
        assert forall|k: int| 0 <= k < d.levels.len() && k != level implies d.levels[k]
            == self.levels[k] by {
            assert(d.levels[k] == base[k]);
        }
        if self.hints_pure() && (kind == Derivation::Hint ==> is_function(relation)) {
            assert forall|k: int, j: int|
                0 <= k < d.levels.len() && 0 <= j < d.levels[k].hints.len() implies is_function(
                (#[trigger] d.levels[k].hints[j]).relation,
            ) by {
                if k == level && kind == Derivation::Hint {
                    assert(d.levels[k].hints == base[k].hints.push(gate));
                    if j < base[k].hints.len() {
                        assert(d.levels[k].hints[j] == self.levels[k].hints[j]);
                    }
                } else if k == level {
                    assert(d.levels[k].hints == base[k].hints);
                    if k < self.levels.len() {
                        assert(d.levels[k].hints[j] == self.levels[k].hints[j]);
                    }
                }
            }
        }
        if d.hints_pure() {
            assert forall|k: int, j: int|
                0 <= k < self.levels.len() && 0 <= j < self.levels[k].hints.len() implies is_function(
                (#[trigger] self.levels[k].hints[j]).relation,
            ) by {
                if k == level {
                    assert(base[level] == self.levels[level]);
                    if kind == Derivation::Hint {
                        assert(d.levels[k].hints == base[k].hints.push(gate));
                    } else {
                        assert(d.levels[k].hints == base[k].hints);
                    }
                }
                assert(d.levels[k].hints[j] == self.levels[k].hints[j]);
            }
            if kind == Derivation::Hint {
                let last = base[level].hints.len() as int;
                assert(d.levels[level].hints == base[level].hints.push(gate));
                assert(d.levels[level].hints[last] == gate);
            }
        }
    }

    /// Giving a node a value keeps a circuit well formed.
    pub proof fn lemma_with_value(self, id: usize, value: V)
        requires
            self.wf(),
            self.contains(id),
        ensures
            self.with_value(id, value).wf(),
            self.shapes_kept(self.with_value(id, value)),
    {
        let d = self.with_value(id, value);
        assert(self.shapes_kept(d));
        assert forall|i: int| 0 <= i < d.nodes.len() implies #[trigger] d.node_ok(i) by {
            assert(self.node_ok(i));
            self.lemma_node_ok_kept(d, i);
        }
        assert forall|k: int| 0 <= k < d.levels.len() implies #[trigger] d.level_ok(k) by {
            assert(self.level_ok(k));
            assert forall|kind: Derivation, j: int|
                is_gate_kind(kind) && 0 <= j < d.levels[k].list(kind).len() implies d.gate_ok(
                #[trigger] d.levels[k].list(kind)[j],
                k,
                kind,
            ) by {
                self.lemma_gate_ok_kept(d, self.levels[k].list(kind)[j], k, kind);
            }
        }
        assert forall|k: int, kind: Derivation|
            0 <= k < d.levels.len() && is_gate_kind(kind) implies ascending(
            #[trigger] d.levels[k].list(kind),
        ) by {
            assert(ascending(self.levels[k].list(kind)));
        }
        assert forall|i: int|
            0 <= i < d.nodes.len() && is_gate_kind(d.nodes[i].derivation) implies #[trigger] d.has_gate(
            i,
        ) by {
            assert(self.has_gate(i));
            self.lemma_has_gate_kept(d, i);
        }
        assert forall|a: int| 0 <= a < d.assertions.len() implies d.contains(
            (#[trigger] d.assertions[a]).0,
        ) && d.contains(d.assertions[a].1) by {
            assert(self.contains(self.assertions[a].0));
        }
    }

    /// Assigning values keeps a circuit well formed, and its nodes but for
    /// their values.
    pub proof fn lemma_with_assignments(self, ids: Seq<usize>, values: Seq<V>)
        requires
            self.wf(),
            self.contains_all(ids),
            ids.len() == values.len(),
        ensures
            self.with_assignments(ids, values).wf(),
            self.kept_but_inputs(self.with_assignments(ids, values)),
        decreases ids.len(),
    {
        if ids.len() > 0 {
            let before = self.with_assignments(ids.drop_last(), values.drop_last());
            assert forall|k: int| 0 <= k < ids.drop_last().len() implies self.contains(
                #[trigger] ids.drop_last()[k],
            ) by {
                assert(ids.drop_last()[k] == ids[k]);
            }
            self.lemma_with_assignments(ids.drop_last(), values.drop_last());
            assert(self.contains(ids[ids.len() - 1]));
            if self.nodes[ids.last() as int].derivation == Derivation::Input {
                before.lemma_with_value(ids.last(), values.last());
                let after = before.with_value(ids.last(), values.last());
                assert forall|i: int| 0 <= i < self.nodes.len() implies {
                    &&& (#[trigger] after.nodes[i]).depth == self.nodes[i].depth
                    &&& after.nodes[i].parents == self.nodes[i].parents
                    &&& after.nodes[i].derivation == self.nodes[i].derivation
                    &&& self.nodes[i].derivation != Derivation::Input ==> after.nodes[i].value
                        == self.nodes[i].value
                } by {
                    assert(before.nodes[i].depth == self.nodes[i].depth);
                }
            }
        }
    }

    /// Adding an asserted pair over nodes of the circuit keeps it well formed.
    pub proof fn lemma_with_assertion(self, left: usize, right: usize)
        requires
            self.wf(),
            self.contains(left),
            self.contains(right),
        ensures
            self.with_assertion(left, right).wf(),
    {
        let d = self.with_assertion(left, right);
        assert(self.shapes_kept(d));
        assert forall|i: int| 0 <= i < d.nodes.len() implies #[trigger] d.node_ok(i) by {
            assert(self.node_ok(i));
            self.lemma_node_ok_kept(d, i);
        }
        assert forall|k: int| 0 <= k < d.levels.len() implies #[trigger] d.level_ok(k) by {
            assert(self.level_ok(k));
        }
        assert forall|k: int, kind: Derivation|
            0 <= k < d.levels.len() && is_gate_kind(kind) implies ascending(
            #[trigger] d.levels[k].list(kind),
        ) by {
            assert(ascending(self.levels[k].list(kind)));
        }
        assert forall|i: int|
            0 <= i < d.nodes.len() && is_gate_kind(d.nodes[i].derivation) implies #[trigger] d.has_gate(
            i,
        ) by {
            assert(self.has_gate(i));
            self.lemma_has_gate_kept(d, i);
        }
        assert forall|a: int| 0 <= a < d.assertions.len() implies d.contains(
            (#[trigger] d.assertions[a]).0,
        ) && d.contains(d.assertions[a].1) by {
            if a < self.assertions.len() {
                assert(self.contains(self.assertions[a].0));
            }
        }
    }

    /// Adding asserted pairs over nodes of the circuit keeps it well formed.
    pub proof fn lemma_with_assertions(self, pairs: Seq<(usize, usize)>)
        requires
            self.wf(),
            forall|a: int|
                0 <= a < pairs.len() ==> self.contains((#[trigger] pairs[a]).0) && self.contains(
                    pairs[a].1,
                ),
        ensures
            self.with_assertions(pairs).wf(),
        decreases pairs.len(),
    {
        if pairs.len() == 0 {
            assert(self.with_assertions(pairs).assertions =~= self.assertions);
            assert(self.with_assertions(pairs) =~= self);
        } else {
            let before = self.with_assertions(pairs.drop_last());
            assert forall|a: int| 0 <= a < pairs.drop_last().len() implies self.contains(
                (#[trigger] pairs.drop_last()[a]).0,
            ) && self.contains(pairs.drop_last()[a].1) by {
                assert(pairs.drop_last()[a] == pairs[a]);
            }
            self.lemma_with_assertions(pairs.drop_last());
            assert(self.contains(pairs[pairs.len() - 1].0));
            before.lemma_with_assertion(pairs.last().0, pairs.last().1);
            assert(self.with_assertions(pairs).assertions =~= before.with_assertion(
                pairs.last().0,
                pairs.last().1,
            ).assertions);
            assert(self.with_assertions(pairs) =~= before.with_assertion(
                pairs.last().0,
                pairs.last().1,
            ));
        }
    }
}

} // verus!

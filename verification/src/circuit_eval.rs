use vstd::prelude::*;
use crate::builder::Derivation;
use crate::circuit::Circuit;
use crate::circuit::GateModel;
use crate::circuit::ascending;
use crate::circuit::is_gate_kind;
use crate::circuit::rank;

verus! {

impl<V> Circuit<V> {
    /// Whether the first `upto` of `gates` hold.
    pub open spec fn list_holds(self, gates: Seq<GateModel<V>>, upto: int) -> bool {
        forall|j: int| 0 <= j < upto && j < gates.len() ==> self.gate_holds(#[trigger] gates[j])
    }

    /// Whether every gate holds that is evaluated before gate number `upto` of
    /// kind `kind` at `level`: levels in ascending order, and within a level
    /// additions, then multiplications, then hints.
    pub open spec fn done(self, level: int, kind: Derivation, upto: int) -> bool {
        &&& forall|k: int| 0 <= k < level && k < self.levels.len() ==> #[trigger] self.level_holds(k)
        &&& 0 <= level < self.levels.len() ==> {
            &&& forall|kd: Derivation, j: int|
                is_gate_kind(kd) && rank(kd) < rank(kind) && 0 <= j < self.levels[level].list(
                    kd,
                ).len() ==> self.gate_holds(#[trigger] self.levels[level].list(kd)[j])
            &&& self.list_holds(self.levels[level].list(kind), upto)
        }
    }

    /// Whether the nodes up to depth `level` hold in `other` what they hold in
    /// `self`.
    pub open spec fn lower_kept(self, other: Self, level: int) -> bool {
        forall|i: int|
            0 <= i < self.nodes.len() && self.nodes[i].depth <= level ==> (
            #[trigger] other.nodes[i]).value == self.nodes[i].value
    }

    /// Whether no gate reads an unassigned input.
    pub open spec fn supplied(self) -> bool {
        forall|k: int, kind: Derivation, j: int, t: int|
            0 <= k < self.levels.len() && is_gate_kind(kind) && 0 <= j < self.levels[k].list(
                kind,
            ).len() && 0 <= t < self.levels[k].list(kind)[j].inputs.len() ==> !self.unassigned(
                #[trigger] self.levels[k].list(kind)[j].inputs[t],
            )
    }

    /// An operand of a gate kept at `level` is no deeper than `level` and was
    /// created before the output.
    pub proof fn lemma_operand(self, level: int, kind: Derivation, j: int, t: int)
        requires
            self.wf(),
            0 <= level < self.levels.len(),
            is_gate_kind(kind),
            0 <= j < self.levels[level].list(kind).len(),
            0 <= t < self.levels[level].list(kind)[j].inputs.len(),
        ensures
            self.levels[level].list(kind)[j].inputs[t] < self.levels[level].list(kind)[j].output,
            self.levels[level].list(kind)[j].output < self.nodes.len(),
            self.nodes[self.levels[level].list(kind)[j].inputs[t] as int].depth <= level,
            self.nodes[self.levels[level].list(kind)[j].output as int].depth == level + 1,
            self.nodes[self.levels[level].list(kind)[j].output as int].derivation == kind,
    {
        let gate = self.levels[level].list(kind)[j];
        assert(self.level_ok(level));
        assert(self.gate_ok(gate, level, kind));
        assert(self.node_ok(gate.output as int));
        self.lemma_max_depth(gate.inputs);
    }

    /// Two gates of which the second is evaluated no later than the first, and
    /// is another gate, have nothing to do with the first one's output.
    pub proof fn lemma_apart(
        self,
        level: int,
        kind: Derivation,
        j: int,
        level2: int,
        kind2: Derivation,
        j2: int,
    )
        requires
            self.wf(),
            0 <= level2 <= level < self.levels.len(),
            is_gate_kind(kind),
            is_gate_kind(kind2),
            0 <= j < self.levels[level].list(kind).len(),
            0 <= j2 < self.levels[level2].list(kind2).len(),
            level2 != level || kind2 != kind || j2 != j,
        ensures
            self.levels[level2].list(kind2)[j2].output != self.levels[level].list(kind)[j].output,
            forall|t: int|
                0 <= t < self.levels[level2].list(kind2)[j2].inputs.len() ==> (
                #[trigger] self.levels[level2].list(kind2)[j2].inputs[t])
                    != self.levels[level].list(kind)[j].output,
    {
        let g = self.levels[level].list(kind)[j];
        let g2 = self.levels[level2].list(kind2)[j2];
        assert(self.level_ok(level));
        assert(self.level_ok(level2));
        assert(self.gate_ok(g, level, kind));
        assert(self.gate_ok(g2, level2, kind2));
        if level2 == level && kind2 == kind {
            assert(ascending(self.levels[level].list(kind)));
        }
        assert forall|t: int| 0 <= t < g2.inputs.len() implies (#[trigger] g2.inputs[t])
            != g.output by {
            self.lemma_operand(level2, kind2, j2, t);
        }
    }

    /// A gate that has nothing to do with a node holds as before when that
    /// node gets a value.
    pub proof fn lemma_frame(self, gate: GateModel<V>, id: usize, value: V)
        requires
            self.contains(id),
            self.contains(gate.output),
            self.contains_all(gate.inputs),
            gate.output != id,
            forall|t: int| 0 <= t < gate.inputs.len() ==> (#[trigger] gate.inputs[t]) != id,
        ensures
            self.with_value(id, value).filled(gate.inputs) == self.filled(gate.inputs),
            self.with_value(id, value).values_of(gate.inputs) == self.values_of(gate.inputs),
            self.with_value(id, value).gate_holds(gate) == self.gate_holds(gate),
    {
        let d = self.with_value(id, value);
        assert forall|t: int| 0 <= t < gate.inputs.len() implies d.nodes[#[trigger] gate.inputs[t] as int]
            == self.nodes[gate.inputs[t] as int] by {
            assert(self.contains(gate.inputs[t]));
        }
        assert(d.values_of(gate.inputs) =~= self.values_of(gate.inputs));
        assert(d.filled(gate.inputs) == self.filled(gate.inputs)) by {
            if self.filled(gate.inputs) {
                assert forall|t: int| 0 <= t < gate.inputs.len() implies d.nodes[#[trigger] gate.inputs[t] as int].value is Some by {}
            }
            if d.filled(gate.inputs) {
                assert forall|t: int| 0 <= t < gate.inputs.len() implies self.nodes[#[trigger] gate.inputs[t] as int].value is Some by {
                    assert(d.nodes[gate.inputs[t] as int].value is Some);
                }
            }
        }
    }

    /// Evaluating the next gate in order keeps what was evaluated
    /// before it, and leaves alone inputs, constants and every node up to the
    /// gate's level.
    pub proof fn lemma_write(self, level: int, kind: Derivation, j: int, value: V)
        requires
            self.wf(),
            0 <= level < self.levels.len(),
            is_gate_kind(kind),
            0 <= j < self.levels[level].list(kind).len(),
            self.done(level, kind, j),
            self.filled(self.levels[level].list(kind)[j].inputs),
            (self.levels[level].list(kind)[j].relation)(
                self.values_of(self.levels[level].list(kind)[j].inputs),
                value,
            ),
        ensures
            self.with_value(self.levels[level].list(kind)[j].output, value).wf(),
            self.with_value(self.levels[level].list(kind)[j].output, value).done(
                level,
                kind,
                j + 1,
            ),
            self.sources_kept(self.with_value(self.levels[level].list(kind)[j].output, value)),
            self.lower_kept(
                self.with_value(self.levels[level].list(kind)[j].output, value),
                level,
            ),
    {
        let gate = self.levels[level].list(kind)[j];
        let d = self.with_value(gate.output, value);
        assert(self.level_ok(level));
        assert(self.gate_ok(gate, level, kind));
        self.lemma_with_value(gate.output, value);
        // this gate holds now
        assert(d.gate_holds(gate)) by {
            assert forall|t: int| 0 <= t < gate.inputs.len() implies (#[trigger] gate.inputs[t])
                != gate.output && self.contains(gate.inputs[t]) by {
                self.lemma_operand(level, kind, j, t);
            }
            assert(d.values_of(gate.inputs) =~= self.values_of(gate.inputs));
            assert forall|t: int| 0 <= t < gate.inputs.len() implies d.nodes[#[trigger] gate.inputs[t] as int].value is Some by {
                assert(self.nodes[gate.inputs[t] as int].value is Some);
            }
        }
        // and so does every gate that held before
        assert forall|k: int, kd: Derivation, i: int|
            0 <= k <= level && is_gate_kind(kd) && 0 <= i < self.levels[k].list(kd).len() && (k
                != level || kd != kind || i != j) && self.gate_holds(
                #[trigger] self.levels[k].list(kd)[i],
            ) implies d.gate_holds(self.levels[k].list(kd)[i]) by {
            let other = self.levels[k].list(kd)[i];
            self.lemma_apart(level, kind, j, k, kd, i);
            assert(self.level_ok(k));
            assert(self.gate_ok(other, k, kd));
            assert forall|t: int| 0 <= t < other.inputs.len() implies self.contains(
                #[trigger] other.inputs[t],
            ) by {
                self.lemma_operand(k, kd, i, t);
            }
            self.lemma_frame(other, gate.output, value);
        }
        assert forall|k: int| 0 <= k < level && k < d.levels.len() implies #[trigger] d.level_holds(
            k,
        ) by {
            assert(self.level_holds(k));
        }
        assert(d.list_holds(d.levels[level].list(kind), j + 1)) by {
            assert forall|i: int|
                0 <= i < j + 1 && i < d.levels[level].list(kind).len() implies d.gate_holds(
                #[trigger] d.levels[level].list(kind)[i],
            ) by {
                if i < j {
                    assert(self.gate_holds(self.levels[level].list(kind)[i]));
                }
            }
        }
        assert forall|i: int|
            0 <= i < self.nodes.len() && self.nodes[i].depth <= level implies (
            #[trigger] d.nodes[i]).value == self.nodes[i].value by {}
    }

    /// Writing values keeps the number of nodes.
    pub proof fn lemma_with_values_len(self, writes: Seq<(usize, V)>)
        requires
            forall|j: int| 0 <= j < writes.len() ==> self.contains((#[trigger] writes[j]).0),
        ensures
            self.with_values(writes).nodes.len() == self.nodes.len(),
            self.with_values(writes).levels == self.levels,
            self.with_values(writes).assertions == self.assertions,
        decreases writes.len(),
    {
        if writes.len() > 0 {
            assert forall|j: int| 0 <= j < writes.drop_last().len() implies self.contains(
                (#[trigger] writes.drop_last()[j]).0,
            ) by {
                assert(writes.drop_last()[j] == writes[j]);
            }
            self.lemma_with_values_len(writes.drop_last());
            assert(self.contains(writes[writes.len() - 1].0));
        }
    }

    /// Evaluating all gates of one kind at one level, in order, from values
    /// that fit their operands as these stood before.
    pub proof fn lemma_store(self, level: int, kind: Derivation, writes: Seq<(usize, V)>)
        requires
            self.wf(),
            0 <= level < self.levels.len(),
            is_gate_kind(kind),
            self.done(level, kind, 0),
            writes.len() <= self.levels[level].list(kind).len(),
            forall|j: int|
                0 <= j < writes.len() ==> {
                    &&& (#[trigger] writes[j]).0 == self.levels[level].list(kind)[j].output
                    &&& self.filled(self.levels[level].list(kind)[j].inputs)
                    &&& (self.levels[level].list(kind)[j].relation)(
                        self.values_of(self.levels[level].list(kind)[j].inputs),
                        writes[j].1,
                    )
                },
        ensures
            self.with_values(writes).wf(),
            self.with_values(writes).done(level, kind, writes.len() as int),
            self.sources_kept(self.with_values(writes)),
            self.lower_kept(self.with_values(writes), level),
        decreases writes.len(),
    {
        if writes.len() == 0 {
            assert(self.with_values(writes) == self);
        } else {
            let j = writes.len() - 1;
            let before = writes.drop_last();
            assert forall|i: int| 0 <= i < before.len() implies {
                &&& (#[trigger] before[i]).0 == self.levels[level].list(kind)[i].output
                &&& self.filled(self.levels[level].list(kind)[i].inputs)
                &&& (self.levels[level].list(kind)[i].relation)(
                    self.values_of(self.levels[level].list(kind)[i].inputs),
                    before[i].1,
                )
            } by {
                assert(before[i] == writes[i]);
            }
            self.lemma_store(level, kind, before);
            let mid = self.with_values(before);
            let gate = self.levels[level].list(kind)[j];
            assert(writes[j].0 == gate.output);
            // the operands stand in `mid` as they stood in `self`
            assert forall|t: int| 0 <= t < gate.inputs.len() implies mid.nodes[#[trigger] gate.inputs[t] as int].value
                == self.nodes[gate.inputs[t] as int].value by {
                self.lemma_operand(level, kind, j, t);
            }
            assert(mid.values_of(gate.inputs) =~= self.values_of(gate.inputs));
            assert(mid.filled(gate.inputs)) by {
                assert forall|t: int| 0 <= t < gate.inputs.len() implies mid.nodes[#[trigger] gate.inputs[t] as int].value is Some by {
                    assert(self.nodes[gate.inputs[t] as int].value is Some);
                }
            }
            mid.lemma_write(level, kind, j, writes[j].1);
            let d = mid.with_value(gate.output, writes[j].1);
            assert(self.with_values(writes) == d);
            assert(self.sources_kept(d)) by {
                assert forall|i: int|
                    0 <= i < self.nodes.len() implies {
                    &&& (#[trigger] d.nodes[i]).depth == self.nodes[i].depth
                    &&& d.nodes[i].parents == self.nodes[i].parents
                    &&& d.nodes[i].derivation == self.nodes[i].derivation
                    &&& !is_gate_kind(self.nodes[i].derivation) ==> d.nodes[i].value
                        == self.nodes[i].value
                } by {
                    assert(mid.nodes[i].depth == self.nodes[i].depth);
                }
            }
            assert(self.lower_kept(d, level)) by {
                assert forall|i: int|
                    0 <= i < self.nodes.len() && self.nodes[i].depth <= level implies (
                #[trigger] d.nodes[i]).value == self.nodes[i].value by {
                    assert(mid.nodes[i].value == self.nodes[i].value);
                    assert(mid.nodes[i].depth == self.nodes[i].depth);
                }
            }
        }
    }

    /// Where the gates of one kind are done, the next kind can begin; where
    /// the hints are done, the next level can.
    pub proof fn lemma_done_next(self, level: int, kind: Derivation)
        requires
            0 <= level < self.levels.len(),
            is_gate_kind(kind),
            self.done(level, kind, self.levels[level].list(kind).len() as int),
        ensures
            kind == Derivation::Add ==> self.done(level, Derivation::Mul, 0),
            kind == Derivation::Mul ==> self.done(level, Derivation::Hint, 0),
            kind == Derivation::Hint ==> self.done(level + 1, Derivation::Add, 0),
            kind == Derivation::Hint ==> self.level_holds(level),
    {
        let gates = self.levels[level].list(kind);
        assert forall|j: int| 0 <= j < gates.len() implies self.gate_holds(#[trigger] gates[j]) by {}
        if kind == Derivation::Hint {
            assert forall|k: int|
                0 <= k < level + 1 && k < self.levels.len() implies #[trigger] self.level_holds(
                k,
            ) by {
                if k == level {
                    assert forall|kd: Derivation, j: int|
                        is_gate_kind(kd) && 0 <= j < self.levels[level].list(
                            kd,
                        ).len() implies self.gate_holds(
                        #[trigger] self.levels[level].list(kd)[j],
                    ) by {
                        if kd == Derivation::Hint {
                            assert(self.gate_holds(gates[j]));
                        }
                    }
                }
            }
        } else if kind == Derivation::Add {
            assert forall|kd: Derivation, j: int|
                is_gate_kind(kd) && rank(kd) < rank(Derivation::Mul) && 0 <= j
                    < self.levels[level].list(kd).len() implies self.gate_holds(
                #[trigger] self.levels[level].list(kd)[j],
            ) by {
                assert(kd == Derivation::Add);
                assert(self.gate_holds(gates[j]));
            }
        } else {
            assert forall|kd: Derivation, j: int|
                is_gate_kind(kd) && rank(kd) < rank(Derivation::Hint) && 0 <= j
                    < self.levels[level].list(kd).len() implies self.gate_holds(
                #[trigger] self.levels[level].list(kd)[j],
            ) by {
                if kd == Derivation::Mul {
                    assert(self.gate_holds(gates[j]));
                }
            }
        }
    }

    /// What `missing_among` finds is an unassigned input among `ids`, and it
    /// finds one where there is one.
    pub proof fn lemma_missing_among(self, ids: Seq<usize>, from: int)
        requires
            0 <= from,
        ensures
            match self.missing_among(ids, from) {
                Some(id) => self.unassigned(id) && exists|t: int|
                    from <= t < ids.len() && ids[t] == id,
                None => forall|t: int| from <= t < ids.len() ==> !self.unassigned(#[trigger] ids[t]),
            },
        decreases ids.len() - from,
    {
        if from < ids.len() {
            if self.unassigned(ids[from]) {
                assert(ids[from] == ids[from]);
            } else {
                self.lemma_missing_among(ids, from + 1);
                match self.missing_among(ids, from + 1) {
                    Some(id) => {
                        let t = choose|t: int| from + 1 <= t < ids.len() && ids[t] == id;
                        assert(from <= t < ids.len() && ids[t] == id);
                    },
                    None => {
                        assert forall|t: int| from <= t < ids.len() implies !self.unassigned(
                            #[trigger] ids[t],
                        ) by {
                            if t > from {
                                assert(from + 1 <= t);
                            }
                        }
                    },
                }
            }
        }
    }

    /// What `missing_in` finds is an unassigned input that one of `gates`
    /// reads, and it finds one where there is one.
    pub proof fn lemma_missing_in(self, gates: Seq<GateModel<V>>, from: int)
        requires
            0 <= from,
        ensures
            match self.missing_in(gates, from) {
                Some(id) => self.unassigned(id) && exists|j: int, t: int|
                    from <= j < gates.len() && 0 <= t < gates[j].inputs.len()
                        && gates[j].inputs[t] == id,
                None => forall|j: int, t: int|
                    from <= j < gates.len() && 0 <= t < gates[j].inputs.len() ==> !self.unassigned(
                        #[trigger] gates[j].inputs[t],
                    ),
            },
        decreases gates.len() - from,
    {
        if from < gates.len() {
            self.lemma_missing_among(gates[from].inputs, 0);
            match self.missing_among(gates[from].inputs, 0) {
                Some(id) => {
                    let t = choose|t: int| 0 <= t < gates[from].inputs.len() && gates[from].inputs[t] == id;
                    assert(from <= from < gates.len() && 0 <= t < gates[from].inputs.len()
                        && gates[from].inputs[t] == id);
                },
                None => {
                    self.lemma_missing_in(gates, from + 1);
                    match self.missing_in(gates, from + 1) {
                        Some(id) => {
                            let (j, t) = choose|j: int, t: int|
                                from + 1 <= j < gates.len() && 0 <= t < gates[j].inputs.len()
                                    && gates[j].inputs[t] == id;
                            assert(from <= j < gates.len() && 0 <= t < gates[j].inputs.len()
                                && gates[j].inputs[t] == id);
                        },
                        None => {
                            assert forall|j: int, t: int|
                                from <= j < gates.len() && 0 <= t
                                    < gates[j].inputs.len() implies !self.unassigned(
                                #[trigger] gates[j].inputs[t],
                            ) by {
                                if j > from {
                                    assert(from + 1 <= j);
                                }
                            }
                        },
                    }
                },
            }
        }
    }

    /// What `missing_from` finds is an unassigned input that a gate reads, and
    /// it finds one where a gate at `level` or above reads one.
    pub proof fn lemma_missing_from(self, level: int)
        requires
            0 <= level,
        ensures
            match self.missing_from(level) {
                Some(id) => self.unassigned(id) && exists|k: int, kind: Derivation, j: int, t: int|
                    level <= k < self.levels.len() && is_gate_kind(kind) && 0 <= j
                        < self.levels[k].list(kind).len() && 0 <= t < self.levels[k].list(
                        kind,
                    )[j].inputs.len() && self.levels[k].list(kind)[j].inputs[t] == id,
                None => forall|k: int, kind: Derivation, j: int, t: int|
                    level <= k < self.levels.len() && is_gate_kind(kind) && 0 <= j
                        < self.levels[k].list(kind).len() && 0 <= t < self.levels[k].list(
                        kind,
                    )[j].inputs.len() ==> !self.unassigned(
                        #[trigger] self.levels[k].list(kind)[j].inputs[t],
                    ),
            },
        decreases self.levels.len() - level,
    {
        if level < self.levels.len() {
            let here = self.levels[level];
            self.lemma_missing_in(here.adds, 0);
            self.lemma_missing_in(here.muls, 0);
            self.lemma_missing_in(here.hints, 0);
            assert(here.list(Derivation::Add) == here.adds);
            assert(here.list(Derivation::Mul) == here.muls);
            assert(here.list(Derivation::Hint) == here.hints);
            match self.missing_at(level) {
                Some(id) => {
                    let kind = if self.missing_in(here.adds, 0) is Some {
                        Derivation::Add
                    } else if self.missing_in(here.muls, 0) is Some {
                        Derivation::Mul
                    } else {
                        Derivation::Hint
                    };
                    let gates = here.list(kind);
                    assert(self.missing_in(gates, 0) == Some(id));
                    let (j, t) = choose|j: int, t: int|
                        0 <= j < gates.len() && 0 <= t < gates[j].inputs.len() && gates[j].inputs[t]
                            == id;
                    assert(level <= level < self.levels.len() && is_gate_kind(kind) && 0 <= j
                        < self.levels[level].list(kind).len() && 0 <= t < self.levels[level].list(
                        kind,
                    )[j].inputs.len() && self.levels[level].list(kind)[j].inputs[t] == id);
                },
                None => {
                    self.lemma_missing_from(level + 1);
                    match self.missing_from(level + 1) {
                        Some(id) => {
                            let (k, kind, j, t) = choose|k: int, kind: Derivation, j: int, t: int|
                                level + 1 <= k < self.levels.len() && is_gate_kind(kind) && 0 <= j
                                    < self.levels[k].list(kind).len() && 0 <= t
                                    < self.levels[k].list(kind)[j].inputs.len()
                                    && self.levels[k].list(kind)[j].inputs[t] == id;
                            assert(level <= k < self.levels.len() && is_gate_kind(kind) && 0 <= j
                                < self.levels[k].list(kind).len() && 0 <= t < self.levels[k].list(
                                kind,
                            )[j].inputs.len() && self.levels[k].list(kind)[j].inputs[t] == id);
                        },
                        None => {
                            assert forall|k: int, kind: Derivation, j: int, t: int|
                                level <= k < self.levels.len() && is_gate_kind(kind) && 0 <= j
                                    < self.levels[k].list(kind).len() && 0 <= t
                                    < self.levels[k].list(kind)[j].inputs.len() implies !self.unassigned(
                                #[trigger] self.levels[k].list(kind)[j].inputs[t],
                            ) by {
                                if k > level {
                                    assert(level + 1 <= k);
                                }
                            }
                        },
                    }
                },
            }
        }
    }

    /// An evaluation finds every input that it reads assigned exactly where
    /// `first_missing` finds none.
    pub proof fn lemma_first_missing(self)
        ensures
            self.first_missing() is None <==> self.supplied(),
            self.first_missing() is Some ==> self.unassigned(self.first_missing().unwrap()),
    {
        self.lemma_missing_from(0);
        match self.first_missing() {
            Some(id) => {
                let (k, kind, j, t) = choose|k: int, kind: Derivation, j: int, t: int|
                    0 <= k < self.levels.len() && is_gate_kind(kind) && 0 <= j
                        < self.levels[k].list(kind).len() && 0 <= t < self.levels[k].list(
                        kind,
                    )[j].inputs.len() && self.levels[k].list(kind)[j].inputs[t] == id;
                assert(self.unassigned(self.levels[k].list(kind)[j].inputs[t]));
            },
            None => {},
        }
    }

    /// Where inputs keep their values, no gate reads an unassigned input that
    /// did not before.
    pub proof fn lemma_supplied_kept(self, other: Self)
        requires
            self.wf(),
            self.sources_kept(other),
            self.supplied(),
        ensures
            other.supplied(),
    {
        assert forall|k: int, kind: Derivation, j: int, t: int|
            0 <= k < other.levels.len() && is_gate_kind(kind) && 0 <= j < other.levels[k].list(
                kind,
            ).len() && 0 <= t < other.levels[k].list(kind)[j].inputs.len() implies !other.unassigned(
            #[trigger] other.levels[k].list(kind)[j].inputs[t],
        ) by {
            let p = self.levels[k].list(kind)[j].inputs[t];
            self.lemma_operand(k, kind, j, t);
            assert(!self.unassigned(p));
            assert(other.nodes[p as int].derivation == self.nodes[p as int].derivation);
        }
    }

    /// Keeping inputs and constants carries over from one step to the next.
    pub proof fn lemma_sources_kept_trans(self, mid: Self, last: Self)
        requires
            self.sources_kept(mid),
            mid.sources_kept(last),
        ensures
            self.sources_kept(last),
    {
        assert forall|i: int| 0 <= i < self.nodes.len() implies {
            &&& (#[trigger] last.nodes[i]).depth == self.nodes[i].depth
            &&& last.nodes[i].parents == self.nodes[i].parents
            &&& last.nodes[i].derivation == self.nodes[i].derivation
            &&& !is_gate_kind(self.nodes[i].derivation) ==> last.nodes[i].value
                == self.nodes[i].value
        } by {
            assert(mid.nodes[i].depth == self.nodes[i].depth);
        }
    }

    /// Once the levels below `level` are evaluated, and no gate reads an
    /// unassigned input, every operand of a gate kept at `level` holds a
    /// value.
    pub proof fn lemma_ready(self, level: int, kind: Derivation, j: int)
        requires
            self.wf(),
            self.supplied(),
            0 <= level < self.levels.len(),
            forall|k: int| 0 <= k < level ==> #[trigger] self.level_holds(k),
            is_gate_kind(kind),
            0 <= j < self.levels[level].list(kind).len(),
        ensures
            self.filled(self.levels[level].list(kind)[j].inputs),
            self.contains_all(self.levels[level].list(kind)[j].inputs),
            self.contains(self.levels[level].list(kind)[j].output),
    {
        let gate = self.levels[level].list(kind)[j];
        assert forall|t: int| 0 <= t < gate.inputs.len() implies self.nodes[#[trigger] gate.inputs[t] as int].value is Some
            && self.contains(gate.inputs[t]) by {
            let p = gate.inputs[t];
            self.lemma_operand(level, kind, j, t);
            assert(self.node_ok(p as int));
            assert(!self.unassigned(self.levels[level].list(kind)[j].inputs[t]));
            if is_gate_kind(self.nodes[p as int].derivation) {
                assert(self.has_gate(p as int));
                let below = self.nodes[p as int].depth - 1;
                let i = choose|i: int|
                    0 <= i < self.levels[below].list(self.nodes[p as int].derivation).len() && (
                    #[trigger] self.levels[below].list(self.nodes[p as int].derivation)[i]).output
                        == p;
                assert(self.level_holds(below));
                assert(self.gate_holds(
                    self.levels[below].list(self.nodes[p as int].derivation)[i],
                ));
            }
        }
        assert(self.level_ok(level));
        assert(self.gate_ok(gate, level, kind));
    }
}

} // verus!

use vstd::prelude::*;
use crate::builder::Derivation;
use crate::circuit::Circuit;
use crate::circuit::is_function;
use crate::circuit::is_gate_kind;

verus! {

impl<V> Circuit<V> {
    /// Law: the output of a gate lies one level above the deepest of its
    /// operands, which is the level that it is kept at; and each operand
    /// is an input, a constant or the output of a gate that is kept at a lower
    /// level, so that evaluating the levels in ascending order reads no node
    /// before its own gate has been evaluated.
    pub proof fn law_depth(self, level: int, kind: Derivation, j: int)
        requires
            self.wf(),
            0 <= level < self.levels.len(),
            is_gate_kind(kind),
            0 <= j < self.levels[level].list(kind).len(),
        ensures
            self.nodes[self.levels[level].list(kind)[j].output as int].depth == 1 + self.max_depth(
                self.levels[level].list(kind)[j].inputs,
            ),
            self.max_depth(self.levels[level].list(kind)[j].inputs) == level,
            forall|t: int|
                0 <= t < self.levels[level].list(kind)[j].inputs.len() ==> {
                    let p = #[trigger] self.levels[level].list(kind)[j].inputs[t];
                    &&& self.contains(p)
                    &&& self.nodes[p as int].depth <= level
                    &&& is_gate_kind(self.nodes[p as int].derivation) ==> self.has_gate(p as int)
                        && self.nodes[p as int].depth - 1 < level
                },
    {
        let gate = self.levels[level].list(kind)[j];
        assert(self.level_ok(level));
        assert(self.gate_ok(gate, level, kind));
        assert(self.node_ok(gate.output as int));
        assert forall|t: int| 0 <= t < gate.inputs.len() implies {
            let p = #[trigger] gate.inputs[t];
            &&& self.contains(p)
            &&& self.nodes[p as int].depth <= level
            &&& is_gate_kind(self.nodes[p as int].derivation) ==> self.has_gate(p as int)
                && self.nodes[p as int].depth - 1 < level
        } by {
            self.lemma_operand(level, kind, j, t);
        }
    }

    /// Two witnesses of one circuit agree on the nodes before `upto` where
    /// they agree on inputs and constants and every gate is a function.
    pub(crate) proof fn lemma_values_agree(self, other: Self, upto: int)
        requires
            self.wf(),
            self.sources_kept(other),
            self.evaluated(),
            other.evaluated(),
            self.functional(),
            0 <= upto <= self.nodes.len(),
        ensures
            forall|i: int| 0 <= i < upto ==> (#[trigger] self.nodes[i]).value == other.nodes[i].value,
        decreases upto,
    {
        if upto > 0 {
            self.lemma_values_agree(other, upto - 1);
            let i = upto - 1;
            let n = self.nodes[i];
            if is_gate_kind(n.derivation) {
                assert(self.has_gate(i));
                let level = n.depth - 1;
                let j = choose|j: int|
                    0 <= j < self.levels[level].list(n.derivation).len() && (
                    #[trigger] self.levels[level].list(n.derivation)[j]).output == i;
                let gate = self.levels[level].list(n.derivation)[j];
                assert(self.level_holds(level));
                assert(other.level_holds(level));
                assert(self.gate_holds(gate));
                assert(other.gate_holds(other.levels[level].list(n.derivation)[j]));
                assert forall|t: int| 0 <= t < gate.inputs.len() implies self.nodes[#[trigger] gate.inputs[t] as int].value
                    == other.nodes[gate.inputs[t] as int].value by {
                    self.lemma_operand(level, n.derivation, j, t);
                }
                assert(self.values_of(gate.inputs) =~= other.values_of(gate.inputs));
                assert(is_function(gate.relation));
            }
        }
    }

    /// Law: a circuit has one witness. Two assignments of values that agree
    /// on the inputs and constants, and in which every gate holds, agree on
    /// every node, provided that every gate is a function of its operands.
    pub proof fn law_one_witness(self, other: Self)
        requires
            self.wf(),
            self.sources_kept(other),
            self.evaluated(),
            other.evaluated(),
            self.functional(),
        ensures
            self == other,
    {
        self.lemma_values_agree(other, self.nodes.len() as int);
        assert forall|i: int| 0 <= i < self.nodes.len() implies self.nodes[i] == other.nodes[i] by {
            assert(self.nodes[i].value == other.nodes[i].value);
            assert(self.nodes[i] =~= other.nodes[i]);
        }
        assert(self.nodes =~= other.nodes);
        assert(self =~= other);
    }

    /// Law: evaluation is deterministic. Two evaluations that start from one
    /// circuit, with the same values in its inputs and constants, end in the
    /// same circuit, whatever the order in which the gates of a level were
    /// worked out, provided that every gate is a function of its operands.
    pub proof fn law_evaluation_deterministic(self, first: Self, second: Self)
        requires
            self.wf(),
            self.functional(),
            self.sources_kept(first),
            first.evaluated(),
            self.sources_kept(second),
            second.evaluated(),
        ensures
            first == second,
    {
        assert forall|i: int| 0 <= i < first.nodes.len() implies {
            &&& (#[trigger] second.nodes[i]).depth == first.nodes[i].depth
            &&& second.nodes[i].parents == first.nodes[i].parents
            &&& second.nodes[i].derivation == first.nodes[i].derivation
            &&& !is_gate_kind(first.nodes[i].derivation) ==> second.nodes[i].value
                == first.nodes[i].value
        } by {
            assert(first.nodes[i].depth == self.nodes[i].depth);
        }
        self.lemma_kept_wf(first);
        first.law_one_witness(second);
    }
}

} // verus!

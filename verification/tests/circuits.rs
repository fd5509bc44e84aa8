use circuit_builder::builder::{Builder, Derivation, Lambda};
use circuit_builder::builder_single_thread::BuilderSingleThread;
use circuit_builder::error::{ConstructionError, EvalError, InvalidAssignment};
use circuit_builder::field::{Field, FieldError, GaloisField};
use circuit_builder::graph_builder::GraphBuilder;
use circuit_builder::node::NodeHandle;

pub type Fp = GaloisField<65537>;
pub type Hint = fn(Vec<Fp>) -> Fp;

fn divide(params: Vec<Fp>) -> Fp {
    params[0] / params[1]
}

fn divide_wrongly(params: Vec<Fp>) -> Fp {
    params[0] / params[1] + Fp::from(1)
}

#[test]
fn polynomial_over_the_field() {
    let mut builder = GraphBuilder::<Fp, Hint>::new();
    let x = builder.init();
    let x_squared = builder.mul(x, x);
    let five = builder.constant(Fp::from(5));
    let sum = builder.add(x_squared, five);
    let y = builder.add(sum, x);

    assert_eq!(builder.set(&x, Fp::from(5)), Ok(()));
    assert_eq!(builder.fill_nodes(), Ok(()));

    assert_eq!(builder.get(y).read(), Fp::from(35));
    assert_eq!(builder.get(x_squared).read().value, 25);
    assert_eq!(builder.get(sum).read().value, 30);
}

#[test]
fn polynomial_reduces_modulo_the_prime() {
    let mut builder = GraphBuilder::<Fp, Hint>::new();
    let x = builder.init();
    let x_squared = builder.mul(x, x);
    let five = builder.constant(Fp::from(5));
    let sum = builder.add(x_squared, five);
    let y = builder.add(sum, x);

    builder.set(&x, Fp::from(65536)).unwrap();
    builder.fill_nodes().unwrap();

    // 65536 is -1: 1 + 5 - 1
    assert_eq!(builder.get(x_squared).read().value, 1);
    assert_eq!(builder.get(y).read().value, 5);
}

#[test]
fn division_hint_with_its_assertion() {
    let mut builder = GraphBuilder::<Fp, Hint>::new();
    let a = builder.init();
    let b = builder.init();
    let c = builder.mul(a, b);
    let d = builder.hint(&[c, b], divide).unwrap();
    let pair = builder.assert_equal(d, a);
    assert_eq!(pair.left_id, d.id);
    assert_eq!(pair.right_id, a.id);

    builder.set(&a, Fp::from(234)).unwrap();
    builder.set(&b, Fp::from(123)).unwrap();
    builder.fill_nodes().unwrap();

    assert!(builder.check_constraints());
    assert_eq!(builder.get(d).read().value, 234);
    assert_eq!(builder.get(c).read().value, 28782);
}

#[test]
fn failing_assertion_is_found() {
    let mut builder = GraphBuilder::<Fp, Hint>::new();
    let a = builder.init();
    let one = builder.constant(Fp::from(1));
    let eight = builder.constant(Fp::from(8));
    let b = builder.add(a, one);
    let c = builder.init();
    let c8 = builder.mul(c, eight);

    builder.set(&a, Fp::from(13)).unwrap();
    builder.set(&c, Fp::from(2)).unwrap();
    builder.assert_equal(c8, b);
    builder.fill_nodes().unwrap();

    assert!(!builder.check_constraints());
    assert_eq!(builder.get(b).read().value, 14);
    assert_eq!(builder.get(c8).read().value, 16);

    let violation = builder.first_violation().unwrap();
    assert_eq!(violation.index, 0);
    assert_eq!(violation.left.id, c8.id);
    assert_eq!(violation.left.value, Some(Fp::from(16)));
    assert_eq!(violation.left.depth, 1);
    assert_eq!(violation.left.derivation, Derivation::Mul);
    assert_eq!(
        violation.left.parents,
        vec![(c.id, Some(Fp::from(2))), (eight.id, Some(Fp::from(8)))]
    );
    assert_eq!(violation.right.id, b.id);
    assert_eq!(violation.right.value, Some(Fp::from(14)));
    assert_eq!(violation.right.derivation, Derivation::Add);
    assert_eq!(
        violation.right.parents,
        vec![(a.id, Some(Fp::from(13))), (one.id, Some(Fp::from(1)))]
    );
}

#[test]
fn first_of_several_failing_assertions_is_reported() {
    let mut builder = Builder::<Lambda>::new();
    let a = builder.constant(1);
    let b = builder.constant(2);
    let c = builder.constant(1);
    builder.assert_equal(a, c);
    builder.assert_equal(a, b);
    builder.assert_equal(b, c);
    assert!(!builder.check_constraints());
    let violation = builder.first_violation().unwrap();
    assert_eq!(violation.index, 1);
    assert_eq!(violation.left.id, a.id);
    assert_eq!(violation.left.derivation, Derivation::Const);
    assert!(violation.left.parents.is_empty());
    assert_eq!(violation.right.id, b.id);
    assert_eq!(violation.right.value, Some(2));
}

#[test]
fn no_assertions_are_satisfied() {
    let builder = Builder::<Lambda>::new();
    assert!(builder.check_constraints());
    assert!(builder.first_violation().is_none());
}

#[test]
fn batched_and_single_construction_agree() {
    let count: usize = 1 << 20;

    let mut batched = GraphBuilder::<Fp, Hint>::new();
    let inputs = batched.batch_init(count);
    let twos = batched.batch_constant(&vec![Fp::from(2); count]);

    let mut single = GraphBuilder::<Fp, Hint>::new();
    let mut single_inputs = Vec::with_capacity(count);
    for _ in 0..count {
        single_inputs.push(single.init());
    }
    let mut single_twos = Vec::with_capacity(count);
    for _ in 0..count {
        single_twos.push(single.constant(Fp::from(2)));
    }
    assert_eq!(inputs, single_inputs);
    assert_eq!(twos, single_twos);

    let mut outputs = Vec::new();
    let mut single_outputs = Vec::new();
    for i in 0..count / 4 {
        let sum = batched.add(inputs[2 * i], inputs[2 * i + 1]);
        let doubled = batched.mul(twos[i], sum);
        outputs.push(batched.mul(doubled, inputs[i]));

        let sum = single.add(single_inputs[2 * i], single_inputs[2 * i + 1]);
        let doubled = single.mul(single_twos[i], sum);
        single_outputs.push(single.mul(doubled, single_inputs[i]));
    }
    assert_eq!(outputs, single_outputs);

    let values: Vec<Fp> = (0..count as u64).map(Fp::from).collect();
    assert_eq!(batched.batch_set(&inputs, &values), Ok(vec![]));
    for i in 0..count {
        single.set(&single_inputs[i], values[i]).unwrap();
    }
    batched.fill_nodes().unwrap();
    single.fill_nodes().unwrap();

    assert_eq!(batched.len(), single.len());
    for i in 0..count / 4 {
        let expected = Fp::from(2) * (values[2 * i] + values[2 * i + 1]) * values[i];
        assert_eq!(batched.get(outputs[i]).read(), expected);
        assert_eq!(single.get(single_outputs[i]).read(), expected);
    }
}

#[test]
fn wrong_hint_passes_evaluation_unnoticed() {
    let mut builder = GraphBuilder::<Fp, Hint>::new();
    let a = builder.init();
    let b = builder.init();
    let c = builder.mul(a, b);
    let d = builder.hint(&[c, b], divide_wrongly).unwrap();

    builder.set(&a, Fp::from(234)).unwrap();
    builder.set(&b, Fp::from(123)).unwrap();
    assert_eq!(builder.fill_nodes(), Ok(()));

    // nothing ties the hint to the rest of the circuit
    assert_eq!(builder.get(d).read().value, 235);
    assert!(builder.check_constraints());
}

#[test]
fn wrong_hint_fails_its_assertion() {
    let mut builder = GraphBuilder::<Fp, Hint>::new();
    let a = builder.init();
    let b = builder.init();
    let c = builder.mul(a, b);
    let d = builder.hint(&[c, b], divide_wrongly).unwrap();
    // d is to be c / b: d * b == c
    let back = builder.mul(d, b);
    builder.assert_equal(back, c);

    builder.set(&a, Fp::from(234)).unwrap();
    builder.set(&b, Fp::from(123)).unwrap();
    assert_eq!(builder.fill_nodes(), Ok(()));
    assert!(!builder.check_constraints());

    let mut sound = GraphBuilder::<Fp, Hint>::new();
    let a = sound.init();
    let b = sound.init();
    let c = sound.mul(a, b);
    let d = sound.hint(&[c, b], divide).unwrap();
    let back = sound.mul(d, b);
    sound.assert_equal(back, c);
    sound.set(&a, Fp::from(234)).unwrap();
    sound.set(&b, Fp::from(123)).unwrap();
    assert_eq!(sound.fill_nodes(), Ok(()));
    assert!(sound.check_constraints());
}

#[test]
fn depth_is_one_more_than_the_deepest_parent() {
    let mut builder = Builder::<Lambda>::new();
    let x = builder.init();
    let k = builder.constant(3);
    let s = builder.add(x, k);
    let p = builder.mul(s, x);
    let q = builder.add(p, p);
    let h = builder.hint(&[x, q, s], |v: Vec<u32>| v[0]).unwrap();
    let r = builder.mul(h, k);

    assert_eq!(builder.get(x).depth, 0);
    assert_eq!(builder.get(k).depth, 0);
    assert_eq!(builder.get(s).depth, 1);
    assert_eq!(builder.get(p).depth, 2);
    assert_eq!(builder.get(q).depth, 3);
    assert_eq!(builder.get(h).depth, 4);
    assert_eq!(builder.get(r).depth, 5);

    for node in [s, p, q, h, r] {
        let raw = builder.get(node);
        let deepest = raw
            .parents
            .iter()
            .map(|&id| builder.get(NodeHandle { id }).depth)
            .max()
            .unwrap();
        assert_eq!(raw.depth, 1 + deepest);
        assert!(raw.parents.iter().all(|&id| id < raw.id));
    }
    assert_eq!(builder.get(h).parents, vec![x.id, q.id, s.id]);
    assert_eq!(builder.get(h).derivation, Derivation::Hint);
    assert_eq!(builder.get(x).derivation, Derivation::Input);
    assert_eq!(builder.get(k).derivation, Derivation::Const);
}

#[test]
fn evaluation_is_repeatable() {
    fn build() -> (Builder<Lambda>, NodeHandle, Vec<NodeHandle>) {
        let mut builder = Builder::<Lambda>::new();
        let x = builder.init();
        let mut nodes = vec![x];
        for i in 0..200u32 {
            let k = builder.constant(i);
            let last = *nodes.last().unwrap();
            let s = builder.add(last, k);
            let p = builder.mul(s, x);
            let h = builder.hint(&[p, s], |v: Vec<u32>| v[0] ^ v[1]).unwrap();
            nodes.push(s);
            nodes.push(p);
            nodes.push(h);
        }
        (builder, x, nodes)
    }
    let (mut first, x, nodes) = build();
    let (mut second, y, _) = build();
    first.set(x, 77).unwrap();
    second.set(y, 77).unwrap();
    first.fill_nodes().unwrap();
    second.fill_nodes().unwrap();
    let values: Vec<u32> = nodes.iter().map(|&n| first.get(n).read()).collect();
    for (i, &n) in nodes.iter().enumerate() {
        assert_eq!(second.get(n).read(), values[i]);
    }
    first.fill_nodes().unwrap();
    for (i, &n) in nodes.iter().enumerate() {
        assert_eq!(first.get(n).read(), values[i]);
    }
    // another assignment, and back
    first.set(x, 78).unwrap();
    first.fill_nodes().unwrap();
    assert_ne!(first.get(nodes[1]).read(), values[1]);
    first.set(x, 77).unwrap();
    first.fill_nodes().unwrap();
    for (i, &n) in nodes.iter().enumerate() {
        assert_eq!(first.get(n).read(), values[i]);
    }
}

#[test]
fn word_arithmetic_wraps_around() {
    let mut builder = Builder::<Lambda>::new();
    let x = builder.init();
    let y = builder.init();
    let sum = builder.add(x, y);
    let product = builder.mul(x, y);
    builder.set(x, u32::MAX).unwrap();
    builder.set(y, 2).unwrap();
    builder.fill_nodes().unwrap();
    assert_eq!(builder.get(sum).read(), 1);
    assert_eq!(builder.get(product).read(), u32::MAX - 1);
    builder.set(x, 0x1_0000).unwrap();
    builder.set(y, 0x1_0001).unwrap();
    builder.fill_nodes().unwrap();
    assert_eq!(builder.get(sum).read(), 0x2_0001);
    assert_eq!(builder.get(product).read(), 0x1_0000);
}

#[test]
fn assignment_to_other_than_inputs_is_refused() {
    let mut builder = Builder::<Lambda>::new();
    let x = builder.init();
    let k = builder.constant(10);
    let s = builder.add(x, k);
    let h = builder.hint(&[s], |v: Vec<u32>| v[0]).unwrap();

    assert_eq!(builder.set(k, 2), Err(InvalidAssignment { id: k.id }));
    assert_eq!(builder.get(k).read(), 10);
    assert_eq!(builder.set(s, 2), Err(InvalidAssignment { id: s.id }));
    assert_eq!(builder.get(s).value, None);
    assert_eq!(builder.set(h, 2), Err(InvalidAssignment { id: h.id }));
    assert_eq!(builder.get(h).value, None);
    assert_eq!(builder.set(x, 3), Ok(()));
    assert_eq!(builder.get(x).read(), 3);
    assert_eq!(builder.set(x, 4), Ok(()));
    assert_eq!(builder.get(x).read(), 4);

    let mut graph = GraphBuilder::<Fp, Hint>::new();
    let x = graph.init();
    let k = graph.constant(Fp::from(10));
    let p = graph.mul(x, k);
    assert_eq!(graph.set(&k, Fp::from(2)), Err(InvalidAssignment { id: k.id }));
    assert_eq!(graph.set(&p, Fp::from(2)), Err(InvalidAssignment { id: p.id }));
    assert_eq!(graph.get(k).read().value, 10);
    assert_eq!(graph.get(p).value, None);
}

#[test]
fn batch_assignment_reports_what_it_leaves() {
    let mut builder = Builder::<Lambda>::new();
    let x = builder.init();
    let k = builder.constant(10);
    let y = builder.init();
    let s = builder.add(x, y);

    let refused = builder.batch_set(&[x, k, y, s, x], &[1, 2, 3, 4, 5]).unwrap();
    assert_eq!(refused, vec![InvalidAssignment { id: k.id }, InvalidAssignment { id: s.id }]);
    // the last assignment to a node stands
    assert_eq!(builder.get(x).read(), 5);
    assert_eq!(builder.get(y).read(), 3);
    assert_eq!(builder.get(k).read(), 10);
    assert_eq!(builder.get(s).value, None);

    assert_eq!(builder.batch_set(&[], &[]), Ok(vec![]));
}

#[test]
fn batch_calls_refuse_different_lengths() {
    let mut builder = Builder::<Lambda>::new();
    let x = builder.init();
    let y = builder.init();
    assert_eq!(
        builder.batch_set(&[x, y], &[1]),
        Err(ConstructionError::LengthMismatch { left: 2, right: 1 })
    );
    assert_eq!(builder.get(x).value, None);
    assert_eq!(
        builder.batch_assert_equal(&[x], &[x, y]),
        Err(ConstructionError::LengthMismatch { left: 1, right: 2 })
    );
    assert!(builder.first_violation().is_none());

    let mut graph = GraphBuilder::<Fp, Hint>::new();
    let x = graph.init();
    let y = graph.init();
    assert_eq!(
        graph.batch_set(&[x], &[Fp::from(1), Fp::from(2)]),
        Err(ConstructionError::LengthMismatch { left: 1, right: 2 })
    );
    assert_eq!(
        graph.batch_assert_equal(&[x, y], &[]),
        Err(ConstructionError::LengthMismatch { left: 2, right: 0 })
    );
}

#[test]
fn batch_assertions_pair_by_place() {
    let mut graph = GraphBuilder::<Fp, Hint>::new();
    let nodes = graph.batch_constant(&[Fp::from(1), Fp::from(2), Fp::from(1), Fp::from(3)]);
    assert_eq!(nodes.len(), 4);
    for (i, node) in nodes.iter().enumerate() {
        assert_eq!(node.id, i);
    }
    assert_eq!(graph.get(nodes[1]).read().value, 2);
    assert_eq!(graph.get(nodes[3]).read().value, 3);
    assert_eq!(graph.get(nodes[3]).derivation, Derivation::Const);

    let pairs = graph.batch_assert_equal(&[nodes[0], nodes[1]], &[nodes[2], nodes[3]]).unwrap();
    assert_eq!(pairs.len(), 2);
    assert_eq!((pairs[0].left_id, pairs[0].right_id), (nodes[0].id, nodes[2].id));
    assert_eq!((pairs[1].left_id, pairs[1].right_id), (nodes[1].id, nodes[3].id));
    let violation = graph.first_violation().unwrap();
    assert_eq!(violation.index, 1);
    assert_eq!(violation.left.id, nodes[1].id);
    assert_eq!(violation.right.id, nodes[3].id);
}

#[test]
fn batch_inputs_follow_the_nodes_before_them() {
    let mut builder = Builder::<Lambda>::new();
    let k = builder.constant(9);
    let inputs = builder.batch_init(5);
    assert_eq!(inputs.len(), 5);
    for (i, node) in inputs.iter().enumerate() {
        assert_eq!(node.id, k.id + 1 + i);
        assert_eq!(builder.get(*node).id, node.id);
        assert_eq!(builder.get(*node).value, None);
        assert_eq!(builder.get(*node).depth, 0);
        assert_eq!(builder.get(*node).derivation, Derivation::Input);
    }
    let constants = builder.batch_constant(&[4, 5, 6]);
    for (i, node) in constants.iter().enumerate() {
        assert_eq!(node.id, 6 + i);
        assert_eq!(builder.get(*node).read(), 4 + i as u32);
    }
    assert_eq!(builder.len(), 9);
    assert!(builder.batch_init(0).is_empty());
    assert_eq!(builder.len(), 9);
    assert!(builder.contains(constants[2]));
    assert!(!builder.contains(NodeHandle { id: 9 }));
}

#[test]
fn hint_without_arguments_is_refused() {
    let mut builder = Builder::<Lambda>::new();
    let x = builder.init();
    fn constant(_: Vec<u32>) -> u32 {
        1
    }
    assert_eq!(builder.hint(&[], constant), Err(ConstructionError::NoArguments));
    assert_eq!(builder.len(), 1);
    assert_eq!(builder.hint(&[x], constant), Ok(NodeHandle { id: 1 }));

    let mut graph = GraphBuilder::<Fp, Hint>::new();
    assert_eq!(graph.hint(&[], divide), Err(ConstructionError::NoArguments));
    assert_eq!(graph.len(), 0);
}

#[test]
fn hint_takes_its_arguments_in_order() {
    let mut builder = Builder::<Lambda>::new();
    let a = builder.constant(100);
    let b = builder.constant(7);
    let c = builder.constant(3);
    fn combine(v: Vec<u32>) -> u32 {
        assert_eq!(v.len(), 3);
        v[0] - v[1] * v[2]
    }
    let h = builder.hint(&[a, b, c], combine).unwrap();
    let g = builder.hint(&[a, c, c], combine).unwrap();
    builder.fill_nodes().unwrap();
    assert_eq!(builder.get(h).read(), 79);
    assert_eq!(builder.get(g).read(), 91);
}

#[test]
fn unassigned_input_stops_the_evaluation() {
    let mut builder = Builder::<Lambda>::new();
    let x = builder.init();
    let y = builder.init();
    let unused = builder.init();
    let k = builder.constant(2);
    let first = builder.mul(k, k);
    let second = builder.add(first, y);
    let third = builder.add(x, k);
    assert!(unused.id < k.id);

    // at the lowest level additions come before multiplications
    assert_eq!(builder.first_unfilled(), Some(x.id));
    assert_eq!(builder.fill_nodes(), Err(EvalError::UnfilledInput { id: x.id, depth: 0 }));
    // nothing was evaluated
    assert_eq!(builder.get(first).value, None);

    builder.set(x, 1).unwrap();
    assert_eq!(builder.first_unfilled(), Some(y.id));
    assert_eq!(builder.fill_nodes(), Err(EvalError::UnfilledInput { id: y.id, depth: 0 }));
    assert_eq!(builder.get(first).value, None);
    assert_eq!(builder.get(third).value, None);

    builder.set(y, 5).unwrap();
    // an input that no gate reads may stay without a value
    assert_eq!(builder.first_unfilled(), None);
    assert_eq!(builder.fill_nodes(), Ok(()));
    assert_eq!(builder.get(first).read(), 4);
    assert_eq!(builder.get(second).read(), 9);
    assert_eq!(builder.get(third).read(), 3);
    assert_eq!(builder.get(unused).value, None);
}

#[test]
fn unassigned_operand_order_within_a_gate() {
    let mut builder = GraphBuilder::<Fp, Hint>::new();
    let x = builder.init();
    let y = builder.init();
    let z = builder.init();
    let _ = builder.hint(&[z, y, x], divide).unwrap();
    let _ = builder.mul(y, x);
    // multiplications come before hints, and the left operand first
    assert_eq!(builder.fill_nodes(), Err(EvalError::UnfilledInput { id: y.id, depth: 0 }));
    builder.set(&y, Fp::from(1)).unwrap();
    assert_eq!(builder.fill_nodes(), Err(EvalError::UnfilledInput { id: x.id, depth: 0 }));
    builder.set(&x, Fp::from(1)).unwrap();
    assert_eq!(builder.fill_nodes(), Err(EvalError::UnfilledInput { id: z.id, depth: 0 }));
}

#[test]
fn single_thread_assigns_inputs_in_order_of_creation() {
    let mut builder = BuilderSingleThread::<Fp>::new();
    let a = builder.init();
    let k = builder.constant(Fp::from(3));
    let b = builder.init();
    let s = builder.add(&a, &k);
    let p = builder.mul(&s, &b);
    let pair = builder.assert_equal(&p, &s);
    assert_eq!((pair.left_node, pair.right_node), (p.id, s.id));

    assert_eq!(
        builder.fill_nodes(vec![Fp::from(1), Fp::from(2), Fp::from(3)]),
        Err(EvalError::ExcessValues { inputs: 2, values: 3 })
    );
    assert_eq!(builder.get(&a).value, None);

    // the first input alone: the second is read and missing
    assert_eq!(
        builder.fill_nodes(vec![Fp::from(4)]),
        Err(EvalError::UnfilledInput { id: b.id, depth: 0 })
    );
    assert_eq!(builder.get(&a).read().value, 4);
    assert_eq!(builder.get(&s).value, None);

    assert_eq!(builder.fill_nodes(vec![Fp::from(5), Fp::from(1)]), Ok(()));
    assert_eq!(builder.get(&s).read().value, 8);
    assert_eq!(builder.get(&p).read().value, 8);
    assert!(builder.check_constraints());

    // inputs beyond the values given keep what they hold
    assert_eq!(builder.fill_nodes(vec![Fp::from(6)]), Ok(()));
    assert_eq!(builder.get(&s).read().value, 9);
    assert_eq!(builder.get(&p).read().value, 9);

    assert_eq!(builder.fill_nodes(vec![Fp::from(6), Fp::from(2)]), Ok(()));
    assert_eq!(builder.get(&p).read().value, 18);
    assert!(!builder.check_constraints());
    let violation = builder.first_violation().unwrap();
    assert_eq!(violation.index, 0);
    assert_eq!(violation.left.value, Some(Fp::from(18)));
    assert_eq!(violation.right.value, Some(Fp::from(9)));
    assert_eq!(violation.left.parents, vec![(s.id, Some(Fp::from(9))), (b.id, Some(Fp::from(2)))]);

    assert!(builder.contains(&p));
    assert!(!builder.contains(&NodeHandle { id: 5 }));
    assert_eq!(builder.first_unfilled(), None);
}

#[test]
fn single_thread_default_is_empty() {
    let mut builder = BuilderSingleThread::<Fp>::default();
    assert_eq!(builder.fill_nodes(vec![]), Ok(()));
    assert!(builder.check_constraints());
    assert_eq!(builder.init(), NodeHandle { id: 0 });
}

#[test]
fn hint_may_check_a_division_itself() {
    fn checked(params: Vec<Fp>) -> Fp {
        match params[0].checked_div(params[1]) {
            Ok(quotient) => quotient,
            Err(FieldError::DivisionByZero) => Fp::from(0),
        }
    }
    let mut builder = GraphBuilder::<Fp, Hint>::new();
    let a = builder.init();
    let b = builder.init();
    let q = builder.hint(&[a, b], checked).unwrap();
    builder.batch_set(&[a, b], &[Fp::from(6), Fp::from(0)]).unwrap();
    assert_eq!(builder.fill_nodes(), Ok(()));
    assert_eq!(builder.get(q).read().value, 0);
    builder.batch_set(&[a, b], &[Fp::from(6), Fp::from(3)]).unwrap();
    assert_eq!(builder.fill_nodes(), Ok(()));
    assert_eq!(builder.get(q).read().value, 2);
}

#[test]
fn evaluation_does_not_depend_on_the_number_of_workers() {
    fn mix(v: Vec<Fp>) -> Fp {
        v[0] * v[1] + v[2]
    }
    fn evaluate(workers: usize) -> Vec<u64> {
        let mut builder = GraphBuilder::<Fp, Hint>::new();
        let inputs = builder.batch_init(64);
        let mut layer = inputs.clone();
        let mut all = Vec::new();
        while layer.len() >= 3 {
            let mut next = Vec::new();
            for chunk in layer.chunks(3) {
                if chunk.len() == 3 {
                    let sum = builder.add(chunk[0], chunk[1]);
                    let product = builder.mul(sum, chunk[2]);
                    let hinted = builder.hint(&[chunk[0], product, sum], mix).unwrap();
                    next.push(product);
                    next.push(hinted);
                    all.push(sum);
                    all.push(product);
                    all.push(hinted);
                }
            }
            layer = next;
        }
        let values: Vec<Fp> = (0..64u64).map(|i| Fp::from(i * i + 7)).collect();
        builder.batch_set(&inputs, &values).unwrap();
        let pool = rayon::ThreadPoolBuilder::new().num_threads(workers).build().unwrap();
        pool.install(|| builder.fill_nodes()).unwrap();
        all.iter().map(|&node| builder.get(node).read().value).collect()
    }
    let one = evaluate(1);
    assert!(one.len() > 60);
    assert_eq!(evaluate(2), one);
    assert_eq!(evaluate(7), one);
}

#[test]
fn stored_node_can_be_emptied_and_filled() {
    let mut builder = GraphBuilder::<Fp, Hint>::new();
    let k = builder.constant(Fp::from(4));
    let mut copy = circuit_builder::graph_builder::Node {
        value: builder.get(k).value,
        depth: builder.get(k).depth,
        id: builder.get(k).id,
        parents: vec![],
        derivation: builder.get(k).derivation,
    };
    assert_eq!(copy.read().value, 4);
    copy.set(None);
    assert_eq!(copy.value, None);
    copy.set(Some(Fp::from(9)));
    assert_eq!(copy.read().value, 9);
    assert_eq!(copy.id, k.id);
    // the builder's own node is as it was
    assert_eq!(builder.get(k).read().value, 4);
}

#[test]
fn assertions_can_be_checked_only_where_values_are() {
    let mut builder = Builder::<Lambda>::new();
    let x = builder.init();
    let k = builder.constant(3);
    let s = builder.add(x, k);
    assert!(builder.is_checkable());
    builder.assert_equal(k, k);
    assert!(builder.is_checkable());
    builder.assert_equal(s, k);
    assert!(!builder.is_checkable());
    builder.set(x, 0).unwrap();
    assert!(!builder.is_checkable());
    builder.fill_nodes().unwrap();
    assert!(builder.is_checkable());
    assert!(builder.check_constraints());
}

#[test]
fn default_builders_are_empty() {
    let mut builder = Builder::<Lambda>::default();
    assert_eq!(builder.len(), 0);
    assert_eq!(builder.fill_nodes(), Ok(()));
    assert_eq!(builder.init().id, 0);
    let mut graph = GraphBuilder::<Fp, Hint>::default();
    assert_eq!(graph.len(), 0);
    assert_eq!(graph.constant(Fp::from(3)).id, 0);
    assert!(graph.check_constraints());
}

use circuit_builder::builder_single_thread::BuilderSingleThread;
use circuit_builder::field::GaloisField;
use circuit_builder::graph_builder::{GraphBuilder, Lambda};
use std::time::Instant;

pub type Fp = GaloisField<65537>;

// The graph builder keeps all nodes in a vector, and its gates hold indexes
// into the vector. Inputs are assigned one by one or in batches.
#[test]
fn test_large_input_graphbuilder() {
    let n: usize = 23;

    let num_inputs = 2_usize.pow(n as u32);

    let start_time = Instant::now();
    let mut builder = GraphBuilder::<Fp, Lambda<Fp>>::new();

    let time_to_batch_init = Instant::now();
    let inputs = builder.batch_init(num_inputs);
    println!("Time to batch init: {:?}", Instant::now() - time_to_batch_init);

    let time_to_batch_const = Instant::now();
    let constants = builder.batch_constant(&vec![Fp::from(2); num_inputs]);
    println!("Time to batch const: {:?}", Instant::now() - time_to_batch_const);

    // to catch the intermediate additions and multplications.
    let mut intermediates = Vec::with_capacity(num_inputs / 2);

    for i in 0..num_inputs / 4 {
        intermediates.push(builder.add(inputs[2 * i], inputs[2 * i + 1]));
    }

    for i in 0..num_inputs / 4 {
        intermediates.push(builder.mul(inputs[0], inputs[i]));
    }

    for i in 0..num_inputs / 8 {
        builder.add(intermediates[2 * i], intermediates[2 * i + 1]);
    }
    for i in num_inputs / 8..num_inputs / 4 {
        builder.mul(intermediates[2 * i], intermediates[2 * i + 1]);
    }

    for i in 0..num_inputs {
        builder.mul(constants[i], inputs[i]);
    }

    builder.batch_assert_equal(&inputs, &inputs).unwrap();
    builder.batch_set(&inputs, &vec![Fp::from(100); num_inputs]).unwrap();

    let time_to_fill_nodes = Instant::now();
    builder.fill_nodes().unwrap();
    println!("Time to fill nodes: {:?}", Instant::now() - time_to_fill_nodes);

    let check_constraints = builder.check_constraints();
    let end_time = Instant::now();

    println!("Elapsed time: {:?}", end_time - start_time);
    println!("Constraints Passed? {:?}", check_constraints);
}

// The same circuit, with its inputs assigned in one batch.
#[test]
fn benchmarks_test_large_input_builder() {
    let n: usize = 23;

    let num_inputs = 2_i32.pow(n as u32);

    let start_time = Instant::now();
    let mut builder = GraphBuilder::<Fp, Lambda<Fp>>::new();

    let time_to_batch_init = Instant::now();
    let inputs = builder.batch_init(num_inputs as usize);
    println!("Time to batch init: {:?}", Instant::now() - time_to_batch_init);

    let time_to_batch_const = Instant::now();
    let constants = builder.batch_constant(&vec![Fp::from(2); num_inputs as usize]);
    println!("Time to batch const: {:?}", Instant::now() - time_to_batch_const);

    // to catch the intermediate additions and multplications.
    let mut intermediates = Vec::with_capacity((num_inputs / 2) as usize);

    for i in 0..num_inputs / 4 {
        intermediates.push(builder.add(inputs[(2 * i) as usize], inputs[(2 * i + 1) as usize]));
    }

    for i in 0..num_inputs / 4 {
        intermediates.push(builder.mul(inputs[0], inputs[i as usize]));
    }

    for i in 0..num_inputs / 8 {
        builder.add(intermediates[(2 * i) as usize], intermediates[(2 * i + 1) as usize]);
    }
    for i in num_inputs / 8..num_inputs / 4 {
        builder.mul(intermediates[(2 * i) as usize], intermediates[(2 * i + 1) as usize]);
    }

    for i in 0..num_inputs {
        builder.mul(constants[i as usize], inputs[i as usize]);
    }

    builder.batch_assert_equal(&inputs, &inputs).unwrap();

    let time_to_fill_nodes = Instant::now();
    builder.batch_set(&inputs, &vec![Fp::from(100); num_inputs as usize]).unwrap();
    builder.fill_nodes().unwrap();
    println!("Time to fill nodes: {:?}", Instant::now() - time_to_fill_nodes);

    let check_constraints = builder.check_constraints();
    let end_time = Instant::now();

    println!("Elapsed time: {:?}", end_time - start_time);
    println!("Constraints Passed? {:?}", check_constraints);
}

// The single threaded builder on the same circuit.
#[test]
fn test_large_input_buildersinglethread() {
    let n: usize = 23;

    let num_inputs = 2_i32.pow(n as u32);

    let mut inputs = Vec::with_capacity(num_inputs as usize);

    let mut constants = Vec::with_capacity(num_inputs as usize);

    // 1 million inputs
    let start_time = Instant::now();

    let mut builder = BuilderSingleThread::<Fp>::new();

    let time_to_batch_init = Instant::now();
    for _i in 0..num_inputs {
        inputs.push(builder.init());
    }
    println!("Time to batch init: {:?}", Instant::now() - time_to_batch_init);

    let time_to_batch_const = Instant::now();
    for _i in 0..num_inputs {
        constants.push(builder.constant(Fp::from(2)));
    }
    println!("Time to batch const: {:?}", Instant::now() - time_to_batch_const);

    // to catch the intermediate additions and multplications.
    let mut intermediates = Vec::with_capacity((num_inputs / 2) as usize);

    for i in 0..num_inputs / 4 {
        intermediates.push(builder.add(&inputs[(2 * i) as usize], &inputs[(2 * i + 1) as usize]));
    }

    for i in 0..num_inputs / 4 {
        intermediates.push(builder.mul(&inputs[0], &inputs[i as usize]));
    }

    for i in 0..num_inputs / 8 {
        builder.add(&intermediates[(2 * i) as usize], &intermediates[(2 * i + 1) as usize]);
    }
    for i in num_inputs / 8..num_inputs / 4 {
        builder.mul(&intermediates[(2 * i) as usize], &intermediates[(2 * i + 1) as usize]);
    }

    for i in 0..num_inputs {
        builder.mul(&constants[i as usize], &inputs[i as usize]);
    }

    for i in 0..num_inputs {
        builder.assert_equal(&inputs[i as usize], &inputs[i as usize]);
    }

    let time_to_fill_nodes = Instant::now();
    builder.fill_nodes(vec![Fp::from(100); num_inputs as usize]).unwrap();
    println!("Time to fill nodes: {:?}", Instant::now() - time_to_fill_nodes);

    let check_constraints = builder.check_constraints();
    let end_time = Instant::now();
    println!("Elapsed time: {:?}", end_time - start_time);
    println!("Constraints Passed? {:?}", check_constraints);
}

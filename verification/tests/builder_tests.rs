use circuit_builder::builder_single_thread::BuilderSingleThread;
use circuit_builder::field::GaloisField;
use circuit_builder::graph_builder::{GraphBuilder, Lambda};

pub type Fp = GaloisField<65537>;

// test that f(x) = x^2 + x + 5 is constructed and evaluated correctly
#[test]
fn builder_tests_test_basic_function() {
    let mut builder = BuilderSingleThread::<Fp>::new();

    let x = builder.init();
    let x_squared = builder.mul(&x, &x);
    let five = builder.constant(Fp::from(5));
    let x_squared_plus_5 = builder.add(&x_squared, &five);
    let y = builder.add(&x_squared_plus_5, &x);

    builder.fill_nodes(vec![Fp::from(5)]).unwrap();

    assert_eq!(builder.get(&x).read().value, 5);
    assert_eq!(builder.get(&x_squared).read().value, 25);
    assert_eq!(builder.get(&five).read().value, 5);
    assert_eq!(builder.get(&x_squared_plus_5).read().value, 30);
    assert_eq!(builder.get(&y).read().value, 35);
}

// test that one node can be read by several gates
#[test]
fn builder_tests_test_multiple_access() {
    let mut builder = BuilderSingleThread::<Fp>::new();

    let x = builder.init();
    let y = builder.init();
    let z = builder.init();
    let w = builder.init();

    let x2 = builder.mul(&x, &x);
    let xy = builder.mul(&x, &y);
    let xz = builder.mul(&x, &z);
    let xw = builder.mul(&x, &w);

    builder.fill_nodes(vec![Fp::from(5), Fp::from(5), Fp::from(45), Fp::from(6)]).unwrap();
    assert_eq!(builder.get(&x).read().value, 5);
    assert_eq!(builder.get(&y).read().value, 5);
    assert_eq!(builder.get(&z).read().value, 45);
    assert_eq!(builder.get(&w).read().value, 6);

    assert_eq!(builder.get(&x2).read().value, 25);
    assert_eq!(builder.get(&xy).read().value, 25);
    assert_eq!(builder.get(&xz).read().value, 225);
    assert_eq!(builder.get(&xw).read().value, 30);
}

// test the check_constraints() function
#[test]
fn builder_tests_test_constraints() {
    let mut builder = BuilderSingleThread::<Fp>::new();
    let a = builder.init();
    let one = builder.constant(Fp::from(1));
    let eight = builder.constant(Fp::from(8));

    let b = builder.add(&a, &one);

    let c = builder.init();
    let c_times_8 = builder.mul(&c, &eight);

    builder.fill_nodes(vec![Fp::from(13), Fp::from(2)]).unwrap();
    builder.assert_equal(&c_times_8, &b);

    let constraint_check = builder.check_constraints();

    println!("{:?}", constraint_check);
    println!("{:?}", builder.get(&c_times_8));
    println!("{:?}", builder.get(&b));
}

// equivalent to the lambda x -> x/8 but written as a "vector-function".
fn lambda_div8(val: Vec<Fp>) -> Fp {
    assert_eq!(val.len(), 1);
    val[0] / Fp::from(8)
}

// test that a hint can stand for a division
#[test]
fn builder_tests_test_hints() {
    let mut builder = GraphBuilder::<Fp, Lambda<Fp>>::new();
    let a = builder.init();
    let one = builder.constant(Fp::from(1));
    let eight = builder.constant(Fp::from(8));

    let b = builder.add(a, one);

    let c = builder.hint(&[b], lambda_div8).unwrap();
    let c_times_8 = builder.mul(c, eight);

    builder.set(&a, Fp::from(13)).unwrap();
    builder.fill_nodes().unwrap();
    builder.assert_equal(c_times_8, b);

    let constraint_check = builder.check_constraints();

    println!("{:?}", constraint_check);
    println!("{:?}", builder.get(c_times_8));
    println!("{:?}", builder.get(b));
}

// the function (a,b) -> a/b
fn lambda_div(params: Vec<Fp>) -> Fp {
    params[0] / params[1]
}

#[test]
fn builder_tests_test_lambda_gates() {
    let mut builder = GraphBuilder::<Fp, Lambda<Fp>>::new();

    let a = builder.init();
    let b = builder.init();

    let c = builder.mul(a, b);

    let d = builder.hint(&[c, b], lambda_div).unwrap();

    builder.assert_equal(d, a);
    builder.set(&a, Fp::from(234)).unwrap();
    builder.set(&b, Fp::from(123)).unwrap();
    builder.fill_nodes().unwrap();
    let passed_constraints = builder.check_constraints();

    assert!(passed_constraints);
    assert_eq!(builder.get(a).read().value, 234);
    assert_eq!(builder.get(b).read().value, 123);
    assert_eq!(builder.get(c).read().value, 28782);
    assert_eq!(builder.get(d).read().value, 234);
}

use circuit_builder::field::{extended_euclidean, reciprocal, Field, FieldError, GaloisField};

pub type Fp = GaloisField<65537>;

#[test]
fn euclid_small_pair_exact() {
    assert_eq!(extended_euclidean(5, 13), [1, -5, 2]);
    assert_eq!(extended_euclidean(0, 7), [7, 0, 1]);
    assert_eq!(extended_euclidean(4, 12), [4, 1, 0]);
    assert_eq!(extended_euclidean(0, 0), [0, 0, 1]);
}

#[test]
fn euclid_combination_is_common_divisor() {
    let pairs: [(i128, i128); 6] =
        [(3255, 218), (218, 3255), (12, 18), (65537, 4), (1, 1), (270, 192)];
    for (a, b) in pairs {
        let [g, x, y] = extended_euclidean(a, b);
        assert_eq!(a * x + b * y, g);
        assert!(g > 0);
        assert_eq!(a % g, 0);
        assert_eq!(b % g, 0);
    }
    assert_eq!(extended_euclidean(3255, 218)[0], 1);
    assert_eq!(extended_euclidean(12, 18)[0], 6);
    assert_eq!(extended_euclidean(270, 192)[0], 6);
}

#[test]
fn euclid_signed_arguments() {
    assert_eq!(extended_euclidean(-3, 5), [-1, 2, 1]);
    assert_eq!(extended_euclidean(3, -5), [1, 2, 1]);
    let pairs: [(i128, i128); 4] = [(-3, 5), (3, -5), (-12, -18), (-7, 0)];
    for (a, b) in pairs {
        let [g, x, y] = extended_euclidean(a, b);
        assert_eq!(a * x + b * y, g);
        assert_ne!(g, 0);
        assert_eq!(a % g, 0);
        assert_eq!(b % g, 0);
    }
}

#[test]
fn euclid_extreme_arguments() {
    let [g, x, y] = extended_euclidean(i128::MAX, i128::MIN);
    assert_eq!(g.abs(), 1);
    assert_eq!(i128::MAX.wrapping_mul(x).wrapping_add(i128::MIN.wrapping_mul(y)), g);
    let [g, _, _] = extended_euclidean(i128::MIN, i128::MIN);
    assert_eq!(g, i128::MIN);
    assert_eq!(extended_euclidean(1, i128::MIN), [1, 1, 0]);
    assert_eq!(extended_euclidean(i128::MIN, 1)[0].abs(), 1);
}

#[test]
fn reciprocal_exact_values() {
    assert_eq!(reciprocal(5, 29), 6);
    assert_eq!(reciprocal(1, 2), 1);
    assert_eq!(reciprocal(2, 65537), 32769);
    assert_eq!(reciprocal(34, 29), 6);
}

#[test]
fn reciprocal_inverts_modulo_a_prime() {
    let p: u64 = 65537;
    for a in [1u64, 2, 3, 8, 123, 234, 4096, 65535, 65536] {
        let r = reciprocal(a, p);
        assert!(r < p);
        assert_eq!((a * r) % p, 1);
    }
    let big: u64 = 18446744073709551557;
    for a in [1u64, 2, 1 << 40, big - 1] {
        let r = reciprocal(a, big);
        assert!(r < big);
        assert_eq!(((a as u128 * r as u128) % big as u128) as u64, 1);
    }
}

#[test]
fn reciprocal_modulo_a_composite_leaves_the_divisor() {
    // 2 and 4 share the divisor 2
    assert_eq!(reciprocal(2, 4), 1);
    assert_eq!((2 * reciprocal(2, 4)) % 4, 2);
    // 3 has no divisor in common with 4
    assert_eq!((3 * reciprocal(3, 4)) % 4, 1);
    assert_eq!((4 * reciprocal(4, 6)) % 6, 2);
}

#[test]
fn field_operations_exact_values() {
    let x = GaloisField::<13>::from(54);
    let y = GaloisField::<13>::from(12);
    assert_eq!(x.value, 2);
    assert_eq!(y.value, 12);
    assert_eq!((x + y).value, 1);
    assert_eq!((x - y).value, 3);
    assert_eq!((y - x).value, 10);
    assert_eq!((x * y).value, 11);
    assert_eq!(((x * y) / x).value, 12);
    assert_eq!(((x * y) / y).value, 2);
    assert_eq!((x / y).value, 11);
}

#[test]
fn field_operations_reduce_unreduced_values() {
    let a = GaloisField::<13> { value: 27 };
    let b = GaloisField::<13> { value: 14 };
    assert_eq!((a + b).value, 2);
    assert_eq!((a - b).value, 0);
    assert_eq!((a * b).value, 1);
    assert_eq!((a / b).value, 1);
    assert!(a != GaloisField::<13>::from(27));
}

#[test]
fn field_operations_near_the_word_size() {
    type Big = GaloisField<18446744073709551557>;
    let top = Big::from(18446744073709551556);
    assert_eq!((top + top).value, 18446744073709551555);
    assert_eq!((top * top).value, 1);
    assert_eq!((Big::from(0) - top).value, 1);
    assert_eq!((top / top).value, 1);
    let unreduced = Big { value: u64::MAX };
    assert_eq!((unreduced + unreduced).value, 116);
    assert_eq!((unreduced * unreduced).value, 58 * 58);
}

#[test]
fn division_undoes_multiplication() {
    for a in [0u64, 1, 2, 5, 234, 65535, 65536] {
        for b in [1u64, 2, 8, 123, 65536] {
            let a = Fp::from(a);
            let b = Fp::from(b);
            assert_eq!((a * b) / b, a);
            assert_eq!((a * b).checked_div(b), Ok(a));
        }
    }
}

#[test]
fn division_modulo_a_composite_may_not_undo_multiplication() {
    type Six = GaloisField<6>;
    let a = Six::from(1);
    let b = Six::from(2);
    assert_eq!(((a * b) / b).value, 2);
    let c = Six::from(5);
    assert_eq!((a * c) / c, a);
}

#[test]
fn division_by_zero_is_reported() {
    for a in [0u64, 1, 5, 65536] {
        assert_eq!(Fp::from(a).checked_div(Fp::from(0)), Err(FieldError::DivisionByZero));
        assert_eq!(Fp::from(a).checked_div(Fp::from(65537)), Err(FieldError::DivisionByZero));
        assert_eq!(
            Fp::from(a).checked_div(GaloisField { value: 2 * 65537 }),
            Err(FieldError::DivisionByZero)
        );
    }
    assert_eq!(Fp::from(6).checked_div(Fp::from(3)), Ok(Fp::from(2)));
}

#[test]
fn degenerate_moduli_have_one_element() {
    type Zero = GaloisField<0>;
    type One = GaloisField<1>;
    assert_eq!(Zero::from(5).value, 0);
    assert_eq!((Zero::from(5) + Zero::from(7)).value, 0);
    assert_eq!((Zero::from(5) * Zero::from(7)).value, 0);
    assert_eq!((Zero::from(5) - Zero::from(7)).value, 0);
    assert_eq!(Zero::from(5).checked_div(Zero::from(7)), Err(FieldError::DivisionByZero));
    assert_eq!(One::from(5).value, 0);
    assert_eq!((One::from(5) + One::from(7)).value, 0);
    assert_eq!(One::from(5).checked_div(One::from(7)), Err(FieldError::DivisionByZero));
}

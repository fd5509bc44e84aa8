use vstd::prelude::*;
use vstd::std_specs::cmp::PartialEqSpecImpl;
use vstd::std_specs::convert::FromSpec;
use vstd::std_specs::ops::AddSpec;
use vstd::std_specs::ops::DivSpec;
use vstd::std_specs::ops::MulSpec;
use vstd::std_specs::ops::SubSpec;
use vstd::std_specs::cmp::PartialEqSpec;
use std::fmt::Debug;
use std::ops::Add;
use std::ops::Div;
use std::ops::Mul;
use std::ops::Sub;
use vstd::arithmetic::div_mod::lemma_fundamental_div_mod;
use vstd::arithmetic::div_mod::lemma_mod_multiples_basic;
use vstd::arithmetic::div_mod::lemma_mod_multiples_vanish;
use vstd::arithmetic::div_mod::lemma_mul_mod_noop_general;
use vstd::arithmetic::div_mod::lemma_small_mod;
use vstd::arithmetic::div_mod::lemma_sub_mod_noop_right;

verus! {

/// Absolute value of an integer.
pub open spec fn magnitude(n: int) -> int {
    if n >= 0 {
        n
    } else {
        -n
    }
}

/// Remainder of the division that rounds towards zero: it carries the sign of
/// the dividend.
pub open spec fn trunc_rem(n: int, d: int) -> int
    recommends
        d != 0,
{
    if n >= 0 {
        n % d
    } else {
        -((-n) % d)
    }
}

/// Quotient of the division that rounds towards zero.
pub open spec fn trunc_quot(n: int, d: int) -> int
    recommends
        d != 0,
{
    if n >= 0 {
        n / d
    } else {
        -((-n) / d)
    }
}

/// `d` divides `n`: some multiple of `d` is `n`.
pub open spec fn divides(d: int, n: int) -> bool {
    exists|k: int| n == #[trigger] (k * d)
}

/// What the two kinds of division have in common, and how the magnitudes of
/// dividend, divisor, quotient and remainder relate.
pub proof fn lemma_trunc_division(n: int, d: int)
    requires
        d != 0,
    ensures
        n == trunc_quot(n, d) * d + trunc_rem(n, d),
        magnitude(trunc_rem(n, d)) < magnitude(d),
        n >= 0 ==> trunc_rem(n, d) >= 0,
        n <= 0 ==> trunc_rem(n, d) <= 0,
        magnitude(n) == magnitude(trunc_quot(n, d)) * magnitude(d) + magnitude(trunc_rem(n, d)),
{
    let m = magnitude(n);
    let q = m / d;
    let r = m % d;
    lemma_fundamental_div_mod(m, d);
    assert(0 <= r < magnitude(d)) by (nonlinear_arith)
        requires
            d != 0,
            r == m % d,
    ;
    assert(m == q * d + r) by (nonlinear_arith)
        requires
            m == d * q + r,
    ;
    assert(magnitude(q) * magnitude(d) == q * d) by (nonlinear_arith)
        requires
            m == q * d + r,
            0 <= r < magnitude(d),
            m >= 0,
            d != 0,
    ;
    if n < 0 {
        assert((-q) * d == -(q * d)) by (nonlinear_arith);
    }
}

/// The triple `(g, x, y)` that the extended Euclidean algorithm reaches from
/// `(a, b)`: it divides `b` by `a`, rounding towards zero, continues with the
/// remainder and `a`, and stops at a zero first component.
pub open spec fn bezout(a: int, b: int) -> (int, int, int)
    decreases magnitude(a),
    via bezout_decreases
{
    if a == 0 {
        (b, 0, 1)
    } else {
        let sub = bezout(trunc_rem(b, a), a);
        (sub.0, sub.2 - trunc_quot(b, a) * sub.1, sub.1)
    }
}

#[via_fn]
proof fn bezout_decreases(a: int, b: int) {
    if a != 0 {
        lemma_trunc_division(b, a);
    }
}

/// Whether neither coefficient of `bezout(a, b)` is fixed by a zero: `a` is
/// not zero and does not divide `b`.
pub open spec fn bezout_is_proper(a: int, b: int) -> bool {
    a != 0 && trunc_rem(b, a) != 0
}

/// The extended Euclidean algorithm yields a common divisor of its arguments
/// as a combination of them, with coefficients that are as small as can be.
pub proof fn lemma_bezout(a: int, b: int)
    ensures
        bezout(a, b).0 == a * bezout(a, b).1 + b * bezout(a, b).2,
        divides(bezout(a, b).0, a),
        divides(bezout(a, b).0, b),
        a >= 0 && b >= 0 ==> bezout(a, b).0 >= 0,
        bezout(a, b).0 == 0 <==> a == 0 && b == 0,
        a == 0 ==> bezout(a, b) == (b, 0int, 1int),
        a != 0 && trunc_rem(b, a) == 0 ==> bezout(a, b) == (a, 1int, 0int),
        bezout_is_proper(a, b) ==> 2 * (magnitude(bezout(a, b).1) * magnitude(bezout(a, b).0))
            <= magnitude(b),
        bezout_is_proper(a, b) ==> 2 * (magnitude(bezout(a, b).2) * magnitude(bezout(a, b).0))
            <= magnitude(a),
    decreases magnitude(a),
{
    if a == 0 {
        assert(bezout(a, b) == (b, 0int, 1int));
        assert(b == a * 0 + b * 1) by (nonlinear_arith);
        assert(0 == 0 * b);
        assert(b == 1 * b);
    } else {
        let r = trunc_rem(b, a);
        let q = trunc_quot(b, a);
        lemma_trunc_division(b, a);
        lemma_bezout(r, a);
        let (g, x1, y1) = bezout(r, a);
        let x = y1 - q * x1;
        let y = x1;
        assert(bezout(a, b).0 == g && bezout(a, b).1 == x && bezout(a, b).2 == y);
        assert(g == a * x + b * y) by (nonlinear_arith)
            requires
                g == r * x1 + a * y1,
                b == q * a + r,
                x == y1 - q * x1,
                y == x1,
        ;
        let kr = choose|k: int| r == #[trigger] (k * g);
        let ka = choose|k: int| a == #[trigger] (k * g);
        assert(b == (q * ka + kr) * g) by (nonlinear_arith)
            requires
                b == q * a + r,
                r == kr * g,
                a == ka * g,
        ;
        if r == 0 {
            assert(x == 1) by (nonlinear_arith)
                requires
                    x == y1 - q * x1,
                    x1 == 0,
                    y1 == 1,
            ;
        } else if trunc_rem(a, r) == 0 {
            // the recursion ended one step further down, with g == r
            assert(x == -q) by (nonlinear_arith)
                requires
                    x == y1 - q * x1,
                    x1 == 1,
                    y1 == 0,
            ;
            lemma_trunc_division(a, r);
            let qa = trunc_quot(a, r);
            assert(magnitude(a) >= 2 * magnitude(r)) by (nonlinear_arith)
                requires
                    magnitude(a) == magnitude(qa) * magnitude(r),
                    magnitude(r) < magnitude(a),
                    magnitude(r) > 0,
            ;
            assert(2 * (magnitude(x) * magnitude(g)) <= magnitude(b)) by (nonlinear_arith)
                requires
                    magnitude(x) == magnitude(q),
                    magnitude(g) == magnitude(r),
                    magnitude(b) == magnitude(q) * magnitude(a) + magnitude(r),
                    magnitude(a) >= 2 * magnitude(r),
                    magnitude(r) > 0,
                    magnitude(q) >= 0,
            ;
            assert(magnitude(y) * magnitude(g) == magnitude(r)) by (nonlinear_arith)
                requires
                    magnitude(y) == 1,
                    magnitude(g) == magnitude(r),
            ;
        } else {
            let mg = magnitude(g);
            let mx1 = magnitude(x1);
            let my1 = magnitude(y1);
            let mq = magnitude(q);
            assert(magnitude(q * x1) == mq * mx1) by (nonlinear_arith)
                requires
                    mq == magnitude(q),
                    mx1 == magnitude(x1),
            ;
            assert(magnitude(x) <= my1 + mq * mx1);
            assert(2 * (magnitude(x) * mg) <= magnitude(b)) by (nonlinear_arith)
                requires
                    0 <= magnitude(x) <= my1 + mq * mx1,
                    2 * (mx1 * mg) <= magnitude(a),
                    2 * (my1 * mg) <= magnitude(r),
                    magnitude(b) == mq * magnitude(a) + magnitude(r),
                    mg >= 0,
                    mq >= 0,
                    mx1 >= 0,
                    my1 >= 0,
            ;
        }
    }
}

/// Whatever divides two numbers divides each combination of them.
pub proof fn lemma_divides_combination(d: int, a: int, b: int, x: int, y: int)
    requires
        divides(d, a),
        divides(d, b),
    ensures
        divides(d, a * x + b * y),
{
    let ka = choose|k: int| a == #[trigger] (k * d);
    let kb = choose|k: int| b == #[trigger] (k * d);
    assert(a * x + b * y == (ka * x + kb * y) * d) by (nonlinear_arith)
        requires
            a == ka * d,
            b == kb * d,
    ;
}

/// Extended Euclidean algorithm: returns `[g, x, y]` with `a * x + b * y == g`,
/// where `g` divides both `a` and `b` and is divided by whatever divides both,
/// so that it is their greatest common divisor up to its sign; for arguments
/// that are not negative it is not negative either.
///
/// The two pairs left out are those on which a division by `-1` leaves the
/// range of `i128`.
pub fn extended_euclidean(a: i128, b: i128) -> (r: [i128; 3])
    requires
        !(a == -1 && b == i128::MIN),
        !(a == i128::MIN && b == -1),
    ensures
        (r[0] as int, r[1] as int, r[2] as int) == bezout(a as int, b as int),
        r[0] == a * r[1] + b * r[2],
        divides(r[0] as int, a as int),
        divides(r[0] as int, b as int),
        forall|d: int| divides(d, a as int) && divides(d, b as int) ==> divides(d, r[0] as int),
        a >= 0 && b >= 0 ==> r[0] >= 0,
    decreases magnitude(a as int),
{
    proof {
        lemma_bezout(a as int, b as int);
        let triple = bezout(a as int, b as int);
        assert forall|d: int| divides(d, a as int) && divides(d, b as int) implies divides(
            d,
            triple.0,
        ) by {
            lemma_divides_combination(d, a as int, b as int, triple.1, triple.2);
        }
    }
    if a == 0 {
        return [b, 0, 1];
    }
    proof {
        lemma_trunc_in_range(b, a);
    }
    let rem = b % a;
    let quo = b / a;
    let sub = extended_euclidean(rem, a);
    let g = sub[0];
    let x1 = sub[1];
    let y1 = sub[2];
    proof {
        lemma_coefficient_step(a as int, b as int);
    }
    [g, y1 - quo * x1, x1]
}

/// The division that rounds towards zero stays within `i128` on every pair
/// but `(i128::MIN, -1)`, and its remainder is `-1` against `i128::MIN` only
/// for the dividend `-1`.
proof fn lemma_trunc_in_range(n: i128, d: i128)
    requires
        d != 0,
        !(n == i128::MIN && d == -1),
    ensures
        i128::MIN <= trunc_quot(n as int, d as int) <= i128::MAX,
        i128::MIN <= trunc_rem(n as int, d as int) <= i128::MAX,
        d == i128::MIN && n != -1 ==> trunc_rem(n as int, d as int) != -1,
{
    let q = trunc_quot(n as int, d as int);
    let r = trunc_rem(n as int, d as int);
    lemma_trunc_division(n as int, d as int);
    assert(magnitude(q) <= magnitude(n as int) && (magnitude(q) == magnitude(n as int) && n != 0
        ==> magnitude(d as int) == 1)) by (nonlinear_arith)
        requires
            magnitude(n as int) == magnitude(q) * magnitude(d as int) + magnitude(r),
            magnitude(d as int) >= 1,
            magnitude(q) >= 0,
            magnitude(r) >= 0,
            magnitude(r) < magnitude(d as int),
    ;
    if d == i128::MIN && r == -1 {
        assert(q == 0) by (nonlinear_arith)
            requires
                magnitude(n as int) == magnitude(q) * magnitude(d as int) + magnitude(r),
                magnitude(d as int) == 0x8000_0000_0000_0000_0000_0000_0000_0000,
                magnitude(n as int) <= 0x8000_0000_0000_0000_0000_0000_0000_0000,
                magnitude(r) == 1,
                magnitude(q) >= 0,
        ;
        assert(n == q * d + r);
        assert(q * d == 0) by (nonlinear_arith)
            requires
                q == 0,
        ;
    }
}

/// One step of the algorithm stays within half of the larger argument, which
/// keeps the executable arithmetic in range.
proof fn lemma_coefficient_step(a: int, b: int)
    requires
        a != 0,
    ensures
        2 * magnitude(trunc_quot(b, a) * bezout(trunc_rem(b, a), a).1) <= magnitude(b),
        2 * magnitude(bezout(trunc_rem(b, a), a).2) <= magnitude(a) + 1,
        2 * magnitude(bezout(a, b).1) <= magnitude(b) + 2,
        bezout(a, b).1 == bezout(trunc_rem(b, a), a).2 - trunc_quot(b, a) * bezout(
            trunc_rem(b, a),
            a,
        ).1,
{
    let r = trunc_rem(b, a);
    let q = trunc_quot(b, a);
    lemma_trunc_division(b, a);
    lemma_bezout(r, a);
    lemma_bezout(a, b);
    let (g, x1, y1) = bezout(r, a);
    let x = bezout(a, b).1;
    let mq = magnitude(q);
    assert(bezout(a, b).0 == g);
    assert(magnitude(q * x1) == mq * magnitude(x1)) by (nonlinear_arith)
        requires
            mq == magnitude(q),
    ;
    if r == 0 {
        assert(x1 == 0 && y1 == 1);
        assert(mq * magnitude(x1) == 0) by (nonlinear_arith)
            requires
                magnitude(x1) == 0,
        ;
        assert(x == 1);
    } else {
        let mg = magnitude(g);
        assert(mg >= 1);
        assert(2 * magnitude(x) <= magnitude(b)) by (nonlinear_arith)
            requires
                2 * (magnitude(x) * mg) <= magnitude(b),
                mg >= 1,
                magnitude(x) >= 0,
        ;
        if trunc_rem(a, r) == 0 {
            assert(x1 == 1 && y1 == 0);
            assert(mq * magnitude(x1) == mq) by (nonlinear_arith)
                requires
                    magnitude(x1) == 1,
            ;
            assert(x == 0 - q * x1);
            assert(q * x1 == q) by (nonlinear_arith)
                requires
                    x1 == 1,
            ;
        } else {
            let mx1 = magnitude(x1);
            let my1 = magnitude(y1);
            assert(2 * mx1 <= magnitude(a) && 2 * my1 <= magnitude(r)) by (nonlinear_arith)
                requires
                    2 * (mx1 * mg) <= magnitude(a),
                    2 * (my1 * mg) <= magnitude(r),
                    mg >= 1,
                    mx1 >= 0,
                    my1 >= 0,
            ;
            assert(2 * (mq * mx1) <= magnitude(b)) by (nonlinear_arith)
                requires
                    2 * mx1 <= magnitude(a),
                    magnitude(b) == mq * magnitude(a) + magnitude(r),
                    magnitude(r) >= 0,
                    mq >= 0,
                    mx1 >= 0,
            ;
        }
    }
}

/// The common divisor that the algorithm finds for `a % m` and `m`. With
/// `m > 0` it is their greatest common divisor.
pub open spec fn shared_divisor(a: int, m: int) -> int {
    bezout(a % m, m).0
}

/// The coefficient that the algorithm finds for `a % m`, brought into
/// `[0, m)`. Where `a` and `m` have no common divisor but 1, it is the inverse
/// of `a` modulo `m`.
pub open spec fn inverse_mod(a: int, m: int) -> int {
    bezout(a % m, m).1 % m
}

/// `p` has no divisor strictly between 1 and itself.
pub open spec fn is_prime(p: int) -> bool {
    p >= 2 && forall|d: int| 1 < d < p ==> #[trigger] (p % d) != 0
}

/// Multiplying by `inverse_mod(a, m)` leaves the common divisor of `a` and
/// `m`, modulo `m`.
pub proof fn lemma_inverse_mod(a: int, m: int)
    requires
        m > 0,
        a % m != 0,
    ensures
        0 <= inverse_mod(a, m) < m,
        (a * inverse_mod(a, m)) % m == shared_divisor(a, m) % m,
        1 <= shared_divisor(a, m) <= a % m,
        divides(shared_divisor(a, m), a % m),
        divides(shared_divisor(a, m), m),
        2 * magnitude(bezout(a % m, m).1) <= m + 1,
{
    let r = a % m;
    assert(0 < r < m);
    lemma_bezout(r, m);
    let (g, x, y) = bezout(r, m);
    let inv = x % m;
    // the coefficient is small
    if trunc_rem(m, r) != 0 {
        assert(2 * magnitude(x) <= m) by (nonlinear_arith)
            requires
                2 * (magnitude(x) * magnitude(g)) <= magnitude(m),
                magnitude(g) >= 1,
                magnitude(x) >= 0,
                m > 0,
        ;
    }
    // the divisor is positive and no larger than what it divides
    let k = choose|k: int| r == #[trigger] (k * g);
    assert(g <= r) by (nonlinear_arith)
        requires
            r == k * g,
            g >= 1,
            r > 0,
    ;
    // a * inv is congruent to r * x, which is g less a multiple of m
    lemma_mul_mod_noop_general(a, x, m);
    assert((a * inv) % m == (r * x) % m);
    assert(r * x == m * (-y) + g) by (nonlinear_arith)
        requires
            g == r * x + m * y,
    ;
    lemma_mod_multiples_vanish(-y, g, m);
}

/// Modulo a prime, `inverse_mod` is the inverse of whatever is not a multiple
/// of the prime.
pub proof fn lemma_inverse_mod_prime(a: int, p: int)
    requires
        is_prime(p),
        a % p != 0,
    ensures
        shared_divisor(a, p) == 1,
        (a * inverse_mod(a, p)) % p == 1,
{
    lemma_inverse_mod(a, p);
    let g = shared_divisor(a, p);
    if g > 1 {
        let k = choose|k: int| p == #[trigger] (k * g);
        lemma_mod_multiples_basic(k, g);
        assert(p % g == 0);
        assert(false);
    }
    lemma_small_mod(1, p as nat);
}

/// The multiplicative inverse of `a` modulo `modulus`, by the extended
/// Euclidean algorithm: the result times `a` is congruent to the greatest
/// common divisor of `a` and `modulus`, which is 1 where `modulus` is prime.
///
/// Nothing is inverse to a multiple of `modulus`.
pub fn reciprocal(a: u64, modulus: u64) -> (r: u64)
    requires
        modulus > 0,
        a % modulus != 0,
    ensures
        r == inverse_mod(a as int, modulus as int),
        r < modulus,
        (a * r) % (modulus as int) == shared_divisor(a as int, modulus as int) % (modulus as int),
        is_prime(modulus as int) ==> (a * r) % (modulus as int) == 1,
{
    proof {
        lemma_inverse_mod(a as int, modulus as int);
        if is_prime(modulus as int) {
            lemma_inverse_mod_prime(a as int, modulus as int);
        }
    }
    let triple = extended_euclidean((a % modulus) as i128, modulus as i128);
    let x = triple[1];
    let shifted = x + modulus as i128;
    proof {
        lemma_mod_multiples_vanish(1, x as int, modulus as int);
    }
    (shifted % (modulus as i128)) as u64
}

/// What can go wrong in a field operation.
#[derive(Debug, Clone, Copy, PartialEq, Eq, Structural)]
pub enum FieldError {
    /// The divisor is equivalent to zero.
    DivisionByZero,
}

/// What node values are drawn from: a type with the four operations, equality
/// and a conversion from `u64`.
///
/// Addition, subtraction and multiplication are total. Division is defined
/// on every divisor that `is_zero` does not hold of: the operator `/` is for
/// those, and `checked_div` reports the others.
pub trait Field: Debug + PartialEq + Sized + Mul<Output = Self> + Add<Output = Self> + Sub<
    Output = Self,
> + Div<Output = Self> + From<u64> + Sync + Send + Clone + Copy {
    /// Whether the element is equivalent to zero.
    spec fn is_zero(self) -> bool;

    /// The operators do what their specifications say, and which of them are
    /// total.
    proof fn lemma_operators()
        ensures
            Self::obeys_add_spec(),
            Self::obeys_sub_spec(),
            Self::obeys_mul_spec(),
            Self::obeys_div_spec(),
            Self::obeys_eq_spec(),
            <Self as FromSpec<u64>>::obeys_from_spec(),
            forall|a: Self, b: Self| #[trigger] a.add_req(b),
            forall|a: Self, b: Self| #[trigger] a.sub_req(b),
            forall|a: Self, b: Self| #[trigger] a.mul_req(b),
            forall|a: Self, b: Self| #[trigger] a.div_req(b) <==> !b.is_zero(),
            forall|a: Self, b: Self| #[trigger] a.eq_spec(&b) <==> a == b,
    ;

    /// Division that reports a divisor equivalent to zero.
    fn checked_div(self, rhs: Self) -> (r: Result<Self, FieldError>)
        ensures
            rhs.is_zero() ==> r == Err::<Self, FieldError>(FieldError::DivisionByZero),
            !rhs.is_zero() ==> r == Ok::<Self, FieldError>(self.div_spec(rhs)),
    ;
}

/// The residue of `v` modulo `m`. A modulus of zero leaves nothing to reduce
/// by: every value is then taken to zero, and the arithmetic is that of the
/// ring with one element.
pub open spec fn residue(v: int, m: int) -> int {
    if m == 0 {
        0
    } else {
        v % m
    }
}

/// An integer modulo `MODULUS`. The operations leave `value` below `MODULUS`;
/// they accept any `value`, and read it modulo `MODULUS`.
///
/// The arithmetic is that of a field where `MODULUS` is prime, which is not
/// checked.
#[derive(Debug, Clone, Copy)]
pub struct GaloisField<const MODULUS: u64> {
    pub value: u64,
}

impl<const MODULUS: u64> GaloisField<MODULUS> {
    /// Whether `value` is the residue that stands for its class.
    pub open spec fn is_reduced(self) -> bool {
        self.value == residue(self.value as int, MODULUS as int)
    }

    /// The element that `v` stands for.
    pub open spec fn of(v: int) -> Self {
        GaloisField { value: residue(v, MODULUS as int) as u64 }
    }
}

impl<const MODULUS: u64> PartialEq for GaloisField<MODULUS> {
    fn eq(&self, other: &Self) -> (r: bool) {
        self.value == other.value
    }
}

impl<const MODULUS: u64> PartialEqSpecImpl for GaloisField<MODULUS> {
    open spec fn obeys_eq_spec() -> bool {
        true
    }

    open spec fn eq_spec(&self, other: &Self) -> bool {
        self.value == other.value
    }
}

impl<const MODULUS: u64> From<u64> for GaloisField<MODULUS> {
    fn from(value: u64) -> (r: Self) {
        if MODULUS == 0 {
            GaloisField { value: 0 }
        } else {
            GaloisField { value: value % MODULUS }
        }
    }
}

impl<const MODULUS: u64> vstd::std_specs::convert::FromSpecImpl<u64> for GaloisField<MODULUS> {
    open spec fn obeys_from_spec() -> bool {
        true
    }

    open spec fn from_spec(v: u64) -> Self {
        Self::of(v as int)
    }
}

impl<const MODULUS: u64> Add for GaloisField<MODULUS> {
    type Output = Self;

    fn add(self, rhs: Self) -> (r: Self) {
        if MODULUS == 0 {
            GaloisField { value: 0 }
        } else {
            let sum = self.value as u128 + rhs.value as u128;
            GaloisField { value: (sum % (MODULUS as u128)) as u64 }
        }
    }
}

impl<const MODULUS: u64> vstd::std_specs::ops::AddSpecImpl for GaloisField<MODULUS> {
    open spec fn obeys_add_spec() -> bool {
        true
    }

    open spec fn add_req(self, rhs: Self) -> bool {
        true
    }

    open spec fn add_spec(self, rhs: Self) -> Self {
        Self::of(self.value + rhs.value)
    }
}

impl<const MODULUS: u64> Sub for GaloisField<MODULUS> {
    type Output = Self;

    fn sub(self, rhs: Self) -> (r: Self) {
        if MODULUS == 0 {
            GaloisField { value: 0 }
        } else {
            let m = MODULUS as u128;
            let back = rhs.value as u128 % m;
            proof {
                lemma_sub_mod_noop_right(self.value as int, rhs.value as int, MODULUS as int);
                lemma_mod_multiples_vanish(1, self.value - back, MODULUS as int);
            }
            GaloisField { value: ((self.value as u128 + m - back) % m) as u64 }
        }
    }
}

impl<const MODULUS: u64> vstd::std_specs::ops::SubSpecImpl for GaloisField<MODULUS> {
    open spec fn obeys_sub_spec() -> bool {
        true
    }

    open spec fn sub_req(self, rhs: Self) -> bool {
        true
    }

    open spec fn sub_spec(self, rhs: Self) -> Self {
        Self::of(self.value - rhs.value)
    }
}

impl<const MODULUS: u64> Mul for GaloisField<MODULUS> {
    type Output = Self;

    fn mul(self, rhs: Self) -> (r: Self) {
        if MODULUS == 0 {
            GaloisField { value: 0 }
        } else {
            proof {
                lemma_product_fits(self.value, rhs.value);
            }
            let product = self.value as u128 * rhs.value as u128;
            GaloisField { value: (product % (MODULUS as u128)) as u64 }
        }
    }
}

impl<const MODULUS: u64> vstd::std_specs::ops::MulSpecImpl for GaloisField<MODULUS> {
    open spec fn obeys_mul_spec() -> bool {
        true
    }

    open spec fn mul_req(self, rhs: Self) -> bool {
        true
    }

    open spec fn mul_spec(self, rhs: Self) -> Self {
        Self::of(self.value * rhs.value)
    }
}

impl<const MODULUS: u64> Div for GaloisField<MODULUS> {
    type Output = Self;

    fn div(self, rhs: Self) -> (r: Self) {
        let inverse = reciprocal(rhs.value, MODULUS);
        proof {
            lemma_product_fits(self.value, inverse);
        }
        let product = self.value as u128 * inverse as u128;
        GaloisField { value: (product % (MODULUS as u128)) as u64 }
    }
}

impl<const MODULUS: u64> vstd::std_specs::ops::DivSpecImpl for GaloisField<MODULUS> {
    open spec fn obeys_div_spec() -> bool {
        true
    }

    open spec fn div_req(self, rhs: Self) -> bool {
        residue(rhs.value as int, MODULUS as int) != 0
    }

    open spec fn div_spec(self, rhs: Self) -> Self {
        Self::of(self.value * inverse_mod(rhs.value as int, MODULUS as int))
    }
}

/// The product of two `u64` fits in `u128`.
proof fn lemma_product_fits(a: u64, b: u64)
    ensures
        a * b <= u128::MAX,
{
    assert(a * b <= 0xffff_ffff_ffff_ffff * 0xffff_ffff_ffff_ffff) by (nonlinear_arith)
        requires
            0 <= a <= 0xffff_ffff_ffff_ffff,
            0 <= b <= 0xffff_ffff_ffff_ffff,
    ;
}

impl<const MODULUS: u64> Field for GaloisField<MODULUS> {
    open spec fn is_zero(self) -> bool {
        residue(self.value as int, MODULUS as int) == 0
    }

    proof fn lemma_operators() {
    }

    fn checked_div(self, rhs: Self) -> (r: Result<Self, FieldError>) {
        if MODULUS == 0 || rhs.value % MODULUS == 0 {
            Err(FieldError::DivisionByZero)
        } else {
            Ok(self / rhs)
        }
    }
}

/// Law: where `a` lies in `[1, p)`, `a` times its reciprocal modulo `p` is
/// congruent to the greatest common divisor of `a` and `p`. That is 1 for
/// every such `a` exactly where `p` is prime.
pub proof fn law_reciprocal(a: u64, p: u64)
    requires
        1 <= a < p,
    ensures
        a % p != 0,
        (a * inverse_mod(a as int, p as int)) % (p as int) == shared_divisor(a as int, p as int),
        is_prime(p as int) ==> (a * inverse_mod(a as int, p as int)) % (p as int) == 1,
{
    lemma_small_mod(a as nat, p as nat);
    lemma_inverse_mod(a as int, p as int);
    lemma_small_mod(shared_divisor(a as int, p as int) as nat, p as nat);
    if is_prime(p as int) {
        lemma_inverse_mod_prime(a as int, p as int);
    }
}

/// Law: dividing a product by one of its factors, where that factor is not
/// equivalent to zero, gives the other factor times the greatest common
/// divisor of the first and the modulus. Modulo a prime that divisor is 1, and
/// the division gives back a reduced factor as it was.
pub proof fn law_div_undoes_mul<const MODULUS: u64>(
    a: GaloisField<MODULUS>,
    b: GaloisField<MODULUS>,
)
    requires
        !b.is_zero(),
    ensures
        a.mul_spec(b).div_req(b),
        a.mul_spec(b).div_spec(b) == GaloisField::<MODULUS>::of(
            a.value * shared_divisor(b.value as int, MODULUS as int),
        ),
        is_prime(MODULUS as int) && a.is_reduced() ==> a.mul_spec(b).div_spec(b) == a,
{
    let m = MODULUS as int;
    let av = a.value as int;
    let bv = b.value as int;
    let inv = inverse_mod(bv, m);
    let g = shared_divisor(bv, m);
    lemma_inverse_mod(bv, m);
    lemma_small_mod(g as nat, m as nat);
    let c = (av * bv) % m;
    assert(a.mul_spec(b).value == c);
    lemma_mul_mod_noop_general(av * bv, inv, m);
    assert((av * bv) * inv == av * (bv * inv)) by (nonlinear_arith);
    lemma_mul_mod_noop_general(av, bv * inv, m);
    assert((c * inv) % m == (av * g) % m);
    if is_prime(m) && a.is_reduced() {
        lemma_inverse_mod_prime(bv, m);
        assert(av * 1 == av);
    }
}

} // verus!

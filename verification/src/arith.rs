//! Greatest common divisors and exact rational values.
//!
//! The engine never touches machine floats: every quantity is an exact
//! non-negative rational.  `Qv` is the mathematical value of such a
//! rational, a numerator/denominator pair of unbounded integers; the
//! executable representations elsewhere in the crate relate to it through
//! cross-multiplication equalities.

use vstd::prelude::*;
use vstd::arithmetic::div_mod::{lemma_fundamental_div_mod, lemma_fundamental_div_mod_converse};

verus! {

/// Euclid's greatest common divisor.
pub open spec fn gcd(x: nat, y: nat) -> nat
    decreases y,
{
    if y == 0 {
        x
    } else {
        gcd(y, x % y)
    }
}

/// The divisor returned by `gcd` is positive and divides both arguments.
pub proof fn lemma_gcd_properties(x: nat, y: nat)
    requires
        x > 0 || y > 0,
    ensures
        gcd(x, y) > 0,
        x % gcd(x, y) == 0,
        y % gcd(x, y) == 0,
        gcd(x, y) <= x || x == 0,
    decreases y,
{
    if y == 0 {
        assert(x % x == 0) by (nonlinear_arith)
            requires x > 0;
        assert(0nat % x == 0) by (nonlinear_arith)
            requires x > 0;
    } else {
        lemma_gcd_properties(y, x % y);
        let g = gcd(y, x % y);
        // x == y * (x / y) + x % y, and g divides both y and x % y.
        lemma_fundamental_div_mod(x as int, y as int);
        lemma_fundamental_div_mod(y as int, g as int);
        lemma_fundamental_div_mod((x % y) as int, g as int);
        let a = y as int / g as int;
        let b = (x % y) as int / g as int;
        let q = x as int / y as int;
        assert(y as int == g * a + (y as nat % g) as int);
        assert(x as int == (a * q + b) * g + 0) by (nonlinear_arith)
            requires
                x as int == (y as int) * q + (x % y) as int,
                y as int == (g as int) * a,
                (x % y) as int == (g as int) * b;
        lemma_fundamental_div_mod_converse(x as int, g as int, a * q + b, 0);
        if x > 0 {
            // a positive divisor of a positive number is no larger than it
            assert(g <= x) by (nonlinear_arith)
                requires
                    g > 0,
                    x > 0,
                    x as int == (g as int) * ((x as int) / (g as int)),
            {
                lemma_fundamental_div_mod(x as int, g as int);
            }
        }
    }
}

/// Scaling both arguments scales the remainder.
pub proof fn lemma_mod_scale(k: nat, x: nat, y: nat)
    requires
        k > 0,
        y > 0,
    ensures
        (k * x) % (k * y) == k * (x % y),
{
    lemma_fundamental_div_mod(x as int, y as int);
    let q = x as int / y as int;
    let r = (x % y) as int;
    assert(k * y > 0) by (nonlinear_arith)
        requires k > 0, y > 0;
    assert((k * x) as int == q * ((k * y) as int) + (k as int) * r) by (nonlinear_arith)
        requires x as int == (y as int) * q + r;
    assert(0 <= (k as int) * r < (k * y) as int) by (nonlinear_arith)
        requires k > 0, 0 <= r < y as int;
    lemma_fundamental_div_mod_converse(
        (k * x) as int,
        (k * y) as int,
        q,
        (k as int) * r,
    );
}

/// Scaling both arguments scales the divisor.
pub proof fn lemma_gcd_scale(k: nat, x: nat, y: nat)
    requires
        k > 0,
    ensures
        gcd(k * x, k * y) == k * gcd(x, y),
    decreases y,
{
    if y == 0 {
        assert(k * y == 0) by (nonlinear_arith)
            requires y == 0;
    } else {
        assert(k * y > 0) by (nonlinear_arith)
            requires k > 0, y > 0;
        lemma_mod_scale(k, x, y);
        lemma_gcd_scale(k, y, x % y);
    }
}

/// Euclid's algorithm, executable.
pub fn gcd_exec(x: u128, y: u128) -> (g: u128)
    ensures
        g == gcd(x as nat, y as nat),
    decreases y,
{
    if y == 0 {
        x
    } else {
        gcd_exec(y, x % y)
    }
}

/// The value of an exact non-negative rational, as unbounded integers.
pub struct Qv {
    pub n: int,
    pub d: int,
}

/// A well-formed rational value: positive denominator, non-negative numerator.
pub open spec fn qv_wf(a: Qv) -> bool {
    a.d >= 1 && a.n >= 0
}

/// Two rational values denote the same number.
pub open spec fn qv_eq(a: Qv, b: Qv) -> bool {
    a.n * b.d == b.n * a.d
}

/// Exact sum of two rational values.
pub open spec fn qv_add(a: Qv, b: Qv) -> Qv {
    Qv { n: a.n * b.d + b.n * a.d, d: a.d * b.d }
}

/// Exact product of two rational values.
pub open spec fn qv_mul(a: Qv, b: Qv) -> Qv {
    Qv { n: a.n * b.n, d: a.d * b.d }
}

/// Exact absolute difference of two rational values.
pub open spec fn qv_abs_diff(a: Qv, b: Qv) -> Qv {
    Qv {
        n: if a.n * b.d >= b.n * a.d {
            a.n * b.d - b.n * a.d
        } else {
            b.n * a.d - a.n * b.d
        },
        d: a.d * b.d,
    }
}

/// The rational value zero.
pub open spec fn qv_zero() -> Qv {
    Qv { n: 0, d: 1 }
}

/// The product of two word-sized values fits a double word.
pub proof fn lemma_u64_mul_fits(x: u64, y: u64) by (nonlinear_arith)
    ensures
        0 <= (x as int) * (y as int) <= u128::MAX,
{
}

/// Denoting the same number is transitive.
pub proof fn lemma_qv_eq_trans(a: Qv, b: Qv, c: Qv) by (nonlinear_arith)
    requires
        qv_wf(a),
        qv_wf(b),
        qv_wf(c),
        qv_eq(a, b),
        qv_eq(b, c),
    ensures
        qv_eq(a, c),
{
}

proof fn lemma_qv_add_cong_left(a: Qv, a2: Qv, b: Qv) by (nonlinear_arith)
    requires
        qv_wf(a),
        qv_wf(a2),
        qv_wf(b),
        qv_eq(a, a2),
    ensures
        qv_eq(qv_add(a, b), qv_add(a2, b)),
        qv_wf(qv_add(a, b)),
{
}

proof fn lemma_qv_add_comm(a: Qv, b: Qv) by (nonlinear_arith)
    requires
        qv_wf(a),
        qv_wf(b),
    ensures
        qv_eq(qv_add(a, b), qv_add(b, a)),
        qv_wf(qv_add(a, b)),
{
}

/// Sums of equal values are equal values.
pub proof fn lemma_qv_add_cong(a: Qv, a2: Qv, b: Qv, b2: Qv)
    requires
        qv_wf(a),
        qv_wf(a2),
        qv_wf(b),
        qv_wf(b2),
        qv_eq(a, a2),
        qv_eq(b, b2),
    ensures
        qv_eq(qv_add(a, b), qv_add(a2, b2)),
        qv_wf(qv_add(a, b)),
{
    lemma_qv_add_cong_left(a, a2, b);
    lemma_qv_add_comm(a2, b);
    lemma_qv_add_cong_left(b, b2, a2);
    lemma_qv_add_comm(b2, a2);
    lemma_qv_add_comm(a2, b2);
    lemma_qv_eq_trans(qv_add(a, b), qv_add(a2, b), qv_add(b, a2));
    lemma_qv_eq_trans(qv_add(a, b), qv_add(b, a2), qv_add(b2, a2));
    lemma_qv_eq_trans(qv_add(a, b), qv_add(b2, a2), qv_add(a2, b2));
}

/// Adding zero does not change a value.
pub proof fn lemma_qv_add_zero(a: Qv) by (nonlinear_arith)
    requires
        qv_wf(a),
    ensures
        qv_eq(qv_add(a, qv_zero()), a),
        qv_eq(a, qv_add(a, qv_zero())),
        qv_wf(qv_add(a, qv_zero())),
{
}

/// Addition of values is associative.
pub proof fn lemma_qv_add_assoc(a: Qv, b: Qv, c: Qv) by (nonlinear_arith)
    requires
        qv_wf(a),
        qv_wf(b),
        qv_wf(c),
    ensures
        qv_eq(qv_add(qv_add(a, b), c), qv_add(a, qv_add(b, c))),
        qv_wf(qv_add(a, b)),
        qv_wf(qv_add(b, c)),
        qv_wf(qv_add(qv_add(a, b), c)),
        qv_wf(qv_add(a, qv_add(b, c))),
{
}

/// Absolute differences of equal values are equal values.
pub proof fn lemma_qv_abs_diff_cong(a: Qv, a2: Qv, b: Qv) by (nonlinear_arith)
    requires
        qv_wf(a),
        qv_wf(a2),
        qv_wf(b),
        qv_eq(a, a2),
    ensures
        qv_eq(qv_abs_diff(a, b), qv_abs_diff(a2, b)),
        qv_wf(qv_abs_diff(a, b)),
        qv_wf(qv_abs_diff(a2, b)),
{
}

/// Products of equal values are equal values.
pub proof fn lemma_qv_mul_cong(a: Qv, a2: Qv, b: Qv, b2: Qv) by (nonlinear_arith)
    requires
        qv_wf(a),
        qv_wf(a2),
        qv_wf(b),
        qv_wf(b2),
        qv_eq(a, a2),
        qv_eq(b, b2),
    ensures
        qv_eq(qv_mul(a, b), qv_mul(a2, b2)),
        qv_wf(qv_mul(a, b)),
{
}

} // verus!

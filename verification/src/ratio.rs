//! Familiarity scores: non-negative exact rationals in lowest terms.
//!
//! Every operation returns its result in canonical form, so equal scores
//! compare equal as plain values.  An operation yields `None` exactly when
//! the canonical result no longer fits the machine word (or, for sums,
//! when the wide intermediate sum itself cannot be formed).

use vstd::prelude::*;
use crate::arith::{
    gcd, gcd_exec, lemma_u64_mul_fits, qv_abs_diff, qv_add, qv_eq, qv_mul, qv_wf, Qv,
};
use crate::frac::lemma_reduced;
use crate::EngineError;

verus! {

/// A non-negative exact rational, kept in lowest terms.
#[derive(Clone, Copy, PartialEq, Eq, Hash, Structural, Debug)]
pub struct Ratio {
    pub num: u64,
    pub den: u64,
}

/// Well-formed score: positive denominator, lowest terms.
pub open spec fn ratio_wf(r: Ratio) -> bool {
    r.den >= 1 && gcd(r.num as nat, r.den as nat) == 1
}

/// The rational number a score denotes.
pub open spec fn ratio_val(r: Ratio) -> Qv {
    Qv { n: r.num as int, d: r.den as int }
}

/// The canonical word-sized form of `p / q`, if it fits.
pub open spec fn spec_canon(p: nat, q: nat) -> Option<Ratio> {
    let g = gcd(p, q);
    if p / g > u64::MAX || q / g > u64::MAX {
        None
    } else {
        Some(Ratio { num: (p / g) as u64, den: (q / g) as u64 })
    }
}

/// Reduce a wide fraction to a canonical word-sized score.
pub(crate) fn make_canonical(p: u128, q: u128) -> (r: Option<Ratio>)
    requires
        q >= 1,
    ensures
        r == spec_canon(p as nat, q as nat),
        match r {
            Some(c) => ratio_wf(c) && qv_eq(ratio_val(c), Qv { n: p as int, d: q as int }),
            None => true,
        },
{
    proof {
        lemma_reduced(p as nat, q as nat);
    }
    let g = gcd_exec(p, q);
    let rn = p / g;
    let rd = q / g;
    if rn > u64::MAX as u128 || rd > u64::MAX as u128 {
        None
    } else {
        Some(Ratio { num: rn as u64, den: rd as u64 })
    }
}

/// The score zero.
pub fn ratio_zero() -> (r: Ratio)
    ensures
        r == (Ratio { num: 0, den: 1 }),
        ratio_wf(r),
        ratio_val(r).n == 0,
        ratio_val(r).d == 1,
{
    proof {
        reveal_with_fuel(gcd, 3);
    }
    Ratio { num: 0, den: 1 }
}

/// The fixed reinforcement increment, one tenth.
pub fn ratio_tenth() -> (r: Ratio)
    ensures
        r == (Ratio { num: 1, den: 10 }),
        ratio_wf(r),
{
    proof {
        reveal_with_fuel(gcd, 3);
    }
    Ratio { num: 1, den: 10 }
}

/// Build a score from a numerator and denominator, canonicalizing.
///
/// A zero denominator is rejected; a word-sized input always reduces to a
/// word-sized canonical form, so no other failure exists.
pub fn ratio_new(n: u64, d: u64) -> (r: Result<Ratio, EngineError>)
    ensures
        match r {
            Ok(c) => {
                &&& d >= 1
                &&& Some(c) == spec_canon(n as nat, d as nat)
                &&& ratio_wf(c)
                &&& qv_eq(ratio_val(c), Qv { n: n as int, d: d as int })
            },
            Err(e) => e == EngineError::DivisionByZero && d == 0,
        },
{
    if d == 0 {
        return Err(EngineError::DivisionByZero);
    }
    proof {
        lemma_reduced(n as nat, d as nat);
    }
    match make_canonical(n as u128, d as u128) {
        Some(c) => Ok(c),
        None => Err(EngineError::DivisionByZero),  // unreachable: the reduced form fits
    }
}

/// A well-formed score denotes a non-negative number.  Both engine
/// measures are such scores, so the squashing curve `1 - 1/exp` maps
/// each of them into the unit interval.
pub proof fn lemma_ratio_nonneg(r: Ratio)
    requires
        ratio_wf(r),
    ensures
        qv_wf(ratio_val(r)),
        ratio_val(r).n >= 0,
        ratio_val(r).d >= 1,
{
}

/// What a canonical form denotes, at the specification level.
pub proof fn lemma_spec_canon_value(p: nat, q: nat)
    requires
        q >= 1,
    ensures
        spec_canon(p, q) matches Some(c) ==> ratio_wf(c) && qv_eq(
            ratio_val(c),
            Qv { n: p as int, d: q as int },
        ),
{
    lemma_reduced(p, q);
}

/// What a canonical sum denotes, at the specification level.
pub proof fn lemma_spec_ratio_add_value(a: Ratio, b: Ratio)
    requires
        ratio_wf(a),
        ratio_wf(b),
    ensures
        spec_ratio_add(a, b) matches Some(c) ==> ratio_wf(c) && qv_eq(
            ratio_val(c),
            qv_add(ratio_val(a), ratio_val(b)),
        ),
{
    let p = (a.num as int) * (b.den as int) + (b.num as int) * (a.den as int);
    let q = (a.den as int) * (b.den as int);
    assert(p >= 0 && q >= 1) by (nonlinear_arith)
        requires
            a.den >= 1,
            b.den >= 1,
            p == (a.num as int) * (b.den as int) + (b.num as int) * (a.den as int),
            q == (a.den as int) * (b.den as int),
    {
    }
    if p <= u128::MAX {
        lemma_spec_canon_value(p as nat, q as nat);
    }
}

/// What a canonical scaled value denotes, at the specification level.
pub proof fn lemma_spec_ratio_scale_value(a: Ratio, m: u64, k: u64)
    requires
        ratio_wf(a),
        k >= 1,
    ensures
        spec_ratio_scale(a, m, k) matches Some(c) ==> ratio_wf(c) && qv_eq(
            ratio_val(c),
            qv_mul(ratio_val(a), Qv { n: m as int, d: k as int }),
        ),
{
    let p = (a.num as int) * (m as int);
    let q = (a.den as int) * (k as int);
    assert(p >= 0 && q >= 1) by (nonlinear_arith)
        requires
            a.den >= 1,
            k >= 1,
            p == (a.num as int) * (m as int),
            q == (a.den as int) * (k as int),
    {
    }
    lemma_spec_canon_value(p as nat, q as nat);
}

/// What a canonical absolute difference denotes, at the specification
/// level.
pub proof fn lemma_spec_ratio_abs_diff_value(a: Ratio, b: Ratio)
    requires
        ratio_wf(a),
        ratio_wf(b),
    ensures
        spec_ratio_abs_diff(a, b) matches Some(c) ==> ratio_wf(c) && qv_eq(
            ratio_val(c),
            qv_abs_diff(ratio_val(a), ratio_val(b)),
        ),
{
    let x = (a.num as int) * (b.den as int);
    let y = (b.num as int) * (a.den as int);
    let q = (a.den as int) * (b.den as int);
    assert(x >= 0 && y >= 0 && q >= 1) by (nonlinear_arith)
        requires
            a.den >= 1,
            b.den >= 1,
            x == (a.num as int) * (b.den as int),
            y == (b.num as int) * (a.den as int),
            q == (a.den as int) * (b.den as int),
    {
    }
    if x >= y {
        lemma_spec_canon_value((x - y) as nat, q as nat);
    } else {
        lemma_spec_canon_value((y - x) as nat, q as nat);
    }
}

/// Canonical sum, or `None` where it cannot be represented.
pub open spec fn spec_ratio_add(a: Ratio, b: Ratio) -> Option<Ratio> {
    let p = (a.num as int) * (b.den as int) + (b.num as int) * (a.den as int);
    let q = (a.den as int) * (b.den as int);
    if p > u128::MAX {
        None
    } else {
        spec_canon(p as nat, q as nat)
    }
}

/// Exact addition of two scores.
pub fn ratio_add(a: Ratio, b: Ratio) -> (r: Option<Ratio>)
    requires
        ratio_wf(a),
        ratio_wf(b),
    ensures
        r == spec_ratio_add(a, b),
        match r {
            Some(c) => ratio_wf(c) && qv_eq(ratio_val(c), qv_add(ratio_val(a), ratio_val(b))),
            None => true,
        },
{
    proof {
        lemma_u64_mul_fits(a.num, b.den);
        lemma_u64_mul_fits(b.num, a.den);
        lemma_u64_mul_fits(a.den, b.den);
    }
    let p1 = (a.num as u128) * (b.den as u128);
    let p2 = (b.num as u128) * (a.den as u128);
    if p1 > u128::MAX - p2 {
        return None;
    }
    let p = p1 + p2;
    let q = (a.den as u128) * (b.den as u128);
    proof {
        assert(q >= 1) by (nonlinear_arith)
            requires
                a.den >= 1,
                b.den >= 1,
                q == (a.den as int) * (b.den as int),
        {
        }
    }
    make_canonical(p, q)
}

/// Canonical product with the fraction `m / k`, or `None` where it cannot
/// be represented.
pub open spec fn spec_ratio_scale(a: Ratio, m: u64, k: u64) -> Option<Ratio> {
    spec_canon((a.num as nat) * (m as nat), (a.den as nat) * (k as nat))
}

/// Exact multiplication of a score by the fraction `m / k`.
pub fn ratio_scale(a: Ratio, m: u64, k: u64) -> (r: Option<Ratio>)
    requires
        ratio_wf(a),
        k >= 1,
    ensures
        r == spec_ratio_scale(a, m, k),
        match r {
            Some(c) => ratio_wf(c)
                && qv_eq(ratio_val(c), qv_mul(ratio_val(a), Qv { n: m as int, d: k as int })),
            None => true,
        },
{
    proof {
        lemma_u64_mul_fits(a.num, m);
        lemma_u64_mul_fits(a.den, k);
    }
    let p = (a.num as u128) * (m as u128);
    let q = (a.den as u128) * (k as u128);
    proof {
        assert(q >= 1) by (nonlinear_arith)
            requires
                a.den >= 1,
                k >= 1,
                q == (a.den as int) * (k as int),
        {
        }
    }
    make_canonical(p, q)
}

/// Canonical absolute difference, or `None` where it cannot be
/// represented.
pub open spec fn spec_ratio_abs_diff(a: Ratio, b: Ratio) -> Option<Ratio> {
    let x = (a.num as int) * (b.den as int);
    let y = (b.num as int) * (a.den as int);
    let q = (a.den as int) * (b.den as int);
    if x >= y {
        spec_canon((x - y) as nat, q as nat)
    } else {
        spec_canon((y - x) as nat, q as nat)
    }
}

/// Exact absolute difference of two scores.
pub fn ratio_abs_diff(a: Ratio, b: Ratio) -> (r: Option<Ratio>)
    requires
        ratio_wf(a),
        ratio_wf(b),
    ensures
        r == spec_ratio_abs_diff(a, b),
        match r {
            Some(c) => ratio_wf(c)
                && qv_eq(ratio_val(c), qv_abs_diff(ratio_val(a), ratio_val(b))),
            None => true,
        },
{
    proof {
        lemma_u64_mul_fits(a.num, b.den);
        lemma_u64_mul_fits(b.num, a.den);
        lemma_u64_mul_fits(a.den, b.den);
    }
    let x = (a.num as u128) * (b.den as u128);
    let y = (b.num as u128) * (a.den as u128);
    let q = (a.den as u128) * (b.den as u128);
    proof {
        assert(q >= 1) by (nonlinear_arith)
            requires
                a.den >= 1,
                b.den >= 1,
                q == (a.den as int) * (b.den as int),
        {
        }
    }
    if x >= y {
        make_canonical(x - y, q)
    } else {
        make_canonical(y - x, q)
    }
}

} // verus!

//! Rational intervals: pitch ratios as exact fractions in lowest terms.

use vstd::prelude::*;
use vstd::arithmetic::div_mod::lemma_fundamental_div_mod;
use crate::arith::{gcd, gcd_exec, lemma_gcd_properties, lemma_gcd_scale, lemma_u64_mul_fits, qv_eq, Qv};
use crate::EngineError;

verus! {

/// A pitch ratio relative to the base frequency.
///
/// Whenever an interval is produced or stored by the engine it is in
/// canonical form: numerator and denominator share no factor above one, so
/// equal ratios compare equal and hash identically.
#[derive(Clone, Copy, PartialEq, Eq, Hash, Structural, Debug)]
pub struct Frac {
    pub num: u64,
    pub den: u64,
}

/// Both components are strictly positive.
pub open spec fn frac_pos(f: Frac) -> bool {
    f.num >= 1 && f.den >= 1
}

/// The fraction is in lowest terms.
pub open spec fn frac_reduced(f: Frac) -> bool {
    gcd(f.num as nat, f.den as nat) == 1
}

/// A note as the engine keeps it: positive and in lowest terms.
pub open spec fn note_wf(f: Frac) -> bool {
    frac_pos(f) && frac_reduced(f)
}

/// The rational number a fraction denotes.
pub open spec fn frac_val(f: Frac) -> Qv {
    Qv { n: f.num as int, d: f.den as int }
}

/// The canonical form of a fraction: both components divided by their gcd.
pub open spec fn spec_simplify(f: Frac) -> Frac {
    let g = gcd(f.num as nat, f.den as nat);
    Frac { num: (f.num as nat / g) as u64, den: (f.den as nat / g) as u64 }
}

/// Facts about dividing a pair by its gcd.
pub proof fn lemma_reduced(x: nat, y: nat)
    requires
        y >= 1,
    ensures
        gcd(x, y) >= 1,
        gcd(x, y) <= y,
        x >= 1 ==> gcd(x, y) <= x,
        (x / gcd(x, y)) * y == x * (y / gcd(x, y)),
        gcd(x / gcd(x, y), y / gcd(x, y)) == 1,
        y / gcd(x, y) >= 1,
        x >= 1 ==> x / gcd(x, y) >= 1,
        x / gcd(x, y) <= x,
        y / gcd(x, y) <= y,
{
    lemma_gcd_properties(x, y);
    let g = gcd(x, y);
    lemma_fundamental_div_mod(x as int, g as int);
    lemma_fundamental_div_mod(y as int, g as int);
    let xq = x / g;
    let yq = y / g;
    assert(x == g * xq && y == g * yq);
    assert(g <= y && yq >= 1 && yq <= y) by (nonlinear_arith)
        requires
            g >= 1,
            y >= 1,
            y == g * yq,
    {
    }
    assert(x >= 1 ==> (g <= x && xq >= 1)) by (nonlinear_arith)
        requires
            g >= 1,
            x == g * xq,
    {
    }
    assert(xq <= x) by (nonlinear_arith)
        requires
            g >= 1,
            x == g * xq,
            xq >= 0,
    {
    }
    assert(xq * y == x * yq) by (nonlinear_arith)
        requires
            x == g * xq,
            y == g * yq,
    {
    }
    lemma_gcd_scale(g, xq, yq);
    assert(gcd(g * xq, g * yq) == g * gcd(xq, yq));
    assert(gcd(xq, yq) == 1) by (nonlinear_arith)
        requires
            g >= 1,
            g == g * gcd(xq, yq),
    {
    }
}

/// Two pairs denoting the same ratio reduce to the same pair.
pub proof fn lemma_reduced_unique(n1: nat, d1: nat, n2: nat, d2: nat)
    requires
        d1 >= 1,
        d2 >= 1,
        n1 * d2 == n2 * d1,
    ensures
        n1 / gcd(n1, d1) == n2 / gcd(n2, d2),
        d1 / gcd(n1, d1) == d2 / gcd(n2, d2),
{
    let g1 = gcd(n1, d1);
    let g2 = gcd(n2, d2);
    lemma_reduced(n1, d1);
    lemma_reduced(n2, d2);
    lemma_gcd_properties(n1, d1);
    lemma_gcd_properties(n2, d2);
    lemma_fundamental_div_mod(n1 as int, g1 as int);
    lemma_fundamental_div_mod(d1 as int, g1 as int);
    lemma_fundamental_div_mod(n2 as int, g2 as int);
    lemma_fundamental_div_mod(d2 as int, g2 as int);
    let a1 = n1 / g1;
    let b1 = d1 / g1;
    let a2 = n2 / g2;
    let b2 = d2 / g2;
    lemma_gcd_scale(d2, n1, d1);
    lemma_gcd_scale(d1, n2, d2);
    assert(d2 * n1 == d1 * n2 && d2 * d1 == d1 * d2) by (nonlinear_arith)
        requires
            n1 * d2 == n2 * d1,
    {
    }
    assert(gcd(d2 * n1, d2 * d1) == gcd(d1 * n2, d1 * d2));
    assert(d2 * g1 == d1 * g2);
    assert(b1 == b2) by (nonlinear_arith)
        requires
            g1 >= 1,
            g2 >= 1,
            b1 >= 1,
            b2 >= 1,
            d1 == g1 * b1,
            d2 == g2 * b2,
            d2 * g1 == d1 * g2,
    {
    }
    assert(a1 == a2) by (nonlinear_arith)
        requires
            g1 >= 1,
            g2 >= 1,
            b1 >= 1,
            b1 == b2,
            n1 == g1 * a1,
            n2 == g2 * a2,
            d1 == g1 * b1,
            d2 == g2 * b2,
            n1 * d2 == n2 * d1,
    {
    }
}

/// Reduce a fraction to lowest terms.
///
/// The result denotes the same ratio, is canonical, and keeps strict
/// positivity of the components.
pub fn simplify(f: Frac) -> (r: Frac)
    requires
        f.den >= 1,
    ensures
        r == spec_simplify(f),
        r.den >= 1,
        frac_reduced(r),
        qv_eq(frac_val(r), frac_val(f)),
        f.num >= 1 ==> r.num >= 1,
        r.num <= f.num,
        r.den <= f.den,
{
    proof {
        lemma_reduced(f.num as nat, f.den as nat);
    }
    let g128 = gcd_exec(f.num as u128, f.den as u128);
    let g = g128 as u64;
    Frac { num: f.num / g, den: f.den / g }
}

/// Build an interval from a numerator and denominator, canonicalizing.
///
/// A zero denominator is rejected here, at construction, before any
/// interval value exists; no other failure is possible, since a
/// word-sized pair always reduces to a word-sized canonical form.
pub fn frac_new(n: u64, d: u64) -> (r: Result<Frac, EngineError>)
    ensures
        match r {
            Ok(c) => {
                &&& d >= 1
                &&& c == spec_simplify(Frac { num: n, den: d })
                &&& c.den >= 1
                &&& frac_reduced(c)
                &&& qv_eq(frac_val(c), Qv { n: n as int, d: d as int })
                &&& (n >= 1 ==> c.num >= 1)
            },
            Err(e) => e == EngineError::DivisionByZero && d == 0,
        },
{
    if d == 0 {
        return Err(EngineError::DivisionByZero);
    }
    Ok(simplify(Frac { num: n, den: d }))
}

/// Canonicalization is idempotent: a fraction already in lowest terms is
/// returned unchanged.
pub proof fn lemma_simplify_idempotent(f: Frac)
    requires
        f.den >= 1,
        frac_reduced(f),
    ensures
        spec_simplify(f) == f,
{
    assert(f.num as nat / 1 == f.num as nat);
    assert(f.den as nat / 1 == f.den as nat);
}

/// Canonicalizing twice is the same as canonicalizing once.
pub proof fn lemma_simplify_twice(f: Frac)
    requires
        f.den >= 1,
    ensures
        spec_simplify(spec_simplify(f)) == spec_simplify(f),
{
    lemma_reduced(f.num as nat, f.den as nat);
    lemma_simplify_idempotent(spec_simplify(f));
}

/// Fractions denoting the same ratio have the same canonical form, however
/// they were written.
pub proof fn lemma_simplify_unique(f: Frac, g: Frac)
    requires
        f.den >= 1,
        g.den >= 1,
        qv_eq(frac_val(f), frac_val(g)),
    ensures
        spec_simplify(f) == spec_simplify(g),
{
    lemma_reduced_unique(f.num as nat, f.den as nat, g.num as nat, g.den as nat);
}

/// Scaling both components by a common factor does not change the
/// canonical form.
pub proof fn lemma_simplify_scale(f: Frac, g: Frac, k: u64)
    requires
        f.den >= 1,
        k >= 1,
        g.num == k * f.num,
        g.den == k * f.den,
    ensures
        spec_simplify(g) == spec_simplify(f),
{
    assert(g.num as int * (f.den as int) == f.num as int * (g.den as int)) by (nonlinear_arith)
        requires
            g.num == k * f.num,
            g.den == k * f.den,
    {
    }
    assert(g.den >= 1) by (nonlinear_arith)
        requires
            g.den == k * f.den,
            k >= 1,
            f.den >= 1,
    {
    }
    lemma_simplify_unique(g, f);
}

/// Every note of a chord is positive and canonical.
pub open spec fn chord_wf(s: Seq<Frac>) -> bool {
    forall|i: int| 0 <= i < s.len() ==> note_wf(#[trigger] s[i])
}

/// No note occurs twice in the chord.
pub open spec fn chord_distinct(s: Seq<Frac>) -> bool {
    forall|i: int, j: int| 0 <= i < j < s.len() ==> (#[trigger] s[i]) != (#[trigger] s[j])
}

/// How many times a note occurs in a chord.
pub open spec fn note_count(s: Seq<Frac>, k: Frac) -> nat
    decreases s.len(),
{
    if s.len() == 0 {
        0
    } else {
        (if s[0] == k {
            1nat
        } else {
            0nat
        }) + note_count(s.drop_first(), k)
    }
}

/// The numerator of the canonical combined ratio of two intervals: the
/// ratio of `a` to `b`, `(a.num * b.den) / (b.num * a.den)`, in lowest terms.
pub open spec fn combined_num(a: Frac, b: Frac) -> nat {
    let p = (a.num as nat) * (b.den as nat);
    let q = (b.num as nat) * (a.den as nat);
    p / gcd(p, q)
}

/// The denominator of the canonical combined ratio of two intervals.
pub open spec fn combined_den(a: Frac, b: Frac) -> nat {
    let p = (a.num as nat) * (b.den as nat);
    let q = (b.num as nat) * (a.den as nat);
    q / gcd(p, q)
}

/// Whether the canonical combined ratio fits the machine word.
pub open spec fn combined_fits(a: Frac, b: Frac) -> bool {
    combined_num(a, b) <= u64::MAX && combined_den(a, b) <= u64::MAX
}

/// The interval between two pitches: one ratio divided by the other, in
/// canonical form.
pub fn combine(a: Frac, b: Frac) -> (r: Result<Frac, EngineError>)
    ensures
        match r {
            Ok(c) => {
                &&& a.den >= 1 && b.den >= 1 && b.num >= 1
                &&& combined_fits(a, b)
                &&& c.num == combined_num(a, b)
                &&& c.den == combined_den(a, b)
                &&& c.den >= 1
                &&& frac_reduced(c)
                &&& a.num >= 1 ==> c.num >= 1
            },
            Err(EngineError::DivisionByZero) => a.den == 0 || b.den == 0 || b.num == 0,
            Err(EngineError::Overflow) => {
                a.den >= 1 && b.den >= 1 && b.num >= 1 && !combined_fits(a, b)
            },
            Err(_) => false,
        },
        (r is Err) <==> (a.den == 0 || b.den == 0 || b.num == 0 || !combined_fits(a, b)),
{
    if a.den == 0 || b.den == 0 || b.num == 0 {
        return Err(EngineError::DivisionByZero);
    }
    proof {
        lemma_u64_mul_fits(a.num, b.den);
        lemma_u64_mul_fits(b.num, a.den);
    }
    let p = (a.num as u128) * (b.den as u128);
    let q = (b.num as u128) * (a.den as u128);
    proof {
        assert(q >= 1) by (nonlinear_arith)
            requires
                b.num >= 1,
                a.den >= 1,
                q == (b.num as int) * (a.den as int),
        {
        }
        assert(a.num >= 1 ==> p >= 1) by (nonlinear_arith)
            requires
                b.den >= 1,
                p == (a.num as int) * (b.den as int),
        {
        }
        lemma_reduced(p as nat, q as nat);
    }
    let g = gcd_exec(p, q);
    let cn = p / g;
    let cd = q / g;
    if cn > u64::MAX as u128 || cd > u64::MAX as u128 {
        Err(EngineError::Overflow)
    } else {
        Ok(Frac { num: cn as u64, den: cd as u64 })
    }
}

} // verus!

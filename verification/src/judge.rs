//! Harmony and novelty measures of a candidate chord.
//!
//! Both are computed exactly as rationals.  The harmony measure is the
//! familiarity-weighted average roughness of the chord against the memory
//! store: for every note and every remembered interval, the product of
//! numerator and denominator of their canonical combined ratio, weighted
//! by the stored familiarity, averaged over all pairs.  The novelty
//! measure is the absolute deviation of the chord's average familiarity
//! from the fixed target of one tenth.  A downstream consumer maps each
//! measure `x` through the squashing curve `1 - exp(-x)` (the harmony
//! measure divided by five first) to obtain a bounded penalty; both
//! measures here are non-negative, so those penalties lie in `[0, 1)` and
//! grow with the measure.

use vstd::prelude::*;
use crate::arith::{lemma_qv_add_cong, lemma_qv_eq_trans, qv_abs_diff, qv_add, qv_eq, qv_mul, qv_wf, qv_zero, Qv};
use crate::frac::{
    chord_wf, combine, combined_den, combined_num, Frac,
};
use crate::memory::{lemma_lookup_wf, lookup_val, memory_wf, spec_lookup, Memory};
use crate::ratio::{
    ratio_abs_diff, ratio_add, ratio_scale, ratio_val, ratio_wf, ratio_zero,
    spec_ratio_abs_diff, spec_ratio_add, spec_ratio_scale, Ratio,
};
use crate::EngineError;

verus! {

/// The roughness term of one note against one memory entry, as a
/// canonical score, or `None` where it cannot be represented.
pub open spec fn spec_term(note: Frac, e: (Frac, Ratio)) -> Option<Ratio> {
    let cn = combined_num(note, e.0);
    let cd = combined_den(note, e.0);
    if cn > u64::MAX || cd > u64::MAX {
        None
    } else if cn * cd > u64::MAX {
        None
    } else {
        spec_ratio_scale(e.1, (cn * cd) as u64, 1)
    }
}

/// The running harmony sum of one note over the whole store.
pub open spec fn spec_row(note: Frac, mem: Seq<(Frac, Ratio)>, acc: Ratio) -> Option<Ratio>
    decreases mem.len(),
{
    if mem.len() == 0 {
        Some(acc)
    } else {
        match spec_term(note, mem[0]) {
            None => None,
            Some(t) => match spec_ratio_add(acc, t) {
                None => None,
                Some(a2) => spec_row(note, mem.drop_first(), a2),
            },
        }
    }
}

/// The running harmony sum of a whole chord over the whole store.
pub open spec fn spec_total(chord: Seq<Frac>, mem: Seq<(Frac, Ratio)>, acc: Ratio) -> Option<
    Ratio,
>
    decreases chord.len(),
{
    if chord.len() == 0 {
        Some(acc)
    } else {
        match spec_row(chord[0], mem, acc) {
            None => None,
            Some(a2) => spec_total(chord.drop_first(), mem, a2),
        }
    }
}

/// The harmony measure: the averaged sum, or zero where there are no
/// pairs to average (empty memory, or an empty chord), or `None` where
/// the exact value cannot be represented.
pub open spec fn spec_harmony(chord: Seq<Frac>, mem: Seq<(Frac, Ratio)>) -> Option<Ratio> {
    if mem.len() == 0 || chord.len() == 0 {
        Some(Ratio { num: 0, den: 1 })
    } else {
        match spec_total(chord, mem, Ratio { num: 0, den: 1 }) {
            None => None,
            Some(s) => if chord.len() * mem.len() > u64::MAX {
                None
            } else {
                spec_ratio_scale(s, 1, (chord.len() * mem.len()) as u64)
            },
        }
    }
}

/// The harmony measure of a chord against the store.
///
/// With no memory (or no notes) there are no pairs to average and the
/// measure is defined as zero, the neutral value.  Otherwise the exact
/// average roughness is returned; `Overflow` signals only that the exact
/// value no longer fits the machine word.
pub fn judge_harmony(chord: &Vec<Frac>, memory: &Memory) -> (r: Result<Ratio, EngineError>)
    requires
        chord_wf(chord@),
        memory_wf(memory@),
    ensures
        match r {
            Ok(h) => Some(h) == spec_harmony(chord@, memory@) && ratio_wf(h),
            Err(e) => e == EngineError::Overflow && spec_harmony(chord@, memory@) is None,
        },
        memory@.len() == 0 ==> r == Ok::<Ratio, EngineError>(Ratio { num: 0, den: 1 }),
{
    let ghost cs = chord@;
    let ghost ms = memory@;
    if memory.entries.len() == 0 || chord.len() == 0 {
        return Ok(ratio_zero());
    }
    let mut acc = ratio_zero();
    let mut i: usize = 0;
    proof {
        assert(cs.skip(0) =~= cs);
    }
    while i < chord.len()
        invariant
            0 <= i <= cs.len(),
            cs == chord@,
            ms == memory@,
            ms == memory.entries@,
            cs.len() >= 1,
            ms.len() >= 1,
            chord_wf(cs),
            memory_wf(ms),
            ratio_wf(acc),
            spec_total(cs.skip(i as int), ms, acc) == spec_total(cs, ms, Ratio { num: 0, den: 1 }),
        decreases cs.len() - i,
    {
        let note = chord[i];
        let ghost acc_enter = acc;
        let mut j: usize = 0;
        proof {
            assert(cs.skip(i as int)[0] == cs[i as int]);
            assert(cs.skip(i as int).drop_first() =~= cs.skip(i as int + 1));
            assert(ms.skip(0) =~= ms);
        }
        while j < memory.entries.len()
            invariant
                0 <= j <= ms.len(),
                ms == memory.entries@,
                note == cs[i as int],
                0 <= i < cs.len(),
                cs == chord@,
                chord_wf(cs),
                memory_wf(ms),
                ratio_wf(acc),
                ms.len() >= 1,
                spec_row(note, ms.skip(j as int), acc) == spec_row(note, ms, acc_enter),
                spec_total(cs.skip(i as int), ms, acc_enter) == spec_total(
                    cs,
                    ms,
                    Ratio { num: 0, den: 1 },
                ),
            decreases ms.len() - j,
        {
            let e = memory.entries[j];
            proof {
                assert(ms.skip(j as int)[0] == ms[j as int]);
                assert(ms.skip(j as int).drop_first() =~= ms.skip(j as int + 1));
                assert(cs.skip(i as int)[0] == cs[i as int]);
            }
            let c = match combine(note, e.0) {
                Ok(c) => c,
                Err(_) => {
                    proof {
                        assert(spec_term(note, ms[j as int]) is None);
                        assert(spec_row(note, ms, acc_enter) is None);
                        assert(spec_harmony(cs, ms) is None);
                    }
                    return Err(EngineError::Overflow);
                },
            };
            proof {
                crate::arith::lemma_u64_mul_fits(c.num, c.den);
            }
            let m = (c.num as u128) * (c.den as u128);
            if m > u64::MAX as u128 {
                proof {
                    assert(spec_term(note, ms[j as int]) is None);
                    assert(spec_row(note, ms, acc_enter) is None);
                    assert(spec_harmony(cs, ms) is None);
                }
                return Err(EngineError::Overflow);
            }
            let t = match ratio_scale(e.1, m as u64, 1) {
                Some(t) => t,
                None => {
                    proof {
                        assert(spec_term(note, ms[j as int]) is None);
                        assert(spec_row(note, ms, acc_enter) is None);
                        assert(spec_harmony(cs, ms) is None);
                    }
                    return Err(EngineError::Overflow);
                },
            };
            proof {
                assert(Some(t) == spec_term(note, ms[j as int]));
            }
            acc = match ratio_add(acc, t) {
                Some(a2) => a2,
                None => {
                    proof {
                        assert(spec_row(note, ms, acc_enter) is None);
                        assert(spec_harmony(cs, ms) is None);
                    }
                    return Err(EngineError::Overflow);
                },
            };
            j = j + 1;
        }
        proof {
            assert(ms.skip(ms.len() as int) =~= Seq::<(Frac, Ratio)>::empty());
        }
        i = i + 1;
    }
    proof {
        assert(cs.skip(cs.len() as int) =~= Seq::<Frac>::empty());
    }
    proof {
        assert(1 <= (cs.len() as int) * (ms.len() as int) <= u128::MAX) by (nonlinear_arith)
            requires
                1 <= cs.len() <= u64::MAX,
                1 <= ms.len() <= u64::MAX,
        {
        }
    }
    let pairs = (chord.len() as u128) * (memory.entries.len() as u128);
    if pairs > u64::MAX as u128 {
        return Err(EngineError::Overflow);
    }
    match ratio_scale(acc, 1, pairs as u64) {
        Some(h) => Ok(h),
        None => Err(EngineError::Overflow),
    }
}

/// The running familiarity sum of a chord, counting each occurrence.
pub open spec fn spec_novelty_sum(chord: Seq<Frac>, mem: Seq<(Frac, Ratio)>, acc: Ratio) -> Option<
    Ratio,
>
    decreases chord.len(),
{
    if chord.len() == 0 {
        Some(acc)
    } else {
        let st = match spec_lookup(mem, chord[0]) {
            None => Ratio { num: 0, den: 1 },
            Some(v) => v,
        };
        match spec_ratio_add(acc, st) {
            None => None,
            Some(a2) => spec_novelty_sum(chord.drop_first(), mem, a2),
        }
    }
}

/// The novelty measure: how far the chord's average familiarity strays
/// from the fixed target of one tenth, or `None` where the exact value
/// cannot be represented.  Meaningless for an empty chord.
pub open spec fn spec_novelty(chord: Seq<Frac>, mem: Seq<(Frac, Ratio)>) -> Option<Ratio> {
    match spec_novelty_sum(chord, mem, Ratio { num: 0, den: 1 }) {
        None => None,
        Some(s) => match spec_ratio_scale(s, 1, chord.len() as u64) {
            None => None,
            Some(avg) => spec_ratio_abs_diff(avg, Ratio { num: 1, den: 10 }),
        },
    }
}

/// The novelty measure of a chord against the store.
///
/// An empty chord has no average familiarity and is rejected.  Otherwise
/// the exact deviation of the average familiarity from the target of one
/// tenth is returned; `Overflow` signals only that the exact value no
/// longer fits the machine word.
pub fn judge_novelty(chord: &Vec<Frac>, memory: &Memory) -> (r: Result<Ratio, EngineError>)
    requires
        chord_wf(chord@),
        memory_wf(memory@),
    ensures
        match r {
            Ok(d) => chord@.len() >= 1 && Some(d) == spec_novelty(chord@, memory@) && ratio_wf(d),
            Err(EngineError::EmptyChord) => chord@.len() == 0,
            Err(EngineError::Overflow) => chord@.len() >= 1 && spec_novelty(chord@, memory@)
                is None,
            Err(_) => false,
        },
        (r == Err::<Ratio, EngineError>(EngineError::EmptyChord)) <==> chord@.len() == 0,
{
    let ghost cs = chord@;
    let ghost ms = memory@;
    if chord.len() == 0 {
        return Err(EngineError::EmptyChord);
    }
    let mut acc = ratio_zero();
    let mut i: usize = 0;
    proof {
        assert(cs.skip(0) =~= cs);
    }
    while i < chord.len()
        invariant
            0 <= i <= cs.len(),
            cs == chord@,
            ms == memory@,
            cs.len() >= 1,
            chord_wf(cs),
            memory_wf(ms),
            ratio_wf(acc),
            spec_novelty_sum(cs.skip(i as int), ms, acc) == spec_novelty_sum(
                cs,
                ms,
                Ratio { num: 0, den: 1 },
            ),
        decreases cs.len() - i,
    {
        let note = chord[i];
        proof {
            assert(cs.skip(i as int)[0] == cs[i as int]);
            assert(cs.skip(i as int).drop_first() =~= cs.skip(i as int + 1));
            lemma_lookup_wf(ms, note);
        }
        let st = match memory.lookup(note) {
            None => ratio_zero(),
            Some(v) => v,
        };
        acc = match ratio_add(acc, st) {
            Some(a2) => a2,
            None => {
                return Err(EngineError::Overflow);
            },
        };
        i = i + 1;
    }
    proof {
        assert(cs.skip(cs.len() as int) =~= Seq::<Frac>::empty());
    }
    let avg = match ratio_scale(acc, 1, chord.len() as u64) {
        Some(avg) => avg,
        None => {
            return Err(EngineError::Overflow);
        },
    };
    let tenth = crate::ratio::ratio_tenth();
    match ratio_abs_diff(avg, tenth) {
        Some(d) => Ok(d),
        None => Err(EngineError::Overflow),
    }
}

/// The roughness term of one note against one memory entry, as a plain
/// rational value: familiarity times numerator times denominator of the
/// canonical combined ratio.
pub open spec fn qv_term(note: Frac, e: (Frac, Ratio)) -> Qv {
    Qv {
        n: (e.1.num as int) * (combined_num(note, e.0) as int) * (combined_den(note, e.0) as int),
        d: e.1.den as int,
    }
}

/// The plain harmony sum of one note over the whole store.
pub open spec fn qv_row_sum(note: Frac, mem: Seq<(Frac, Ratio)>) -> Qv
    decreases mem.len(),
{
    if mem.len() == 0 {
        qv_zero()
    } else {
        qv_add(qv_term(note, mem[0]), qv_row_sum(note, mem.drop_first()))
    }
}

/// The plain harmony sum of a whole chord over the whole store.
pub open spec fn qv_harmony_sum(chord: Seq<Frac>, mem: Seq<(Frac, Ratio)>) -> Qv
    decreases chord.len(),
{
    if chord.len() == 0 {
        qv_zero()
    } else {
        qv_add(qv_row_sum(chord[0], mem), qv_harmony_sum(chord.drop_first(), mem))
    }
}

/// The harmony measure as a plain rational value: the sum averaged over
/// all note/entry pairs, zero where there are none.
pub open spec fn qv_harmony_measure(chord: Seq<Frac>, mem: Seq<(Frac, Ratio)>) -> Qv {
    if mem.len() == 0 || chord.len() == 0 {
        qv_zero()
    } else {
        let s = qv_harmony_sum(chord, mem);
        Qv { n: s.n, d: s.d * ((chord.len() * mem.len()) as int) }
    }
}

proof fn lemma_sub_memory_wf(mem: Seq<(Frac, Ratio)>)
    requires
        memory_wf(mem),
        mem.len() > 0,
    ensures
        memory_wf(mem.drop_first()),
{
    assert(forall|j: int|
        0 <= j < mem.drop_first().len() ==> #[trigger] mem.drop_first()[j] == mem[j + 1]);
}

proof fn lemma_qv_term_wf(note: Frac, e: (Frac, Ratio))
    requires
        ratio_wf(e.1),
    ensures
        qv_wf(qv_term(note, e)),
{
    assert((e.1.num as int) * (combined_num(note, e.0) as int) * (combined_den(note, e.0) as int)
        >= 0) by (nonlinear_arith);
}

/// The plain row sum is a well-formed value.
pub proof fn lemma_row_sum_wf(note: Frac, mem: Seq<(Frac, Ratio)>)
    requires
        memory_wf(mem),
    ensures
        qv_wf(qv_row_sum(note, mem)),
    decreases mem.len(),
{
    if mem.len() > 0 {
        lemma_sub_memory_wf(mem);
        lemma_row_sum_wf(note, mem.drop_first());
        lemma_qv_term_wf(note, mem[0]);
        assert(qv_wf(qv_add(qv_term(note, mem[0]), qv_row_sum(note, mem.drop_first()))))
            by (nonlinear_arith)
            requires
                qv_wf(qv_term(note, mem[0])),
                qv_wf(qv_row_sum(note, mem.drop_first())),
        {
        }
    }
}

/// The canonical row fold computes the plain row sum, shifted by its
/// starting accumulator.
pub proof fn lemma_row_value(note: Frac, mem: Seq<(Frac, Ratio)>, acc: Ratio)
    requires
        memory_wf(mem),
        ratio_wf(acc),
    ensures
        spec_row(note, mem, acc) matches Some(r) ==> ratio_wf(r) && qv_eq(
            ratio_val(r),
            qv_add(ratio_val(acc), qv_row_sum(note, mem)),
        ),
    decreases mem.len(),
{
    lemma_row_sum_wf(note, mem);
    if mem.len() == 0 {
        crate::arith::lemma_qv_add_zero(ratio_val(acc));
    } else {
        let e = mem[0];
        lemma_sub_memory_wf(mem);
        lemma_qv_term_wf(note, e);
        match spec_term(note, e) {
            None => {
            },
            Some(t) => {
                let cn = combined_num(note, e.0);
                let cd = combined_den(note, e.0);
                let m = (cn * cd) as u64;
                crate::ratio::lemma_spec_ratio_scale_value(e.1, m, 1);
                assert(qv_eq(qv_mul(ratio_val(e.1), Qv { n: m as int, d: 1 }), qv_term(note, e)))
                    by (nonlinear_arith)
                    requires
                        e.1.den >= 1,
                        m == cn * cd,
                        qv_mul(ratio_val(e.1), Qv { n: m as int, d: 1 }) == (Qv {
                            n: (e.1.num as int) * (m as int),
                            d: (e.1.den as int) * 1,
                        }),
                        qv_term(note, e) == (Qv {
                            n: (e.1.num as int) * (cn as int) * (cd as int),
                            d: e.1.den as int,
                        }),
                {
                }
                lemma_qv_eq_trans(
                    ratio_val(t),
                    qv_mul(ratio_val(e.1), Qv { n: m as int, d: 1 }),
                    qv_term(note, e),
                );
                match spec_ratio_add(acc, t) {
                    None => {
                    },
                    Some(acc2) => {
                        crate::ratio::lemma_spec_ratio_add_value(acc, t);
                        lemma_row_value(note, mem.drop_first(), acc2);
                        match spec_row(note, mem.drop_first(), acc2) {
                            None => {
                            },
                            Some(r) => {
                                let rest = qv_row_sum(note, mem.drop_first());
                                lemma_row_sum_wf(note, mem.drop_first());
                                crate::arith::lemma_qv_add_assoc(
                                    ratio_val(acc),
                                    ratio_val(t),
                                    rest,
                                );
                                lemma_qv_add_cong(
                                    qv_term(note, e),
                                    qv_term(note, e),
                                    rest,
                                    rest,
                                );
                                lemma_qv_add_cong(
                                    ratio_val(acc),
                                    ratio_val(acc),
                                    qv_add(qv_term(note, e), rest),
                                    qv_add(qv_term(note, e), rest),
                                );
                                lemma_qv_add_cong(
                                    ratio_val(acc2),
                                    qv_add(ratio_val(acc), ratio_val(t)),
                                    rest,
                                    rest,
                                );
                                crate::arith::lemma_qv_add_assoc(
                                    ratio_val(acc),
                                    ratio_val(t),
                                    rest,
                                );
                                lemma_qv_add_cong(
                                    ratio_val(t),
                                    qv_term(note, e),
                                    rest,
                                    rest,
                                );
                                lemma_qv_add_cong(
                                    ratio_val(acc),
                                    ratio_val(acc),
                                    qv_add(ratio_val(t), rest),
                                    qv_add(qv_term(note, e), rest),
                                );
                                lemma_qv_eq_trans(
                                    ratio_val(r),
                                    qv_add(ratio_val(acc2), rest),
                                    qv_add(qv_add(ratio_val(acc), ratio_val(t)), rest),
                                );
                                lemma_qv_eq_trans(
                                    ratio_val(r),
                                    qv_add(qv_add(ratio_val(acc), ratio_val(t)), rest),
                                    qv_add(ratio_val(acc), qv_add(ratio_val(t), rest)),
                                );
                                lemma_qv_eq_trans(
                                    ratio_val(r),
                                    qv_add(ratio_val(acc), qv_add(ratio_val(t), rest)),
                                    qv_add(ratio_val(acc), qv_add(qv_term(note, e), rest)),
                                );
                            },
                        }
                    },
                }
            },
        }
    }
}

/// The plain harmony sum is a well-formed value.
pub proof fn lemma_harmony_sum_wf(chord: Seq<Frac>, mem: Seq<(Frac, Ratio)>)
    requires
        memory_wf(mem),
    ensures
        qv_wf(qv_harmony_sum(chord, mem)),
    decreases chord.len(),
{
    if chord.len() > 0 {
        lemma_harmony_sum_wf(chord.drop_first(), mem);
        lemma_row_sum_wf(chord[0], mem);
        assert(qv_wf(qv_add(qv_row_sum(chord[0], mem), qv_harmony_sum(chord.drop_first(), mem))))
            by (nonlinear_arith)
            requires
                qv_wf(qv_row_sum(chord[0], mem)),
                qv_wf(qv_harmony_sum(chord.drop_first(), mem)),
        {
        }
    }
}

/// The canonical total fold computes the plain harmony sum, shifted by
/// its starting accumulator.
pub proof fn lemma_total_value(chord: Seq<Frac>, mem: Seq<(Frac, Ratio)>, acc: Ratio)
    requires
        memory_wf(mem),
        ratio_wf(acc),
    ensures
        spec_total(chord, mem, acc) matches Some(r) ==> ratio_wf(r) && qv_eq(
            ratio_val(r),
            qv_add(ratio_val(acc), qv_harmony_sum(chord, mem)),
        ),
    decreases chord.len(),
{
    lemma_harmony_sum_wf(chord, mem);
    if chord.len() == 0 {
        crate::arith::lemma_qv_add_zero(ratio_val(acc));
    } else {
        match spec_row(chord[0], mem, acc) {
            None => {
            },
            Some(a2) => {
                lemma_row_value(chord[0], mem, acc);
                lemma_total_value(chord.drop_first(), mem, a2);
                match spec_total(chord.drop_first(), mem, a2) {
                    None => {
                    },
                    Some(r) => {
                        let rs = qv_row_sum(chord[0], mem);
                        let rest = qv_harmony_sum(chord.drop_first(), mem);
                        lemma_row_sum_wf(chord[0], mem);
                        lemma_harmony_sum_wf(chord.drop_first(), mem);
                        crate::arith::lemma_qv_add_assoc(ratio_val(acc), rs, rest);
                        lemma_qv_add_cong(
                            ratio_val(a2),
                            qv_add(ratio_val(acc), rs),
                            rest,
                            rest,
                        );
                        lemma_qv_eq_trans(
                            ratio_val(r),
                            qv_add(ratio_val(a2), rest),
                            qv_add(qv_add(ratio_val(acc), rs), rest),
                        );
                        lemma_qv_eq_trans(
                            ratio_val(r),
                            qv_add(qv_add(ratio_val(acc), rs), rest),
                            qv_add(ratio_val(acc), qv_add(rs, rest)),
                        );
                    },
                }
            },
        }
    }
}

/// The harmony measure is exactly the familiarity-weighted average
/// roughness: where it is defined, its value equals the plain sum over
/// all note/entry pairs divided by the number of pairs.
pub proof fn lemma_harmony_value(chord: Seq<Frac>, mem: Seq<(Frac, Ratio)>)
    requires
        memory_wf(mem),
    ensures
        spec_harmony(chord, mem) matches Some(h) ==> ratio_wf(h) && qv_eq(
            ratio_val(h),
            qv_harmony_measure(chord, mem),
        ),
        qv_wf(qv_harmony_measure(chord, mem)),
{
    reveal_with_fuel(crate::arith::gcd, 3);
    let zero = Ratio { num: 0, den: 1 };
    assert(ratio_wf(zero));
    if mem.len() == 0 || chord.len() == 0 {
    } else {
        lemma_harmony_sum_wf(chord, mem);
        let total = qv_harmony_sum(chord, mem);
        let np = (chord.len() * mem.len()) as int;
        assert(np >= 1) by (nonlinear_arith)
            requires
                chord.len() >= 1,
                mem.len() >= 1,
                np == (chord.len() * mem.len()) as int,
        {
        }
        assert(qv_wf(qv_harmony_measure(chord, mem))) by (nonlinear_arith)
            requires
                qv_wf(total),
                np >= 1,
                qv_harmony_measure(chord, mem) == (Qv { n: total.n, d: total.d * np }),
        {
        }
        match spec_total(chord, mem, zero) {
            None => {
            },
            Some(s) => {
                lemma_total_value(chord, mem, zero);
                assert(qv_add(ratio_val(zero), total) == total) by (nonlinear_arith)
                    requires
                        qv_add(ratio_val(zero), total) == (Qv {
                            n: 0 * total.d + total.n * 1,
                            d: 1 * total.d,
                        }),
                {
                }
                if chord.len() * mem.len() <= u64::MAX {
                    let pairs = (chord.len() * mem.len()) as u64;
                    crate::ratio::lemma_spec_ratio_scale_value(s, 1, pairs);
                    match spec_ratio_scale(s, 1, pairs) {
                        None => {
                        },
                        Some(h) => {
                            let scaled = qv_mul(ratio_val(s), Qv { n: 1, d: pairs as int });
                            assert(qv_eq(scaled, qv_harmony_measure(chord, mem)))
                                by (nonlinear_arith)
                                requires
                                    qv_wf(ratio_val(s)),
                                    qv_wf(total),
                                    pairs as int == np,
                                    np >= 1,
                                    qv_eq(ratio_val(s), total),
                                    scaled == (Qv {
                                        n: (s.num as int) * 1,
                                        d: (s.den as int) * (pairs as int),
                                    }),
                                    qv_harmony_measure(chord, mem) == (Qv {
                                        n: total.n,
                                        d: total.d * np,
                                    }),
                            {
                            }
                            assert(qv_wf(scaled)) by (nonlinear_arith)
                                requires
                                    qv_wf(ratio_val(s)),
                                    pairs >= 1,
                                    scaled == (Qv {
                                        n: (s.num as int) * 1,
                                        d: (s.den as int) * (pairs as int),
                                    }),
                            {
                            }
                            lemma_qv_eq_trans(
                                ratio_val(h),
                                scaled,
                                qv_harmony_measure(chord, mem),
                            );
                        },
                    }
                }
            },
        }
    }
}

/// The plain familiarity sum of a chord, counting each occurrence.
pub open spec fn qv_novelty_sum(chord: Seq<Frac>, mem: Seq<(Frac, Ratio)>) -> Qv
    decreases chord.len(),
{
    if chord.len() == 0 {
        qv_zero()
    } else {
        qv_add(lookup_val(mem, chord[0]), qv_novelty_sum(chord.drop_first(), mem))
    }
}

/// The novelty measure as a plain rational value: the deviation of the
/// average familiarity from the target of one tenth.
pub open spec fn qv_novelty_measure(chord: Seq<Frac>, mem: Seq<(Frac, Ratio)>) -> Qv {
    let s = qv_novelty_sum(chord, mem);
    qv_abs_diff(Qv { n: s.n, d: s.d * chord.len() as int }, Qv { n: 1, d: 10 })
}

/// The plain familiarity sum is a well-formed value.
pub proof fn lemma_novelty_sum_wf(chord: Seq<Frac>, mem: Seq<(Frac, Ratio)>)
    requires
        memory_wf(mem),
    ensures
        qv_wf(qv_novelty_sum(chord, mem)),
    decreases chord.len(),
{
    if chord.len() > 0 {
        lemma_novelty_sum_wf(chord.drop_first(), mem);
        lemma_lookup_wf(mem, chord[0]);
        assert(qv_wf(lookup_val(mem, chord[0])));
        assert(qv_wf(qv_add(lookup_val(mem, chord[0]), qv_novelty_sum(chord.drop_first(), mem))))
            by (nonlinear_arith)
            requires
                qv_wf(lookup_val(mem, chord[0])),
                qv_wf(qv_novelty_sum(chord.drop_first(), mem)),
        {
        }
    }
}

/// The canonical familiarity fold computes the plain sum, shifted by
/// its starting accumulator.
pub proof fn lemma_novelty_sum_value(chord: Seq<Frac>, mem: Seq<(Frac, Ratio)>, acc: Ratio)
    requires
        memory_wf(mem),
        ratio_wf(acc),
    ensures
        spec_novelty_sum(chord, mem, acc) matches Some(r) ==> ratio_wf(r) && qv_eq(
            ratio_val(r),
            qv_add(ratio_val(acc), qv_novelty_sum(chord, mem)),
        ),
    decreases chord.len(),
{
    lemma_novelty_sum_wf(chord, mem);
    if chord.len() == 0 {
        crate::arith::lemma_qv_add_zero(ratio_val(acc));
    } else {
        let st = match spec_lookup(mem, chord[0]) {
            None => Ratio { num: 0, den: 1 },
            Some(v) => v,
        };
        lemma_lookup_wf(mem, chord[0]);
        reveal_with_fuel(crate::arith::gcd, 3);
        assert(ratio_wf(st));
        assert(ratio_val(st) == lookup_val(mem, chord[0]));
        match spec_ratio_add(acc, st) {
            None => {
            },
            Some(a2) => {
                crate::ratio::lemma_spec_ratio_add_value(acc, st);
                lemma_novelty_sum_value(chord.drop_first(), mem, a2);
                match spec_novelty_sum(chord.drop_first(), mem, a2) {
                    None => {
                    },
                    Some(r) => {
                        let rest = qv_novelty_sum(chord.drop_first(), mem);
                        lemma_novelty_sum_wf(chord.drop_first(), mem);
                        crate::arith::lemma_qv_add_assoc(ratio_val(acc), ratio_val(st), rest);
                        lemma_qv_add_cong(
                            ratio_val(a2),
                            qv_add(ratio_val(acc), ratio_val(st)),
                            rest,
                            rest,
                        );
                        lemma_qv_eq_trans(
                            ratio_val(r),
                            qv_add(ratio_val(a2), rest),
                            qv_add(qv_add(ratio_val(acc), ratio_val(st)), rest),
                        );
                        lemma_qv_eq_trans(
                            ratio_val(r),
                            qv_add(qv_add(ratio_val(acc), ratio_val(st)), rest),
                            qv_add(ratio_val(acc), qv_add(ratio_val(st), rest)),
                        );
                    },
                }
            },
        }
    }
}

/// The novelty measure is exactly the deviation of the chord's average
/// familiarity from the target of one tenth.
pub proof fn lemma_novelty_value(chord: Seq<Frac>, mem: Seq<(Frac, Ratio)>)
    requires
        memory_wf(mem),
        1 <= chord.len() <= u64::MAX,
    ensures
        spec_novelty(chord, mem) matches Some(d) ==> ratio_wf(d) && qv_eq(
            ratio_val(d),
            qv_novelty_measure(chord, mem),
        ),
{
    reveal_with_fuel(crate::arith::gcd, 4);
    let zero = Ratio { num: 0, den: 1 };
    let tenth = Ratio { num: 1, den: 10 };
    assert(ratio_wf(zero));
    assert(ratio_wf(tenth));
    let total = qv_novelty_sum(chord, mem);
    lemma_novelty_sum_wf(chord, mem);
    match spec_novelty_sum(chord, mem, zero) {
        None => {
        },
        Some(s) => {
            lemma_novelty_sum_value(chord, mem, zero);
            assert(qv_add(ratio_val(zero), total) == total) by (nonlinear_arith)
                requires
                    qv_add(ratio_val(zero), total) == (Qv {
                        n: 0 * total.d + total.n * 1,
                        d: 1 * total.d,
                    }),
            {
            }
            let len = chord.len() as u64;
            crate::ratio::lemma_spec_ratio_scale_value(s, 1, len);
            match spec_ratio_scale(s, 1, len) {
                None => {
                },
                Some(avg) => {
                    let scaled = qv_mul(ratio_val(s), Qv { n: 1, d: len as int });
                    let target = Qv { n: total.n, d: total.d * chord.len() as int };
                    assert(qv_eq(scaled, target) && qv_wf(scaled) && qv_wf(target))
                        by (nonlinear_arith)
                        requires
                            qv_wf(ratio_val(s)),
                            qv_wf(total),
                            len as int == chord.len() as int,
                            len >= 1,
                            qv_eq(ratio_val(s), total),
                            scaled == (Qv {
                                n: (s.num as int) * 1,
                                d: (s.den as int) * (len as int),
                            }),
                            target == (Qv { n: total.n, d: total.d * chord.len() as int }),
                    {
                    }
                    lemma_qv_eq_trans(ratio_val(avg), scaled, target);
                    crate::ratio::lemma_spec_ratio_abs_diff_value(avg, tenth);
                    crate::arith::lemma_qv_abs_diff_cong(
                        ratio_val(avg),
                        target,
                        Qv { n: 1, d: 10 },
                    );
                    match spec_ratio_abs_diff(avg, tenth) {
                        None => {
                        },
                        Some(d) => {
                            assert(ratio_val(tenth) == Qv { n: 1, d: 10 });
                            lemma_qv_eq_trans(
                                ratio_val(d),
                                qv_abs_diff(ratio_val(avg), Qv { n: 1, d: 10 }),
                                qv_novelty_measure(chord, mem),
                            );
                        },
                    }
                },
            }
        },
    }
}

/// The pair of measures that rank a candidate chord.
///
/// The combined judgement of the engine is the mean of the two squashed
/// penalties; since squashing is applied downstream, the exact engine
/// hands out both measures.
#[derive(Clone, Copy, PartialEq, Eq, Structural, Debug)]
pub struct Measures {
    pub harmony: Ratio,
    pub novelty: Ratio,
}

/// Both measures of a candidate chord, harmony first.
pub fn judge(chord: &Vec<Frac>, memory: &Memory) -> (r: Result<Measures, EngineError>)
    requires
        chord_wf(chord@),
        memory_wf(memory@),
    ensures
        match r {
            Ok(ms) => {
                &&& Some(ms.harmony) == spec_harmony(chord@, memory@)
                &&& chord@.len() >= 1
                &&& Some(ms.novelty) == spec_novelty(chord@, memory@)
                &&& ratio_wf(ms.harmony) && ratio_wf(ms.novelty)
            },
            Err(EngineError::EmptyChord) => chord@.len() == 0,
            Err(EngineError::Overflow) => spec_harmony(chord@, memory@) is None || (
            chord@.len() >= 1 && spec_novelty(chord@, memory@) is None),
            Err(_) => false,
        },
{
    let harmony = match judge_harmony(chord, memory) {
        Ok(h) => h,
        Err(e) => {
            return Err(e);
        },
    };
    let novelty = match judge_novelty(chord, memory) {
        Ok(d) => d,
        Err(e) => {
            return Err(e);
        },
    };
    Ok(Measures { harmony, novelty })
}

} // verus!

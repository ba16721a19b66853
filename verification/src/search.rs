//! Hill-climbing chord search: single-note substitutions.
//!
//! One step enumerates, for every position of the chord and every
//! candidate fraction with numerator and denominator from one to eleven,
//! the trial chord obtained by replacing that position in place with the
//! canonical candidate — every other position keeps its place — skipping
//! candidates already present anywhere in the chord.  The caller scores every trial (the squashing of the exact
//! measures into a single penalty is outside the exact engine) and hands
//! back one order key per trial, lower meaning better; the selection then
//! keeps the first trial strictly better than everything before it,
//! starting from the unchanged chord at the worst possible key.

use vstd::prelude::*;
use crate::frac::{
    chord_distinct, chord_wf, note_wf, simplify, spec_simplify, Frac,
};
use crate::EngineError;

verus! {

impl DeepView for Frac {
    type V = Frac;

    open spec fn deep_view(&self) -> Frac {
        *self
    }
}

/// The trial chord: the candidate in place of position `i`, every other
/// position unchanged.
pub open spec fn spec_trial(chord: Seq<Frac>, i: int, cand: Frac) -> Seq<Frac> {
    chord.update(i, cand)
}

/// All trial chords from counter position `(i, a, b)` on, in search
/// order: position-major, then numerator, then denominator, ascending.
pub open spec fn spec_trials_from(chord: Seq<Frac>, i: nat, a: nat, b: nat) -> Seq<Seq<Frac>>
    decreases chord.len() - i, 12 - a, 12 - b,
{
    if i >= chord.len() {
        Seq::empty()
    } else if a >= 12 {
        spec_trials_from(chord, i + 1, 1, 1)
    } else if b >= 12 {
        spec_trials_from(chord, i, a + 1, 1)
    } else {
        let cand = spec_simplify(Frac { num: a as u64, den: b as u64 });
        let rest = spec_trials_from(chord, i, a, b + 1);
        if chord.contains(cand) {
            rest
        } else {
            seq![spec_trial(chord, i as int, cand)] + rest
        }
    }
}

/// The whole list of trial chords of one search step.
pub open spec fn spec_trials(chord: Seq<Frac>) -> Seq<Seq<Frac>> {
    spec_trials_from(chord, 0, 1, 1)
}

/// A trial keeps the chord's length, its well-formedness, and its
/// freedom from duplicates.
pub proof fn lemma_trial_shape(chord: Seq<Frac>, i: int, cand: Frac)
    requires
        0 <= i < chord.len(),
        !chord.contains(cand),
    ensures
        spec_trial(chord, i, cand).len() == chord.len(),
        chord_wf(chord) && note_wf(cand) ==> chord_wf(spec_trial(chord, i, cand)),
        chord_distinct(chord) ==> chord_distinct(spec_trial(chord, i, cand)),
{
    let t = spec_trial(chord, i, cand);
    assert(t.len() == chord.len());
    assert(forall|x: int| 0 <= x < t.len() && x != i ==> #[trigger] t[x] == chord[x]);
    assert(t[i] == cand);
    if chord_wf(chord) && note_wf(cand) {
        assert forall|x: int| 0 <= x < t.len() implies note_wf(#[trigger] t[x]) by {
            if x != i {
                assert(t[x] == chord[x]);
            }
        }
    }
    if chord_distinct(chord) {
        assert forall|x: int, y: int| 0 <= x < y < t.len() implies (#[trigger] t[x])
            != (#[trigger] t[y]) by {
            if x != i && y != i {
                assert(t[x] == chord[x] && t[y] == chord[y]);
            } else if t[x] == cand && x != i {
                assert(chord[x] == cand);
                assert(chord.contains(cand));
            } else if t[y] == cand && y != i {
                assert(chord[y] == cand);
                assert(chord.contains(cand));
            }
        }
    }
}

/// Every trial of a step keeps length, well-formedness and distinctness.
pub proof fn lemma_trials_shape(chord: Seq<Frac>, i: nat, a: nat, b: nat)
    requires
        a >= 1,
        b >= 1,
    ensures
        forall|x: int|
            0 <= x < spec_trials_from(chord, i, a, b).len() ==> {
                let t = #[trigger] spec_trials_from(chord, i, a, b)[x];
                &&& t.len() == chord.len()
                &&& (chord_wf(chord) ==> chord_wf(t))
                &&& (chord_distinct(chord) ==> chord_distinct(t))
            },
    decreases chord.len() - i, 12 - a, 12 - b,
{
    if i >= chord.len() {
    } else if a >= 12 {
        lemma_trials_shape(chord, i + 1, 1, 1);
        assert(spec_trials_from(chord, i, a, b) == spec_trials_from(chord, i + 1, 1, 1));
        assert forall|x: int| 0 <= x < spec_trials_from(chord, i, a, b).len() implies {
            let t = #[trigger] spec_trials_from(chord, i, a, b)[x];
            &&& t.len() == chord.len()
            &&& (chord_wf(chord) ==> chord_wf(t))
            &&& (chord_distinct(chord) ==> chord_distinct(t))
        } by {
            assert(spec_trials_from(chord, i, a, b)[x] == spec_trials_from(
                chord,
                i + 1,
                1,
                1,
            )[x]);
        }
    } else if b >= 12 {
        lemma_trials_shape(chord, i, a + 1, 1);
        assert(spec_trials_from(chord, i, a, b) == spec_trials_from(chord, i, a + 1, 1));
        assert forall|x: int| 0 <= x < spec_trials_from(chord, i, a, b).len() implies {
            let t = #[trigger] spec_trials_from(chord, i, a, b)[x];
            &&& t.len() == chord.len()
            &&& (chord_wf(chord) ==> chord_wf(t))
            &&& (chord_distinct(chord) ==> chord_distinct(t))
        } by {
            assert(spec_trials_from(chord, i, a, b)[x] == spec_trials_from(
                chord,
                i,
                a + 1,
                1,
            )[x]);
        }
    } else {
        let cand = spec_simplify(Frac { num: a as u64, den: b as u64 });
        lemma_trials_shape(chord, i, a, b + 1);
        let rest = spec_trials_from(chord, i, a, b + 1);
        if chord.contains(cand) {
            assert(spec_trials_from(chord, i, a, b) == rest);
            assert forall|x: int| 0 <= x < spec_trials_from(chord, i, a, b).len() implies {
                let t = #[trigger] spec_trials_from(chord, i, a, b)[x];
                &&& t.len() == chord.len()
                &&& (chord_wf(chord) ==> chord_wf(t))
                &&& (chord_distinct(chord) ==> chord_distinct(t))
            } by {
                assert(spec_trials_from(chord, i, a, b)[x] == rest[x]);
            }
        }
        if !chord.contains(cand) {
            let f = Frac { num: a as u64, den: b as u64 };
            assert(f.den >= 1 && f.num >= 1);
            crate::frac::lemma_reduced(f.num as nat, f.den as nat);
            assert(note_wf(cand));
            lemma_trial_shape(chord, i as int, cand);
            let whole = seq![spec_trial(chord, i as int, cand)] + rest;
            assert(spec_trials_from(chord, i, a, b) == whole);
            assert forall|x: int| 0 <= x < whole.len() implies {
                let t = #[trigger] whole[x];
                &&& t.len() == chord.len()
                &&& (chord_wf(chord) ==> chord_wf(t))
                &&& (chord_distinct(chord) ==> chord_distinct(t))
            } by {
                if x == 0 {
                    assert(whole[0] == spec_trial(chord, i as int, cand));
                } else {
                    assert(whole[x] == rest[x - 1]);
                }
            }
            assert forall|x: int| 0 <= x < spec_trials_from(chord, i, a, b).len() implies {
                let t = #[trigger] spec_trials_from(chord, i, a, b)[x];
                &&& t.len() == chord.len()
                &&& (chord_wf(chord) ==> chord_wf(t))
                &&& (chord_distinct(chord) ==> chord_distinct(t))
            } by {
                assert(spec_trials_from(chord, i, a, b)[x] == whole[x]);
            }
        }
    }
}

/// The selection fold: from counter `j` on, adopt a trial whenever its
/// key is strictly below the best key so far; first win on ties.
pub open spec fn spec_select(
    trials: Seq<Seq<Frac>>,
    keys: Seq<u64>,
    j: int,
    best: Seq<Frac>,
    best_key: u64,
) -> Seq<Frac>
    decreases trials.len() - j,
{
    if j < 0 || j >= trials.len() {
        best
    } else if keys[j] < best_key {
        spec_select(trials, keys, j + 1, trials[j], keys[j])
    } else {
        spec_select(trials, keys, j + 1, best, best_key)
    }
}

/// What selection can return: the running best, or a later trial whose
/// key beats the running best key.
pub proof fn lemma_select_shape(
    trials: Seq<Seq<Frac>>,
    keys: Seq<u64>,
    j: int,
    best: Seq<Frac>,
    best_key: u64,
)
    ensures
        spec_select(trials, keys, j, best, best_key) == best || exists|x: int|
            0 <= x < trials.len() && spec_select(trials, keys, j, best, best_key) == #[trigger]
            trials[x] && keys[x] < best_key,
    decreases trials.len() - j,
{
    if j < 0 || j >= trials.len() {
    } else if keys[j] < best_key {
        lemma_select_shape(trials, keys, j + 1, trials[j], keys[j]);
    } else {
        lemma_select_shape(trials, keys, j + 1, best, best_key);
    }
}

/// Does the chord already contain this note?
fn chord_contains(chord: &Vec<Frac>, f: Frac) -> (r: bool)
    ensures
        r == chord@.contains(f),
{
    let mut i: usize = 0;
    while i < chord.len()
        invariant
            0 <= i <= chord@.len(),
            forall|j: int| 0 <= j < i ==> chord@[j] != f,
        decreases chord@.len() - i,
    {
        if chord[i] == f {
            return true;
        }
        i = i + 1;
    }
    proof {
        assert(!chord@.contains(f));
    }
    false
}

/// Copy a chord note for note.
fn copy_chord(chord: &Vec<Frac>) -> (r: Vec<Frac>)
    ensures
        r@ == chord@,
{
    let mut out: Vec<Frac> = Vec::new();
    let mut i: usize = 0;
    while i < chord.len()
        invariant
            0 <= i <= chord@.len(),
            out@.len() == i,
            forall|j: int| 0 <= j < i ==> #[trigger] out@[j] == chord@[j],
        decreases chord@.len() - i,
    {
        let e = chord[i];
        out.push(e);
        i = i + 1;
    }
    proof {
        assert(out@ =~= chord@);
    }
    out
}

/// Build one trial chord in executable form.
fn make_trial(chord: &Vec<Frac>, i: usize, cand: Frac) -> (r: Vec<Frac>)
    requires
        i < chord@.len(),
    ensures
        r@ == spec_trial(chord@, i as int, cand),
{
    let mut out: Vec<Frac> = Vec::new();
    let mut j: usize = 0;
    while j < chord.len()
        invariant
            0 <= j <= chord@.len(),
            i < chord@.len(),
            out@.len() == j,
            forall|x: int|
                0 <= x < j ==> #[trigger] out@[x] == if x == i {
                    cand
                } else {
                    chord@[x]
                },
        decreases chord@.len() - j,
    {
        if j == i {
            out.push(cand);
        } else {
            let e = chord[j];
            out.push(e);
        }
        j = j + 1;
    }
    proof {
        assert(out@ =~= spec_trial(chord@, i as int, cand));
    }
    out
}

/// Enumerate every trial chord of one search step, in search order.
pub fn step_trials(chord: &Vec<Frac>) -> (r: Vec<Vec<Frac>>)
    ensures
        r.deep_view() == spec_trials(chord@),
{
    let ghost cs = chord@;
    let mut trials: Vec<Vec<Frac>> = Vec::new();
    let mut i: usize = 0;
    while i < chord.len()
        invariant
            0 <= i <= cs.len(),
            cs == chord@,
            trials.deep_view() + spec_trials_from(cs, i as nat, 1, 1) == spec_trials(cs),
        decreases cs.len() - i,
    {
        let mut a: u64 = 1;
        while a < 12
            invariant
                1 <= a <= 12,
                0 <= i < cs.len(),
                cs == chord@,
                trials.deep_view() + spec_trials_from(cs, i as nat, a as nat, 1) == spec_trials(
                    cs,
                ),
            decreases 12 - a,
        {
            let mut b: u64 = 1;
            while b < 12
                invariant
                    1 <= a < 12,
                    1 <= b <= 12,
                    0 <= i < cs.len(),
                    cs == chord@,
                    trials.deep_view() + spec_trials_from(cs, i as nat, a as nat, b as nat)
                        == spec_trials(cs),
                decreases 12 - b,
            {
                let cand = simplify(Frac { num: a, den: b });
                let ghost before = trials.deep_view();
                if !chord_contains(chord, cand) {
                    let t = make_trial(chord, i, cand);
                    trials.push(t);
                    proof {
                        assert(trials.deep_view() =~~= before.push(t@));
                        assert(spec_trials_from(cs, i as nat, a as nat, b as nat) == seq![
                            spec_trial(cs, i as int, cand),
                        ] + spec_trials_from(cs, i as nat, a as nat, b as nat + 1));
                        assert(before.push(t@) + spec_trials_from(
                            cs,
                            i as nat,
                            a as nat,
                            b as nat + 1,
                        ) =~~= before + spec_trials_from(cs, i as nat, a as nat, b as nat));
                    }
                } else {
                    proof {
                        assert(spec_trials_from(cs, i as nat, a as nat, b as nat)
                            == spec_trials_from(cs, i as nat, a as nat, b as nat + 1));
                    }
                }
                b = b + 1;
            }
            a = a + 1;
        }
        i = i + 1;
    }
    trials
}

/// One search step: keep the first strict improvement under the caller's
/// order keys.
///
/// `keys` holds one order key per trial chord of `step_trials`, in the
/// same order; a lower key means a better combined judgement.
/// `worst_key` is the key of the worst possible judgement, the starting
/// best.  The result is the unchanged chord, or the trial that the fold
/// over the keys selects: it keeps the chord's length, never introduces
/// a duplicate note, and, when it differs from the chord, its key is
/// strictly below `worst_key`.
pub fn step_notes(chord: &Vec<Frac>, keys: &Vec<u64>, worst_key: u64) -> (r: Result<
    Vec<Frac>,
    EngineError,
>)
    ensures
        match r {
            Ok(v) => {
                &&& keys@.len() == spec_trials(chord@).len()
                &&& v@ == spec_select(spec_trials(chord@), keys@, 0, chord@, worst_key)
                &&& v@.len() == chord@.len()
                &&& (chord_wf(chord@) ==> chord_wf(v@))
                &&& (chord_distinct(chord@) ==> chord_distinct(v@))
                &&& (v@ == chord@ || exists|x: int|
                    0 <= x < spec_trials(chord@).len() && v@ == #[trigger] spec_trials(
                        chord@,
                    )[x] && keys@[x] < worst_key)
            },
            Err(e) => e == EngineError::KeyCountMismatch && keys@.len() != spec_trials(
                chord@,
            ).len(),
        },
{
    let trials = step_trials(chord);
    if keys.len() != trials.len() {
        proof {
            assert(keys@.len() != trials.deep_view().len());
        }
        return Err(EngineError::KeyCountMismatch);
    }
    let ghost ts = trials.deep_view();
    let mut best = copy_chord(chord);
    let mut best_key = worst_key;
    let mut j: usize = 0;
    while j < trials.len()
        invariant
            0 <= j <= ts.len(),
            ts == trials.deep_view(),
            ts.len() == trials@.len(),
            keys@.len() == ts.len(),
            spec_select(ts, keys@, j as int, best@, best_key) == spec_select(
                ts,
                keys@,
                0,
                chord@,
                worst_key,
            ),
        decreases ts.len() - j,
    {
        proof {
            assert(ts[j as int] == trials@[j as int]@);
        }
        if keys[j] < best_key {
            best = copy_chord(&trials[j]);
            best_key = keys[j];
        }
        j = j + 1;
    }
    proof {
        lemma_select_shape(ts, keys@, 0, chord@, worst_key);
        lemma_trials_shape(chord@, 0, 1, 1);
    }
    Ok(best)
}

} // verus!

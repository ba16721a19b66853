use chord_engine::engine::{initial_chord, WindowClock};
use chord_engine::frac::{combine, simplify, Frac};
use chord_engine::judge::{judge, judge_harmony, judge_novelty, Measures};
use chord_engine::memory::{forget, remember, Memory};
use chord_engine::ratio::{ratio_new, Ratio};
use chord_engine::search::{step_notes, step_trials};
use chord_engine::EngineError;

use std::hash::{Hash, Hasher};

fn frac(n: u64, d: u64) -> Frac {
    Frac { num: n, den: d }
}

fn ratio(n: u64, d: u64) -> Ratio {
    ratio_new(n, d).unwrap()
}

/// The downstream squashing of the exact measures into one penalty,
/// exactly as the audio driver applies it.
fn squash(m: &Measures) -> f64 {
    let h = m.harmony.num as f64 / m.harmony.den as f64;
    let n = m.novelty.num as f64 / m.novelty.den as f64;
    let sh = (1.0 - 1.0 / (h / 5.0).exp()).max(0.0).min(1.0);
    let sn = (1.0 - 1.0 / n.exp()).max(0.0).min(1.0);
    (sh + sn) / 2.0
}

fn hash_of(f: &Frac) -> u64 {
    let mut h = std::hash::DefaultHasher::new();
    f.hash(&mut h);
    h.finish()
}

#[test]
fn canonicalize_idempotent() {
    let c = simplify(frac(6, 4));
    assert_eq!(c, frac(3, 2));
    assert_eq!(simplify(c), c);
    let already = frac(5, 7);
    assert_eq!(simplify(already), already);
}

#[test]
fn canonicalize_scaled_pairs_agree() {
    // (a * k, b * k) canonicalizes like (a, b)
    assert_eq!(simplify(frac(2, 4)), simplify(frac(1, 2)));
    assert_eq!(simplify(frac(30, 45)), simplify(frac(2, 3)));
    assert_eq!(simplify(frac(7 * 9, 11 * 9)), simplify(frac(7, 11)));
}

#[test]
fn equal_canonical_forms_are_equal_and_hash_identically() {
    let a = simplify(frac(2, 4));
    let b = simplify(frac(3, 6));
    assert_eq!(a, frac(1, 2));
    assert_eq!(b, frac(1, 2));
    assert_eq!(a, b);
    assert_eq!(hash_of(&a), hash_of(&b));
}

#[test]
fn combine_reduces_the_cross_ratio() {
    // the interval between 1/2 and 1/1 is 1/2
    let c = combine(frac(1, 2), frac(1, 1)).unwrap();
    assert_eq!(c, frac(1, 2));
    // the interval between 3/2 and 5/4 is (3*4)/(5*2) = 6/5
    let c2 = combine(frac(3, 2), frac(5, 4)).unwrap();
    assert_eq!(c2, frac(6, 5));
}

#[test]
fn combine_rejects_zero_denominators() {
    assert_eq!(
        combine(frac(1, 0), frac(1, 2)),
        Err(EngineError::DivisionByZero)
    );
    assert_eq!(
        combine(frac(1, 2), frac(0, 1)),
        Err(EngineError::DivisionByZero)
    );
}

#[test]
fn frac_new_rejects_zero_denominator_at_construction() {
    assert_eq!(chord_engine::frac::frac_new(1, 0), Err(EngineError::DivisionByZero));
    assert_eq!(chord_engine::frac::frac_new(0, 0), Err(EngineError::DivisionByZero));
    assert_eq!(chord_engine::frac::frac_new(2, 4), Ok(frac(1, 2)));
    assert_eq!(chord_engine::frac::frac_new(7, 7), Ok(frac(1, 1)));
}

#[test]
fn ratio_new_rejects_zero_denominator() {
    assert_eq!(ratio_new(1, 0), Err(EngineError::DivisionByZero));
    assert_eq!(ratio_new(4, 6), Ok(Ratio { num: 2, den: 3 }));
}

#[test]
fn scores_stay_within_unit_interval() {
    // squashed penalties lie in [0, 1] for a spread of inputs
    let mut memory = Memory::new();
    let chords = [
        vec![frac(1, 1)],
        vec![frac(1, 2), frac(11, 7)],
        initial_chord(),
    ];
    for round in 0..3 {
        for chord in chords.iter() {
            let ms = judge(chord, &memory).unwrap();
            let s = squash(&ms);
            assert!((0.0..=1.0).contains(&s), "round {round}: {s}");
            let h = judge_harmony(chord, &memory).unwrap();
            let n = judge_novelty(chord, &memory).unwrap();
            assert_eq!(h, ms.harmony);
            assert_eq!(n, ms.novelty);
        }
        memory = remember(&chords[round % 3], &memory).unwrap();
        memory = forget(&memory).unwrap();
    }
}

#[test]
fn decay_scales_every_entry_by_three_quarters() {
    let memory = Memory::new()
        .insert(frac(1, 1), ratio(1, 10))
        .insert(frac(1, 2), ratio(2, 1));
    let decayed = forget(&memory).unwrap();
    assert_eq!(decayed.lookup(frac(1, 1)), Some(Ratio { num: 3, den: 40 }));
    assert_eq!(decayed.lookup(frac(1, 2)), Some(Ratio { num: 3, den: 2 }));
    assert_eq!(decayed.len(), 2);
}

#[test]
fn decay_overflow_is_reported() {
    let memory = Memory::new().insert(frac(1, 1), ratio(u64::MAX, 1));
    assert!(matches!(forget(&memory), Err(EngineError::Overflow)));
}

#[test]
fn reinforcement_counts_repeated_intervals_twice() {
    let chord = vec![frac(1, 1), frac(1, 1)];
    let memory = remember(&chord, &Memory::new()).unwrap();
    // two increments of one tenth: one fifth in lowest terms
    assert_eq!(memory.lookup(frac(1, 1)), Some(Ratio { num: 1, den: 5 }));
    assert_eq!(memory.len(), 1);
}

#[test]
fn reinforce_then_decay_round_trip() {
    let chord = vec![frac(1, 1), frac(1, 2)];
    let memory = remember(&chord, &Memory::new()).unwrap();
    assert_eq!(memory.lookup(frac(1, 1)), Some(Ratio { num: 1, den: 10 }));
    assert_eq!(memory.lookup(frac(1, 2)), Some(Ratio { num: 1, den: 10 }));
    assert_eq!(memory.len(), 2);
    let decayed = forget(&memory).unwrap();
    assert_eq!(decayed.lookup(frac(1, 1)), Some(Ratio { num: 3, den: 40 }));
    assert_eq!(decayed.lookup(frac(1, 2)), Some(Ratio { num: 3, den: 40 }));
    assert_eq!(decayed.len(), 2);
}

#[test]
fn harmony_with_empty_memory_is_neutral_zero() {
    let chord = vec![frac(1, 1)];
    let memory = Memory::new();
    assert_eq!(judge_harmony(&chord, &memory), Ok(Ratio { num: 0, den: 1 }));
    let d = judge_novelty(&chord, &memory).unwrap();
    // average familiarity 0, disparity |1/10 - 0| = 1/10
    assert_eq!(d, Ratio { num: 1, den: 10 });
    let s = 1.0 - 1.0 / (0.1f64).exp();
    assert!((s - 0.0952).abs() < 1e-3);
}

#[test]
fn harmony_of_known_scenario_is_two() {
    let memory = Memory::new().insert(frac(1, 1), ratio(1, 1));
    let chord = vec![frac(1, 2)];
    // one pair: combined ratio (1,2), term 1 * 1 * 2 = 2, average 2/1
    assert_eq!(judge_harmony(&chord, &memory), Ok(Ratio { num: 2, den: 1 }));
    let s = 1.0 - 1.0 / (2.0f64 / 5.0).exp();
    assert!((s - 0.330).abs() < 1e-3);
}

#[test]
fn novelty_of_empty_chord_is_rejected() {
    let chord: Vec<Frac> = Vec::new();
    assert_eq!(
        judge_novelty(&chord, &Memory::new()),
        Err(EngineError::EmptyChord)
    );
    assert_eq!(judge(&chord, &Memory::new()), Err(EngineError::EmptyChord));
}

#[test]
fn step_keeps_length_and_distinctness() {
    let chord = initial_chord();
    let memory = remember(&chord, &Memory::new()).unwrap();
    let trials = step_trials(&chord);
    let mut keys: Vec<u64> = Vec::new();
    for t in trials.iter() {
        let ms = judge(t, &memory).unwrap();
        keys.push(squash(&ms).to_bits());
    }
    let next = step_notes(&chord, &keys, 1.0f64.to_bits()).unwrap();
    assert_eq!(next.len(), chord.len());
    for i in 0..next.len() {
        for j in 0..i {
            assert_ne!(next[i], next[j]);
        }
    }
}

#[test]
fn step_with_no_improvement_returns_the_chord() {
    let chord = initial_chord();
    let trials = step_trials(&chord);
    // every key equal to the worst: no strict improvement exists
    let keys: Vec<u64> = vec![7; trials.len()];
    let next = step_notes(&chord, &keys, 7).unwrap();
    assert_eq!(next, chord);
}

#[test]
fn step_selects_the_first_best_key() {
    let chord = initial_chord();
    let trials = step_trials(&chord);
    assert!(trials.len() > 3);
    let mut keys: Vec<u64> = vec![10; trials.len()];
    keys[2] = 4;
    keys[3] = 4; // tie: the earlier candidate wins
    let next = step_notes(&chord, &keys, 10).unwrap();
    assert_eq!(next, trials[2]);
}

#[test]
fn step_matches_an_independent_argmin() {
    let memory = remember(&vec![frac(1, 1), frac(2, 1)], &Memory::new()).unwrap();
    let chord = vec![frac(1, 2), frac(3, 2)];
    let trials = step_trials(&chord);
    let mut keys: Vec<u64> = Vec::new();
    let mut scores: Vec<f64> = Vec::new();
    for t in trials.iter() {
        let s = squash(&judge(t, &memory).unwrap());
        scores.push(s);
        keys.push(s.to_bits());
    }
    let next = step_notes(&chord, &keys, 1.0f64.to_bits()).unwrap();
    // replay the fold in floats
    let mut best = chord.clone();
    let mut best_score = 1.0f64;
    for (t, s) in trials.iter().zip(scores.iter()) {
        if *s < best_score {
            best = t.clone();
            best_score = *s;
        }
    }
    assert_eq!(next, best);
    let selected = squash(&judge(&next, &memory).unwrap());
    assert!(selected <= 1.0);
}

#[test]
fn step_rejects_mismatched_keys() {
    let chord = initial_chord();
    let keys: Vec<u64> = vec![0; 3];
    assert_eq!(
        step_notes(&chord, &keys, 0),
        Err(EngineError::KeyCountMismatch)
    );
}

#[test]
fn trial_candidates_are_canonical_and_fresh() {
    let chord = initial_chord();
    let trials = step_trials(&chord);
    // every trial replaces exactly one position in place with a canonical
    // candidate that the chord did not hold; every other position keeps
    // its place
    for t in trials.iter() {
        assert_eq!(t.len(), chord.len());
        let changed: Vec<usize> = (0..t.len()).filter(|&i| t[i] != chord[i]).collect();
        assert_eq!(changed.len(), 1);
        let cand = t[changed[0]];
        assert!(!chord.contains(&cand));
        assert_eq!(simplify(cand), cand);
        assert!(cand.num >= 1 && cand.num <= 11);
        assert!(cand.den >= 1 && cand.den <= 11);
    }
}

#[test]
fn window_clock_signals_each_boundary() {
    let mut clock = WindowClock::new(3);
    assert!(!clock.tick());
    assert!(!clock.tick());
    assert!(clock.tick());
    assert!(!clock.tick());
    assert!(!clock.tick());
    assert!(clock.tick());
}

#[test]
fn seed_chord_is_the_expected_drone() {
    let chord = initial_chord();
    assert_eq!(
        chord,
        vec![frac(1, 2), frac(1, 1), frac(1, 3), frac(1, 5), frac(1, 7)]
    );
}

#[test]
fn evolution_step_keeps_the_engine_invariants() {
    // one full window step: decay, search, reinforce
    let mut chord = initial_chord();
    let mut memory = Memory::new();
    for _ in 0..4 {
        memory = forget(&memory).unwrap();
        let trials = step_trials(&chord);
        let mut keys: Vec<u64> = Vec::new();
        for t in trials.iter() {
            keys.push(squash(&judge(t, &memory).unwrap()).to_bits());
        }
        chord = step_notes(&chord, &keys, 1.0f64.to_bits()).unwrap();
        memory = remember(&chord, &memory).unwrap();
        assert_eq!(chord.len(), 5);
        for i in 0..chord.len() {
            assert!(chord[i].num >= 1 && chord[i].den >= 1);
            assert_eq!(simplify(chord[i]), chord[i]);
            for j in 0..i {
                assert_ne!(chord[i], chord[j]);
            }
        }
    }
    assert!(memory.len() >= 5);
}

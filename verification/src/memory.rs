//! The memory store: familiarity scores for every interval ever played.
//!
//! Entries are kept as a sequence of key/score pairs with unique canonical
//! keys.  Scores decay geometrically (`forget`) and are reinforced
//! additively (`remember`); an entry, once present, is never removed.

use vstd::prelude::*;
use crate::arith::{lemma_qv_add_cong, lemma_qv_eq_trans, qv_add, qv_eq, qv_mul, qv_wf, qv_zero, Qv};
use crate::frac::{chord_wf, note_count, note_wf, Frac};
use crate::ratio::{
    lemma_spec_ratio_add_value, ratio_add, ratio_scale, ratio_tenth, ratio_val, ratio_wf,
    spec_ratio_add, spec_ratio_scale, Ratio,
};
use crate::EngineError;

verus! {

/// The familiarity store.
pub struct Memory {
    pub entries: Vec<(Frac, Ratio)>,
}

impl View for Memory {
    type V = Seq<(Frac, Ratio)>;

    open spec fn view(&self) -> Seq<(Frac, Ratio)> {
        self.entries@
    }
}

/// Every key is a canonical positive interval, every score well formed,
/// and no key occurs twice.
pub open spec fn memory_wf(s: Seq<(Frac, Ratio)>) -> bool {
    &&& forall|i: int|
        0 <= i < s.len() ==> note_wf((#[trigger] s[i]).0) && ratio_wf(s[i].1)
    &&& forall|i: int, j: int|
        0 <= i < j < s.len() ==> (#[trigger] s[i]).0 != (#[trigger] s[j]).0
}

/// The score stored under a key, scanning from the front.
pub open spec fn spec_lookup(s: Seq<(Frac, Ratio)>, k: Frac) -> Option<Ratio>
    decreases s.len(),
{
    if s.len() == 0 {
        None
    } else if s[0].0 == k {
        Some(s[0].1)
    } else {
        spec_lookup(s.drop_first(), k)
    }
}

/// The stored score as a rational value, zero where the key is absent.
pub open spec fn lookup_val(s: Seq<(Frac, Ratio)>, k: Frac) -> Qv {
    match spec_lookup(s, k) {
        None => qv_zero(),
        Some(v) => ratio_val(v),
    }
}

/// A prefix free of the key can be skipped without changing the lookup.
pub proof fn lemma_lookup_skip(s: Seq<(Frac, Ratio)>, k: Frac, i: int)
    requires
        0 <= i <= s.len(),
        forall|j: int| 0 <= j < i ==> (#[trigger] s[j]).0 != k,
    ensures
        spec_lookup(s, k) == spec_lookup(s.skip(i), k),
    decreases i,
{
    if i > 0 {
        lemma_lookup_skip(s.drop_first(), k, i - 1);
        assert(s.drop_first().skip(i - 1) =~= s.skip(i));
    } else {
        assert(s.skip(0) =~= s);
    }
}

/// A found key yields the score at its index.
pub proof fn lemma_lookup_at(s: Seq<(Frac, Ratio)>, k: Frac, i: int)
    requires
        0 <= i < s.len(),
        s[i].0 == k,
        forall|j: int| 0 <= j < i ==> (#[trigger] s[j]).0 != k,
    ensures
        spec_lookup(s, k) == Some(s[i].1),
{
    lemma_lookup_skip(s, k, i);
    assert(s.skip(i)[0] == s[i]);
    assert(s.skip(i).len() > 0);
}

/// Find the index of a key, if present.
fn find_index(entries: &Vec<(Frac, Ratio)>, k: Frac) -> (r: Option<usize>)
    ensures
        match r {
            Some(i) => i < entries@.len() && entries@[i as int].0 == k && forall|j: int|
                0 <= j < i ==> (#[trigger] entries@[j]).0 != k,
            None => forall|j: int|
                0 <= j < entries@.len() ==> (#[trigger] entries@[j]).0 != k,
        },
{
    let mut i: usize = 0;
    while i < entries.len()
        invariant
            0 <= i <= entries@.len(),
            forall|j: int| 0 <= j < i ==> (#[trigger] entries@[j]).0 != k,
        decreases entries@.len() - i,
    {
        if entries[i].0 == k {
            return Some(i);
        }
        i = i + 1;
    }
    None
}

impl Memory {
    /// The empty store: no interval is familiar yet.
    pub fn new() -> (m: Memory)
        ensures
            m@ =~= Seq::<(Frac, Ratio)>::empty(),
            memory_wf(m@),
    {
        Memory { entries: Vec::new() }
    }

    /// The number of stored entries.
    pub fn len(&self) -> (n: usize)
        ensures
            n == self@.len(),
    {
        self.entries.len()
    }

    /// The familiarity score of an interval, if it was ever reinforced.
    pub fn lookup(&self, k: Frac) -> (r: Option<Ratio>)
        ensures
            r == spec_lookup(self@, k),
    {
        match find_index(&self.entries, k) {
            Some(i) => {
                proof {
                    lemma_lookup_at(self@, k, i as int);
                }
                Some(self.entries[i].1)
            },
            None => {
                proof {
                    lemma_lookup_skip(self@, k, self@.len() as int);
                    assert(self@.skip(self@.len() as int).len() == 0);
                }
                None
            },
        }
    }

    /// Store a score under a key: replace the existing entry or append a
    /// fresh one.
    pub fn insert(&self, k: Frac, v: Ratio) -> (m: Memory)
        requires
            memory_wf(self@),
            note_wf(k),
            ratio_wf(v),
        ensures
            memory_wf(m@),
            spec_lookup(m@, k) == Some(v),
            forall|k2: Frac| k2 != k ==> spec_lookup(m@, k2) == spec_lookup(self@, k2),
            m@.len() == if spec_lookup(self@, k) is Some {
                self@.len() as int
            } else {
                self@.len() + 1int
            },
    {
        let ghost s = self@;
        match find_index(&self.entries, k) {
            Some(idx) => {
                proof {
                    lemma_lookup_at(s, k, idx as int);
                }
                let mut out: Vec<(Frac, Ratio)> = Vec::new();
                let mut i: usize = 0;
                while i < self.entries.len()
                    invariant
                        0 <= i <= s.len(),
                        idx < s.len(),
                        s == self.entries@,
                        out@.len() == i,
                        forall|j: int|
                            0 <= j < i ==> #[trigger] out@[j] == if j == idx {
                                (k, v)
                            } else {
                                s[j]
                            },
                    decreases s.len() - i,
                {
                    if i == idx {
                        out.push((k, v));
                    } else {
                        let e = self.entries[i];
                        out.push(e);
                    }
                    i = i + 1;
                }
                proof {
                    assert(out@ =~= s.update(idx as int, (k, v)));
                    lemma_lookup_update_key(s, idx as int, (k, v));
                }
                Memory { entries: out }
            },
            None => {
                let mut out: Vec<(Frac, Ratio)> = Vec::new();
                let mut i: usize = 0;
                while i < self.entries.len()
                    invariant
                        0 <= i <= s.len(),
                        s == self.entries@,
                        out@.len() == i,
                        forall|j: int| 0 <= j < i ==> #[trigger] out@[j] == s[j],
                    decreases s.len() - i,
                {
                    let e = self.entries[i];
                    out.push(e);
                    i = i + 1;
                }
                out.push((k, v));
                proof {
                    assert(out@ =~= s.push((k, v)));
                    lemma_lookup_push(s, (k, v));
                    lemma_lookup_skip(s, k, s.len() as int);
                    assert(s.skip(s.len() as int).len() == 0);
                }
                Memory { entries: out }
            },
        }
    }
}

/// A memory entry after one decay step: the score scaled by three
/// quarters.
pub open spec fn decayed_entry(e: (Frac, Ratio)) -> (Frac, Ratio) {
    match spec_ratio_scale(e.1, 3, 4) {
        Some(v) => (e.0, v),
        None => e,
    }
}

/// The whole store after one decay step, or `None` where some scaled
/// score can no longer be represented.
pub open spec fn spec_forget(s: Seq<(Frac, Ratio)>) -> Option<Seq<(Frac, Ratio)>> {
    if forall|i: int|
        0 <= i < s.len() ==> (#[trigger] spec_ratio_scale(s[i].1, 3, 4)) is Some {
        Some(Seq::new(s.len(), |i: int| decayed_entry(s[i])))
    } else {
        None
    }
}

/// Decay: multiply every familiarity score by the retention factor three
/// quarters.  No entry is added or removed.
///
/// Scores are exact word-sized rationals, and each decay deepens a
/// score's denominator by a factor of four, so after enough windows an
/// exact result no longer fits the word and `Overflow` is reported; a
/// failing step is fatal to the evolution loop, which stops rather than
/// go on with a corrupted store.
pub fn forget(m: &Memory) -> (r: Result<Memory, EngineError>)
    requires
        memory_wf(m@),
    ensures
        match r {
            Ok(m2) => {
                &&& Some(m2@) == spec_forget(m@)
                &&& memory_wf(m2@)
                &&& m2@.len() == m@.len()
                &&& forall|i: int|
                    0 <= i < m@.len() ==> (#[trigger] m2@[i]).0 == m@[i].0 && qv_eq(
                        ratio_val(m2@[i].1),
                        qv_mul(ratio_val(m@[i].1), Qv { n: 3, d: 4 }),
                    )
            },
            Err(e) => e == EngineError::Overflow && spec_forget(m@) is None,
        },
{
    let ghost s = m@;
    let mut out: Vec<(Frac, Ratio)> = Vec::new();
    let mut i: usize = 0;
    while i < m.entries.len()
        invariant
            0 <= i <= s.len(),
            s == m.entries@,
            memory_wf(s),
            out@.len() == i,
            forall|j: int|
                0 <= j < i ==> (#[trigger] spec_ratio_scale(s[j].1, 3, 4)) is Some,
            forall|j: int| 0 <= j < i ==> #[trigger] out@[j] == decayed_entry(s[j]),
            forall|j: int|
                0 <= j < i ==> (#[trigger] out@[j]).0 == s[j].0 && ratio_wf(out@[j].1)
                    && qv_eq(ratio_val(out@[j].1), qv_mul(ratio_val(s[j].1), Qv { n: 3, d: 4 })),
        decreases s.len() - i,
    {
        let e = m.entries[i];
        match ratio_scale(e.1, 3, 4) {
            None => {
                return Err(EngineError::Overflow);
            },
            Some(v) => {
                out.push((e.0, v));
            },
        }
        i = i + 1;
    }
    proof {
        assert(out@ =~= Seq::new(s.len(), |j: int| decayed_entry(s[j])));
    }
    Ok(Memory { entries: out })
}

/// One reinforcement of a single key's state: a fresh entry starts at one
/// tenth, an existing score grows by one tenth.
pub open spec fn spec_bump(st: Option<Ratio>) -> Option<Option<Ratio>> {
    match st {
        None => Some(Some(Ratio { num: 1, den: 10 })),
        Some(v) => match spec_ratio_add(v, Ratio { num: 1, den: 10 }) {
            None => None,
            Some(v2) => Some(Some(v2)),
        },
    }
}

/// `c` successive reinforcements of a single key's state.
pub open spec fn spec_bump_iter(st: Option<Ratio>, c: nat) -> Option<Option<Ratio>>
    decreases c,
{
    if c == 0 {
        Some(st)
    } else {
        match spec_bump(st) {
            None => None,
            Some(st2) => spec_bump_iter(st2, (c - 1) as nat),
        }
    }
}

/// The rational value of a single key's state.
pub open spec fn state_val(st: Option<Ratio>) -> Qv {
    match st {
        None => qv_zero(),
        Some(v) => ratio_val(v),
    }
}

/// Reinforcement: add one tenth of familiarity for every note occurrence
/// of the chord, inserting fresh entries for unseen intervals.
///
/// The resulting score of every key is its old state after as many
/// reinforcements as the key occurs in the chord; all other keys are
/// untouched.
pub fn remember(chord: &Vec<Frac>, m: &Memory) -> (r: Result<Memory, EngineError>)
    requires
        chord_wf(chord@),
        memory_wf(m@),
    ensures
        match r {
            Ok(m2) => {
                &&& memory_wf(m2@)
                &&& forall|k: Frac|
                    Some(spec_lookup(m2@, k)) == spec_bump_iter(
                        #[trigger] spec_lookup(m@, k),
                        note_count(chord@, k),
                    )
            },
            Err(e) => {
                &&& e == EngineError::Overflow
                &&& exists|k: Frac|
                    spec_bump_iter(#[trigger] spec_lookup(m@, k), note_count(chord@, k))
                        is None
            },
        },
{
    let mut cur = copy_memory(m);
    let mut i: usize = 0;
    proof {
        assert(chord@.skip(0) =~= chord@);
    }
    while i < chord.len()
        invariant
            0 <= i <= chord@.len(),
            chord_wf(chord@),
            memory_wf(m@),
            memory_wf(cur@),
            forall|k: Frac|
                spec_bump_iter(
                    #[trigger] spec_lookup(cur@, k),
                    note_count(chord@.skip(i as int), k),
                ) == spec_bump_iter(spec_lookup(m@, k), note_count(chord@, k)),
        decreases chord@.len() - i,
    {
        let note = chord[i];
        proof {
            assert(chord@.skip(i as int)[0] == chord@[i as int]);
            assert(chord@.skip(i as int).drop_first() =~= chord@.skip(i as int + 1));
        }
        let found = cur.lookup(note);
        proof {
            lemma_lookup_wf(cur@, note);
        }
        let newscore = match found {
            None => ratio_tenth(),
            Some(v) => match ratio_add(v, ratio_tenth()) {
                None => {
                    proof {
                        let c = note_count(chord@.skip(i as int), note);
                        assert(c >= 1);
                        assert(spec_bump(spec_lookup(cur@, note)) is None);
                        assert(spec_bump_iter(spec_lookup(cur@, note), c) is None);
                        assert(spec_bump_iter(
                            spec_lookup(m@, note),
                            note_count(chord@, note),
                        ) is None);
                    }
                    return Err(EngineError::Overflow);
                },
                Some(v2) => v2,
            },
        };
        let ghost prev = cur@;
        cur = cur.insert(note, newscore);
        proof {
            assert(spec_bump(spec_lookup(prev, note)) == Some(Some(newscore)));
            assert forall|k: Frac|
                spec_bump_iter(
                    #[trigger] spec_lookup(cur@, k),
                    note_count(chord@.skip(i as int + 1), k),
                ) == spec_bump_iter(spec_lookup(m@, k), note_count(chord@, k)) by {
                let rest = chord@.skip(i as int + 1);
                let here = chord@.skip(i as int);
                assert(note_count(here, k) == (if here[0] == k {
                    1nat
                } else {
                    0nat
                }) + note_count(rest, k));
                if k == note {
                    assert(spec_lookup(cur@, k) == Some(newscore));
                } else {
                    assert(spec_lookup(cur@, k) == spec_lookup(prev, k));
                }
            }
        }
        i = i + 1;
    }
    proof {
        assert(chord@.skip(i as int) =~= Seq::<Frac>::empty());
        assert forall|k: Frac|
            Some(spec_lookup(cur@, k)) == spec_bump_iter(
                #[trigger] spec_lookup(m@, k),
                note_count(chord@, k),
            ) by {
            assert(note_count(chord@.skip(i as int), k) == 0);
            assert(spec_bump_iter(spec_lookup(cur@, k), 0) == Some(spec_lookup(cur@, k)));
        }
    }
    Ok(cur)
}

proof fn lemma_qv_tenths(a: Qv, c: int) by (nonlinear_arith)
    requires
        qv_wf(a),
        c >= 1,
    ensures
        qv_eq(
            qv_add(qv_add(a, Qv { n: 1, d: 10 }), Qv { n: c - 1, d: 10 }),
            qv_add(a, Qv { n: c, d: 10 }),
        ),
        qv_wf(qv_add(a, Qv { n: 1, d: 10 })),
        qv_wf(qv_add(a, Qv { n: c, d: 10 })),
        qv_wf(qv_add(qv_add(a, Qv { n: 1, d: 10 }), Qv { n: c - 1, d: 10 })),
{
}

/// Reinforcement is additive: `c` successive reinforcements of one key
/// add exactly `c` tenths to its familiarity value, however the
/// occurrences are ordered among others.
pub proof fn lemma_bump_iter_value(st: Option<Ratio>, c: nat)
    requires
        st matches Some(v) ==> ratio_wf(v),
    ensures
        spec_bump_iter(st, c) matches Some(st2) ==> {
            &&& (st2 matches Some(v2) ==> ratio_wf(v2))
            &&& qv_eq(state_val(st2), qv_add(state_val(st), Qv { n: c as int, d: 10 }))
            &&& qv_wf(state_val(st2))
        },
    decreases c,
{
    assert(qv_wf(state_val(st)));
    if c == 0 {
        assert(qv_eq(state_val(st), qv_add(state_val(st), Qv { n: 0, d: 10 })))
            by (nonlinear_arith)
            requires
                qv_wf(state_val(st)),
        {
        }
    } else {
        match spec_bump(st) {
            None => {
            },
            Some(st1) => {
                reveal_with_fuel(crate::arith::gcd, 4);
                let tenth = Ratio { num: 1, den: 10 };
                assert(ratio_wf(tenth));
                match st {
                    None => {
                        assert(st1 == Some(tenth));
                        assert(state_val(st) == Qv { n: 0, d: 1 });
                        assert(qv_add(state_val(st), Qv { n: 1, d: 10 }) == Qv { n: 1, d: 10 });
                        assert(qv_eq(
                            state_val(st1),
                            qv_add(state_val(st), Qv { n: 1, d: 10 }),
                        ));
                    },
                    Some(v) => {
                        lemma_spec_ratio_add_value(v, tenth);
                    },
                }
                assert(st1 matches Some(w) ==> ratio_wf(w));
                lemma_bump_iter_value(st1, (c - 1) as nat);
                match spec_bump_iter(st1, (c - 1) as nat) {
                    None => {
                    },
                    Some(st2) => {
                    lemma_qv_tenths(state_val(st), c as int);
                    lemma_qv_add_cong(
                        state_val(st1),
                        qv_add(state_val(st), Qv { n: 1, d: 10 }),
                        Qv { n: c - 1, d: 10 },
                        Qv { n: c - 1, d: 10 },
                    );
                    lemma_qv_eq_trans(
                        state_val(st2),
                        qv_add(state_val(st1), Qv { n: c - 1, d: 10 }),
                        qv_add(qv_add(state_val(st), Qv { n: 1, d: 10 }), Qv { n: c - 1, d: 10 }),
                    );
                    lemma_qv_eq_trans(
                        state_val(st2),
                        qv_add(qv_add(state_val(st), Qv { n: 1, d: 10 }), Qv { n: c - 1, d: 10 }),
                        qv_add(state_val(st), Qv { n: c as int, d: 10 }),
                    );
                    },
                }
            },
        }
    }
}

/// Reinforcement is additive and order-independent per key: a store
/// satisfying `remember`'s contract holds, for every key, the old value
/// plus one tenth per occurrence of the key in the chord.
pub proof fn lemma_remember_additive(
    before: Seq<(Frac, Ratio)>,
    after: Seq<(Frac, Ratio)>,
    chord: Seq<Frac>,
    k: Frac,
)
    requires
        memory_wf(before),
        Some(spec_lookup(after, k)) == spec_bump_iter(
            spec_lookup(before, k),
            note_count(chord, k),
        ),
    ensures
        qv_eq(
            lookup_val(after, k),
            qv_add(lookup_val(before, k), Qv { n: note_count(chord, k) as int, d: 10 }),
        ),
{
    lemma_lookup_wf(before, k);
    lemma_bump_iter_value(spec_lookup(before, k), note_count(chord, k));
}

/// Every score a well-formed store yields is well formed.
pub proof fn lemma_lookup_wf(s: Seq<(Frac, Ratio)>, k: Frac)
    requires
        memory_wf(s),
    ensures
        spec_lookup(s, k) matches Some(v) ==> ratio_wf(v),
    decreases s.len(),
{
    if s.len() > 0 && s[0].0 != k {
        assert(memory_wf(s.drop_first())) by {
            assert(forall|j: int|
                0 <= j < s.drop_first().len() ==> #[trigger] s.drop_first()[j] == s[j + 1]);
        }
        lemma_lookup_wf(s.drop_first(), k);
    }
}

/// Copy the store entry for entry.
fn copy_memory(m: &Memory) -> (r: Memory)
    ensures
        r@ == m@,
{
    let mut out: Vec<(Frac, Ratio)> = Vec::new();
    let mut i: usize = 0;
    while i < m.entries.len()
        invariant
            0 <= i <= m.entries@.len(),
            out@.len() == i,
            forall|j: int| 0 <= j < i ==> #[trigger] out@[j] == m.entries@[j],
        decreases m.entries@.len() - i,
    {
        let e = m.entries[i];
        out.push(e);
        i = i + 1;
    }
    proof {
        assert(out@ =~= m.entries@);
    }
    Memory { entries: out }
}

/// Updating an entry in place changes only that key's score.
pub proof fn lemma_lookup_update_key(s: Seq<(Frac, Ratio)>, i: int, pair: (Frac, Ratio))
    requires
        0 <= i < s.len(),
        forall|a: int, b: int|
            0 <= a < b < s.len() ==> (#[trigger] s[a]).0 != (#[trigger] s[b]).0,
        s[i].0 == pair.0,
    ensures
        spec_lookup(s.update(i, pair), pair.0) == Some(pair.1),
        forall|k2: Frac|
            k2 != pair.0 ==> spec_lookup(s.update(i, pair), k2) == spec_lookup(s, k2),
    decreases s.len(),
{
    let t = s.update(i, pair);
    if i == 0 {
        assert(t[0] == pair);
        assert forall|k2: Frac| k2 != pair.0 implies spec_lookup(t, k2) == spec_lookup(
            s,
            k2,
        ) by {
            assert(t.drop_first() =~= s.drop_first());
        }
    } else {
        assert(t[0] == s[0]);
        assert(s[0].0 != pair.0);
        assert(t.drop_first() =~= s.drop_first().update(i - 1, pair));
        lemma_lookup_update_key(s.drop_first(), i - 1, pair);
        assert forall|k2: Frac| k2 != pair.0 implies spec_lookup(t, k2) == spec_lookup(
            s,
            k2,
        ) by {
            if s[0].0 == k2 {
                assert(spec_lookup(t, k2) == Some(t[0].1));
            } else {
                assert(spec_lookup(t, k2) == spec_lookup(t.drop_first(), k2));
                assert(spec_lookup(s, k2) == spec_lookup(s.drop_first(), k2));
            }
        }
    }
}

/// Appending a fresh key changes only that key's score.
pub proof fn lemma_lookup_push(s: Seq<(Frac, Ratio)>, pair: (Frac, Ratio))
    requires
        forall|j: int| 0 <= j < s.len() ==> (#[trigger] s[j]).0 != pair.0,
    ensures
        spec_lookup(s.push(pair), pair.0) == Some(pair.1),
        forall|k2: Frac|
            k2 != pair.0 ==> spec_lookup(s.push(pair), k2) == spec_lookup(s, k2),
    decreases s.len(),
{
    let t = s.push(pair);
    if s.len() == 0 {
        assert(t[0] == pair);
        assert forall|k2: Frac| k2 != pair.0 implies spec_lookup(t, k2) == spec_lookup(
            s,
            k2,
        ) by {
            assert(t.len() == 1);
            assert(t.drop_first() =~= Seq::<(Frac, Ratio)>::empty());
            assert(spec_lookup(t.drop_first(), k2) is None);
            assert(spec_lookup(t, k2) is None);
        }
    } else {
        assert(t[0] == s[0]);
        assert(s[0].0 != pair.0);
        assert(t.drop_first() =~= s.drop_first().push(pair));
        lemma_lookup_push(s.drop_first(), pair);
        assert forall|k2: Frac| k2 != pair.0 implies spec_lookup(t, k2) == spec_lookup(
            s,
            k2,
        ) by {
            if s[0].0 == k2 {
                assert(spec_lookup(t, k2) == Some(t[0].1));
            } else {
                assert(spec_lookup(t, k2) == spec_lookup(t.drop_first(), k2));
                assert(spec_lookup(s, k2) == spec_lookup(s.drop_first(), k2));
            }
        }
    }
}

} // verus!

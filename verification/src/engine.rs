//! The evolution loop's fixed pieces: the seed chord and the window
//! clock.
//!
//! One full evolution step is: decay the memory, enumerate the trial
//! chords of the current chord, judge every trial against the decayed
//! memory, select the next chord under the resulting order keys, and
//! reinforce the memory with it.  The driver performs the squashing of
//! exact measures into order keys; everything else is exact.

use vstd::prelude::*;
use crate::arith::gcd;
use crate::frac::{chord_distinct, chord_wf, Frac};

verus! {

/// The seed chord: an open drone on early harmonic partials.
pub fn initial_chord() -> (r: Vec<Frac>)
    ensures
        r@ == seq![
            Frac { num: 1, den: 2 },
            Frac { num: 1, den: 1 },
            Frac { num: 1, den: 3 },
            Frac { num: 1, den: 5 },
            Frac { num: 1, den: 7 },
        ],
        r@.len() == 5,
        chord_wf(r@),
        chord_distinct(r@),
{
    let mut v: Vec<Frac> = Vec::new();
    v.push(Frac { num: 1, den: 2 });
    v.push(Frac { num: 1, den: 1 });
    v.push(Frac { num: 1, den: 3 });
    v.push(Frac { num: 1, den: 5 });
    v.push(Frac { num: 1, den: 7 });
    proof {
        reveal_with_fuel(gcd, 4);
        assert(v@ =~= seq![
            Frac { num: 1, den: 2 },
            Frac { num: 1, den: 1 },
            Frac { num: 1, den: 3 },
            Frac { num: 1, den: 5 },
            Frac { num: 1, den: 7 },
        ]);
        assert(gcd(1, 2) == 1);
        assert(gcd(1, 1) == 1);
        assert(gcd(1, 3) == 1);
        assert(gcd(1, 5) == 1);
        assert(gcd(1, 7) == 1);
    }
    v
}

/// Counts synthesis ticks and signals the window boundary on which the
/// chord advances.
pub struct WindowClock {
    pub ticks: u64,
    pub period: u64,
}

/// The tick count stays strictly inside the window.
pub open spec fn clock_wf(c: WindowClock) -> bool {
    c.period >= 1 && c.ticks < c.period
}

impl WindowClock {
    /// A fresh clock that advances after `period` ticks.
    pub fn new(period: u64) -> (c: WindowClock)
        requires
            period >= 1,
        ensures
            clock_wf(c),
            c.period == period,
            c.ticks == 0,
    {
        WindowClock { ticks: 0, period }
    }

    /// Count one synthesis tick; true exactly on the window boundary,
    /// which resets the count.
    pub fn tick(&mut self) -> (advance: bool)
        requires
            clock_wf(*old(self)),
        ensures
            clock_wf(*final(self)),
            final(self).period == old(self).period,
            advance == (old(self).ticks + 1 == old(self).period),
            final(self).ticks == if advance {
                0int
            } else {
                old(self).ticks + 1
            },
    {
        self.ticks = self.ticks + 1;
        if self.ticks == self.period {
            self.ticks = 0;
            true
        } else {
            false
        }
    }
}

} // verus!

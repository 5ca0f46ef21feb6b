//! Session returns as exact rationals. A return over a window is
//! `(close - open) / open * 100` percent; it is kept as the pair
//! `(close - open, open)` so that comparisons and ordering are exact, and
//! only the unverified rim turns it into a floating-point percentage.
//! A window with no candles has a zero return by design — absence of data is
//! a valid, silent zero-return outcome, not an error — and a non-positive
//! open is guarded the same way rather than dividing by it.

use vstd::prelude::*;

use crate::candle::{window_of, Candle};
use crate::price::{window_close, window_ends, window_open};

verus! {

/// An exact return: the gain `num = close - open` over the base `den = open`,
/// i.e. the fraction `num / den` (times 100 when read as a percentage).
#[derive(Clone, Copy, Debug, PartialEq, Eq, Structural)]
pub struct Rate {
    pub num: i128,
    pub den: i64,
}

/// Well-formed rates have a positive base and a gain small enough that
/// cross-multiplied comparisons stay inside `i128`.
pub open spec fn rate_wf(r: Rate) -> bool {
    &&& 1 <= r.den
    &&& -0x1_0000_0000_0000_0000 < r.num < 0x1_0000_0000_0000_0000
}

/// The zero return, used whenever a window holds no usable data.
pub open spec fn spec_zero_rate() -> Rate {
    Rate { num: 0, den: 1 }
}

impl Rate {
    /// The zero return.
    pub fn zero() -> (r: Rate)
        ensures
            r == spec_zero_rate(),
            rate_wf(r),
    {
        Rate { num: 0, den: 1 }
    }

    /// Strictly greater, as rationals with positive denominators.
    pub open spec fn spec_gt(self, other: Rate) -> bool {
        self.num * other.den > other.num * self.den
    }

    /// Exact rational comparison of two returns.
    pub fn gt(&self, other: &Rate) -> (r: bool)
        requires
            rate_wf(*self),
            rate_wf(*other),
        ensures
            r == self.spec_gt(*other),
    {
        proof {
            lemma_cross_bounds(*self, *other);
        }
        self.num * (other.den as i128) > other.num * (self.den as i128)
    }
}

proof fn lemma_cross_bounds(a: Rate, b: Rate)
    requires
        rate_wf(a),
        rate_wf(b),
    ensures
        -0x8000_0000_0000_0000_0000_0000_0000_0000 <= a.num * b.den
            <= 0x7fff_ffff_ffff_ffff_ffff_ffff_ffff_ffff,
        -0x8000_0000_0000_0000_0000_0000_0000_0000 <= b.num * a.den
            <= 0x7fff_ffff_ffff_ffff_ffff_ffff_ffff_ffff,
{
    assert(-0x8000_0000_0000_0000_0000_0000_0000_0000 <= a.num * b.den
        <= 0x7fff_ffff_ffff_ffff_ffff_ffff_ffff_ffff) by (nonlinear_arith)
        requires
            1 <= b.den < 0x8000_0000_0000_0000,
            -0x1_0000_0000_0000_0000 < a.num < 0x1_0000_0000_0000_0000,
    {}
    assert(-0x8000_0000_0000_0000_0000_0000_0000_0000 <= b.num * a.den
        <= 0x7fff_ffff_ffff_ffff_ffff_ffff_ffff_ffff) by (nonlinear_arith)
        requires
            1 <= a.den < 0x8000_0000_0000_0000,
            -0x1_0000_0000_0000_0000 < b.num < 0x1_0000_0000_0000_0000,
    {}
}

/// What the return of `[from, to]` in `s` is: zero when the window is empty
/// or its first open is not positive, else the exact gain over the open.
pub open spec fn spec_window_return(s: Seq<Candle>, from: int, to: int) -> Rate {
    let w = window_of(s, from, to);
    if w.len() == 0 {
        spec_zero_rate()
    } else {
        let o = window_open(w);
        let c = window_close(w);
        if o <= 0 {
            spec_zero_rate()
        } else {
            Rate { num: (c - o) as i128, den: o as i64 }
        }
    }
}

/// The session return of one symbol's series over `[from, to]`: the
/// percentage gain from the window's first open to its last close, exact.
/// A window with no candles yields the zero return, never an error.
pub fn window_return(candles: &Vec<Candle>, from: i64, to: i64) -> (r: Rate)
    ensures
        r == spec_window_return(candles@, from as int, to as int),
        rate_wf(r),
{
    let ends = window_ends(candles, from, to);
    match ends {
        None => Rate::zero(),
        Some((fo, lc)) => {
            if fo <= 0 {
                Rate::zero()
            } else {
                Rate { num: (lc as i128) - (fo as i128), den: fo }
            }
        },
    }
}

/// A window with no candles is worth nothing and claims nothing: the
/// admission filter returns non-admission and the return calculator returns
/// the zero return.
pub proof fn lemma_empty_window_defaults(s: Seq<Candle>, from: int, to: int)
    requires
        window_of(s, from, to).len() == 0,
    ensures
        !crate::price::admits(s, from, to),
        spec_window_return(s, from, to) == spec_zero_rate(),
{
}

} // verus!

//! The in-memory model of one row of a symbol's intraday series: a
//! five-minute candle with an integer timestamp in `YYYYMMDDHHmm` form and
//! integer price/quantity units.

use vstd::prelude::*;

verus! {

/// One candle of a symbol's series. `ts` is the timestamp in `YYYYMMDDHHmm`
/// integer form; `open`, `close` and `volume` are in raw price/quantity units.
#[derive(Clone, Copy, Debug, PartialEq, Eq, Structural)]
pub struct Candle {
    pub ts: i64,
    pub open: i64,
    pub close: i64,
    pub volume: i64,
}

/// A candle lies in the inclusive window `[from, to]`.
pub open spec fn in_window(c: Candle, from: int, to: int) -> bool {
    from <= c.ts && c.ts <= to
}

/// The candles of `s` that lie in `[from, to]`, in series order.
pub open spec fn window_of(s: Seq<Candle>, from: int, to: int) -> Seq<Candle> {
    s.filter(|c: Candle| in_window(c, from, to))
}

/// All fields of the candle are non-negative. Series whose rows break this
/// are treated as malformed and excluded symbol-locally, never propagated.
pub open spec fn candle_nonneg(c: Candle) -> bool {
    c.open >= 0 && c.close >= 0 && c.volume >= 0
}

pub open spec fn all_nonneg(s: Seq<Candle>) -> bool {
    forall|i: int| 0 <= i < s.len() ==> candle_nonneg(#[trigger] s[i])
}

} // verus!

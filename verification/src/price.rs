//! The admission test (the "D condition"): over a window of a symbol's
//! candles, the percentage gain from the earliest open to the latest close
//! must reach five percent, and the move must be a long bullish one — the
//! gain must exceed one thirtieth of the open, with the store's integer
//! floor division kept as it is.

use vstd::prelude::*;

use crate::candle::{in_window, window_of, Candle};

verus! {

/// Index of the first candle holding the minimal timestamp of `s`.
pub open spec fn earliest_idx(s: Seq<Candle>) -> int
    decreases s.len(),
{
    if s.len() <= 1 {
        0
    } else {
        let r = earliest_idx(s.drop_last());
        if s.last().ts < s[r].ts {
            s.len() - 1
        } else {
            r
        }
    }
}

/// Index of the last candle holding the maximal timestamp of `s`.
pub open spec fn latest_idx(s: Seq<Candle>) -> int
    decreases s.len(),
{
    if s.len() <= 1 {
        0
    } else {
        let r = latest_idx(s.drop_last());
        if s.last().ts >= s[r].ts {
            s.len() - 1
        } else {
            r
        }
    }
}

pub proof fn lemma_idx_bounds(s: Seq<Candle>)
    requires
        s.len() > 0,
    ensures
        0 <= earliest_idx(s) < s.len(),
        0 <= latest_idx(s) < s.len(),
    decreases s.len(),
{
    if s.len() > 1 {
        lemma_idx_bounds(s.drop_last());
    }
}

/// The `open` a timestamp-ordered scan of `w` meets first.
pub open spec fn window_open(w: Seq<Candle>) -> int {
    w[earliest_idx(w)].open as int
}

/// The `close` a timestamp-ordered scan of `w` meets last.
pub open spec fn window_close(w: Seq<Candle>) -> int {
    w[latest_idx(w)].close as int
}

/// The five-percent gain test: `(close - open) / open * 100 >= 5`, written
/// over the integers (`open` must be positive).
pub open spec fn rate_at_least_5(o: int, c: int) -> bool {
    20 * (c - o) >= o
}

/// The long-bullish-candle test, with the quantizing integer division by 30
/// preserved.
pub open spec fn long_bull(o: int, c: int) -> bool {
    c > o && (c - o) > o / 30
}

/// Whether the window `[from, to]` of series `s` admits the symbol: an empty
/// window never admits, a non-positive session open never admits (the
/// division guard), otherwise both the rate test and the long-bull test must
/// hold of the earliest open and the latest close.
pub open spec fn admits(s: Seq<Candle>, from: int, to: int) -> bool {
    let w = window_of(s, from, to);
    if w.len() == 0 {
        false
    } else {
        let o = window_open(w);
        let c = window_close(w);
        o > 0 && rate_at_least_5(o, c) && long_bull(o, c)
    }
}

/// Scans the candles of `[from, to]` in timestamp order and hands back the
/// open met first and the close met last, or `None` when the window is
/// empty. Ties go to the earlier candle for the open and the later one for
/// the close, matching a stable timestamp-ordered scan of the series.
pub fn window_ends(candles: &Vec<Candle>, from: i64, to: i64) -> (r: Option<(i64, i64)>)
    ensures
        r is Some <==> window_of(candles@, from as int, to as int).len() > 0,
        r matches Some(p) ==> p.0 == window_open(window_of(candles@, from as int, to as int))
            && p.1 == window_close(window_of(candles@, from as int, to as int)),
{
    let ghost f = from as int;
    let ghost t = to as int;
    let mut found = false;
    let mut fo: i64 = 0;
    let mut fts: i64 = 0;
    let mut lc: i64 = 0;
    let mut lts: i64 = 0;
    let mut i: usize = 0;
    proof {
        reveal(Seq::filter);
        assert(candles@.take(0) =~= Seq::<Candle>::empty());
    }
    while i < candles.len()
        invariant
            f == from as int,
            t == to as int,
            i <= candles@.len(),
            found <==> window_of(candles@.take(i as int), f, t).len() > 0,
            found ==> ({
                let w = window_of(candles@.take(i as int), f, t);
                fo == window_open(w) && fts == w[earliest_idx(w)].ts && lc == window_close(w)
                    && lts == w[latest_idx(w)].ts
            }),
        decreases candles@.len() - i,
    {
        let c = candles[i];
        let ghost prefix = candles@.take(i as int);
        let ghost w = window_of(prefix, f, t);
        proof {
            reveal(Seq::filter);
            assert(candles@.take(i + 1) =~= prefix.push(c));
            assert(prefix.push(c).drop_last() =~= prefix);
            if in_window(c, f, t) {
                assert(window_of(prefix.push(c), f, t) == w.push(c));
                assert(w.push(c).drop_last() =~= w);
                if w.len() > 0 {
                    lemma_idx_bounds(w);
                    assert(w.push(c)[w.len() as int] == c);
                }
            } else {
                assert(window_of(prefix.push(c), f, t) == w);
            }
        }
        if from <= c.ts && c.ts <= to {
            if !found {
                found = true;
                fo = c.open;
                fts = c.ts;
                lc = c.close;
                lts = c.ts;
            } else {
                if c.ts < fts {
                    fo = c.open;
                    fts = c.ts;
                }
                if c.ts >= lts {
                    lc = c.close;
                    lts = c.ts;
                }
            }
        }
        i += 1;
    }
    proof {
        assert(candles@.take(candles@.len() as int) =~= candles@);
    }
    if !found {
        return None;
    }
    Some((fo, lc))
}

/// The admission test over one symbol's series: applies the D condition to
/// the window's first open and last close. A symbol with no candles in the
/// window is never admitted, and never an error.
pub fn is_d(candles: &Vec<Candle>, from: i64, to: i64) -> (r: bool)
    ensures
        r == admits(candles@, from as int, to as int),
{
    let ends = window_ends(candles, from, to);
    match ends {
        None => false,
        Some((fo, lc)) => {
            if fo <= 0 {
                false
            } else {
                let gain: i128 = (lc as i128) - (fo as i128);
                let rate_ok = 20 * gain >= fo as i128;
                let bull = (lc as i128) > (fo as i128) && gain > ((fo as u64) / 30) as i128;
                rate_ok && bull
            }
        },
    }
}

/// Admission is monotone in the rate test: whenever the window's gain is
/// below five percent, admission fails regardless of the candle shape.
pub proof fn lemma_low_rate_not_admitted(s: Seq<Candle>, from: int, to: int)
    requires
        ({
            let w = window_of(s, from, to);
            w.len() > 0 ==> !rate_at_least_5(window_open(w), window_close(w))
        }),
    ensures
        !admits(s, from, to),
{
}

} // verus!

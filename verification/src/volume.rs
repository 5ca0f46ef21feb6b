//! Trade value: the turnover proxy `volume * (open + close) / 2` summed over
//! the candles of a window, and the top-30 ranking built on it. The sum is
//! used strictly for ordering; it saturates at `i64::MAX` instead of wrapping,
//! and a window holding a malformed candle (a negative field) yields no value
//! at all, so the symbol is excluded rather than mis-ranked.

use vstd::prelude::*;
use vstd::seq_lib::*;

use crate::candle::{all_nonneg, candle_nonneg, in_window, window_of, Candle};

verus! {

/// The traded-value contribution of one candle, with the store's truncating
/// integer division by two kept as it is.
pub open spec fn candle_value(c: Candle) -> int {
    (c.volume * (c.open + c.close)) / 2
}

/// The mathematical trade value of a sequence of candles.
pub open spec fn sum_values(s: Seq<Candle>) -> int
    decreases s.len(),
{
    if s.len() == 0 {
        0
    } else {
        sum_values(s.drop_last()) + candle_value(s.last())
    }
}

pub open spec fn clamp_i64(x: int) -> int {
    if x > i64::MAX {
        i64::MAX as int
    } else {
        x
    }
}

/// What the trade value of `[from, to]` in `s` is: no value when the window
/// holds a malformed candle, else the window's sum saturated at `i64::MAX`.
pub open spec fn spec_trade_value(s: Seq<Candle>, from: int, to: int) -> Option<int> {
    let w = window_of(s, from, to);
    if all_nonneg(w) {
        Some(clamp_i64(sum_values(w)))
    } else {
        None
    }
}

/// The trade value of one symbol's series over the inclusive window
/// `[from, to]`: the sum of `volume * (open + close) / 2` over the in-window
/// candles, saturated at `i64::MAX`; `None` when an in-window candle has a
/// negative field (a malformed series, excluded by callers).
pub fn trade_value_between(candles: &Vec<Candle>, from: i64, to: i64) -> (r: Option<i64>)
    ensures
        r is Some <==> spec_trade_value(candles@, from as int, to as int) is Some,
        r is Some ==> r->0 == spec_trade_value(candles@, from as int, to as int)->0,
{
    let ghost f = from as int;
    let ghost t = to as int;
    let mut acc: u64 = 0;
    let mut i: usize = 0;
    proof {
        reveal(Seq::filter);
        assert(candles@.take(0) =~= Seq::<Candle>::empty());
        assert(window_of(Seq::<Candle>::empty(), f, t) == Seq::<Candle>::empty());
    }
    while i < candles.len()
        invariant
            f == from as int,
            t == to as int,
            i <= candles@.len(),
            all_nonneg(window_of(candles@.take(i as int), f, t)),
            acc <= i64::MAX,
            acc == clamp_i64(sum_values(window_of(candles@.take(i as int), f, t))),
        decreases candles@.len() - i,
    {
        let c = candles[i];
        let ghost prefix = candles@.take(i as int);
        let ghost w = window_of(prefix, f, t);
        proof {
            reveal(Seq::filter);
            assert(candles@.take(i + 1) =~= prefix.push(c));
            assert(prefix.push(c).drop_last() =~= prefix);
            assert(prefix.push(c).last() == c);
            if in_window(c, f, t) {
                assert(window_of(prefix.push(c), f, t) == w.push(c));
                assert(w.push(c).drop_last() =~= w);
            } else {
                assert(window_of(prefix.push(c), f, t) == w);
            }
        }
        if from <= c.ts && c.ts <= to {
            if !(c.open >= 0 && c.close >= 0 && c.volume >= 0) {
                proof {
                    broadcast use vstd::seq_lib::group_filter_ensures;

                    assert(candles@[i as int] == c);
                    assert(window_of(candles@, f, t).contains(candles@[i as int]));
                    let wa = window_of(candles@, f, t);
                    let j = choose|j: int| 0 <= j < wa.len() && wa[j] == c;
                    assert(!candle_nonneg(wa[j]));
                }
                return None;
            }
            proof {
                assert(c.volume * (c.open + c.close) <= ((i64::MAX as int) * (2 * i64::MAX as int)))
                    by (nonlinear_arith)
                    requires
                        0 <= c.volume <= i64::MAX,
                        0 <= c.open + c.close <= 2 * i64::MAX as int,
                {}
                assert(c.volume * (c.open + c.close) >= 0) by (nonlinear_arith)
                    requires
                        c.volume >= 0,
                        c.open + c.close >= 0,
                {}
            }
            let term: u128 = (c.volume as u128) * ((c.open as u128) + (c.close as u128)) / 2;
            proof {
                assert(term == candle_value(c));
                assert(sum_values(w.push(c)) == sum_values(w) + candle_value(c));
                assert(forall|j: int|
                    0 <= j < w.push(c).len() ==> candle_nonneg(#[trigger] w.push(c)[j]));
            }
            let total: u128 = (acc as u128) + term;
            if total > i64::MAX as u128 {
                acc = i64::MAX as u64;
            } else {
                acc = total as u64;
            }
        }
        i += 1;
    }
    proof {
        assert(candles@.take(candles@.len() as int) =~= candles@);
    }
    Some(acc as i64)
}

/// Positive trade values are what admit a symbol into the ranking at all:
/// an untraded window (sum zero) is excluded, as is a malformed one.
#[derive(Debug)]
pub struct ScoredSymbol {
    /// The symbol's series name as the store lists it.
    pub code: String,
    /// Its trade value over the ranked window.
    pub score: i64,
}

impl Clone for ScoredSymbol {
    fn clone(&self) -> (r: Self)
        ensures
            r == *self,
    {
        ScoredSymbol { code: self.code.clone(), score: self.score }
    }
}

/// Where `x` belongs in a descending list: after every earlier entry whose
/// score is at least `x.score`, so that equal scores keep their first-seen
/// order.
pub open spec fn insert_desc(s: Seq<ScoredSymbol>, x: ScoredSymbol) -> Seq<ScoredSymbol>
    decreases s.len(),
{
    if s.len() == 0 {
        seq![x]
    } else if s[0].score >= x.score {
        seq![s[0]] + insert_desc(s.drop_first(), x)
    } else {
        seq![x] + s
    }
}

/// Stable descending-by-score ordering of a scored list.
pub open spec fn sort_desc(s: Seq<ScoredSymbol>) -> Seq<ScoredSymbol>
    decreases s.len(),
{
    if s.len() == 0 {
        Seq::empty()
    } else {
        insert_desc(sort_desc(s.drop_last()), s.last())
    }
}

pub open spec fn sorted_desc(s: Seq<ScoredSymbol>) -> bool {
    forall|i: int, j: int| 0 <= i < j < s.len() ==> s[i].score >= s[j].score
}

proof fn lemma_insert_desc_len(s: Seq<ScoredSymbol>, x: ScoredSymbol)
    ensures
        insert_desc(s, x).len() == s.len() + 1,
    decreases s.len(),
{
    if s.len() > 0 && s[0].score >= x.score {
        lemma_insert_desc_len(s.drop_first(), x);
    }
}

pub proof fn lemma_sort_desc_len(s: Seq<ScoredSymbol>)
    ensures
        sort_desc(s).len() == s.len(),
    decreases s.len(),
{
    if s.len() > 0 {
        lemma_sort_desc_len(s.drop_last());
        lemma_insert_desc_len(sort_desc(s.drop_last()), s.last());
    }
}

proof fn lemma_insert_desc_sorted(s: Seq<ScoredSymbol>, x: ScoredSymbol)
    requires
        sorted_desc(s),
    ensures
        sorted_desc(insert_desc(s, x)),
    decreases s.len(),
{
    lemma_insert_desc_len(s, x);
    if s.len() == 0 {
    } else if s[0].score >= x.score {
        assert(sorted_desc(s.drop_first()));
        lemma_insert_desc_sorted(s.drop_first(), x);
        lemma_insert_desc_elems(s.drop_first(), x);
        let r = seq![s[0]] + insert_desc(s.drop_first(), x);
        assert forall|i: int, j: int| 0 <= i < j < r.len() implies r[i].score >= r[j].score by {
            if i > 0 {
                assert(r[i] == insert_desc(s.drop_first(), x)[i - 1]);
                assert(r[j] == insert_desc(s.drop_first(), x)[j - 1]);
            } else {
                assert(r[j] == insert_desc(s.drop_first(), x)[j - 1]);
            }
        }
    } else {
    }
}

/// Every entry of `insert_desc(s, x)` is `x` or an entry of `s`, and its
/// score is bounded by theirs.
proof fn lemma_insert_desc_elems(s: Seq<ScoredSymbol>, x: ScoredSymbol)
    ensures
        forall|i: int|
            0 <= i < insert_desc(s, x).len() ==> (#[trigger] insert_desc(s, x)[i] == x || exists|
                j: int,
            | 0 <= j < s.len() && insert_desc(s, x)[i] == s[j]),
    decreases s.len(),
{
    if s.len() == 0 {
    } else if s[0].score >= x.score {
        lemma_insert_desc_elems(s.drop_first(), x);
        let r = seq![s[0]] + insert_desc(s.drop_first(), x);
        assert forall|i: int| 0 <= i < r.len() implies (#[trigger] r[i] == x || exists|j: int|
            0 <= j < s.len() && r[i] == s[j]) by {
            if i == 0 {
                assert(r[0] == s[0]);
            } else {
                let ri = insert_desc(s.drop_first(), x)[i - 1];
                assert(r[i] == ri);
                if ri != x {
                    let j = choose|j: int| 0 <= j < s.drop_first().len() && ri == s.drop_first()[j];
                    assert(r[i] == s[j + 1]);
                }
            }
        }
    }
}

/// The stable descending sort is sorted and keeps the length.
pub proof fn lemma_sort_desc_sorted(s: Seq<ScoredSymbol>)
    ensures
        sorted_desc(sort_desc(s)),
        sort_desc(s).len() == s.len(),
    decreases s.len(),
{
    lemma_sort_desc_len(s);
    if s.len() > 0 {
        lemma_sort_desc_sorted(s.drop_last());
        lemma_insert_desc_sorted(sort_desc(s.drop_last()), s.last());
    }
}

/// The sorted list holds only entries of the input.
pub proof fn lemma_sort_desc_elems(s: Seq<ScoredSymbol>)
    ensures
        forall|i: int| #![trigger sort_desc(s)[i]]
            0 <= i < sort_desc(s).len() ==> exists|j: int|
                0 <= j < s.len() && sort_desc(s)[i] == #[trigger] s[j],
    decreases s.len(),
{
    if s.len() > 0 {
        lemma_sort_desc_elems(s.drop_last());
        lemma_insert_desc_elems(sort_desc(s.drop_last()), s.last());
        lemma_sort_desc_len(s.drop_last());
        assert forall|i: int| #![trigger sort_desc(s)[i]]
            0 <= i < sort_desc(s).len() implies exists|j: int|
            0 <= j < s.len() && sort_desc(s)[i] == #[trigger] s[j] by {
            let x = sort_desc(s)[i];
            assert(x == insert_desc(sort_desc(s.drop_last()), s.last())[i]);
            if x == s.last() {
                assert(x == s[s.len() - 1]);
            } else {
                let m = choose|m: int|
                    0 <= m < sort_desc(s.drop_last()).len() && x == sort_desc(s.drop_last())[m];
                let j = choose|j: int|
                    0 <= j < s.drop_last().len() && sort_desc(s.drop_last())[m] == s.drop_last()[j];
                assert(x == s[j]);
            }
        }
    }
}

/// `insert_desc` places `x` exactly at the first position whose score is
/// below `x.score`.
proof fn lemma_insert_desc_at(s: Seq<ScoredSymbol>, x: ScoredSymbol, k: int)
    requires
        0 <= k <= s.len(),
        forall|j: int| 0 <= j < k ==> s[j].score >= x.score,
        k < s.len() ==> s[k].score < x.score,
    ensures
        insert_desc(s, x) == s.insert(k, x),
    decreases s.len(),
{
    if k == 0 {
        if s.len() == 0 {
            assert(insert_desc(s, x) =~= s.insert(0, x));
        } else {
            assert(insert_desc(s, x) =~= s.insert(0, x));
        }
    } else {
        assert(s[0].score >= x.score);
        lemma_insert_desc_at(s.drop_first(), x, k - 1);
        assert(seq![s[0]] + s.drop_first().insert(k - 1, x) =~= s.insert(k, x));
    }
}

fn insert_pos(out: &Vec<ScoredSymbol>, score: i64) -> (k: usize)
    ensures
        k <= out@.len(),
        forall|j: int| 0 <= j < k ==> out@[j].score >= score,
        k < out@.len() ==> out@[k as int].score < score,
{
    let mut k: usize = 0;
    while k < out.len()
        invariant
            k <= out@.len(),
            forall|j: int| 0 <= j < k ==> out@[j].score >= score,
        decreases out@.len() - k,
    {
        if out[k].score < score {
            return k;
        }
        k += 1;
    }
    k
}

/// The symbol codes of a scored list, in order.
pub open spec fn codes_of(s: Seq<ScoredSymbol>) -> Seq<Seq<char>> {
    s.map_values(|x: ScoredSymbol| x.code@)
}

/// The ranker's cut: the scored symbols in stable descending score order,
/// truncated to the top 30. The result is exactly the first
/// `min(30, n)` entries of the stable descending ordering, hence sorted,
/// with ties kept in first-seen order; distinct input codes stay distinct.
pub fn rank_top30(scored: &Vec<ScoredSymbol>) -> (r: Vec<ScoredSymbol>)
    ensures
        r@ == sort_desc(scored@).take(
            if scored@.len() < 30 {
                scored@.len() as int
            } else {
                30
            },
        ),
        sorted_desc(r@),
        r@.len() == (if scored@.len() < 30 {
            scored@.len() as int
        } else {
            30
        }),
        codes_of(scored@).no_duplicates() ==> codes_of(r@).no_duplicates(),
{
    let mut out: Vec<ScoredSymbol> = Vec::new();
    let mut i: usize = 0;
    proof {
        assert(scored@.take(0) =~= Seq::<ScoredSymbol>::empty());
        assert(codes_of(out@) =~= Seq::<Seq<char>>::empty());
        assert(codes_of(scored@.take(0)) =~= Seq::<Seq<char>>::empty());
    }
    while i < scored.len()
        invariant
            i <= scored@.len(),
            out@ == sort_desc(scored@.take(i as int)),
            out@.len() == i,
            codes_of(out@).to_multiset() == codes_of(scored@.take(i as int)).to_multiset(),
        decreases scored@.len() - i,
    {
        let x = scored[i].clone();
        let k = insert_pos(&out, x.score);
        let ghost prev = out@;
        out.insert(k, x);
        proof {
            lemma_insert_desc_at(prev, x, k as int);
            assert(scored@.take(i + 1).drop_last() =~= scored@.take(i as int));
            assert(scored@.take(i + 1).last() == scored@[i as int]);
            assert(sort_desc(scored@.take(i + 1)) == insert_desc(prev, x));
            lemma_insert_desc_len(prev, x);
            assert(codes_of(out@) =~= codes_of(prev).insert(k as int, x.code@));
            vstd::seq_lib::to_multiset_insert(codes_of(prev), k as int, x.code@);
            assert(codes_of(scored@.take(i + 1)) =~= codes_of(scored@.take(i as int)).push(
                scored@[i as int].code@,
            ));
            vstd::seq_lib::to_multiset_build(
                codes_of(scored@.take(i as int)),
                scored@[i as int].code@,
            );
        }
        i += 1;
    }
    proof {
        assert(scored@.take(scored@.len() as int) =~= scored@);
        lemma_sort_desc_sorted(scored@);
    }
    let ghost full = out@;
    proof {
        if codes_of(scored@).no_duplicates() {
            codes_of(scored@).lemma_multiset_has_no_duplicates();
            codes_of(full).lemma_multiset_has_no_duplicates_conv();
        }
    }
    if out.len() > 30 {
        out.truncate(30);
        proof {
            assert(out@ =~= sort_desc(scored@).take(30));
        }
    } else {
        proof {
            assert(out@ =~= sort_desc(scored@).take(scored@.len() as int));
        }
    }
    proof {
        assert(sorted_desc(out@)) by {
            assert(forall|a: int, b: int|
                0 <= a < b < out@.len() ==> out@[a] == sort_desc(scored@)[a] && out@[b]
                    == sort_desc(scored@)[b]);
        }
        if codes_of(scored@).no_duplicates() {
            assert forall|a: int, b: int| 0 <= a < b < codes_of(out@).len() implies codes_of(
                out@,
            )[a] != codes_of(out@)[b] by {
                assert(codes_of(out@)[a] == codes_of(full)[a]);
                assert(codes_of(out@)[b] == codes_of(full)[b]);
            }
        }
    }
    out
}

} // verus!

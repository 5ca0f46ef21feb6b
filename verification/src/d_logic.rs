//! The per-sector-best screening variant ("D"): collects the admitted
//! symbols of every 30-minute sub-interval from session open up to the
//! target time, lets sectors with at least three admitted names qualify,
//! and keeps the best-returning stock of each qualifying sector.

use vstd::prelude::*;

use crate::price::is_d;
use crate::rate::window_return;
use crate::seqs::{is_index_map, is_subsequence_of};
use crate::stock_filter::{
    all_rates_wf, contains_string, dstock_views, rated_views, select_best_stock_by_increase_rate,
    stocks_of, string_views, RatedStock,
};
use crate::stock_info::{lookup, strip_prefix_a, StockInfoManager, StockV};
use crate::store::{fetch_candles, get_all_tables, ScreenError};
use crate::times::{
    date_to_num, generate_time_intervals, is_date, is_time, time_to_minutes, timestamp_of,
};
use crate::volume::{
    codes_of, lemma_sort_desc_elems, rank_top30, sort_desc, trade_value_between, ScoredSymbol,
};

verus! {

/// One stock admitted by the D screening: canonical code, display name and
/// sector from the reference table.
#[derive(Debug)]
pub struct DStock {
    pub code: String,
    pub name: String,
    pub sector: String,
}

impl View for DStock {
    type V = StockV;

    open spec fn view(&self) -> StockV {
        StockV { code: self.code@, name: self.name@, sector: self.sector@ }
    }
}

impl Clone for DStock {
    fn clone(&self) -> (r: Self)
        ensures
            r == *self,
    {
        DStock { code: self.code.clone(), name: self.name.clone(), sector: self.sector.clone() }
    }
}

/// What a raw code resolves to in the reference table.
pub open spec fn resolved(entries: Seq<StockV>, code: Seq<char>) -> StockV {
    lookup(entries, strip_prefix_a(code))
}

/// `s` is what the reference table resolves some raw code to: a loaded
/// record, or the sentinel for a code the table does not hold.
pub open spec fn is_resolved_record(entries: Seq<StockV>, s: StockV) -> bool {
    exists|c: Seq<char>| s == resolved(entries, c)
}

/// Resolves each admitted code to its metadata record, in order. Resolution
/// never fails: unknown codes carry the sentinel name and sector.
pub fn map_stock_info(mgr: &StockInfoManager, codes: &Vec<String>) -> (r: Vec<DStock>)
    ensures
        r@.len() == codes@.len(),
        forall|i: int|
            0 <= i < r@.len() ==> (#[trigger] r@[i])@ == resolved(mgr@, codes@[i]@),
{
    let mut out: Vec<DStock> = Vec::new();
    let mut i: usize = 0;
    while i < codes.len()
        invariant
            i <= codes@.len(),
            out@.len() == i,
            forall|j: int|
                0 <= j < i ==> (#[trigger] out@[j])@ == resolved(mgr@, codes@[j]@),
        decreases codes@.len() - i,
    {
        let si = mgr.get_stock_info(codes[i].as_str());
        out.push(DStock { code: si.code, name: si.name, sector: si.sector });
        i += 1;
    }
    out
}

/// Ranks every listed symbol by trade value over `[from, to]` and keeps the
/// top 30. A symbol whose query fails or whose series is malformed is
/// excluded, never an error; so is one whose window sums to zero (an
/// untraded session).
pub(crate) fn select_top30_by_trade_value(
    conn: &rusqlite::Connection,
    tables: &Vec<String>,
    from: i64,
    to: i64,
) -> (r: Vec<String>)
    ensures
        r@.len() <= 30,
        forall|i: int|
            0 <= i < r@.len() ==> string_views(tables@).contains(
                #[trigger] string_views(r@)[i],
            ),
        string_views(tables@).no_duplicates() ==> string_views(r@).no_duplicates(),
{
    let mut scored: Vec<ScoredSymbol> = Vec::new();
    let ghost mut ids: Seq<int> = Seq::empty();
    let mut i: usize = 0;
    while i < tables.len()
        invariant
            i <= tables@.len(),
            ids.len() == scored@.len(),
            forall|a: int|
                0 <= a < ids.len() ==> 0 <= #[trigger] ids[a] < i && codes_of(scored@)[a]
                    == string_views(tables@)[ids[a]],
            forall|a: int, b: int| 0 <= a < b < ids.len() ==> ids[a] < ids[b],
            forall|a: int|
                0 <= a < scored@.len() ==> string_views(tables@).contains(
                    #[trigger] scored@[a].code@,
                ),
        decreases tables@.len() - i,
    {
        match fetch_candles(conn, tables[i].as_str(), from, to) {
            Ok(candles) => {
                match trade_value_between(&candles, from, to) {
                    Some(sum) => {
                        if sum > 0 {
                            let ghost prev = scored@;
                            scored.push(ScoredSymbol { code: tables[i].clone(), score: sum });
                            proof {
                                ids = ids.push(i as int);
                                assert(string_views(tables@)[i as int] == tables@[i as int]@);
                                assert(codes_of(scored@) =~= codes_of(prev).push(
                                    tables@[i as int]@,
                                ));
                                assert forall|a: int|
                                    0 <= a < scored@.len() implies string_views(tables@).contains(
                                    #[trigger] scored@[a].code@,
                                ) by {
                                    if a < prev.len() {
                                        assert(scored@[a] == prev[a]);
                                    } else {
                                        assert(scored@[a].code@ == string_views(
                                            tables@,
                                        )[i as int]);
                                    }
                                }
                            }
                        }
                    },
                    None => {},
                }
            },
            Err(_) => {},
        }
        i += 1;
    }
    proof {
        if string_views(tables@).no_duplicates() {
            assert forall|a: int, b: int| 0 <= a < b < codes_of(scored@).len() implies codes_of(
                scored@,
            )[a] != codes_of(scored@)[b] by {
                assert(codes_of(scored@)[a] == string_views(tables@)[ids[a]]);
                assert(codes_of(scored@)[b] == string_views(tables@)[ids[b]]);
            }
        }
    }
    let ranked = rank_top30(&scored);
    let mut out: Vec<String> = Vec::new();
    let mut k: usize = 0;
    while k < ranked.len()
        invariant
            out@.len() == k,
            k <= ranked@.len(),
            ranked@.len() <= 30,
            ranked@ == sort_desc(scored@).take(
                if scored@.len() < 30 {
                    scored@.len() as int
                } else {
                    30
                },
            ),
            string_views(tables@).no_duplicates() ==> codes_of(ranked@).no_duplicates(),
            forall|a: int| 0 <= a < out@.len() ==> string_views(out@)[a] == codes_of(ranked@)[a],
            forall|a: int|
                0 <= a < scored@.len() ==> string_views(tables@).contains(
                    #[trigger] scored@[a].code@,
                ),
            forall|a: int|
                0 <= a < out@.len() ==> string_views(tables@).contains(
                    #[trigger] string_views(out@)[a],
                ),
        decreases ranked@.len() - k,
    {
        let c = ranked[k].code.clone();
        let ghost prev = out@;
        out.push(c);
        proof {
            crate::volume::lemma_sort_desc_len(scored@);
            assert(ranked@[k as int] == sort_desc(scored@)[k as int]);
            lemma_sort_desc_elems(scored@);
            let m = choose|m: int|
                0 <= m < scored@.len() && sort_desc(scored@)[k as int] == scored@[m];
            assert(string_views(tables@).contains(scored@[m].code@));
            assert(string_views(out@) =~= string_views(prev).push(c@));
            assert forall|a: int|
                0 <= a < out@.len() implies string_views(tables@).contains(
                #[trigger] string_views(out@)[a],
            ) by {
                if a < prev.len() {
                    assert(string_views(out@)[a] == string_views(prev)[a]);
                } else {
                    assert(string_views(out@)[a] == scored@[m].code@);
                }
            }
            assert(string_views(out@)[out@.len() - 1] == codes_of(ranked@)[k as int]);
        }
        k += 1;
    }
    proof {
        if string_views(tables@).no_duplicates() {
            assert forall|a: int, b: int|
                0 <= a < b < string_views(out@).len() implies string_views(out@)[a]
                != string_views(out@)[b] by {
                assert(string_views(out@)[a] == codes_of(ranked@)[a]);
                assert(string_views(out@)[b] == codes_of(ranked@)[b]);
            }
        }
    }
    out
}

/// Keeps the candidates that the admission test passes on `[from, to]`, in
/// candidate order: the result is an order-preserving subsequence of the
/// input. A candidate whose query fails is dropped with the rest of the
/// batch kept, never an error.
pub(crate) fn filter_d_stocks(
    conn: &rusqlite::Connection,
    codes: &Vec<String>,
    from: i64,
    to: i64,
) -> (r: Vec<String>)
    ensures
        r@.len() <= codes@.len(),
        is_subsequence_of(string_views(r@), string_views(codes@)),
        forall|i: int|
            0 <= i < r@.len() ==> string_views(codes@).contains(
                #[trigger] string_views(r@)[i],
            ),
{
    let mut out: Vec<String> = Vec::new();
    let ghost mut ids: Seq<int> = Seq::empty();
    let mut i: usize = 0;
    while i < codes.len()
        invariant
            i <= codes@.len(),
            out@.len() <= i,
            ids.len() == out@.len(),
            forall|a: int|
                0 <= a < ids.len() ==> 0 <= #[trigger] ids[a] < i && string_views(out@)[a]
                    == string_views(codes@)[ids[a]],
            forall|a: int, b: int| 0 <= a < b < ids.len() ==> ids[a] < ids[b],
        decreases codes@.len() - i,
    {
        match fetch_candles(conn, codes[i].as_str(), from, to) {
            Ok(candles) => {
                if is_d(&candles, from, to) {
                    let c = codes[i].clone();
                    let ghost prev = out@;
                    out.push(c);
                    proof {
                        ids = ids.push(i as int);
                        assert(string_views(out@) =~= string_views(prev).push(c@));
                        assert(string_views(codes@)[i as int] == c@);
                    }
                }
            },
            Err(_) => {},
        }
        i += 1;
    }
    proof {
        assert(is_index_map(ids, string_views(out@), string_views(codes@)));
        crate::seqs::lemma_subsequence_contains(string_views(out@), string_views(codes@));
    }
    out
}

/// Collects the admitted symbols of every 30-minute window from session open
/// up to `to` (the Historical Sub-Interval Collector): runs the ranker and
/// the admission filter over `[09:00, t]` for each generated `t`, unions the
/// admitted codes without duplicates, and resolves their metadata. The
/// result resolves a duplicate-free list of raw codes — the union is a set —
/// and each window admits at most its 30 ranked candidates, so the union is
/// bounded by 30 stocks per generated window. Only a store-level failure is
/// an error.
pub fn evaluate_d_logic_before(
    conn: &rusqlite::Connection,
    mgr: &StockInfoManager,
    date: &str,
    to: &str,
) -> (r: Result<Vec<DStock>, ScreenError>)
    requires
        is_date(date@),
        is_time(to@),
    ensures
        r matches Ok(v) ==> v@.len() <= 30 * crate::times::intervals_from(
            crate::times::time_minutes(to@),
        ).len(),
        r matches Ok(v) ==> exists|codes: Seq<Seq<char>>|
            codes.no_duplicates() && v@.len() == codes.len() && (forall|i: int|
                0 <= i < v@.len() ==> (#[trigger] v@[i])@ == resolved(mgr@, codes[i])),
        r matches Err(e) ==> e is Store,
{
    let date_num = date_to_num(date);
    let tables = match get_all_tables(conn) {
        Ok(t) => t,
        Err(e) => {
            return Err(ScreenError::Store(e));
        },
    };
    let intervals = generate_time_intervals(to);
    let mut all_codes: Vec<String> = Vec::new();
    let mut idx: usize = 0;
    while idx < intervals.len()
        invariant
            0 <= date_num <= 99999999,
            idx <= intervals@.len(),
            all_codes@.len() <= 30 * idx,
            string_views(all_codes@).no_duplicates(),
            forall|i: int| 0 <= i < intervals@.len() ==> is_time(#[trigger] intervals@[i]@),
        decreases intervals@.len() - idx,
    {
        let t_min = time_to_minutes(intervals[idx].as_str());
        let from_ts = timestamp_of(date_num, 540);
        let to_ts = timestamp_of(date_num, t_min);
        let top = select_top30_by_trade_value(conn, &tables, from_ts, to_ts);
        let d_codes = filter_d_stocks(conn, &top, from_ts, to_ts);
        let mut c: usize = 0;
        while c < d_codes.len()
            invariant
                c <= d_codes@.len(),
                d_codes@.len() <= 30,
                all_codes@.len() <= 30 * idx + c,
                string_views(all_codes@).no_duplicates(),
            decreases d_codes@.len() - c,
        {
            if !contains_string(&all_codes, &d_codes[c]) {
                let ghost prev = all_codes@;
                let code = d_codes[c].clone();
                all_codes.push(code);
                proof {
                    assert(string_views(all_codes@) =~= string_views(prev).push(code@));
                    assert forall|a: int, b: int|
                        0 <= a < b < string_views(all_codes@).len() implies string_views(
                        all_codes@,
                    )[a] != string_views(all_codes@)[b] by {
                        if b == string_views(all_codes@).len() - 1 {
                            assert(!string_views(prev).contains(code@));
                            assert(string_views(prev)[a] != code@);
                        }
                    }
                }
            }
            c += 1;
        }
        idx += 1;
    }
    let ds = map_stock_info(mgr, &all_codes);
    proof {
        let w = string_views(all_codes@);
        assert(w.no_duplicates() && ds@.len() == w.len() && (forall|i: int|
            0 <= i < ds@.len() ==> (#[trigger] ds@[i])@ == resolved(mgr@, w[i])));
    }
    Ok(ds)
}

/// The D screening for one session window (per-sector-best policy): ranks by
/// trade value over `[09:00, to]`, admits by the D condition, resolves
/// metadata, qualifies the sectors that cluster three or more admitted names
/// across all preceding 30-minute windows, and keeps each qualifying
/// sector's best-returning candidate, ordered by descending session return.
/// At most one stock comes back per sector, each one a record the reference
/// table resolves some raw code to. Only a store-level failure is an error;
/// data sparsity yields an empty result.
pub fn evaluate_d_logic(
    conn: &rusqlite::Connection,
    mgr: &StockInfoManager,
    date: &str,
    to: &str,
) -> (r: Result<Vec<DStock>, ScreenError>)
    requires
        is_date(date@),
        is_time(to@),
    ensures
        r matches Ok(v) ==> forall|a: int, b: int|
            0 <= a < b < v@.len() ==> (#[trigger] v@[a])@.sector != (#[trigger] v@[b])@.sector,
        r matches Ok(v) ==> forall|a: int|
            0 <= a < v@.len() ==> is_resolved_record(mgr@, (#[trigger] v@[a])@),
        r matches Err(e) ==> e is Store,
{
    let date_num = date_to_num(date);
    let tables = match get_all_tables(conn) {
        Ok(t) => t,
        Err(e) => {
            return Err(ScreenError::Store(e));
        },
    };
    let to_min = time_to_minutes(to);
    let from_ts = timestamp_of(date_num, 540);
    let to_ts = timestamp_of(date_num, to_min);
    let top30 = select_top30_by_trade_value(conn, &tables, from_ts, to_ts);
    let d_codes = filter_d_stocks(conn, &top30, from_ts, to_ts);
    let ds = map_stock_info(mgr, &d_codes);
    let ghost dsv = ds@;
    let result = select_best_stock_by_increase_rate(conn, mgr, ds, date, to);
    proof {
        if result is Ok {
            let v = result->Ok_0;
            assert forall|a: int| 0 <= a < v@.len() implies is_resolved_record(
                mgr@,
                (#[trigger] v@[a])@,
            ) by {
                assert(dstock_views(dsv).contains(v@[a]@));
                let j = choose|j: int|
                    0 <= j < dstock_views(dsv).len() && dstock_views(dsv)[j] == v@[a]@;
                assert(dsv[j]@ == resolved(mgr@, d_codes@[j]@));
                assert(v@[a]@ == resolved(mgr@, d_codes@[j]@));
            }
        }
    }
    result
}

/// Computes the session return of each candidate over `[09:00, to]` (the
/// whole screening window, not the narrower admission one). A candidate
/// whose query fails is dropped with the batch kept: the rated list holds
/// some of the candidates, in candidate order, each with one rate.
pub(crate) fn rate_candidates(
    conn: &rusqlite::Connection,
    selected: &Vec<DStock>,
    date_num: i64,
    to_min: u16,
) -> (r: Vec<RatedStock>)
    requires
        0 <= date_num <= 99999999,
        to_min < 1440,
    ensures
        all_rates_wf(r@),
        r@.len() <= selected@.len(),
        is_subsequence_of(stocks_of(rated_views(r@)), dstock_views(selected@)),
{
    let from_ts = timestamp_of(date_num, 540);
    let to_ts = timestamp_of(date_num, to_min);
    let mut rated: Vec<RatedStock> = Vec::new();
    let ghost mut ids: Seq<int> = Seq::empty();
    let mut i: usize = 0;
    while i < selected.len()
        invariant
            i <= selected@.len(),
            all_rates_wf(rated@),
            rated@.len() <= i,
            ids.len() == rated@.len(),
            forall|a: int|
                0 <= a < ids.len() ==> 0 <= #[trigger] ids[a] < i && stocks_of(
                    rated_views(rated@),
                )[a] == dstock_views(selected@)[ids[a]],
            forall|a: int, b: int| 0 <= a < b < ids.len() ==> ids[a] < ids[b],
        decreases selected@.len() - i,
    {
        let table = table_of_code(selected[i].code.as_str());
        match fetch_candles(conn, table.as_str(), from_ts, to_ts) {
            Ok(candles) => {
                let rate = window_return(&candles, from_ts, to_ts);
                let ghost prev = rated@;
                let s = selected[i].clone();
                rated.push(RatedStock { stock: s, rate });
                proof {
                    ids = ids.push(i as int);
                    assert(stocks_of(rated_views(rated@)) =~= stocks_of(rated_views(prev)).push(
                        selected@[i as int]@,
                    ));
                }
            },
            Err(_) => {},
        }
        i += 1;
    }
    proof {
        assert(is_index_map(ids, stocks_of(rated_views(rated@)), dstock_views(selected@)));
    }
    rated
}

/// The store's table for a canonical code: the code under the `A` prefix.
pub fn table_of_code(code: &str) -> (t: String)
    ensures
        t@ == seq!['A'] + code@,
{
    let mut t = String::from_str("A");
    t.append(code);
    proof {
        reveal_strlit("A");
        assert(t@ =~= seq!['A'] + code@);
    }
    t
}

} // verus!

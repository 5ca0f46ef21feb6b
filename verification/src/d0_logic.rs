//! The single-best screening variant ("D0"): ranks and admits over the one
//! window `[09:00, to]`, qualifies the sectors that cluster three or more of
//! the window's own admitted names (no historical union), and returns the
//! single best-returning stock of the qualifying sectors — one stock at most,
//! or none.

use vstd::prelude::*;

use crate::d_logic::{
    filter_d_stocks, is_resolved_record, rate_candidates, resolved, select_top30_by_trade_value,
    DStock,
};
use crate::stock_filter::{
    dstock_views, filter_by_sectors, find_sectors_with_3_or_more, rated_views, select_single_best,
    stocks_of,
};
use crate::stock_info::{StockInfoManager, StockV};
use crate::store::{get_all_tables, ScreenError};
use crate::times::{date_to_num, is_date, is_time, time_to_minutes, timestamp_of};

verus! {

/// One stock selected by the D0 screening: canonical code, display name and
/// sector from the reference table.
#[derive(Debug)]
pub struct D0Stock {
    pub code: String,
    pub name: String,
    pub sector: String,
}

impl View for D0Stock {
    type V = StockV;

    open spec fn view(&self) -> StockV {
        StockV { code: self.code@, name: self.name@, sector: self.sector@ }
    }
}

impl Clone for D0Stock {
    fn clone(&self) -> (r: Self)
        ensures
            r == *self,
    {
        D0Stock { code: self.code.clone(), name: self.name.clone(), sector: self.sector.clone() }
    }
}

/// The D0 screening for one session window (single-best policy): ranks by
/// trade value over `[09:00, to]`, admits by the D condition, resolves
/// metadata, qualifies the sectors holding three or more of the admitted
/// names, and returns the single best-returning stock among candidates of
/// qualifying sectors — never more than one, and always a record the
/// reference table resolves some raw code to. If no sector qualifies, or no
/// return can be computed, the result is empty, not an error; only a
/// store-level failure is an error.
pub fn evaluate_d0_logic(
    conn: &rusqlite::Connection,
    mgr: &StockInfoManager,
    date: &str,
    to: &str,
) -> (r: Result<Vec<D0Stock>, ScreenError>)
    requires
        is_date(date@),
        is_time(to@),
    ensures
        r matches Ok(v) ==> v@.len() <= 1,
        r matches Ok(v) ==> forall|a: int|
            0 <= a < v@.len() ==> is_resolved_record(mgr@, (#[trigger] v@[a])@),
        r matches Err(e) ==> e is Store,
{
    let date_num = date_to_num(date);
    let tables = match get_all_tables(conn) {
        Ok(t) => t,
        Err(e) => {
            return Err(ScreenError::Store(e));
        },
    };
    let to_min = time_to_minutes(to);
    let from_ts = timestamp_of(date_num, 540);
    let to_ts = timestamp_of(date_num, to_min);
    let top30 = select_top30_by_trade_value(conn, &tables, from_ts, to_ts);
    let d0_codes = filter_d_stocks(conn, &top30, from_ts, to_ts);
    let d0s = map_stock_info(mgr, &d0_codes);
    let ds = as_dstocks(&d0s);
    let sectors = find_sectors_with_3_or_more(&ds);
    if sectors.len() == 0 {
        return Ok(Vec::new());
    }
    let selected = filter_by_sectors(&ds, &sectors);
    if selected.len() == 0 {
        return Ok(Vec::new());
    }
    let rated = rate_candidates(conn, &selected, date_num, to_min);
    let best = select_single_best(&rated);
    let mut out: Vec<D0Stock> = Vec::new();
    match best {
        Some(b) => {
            proof {
                crate::seqs::lemma_subsequence_contains(
                    stocks_of(rated_views(rated@)),
                    dstock_views(selected@),
                );
                assert(rated_views(rated@).contains(b@));
                let j = choose|j: int|
                    0 <= j < rated_views(rated@).len() && rated_views(rated@)[j] == b@;
                assert(stocks_of(rated_views(rated@))[j] == b@.stock);
                assert(dstock_views(selected@).contains(stocks_of(rated_views(rated@))[j]));
                let m = choose|m: int|
                    0 <= m < dstock_views(selected@).len() && dstock_views(selected@)[m]
                        == b@.stock;
                assert(dstock_views(ds@).contains(dstock_views(selected@)[m]));
                let n = choose|n: int|
                    0 <= n < dstock_views(ds@).len() && dstock_views(ds@)[n] == b@.stock;
                assert(ds@[n]@ == d0s@[n]@);
                assert(d0s@[n]@ == resolved(mgr@, d0_codes@[n]@));
                assert(is_resolved_record(mgr@, b@.stock));
            }
            out.push(D0Stock { code: b.stock.code, name: b.stock.name, sector: b.stock.sector });
        },
        None => {},
    }
    Ok(out)
}

/// The same stocks as D candidates, for the shared sector machinery.
fn as_dstocks(v: &Vec<D0Stock>) -> (r: Vec<DStock>)
    ensures
        r@.len() == v@.len(),
        forall|i: int| 0 <= i < r@.len() ==> (#[trigger] r@[i])@ == v@[i]@,
{
    let mut out: Vec<DStock> = Vec::new();
    let mut i: usize = 0;
    while i < v.len()
        invariant
            i <= v@.len(),
            out@.len() == i,
            forall|j: int| 0 <= j < i ==> (#[trigger] out@[j])@ == v@[j]@,
        decreases v@.len() - i,
    {
        let d = v[i].clone();
        out.push(DStock { code: d.code, name: d.name, sector: d.sector });
        i += 1;
    }
    out
}

/// Resolves each admitted code to its metadata record, in order, as D0
/// stocks. Resolution never fails: unknown codes carry the sentinel name and
/// sector.
pub fn map_stock_info(mgr: &StockInfoManager, codes: &Vec<String>) -> (r: Vec<D0Stock>)
    ensures
        r@.len() == codes@.len(),
        forall|i: int|
            0 <= i < r@.len() ==> (#[trigger] r@[i])@ == resolved(mgr@, codes@[i]@),
{
    let mut out: Vec<D0Stock> = Vec::new();
    let mut i: usize = 0;
    while i < codes.len()
        invariant
            i <= codes@.len(),
            out@.len() == i,
            forall|j: int|
                0 <= j < i ==> (#[trigger] out@[j])@ == resolved(mgr@, codes@[j]@),
        decreases codes@.len() - i,
    {
        let si = mgr.get_stock_info(codes[i].as_str());
        out.push(D0Stock { code: si.code, name: si.name, sector: si.sector });
        i += 1;
    }
    out
}

} // verus!

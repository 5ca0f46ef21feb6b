//! Session-return entry points: the percentage gain of one symbol over
//! `[09:00, to]`, over the preceding half hour, over an arbitrary custom
//! window, and over a batch of symbols. Returns come back as exact rationals
//! (see `Rate`); a window with no candles is a zero return by design, and a
//! failure on one symbol of a batch degrades that symbol to a zero return
//! without aborting the rest.

use vstd::prelude::*;

use crate::d_logic::table_of_code;
use crate::rate::{rate_wf, window_return, Rate};
use crate::store::{fetch_candles, ScreenError};
use crate::times::{date_to_num, is_date, is_time, time_to_minutes, timestamp_of};

verus! {

/// The fixed table of window upper bounds that the thirty-minute-step helper
/// recognizes: every half hour from 09:30 to 15:30.
pub open spec fn supported_half_hour(m: int) -> bool {
    570 <= m <= 930 && m % 30 == 0
}

/// The session return of `code` from 09:00 up to `to_time`: the exact
/// percentage gain from the window's first open to its last close, zero when
/// the symbol has no candles there. Only a store failure is an error.
pub fn calculate_increase_rate(
    conn: &rusqlite::Connection,
    stock_code: &str,
    date: &str,
    to_time: &str,
) -> (r: Result<Rate, ScreenError>)
    requires
        is_date(date@),
        is_time(to_time@),
    ensures
        r matches Ok(rate) ==> rate_wf(rate),
        r matches Err(e) ==> e is Store,
{
    let date_num = date_to_num(date);
    let to_min = time_to_minutes(to_time);
    window_rate(conn, stock_code, date_num, 540, to_min)
}

/// The return of `code` over the custom window `[from_time, to_time]`, with
/// the same zero-on-missing-data behaviour as the session return. Only a
/// store failure is an error.
pub fn calculate_increase_rate_custom_period(
    conn: &rusqlite::Connection,
    stock_code: &str,
    date: &str,
    from_time: &str,
    to_time: &str,
) -> (r: Result<Rate, ScreenError>)
    requires
        is_date(date@),
        is_time(from_time@),
        is_time(to_time@),
    ensures
        r matches Ok(rate) ==> rate_wf(rate),
        r matches Err(e) ==> e is Store,
{
    let date_num = date_to_num(date);
    let from_min = time_to_minutes(from_time);
    let to_min = time_to_minutes(to_time);
    window_rate(conn, stock_code, date_num, from_min, to_min)
}

/// The return of `code` over the thirty minutes ending at `to_time`.
/// `to_time` must come from the fixed half-hour table: any other time is
/// refused with `UnsupportedTime`, exactly then, never silently defaulted.
pub fn calculate_30min_increase_rate(
    conn: &rusqlite::Connection,
    stock_code: &str,
    date: &str,
    to_time: &str,
) -> (r: Result<Rate, ScreenError>)
    requires
        is_date(date@),
        is_time(to_time@),
    ensures
        r matches Err(e) && e is UnsupportedTime <==> !supported_half_hour(
            crate::times::time_minutes(to_time@),
        ),
        supported_half_hour(crate::times::time_minutes(to_time@)) ==> (r matches Err(e)
            ==> e is Store),
        r matches Ok(rate) ==> rate_wf(rate),
{
    let date_num = date_to_num(date);
    let to_min = time_to_minutes(to_time);
    if !(570 <= to_min && to_min <= 930 && to_min % 30 == 0) {
        return Err(ScreenError::UnsupportedTime);
    }
    let from_min = to_min - 30;
    window_rate(conn, stock_code, date_num, from_min, to_min)
}

/// The session return of each listed code independently: a failure on one
/// code degrades to a zero return for that code, never aborting the batch.
pub fn calculate_increase_rates_batch(
    conn: &rusqlite::Connection,
    stock_codes: &Vec<String>,
    date: &str,
    to_time: &str,
) -> (r: Vec<(String, Rate)>)
    requires
        is_date(date@),
        is_time(to_time@),
    ensures
        r@.len() == stock_codes@.len(),
        forall|i: int|
            0 <= i < r@.len() ==> (#[trigger] r@[i]).0@ == stock_codes@[i]@ && rate_wf(r@[i].1),
{
    let mut out: Vec<(String, Rate)> = Vec::new();
    let mut i: usize = 0;
    while i < stock_codes.len()
        invariant
            i <= stock_codes@.len(),
            out@.len() == i,
            is_date(date@),
            is_time(to_time@),
            forall|j: int|
                0 <= j < i ==> (#[trigger] out@[j]).0@ == stock_codes@[j]@ && rate_wf(out@[j].1),
        decreases stock_codes@.len() - i,
    {
        let code = stock_codes[i].clone();
        match calculate_increase_rate(conn, code.as_str(), date, to_time) {
            Ok(rate) => {
                out.push((code, rate));
            },
            Err(_) => {
                out.push((code, Rate::zero()));
            },
        }
        i += 1;
    }
    out
}

/// Fetches one symbol's candles and computes the exact window return.
pub(crate) fn window_rate(
    conn: &rusqlite::Connection,
    stock_code: &str,
    date_num: i64,
    from_min: u16,
    to_min: u16,
) -> (r: Result<Rate, ScreenError>)
    requires
        0 <= date_num <= 99999999,
        from_min < 1440,
        to_min < 1440,
    ensures
        r matches Ok(rate) ==> rate_wf(rate),
        r matches Err(e) ==> e is Store,
{
    let from_ts = timestamp_of(date_num, from_min);
    let to_ts = timestamp_of(date_num, to_min);
    let table = table_of_code(stock_code);
    match fetch_candles(conn, table.as_str(), from_ts, to_ts) {
        Ok(candles) => Ok(window_return(&candles, from_ts, to_ts)),
        Err(e) => Err(ScreenError::Store(e)),
    }
}

} // verus!

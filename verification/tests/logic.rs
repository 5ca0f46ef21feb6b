use stock_screener::candle::Candle;
use stock_screener::price::is_d;
use stock_screener::rate::{window_return, Rate};
use stock_screener::stock_filter::{
    best_per_sector_sorted, filter_by_sectors, find_sectors_with_3_or_more, select_single_best,
    RatedStock,
};
use stock_screener::d_logic::DStock;
use stock_screener::times::{check_date, check_time, generate_time_intervals, subtract_30_minutes};
use stock_screener::volume::{rank_top30, trade_value_between, ScoredSymbol};

fn candle(ts: i64, open: i64, close: i64, volume: i64) -> Candle {
    Candle { ts, open, close, volume }
}

fn stock(code: &str, name: &str, sector: &str) -> DStock {
    DStock { code: code.to_string(), name: name.to_string(), sector: sector.to_string() }
}

fn rated(code: &str, sector: &str, num: i128, den: i64) -> RatedStock {
    RatedStock { stock: stock(code, code, sector), rate: Rate { num, den } }
}

#[test]
fn trade_value_sums_volume_times_mid_price() {
    let candles = vec![
        candle(202504300905, 100, 110, 10),
        candle(202504300910, 110, 120, 20),
    ];
    let v = trade_value_between(&candles, 202504300900, 202504300930);
    assert_eq!(v, Some(3350));
}

#[test]
fn trade_value_empty_window_is_zero() {
    let candles = vec![candle(202504301000, 100, 110, 10)];
    let v = trade_value_between(&candles, 202504300900, 202504300930);
    assert_eq!(v, Some(0));
}

#[test]
fn trade_value_ignores_candles_outside_window() {
    let candles = vec![
        candle(202504300905, 100, 110, 10),
        candle(202504301000, 100, 110, 1000),
    ];
    let v = trade_value_between(&candles, 202504300900, 202504300930);
    assert_eq!(v, Some(1050));
}

#[test]
fn trade_value_rejects_malformed_candle() {
    let candles = vec![candle(202504300905, 100, 110, -10)];
    assert_eq!(trade_value_between(&candles, 202504300900, 202504300930), None);
    // Malformed rows outside the window do not poison it.
    let candles = vec![
        candle(202504300905, 100, 110, 10),
        candle(202504301000, -5, 110, 10),
    ];
    assert_eq!(
        trade_value_between(&candles, 202504300900, 202504300930),
        Some(1050)
    );
}

#[test]
fn trade_value_saturates_instead_of_wrapping() {
    let candles = vec![
        candle(202504300905, i64::MAX, i64::MAX, i64::MAX),
        candle(202504300910, i64::MAX, i64::MAX, i64::MAX),
    ];
    let v = trade_value_between(&candles, 202504300900, 202504300930);
    assert_eq!(v, Some(i64::MAX));
}

#[test]
fn admission_ignores_candles_outside_window() {
    // A huge spike after the window does not admit the symbol.
    let candles = vec![
        candle(202504300905, 1000, 1010, 10),
        candle(202504301100, 1010, 9999, 10),
    ];
    assert!(!is_d(&candles, 202504300900, 202504300930));
}

#[test]
fn admission_holds_on_twenty_percent_breakout() {
    // First candle opens at 1000 at session open, last closes at 1200:
    // rate = (1200 - 1000) / 1000 * 100 = 20, and 200 > 1000 / 30 = 33 holds.
    let candles = vec![
        candle(202504300900, 1000, 1100, 10),
        candle(202504300930, 1100, 1200, 10),
    ];
    assert!(is_d(&candles, 202504300900, 202504300930));
}

#[test]
fn admission_fails_without_candles() {
    let empty: Vec<Candle> = Vec::new();
    assert!(!is_d(&empty, 202504300900, 202504300930));
    let outside = vec![candle(202504301000, 1000, 2000, 10)];
    assert!(!is_d(&outside, 202504300900, 202504300930));
}

#[test]
fn admission_fails_below_five_percent() {
    // 4.9 percent gain: under the rate floor whatever the candle shape.
    let candles = vec![
        candle(202504300900, 1000, 1049, 10),
        candle(202504300930, 1049, 1049, 10),
    ];
    assert!(!is_d(&candles, 202504300900, 202504300930));
}

#[test]
fn admission_boundary_exactly_five_percent() {
    let candles = vec![
        candle(202504300900, 1000, 1050, 10),
        candle(202504300930, 1050, 1050, 10),
    ];
    assert!(is_d(&candles, 202504300900, 202504300930));
}

#[test]
fn admission_guards_zero_open() {
    let candles = vec![candle(202504300900, 0, 100, 10)];
    assert!(!is_d(&candles, 202504300900, 202504300930));
}

#[test]
fn admission_scans_in_timestamp_order() {
    // The series arrives unsorted; the scan still pairs the earliest open
    // with the latest close.
    let candles = vec![
        candle(202504300930, 1100, 1200, 10),
        candle(202504300900, 1000, 1100, 10),
    ];
    assert!(is_d(&candles, 202504300900, 202504300930));
}

#[test]
fn window_return_of_empty_window_is_zero() {
    let empty: Vec<Candle> = Vec::new();
    let r = window_return(&empty, 202504300900, 202504300930);
    assert_eq!(r, Rate { num: 0, den: 1 });
}

#[test]
fn window_return_is_gain_over_open() {
    let candles = vec![
        candle(202504300900, 1000, 1100, 10),
        candle(202504300930, 1100, 1200, 10),
    ];
    let r = window_return(&candles, 202504300900, 202504300930);
    assert_eq!(r, Rate { num: 200, den: 1000 });
    // As a percentage: 20.0.
    let pct = r.num as f64 / r.den as f64 * 100.0;
    assert_eq!(pct, 20.0);
}

#[test]
fn ranker_sorts_descending_and_keeps_ties_stable() {
    let scored = vec![
        ScoredSymbol { code: "a".to_string(), score: 3 },
        ScoredSymbol { code: "b".to_string(), score: 9 },
        ScoredSymbol { code: "c".to_string(), score: 9 },
        ScoredSymbol { code: "d".to_string(), score: 1 },
        ScoredSymbol { code: "e".to_string(), score: 9 },
    ];
    let ranked = rank_top30(&scored);
    let codes: Vec<&str> = ranked.iter().map(|s| s.code.as_str()).collect();
    assert_eq!(codes, vec!["b", "c", "e", "a", "d"]);
}

#[test]
fn ranker_truncates_to_thirty() {
    let mut scored = Vec::new();
    for i in 0..32i64 {
        scored.push(ScoredSymbol { code: format!("s{}", i), score: i });
    }
    let ranked = rank_top30(&scored);
    assert_eq!(ranked.len(), 30);
    assert_eq!(ranked[0].score, 31);
    assert_eq!(ranked[29].score, 2);
}

#[test]
fn subtract_thirty_minutes_clamps_at_session_open() {
    assert_eq!(subtract_30_minutes("0900"), "0900");
    assert_eq!(subtract_30_minutes("0915"), "0900");
    assert_eq!(subtract_30_minutes("1000"), "0930");
    assert_eq!(subtract_30_minutes("1307"), "1237");
}

#[test]
fn time_and_date_formats_are_checked() {
    assert!(check_time("0930"));
    assert!(check_time("2359"));
    assert!(!check_time("2400"));
    assert!(!check_time("0960"));
    assert!(!check_time("93"));
    assert!(!check_time("09h0"));
    assert!(check_date("2025-04-30"));
    assert!(!check_date("2025/04/30"));
    assert!(!check_date("20250430"));
    assert!(!check_date("2025-4-30"));
}

#[test]
fn subtract_thirty_minutes_handles_hour_wrap() {
    assert_eq!(subtract_30_minutes("2359"), "2329");
    assert_eq!(subtract_30_minutes("1015"), "0945");
}

#[test]
fn intervals_step_back_to_nine_thirty() {
    assert_eq!(generate_time_intervals("1030"), vec!["0930", "1000", "1030"]);
    assert_eq!(generate_time_intervals("0930"), vec!["0930"]);
    let none: Vec<String> = Vec::new();
    assert_eq!(generate_time_intervals("0900"), none);
}

#[test]
fn sectors_qualify_at_three_members() {
    let ds = vec![
        stock("1", "a", "tech"),
        stock("2", "b", "tech"),
        stock("3", "c", "auto"),
        stock("4", "d", "tech"),
        stock("5", "e", "auto"),
    ];
    assert_eq!(find_sectors_with_3_or_more(&ds), vec!["tech"]);
    let ds2 = vec![
        stock("1", "a", "auto"),
        stock("2", "b", "tech"),
        stock("3", "c", "auto"),
        stock("4", "d", "tech"),
        stock("5", "e", "auto"),
        stock("6", "f", "tech"),
    ];
    assert_eq!(find_sectors_with_3_or_more(&ds2), vec!["auto", "tech"]);
    let empty: Vec<DStock> = Vec::new();
    let no_sectors: Vec<String> = Vec::new();
    assert_eq!(find_sectors_with_3_or_more(&empty), no_sectors);
}

#[test]
fn filter_keeps_only_qualifying_sectors() {
    let ds = vec![
        stock("1", "a", "tech"),
        stock("2", "b", "auto"),
        stock("3", "c", "tech"),
    ];
    let sectors = vec!["tech".to_string()];
    let kept = filter_by_sectors(&ds, &sectors);
    let codes: Vec<&str> = kept.iter().map(|d| d.code.as_str()).collect();
    assert_eq!(codes, vec!["1", "3"]);
}

#[test]
fn per_sector_best_keeps_one_per_sector_sorted_by_return() {
    let rs = vec![
        rated("t1", "tech", 1, 100),
        rated("t2", "tech", 5, 100),
        rated("a1", "auto", 4, 100),
        rated("t3", "tech", 3, 100),
        rated("a2", "auto", 2, 100),
        rated("a3", "auto", 4, 100),
    ];
    let sectors = vec!["tech".to_string(), "auto".to_string()];
    let best = best_per_sector_sorted(&rs, &sectors);
    let codes: Vec<&str> = best.iter().map(|r| r.stock.code.as_str()).collect();
    // One stock per sector; tech's 5% beats auto's 4%; within auto the
    // first-seen 4% ("a1") wins over the equal later one ("a3").
    assert_eq!(codes, vec!["t2", "a1"]);
}

#[test]
fn per_sector_best_skips_sector_without_candidates() {
    let rs = vec![rated("t1", "tech", 1, 100)];
    let sectors = vec!["auto".to_string(), "tech".to_string()];
    let best = best_per_sector_sorted(&rs, &sectors);
    let codes: Vec<&str> = best.iter().map(|r| r.stock.code.as_str()).collect();
    assert_eq!(codes, vec!["t1"]);
}

#[test]
fn single_best_returns_at_most_one() {
    let none: Vec<RatedStock> = Vec::new();
    assert!(select_single_best(&none).is_none());
    let rs = vec![
        rated("x", "tech", 3, 100),
        rated("y", "auto", 7, 100),
        rated("z", "bank", 7, 100),
    ];
    let best = select_single_best(&rs).unwrap();
    // The later equal return does not displace the first-seen best.
    assert_eq!(best.stock.code, "y");
}

#[test]
fn rate_comparison_is_exact_across_denominators() {
    // 1/3 > 33/100 even though both round to 0.33.
    let a = rated("a", "s", 1, 3);
    let b = rated("b", "s", 33, 100);
    let best = select_single_best(&vec![b, a]).unwrap();
    assert_eq!(best.stock.code, "a");
}

use rusqlite::Connection;
use stock_screener::d0_logic::evaluate_d0_logic;
use stock_screener::d_logic::{evaluate_d_logic, evaluate_d_logic_before};
use stock_screener::price_calculator::{
    calculate_30min_increase_rate, calculate_increase_rate, calculate_increase_rate_custom_period,
    calculate_increase_rates_batch,
};
use stock_screener::rate::Rate;
use stock_screener::stock_info::StockInfoManager;
use stock_screener::store::{get_all_tables, open, ScreenError};

fn add_series(conn: &Connection, table: &str, rows: &[(i64, i64, i64, i64)]) {
    let create = format!(
        "CREATE TABLE {} (date INTEGER, open INTEGER, close INTEGER, volume INTEGER)",
        table
    );
    conn.execute(&create, ()).unwrap();
    let insert = format!("INSERT INTO {} VALUES (?1, ?2, ?3, ?4)", table);
    for (ts, o, c, v) in rows {
        conn.execute(&insert, (*ts, *o, *c, *v)).unwrap();
    }
}

/// Five symbols on 2025-04-30: three admitted breakouts in `tech`, one flat
/// `auto` name, one lone admitted `auto` breakout.
fn sample_store() -> Connection {
    let conn = Connection::open_in_memory().unwrap();
    add_series(
        &conn,
        "A000001",
        &[
            (202504300905, 1000, 1100, 100),
            (202504300930, 1100, 1200, 100),
        ],
    );
    add_series(
        &conn,
        "A000002",
        &[
            (202504300905, 500, 530, 200),
            (202504300930, 530, 560, 200),
        ],
    );
    add_series(
        &conn,
        "A000003",
        &[
            (202504300905, 100, 106, 50),
            (202504300930, 106, 109, 50),
        ],
    );
    add_series(&conn, "A000004", &[(202504300905, 1000, 1010, 300)]);
    add_series(&conn, "A000005", &[(202504300905, 1000, 1300, 10)]);
    conn
}

fn sample_metadata() -> StockInfoManager {
    let mut mgr = StockInfoManager::new();
    let lines: Vec<String> = vec![
        "code,name,sector".to_string(),
        "000001,Alpha,tech".to_string(),
        "000002,Beta,tech".to_string(),
        "000003,Gamma,tech".to_string(),
        "000004,Delta,auto".to_string(),
        "000005,Epsilon,auto".to_string(),
    ];
    mgr.load_from_rows(&lines);
    mgr
}

#[test]
fn lists_all_series() {
    let conn = sample_store();
    let tables = get_all_tables(&conn).unwrap();
    assert_eq!(tables.len(), 5);
    assert!(tables.iter().any(|t| t == "A000001"));
}

#[test]
fn d0_screen_selects_single_best_of_qualifying_sector() {
    let conn = sample_store();
    let mgr = sample_metadata();
    let result = evaluate_d0_logic(&conn, &mgr, "2025-04-30", "0930").unwrap();
    // tech clusters three admitted names and qualifies; auto has only one
    // admitted name. Alpha's 20 percent session return beats Beta's 12 and
    // Gamma's 9, and the single-best policy returns exactly one stock.
    assert_eq!(result.len(), 1);
    assert_eq!(result[0].code, "000001");
    assert_eq!(result[0].name, "Alpha");
    assert_eq!(result[0].sector, "tech");
}

#[test]
fn d_screen_returns_best_per_qualifying_sector() {
    let conn = sample_store();
    let mgr = sample_metadata();
    let result = evaluate_d_logic(&conn, &mgr, "2025-04-30", "0930").unwrap();
    assert_eq!(result.len(), 1);
    assert_eq!(result[0].code, "000001");
    assert_eq!(result[0].sector, "tech");
}

#[test]
fn historical_union_collects_admitted_codes_once() {
    let conn = sample_store();
    let mgr = sample_metadata();
    let before = evaluate_d_logic_before(&conn, &mgr, "2025-04-30", "1000").unwrap();
    // Both generated windows ([09:00,09:30] and [09:00,10:00]) admit the
    // same four breakouts; the union holds each code once.
    assert_eq!(before.len(), 4);
    let mut codes: Vec<&str> = before.iter().map(|d| d.code.as_str()).collect();
    codes.sort();
    assert_eq!(codes, vec!["000001", "000002", "000003", "000005"]);
}

#[test]
fn empty_store_screens_to_empty_result() {
    let conn = Connection::open_in_memory().unwrap();
    let mgr = sample_metadata();
    let d0 = evaluate_d0_logic(&conn, &mgr, "2025-04-30", "0930").unwrap();
    assert!(d0.is_empty());
    let d = evaluate_d_logic(&conn, &mgr, "2025-04-30", "0930").unwrap();
    assert!(d.is_empty());
}

#[test]
fn session_return_is_exact() {
    let conn = sample_store();
    let r = calculate_increase_rate(&conn, "000001", "2025-04-30", "0930").unwrap();
    assert_eq!(r, Rate { num: 200, den: 1000 });
    let pct = r.num as f64 / r.den as f64 * 100.0;
    assert_eq!(pct, 20.0);
}

#[test]
fn session_return_of_unknown_symbol_is_store_error() {
    let conn = sample_store();
    let r = calculate_increase_rate(&conn, "999999", "2025-04-30", "0930");
    assert!(matches!(r, Err(ScreenError::Store(_))));
}

#[test]
fn custom_period_return_reads_the_given_window() {
    let conn = sample_store();
    let r =
        calculate_increase_rate_custom_period(&conn, "000001", "2025-04-30", "0910", "0930")
            .unwrap();
    // Only the 09:30 candle lies in [09:10, 09:30]: open 1100, close 1200.
    assert_eq!(r, Rate { num: 100, den: 1100 });
}

#[test]
fn thirty_minute_return_requires_supported_time() {
    let conn = sample_store();
    let r = calculate_30min_increase_rate(&conn, "000001", "2025-04-30", "0945");
    assert!(matches!(r, Err(ScreenError::UnsupportedTime)));
    let r = calculate_30min_increase_rate(&conn, "000001", "2025-04-30", "1600");
    assert!(matches!(r, Err(ScreenError::UnsupportedTime)));
    let ok = calculate_30min_increase_rate(&conn, "000001", "2025-04-30", "0930").unwrap();
    assert_eq!(ok, Rate { num: 200, den: 1000 });
}

#[test]
fn batch_returns_degrade_per_symbol() {
    let conn = sample_store();
    let codes = vec!["000001".to_string(), "999999".to_string()];
    let rates = calculate_increase_rates_batch(&conn, &codes, "2025-04-30", "0930");
    assert_eq!(rates.len(), 2);
    assert_eq!(rates[0].0, "000001");
    assert_eq!(rates[0].1, Rate { num: 200, den: 1000 });
    assert_eq!(rates[1].0, "999999");
    assert_eq!(rates[1].1, Rate { num: 0, den: 1 });
}

#[test]
fn missing_data_is_zero_return_not_error() {
    let conn = Connection::open_in_memory().unwrap();
    add_series(&conn, "A000009", &[(202504301300, 100, 200, 5)]);
    // The symbol exists but has nothing in the morning window.
    let r = calculate_increase_rate(&conn, "000009", "2025-04-30", "0930").unwrap();
    assert_eq!(r, Rate { num: 0, den: 1 });
}

#[test]
fn open_fails_on_unreachable_path() {
    assert!(open("/nonexistent-dir/never/stock.db").is_err());
}

#[test]
fn test_calculate_increase_rate() {
    // Runs only against the real five-minute store, when it exists.
    let conn = open("D:/db/stock_price(5min).db");
    if conn.is_err() {
        println!("skipping: no local candle store");
        return;
    }
    let conn = conn.unwrap();
    let result = calculate_increase_rate(&conn, "005930", "2025-03-05", "0930");
    match result {
        Ok(rate) => {
            let pct = rate.num as f64 / rate.den as f64 * 100.0;
            println!("session return: {}%", pct);
            assert!(pct >= -100.0 && pct <= 1000.0);
        },
        Err(_) => {
            println!("session return unavailable");
        },
    }
}

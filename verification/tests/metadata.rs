use stock_screener::stock_info::{parse_csv_line, StockInfoManager};

fn loaded(rows: &[&str]) -> StockInfoManager {
    let mut mgr = StockInfoManager::new();
    let lines: Vec<String> = rows.iter().map(|r| r.to_string()).collect();
    mgr.load_from_rows(&lines);
    mgr
}

#[test]
fn resolves_loaded_code() {
    let mgr = loaded(&["code,name,sector", "005930,Samsung,Electronics"]);
    let si = mgr.get_stock_info("005930");
    assert_eq!(si.code, "005930");
    assert_eq!(si.name, "Samsung");
    assert_eq!(si.sector, "Electronics");
}

#[test]
fn missing_code_resolves_to_sentinel() {
    let mgr = loaded(&["code,name,sector"]);
    let si = mgr.get_stock_info("999999");
    assert_eq!(si.code, "999999");
    assert_eq!(si.name, "unknown");
    assert_eq!(si.sector, "other");
}

#[test]
fn store_prefix_is_stripped() {
    let mgr = loaded(&["code,name,sector", "005930,Samsung,Electronics"]);
    let with_prefix = mgr.get_stock_info("A005930");
    let bare = mgr.get_stock_info("005930");
    assert_eq!(with_prefix.code, bare.code);
    assert_eq!(with_prefix.name, bare.name);
    assert_eq!(with_prefix.sector, bare.sector);
}

#[test]
fn prefix_roundtrip_holds_for_unknown_codes_too() {
    let mgr = loaded(&["code,name,sector"]);
    let with_prefix = mgr.get_stock_info("A123456");
    let bare = mgr.get_stock_info("123456");
    assert_eq!(with_prefix.code, bare.code);
    assert_eq!(with_prefix.name, bare.name);
    assert_eq!(with_prefix.sector, bare.sector);
}

#[test]
fn later_row_overwrites_earlier() {
    let mgr = loaded(&[
        "code,name,sector",
        "005930,Old Name,Old Sector",
        "005930,New Name,New Sector",
    ]);
    let si = mgr.get_stock_info("005930");
    assert_eq!(si.name, "New Name");
    assert_eq!(si.sector, "New Sector");
}

#[test]
fn header_row_is_skipped() {
    let mgr = loaded(&["005930,Header Name,Header Sector"]);
    let si = mgr.get_stock_info("005930");
    assert_eq!(si.name, "unknown");
}

#[test]
fn short_rows_add_nothing() {
    let mgr = loaded(&["code,name,sector", "005930,OnlyName", "000660,SK,Chips"]);
    assert_eq!(mgr.get_stock_info("005930").name, "unknown");
    assert_eq!(mgr.get_stock_info("000660").name, "SK");
}

#[test]
fn fields_are_trimmed() {
    let mgr = loaded(&["code,name,sector", " 005930 ,\tSamsung , Electronics\r"]);
    let si = mgr.get_stock_info("005930");
    assert_eq!(si.name, "Samsung");
    assert_eq!(si.sector, "Electronics");
}

#[test]
fn csv_line_parses_first_three_fields() {
    let si = parse_csv_line("005930,Samsung,Electronics,ignored,extra").unwrap();
    assert_eq!(si.code, "005930");
    assert_eq!(si.name, "Samsung");
    assert_eq!(si.sector, "Electronics");
    assert!(parse_csv_line("too,short").is_none());
    let empty = parse_csv_line(",,").unwrap();
    assert_eq!(empty.code, "");
}

#[test]
fn default_table_is_empty() {
    let mgr = StockInfoManager::default();
    assert_eq!(mgr.get_stock_info("005930").name, "unknown");
}

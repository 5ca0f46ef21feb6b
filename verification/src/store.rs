//! The candle store boundary. The store is a sqlite database holding one
//! table per symbol, each row a five-minute candle with integer `date`
//! (`YYYYMMDDHHmm`), `open`, `close` and `volume` columns. Everything read
//! from it is re-checked by the verified pipeline: these wrappers promise
//! nothing about what the disk holds.

use vstd::prelude::*;

use crate::candle::Candle;

verus! {

#[verifier::external_type_specification]
#[verifier::external_body]
pub struct ExConnection(rusqlite::Connection);

#[verifier::external_type_specification]
#[verifier::external_body]
pub struct ExSqlError(rusqlite::Error);

/// Opens a connection to the candle database at `path`.
/// Relies on rusqlite's `Connection::open`.
#[verifier::external_body]
pub fn open(path: &str) -> (r: Result<rusqlite::Connection, rusqlite::Error>) {
    rusqlite::Connection::open(path)
}

/// Lists the store's table names, one candle series per symbol.
/// Relies on rusqlite's `Connection::prepare` and `Statement::query_map`
/// over the `sqlite_master` catalog.
#[verifier::external_body]
pub fn get_all_tables(conn: &rusqlite::Connection) -> (r: Result<Vec<String>, rusqlite::Error>) {
    let mut stmt = conn.prepare("SELECT name FROM sqlite_master WHERE type='table'")?;
    let tables: Vec<String> = stmt
        .query_map((), |row| row.get(0))?
        .filter_map(Result::ok)
        .collect();
    Ok(tables)
}

/// Reads one symbol's candles with `date` in `[from, to]`, in the store's
/// `ORDER BY date` order. What comes back depends on the database file, so
/// nothing is promised of it; callers re-check every row.
/// Relies on rusqlite's `Connection::prepare` and `Statement::query_map`.
#[verifier::external_body]
pub fn fetch_candles(conn: &rusqlite::Connection, table: &str, from: i64, to: i64) -> (r: Result<
    Vec<Candle>,
    rusqlite::Error,
>) {
    let sql = format!(
        "SELECT date, open, close, volume FROM {} WHERE date BETWEEN ?1 AND ?2 ORDER BY date",
        table,
    );
    let mut stmt = conn.prepare(&sql)?;
    let rows = stmt.query_map((from, to), |row| {
        Ok(Candle { ts: row.get(0)?, open: row.get(1)?, close: row.get(2)?, volume: row.get(3)? })
    })?;
    let mut out = Vec::new();
    for row in rows {
        out.push(row?);
    }
    Ok(out)
}

/// The errors a screening call can surface. Per-symbol query failures are
/// never surfaced: they exclude the symbol and the pipeline goes on.
#[derive(Debug)]
pub enum ScreenError {
    /// The store could not be queried (connection-level failure).
    Store(rusqlite::Error),
    /// The thirty-minute-step return helper was given a `to` time outside
    /// its fixed table of supported times.
    UnsupportedTime,
}

} // verus!

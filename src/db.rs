//! The SQLite store of derived rows, through rusqlite.
use vstd::prelude::*;

verus! {

#[verifier::external_type_specification]
#[verifier::external_body]
pub struct ExConnection(rusqlite::Connection);

#[verifier::external_type_specification]
#[verifier::external_body]
pub struct ExSqlError(rusqlite::Error);

/// The table of derived rows, one per asset and date.
pub const SCHEMA_SQL: &'static str = "CREATE TABLE IF NOT EXISTS asset_data (
  id INTEGER PRIMARY KEY AUTOINCREMENT,
  Date TEXT,
  Open REAL,
  High REAL,
  Low REAL,
  Close REAL,
  \"%change\" REAL,
  \"M-no\" INTEGER,
  normalized REAL,
  Average_Norm REAL,
  True_Seasonal REAL,
  asset TEXT,
  processed_date TEXT
);";

/// Removes the table of derived rows.
pub const DROP_SQL: &'static str = "DROP TABLE IF EXISTS asset_data";

/// Relies on rusqlite's `Connection::open`: opens or creates the database file.
#[verifier::external_body]
fn open_connection(db_path: &str) -> (r: Result<rusqlite::Connection, rusqlite::Error>) {
    rusqlite::Connection::open(db_path)
}

/// Relies on rusqlite's `Connection::execute_batch`: runs the statements in order.
#[verifier::external_body]
fn execute_batch(conn: &rusqlite::Connection, sql: &str) -> (r: Result<(), rusqlite::Error>) {
    conn.execute_batch(sql)
}

/// Relies on rusqlite's `Connection::execute` with no parameters: runs one
/// statement and returns the number of rows it changed.
#[verifier::external_body]
fn execute(conn: &rusqlite::Connection, sql: &str) -> (r: Result<usize, rusqlite::Error>) {
    conn.execute(sql, [])
}

/// Creates the table of derived rows if it does not exist yet.
pub fn ensure_schema(db_path: &str) -> (r: Result<(), rusqlite::Error>) {
    let conn = open_connection(db_path)?;
    execute_batch(&conn, SCHEMA_SQL)
}

/// Drops every stored row by dropping the table, then creates it afresh.
pub fn clear_all(db_path: &str) -> (r: Result<(), rusqlite::Error>) {
    {
        let conn = open_connection(db_path)?;
        execute(&conn, DROP_SQL)?;
    }
    ensure_schema(db_path)
}

} // verus!

//! The calls into the relational store.

use vstd::prelude::*;

verus! {

/// The connection `rusqlite::Connection` to a store; nothing is said of
/// what the store holds.
#[verifier::external_type_specification]
#[verifier::external_body]
pub struct ExConnection(rusqlite::Connection);

/// The error `rusqlite::Error` of a store.
#[verifier::external_type_specification]
#[verifier::external_body]
pub struct ExStoreError(rusqlite::Error);

/// Calls `rusqlite::Connection::execute` without parameters: runs one
/// statement that returns no rows, and gives the number of rows it
/// changed. What comes back depends on what the store holds.
#[verifier::external_body]
pub(crate) fn store_execute(database: &rusqlite::Connection, sql: &str) -> (r: Result<usize, rusqlite::Error>) {
    database.execute(sql, ())
}

/// Calls `rusqlite::Connection::query_row` without parameters and reads
/// the first column of the first row as an integer. What comes back
/// depends on what the store holds.
#[verifier::external_body]
pub(crate) fn store_count(database: &rusqlite::Connection, sql: &str) -> (r: Result<i64, rusqlite::Error>) {
    database.query_row(sql, (), |row| row.get(0))
}

/// Calls `rusqlite::Connection::prepare` and `rusqlite::Statement::query_map`
/// without parameters, and reads the first `columns` columns of each row
/// as text. What comes back depends on what the store holds; each row that
/// comes back has `columns` texts, since a row with fewer columns is an
/// error.
#[verifier::external_body]
pub(crate) fn store_rows(database: &rusqlite::Connection, sql: &str, columns: usize) -> (r: Result<
    Vec<Vec<String>>,
    rusqlite::Error,
>)
    ensures
        r matches Ok(rows) ==> forall|i: int|
            0 <= i < rows@.len() ==> (#[trigger] rows@[i])@.len() == columns,
{
    let mut statement = database.prepare(sql)?;
    let rows = statement.query_map((), |row| (0..columns).map(|i| row.get(i)).collect())?;
    rows.collect()
}

/// Writes the message of an error of the store, as its `Display` gives it.
#[verifier::external_body]
pub(crate) fn store_message(error: &rusqlite::Error) -> (message: String) {
    error.to_string()
}

} // verus!

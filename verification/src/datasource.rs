//! The interface of a datasource.

use vstd::prelude::*;

use crate::error::DatasourceError;
use crate::model::{ConnectionConfig, Row, SyncMode, TableSchema, Value};

verus! {

/// Standard datasource interface: what every database behind the transfer core
/// offers.
pub trait Datasource {
    /// Short identifier of the datasource type, e.g. `mysql`.
    fn name(&self) -> &'static str;

    /// Establish the connection (or connection pool) described by `cfg`.
    fn connect(&mut self, cfg: &ConnectionConfig) -> Result<(), DatasourceError>;

    /// Read the structure of `table`.
    fn get_schema(&self, table: &str) -> Result<TableSchema, DatasourceError>;

    /// Run a read-only SQL statement and return every row.
    fn query(&self, sql: &str) -> Result<Vec<Row>, DatasourceError>;

    /// Run a read-only SQL statement and return a page of rows.
    fn query_page(&self, sql: &str, offset: u64, limit: u64) -> Result<Vec<Row>, DatasourceError>;

    /// Run a read-only SQL with positional parameters (used by ETL lookups).
    /// The SQL uses the datasource's native placeholder syntax (`?`, `$1`, `:1`).
    fn query_params(&self, sql: &str, params: &Vec<Value>) -> Result<Vec<Row>, DatasourceError>;

    /// Run a write SQL statement (INSERT/UPDATE/DELETE/DDL) with optional
    /// positional parameters. Returns the affected row count.
    fn execute(&self, sql: &str, params: &Vec<Value>) -> Result<u64, DatasourceError>;

    /// Insert a batch of rows into `table`.
    ///
    /// * `columns` - the exact column order of `rows`.
    /// * `rows`    - `rows[i]` is aligned to `columns`.
    /// * `mode`    - `Full`, `Upsert` or `Append`.
    /// * `pk_columns` - primary key columns; used by `Upsert` conflict clause.
    fn batch_insert(
        &self,
        table: &str,
        columns: &Vec<String>,
        rows: &Vec<Vec<Value>>,
        mode: SyncMode,
        pk_columns: &Vec<String>,
    ) -> Result<u64, DatasourceError>;

    /// Remove all rows from `table` (used by `Full` mode).
    fn truncate(&self, table: &str) -> Result<(), DatasourceError>;

    /// Lightweight liveness check.
    fn ping(&self) -> Result<(), DatasourceError>;

    /// Release all resources held by this datasource.
    fn close(&self);
}

} // verus!

//! The ETL framework: what is handed to processors, what they hand back, and
//! the lookup capability that lets a processor read other tables.

use vstd::prelude::*;

use crate::error::{EtlError, EtlErrorV};
use crate::model;
use crate::model::{Cells, Row, TableSchema, TableSchemaV, Val, Value};
use crate::text;
use crate::text::copy_all;
use crate::views;

verus! {

/// The logical input row given to an ETL processor.
#[derive(Debug)]
pub struct EtlRow {
    /// Name of the source connection this row came from.
    pub source_connection: String,
    /// Name of the source table this row came from.
    pub source_table: String,
    /// Target connection(s) configured for the job.
    pub target_connections: Vec<String>,
    /// The row data.
    pub row: Row,
    /// Structure of the source table, when available.
    pub source_schema: Option<TableSchema>,
    /// Structure of the (first) target table, when available.
    pub target_schema: Option<TableSchema>,
}

/// What an input row says.
#[verifier::ext_equal]
pub struct EtlRowV {
    pub source_connection: Seq<char>,
    pub source_table: Seq<char>,
    pub target_connections: Seq<Seq<char>>,
    pub row: Cells,
    pub source_schema: Option<TableSchemaV>,
    pub target_schema: Option<TableSchemaV>,
}

impl View for EtlRow {
    type V = EtlRowV;

    open spec fn view(&self) -> EtlRowV {
        EtlRowV {
            source_connection: self.source_connection@,
            source_table: self.source_table@,
            target_connections: text::views(self.target_connections@),
            row: self.row@,
            source_schema: views::opt(self.source_schema),
            target_schema: views::opt(self.target_schema),
        }
    }
}

/// A single output row produced by a processor. `table` selects the target
/// table this row is written to (used for one-to-many / splitting); when the
/// job has a single target it can be left empty and the job default is used.
#[derive(Debug)]
pub struct EtlOutputRow {
    pub table: String,
    pub row: Row,
}

/// What an output row says.
#[verifier::ext_equal]
pub struct EtlOutputRowV {
    pub table: Seq<char>,
    pub row: Cells,
}

impl View for EtlOutputRow {
    type V = EtlOutputRowV;

    open spec fn view(&self) -> EtlOutputRowV {
        EtlOutputRowV { table: self.table@, row: self.row@ }
    }
}

impl EtlOutputRow {
    pub fn new(table: String, row: Row) -> (out: Self)
        ensures
            out@ == (EtlOutputRowV { table: table@, row: row@ }),
    {
        EtlOutputRow { table, row }
    }
}

/// Payload received by a dynamic ETL plugin.
#[derive(Debug)]
pub struct EtlInput {
    pub source_connection: String,
    pub source_table: String,
    pub target_connections: Vec<String>,
    pub row: Row,
    pub source_schema: Option<TableSchema>,
    pub target_schema: Option<TableSchema>,
}

impl View for EtlInput {
    type V = EtlRowV;

    open spec fn view(&self) -> EtlRowV {
        EtlRowV {
            source_connection: self.source_connection@,
            source_table: self.source_table@,
            target_connections: text::views(self.target_connections@),
            row: self.row@,
            source_schema: views::opt(self.source_schema),
            target_schema: views::opt(self.target_schema),
        }
    }
}

pub fn copy_schema(s: &Option<TableSchema>) -> (out: Option<TableSchema>)
    ensures
        views::opt(out) == views::opt(*s),
{
    match s {
        Some(t) => Some(t.clone()),
        None => None,
    }
}

impl EtlInput {
    pub fn to_etl_row(&self) -> (out: EtlRow)
        ensures
            out@ == self@,
    {
        EtlRow {
            source_connection: self.source_connection.clone(),
            source_table: self.source_table.clone(),
            target_connections: copy_all(&self.target_connections),
            row: self.row.clone(),
            source_schema: copy_schema(&self.source_schema),
            target_schema: copy_schema(&self.target_schema),
        }
    }

    pub fn from_etl_row(r: EtlRow) -> (out: EtlInput)
        ensures
            out@ == r@,
    {
        EtlInput {
            source_connection: r.source_connection,
            source_table: r.source_table,
            target_connections: r.target_connections,
            row: r.row,
            source_schema: r.source_schema,
            target_schema: r.target_schema,
        }
    }
}

impl EtlRow {
    /// The same input with other data.
    pub fn with_row(&self, row: Row) -> (out: EtlRow)
        ensures
            out@ == (EtlRowV { row: row@, ..self@ }),
    {
        EtlRow {
            source_connection: self.source_connection.clone(),
            source_table: self.source_table.clone(),
            target_connections: copy_all(&self.target_connections),
            row,
            source_schema: copy_schema(&self.source_schema),
            target_schema: copy_schema(&self.target_schema),
        }
    }
}

/// A handle to query other tables through the framework's datasources. This is
/// the only way an ETL processor gets external data, which keeps the core
/// database-agnostic.
pub trait TableLookup {
    /// Run a read-only query against `connection.table` and return up to
    /// `limit` rows of `columns`.
    ///
    /// * `where_clause` is a raw SQL condition (optional).
    /// * `params` are positional bind values for `?`-style placeholders of
    ///   the underlying database. Pass `Value::Null` to test for NULL.
    fn lookup(
        &self,
        connection: &str,
        table: &str,
        columns: Option<&Vec<String>>,
        where_clause: Option<&str>,
        params: &Vec<Value>,
        limit: u64,
    ) -> Result<Vec<Row>, EtlError>;
}

/// A lookup that was made, and what it found.
#[verifier::ext_equal]
pub struct LookupV {
    pub connection: Seq<char>,
    pub table: Seq<char>,
    pub columns: Option<Seq<Seq<char>>>,
    pub condition: Option<Seq<char>>,
    pub params: Seq<Val>,
    pub limit: u64,
    pub found: Result<Seq<Cells>, EtlErrorV>,
}

/// What a lookup hands back.
pub open spec fn found_view(r: Result<Vec<Row>, EtlError>) -> Result<Seq<Cells>, EtlErrorV> {
    match r {
        Ok(v) => Ok(model::rows_view(v@)),
        Err(e) => Err(e@),
    }
}

/// Whether the lookup can have found this.
pub open spec fn lookup_told<L: TableLookup>(l: L, x: LookupV) -> bool {
    exists|
        connection: &str,
        table: &str,
        columns: Option<&Vec<String>>,
        condition: Option<&str>,
        params: &Vec<Value>,
        r: Result<Vec<Row>, EtlError>,
    |
        {
            &&& connection@ == x.connection
            &&& table@ == x.table
            &&& (match columns {
                Some(v) => Some(text::views(v@)),
                None => None,
            }) == x.columns
            &&& views::opt(condition) == x.condition
            &&& model::vals(params@) == x.params
            &&& #[trigger] call_ensures(L::lookup, (&l, connection, table, columns, condition, params, x.limit), r)
            &&& found_view(r) == x.found
        }
}

/// The way to the lookups. It takes note of each one, so a contract can say which
/// were made.
pub struct LookupDesk<'a, L: TableLookup> {
    lookup: &'a L,
    made: Ghost<Seq<LookupV>>,
}

impl<'a, L: TableLookup> LookupDesk<'a, L> {
    /// What serves the lookups.
    pub closed spec fn served_by(self) -> L {
        *self.lookup
    }

    /// The lookups that were made, in order.
    pub closed spec fn made(self) -> Seq<LookupV> {
        self.made@
    }

    pub fn new(lookup: &'a L) -> (out: Self)
        ensures
            out.served_by() == *lookup,
            out.made() == Seq::<LookupV>::empty(),
    {
        LookupDesk { lookup, made: Ghost(Seq::empty()) }
    }

    pub fn lookup(
        &mut self,
        connection: &str,
        table: &str,
        columns: Option<&Vec<String>>,
        where_clause: Option<&str>,
        params: &Vec<Value>,
        limit: u64,
    ) -> (out: Result<Vec<Row>, EtlError>)
        ensures
            lookup_told(old(self).served_by(), final(self).made().last()),
            final(self).served_by() == old(self).served_by(),
            final(self).made() == old(self).made().push(
                LookupV {
                    connection: connection@,
                    table: table@,
                    columns: match columns {
                        Some(v) => Some(text::views(v@)),
                        None => None,
                    },
                    condition: views::opt(where_clause),
                    params: model::vals(params@),
                    limit,
                    found: found_view(out),
                },
            ),
    {
        let out = self.lookup.lookup(connection, table, columns, where_clause, params, limit);
        assert(call_ensures(
            L::lookup,
            (self.lookup, connection, table, columns, where_clause, params, limit),
            out,
        ));
        let ghost made = LookupV {
            connection: connection@,
            table: table@,
            columns: match columns {
                Some(v) => Some(text::views(v@)),
                None => None,
            },
            condition: views::opt(where_clause),
            params: model::vals(params@),
            limit,
            found: found_view(out),
        };
        assert(lookup_told(*self.lookup, made));
        self.made = Ghost(self.made@.push(made));
        out
    }
}

/// Execution context handed to every processor. Exposes the current table /
/// connection names and the [`TableLookup`] capability.
pub struct EtlContext<'a, L: TableLookup> {
    pub source_connection: &'a str,
    pub source_table: &'a str,
    pub target_connections: &'a Vec<String>,
    pub source_schema: Option<&'a TableSchema>,
    pub target_schema: Option<&'a TableSchema>,
    pub lookup: LookupDesk<'a, L>,
}

impl<'a, L: TableLookup> EtlContext<'a, L> {
    /// The name of the first target table, or an empty text.
    pub open spec fn target_table(self) -> Seq<char> {
        match self.target_schema {
            Some(s) => s.table@,
            None => ""@,
        }
    }

    /// Whether the context is that of this row.
    pub open spec fn belongs_to(self, input: EtlRowV) -> bool {
        &&& self.source_connection@ == input.source_connection
        &&& self.source_table@ == input.source_table
        &&& text::views(self.target_connections@) == input.target_connections
        &&& views::opt(self.source_schema) == input.source_schema
        &&& views::opt(self.target_schema) == input.target_schema
    }

    /// Reconstruct a context from an input row plus the lookup capability.
    pub fn from_row(input: &'a EtlRow, lookup: &'a L) -> (out: Self)
        ensures
            out.belongs_to(input@),
            out.lookup.served_by() == *lookup,
            out.lookup.made() == Seq::<LookupV>::empty(),
    {
        EtlContext {
            source_connection: input.source_connection.as_str(),
            source_table: input.source_table.as_str(),
            target_connections: &input.target_connections,
            source_schema: match &input.source_schema {
                Some(s) => Some(s),
                None => None,
            },
            target_schema: match &input.target_schema {
                Some(s) => Some(s),
                None => None,
            },
            lookup: LookupDesk::new(lookup),
        }
    }

    /// Name of the table the current row belongs to.
    pub fn current_table(&self) -> (out: &str)
        ensures
            out@ == self.source_table@,
    {
        self.source_table
    }

    /// Name of the connection the current row came from.
    pub fn current_connection(&self) -> (out: &str)
        ensures
            out@ == self.source_connection@,
    {
        self.source_connection
    }

    /// List of target connections configured for this job.
    pub fn target_connections(&self) -> (out: &Vec<String>)
        ensures
            *out == *self.target_connections,
    {
        self.target_connections
    }

    /// Query another table through the framework. `params` may be empty and
    /// `where_clause` may be None for a full read.
    pub fn lookup_table(
        &mut self,
        connection: &str,
        table: &str,
        columns: Option<&Vec<String>>,
        where_clause: Option<&str>,
        params: &Vec<Value>,
        limit: u64,
    ) -> (out: Result<Vec<Row>, EtlError>)
        ensures
            lookup_told(old(self).lookup.served_by(), final(self).lookup.made().last()),
            *final(self) == (EtlContext { lookup: final(self).lookup, ..*old(self) }),
            final(self).lookup.served_by() == old(self).lookup.served_by(),
            final(self).lookup.made() == old(self).lookup.made().push(
                LookupV {
                    connection: connection@,
                    table: table@,
                    columns: match columns {
                        Some(v) => Some(text::views(v@)),
                        None => None,
                    },
                    condition: views::opt(where_clause),
                    params: model::vals(params@),
                    limit,
                    found: found_view(out),
                },
            ),
    {
        self.lookup.lookup(connection, table, columns, where_clause, params, limit)
    }
}

/// What goes by a name.
pub trait Named {
    /// Canonical name used in configuration & logs.
    fn name(&self) -> &str;
}

/// A transformation step of the ETL pipeline.
///
/// `process` receives the current row plus context and returns zero or more
/// output rows:
/// * an empty `Vec` drops the row;
/// * one element keeps the row (possibly modified) for the default target;
/// * several elements split the row into multiple rows/targets.
pub trait EtlProcessor<L: TableLookup>: Named {
    /// Transform a row.
    fn process(&self, ctx: &mut EtlContext<L>, input: &EtlRow) -> Result<Vec<EtlOutputRow>, EtlError>;
}

/// Per-instance configuration, applied after construction.
pub trait EtlConfigure {
    /// The configuration that the processor takes.
    type Config;

    fn configure(&mut self, config: Self::Config) -> Result<(), EtlError>;
}

} // verus!

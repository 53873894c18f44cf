//! The PostgreSQL dialect: statements, connection options and value conversion.

use vstd::prelude::*;

use crate::clock::Moment;
use crate::error::{DatasourceError, DatasourceErrorV};
use crate::float::{Float, FloatV};
use crate::model::{Column, ColumnV, ConnectionConfig, SyncMode, TableSchema, Val, Value};
use crate::reading;
use crate::sql;
use crate::sql::{
    bind, bind_all, date_value, find_ragged, frame, limited, number, pool_limit, prepared, quote_all, refuse_type, schema_of, wait_secs,
    width_words, without, Bind, BindV, Statement, StatementV,
};
use crate::strmap;
use crate::text;
use crate::text::{cat2, cat3, cat4, cat5, copy, dec_text, doubled, joined, quote, same, to_lower};
use crate::views;

verus! {

// ---------------------------------------------------------------------------
// Values
// ---------------------------------------------------------------------------

/// The column types that are read in a way of their own.
#[derive(Debug, Clone, Copy, PartialEq, Eq, Structural)]
pub enum PgKind {
    Bool,
    /// `int2` and `int4`.
    Int,
    BigInt,
    Real,
    Double,
    Numeric,
    Bytea,
    Date,
    Timestamp,
    TimestampTz,
    Json,
    Uuid,
    Other,
}

/// The form in which a column is asked from the driver.
#[derive(Debug, Clone, Copy, PartialEq, Eq, Structural)]
pub enum PgRead {
    Bool,
    Int32,
    Int64,
    Float32,
    Float64,
    Bytes,
    Date,
    DateTime,
    DateTimeUtc,
    Text,
}

/// What the driver answered.
#[derive(Debug)]
pub enum PgReply {
    Bool(bool),
    Int(i64),
    Float(Float),
    Bytes(Vec<u8>),
    Time(Moment),
    Text(String),
    /// No value, or none of the form asked for.
    Nothing,
}

/// What a [`PgReply`] holds.
#[verifier::ext_equal]
pub enum PgReplyV {
    Bool(bool),
    Int(i64),
    Float(FloatV),
    Bytes(Seq<u8>),
    Time(Moment),
    Text(Seq<char>),
    Nothing,
}

impl View for PgReply {
    type V = PgReplyV;

    open spec fn view(&self) -> PgReplyV {
        match self {
            PgReply::Bool(b) => PgReplyV::Bool(*b),
            PgReply::Int(i) => PgReplyV::Int(*i),
            PgReply::Float(f) => PgReplyV::Float(f@),
            PgReply::Bytes(b) => PgReplyV::Bytes(b@),
            PgReply::Time(t) => PgReplyV::Time(*t),
            PgReply::Text(s) => PgReplyV::Text(s@),
            PgReply::Nothing => PgReplyV::Nothing,
        }
    }
}

pub open spec fn asked(kind: PgKind) -> PgRead {
    match kind {
        PgKind::Bool => PgRead::Bool,
        PgKind::Int => PgRead::Int32,
        PgKind::BigInt => PgRead::Int64,
        PgKind::Real => PgRead::Float32,
        PgKind::Double => PgRead::Float64,
        PgKind::Bytea => PgRead::Bytes,
        PgKind::Date => PgRead::Date,
        PgKind::Timestamp => PgRead::DateTime,
        PgKind::TimestampTz => PgRead::DateTimeUtc,
        PgKind::Numeric => PgRead::Text,
        PgKind::Json => PgRead::Text,
        PgKind::Uuid => PgRead::Text,
        PgKind::Other => PgRead::Text,
    }
}

/// The form in which a column of the kind is read.
pub fn pg_read(kind: PgKind) -> (out: PgRead)
    ensures
        out == asked(kind),
{
    match kind {
        PgKind::Bool => PgRead::Bool,
        PgKind::Int => PgRead::Int32,
        PgKind::BigInt => PgRead::Int64,
        PgKind::Real => PgRead::Float32,
        PgKind::Double => PgRead::Float64,
        PgKind::Bytea => PgRead::Bytes,
        PgKind::Date => PgRead::Date,
        PgKind::Timestamp => PgRead::DateTime,
        PgKind::TimestampTz => PgRead::DateTimeUtc,
        PgKind::Numeric => PgRead::Text,
        PgKind::Json => PgRead::Text,
        PgKind::Uuid => PgRead::Text,
        PgKind::Other => PgRead::Text,
    }
}

/// The value of a column: null where a first look as text found null, and where
/// the driver had no value of the form asked for.
pub open spec fn read(null: bool, kind: PgKind, reply: PgReplyV) -> Val {
    if null {
        Val::Null
    } else {
        match (kind, reply) {
            (PgKind::Bool, PgReplyV::Bool(b)) => Val::Bool(b),
            (PgKind::Int, PgReplyV::Int(i)) => Val::Int(i),
            (PgKind::BigInt, PgReplyV::Int(i)) => Val::Int(i),
            (PgKind::Real, PgReplyV::Float(f)) => Val::Float(f),
            (PgKind::Double, PgReplyV::Float(f)) => Val::Float(f),
            (PgKind::Numeric, PgReplyV::Text(s)) => Val::Decimal(s),
            (PgKind::Bytea, PgReplyV::Bytes(b)) => Val::Bytes(b),
            (PgKind::Date, PgReplyV::Time(t)) => sql::dated(t, sql::day_format()),
            (PgKind::Timestamp, PgReplyV::Time(t)) => sql::dated(t, sql::stamp_format()),
            (PgKind::TimestampTz, PgReplyV::Time(t)) => sql::dated(t, sql::stamp_format()),
            (PgKind::Json, PgReplyV::Text(s)) => Val::String(s),
            (PgKind::Uuid, PgReplyV::Text(s)) => Val::String(s),
            (PgKind::Other, PgReplyV::Text(s)) => Val::String(s),
            _ => Val::Null,
        }
    }
}

pub fn pg_value(null: bool, kind: PgKind, reply: PgReply) -> (out: Value)
    ensures
        out@ == read(null, kind, reply@),
{
    if null {
        return Value::Null;
    }
    match (kind, reply) {
        (PgKind::Bool, PgReply::Bool(b)) => Value::Bool(b),
        (PgKind::Int, PgReply::Int(i)) => Value::Int(i),
        (PgKind::BigInt, PgReply::Int(i)) => Value::Int(i),
        (PgKind::Real, PgReply::Float(f)) => Value::Float(f),
        (PgKind::Double, PgReply::Float(f)) => Value::Float(f),
        (PgKind::Numeric, PgReply::Text(s)) => Value::Decimal(s),
        (PgKind::Bytea, PgReply::Bytes(b)) => Value::Bytes(b),
        (PgKind::Date, PgReply::Time(t)) => date_value(t, "%Y-%m-%d"),
        (PgKind::Timestamp, PgReply::Time(t)) => date_value(t, "%Y-%m-%d %H:%M:%S%.6f"),
        (PgKind::TimestampTz, PgReply::Time(t)) => date_value(t, "%Y-%m-%d %H:%M:%S%.6f"),
        (PgKind::Json, PgReply::Text(s)) => Value::String(s),
        (PgKind::Uuid, PgReply::Text(s)) => Value::String(s),
        (PgKind::Other, PgReply::Text(s)) => Value::String(s),
        _ => Value::Null,
    }
}

/// How a value is bound.
pub fn value_to_sql(v: &Value) -> (out: Bind)
    ensures
        out@ == sql::bound(v@, true),
{
    bind(v, true)
}

// ---------------------------------------------------------------------------
// Connecting
// ---------------------------------------------------------------------------

/// What a connection pool is opened with.
#[derive(Debug)]
pub struct PgPlan {
    pub host: String,
    pub port: u16,
    pub database: String,
    pub username: String,
    pub password: String,
    pub connect_timeout_secs: u64,
    pub application_name: String,
    pub options: Option<String>,
    pub pool_max: u32,
}

/// The SSL modes that work without a TLS connector.
pub open spec fn plain_mode(s: Seq<char>) -> bool {
    let m = text::lower(s);
    m == "disable"@ || m == "prefer"@ || m == "allow"@
}

pub open spec fn refusal(conn_type: Seq<char>, ssl_mode: Option<Seq<char>>) -> Option<DatasourceErrorV> {
    if conn_type != "postgresql"@ {
        Some(sql::wrong_type("postgresql"@, conn_type))
    } else {
        match ssl_mode {
            Some(m) => if plain_mode(m) {
                None
            } else {
                Some(
                    DatasourceErrorV::Unsupported(
                        "postgres ssl_mode '"@ + text::lower(m)
                            + "' requires a TLS connector which is not compiled into this plugin; use 'disable'/'prefer'"@,
                    ),
                )
            },
            None => None,
        }
    }
}

/// The session option that sets the schema.
pub open spec fn search_path(schema: Option<Seq<char>>) -> Option<Seq<char>> {
    match schema {
        Some(s) => Some("-csearch_path="@ + text::double(s, '"')),
        None => None,
    }
}

// ---------------------------------------------------------------------------
// Statements
// ---------------------------------------------------------------------------

/// The parenthesised placeholders of one row of `n`, the first of them after
/// number `from`.
pub open spec fn marks(from: int, n: nat) -> Seq<char> {
    "("@ + text::join(sql::numbered("$"@, from, n), ","@) + ")"@
}

/// The placeholders of each row, numbered through.
pub open spec fn tuples(rows: nat, n: nat) -> Seq<Seq<char>> {
    Seq::new(rows, |i: int| marks(i * n, n))
}

/// In upsert mode a conflict on the key updates the columns outside it.
pub open spec fn upsert_tail(columns: Seq<Seq<char>>, mode: SyncMode, keys: Seq<Seq<char>>) -> Seq<char> {
    let rest = sql::others(columns, keys);
    let key_list = text::join(sql::quoted_all(keys, '"'), ", "@);
    if mode == SyncMode::Upsert && keys.len() > 0 {
        if rest.len() > 0 {
            " ON CONFLICT ("@ + key_list + ") DO UPDATE SET "@ + text::join(
                sql::framed(rest, '"', ""@, " = EXCLUDED."@, ""@),
                ", "@,
            )
        } else {
            " ON CONFLICT ("@ + key_list + ") DO NOTHING"@
        }
    } else {
        ""@
    }
}

pub open spec fn insert_sql(table: Seq<char>, columns: Seq<Seq<char>>, rows: nat, mode: SyncMode, keys: Seq<Seq<char>>) -> Seq<
    char,
> {
    "INSERT INTO "@ + text::quoted(table, '"') + " ("@ + text::join(sql::quoted_all(columns, '"'), ", "@)
        + ") VALUES "@ + text::join(tuples(rows, columns.len()), ","@) + upsert_tail(columns, mode, keys)
}

/// The statement of a batch: none for no rows; an error for no columns, for a
/// row of the wrong width and for a datasource that is not connected, in this
/// order.
pub open spec fn batch(
    connected: bool,
    table: Seq<char>,
    columns: Seq<Seq<char>>,
    rows: Seq<Seq<Val>>,
    mode: SyncMode,
    keys: Seq<Seq<char>>,
) -> Result<Option<StatementV<BindV>>, DatasourceErrorV> {
    let bad = sql::first_ragged(rows, columns.len());
    if rows.len() == 0 {
        Ok(None)
    } else if columns.len() == 0 {
        Err(DatasourceErrorV::InvalidArgument("batch_insert requires at least one column"@))
    } else if bad < rows.len() {
        Err(
            DatasourceErrorV::InvalidArgument(
                "row "@ + text::dec(bad as nat) + " "@ + sql::width_fault(rows[bad].len(), columns.len()),
            ),
        )
    } else if !connected {
        Err(DatasourceErrorV::Connection("postgres datasource not connected"@))
    } else {
        Ok(
            Some(
                StatementV {
                    sql: insert_sql(table, columns, rows.len(), mode, keys),
                    params: sql::binds(rows, true),
                },
            ),
        )
    }
}

/// A column as `information_schema` describes it.
#[derive(Debug)]
pub struct PgColumnRow {
    pub name: String,
    pub data_type: String,
    pub nullable: String,
    pub ordinal: i32,
    pub is_primary: bool,
}

/// A signed position as an unsigned number of the machine's width.
pub open spec fn position(n: i32) -> usize {
    if n >= 0 {
        n as usize
    } else {
        (usize::MAX + 1 + n) as usize
    }
}

impl View for PgColumnRow {
    type V = ColumnV;

    /// The column that the row describes.
    open spec fn view(&self) -> ColumnV {
        ColumnV {
            name: self.name@,
            data_type: self.data_type@,
            nullable: self.nullable@ == "YES"@,
            is_primary: self.is_primary,
            ordinal: position(self.ordinal),
        }
    }
}

fn position_of(n: i32) -> (out: usize)
    ensures
        out == position(n),
{
    if n >= 0 {
        n as usize
    } else {
        let back: usize = (-(n + 1)) as usize;
        usize::MAX - back
    }
}

fn tuples_of(rows: usize, n: usize, total: usize) -> (out: Vec<String>)
    requires
        total == rows * n,
    ensures
        text::views(out@) == tuples(rows as nat, n as nat),
{
    let ghost want = tuples(rows as nat, n as nat);
    let mut out: Vec<String> = Vec::new();
    let mut i: usize = 0;
    let mut from: usize = 0;
    while i < rows
        invariant
            i <= rows,
            from == i * n,
            total == rows * n,
            want == tuples(rows as nat, n as nat),
            text::views(out@) == want.take(i as int),
        decreases rows - i,
    {
        proof {
            sql::lemma_row_fits(i as int, rows as int, n as int);
        }
        let marks = number("$", from, n);
        let inner = joined(&marks, ",");
        let s = cat3("(", inner.as_str(), ")");
        proof {
            views::lemma_list_push(out@, s);
        }
        out.push(s);
        assert(want.take(i + 1) =~= want.take(i as int).push(want[i as int]));
        from = from + n;
        i += 1;
    }
    assert(want.take(i as int) =~= want);
    out
}

/// A PostgreSQL datasource: the connection it was opened with, if it is open.
#[derive(Debug)]
pub struct PostgresDatasource {
    pub cfg: Option<ConnectionConfig>,
}

impl Default for PostgresDatasource {
    fn default() -> (out: PostgresDatasource)
        ensures
            out.cfg is None,
    {
        PostgresDatasource { cfg: None }
    }
}

impl PostgresDatasource {
    pub fn name(&self) -> (out: &'static str)
        ensures
            out@ == "postgresql"@,
    {
        "postgresql"
    }

    /// The check that precedes every use of the connection.
    pub fn pool(&self) -> (out: Result<&ConnectionConfig, DatasourceError>)
        ensures
            match out {
                Ok(c) => self.cfg == Some(*c),
                Err(e) => self.cfg is None && e@ == DatasourceErrorV::Connection("postgres datasource not connected"@),
            },
    {
        match &self.cfg {
            Some(c) => Ok(c),
            None => Err(DatasourceError::Connection(copy("postgres datasource not connected"))),
        }
    }

    pub fn quote_ident(&self, name: &str) -> (out: String)
        ensures
            out@ == text::quoted(name@, '"'),
    {
        quote(name, '"')
    }

    /// What the pool is opened with, or why the connection is refused.
    pub fn connect(cfg: &ConnectionConfig) -> (out: Result<PgPlan, DatasourceError>)
        ensures
            match out {
                Ok(p) => {
                    &&& refusal(cfg.conn_type@, strmap::at(cfg.params@, "ssl_mode"@)) is None
                    &&& p.host@ == cfg.host@
                    &&& p.port == cfg.port
                    &&& p.database@ == cfg.database@
                    &&& p.username@ == cfg.username@
                    &&& p.password@ == cfg.password@
                    &&& p.connect_timeout_secs == sql::at_least_one(cfg.connect_timeout_secs as int)
                    &&& p.application_name@ == "DataTransfer/"@ + cfg.name@
                    &&& views::opt(p.options) == search_path(views::opt(cfg.schema))
                    &&& p.pool_max == sql::at_least_one(cfg.max_pool_size as int)
                },
                Err(e) => refusal(cfg.conn_type@, strmap::at(cfg.params@, "ssl_mode"@)) == Some(e@),
            },
    {
        if !same(cfg.conn_type.as_str(), "postgresql") {
            return Err(refuse_type("postgresql", cfg.conn_type.as_str()));
        }
        if let Some(ssl) = cfg.param("ssl_mode") {
            let m = to_lower(ssl);
            if !(same(m.as_str(), "disable") || same(m.as_str(), "prefer") || same(m.as_str(), "allow")) {
                return Err(
                    DatasourceError::Unsupported(
                        cat3(
                            "postgres ssl_mode '",
                            m.as_str(),
                            "' requires a TLS connector which is not compiled into this plugin; use 'disable'/'prefer'",
                        ),
                    ),
                );
            }
        }
        let options = match &cfg.schema {
            Some(s) => {
                let d = doubled(s.as_str(), '"');
                Some(cat2("-csearch_path=", d.as_str()))
            },
            None => None,
        };
        Ok(
            PgPlan {
                host: cfg.host.clone(),
                port: cfg.port,
                database: cfg.database.clone(),
                username: cfg.username.clone(),
                password: cfg.password.clone(),
                connect_timeout_secs: wait_secs(cfg),
                application_name: cat2("DataTransfer/", cfg.name.as_str()),
                options,
                pool_max: pool_limit(cfg),
            },
        )
    }

    /// The statement that lists a table's columns; it binds the schema, or null
    /// for the current one, and the table's name.
    pub fn schema_sql(&self) -> (out: &'static str)
        ensures
            out@ == "SELECT c.column_name, c.data_type, c.is_nullable, c.ordinal_position,        (kcu.column_name IS NOT NULL) AS is_primary FROM information_schema.columns c LEFT JOIN (  SELECT kcu.table_schema, kcu.table_name, kcu.column_name   FROM information_schema.key_column_usage kcu   JOIN information_schema.table_constraints tc     ON tc.constraint_name = kcu.constraint_name    AND tc.table_schema = kcu.table_schema    AND tc.table_name = kcu.table_name   WHERE tc.constraint_type = 'PRIMARY KEY') kcu   ON kcu.table_schema = c.table_schema  AND kcu.table_name = c.table_name  AND kcu.column_name = c.column_name WHERE c.table_schema = COALESCE($1::text, current_schema())   AND c.table_name = $2 ORDER BY c.ordinal_position"@,
    {
        "SELECT c.column_name, c.data_type, c.is_nullable, c.ordinal_position,        (kcu.column_name IS NOT NULL) AS is_primary FROM information_schema.columns c LEFT JOIN (  SELECT kcu.table_schema, kcu.table_name, kcu.column_name   FROM information_schema.key_column_usage kcu   JOIN information_schema.table_constraints tc     ON tc.constraint_name = kcu.constraint_name    AND tc.table_schema = kcu.table_schema    AND tc.table_name = kcu.table_name   WHERE tc.constraint_type = 'PRIMARY KEY') kcu   ON kcu.table_schema = c.table_schema  AND kcu.table_name = c.table_name  AND kcu.column_name = c.column_name WHERE c.table_schema = COALESCE($1::text, current_schema())   AND c.table_name = $2 ORDER BY c.ordinal_position"
    }

    /// The structure of a table from what the server lists.
    pub fn get_schema(&self, table: &str, rows: &Vec<PgColumnRow>) -> (out: Result<TableSchema, DatasourceError>)
        ensures
            views::res(out) == sql::structure(
                table@,
                views::list(rows@),
                "schema '"@ + (match self.cfg {
                    Some(c) => match c.schema {
                        Some(s) => s@,
                        None => "default"@,
                    },
                    None => "default"@,
                }) + "'"@,
            ),
    {
        let ghost want = views::list(rows@);
        let mut columns: Vec<Column> = Vec::new();
        let mut i: usize = 0;
        while i < rows.len()
            invariant
                i <= rows.len(),
                want == views::list(rows@),
                views::list(columns@) == want.take(i as int),
            decreases rows.len() - i,
        {
            let c = Column {
                name: rows[i].name.clone(),
                data_type: rows[i].data_type.clone(),
                nullable: same(rows[i].nullable.as_str(), "YES"),
                is_primary: rows[i].is_primary,
                ordinal: position_of(rows[i].ordinal),
            };
            proof {
                views::lemma_list_push(columns@, c);
                assert(c@ == want[i as int]);
            }
            columns.push(c);
            assert(want.take(i + 1) =~= want.take(i as int).push(want[i as int]));
            i += 1;
        }
        assert(want.take(i as int) =~= want);
        let schema: &str = match &self.cfg {
            Some(c) => match &c.schema {
                Some(s) => s.as_str(),
                None => "default",
            },
            None => "default",
        };
        let lacking = cat3("schema '", schema, "'");
        schema_of(table, columns, lacking.as_str())
    }

    /// The statement of one page.
    pub fn query_page(&self, sql: &str, offset: u64, limit: u64) -> (out: String)
        ensures
            out@ == sql::limit_page(sql@, offset, limit),
    {
        limited(sql, offset, limit)
    }

    /// The statement and values of a batch.
    pub fn batch_insert(
        &self,
        table: &str,
        columns: &Vec<String>,
        rows: &Vec<Vec<Value>>,
        mode: SyncMode,
        pk_columns: &Vec<String>,
    ) -> (out: Result<Option<Statement<Bind>>, DatasourceError>)
        ensures
            prepared(out) == batch(
                self.cfg is Some,
                table@,
                text::views(columns@),
                views::lists(rows@),
                mode,
                text::views(pk_columns@),
            ),
    {
        let ghost names = text::views(columns@);
        let ghost keys = text::views(pk_columns@);
        let ghost all = views::lists(rows@);
        if rows.len() == 0 {
            return Ok(None);
        }
        if columns.len() == 0 {
            return Err(DatasourceError::InvalidArgument(copy("batch_insert requires at least one column")));
        }
        let bad = find_ragged(rows, columns.len());
        if bad < rows.len() {
            let i = dec_text(bad as u64);
            let w = width_words(rows[bad].len(), columns.len());
            return Err(DatasourceError::InvalidArgument(cat4("row ", i.as_str(), " ", w.as_str())));
        }
        let params = bind_all(rows, true);
        proof {
            sql::lemma_binds_len(all, names.len(), true);
        }
        let quoted = quote_all(columns, '"');
        let list = joined(&quoted, ", ");
        let name = self.quote_ident(table);
        let head = cat5("INSERT INTO ", name.as_str(), " (", list.as_str(), ") VALUES ");
        let tuples = tuples_of(rows.len(), columns.len(), params.len());
        let values = joined(&tuples, ",");
        let tail = if mode == SyncMode::Upsert && pk_columns.len() > 0 {
            let quoted_keys = quote_all(pk_columns, '"');
            let key_list = joined(&quoted_keys, ", ");
            let rest = without(columns, pk_columns);
            if rest.len() > 0 {
                let updates = frame(&rest, '"', "", " = EXCLUDED.", "");
                let u = joined(&updates, ", ");
                cat4(" ON CONFLICT (", key_list.as_str(), ") DO UPDATE SET ", u.as_str())
            } else {
                cat3(" ON CONFLICT (", key_list.as_str(), ") DO NOTHING")
            }
        } else {
            copy("")
        };
        assert(tail@ == upsert_tail(names, mode, keys));
        let sql = cat3(head.as_str(), values.as_str(), tail.as_str());
        assert(sql@ == insert_sql(table@, names, all.len(), mode, keys));
        match self.pool() {
            Ok(_) => Ok(Some(Statement { sql, params })),
            Err(e) => Err(e),
        }
    }

    /// The statement that empties a table.
    pub fn truncate(&self, table: &str) -> (out: String)
        ensures
            out@ == "TRUNCATE TABLE "@ + text::quoted(table@, '"'),
    {
        let t = self.quote_ident(table);
        cat2("TRUNCATE TABLE ", t.as_str())
    }

    /// The statement of the liveness check.
    pub fn ping(&self) -> (out: &'static str)
        ensures
            out@ == "SELECT 1"@,
    {
        "SELECT 1"
    }
}

// ---------------------------------------------------------------------------
// What a batch says
// ---------------------------------------------------------------------------

/// What an insert does on a conflict: the key columns that conflict, and the
/// columns that are set, each with the column of the refused row it is set to.
#[verifier::ext_equal]
pub struct ConflictV {
    pub keys: Seq<Seq<char>>,
    pub updates: Seq<(Seq<char>, Seq<char>)>,
}

/// An insert as the server reads it: the table, the columns, the placeholders of
/// each tuple, and what is done on a conflict.
#[verifier::ext_equal]
pub struct InsertV {
    pub table: Seq<char>,
    pub columns: Seq<Seq<char>>,
    pub tuples: Seq<Seq<nat>>,
    pub conflict: Option<ConflictV>,
}

/// Placeholders in brackets.
pub open spec fn tuple_item() -> reading::ItemAt<Seq<nat>> {
    |s: Seq<char>| reading::in_brackets(s, |a: Seq<char>| reading::list_at(a, reading::mark_item("$"@), ","@))
}

/// What stands behind the tuples: nothing, or what is done on a conflict.
pub open spec fn conflict_at(s: Seq<char>) -> Option<Option<ConflictV>> {
    if s.len() == 0 {
        Some(None)
    } else {
        match reading::after(s, " ON CONFLICT ("@) {
            None => None,
            Some(a) => match reading::names_at(a, '"', ", "@) {
                None => None,
                Some((keys, b)) => if b == ") DO NOTHING"@ {
                    Some(Some(ConflictV { keys, updates: Seq::empty() }))
                } else {
                    match reading::after(b, ") DO UPDATE SET "@) {
                        None => None,
                        Some(c) => match reading::list_at(
                            c,
                            reading::pair_item('"', ""@, " = EXCLUDED."@, ""@),
                            ", "@,
                        ) {
                            None => None,
                            Some((updates, d)) => if d.len() == 0 {
                                Some(Some(ConflictV { keys, updates }))
                            } else {
                                None
                            },
                        },
                    }
                },
            },
        }
    }
}

/// An insert statement, read.
#[verifier::opaque]
pub open spec fn insert_read(s: Seq<char>) -> Option<InsertV> {
    match reading::after(s, "INSERT INTO "@) {
        None => None,
        Some(a) => match reading::name_at(a, '"') {
            None => None,
            Some((table, b)) => match reading::after(b, " ("@) {
                None => None,
                Some(c) => match reading::names_at(c, '"', ", "@) {
                    None => None,
                    Some((columns, d)) => match reading::after(d, ") VALUES "@) {
                        None => None,
                        Some(e) => match reading::list_at(e, tuple_item(), ","@) {
                            None => None,
                            Some((tuples, f)) => match conflict_at(f) {
                                None => None,
                                Some(conflict) => Some(InsertV { table, columns, tuples, conflict }),
                            },
                        },
                    },
                },
            },
        },
    }
}

proof fn lemma_tuple(from: int, n: nat, rest: Seq<char>)
    requires
        from >= 0,
        n > 0,
    ensures
        tuple_item()(marks(from, n) + rest) == Some((reading::counting(from, n), rest)),
{
    reveal_strlit(",");
    reveal_strlit(")");
    let tail = ")"@ + rest;
    assert(tail[0] == ')');
    reading::lemma_not_after(tail, ","@);
    reading::lemma_marks_read_back("$"@, from, n, ","@, tail);
    let inner = |a: Seq<char>| reading::list_at(a, reading::mark_item("$"@), ","@);
    reading::lemma_in_brackets(text::join(sql::numbered("$"@, from, n), ","@), reading::counting(from, n), inner, rest);
}

proof fn lemma_tuples(n: nat, rows: nat, tail: Seq<char>)
    requires
        n > 0,
        rows > 0,
        reading::after(tail, ","@) is None,
    ensures
        reading::list_at(text::join(tuples(rows, n), ","@) + tail, tuple_item(), ","@) == Some(
            (Seq::new(rows, |i: int| reading::counting(i * n, n)), tail),
        ),
{
    reveal_strlit(",");
    let parts = tuples(rows, n);
    let xs = Seq::new(rows, |i: int| reading::counting(i * n, n));
    let ok = |r: Seq<char>| true;
    assert forall|i: int, r: Seq<char>| 0 <= i < parts.len() && ok(r) implies #[trigger] tuple_item()(parts[i] + r) == Some(
        (xs[i], r),
    ) by {
        assert(i * n >= 0) by (nonlinear_arith)
            requires
                i >= 0,
        ;
        lemma_tuple(i * n, n, r);
    }
    reading::lemma_list_reads_back(parts, xs, tuple_item(), ","@, ok, tail);
}

/// What a conflict does: in upsert mode with keys, the columns that are no keys
/// are set to those of the refused row.
pub open spec fn wanted(columns: Seq<Seq<char>>, mode: SyncMode, keys: Seq<Seq<char>>) -> Option<ConflictV> {
    if mode == SyncMode::Upsert && keys.len() > 0 {
        Some(
            ConflictV {
                keys,
                updates: reading::with_itself(columns.filter(|c: Seq<char>| !keys.contains(c))),
            },
        )
    } else {
        None
    }
}

proof fn lemma_conflict_reads(columns: Seq<Seq<char>>, mode: SyncMode, keys: Seq<Seq<char>>)
    ensures
        conflict_at(upsert_tail(columns, mode, keys)) == Some(wanted(columns, mode, keys)),
        reading::after(upsert_tail(columns, mode, keys), ","@) is None,
{
    reveal_strlit("");
    reveal_strlit(",");
    reveal_strlit(", ");
    reveal_strlit(" = EXCLUDED.");
    reveal_strlit(" ON CONFLICT (");
    reveal_strlit(") DO NOTHING");
    reveal_strlit(") DO UPDATE SET ");
    let rest = sql::others(columns, keys);
    sql::law_others_are_those_not_taken(columns, keys);
    let tail = upsert_tail(columns, mode, keys);
    if mode == SyncMode::Upsert && keys.len() > 0 {
        let list = text::join(sql::quoted_all(keys, '"'), ", "@);
        let sets = text::join(sql::framed(rest, '"', ""@, " = EXCLUDED."@, ""@), ", "@);
        let b = if rest.len() > 0 {
            ") DO UPDATE SET "@ + sets
        } else {
            ") DO NOTHING"@
        };
        assert(b[0] == ')');
        reading::lemma_not_after(b, ", "@);
        reading::lemma_names_read_back(keys, '"', ", "@, b);
        reading::lemma_after(" ON CONFLICT ("@, list + b);
        reading::lemma_regroup(" ON CONFLICT ("@, list, b);
        if rest.len() > 0 {
            reading::lemma_regroup(" ON CONFLICT ("@ + list, ") DO UPDATE SET "@, sets);
            let none = Seq::<char>::empty();
            reading::lemma_not_after(none, ", "@);
            reading::lemma_pairs_read_back(rest, '"', ""@, " = EXCLUDED."@, ""@, ", "@, none);
            assert(sets + none =~= sets);
            reading::lemma_after(") DO UPDATE SET "@, sets);
            assert(b[5] == 'U' && ") DO NOTHING"@[5] == 'N');
        } else {
            assert(rest =~= Seq::empty());
            assert(reading::with_itself(rest) =~= Seq::empty());
        }
        assert(tail[0] == ' ');
    } else {
        assert(tail.len() == 0);
    }
    reading::lemma_not_after(tail, ","@);
}

proof fn lemma_head_reads(table: Seq<char>, columns: Seq<Seq<char>>, e: Seq<char>)
    requires
        columns.len() > 0,
    ensures
        ({
            let d = ") VALUES "@ + e;
            let list = text::join(sql::quoted_all(columns, '"'), ", "@);
            let b = " ("@ + (list + d);
            let a = text::quoted(table, '"') + b;
            &&& reading::after("INSERT INTO "@ + a, "INSERT INTO "@) == Some(a)
            &&& reading::name_at(a, '"') == Some((table, b))
            &&& reading::after(b, " ("@) == Some(list + d)
            &&& reading::names_at(list + d, '"', ", "@) == Some((columns, d))
            &&& reading::after(d, ") VALUES "@) == Some(e)
        }),
{
    reveal_strlit(", ");
    reveal_strlit(" (");
    reveal_strlit(") VALUES ");
    let d = ") VALUES "@ + e;
    reading::lemma_after(") VALUES "@, e);
    assert(d[0] == ')');
    reading::lemma_not_after(d, ", "@);
    let list = text::join(sql::quoted_all(columns, '"'), ", "@);
    reading::lemma_names_read_back(columns, '"', ", "@, d);
    let b = " ("@ + (list + d);
    reading::lemma_after(" ("@, list + d);
    assert(b[0] == ' ');
    reading::law_quoted_name_reads_back(table, '"', b);
    reading::lemma_after("INSERT INTO "@, text::quoted(table, '"') + b);
}

/// Law: a batch inserts into the table that was asked for, under the columns in
/// their order, one tuple of placeholders for each row. In upsert mode with keys a
/// conflict on just those keys sets just the columns that are no keys, each to the
/// value that was to be inserted in it; otherwise nothing is said of conflicts.
pub proof fn law_insert_says_what_was_asked(
    table: Seq<char>,
    columns: Seq<Seq<char>>,
    rows: nat,
    mode: SyncMode,
    keys: Seq<Seq<char>>,
)
    requires
        columns.len() > 0,
        rows > 0,
    ensures
        insert_read(insert_sql(table, columns, rows, mode, keys)) == Some(
            InsertV {
                table,
                columns,
                tuples: Seq::new(rows, |i: int| reading::counting(i * columns.len(), columns.len())),
                conflict: wanted(columns, mode, keys),
            },
        ),
{
    reveal(insert_read);
    let tail = upsert_tail(columns, mode, keys);
    lemma_conflict_reads(columns, mode, keys);
    lemma_tuples(columns.len(), rows, tail);
    let values = text::join(tuples(rows, columns.len()), ","@);
    let e = values + tail;
    let list = text::join(sql::quoted_all(columns, '"'), ", "@);
    let d = ") VALUES "@ + e;
    let b = " ("@ + (list + d);
    lemma_head_reads(table, columns, e);
    let name = text::quoted(table, '"');
    let p1 = "INSERT INTO "@ + name;
    let p2 = p1 + " ("@;
    let p3 = p2 + list;
    reading::lemma_regroup(p3 + ") VALUES "@, values, tail);
    reading::lemma_regroup(p3, ") VALUES "@, e);
    reading::lemma_regroup(p2, list, d);
    reading::lemma_regroup(p1, " ("@, list + d);
    reading::lemma_regroup("INSERT INTO "@, name, b);
}

/// Law: the placeholder of row `i`, column `j` stands for the value of row `i` in
/// column `j`.
pub proof fn law_batch_inserts_its_rows(
    table: Seq<char>,
    columns: Seq<Seq<char>>,
    rows: Seq<Seq<Val>>,
    mode: SyncMode,
    keys: Seq<Seq<char>>,
    i: int,
    j: int,
)
    requires
        batch(true, table, columns, rows, mode, keys) matches Ok(Some(_)),
        0 <= i < rows.len(),
        0 <= j < columns.len(),
    ensures
        ({
            let st = batch(true, table, columns, rows, mode, keys)->Ok_0->Some_0;
            &&& insert_read(st.sql) matches Some(x) && x.table == table && x.columns == columns && x.conflict == wanted(
                columns,
                mode,
                keys,
            ) && x.tuples.len() == rows.len() && x.tuples[i].len() == columns.len() && st.params[x.tuples[i][j] - 1]
                == sql::bound(rows[i][j], true)
            &&& st.params.len() == rows.len() * columns.len()
        }),
{
    law_insert_says_what_was_asked(table, columns, rows.len(), mode, keys);
    sql::law_first_ragged_is_the_first(rows, columns.len());
    sql::law_parameters_are_row_major(rows, columns.len(), true, i, j);
    assert(i * columns.len() >= 0) by (nonlinear_arith)
        requires
            i >= 0,
    ;
}

/// Law: a batch without rows needs no statement; otherwise it has one just where
/// there is a column, every row has a value for each column, and the datasource is
/// connected.
pub proof fn law_batch_has_a_statement(
    connected: bool,
    table: Seq<char>,
    columns: Seq<Seq<char>>,
    rows: Seq<Seq<Val>>,
    mode: SyncMode,
    keys: Seq<Seq<char>>,
)
    ensures
        batch(connected, table, columns, rows, mode, keys) == Ok::<Option<StatementV<BindV>>, DatasourceErrorV>(None)
            <==> rows.len() == 0,
        rows.len() > 0 ==> (batch(connected, table, columns, rows, mode, keys) is Ok <==> connected && columns.len() > 0
            && forall|k: int| 0 <= k < rows.len() ==> (#[trigger] rows[k]).len() == columns.len()),
{
    sql::law_first_ragged_is_the_first(rows, columns.len());
}

// ---------------------------------------------------------------------------
// What is read
// ---------------------------------------------------------------------------

/// Whether a reply is of the form that was asked for.
pub open spec fn fits(asked: PgRead, reply: PgReplyV) -> bool {
    match asked {
        PgRead::Bool => reply is Bool,
        PgRead::Int32 => reply is Int,
        PgRead::Int64 => reply is Int,
        PgRead::Float32 => reply is Float,
        PgRead::Float64 => reply is Float,
        PgRead::Bytes => reply is Bytes,
        PgRead::Date => reply is Time,
        PgRead::DateTime => reply is Time,
        PgRead::DateTimeUtc => reply is Time,
        PgRead::Text => reply is Text,
    }
}

/// Law: a null is null. A reply of the form that was asked for of its column is
/// the value of that column: the boolean, number, bytes or text that came, and a
/// date for a moment that has a text. A reply of another form is null.
pub proof fn law_replies_are_read_as_asked(kind: PgKind, reply: PgReplyV)
    ensures
        read(true, kind, reply) is Null,
        !fits(asked(kind), reply) ==> read(false, kind, reply) is Null,
        fits(asked(kind), reply) ==> (match reply {
            PgReplyV::Bool(b) => read(false, kind, reply) == Val::Bool(b),
            PgReplyV::Int(i) => read(false, kind, reply) == Val::Int(i),
            PgReplyV::Float(f) => read(false, kind, reply) == Val::Float(f),
            PgReplyV::Bytes(b) => read(false, kind, reply) == Val::Bytes(b),
            PgReplyV::Text(s) => read(false, kind, reply).text() == Some(s) && read(false, kind, reply) !is Date,
            PgReplyV::Time(t) => read(false, kind, reply) is Date || read(false, kind, reply) is Null,
            PgReplyV::Nothing => false,
        }),
        fits(asked(kind), reply) && reply is Text ==> (read(false, kind, reply) is Decimal <==> kind is Numeric),
{
}

/// Law: a date is read as a day, a timestamp as a date and time.
pub proof fn law_moments_are_read_by_their_kind(t: Moment)
    ensures
        read(false, PgKind::Date, PgReplyV::Time(t)) == sql::dated(t, sql::day_format()),
        read(false, PgKind::Timestamp, PgReplyV::Time(t)) == sql::dated(t, sql::stamp_format()),
        read(false, PgKind::TimestampTz, PgReplyV::Time(t)) == read(false, PgKind::Timestamp, PgReplyV::Time(t)),
{
}

/// Law: a connection is refused just where it is of another type or its
/// encryption mode is none of the modes that do without, whatever its case.
pub proof fn law_connection_is_refused_for_its_type_or_mode(conn_type: Seq<char>, mode: Option<Seq<char>>)
    ensures
        refusal(conn_type, mode) is None <==> conn_type == "postgresql"@ && (mode matches Some(m) ==> text::lower(m)
            == "disable"@ || text::lower(m) == "prefer"@ || text::lower(m) == "allow"@),
        conn_type != "postgresql"@ ==> refusal(conn_type, mode)->Some_0 is Connection,
        conn_type == "postgresql"@ && refusal(conn_type, mode) is Some ==> refusal(conn_type, mode)->Some_0 is Unsupported,
{
}

/// Law: a column's position is the number that came, where it is one.
pub proof fn law_position_is_the_number(n: i32)
    ensures
        n >= 0 ==> position(n) == n,
{
}

/// Law: a schema is searched first where one is set: the option names it, with its
/// quotes doubled; without one there is no such option.
pub proof fn law_schema_is_searched(schema: Seq<char>)
    ensures
        search_path(None) is None,
        search_path(Some(schema)) matches Some(o) && reading::after(o, "-csearch_path="@) matches Some(t) && text::undouble(
            t,
            '"',
        ) == schema && t == text::double(schema, '"'),
{
    text::law_double_reads_back(schema, '"');
    reading::lemma_after("-csearch_path="@, text::double(schema, '"'));
}

/// Law: a column is described as the server tells it: by its name and type, as one
/// that may be null where the server says `YES`, as a key where it is one, and by its
/// position.
pub proof fn law_column_is_as_told(r: PgColumnRow)
    ensures
        r@.name == r.name@,
        r@.data_type == r.data_type@,
        r@.nullable <==> r.nullable@ == "YES"@,
        r@.is_primary == r.is_primary,
        r.ordinal >= 0 ==> r@.ordinal == r.ordinal,
{
}

/// Law: a batch with a row of another width is refused for the first such row, by
/// its number, whether the datasource is connected or not.
pub proof fn law_ragged_row_is_named(
    connected: bool,
    table: Seq<char>,
    columns: Seq<Seq<char>>,
    rows: Seq<Seq<Val>>,
    mode: SyncMode,
    keys: Seq<Seq<char>>,
    i: int,
)
    requires
        columns.len() > 0,
        0 <= i < rows.len(),
        rows[i].len() != columns.len(),
        forall|k: int| 0 <= k < i ==> (#[trigger] rows[k]).len() == columns.len(),
    ensures
        batch(connected, table, columns, rows, mode, keys) matches Err(DatasourceErrorV::InvalidArgument(s)) && (
        reading::after(s, "row "@) matches Some(a) && reading::numeral_at(a) matches Some((n, b)) && n == i && b == " "@
            + sql::width_fault(rows[i].len(), columns.len())),
{
    reveal_strlit(" ");
    sql::law_first_ragged_is_the_first(rows, columns.len());
    let bad = sql::first_ragged(rows, columns.len());
    assert(bad == i) by {
        if bad < i {
            assert(rows[bad].len() == columns.len());
        } else if bad > i {
            assert(rows[i].len() == columns.len());
        }
    }
    let b = " "@ + sql::width_fault(rows[i].len(), columns.len());
    assert(b[0] == ' ');
    reading::lemma_regroup("row "@ + text::dec(i as nat), " "@, sql::width_fault(rows[i].len(), columns.len()));
    reading::lemma_regroup("row "@, text::dec(i as nat), b);
    reading::lemma_after("row "@, text::dec(i as nat) + b);
    reading::law_numeral_reads_back(i as nat, b);
}

} // verus!

//! The Oracle dialect: statements, connection options and value conversion.

use vstd::prelude::*;

use crate::clock::Moment;
use crate::error::{DatasourceError, DatasourceErrorV};
use crate::float::{Float, FloatV};
use crate::model::{Column, ColumnV, ConnectionConfig, SyncMode, TableSchema, Val, Value};
use crate::reading;
use crate::sql;
use crate::sql::{
    bind, bind_all, date_value, find_ragged, frame, is_listed, number, number_before, prepared, quote_all, refuse_type, schema_of,
    trim_sql, width_words, without, Bind, BindV, Statement, StatementV,
};
use crate::text;
use crate::text::{cat2, cat3, cat4, cat5, copy, dec_text, joined, quote, same};
use crate::views;

verus! {

// ---------------------------------------------------------------------------
// Values
// ---------------------------------------------------------------------------

/// The column types that are read in a way of their own.
#[derive(Debug, Clone, Copy, PartialEq, Eq, Structural)]
pub enum OracleKind {
    /// Precision and scale.
    Number(u8, i8),
    BinaryFloat,
    BinaryDouble,
    Date,
    Timestamp,
    TimestampTz,
    TimestampLtz,
    Raw,
    Blob,
    Bfile,
    Boolean,
    Clob,
    Nclob,
    Long,
    Other,
}

/// The form in which a column is asked from the driver.
#[derive(Debug, Clone, Copy, PartialEq, Eq, Structural)]
pub enum OracleRead {
    Int64,
    Float64,
    DateTime,
    /// The driver's own timestamp type, written as text.
    Stamp,
    Bytes,
    Bool,
    Text,
}

/// What the driver answered.
#[derive(Debug)]
pub enum OracleReply {
    Int(i64),
    Float(Float),
    Time(Moment),
    Bytes(Vec<u8>),
    Bool(bool),
    Text(String),
    /// No value of the form asked for.
    Nothing,
}

/// What an [`OracleReply`] holds.
#[verifier::ext_equal]
pub enum OracleReplyV {
    Int(i64),
    Float(FloatV),
    Time(Moment),
    Bytes(Seq<u8>),
    Bool(bool),
    Text(Seq<char>),
    Nothing,
}

impl View for OracleReply {
    type V = OracleReplyV;

    open spec fn view(&self) -> OracleReplyV {
        match self {
            OracleReply::Int(i) => OracleReplyV::Int(*i),
            OracleReply::Float(f) => OracleReplyV::Float(f@),
            OracleReply::Time(t) => OracleReplyV::Time(*t),
            OracleReply::Bytes(b) => OracleReplyV::Bytes(b@),
            OracleReply::Bool(b) => OracleReplyV::Bool(*b),
            OracleReply::Text(s) => OracleReplyV::Text(s@),
            OracleReply::Nothing => OracleReplyV::Nothing,
        }
    }
}

/// A number without decimals that fits a 64-bit integer by its precision.
pub open spec fn small_whole(kind: OracleKind) -> bool {
    kind matches OracleKind::Number(p, s) && s == 0 && 0 < p <= 18
}

pub open spec fn asked(kind: OracleKind) -> OracleRead {
    match kind {
        OracleKind::Number(_, _) => if small_whole(kind) {
            OracleRead::Int64
        } else {
            OracleRead::Text
        },
        OracleKind::BinaryFloat => OracleRead::Float64,
        OracleKind::BinaryDouble => OracleRead::Float64,
        OracleKind::Date => OracleRead::DateTime,
        OracleKind::Timestamp => OracleRead::DateTime,
        OracleKind::TimestampTz => OracleRead::Stamp,
        OracleKind::TimestampLtz => OracleRead::Stamp,
        OracleKind::Raw => OracleRead::Bytes,
        OracleKind::Blob => OracleRead::Bytes,
        OracleKind::Bfile => OracleRead::Bytes,
        OracleKind::Boolean => OracleRead::Bool,
        OracleKind::Clob => OracleRead::Text,
        OracleKind::Nclob => OracleRead::Text,
        OracleKind::Long => OracleRead::Text,
        OracleKind::Other => OracleRead::Text,
    }
}

/// The form in which a column of the kind is read first.
pub fn oracle_read(kind: OracleKind) -> (out: OracleRead)
    ensures
        out == asked(kind),
{
    match kind {
        OracleKind::Number(p, s) => if s == 0 && p > 0 && p <= 18 {
            OracleRead::Int64
        } else {
            OracleRead::Text
        },
        OracleKind::BinaryFloat => OracleRead::Float64,
        OracleKind::BinaryDouble => OracleRead::Float64,
        OracleKind::Date => OracleRead::DateTime,
        OracleKind::Timestamp => OracleRead::DateTime,
        OracleKind::TimestampTz => OracleRead::Stamp,
        OracleKind::TimestampLtz => OracleRead::Stamp,
        OracleKind::Raw => OracleRead::Bytes,
        OracleKind::Blob => OracleRead::Bytes,
        OracleKind::Bfile => OracleRead::Bytes,
        OracleKind::Boolean => OracleRead::Bool,
        OracleKind::Clob => OracleRead::Text,
        OracleKind::Nclob => OracleRead::Text,
        OracleKind::Long => OracleRead::Text,
        OracleKind::Other => OracleRead::Text,
    }
}

/// Whether a column that gave nothing is read once more, as text: a number
/// whose declared precision promises an integer.
pub fn oracle_retry(kind: OracleKind, reply: &OracleReply) -> (out: Option<OracleRead>)
    ensures
        out == (if small_whole(kind) && reply@ is Nothing {
            Some(OracleRead::Text)
        } else {
            None
        }),
{
    match (kind, reply) {
        (OracleKind::Number(p, s), OracleReply::Nothing) => if s == 0 && p > 0 && p <= 18 {
            Some(OracleRead::Text)
        } else {
            None
        },
        _ => None,
    }
}

/// The value of a column: null where a first look as text found null, and where
/// the driver had no value of the form asked for.
pub open spec fn read(null: bool, kind: OracleKind, reply: OracleReplyV) -> Val {
    if null {
        Val::Null
    } else {
        match (kind, reply) {
            (OracleKind::Number(_, _), OracleReplyV::Int(i)) => if small_whole(kind) {
                Val::Int(i)
            } else {
                Val::Null
            },
            (OracleKind::Number(_, _), OracleReplyV::Text(s)) => Val::Decimal(s),
            (OracleKind::BinaryFloat, OracleReplyV::Float(f)) => Val::Float(f),
            (OracleKind::BinaryDouble, OracleReplyV::Float(f)) => Val::Float(f),
            (OracleKind::Date, OracleReplyV::Time(t)) => sql::dated(t, sql::stamp_format()),
            (OracleKind::Timestamp, OracleReplyV::Time(t)) => sql::dated(t, sql::stamp_format()),
            (OracleKind::TimestampTz, OracleReplyV::Text(s)) => Val::Date(s),
            (OracleKind::TimestampLtz, OracleReplyV::Text(s)) => Val::Date(s),
            (OracleKind::Raw, OracleReplyV::Bytes(b)) => Val::Bytes(b),
            (OracleKind::Blob, OracleReplyV::Bytes(b)) => Val::Bytes(b),
            (OracleKind::Bfile, OracleReplyV::Bytes(b)) => Val::Bytes(b),
            (OracleKind::Boolean, OracleReplyV::Bool(b)) => Val::Bool(b),
            (OracleKind::Clob, OracleReplyV::Text(s)) => Val::String(s),
            (OracleKind::Nclob, OracleReplyV::Text(s)) => Val::String(s),
            (OracleKind::Long, OracleReplyV::Text(s)) => Val::String(s),
            (OracleKind::Other, OracleReplyV::Text(s)) => Val::String(s),
            _ => Val::Null,
        }
    }
}

pub fn oracle_value(null: bool, kind: OracleKind, reply: OracleReply) -> (out: Value)
    ensures
        out@ == read(null, kind, reply@),
{
    if null {
        return Value::Null;
    }
    match (kind, reply) {
        (OracleKind::Number(p, s), OracleReply::Int(i)) => if s == 0 && p > 0 && p <= 18 {
            Value::Int(i)
        } else {
            Value::Null
        },
        (OracleKind::Number(_, _), OracleReply::Text(s)) => Value::Decimal(s),
        (OracleKind::BinaryFloat, OracleReply::Float(f)) => Value::Float(f),
        (OracleKind::BinaryDouble, OracleReply::Float(f)) => Value::Float(f),
        (OracleKind::Date, OracleReply::Time(t)) => date_value(t, "%Y-%m-%d %H:%M:%S%.6f"),
        (OracleKind::Timestamp, OracleReply::Time(t)) => date_value(t, "%Y-%m-%d %H:%M:%S%.6f"),
        (OracleKind::TimestampTz, OracleReply::Text(s)) => Value::Date(s),
        (OracleKind::TimestampLtz, OracleReply::Text(s)) => Value::Date(s),
        (OracleKind::Raw, OracleReply::Bytes(b)) => Value::Bytes(b),
        (OracleKind::Blob, OracleReply::Bytes(b)) => Value::Bytes(b),
        (OracleKind::Bfile, OracleReply::Bytes(b)) => Value::Bytes(b),
        (OracleKind::Boolean, OracleReply::Bool(b)) => Value::Bool(b),
        (OracleKind::Clob, OracleReply::Text(s)) => Value::String(s),
        (OracleKind::Nclob, OracleReply::Text(s)) => Value::String(s),
        (OracleKind::Long, OracleReply::Text(s)) => Value::String(s),
        (OracleKind::Other, OracleReply::Text(s)) => Value::String(s),
        _ => Value::Null,
    }
}

/// How a value is bound: older servers have no boolean type, so booleans are
/// the numbers 0 and 1.
pub fn value_to_sql(v: &Value) -> (out: Bind)
    ensures
        out@ == sql::bound(v@, false),
{
    bind(v, false)
}

// ---------------------------------------------------------------------------
// Statements
// ---------------------------------------------------------------------------

/// One sub-select of a merge: the row's values under the columns' names.
pub open spec fn sub_select(from: int, quoted: Seq<Seq<char>>) -> Seq<char> {
    "SELECT "@ + text::join(
        sql::numbered_before(":"@, from, quoted.map_values(|c: Seq<char>| " AS "@ + c)),
        ","@,
    ) + " FROM DUAL"@
}

/// The rows of a merge, one sub-select each.
pub open spec fn merge_source(rows: nat, quoted: Seq<Seq<char>>) -> Seq<char> {
    text::join(Seq::new(rows, |i: int| sub_select(i * quoted.len(), quoted)), " UNION ALL "@)
}

pub open spec fn merge_sql(table: Seq<char>, columns: Seq<Seq<char>>, rows: nat, keys: Seq<Seq<char>>) -> Seq<char> {
    let quoted = sql::quoted_all(columns, '"');
    let rest = sql::others(columns, keys);
    "MERGE INTO "@ + text::quoted(table, '"') + " tgt USING ("@ + merge_source(rows, quoted) + ") src ON ("@ + text::join(
        sql::framed(keys, '"', "tgt."@, " = src."@, ""@),
        " AND "@,
    ) + (if rest.len() == 0 {
        ")"@
    } else {
        ") WHEN MATCHED THEN UPDATE SET "@ + text::join(sql::framed(rest, '"', "tgt."@, " = src."@, ""@), ", "@)
    }) + " WHEN NOT MATCHED THEN INSERT ("@ + text::join(quoted, ", "@) + ") VALUES ("@ + text::join(
        quoted.map_values(|c: Seq<char>| "src."@ + c),
        ", "@,
    ) + ")"@
}

/// One row of a multi-table insert.
pub open spec fn into_clause(table: Seq<char>, quoted: Seq<Seq<char>>, from: int) -> Seq<char> {
    " INTO "@ + text::quoted(table, '"') + " ("@ + text::join(quoted, ", "@) + ") VALUES ("@ + text::join(
        sql::numbered(":"@, from, quoted.len()),
        ","@,
    ) + ")"@
}

pub open spec fn insert_all_sql(table: Seq<char>, columns: Seq<Seq<char>>, rows: nat) -> Seq<char> {
    let quoted = sql::quoted_all(columns, '"');
    "INSERT ALL"@ + text::join(Seq::new(rows, |i: int| into_clause(table, quoted, i * quoted.len())), ""@)
        + " SELECT 1 FROM DUAL"@
}

/// The statement of a batch: none for no rows; an error for no columns, for a
/// datasource that is not connected and for a row of the wrong width, in this
/// order. With keys in upsert mode it merges, else it inserts.
pub open spec fn batch(
    connected: bool,
    table: Seq<char>,
    columns: Seq<Seq<char>>,
    rows: Seq<Seq<Val>>,
    mode: SyncMode,
    keys: Seq<Seq<char>>,
) -> Result<Option<StatementV<BindV>>, DatasourceErrorV> {
    let bad = sql::first_ragged(rows, columns.len());
    if rows.len() == 0 {
        Ok(None)
    } else if columns.len() == 0 {
        Err(DatasourceErrorV::InvalidArgument("batch_insert requires at least one column"@))
    } else if !connected {
        Err(DatasourceErrorV::Connection("oracle datasource not connected"@))
    } else if bad < rows.len() {
        Err(DatasourceErrorV::InvalidArgument("row "@ + sql::width_fault(rows[bad].len(), columns.len())))
    } else {
        Ok(
            Some(
                StatementV {
                    sql: if mode == SyncMode::Upsert && keys.len() > 0 {
                        merge_sql(table, columns, rows.len(), keys)
                    } else {
                        insert_all_sql(table, columns, rows.len())
                    },
                    params: sql::binds(rows, false),
                },
            ),
        )
    }
}

/// Each text with another before it.
fn prefixed(prefix: &str, list: &Vec<String>) -> (out: Vec<String>)
    ensures
        text::views(out@) == text::views(list@).map_values(|c: Seq<char>| prefix@ + c),
{
    let ghost want = text::views(list@).map_values(|c: Seq<char>| prefix@ + c);
    let mut out: Vec<String> = Vec::new();
    let mut i: usize = 0;
    while i < list.len()
        invariant
            i <= list.len(),
            want == text::views(list@).map_values(|c: Seq<char>| prefix@ + c),
            text::views(out@) == want.take(i as int),
        decreases list.len() - i,
    {
        let s = cat2(prefix, list[i].as_str());
        proof {
            views::lemma_list_push(out@, s);
        }
        out.push(s);
        assert(want.take(i + 1) =~= want.take(i as int).push(want[i as int]));
        i += 1;
    }
    assert(want.take(i as int) =~= want);
    out
}

fn merge_source_of(rows: usize, quoted: &Vec<String>, total: usize) -> (out: String)
    requires
        total == rows * quoted@.len(),
    ensures
        out@ == merge_source(rows as nat, text::views(quoted@)),
{
    let ghost names = text::views(quoted@);
    let ghost want = Seq::new(rows as nat, |i: int| sub_select(i * names.len(), names));
    let tails = prefixed(" AS ", quoted);
    let mut out: Vec<String> = Vec::new();
    let mut i: usize = 0;
    let mut from: usize = 0;
    assert(tails@.len() == quoted@.len()) by {
        assert(text::views(tails@).len() == quoted@.len());
    }
    while i < rows
        invariant
            i <= rows,
            names == text::views(quoted@),
            tails@.len() == quoted@.len(),
            text::views(tails@) == names.map_values(|c: Seq<char>| " AS "@ + c),
            from == i * names.len(),
            total == rows * names.len(),
            want == Seq::new(rows as nat, |i: int| sub_select(i * names.len(), names)),
            text::views(out@) == want.take(i as int),
        decreases rows - i,
    {
        proof {
            sql::lemma_row_fits(i as int, rows as int, names.len() as int);
        }
        let items = number_before(":", from, &tails);
        let inner = joined(&items, ",");
        let s = cat3("SELECT ", inner.as_str(), " FROM DUAL");
        proof {
            views::lemma_list_push(out@, s);
        }
        out.push(s);
        assert(want.take(i + 1) =~= want.take(i as int).push(want[i as int]));
        from = from + quoted.len();
        i += 1;
    }
    assert(want.take(i as int) =~= want);
    joined(&out, " UNION ALL ")
}

fn insert_all_of(table: &str, quoted: &Vec<String>, rows: usize, total: usize) -> (out: String)
    requires
        total == rows * quoted@.len(),
    ensures
        out@ == text::join(
            Seq::new(
                rows as nat,
                |i: int| into_clause(table@, text::views(quoted@), i * text::views(quoted@).len()),
            ),
            ""@,
        ),
{
    let ghost names = text::views(quoted@);
    let ghost want = Seq::new(rows as nat, |i: int| into_clause(table@, names, i * names.len()));
    let name = quote(table, '"');
    let list = joined(quoted, ", ");
    let head = cat5(" INTO ", name.as_str(), " (", list.as_str(), ") VALUES (");
    let mut out: Vec<String> = Vec::new();
    let mut i: usize = 0;
    let mut from: usize = 0;
    while i < rows
        invariant
            i <= rows,
            names == text::views(quoted@),
            head@ == " INTO "@ + text::quoted(table@, '"') + " ("@ + text::join(names, ", "@) + ") VALUES ("@,
            from == i * names.len(),
            total == rows * names.len(),
            want == Seq::new(rows as nat, |i: int| into_clause(table@, names, i * names.len())),
            text::views(out@) == want.take(i as int),
        decreases rows - i,
    {
        proof {
            sql::lemma_row_fits(i as int, rows as int, names.len() as int);
        }
        let marks = number(":", from, quoted.len());
        let inner = joined(&marks, ",");
        let s = cat3(head.as_str(), inner.as_str(), ")");
        proof {
            views::lemma_list_push(out@, s);
        }
        out.push(s);
        assert(want.take(i + 1) =~= want.take(i as int).push(want[i as int]));
        from = from + quoted.len();
        i += 1;
    }
    assert(want.take(i as int) =~= want);
    joined(&out, "")
}

/// A column as `all_tab_columns` describes it.
#[derive(Debug)]
pub struct OracleColumnRow {
    pub name: String,
    pub data_type: String,
    pub nullable: String,
}

/// The columns that the server lists, numbered from zero.
pub open spec fn described(rows: Seq<OracleColumnRow>, keys: Seq<Seq<char>>) -> Seq<ColumnV> {
    Seq::new(
        rows.len(),
        |i: int|
            ColumnV {
                name: rows[i].name@,
                data_type: rows[i].data_type@,
                nullable: rows[i].nullable@ == "Y"@,
                is_primary: keys.contains(rows[i].name@),
                ordinal: i as usize,
            },
    )
}

/// An Oracle datasource: the connection it was opened with, if it is open.
#[derive(Debug)]
pub struct OracleDatasource {
    pub cfg: Option<ConnectionConfig>,
}

impl Default for OracleDatasource {
    fn default() -> (out: OracleDatasource)
        ensures
            out.cfg is None,
    {
        OracleDatasource { cfg: None }
    }
}

/// What a connection is opened with.
#[derive(Debug)]
pub struct OraclePlan {
    pub username: String,
    pub password: String,
    pub connect_string: String,
    /// Statement that selects the schema, where one is configured.
    pub set_schema: Option<String>,
}

pub open spec fn page(sql: Seq<char>, offset: u64, limit: u64) -> Seq<char> {
    sql::bare(sql) + " OFFSET "@ + text::dec(offset as nat) + " ROWS FETCH NEXT "@ + text::dec(limit as nat)
        + " ROWS ONLY"@
}

/// The rows that count as inserted: those the server counted, but no fewer than
/// were sent.
pub open spec fn counted(affected: u64, rows: usize) -> u64 {
    if affected < rows {
        rows as u64
    } else {
        affected
    }
}

pub open spec fn connect_target(cfg: ConnectionConfig) -> Seq<char> {
    "//"@ + cfg.host@ + ":"@ + text::dec(cfg.port as nat) + "/"@ + cfg.database@
}

impl OracleDatasource {
    pub fn name(&self) -> (out: &'static str)
        ensures
            out@ == "oracle"@,
    {
        "oracle"
    }

    /// The check that precedes every use of the connection.
    pub fn conn(&self) -> (out: Result<&ConnectionConfig, DatasourceError>)
        ensures
            match out {
                Ok(c) => self.cfg == Some(*c),
                Err(e) => self.cfg is None && e@ == DatasourceErrorV::Connection("oracle datasource not connected"@),
            },
    {
        match &self.cfg {
            Some(c) => Ok(c),
            None => Err(DatasourceError::Connection(copy("oracle datasource not connected"))),
        }
    }

    pub fn quote_ident(&self, name: &str) -> (out: String)
        ensures
            out@ == text::quoted(name@, '"'),
    {
        quote(name, '"')
    }

    /// What the connection is opened with, or why it is refused.
    pub fn connect(cfg: &ConnectionConfig) -> (out: Result<OraclePlan, DatasourceError>)
        ensures
            match out {
                Ok(p) => {
                    &&& cfg.conn_type@ == "oracle"@
                    &&& p.username@ == cfg.username@
                    &&& p.password@ == cfg.password@
                    &&& p.connect_string@ == connect_target(*cfg)
                    &&& views::opt(p.set_schema) == (match cfg.schema {
                        Some(s) => Some("ALTER SESSION SET CURRENT_SCHEMA = "@ + text::quoted(s@, '"')),
                        None => None,
                    })
                },
                Err(e) => cfg.conn_type@ != "oracle"@ && e@ == sql::wrong_type("oracle"@, cfg.conn_type@),
            },
    {
        if !same(cfg.conn_type.as_str(), "oracle") {
            return Err(refuse_type("oracle", cfg.conn_type.as_str()));
        }
        let port = dec_text(cfg.port as u64);
        let address = cat5("//", cfg.host.as_str(), ":", port.as_str(), "/");
        let set_schema = match &cfg.schema {
            Some(s) => {
                let q = quote(s.as_str(), '"');
                Some(cat2("ALTER SESSION SET CURRENT_SCHEMA = ", q.as_str()))
            },
            None => None,
        };
        Ok(
            OraclePlan {
                username: cfg.username.clone(),
                password: cfg.password.clone(),
                connect_string: cat2(address.as_str(), cfg.database.as_str()),
                set_schema,
            },
        )
    }

    /// The error of a connection that could not be opened.
    pub fn connect_failed(plan: &OraclePlan, cause: &str) -> (out: DatasourceError)
        ensures
            out@ == DatasourceErrorV::Connection(
                "oracle connect to "@ + plan.connect_string@ + " failed: "@ + cause@,
            ),
    {
        DatasourceError::Connection(cat4("oracle connect to ", plan.connect_string.as_str(), " failed: ", cause))
    }

    /// The statement that lists a table's columns; it binds the table's name.
    pub fn schema_sql(&self) -> (out: &'static str)
        ensures
            out@ == "SELECT column_name, data_type, nullable, column_id FROM all_tab_columns WHERE owner = SYS_CONTEXT('USERENV','CURRENT_SCHEMA') AND table_name = :1 ORDER BY column_id"@,
    {
        "SELECT column_name, data_type, nullable, column_id FROM all_tab_columns WHERE owner = SYS_CONTEXT('USERENV','CURRENT_SCHEMA') AND table_name = :1 ORDER BY column_id"
    }

    /// The statement that lists a table's key columns; it binds the table's name.
    pub fn keys_sql(&self) -> (out: &'static str)
        ensures
            out@ == "SELECT cc.column_name FROM all_constraints c JOIN all_cons_columns cc   ON cc.constraint_name = c.constraint_name AND cc.owner = c.owner WHERE c.constraint_type = 'P'   AND c.owner = SYS_CONTEXT('USERENV','CURRENT_SCHEMA')   AND c.table_name = :1"@,
    {
        "SELECT cc.column_name FROM all_constraints c JOIN all_cons_columns cc   ON cc.constraint_name = c.constraint_name AND cc.owner = c.owner WHERE c.constraint_type = 'P'   AND c.owner = SYS_CONTEXT('USERENV','CURRENT_SCHEMA')   AND c.table_name = :1"
    }

    /// The structure of a table from what the server lists.
    pub fn get_schema(&self, table: &str, rows: &Vec<OracleColumnRow>, keys: &Vec<String>) -> (out: Result<
        TableSchema,
        DatasourceError,
    >)
        ensures
            views::res(out) == sql::structure(table@, described(rows@, text::views(keys@)), "schema"@),
    {
        let ghost want = described(rows@, text::views(keys@));
        let mut columns: Vec<Column> = Vec::new();
        let mut i: usize = 0;
        while i < rows.len()
            invariant
                i <= rows.len(),
                want == described(rows@, text::views(keys@)),
                views::list(columns@) == want.take(i as int),
            decreases rows.len() - i,
        {
            let c = Column {
                name: rows[i].name.clone(),
                data_type: rows[i].data_type.clone(),
                nullable: same(rows[i].nullable.as_str(), "Y"),
                is_primary: is_listed(keys, rows[i].name.as_str()),
                ordinal: i,
            };
            proof {
                views::lemma_list_push(columns@, c);
                assert(c@ == want[i as int]);
            }
            columns.push(c);
            assert(want.take(i + 1) =~= want.take(i as int).push(want[i as int]));
            i += 1;
        }
        assert(want.take(i as int) =~= want);
        schema_of(table, columns, "schema")
    }

    /// The statement of one page.
    pub fn query_page(&self, sql: &str, offset: u64, limit: u64) -> (out: String)
        ensures
            out@ == sql::bare(sql@) + " OFFSET "@ + text::dec(offset as nat) + " ROWS FETCH NEXT "@ + text::dec(
                limit as nat,
            ) + " ROWS ONLY"@,
            out@ == page(sql@, offset, limit),
    {
        let s = trim_sql(sql);
        let o = dec_text(offset);
        let l = dec_text(limit);
        let head = cat5(s.as_str(), " OFFSET ", o.as_str(), " ROWS FETCH NEXT ", l.as_str());
        cat2(head.as_str(), " ROWS ONLY")
    }

    /// The statement and values of a batch.
    pub fn batch_insert(
        &self,
        table: &str,
        columns: &Vec<String>,
        rows: &Vec<Vec<Value>>,
        mode: SyncMode,
        pk_columns: &Vec<String>,
    ) -> (out: Result<Option<Statement<Bind>>, DatasourceError>)
        ensures
            prepared(out) == batch(
                self.cfg is Some,
                table@,
                text::views(columns@),
                views::lists(rows@),
                mode,
                text::views(pk_columns@),
            ),
    {
        let ghost names = text::views(columns@);
        let ghost keys = text::views(pk_columns@);
        let ghost all = views::lists(rows@);
        if rows.len() == 0 {
            return Ok(None);
        }
        if columns.len() == 0 {
            return Err(DatasourceError::InvalidArgument(copy("batch_insert requires at least one column")));
        }
        match self.conn() {
            Ok(_) => {},
            Err(e) => {
                return Err(e);
            },
        }
        let bad = find_ragged(rows, columns.len());
        if bad < rows.len() {
            let w = width_words(rows[bad].len(), columns.len());
            return Err(DatasourceError::InvalidArgument(cat2("row ", w.as_str())));
        }
        let params = bind_all(rows, false);
        proof {
            sql::lemma_binds_len(all, names.len(), false);
        }
        let quoted = quote_all(columns, '"');
        assert(quoted@.len() == columns@.len()) by {
            assert(text::views(quoted@).len() == columns@.len());
        }
        let sql = if mode == SyncMode::Upsert && pk_columns.len() > 0 {
            let name = self.quote_ident(table);
            let using = merge_source_of(rows.len(), &quoted, params.len());
            let matching = frame(pk_columns, '"', "tgt.", " = src.", "");
            let on_clause = joined(&matching, " AND ");
            let rest = without(columns, pk_columns);
            let insert_cols = joined(&quoted, ", ");
            let sources = prefixed("src.", &quoted);
            let insert_vals = joined(&sources, ", ");
            let update = if rest.len() == 0 {
                copy(")")
            } else {
                let sets = frame(&rest, '"', "tgt.", " = src.", "");
                let set_clause = joined(&sets, ", ");
                cat2(") WHEN MATCHED THEN UPDATE SET ", set_clause.as_str())
            };
            let head = cat5("MERGE INTO ", name.as_str(), " tgt USING (", using.as_str(), ") src ON (");
            let middle = cat4(head.as_str(), on_clause.as_str(), update.as_str(), " WHEN NOT MATCHED THEN INSERT (");
            cat5(middle.as_str(), insert_cols.as_str(), ") VALUES (", insert_vals.as_str(), ")")
        } else {
            let clauses = insert_all_of(table, &quoted, rows.len(), params.len());
            cat3("INSERT ALL", clauses.as_str(), " SELECT 1 FROM DUAL")
        };
        Ok(Some(Statement { sql, params }))
    }

    /// The number of rows that a batch counts for: at least those handed in.
    pub fn inserted(&self, affected: u64, rows: usize) -> (out: u64)
        ensures
            out == (if affected < rows {
                rows as u64
            } else {
                affected
            }),
            out == counted(affected, rows),
    {
        if affected < rows as u64 {
            rows as u64
        } else {
            affected
        }
    }

    /// The statement that empties a table.
    pub fn truncate(&self, table: &str) -> (out: String)
        ensures
            out@ == "TRUNCATE TABLE "@ + text::quoted(table@, '"'),
    {
        let t = self.quote_ident(table);
        cat2("TRUNCATE TABLE ", t.as_str())
    }

    /// The statement of the liveness check.
    pub fn ping(&self) -> (out: &'static str)
        ensures
            out@ == "SELECT 1 FROM DUAL"@,
    {
        "SELECT 1 FROM DUAL"
    }
}

// ---------------------------------------------------------------------------
// What a merge says
// ---------------------------------------------------------------------------

/// A merge as the server reads it: the table; the source rows, each a list of
/// placeholders with the name each has in the source; the condition on which a
/// target and a source row match; the columns that a match sets, each with the
/// source column it is set to; and the columns and source columns of an insert.
#[verifier::ext_equal]
pub struct MergeV {
    pub table: Seq<char>,
    pub source: Seq<Seq<(nat, Seq<char>)>>,
    pub on: Seq<reading::Part>,
    pub updates: Seq<(Seq<char>, Seq<char>)>,
    pub columns: Seq<Seq<char>>,
    pub values: Seq<Seq<char>>,
}

/// A placeholder with its name, as in `:3 AS "A"`.
pub open spec fn aliased_item() -> reading::ItemAt<(nat, Seq<char>)> {
    |s: Seq<char>| match reading::mark_at(s, ":"@) {
        None => None,
        Some((k, a)) => match reading::after(a, " AS "@) {
            None => None,
            Some(b) => match reading::name_at(b, '"') {
                None => None,
                Some((c, r)) => Some(((k, c), r)),
            },
        },
    }
}

/// One row of the source.
pub open spec fn select_item() -> reading::ItemAt<Seq<(nat, Seq<char>)>> {
    |s: Seq<char>| match reading::after(s, "SELECT "@) {
        None => None,
        Some(a) => match reading::list_at(a, aliased_item(), ","@) {
            None => None,
            Some((v, b)) => match reading::after(b, " FROM DUAL"@) {
                None => None,
                Some(r) => Some((v, r)),
            },
        },
    }
}

/// A column of the source.
pub open spec fn source_item() -> reading::ItemAt<Seq<char>> {
    |s: Seq<char>| match reading::after(s, "src."@) {
        None => None,
        Some(a) => reading::name_at(a, '"'),
    }
}

/// A column of the target and the column of the source beside it.
pub open spec fn equation_item() -> reading::ItemAt<(Seq<char>, Seq<char>)> {
    reading::pair_item('"', "tgt."@, " = src."@, ""@)
}

/// What a match sets: nothing, where no such clause stands there.
pub open spec fn updates_at(s: Seq<char>) -> Option<(Seq<(Seq<char>, Seq<char>)>, Seq<char>)> {
    match reading::after(s, " WHEN MATCHED THEN UPDATE SET "@) {
        None => Some((Seq::empty(), s)),
        Some(r) => reading::list_at(r, equation_item(), ", "@),
    }
}

/// What is inserted where nothing matches, up to the end of the statement.
pub open spec fn insert_at(s: Seq<char>) -> Option<(Seq<Seq<char>>, Seq<Seq<char>>)> {
    match reading::after(s, " WHEN NOT MATCHED THEN INSERT ("@) {
        None => None,
        Some(a) => match reading::names_at(a, '"', ", "@) {
            None => None,
            Some((columns, b)) => match reading::after(b, ") VALUES ("@) {
                None => None,
                Some(c) => match reading::list_at(c, source_item(), ", "@) {
                    None => None,
                    Some((values, d)) => if d == ")"@ {
                        Some((columns, values))
                    } else {
                        None
                    },
                },
            },
        },
    }
}

/// The table and the source of a merge, and what stands behind ` src ON (`.
pub open spec fn merge_head(s: Seq<char>) -> Option<(Seq<char>, Seq<Seq<(nat, Seq<char>)>>, Seq<char>)> {
    match reading::after(s, "MERGE INTO "@) {
        None => None,
        Some(a) => match reading::name_at(a, '"') {
            None => None,
            Some((table, b)) => match reading::after(b, " tgt USING ("@) {
                None => None,
                Some(c) => match reading::list_at(c, select_item(), " UNION ALL "@) {
                    None => None,
                    Some((source, d)) => match reading::after(d, ") src ON ("@) {
                        None => None,
                        Some(e) => Some((table, source, e)),
                    },
                },
            },
        },
    }
}

/// A merge statement, read.
#[verifier::opaque]
pub open spec fn merge_read(s: Seq<char>) -> Option<MergeV> {
    match merge_head(s) {
        None => None,
        Some((table, source, a)) => match reading::condition_at(a, equation_item()) {
            None => None,
            Some((on, b)) => match reading::after(b, ")"@) {
                None => None,
                Some(c) => match updates_at(c) {
                    None => None,
                    Some((updates, d)) => match insert_at(d) {
                        None => None,
                        Some((columns, values)) => Some(MergeV { table, source, on, updates, columns, values }),
                    },
                },
            },
        },
    }
}

/// The placeholders of a row, counted from the one after `from`, each under the
/// name of its column.
pub open spec fn aliased(from: int, columns: Seq<Seq<char>>) -> Seq<(nat, Seq<char>)> {
    Seq::new(columns.len(), |j: int| ((from + j + 1) as nat, columns[j]))
}

proof fn lemma_sub_select(from: int, columns: Seq<Seq<char>>, rest: Seq<char>)
    requires
        from >= 0,
        columns.len() > 0,
    ensures
        select_item()(sub_select(from, sql::quoted_all(columns, '"')) + rest) == Some((aliased(from, columns), rest)),
{
    reveal_strlit(",");
    reveal_strlit(" AS ");
    reveal_strlit(" FROM DUAL");
    let quoted = sql::quoted_all(columns, '"');
    let parts = sql::numbered_before(":"@, from, quoted.map_values(|c: Seq<char>| " AS "@ + c));
    let xs = aliased(from, columns);
    let ok = |r: Seq<char>| reading::not_before(r, '"');
    assert forall|i: int, r: Seq<char>| 0 <= i < parts.len() && ok(r) implies #[trigger] aliased_item()(parts[i] + r) == Some(
        (xs[i], r),
    ) by {
        let k = (from + i + 1) as nat;
        let name = text::quoted(columns[i], '"');
        let a = " AS "@ + (name + r);
        assert(parts[i] + r =~= ":"@ + (text::dec(k) + a));
        reading::lemma_after(":"@, text::dec(k) + a);
        assert(a[0] == ' ');
        reading::law_numeral_reads_back(k, a);
        reading::lemma_after(" AS "@, name + r);
        reading::law_quoted_name_reads_back(columns[i], '"', r);
    }
    assert forall|more: Seq<char>| ok(#[trigger] (","@ + more)) by {
        assert((","@ + more)[0] == ',');
    }
    let tail = " FROM DUAL"@ + rest;
    assert(tail[0] == ' ');
    reading::lemma_not_after(tail, ","@);
    reading::lemma_list_reads_back(parts, xs, aliased_item(), ","@, ok, tail);
    reading::lemma_after(" FROM DUAL"@, rest);
    let list = text::join(parts, ","@);
    reading::lemma_after("SELECT "@, list + tail);
    reading::lemma_regroup("SELECT "@ + list, " FROM DUAL"@, rest);
    reading::lemma_regroup("SELECT "@, list, tail);
}

proof fn lemma_source_reads(rows: nat, columns: Seq<Seq<char>>, rest: Seq<char>)
    requires
        rows > 0,
        columns.len() > 0,
        reading::after(rest, " UNION ALL "@) is None,
    ensures
        reading::list_at(merge_source(rows, sql::quoted_all(columns, '"')) + rest, select_item(), " UNION ALL "@) == Some(
            (Seq::new(rows, |i: int| aliased(i * columns.len(), columns)), rest),
        ),
{
    reveal_strlit(" UNION ALL ");
    let quoted = sql::quoted_all(columns, '"');
    let parts = Seq::new(rows, |i: int| sub_select(i * quoted.len(), quoted));
    let xs = Seq::new(rows, |i: int| aliased(i * columns.len(), columns));
    let ok = |r: Seq<char>| true;
    assert forall|i: int, r: Seq<char>| 0 <= i < parts.len() && ok(r) implies #[trigger] select_item()(parts[i] + r) == Some(
        (xs[i], r),
    ) by {
        assert(i * columns.len() >= 0) by (nonlinear_arith)
            requires
                i >= 0,
        ;
        lemma_sub_select(i * columns.len(), columns, r);
    }
    reading::lemma_list_reads_back(parts, xs, select_item(), " UNION ALL "@, ok, rest);
}

proof fn lemma_insert_reads(columns: Seq<Seq<char>>)
    requires
        columns.len() > 0,
    ensures
        ({
            let quoted = sql::quoted_all(columns, '"');
            let values = text::join(quoted.map_values(|c: Seq<char>| "src."@ + c), ", "@);
            insert_at(
                " WHEN NOT MATCHED THEN INSERT ("@ + (text::join(quoted, ", "@) + (") VALUES ("@ + (values + ")"@))),
            ) == Some((columns, columns))
        }),
{
    reveal_strlit(", ");
    reveal_strlit(")");
    reveal_strlit(") VALUES (");
    let quoted = sql::quoted_all(columns, '"');
    let parts = quoted.map_values(|c: Seq<char>| "src."@ + c);
    let ok = |r: Seq<char>| reading::not_before(r, '"');
    assert forall|i: int, r: Seq<char>| 0 <= i < parts.len() && ok(r) implies #[trigger] source_item()(parts[i] + r) == Some(
        (columns[i], r),
    ) by {
        let name = text::quoted(columns[i], '"');
        reading::lemma_regroup("src."@, name, r);
        reading::lemma_after("src."@, name + r);
        reading::law_quoted_name_reads_back(columns[i], '"', r);
    }
    assert forall|more: Seq<char>| ok(#[trigger] (", "@ + more)) by {
        assert((", "@ + more)[0] == ',');
    }
    reading::lemma_not_after(")"@, ", "@);
    reading::lemma_list_reads_back(parts, columns, source_item(), ", "@, ok, ")"@);
    let c = text::join(parts, ", "@) + ")"@;
    let b = ") VALUES ("@ + c;
    reading::lemma_after(") VALUES ("@, c);
    assert(b[0] == ')');
    reading::lemma_not_after(b, ", "@);
    reading::lemma_names_read_back(columns, '"', ", "@, b);
    reading::lemma_after(" WHEN NOT MATCHED THEN INSERT ("@, text::join(quoted, ", "@) + b);
}

proof fn lemma_updates_read(rest: Seq<Seq<char>>, insert: Seq<char>)
    ensures
        ({
            let d = " WHEN NOT MATCHED THEN INSERT ("@ + insert;
            let sets = text::join(sql::framed(rest, '"', "tgt."@, " = src."@, ""@), ", "@);
            &&& rest.len() == 0 ==> updates_at(d) == Some((Seq::<(Seq<char>, Seq<char>)>::empty(), d))
            &&& rest.len() > 0 ==> updates_at(" WHEN MATCHED THEN UPDATE SET "@ + (sets + d)) == Some(
                (reading::with_itself(rest), d),
            )
        }),
{
    reveal_strlit("");
    reveal_strlit(", ");
    reveal_strlit(" = src.");
    reveal_strlit(" WHEN NOT MATCHED THEN INSERT (");
    reveal_strlit(" WHEN MATCHED THEN UPDATE SET ");
    let d = " WHEN NOT MATCHED THEN INSERT ("@ + insert;
    if rest.len() > 0 {
        let sets = text::join(sql::framed(rest, '"', "tgt."@, " = src."@, ""@), ", "@);
        reading::lemma_after(" WHEN MATCHED THEN UPDATE SET "@, sets + d);
        assert(d[0] == ' ');
        reading::lemma_not_after(d, ", "@);
        reading::lemma_pairs_read_back(rest, '"', "tgt."@, " = src."@, ""@, ", "@, d);
    } else {
        let t = " WHEN MATCHED THEN UPDATE SET "@;
        assert(d[6] == 'N' && t[6] == 'M');
        assert(d.len() >= t.len() && d.take(t.len() as int) == t ==> d.take(t.len() as int)[6] == t[6]);
    }
}

proof fn lemma_merge_head(table: Seq<char>, rows: nat, columns: Seq<Seq<char>>, e: Seq<char>)
    requires
        rows > 0,
        columns.len() > 0,
    ensures
        merge_head(
            "MERGE INTO "@ + (text::quoted(table, '"') + (" tgt USING ("@ + (merge_source(rows, sql::quoted_all(columns, '"'))
                + (") src ON ("@ + e)))),
        ) == Some((table, Seq::new(rows, |i: int| aliased(i * columns.len(), columns)), e)),
{
    reveal_strlit(" tgt USING (");
    reveal_strlit(") src ON (");
    reveal_strlit(" UNION ALL ");
    let d = ") src ON ("@ + e;
    reading::lemma_after(") src ON ("@, e);
    assert(d[0] == ')');
    reading::lemma_not_after(d, " UNION ALL "@);
    lemma_source_reads(rows, columns, d);
    let c = merge_source(rows, sql::quoted_all(columns, '"')) + d;
    let b = " tgt USING ("@ + c;
    reading::lemma_after(" tgt USING ("@, c);
    assert(b[0] == ' ');
    reading::law_quoted_name_reads_back(table, '"', b);
    reading::lemma_after("MERGE INTO "@, text::quoted(table, '"') + b);
}

/// The text of a merge, its parts joined from the right.
proof fn lemma_merge_regroups(table: Seq<char>, columns: Seq<Seq<char>>, rows: nat, keys: Seq<Seq<char>>)
    ensures
        ({
            let quoted = sql::quoted_all(columns, '"');
            let rest = sql::others(columns, keys);
            let values = text::join(quoted.map_values(|c: Seq<char>| "src."@ + c), ", "@);
            let insert = " WHEN NOT MATCHED THEN INSERT ("@ + (text::join(quoted, ", "@) + (") VALUES ("@ + (values + ")"@)));
            let sets = text::join(sql::framed(rest, '"', "tgt."@, " = src."@, ""@), ", "@);
            let updates = if rest.len() == 0 {
                insert
            } else {
                " WHEN MATCHED THEN UPDATE SET "@ + (sets + insert)
            };
            let cond = text::join(sql::framed(keys, '"', "tgt."@, " = src."@, ""@), " AND "@);
            merge_sql(table, columns, rows, keys) == "MERGE INTO "@ + (text::quoted(table, '"') + (" tgt USING ("@ + (
            merge_source(rows, quoted) + (") src ON ("@ + (cond + (")"@ + updates))))))
        }),
{
    let quoted = sql::quoted_all(columns, '"');
    let rest = sql::others(columns, keys);
    let values = text::join(quoted.map_values(|c: Seq<char>| "src."@ + c), ", "@);
    let names = text::join(quoted, ", "@);
    let i3 = values + ")"@;
    let i2 = ") VALUES ("@ + i3;
    let i1 = names + i2;
    let insert = " WHEN NOT MATCHED THEN INSERT ("@ + i1;
    let sets = text::join(sql::framed(rest, '"', "tgt."@, " = src."@, ""@), ", "@);
    let middle = if rest.len() == 0 {
        ")"@
    } else {
        ") WHEN MATCHED THEN UPDATE SET "@ + sets
    };
    let cond = text::join(sql::framed(keys, '"', "tgt."@, " = src."@, ""@), " AND "@);
    let name = text::quoted(table, '"');
    let source = merge_source(rows, quoted);
    let p1 = "MERGE INTO "@ + name;
    let p2 = p1 + " tgt USING ("@;
    let p3 = p2 + source;
    let p4 = p3 + ") src ON ("@;
    let p5 = p4 + cond;
    let p6 = p5 + middle;
    let p7 = p6 + " WHEN NOT MATCHED THEN INSERT ("@;
    let p8 = p7 + names;
    let p9 = p8 + ") VALUES ("@;
    reading::lemma_regroup(p9, values, ")"@);
    reading::lemma_regroup(p8, ") VALUES ("@, i3);
    reading::lemma_regroup(p7, names, i2);
    reading::lemma_regroup(p6, " WHEN NOT MATCHED THEN INSERT ("@, i1);
    reading::lemma_regroup(p5, middle, insert);
    assert(merge_sql(table, columns, rows, keys) == p5 + (middle + insert));
    let updates = if rest.len() == 0 {
        insert
    } else {
        " WHEN MATCHED THEN UPDATE SET "@ + (sets + insert)
    };
    assert(middle + insert == ")"@ + updates) by {
        if rest.len() > 0 {
            reveal_strlit(")");
            reveal_strlit(" WHEN MATCHED THEN UPDATE SET ");
            reveal_strlit(") WHEN MATCHED THEN UPDATE SET ");
            assert(") WHEN MATCHED THEN UPDATE SET "@ =~= ")"@ + " WHEN MATCHED THEN UPDATE SET "@);
            reading::lemma_regroup(")"@ + " WHEN MATCHED THEN UPDATE SET "@, sets, insert);
            reading::lemma_regroup(")"@, " WHEN MATCHED THEN UPDATE SET "@, sets + insert);
        }
    }
    let t5 = ")"@ + updates;
    let t4 = cond + t5;
    let t3 = ") src ON ("@ + t4;
    let t2 = source + t3;
    let t1 = " tgt USING ("@ + t2;
    reading::lemma_regroup(p4, cond, t5);
    reading::lemma_regroup(p3, ") src ON ("@, t4);
    reading::lemma_regroup(p2, source, t3);
    reading::lemma_regroup(p1, " tgt USING ("@, t2);
    reading::lemma_regroup("MERGE INTO "@, name, t1);
}

/// Law: a merge goes into the table that was asked for. Its source has one row for
/// each row, in which the placeholder of each value has the name of its column.
/// A match sets just the columns that are no keys, each to the source column of
/// its name; where nothing matches, each column gets the source column of its
/// name.
pub proof fn law_merge_says_what_was_asked(table: Seq<char>, columns: Seq<Seq<char>>, rows: nat, keys: Seq<Seq<char>>)
    requires
        columns.len() > 0,
        rows > 0,
        keys.len() > 0,
    ensures
        merge_read(merge_sql(table, columns, rows, keys)) == Some(
            MergeV {
                table,
                source: Seq::new(rows, |i: int| aliased(i * columns.len(), columns)),
                on: reading::conjunction(keys),
                updates: reading::with_itself(columns.filter(|c: Seq<char>| !keys.contains(c))),
                columns,
                values: columns,
            },
        ),
{
    reveal(merge_read);
    let quoted = sql::quoted_all(columns, '"');
    let rest = sql::others(columns, keys);
    let values = text::join(quoted.map_values(|c: Seq<char>| "src."@ + c), ", "@);
    let inner = text::join(quoted, ", "@) + (") VALUES ("@ + (values + ")"@));
    let insert = " WHEN NOT MATCHED THEN INSERT ("@ + inner;
    let sets = text::join(sql::framed(rest, '"', "tgt."@, " = src."@, ""@), ", "@);
    let updates = if rest.len() == 0 {
        insert
    } else {
        " WHEN MATCHED THEN UPDATE SET "@ + (sets + insert)
    };
    let cond = text::join(sql::framed(keys, '"', "tgt."@, " = src."@, ""@), " AND "@);
    let b = ")"@ + updates;
    lemma_merge_regroups(table, columns, rows, keys);
    lemma_merge_head(table, rows, columns, cond + b);
    assert(reading::condition_at(cond + b, equation_item()) == Some((reading::conjunction(keys), b))) by {
        reveal_strlit(")");
        reveal_strlit(" = src.");
        assert(b[0] == ')');
        reading::lemma_conjunction_reads_back(keys, '"', "tgt."@, " = src."@, b);
    }
    reading::lemma_after(")"@, updates);
    lemma_updates_read(rest, inner);
    lemma_insert_reads(columns);
    sql::law_others_are_those_not_taken(columns, keys);
    assert(reading::with_itself(Seq::<Seq<char>>::empty()) =~= Seq::empty());
    assert(rest.len() == 0 ==> rest =~= Seq::empty());
}

/// Law: the condition of a merge matches a target and a source row just where they
/// agree on every key column, whatever the number of keys. (`holds` says of a
/// target and a source column whether the two rows have the same value there.)
pub proof fn law_merge_matches_on_every_key(
    table: Seq<char>,
    columns: Seq<Seq<char>>,
    rows: Seq<Seq<Val>>,
    keys: Seq<Seq<char>>,
    holds: spec_fn(Seq<char>, Seq<char>) -> bool,
)
    requires
        batch(true, table, columns, rows, SyncMode::Upsert, keys) matches Ok(Some(_)),
        keys.len() > 0,
    ensures
        ({
            let st = batch(true, table, columns, rows, SyncMode::Upsert, keys)->Ok_0->Some_0;
            &&& merge_read(st.sql) is Some
            &&& reading::met(merge_read(st.sql)->Some_0.on, holds) <==> forall|k: int|
                0 <= k < keys.len() ==> holds(#[trigger] keys[k], keys[k])
        }),
{
    law_merge_says_what_was_asked(table, columns, rows.len(), keys);
    reading::lemma_conjunction_is_met(keys, 0, true, holds);
}

/// Law: row `i`, column `j` of a merge's source is the value of row `i` in column
/// `j`, under the column's name.
pub proof fn law_merge_source_holds_the_rows(
    table: Seq<char>,
    columns: Seq<Seq<char>>,
    rows: Seq<Seq<Val>>,
    keys: Seq<Seq<char>>,
    i: int,
    j: int,
)
    requires
        batch(true, table, columns, rows, SyncMode::Upsert, keys) matches Ok(Some(_)),
        keys.len() > 0,
        0 <= i < rows.len(),
        0 <= j < columns.len(),
    ensures
        ({
            let st = batch(true, table, columns, rows, SyncMode::Upsert, keys)->Ok_0->Some_0;
            &&& merge_read(st.sql) matches Some(m) && m.source.len() == rows.len() && m.source[i].len() == columns.len()
                && m.source[i][j].1 == columns[j] && st.params[m.source[i][j].0 - 1] == sql::bound(rows[i][j], false)
        }),
{
    law_merge_says_what_was_asked(table, columns, rows.len(), keys);
    sql::law_first_ragged_is_the_first(rows, columns.len());
    sql::law_parameters_are_row_major(rows, columns.len(), false, i, j);
    assert(i * columns.len() >= 0) by (nonlinear_arith)
        requires
            i >= 0,
    ;
}

// ---------------------------------------------------------------------------
// What an insert says
// ---------------------------------------------------------------------------

/// One row of an insert as the server reads it: the table, the columns and the
/// placeholders of their values.
#[verifier::ext_equal]
pub struct IntoV {
    pub table: Seq<char>,
    pub columns: Seq<Seq<char>>,
    pub marks: Seq<nat>,
}

/// One row of an insert, read.
pub open spec fn into_at(s: Seq<char>) -> Option<(IntoV, Seq<char>)> {
    match reading::after(s, " INTO "@) {
        None => None,
        Some(a) => match reading::name_at(a, '"') {
            None => None,
            Some((table, b)) => match reading::after(b, " ("@) {
                None => None,
                Some(c) => match reading::names_at(c, '"', ", "@) {
                    None => None,
                    Some((columns, d)) => match reading::after(d, ") VALUES ("@) {
                        None => None,
                        Some(e) => match reading::list_at(e, reading::mark_item(":"@), ","@) {
                            None => None,
                            Some((marks, f)) => match reading::after(f, ")"@) {
                                None => None,
                                Some(r) => Some((IntoV { table, columns, marks }, r)),
                            },
                        },
                    },
                },
            },
        },
    }
}

/// The rows of an insert, one after the other, and what stands behind them.
pub open spec fn intos_at(s: Seq<char>) -> (Seq<IntoV>, Seq<char>)
    decreases s.len(),
{
    match into_at(s) {
        None => (Seq::empty(), s),
        Some((x, r)) => if r.len() < s.len() {
            (seq![x] + intos_at(r).0, intos_at(r).1)
        } else {
            (seq![x], r)
        },
    }
}

/// An insert statement, read: its rows.
#[verifier::opaque]
pub open spec fn insert_all_read(s: Seq<char>) -> Option<Seq<IntoV>> {
    match reading::after(s, "INSERT ALL"@) {
        None => None,
        Some(a) => if intos_at(a).1 == " SELECT 1 FROM DUAL"@ {
            Some(intos_at(a).0)
        } else {
            None
        },
    }
}

proof fn lemma_into(table: Seq<char>, columns: Seq<Seq<char>>, from: int, rest: Seq<char>)
    requires
        from >= 0,
        columns.len() > 0,
    ensures
        into_at(into_clause(table, sql::quoted_all(columns, '"'), from) + rest) == Some(
            (IntoV { table, columns, marks: reading::counting(from, columns.len()) }, rest),
        ),
        into_clause(table, sql::quoted_all(columns, '"'), from).len() > 0,
{
    reveal_strlit(",");
    reveal_strlit(", ");
    reveal_strlit(" (");
    reveal_strlit(")");
    reveal_strlit(") VALUES (");
    let quoted = sql::quoted_all(columns, '"');
    let name = text::quoted(table, '"');
    let list = text::join(quoted, ", "@);
    let values = text::join(sql::numbered(":"@, from, quoted.len()), ","@);
    let f = ")"@ + rest;
    reading::lemma_after(")"@, rest);
    assert(f[0] == ')');
    reading::lemma_not_after(f, ","@);
    reading::lemma_marks_read_back(":"@, from, columns.len(), ","@, f);
    let e = values + f;
    let d = ") VALUES ("@ + e;
    reading::lemma_after(") VALUES ("@, e);
    assert(d[0] == ')');
    reading::lemma_not_after(d, ", "@);
    reading::lemma_names_read_back(columns, '"', ", "@, d);
    let b = " ("@ + (list + d);
    reading::lemma_after(" ("@, list + d);
    assert(b[0] == ' ');
    reading::law_quoted_name_reads_back(table, '"', b);
    reading::lemma_after(" INTO "@, name + b);
    let p1 = " INTO "@ + name;
    let p2 = p1 + " ("@;
    let p3 = p2 + list;
    let p4 = p3 + ") VALUES ("@;
    reading::lemma_regroup(p4 + values, ")"@, rest);
    reading::lemma_regroup(p4, values, f);
    reading::lemma_regroup(p3, ") VALUES ("@, e);
    reading::lemma_regroup(p2, list, d);
    reading::lemma_regroup(p1, " ("@, list + d);
    reading::lemma_regroup(" INTO "@, name, b);
}

proof fn lemma_intos(parts: Seq<Seq<char>>, xs: Seq<IntoV>, end: Seq<char>)
    requires
        parts.len() == xs.len(),
        into_at(end) is None,
        forall|i: int, r: Seq<char>|
            0 <= i < parts.len() ==> #[trigger] into_at(parts[i] + r) == Some((xs[i], r)) && parts[i].len() > 0,
    ensures
        intos_at(text::join(parts, ""@) + end) == (xs, end),
    decreases parts.len(),
{
    reveal_strlit("");
    let whole = text::join(parts, ""@) + end;
    if parts.len() == 0 {
        assert(whole =~= end);
        assert(xs =~= Seq::empty());
    } else {
        let tail = parts.skip(1);
        let rest = xs.skip(1);
        let more = text::join(tail, ""@) + end;
        assert forall|i: int, r: Seq<char>| 0 <= i < tail.len() implies #[trigger] into_at(tail[i] + r) == Some((rest[i], r))
            && tail[i].len() > 0 by {
            assert(into_at(parts[i + 1] + r) == Some((xs[i + 1], r)));
        }
        lemma_intos(tail, rest, end);
        assert(whole =~= parts[0] + more) by {
            if parts.len() == 1 {
                assert(text::join(tail, ""@).len() == 0);
                assert(text::join(parts, ""@) == parts[0]);
            } else {
                reading::lemma_join_front(parts, ""@);
            }
        }
        assert(into_at(parts[0] + more) == Some((xs[0], more)));
        assert(seq![xs[0]] + rest =~= xs);
    }
}

proof fn lemma_into_ends()
    ensures
        into_at(" SELECT 1 FROM DUAL"@) is None,
{
    reveal_strlit(" SELECT 1 FROM DUAL");
    reveal_strlit(" INTO ");
    let end = " SELECT 1 FROM DUAL"@;
    let t = " INTO "@;
    assert(end[1] == 'S' && t[1] == 'I');
    assert(end.take(t.len() as int)[1] == end[1]);
}

/// Law: without keys or outside upsert mode a batch inserts one row for each row,
/// into the table that was asked for, under the columns in their order, with the
/// placeholders of that row's values.
pub proof fn law_insert_says_what_was_asked(table: Seq<char>, columns: Seq<Seq<char>>, rows: nat)
    requires
        columns.len() > 0,
        rows > 0,
    ensures
        insert_all_read(insert_all_sql(table, columns, rows)) == Some(
            Seq::new(
                rows,
                |i: int| IntoV { table, columns, marks: reading::counting(i * columns.len(), columns.len()) },
            ),
        ),
{
    reveal(insert_all_read);
    let quoted = sql::quoted_all(columns, '"');
    let parts = Seq::new(rows, |i: int| into_clause(table, quoted, i * quoted.len()));
    let xs = Seq::new(
        rows,
        |i: int| IntoV { table, columns, marks: reading::counting(i * columns.len(), columns.len()) },
    );
    assert forall|i: int, r: Seq<char>| 0 <= i < parts.len() implies #[trigger] into_at(parts[i] + r) == Some((xs[i], r))
        && parts[i].len() > 0 by {
        assert(i * columns.len() >= 0) by (nonlinear_arith)
            requires
                i >= 0,
        ;
        lemma_into(table, columns, i * columns.len(), r);
    }
    lemma_into_ends();
    lemma_intos(parts, xs, " SELECT 1 FROM DUAL"@);
    let a = text::join(parts, ""@) + " SELECT 1 FROM DUAL"@;
    reading::lemma_regroup("INSERT ALL"@, text::join(parts, ""@), " SELECT 1 FROM DUAL"@);
    reading::lemma_after("INSERT ALL"@, a);
}

/// Law: where a batch inserts, the placeholder of row `i`, column `j` stands for
/// the value of row `i` in column `j`.
pub proof fn law_batch_inserts_its_rows(
    table: Seq<char>,
    columns: Seq<Seq<char>>,
    rows: Seq<Seq<Val>>,
    mode: SyncMode,
    keys: Seq<Seq<char>>,
    i: int,
    j: int,
)
    requires
        batch(true, table, columns, rows, mode, keys) matches Ok(Some(_)),
        mode != SyncMode::Upsert || keys.len() == 0,
        0 <= i < rows.len(),
        0 <= j < columns.len(),
    ensures
        ({
            let st = batch(true, table, columns, rows, mode, keys)->Ok_0->Some_0;
            &&& insert_all_read(st.sql) matches Some(v) && v.len() == rows.len() && v[i].table == table && v[i].columns
                == columns && v[i].marks.len() == columns.len() && st.params[v[i].marks[j] - 1] == sql::bound(
                rows[i][j],
                false,
            )
            &&& st.params.len() == rows.len() * columns.len()
        }),
{
    law_insert_says_what_was_asked(table, columns, rows.len());
    sql::law_first_ragged_is_the_first(rows, columns.len());
    sql::law_parameters_are_row_major(rows, columns.len(), false, i, j);
    assert(i * columns.len() >= 0) by (nonlinear_arith)
        requires
            i >= 0,
    ;
}

/// Law: a batch without rows needs no statement; otherwise it has one just where
/// there is a column, every row has a value for each column, and the datasource is
/// connected.
pub proof fn law_batch_has_a_statement(
    connected: bool,
    table: Seq<char>,
    columns: Seq<Seq<char>>,
    rows: Seq<Seq<Val>>,
    mode: SyncMode,
    keys: Seq<Seq<char>>,
)
    ensures
        batch(connected, table, columns, rows, mode, keys) == Ok::<Option<StatementV<BindV>>, DatasourceErrorV>(None)
            <==> rows.len() == 0,
        rows.len() > 0 ==> (batch(connected, table, columns, rows, mode, keys) is Ok <==> connected && columns.len() > 0
            && forall|k: int| 0 <= k < rows.len() ==> (#[trigger] rows[k]).len() == columns.len()),
{
    sql::law_first_ragged_is_the_first(rows, columns.len());
}

// ---------------------------------------------------------------------------
// What is read
// ---------------------------------------------------------------------------

/// Whether a reply is of the form that was asked for.
pub open spec fn fits(asked: OracleRead, reply: OracleReplyV) -> bool {
    match asked {
        OracleRead::Int64 => reply is Int,
        OracleRead::Float64 => reply is Float,
        OracleRead::DateTime => reply is Time,
        OracleRead::Stamp => reply is Text,
        OracleRead::Bytes => reply is Bytes,
        OracleRead::Bool => reply is Bool,
        OracleRead::Text => reply is Text,
    }
}

/// Law: a null is null. A reply of the form that was asked for of its column is
/// the value of that column: the number, bytes, boolean or text that came, and a
/// date for a moment that has a text. A whole number of up to eighteen digits is
/// read as one; any other number by its text, as is one that was asked for again
/// as a text.
pub proof fn law_replies_are_read_as_asked(kind: OracleKind, reply: OracleReplyV)
    ensures
        read(true, kind, reply) is Null,
        fits(asked(kind), reply) ==> (match reply {
            OracleReplyV::Int(i) => read(false, kind, reply) == Val::Int(i),
            OracleReplyV::Float(f) => read(false, kind, reply) == Val::Float(f),
            OracleReplyV::Bytes(b) => read(false, kind, reply) == Val::Bytes(b),
            OracleReplyV::Bool(b) => read(false, kind, reply) == Val::Bool(b),
            OracleReplyV::Text(s) => read(false, kind, reply).text() == Some(s),
            OracleReplyV::Time(t) => read(false, kind, reply) == sql::dated(t, sql::stamp_format()),
            OracleReplyV::Nothing => false,
        }),
        kind is Number ==> (reply matches OracleReplyV::Text(s) ==> read(false, kind, reply) == Val::Decimal(s)),
        asked(kind) is Int64 ==> (kind matches OracleKind::Number(p, s) && s == 0 && 1 <= p <= 18),
        fits(asked(kind), reply) && reply is Text ==> {
            &&& read(false, kind, reply) is Decimal <==> kind is Number
            &&& read(false, kind, reply) is Date <==> asked(kind) is Stamp
        },
        reply is Nothing ==> read(false, kind, reply) is Null,
{
}

/// Law: of each column that is described its name and type are kept, in the order
/// they came; a column may be null just where it is marked with `Y`, and is a key
/// just where it is listed as one.
pub proof fn law_columns_are_described_in_order(rows: Seq<OracleColumnRow>, keys: Seq<Seq<char>>, i: int)
    requires
        0 <= i < rows.len(),
        rows.len() <= usize::MAX,
    ensures
        described(rows, keys).len() == rows.len(),
        described(rows, keys)[i].name == rows[i].name@,
        described(rows, keys)[i].data_type == rows[i].data_type@,
        described(rows, keys)[i].ordinal == i,
        described(rows, keys)[i].nullable <==> rows[i].nullable@ == "Y"@,
        described(rows, keys)[i].is_primary <==> exists|k: int| 0 <= k < keys.len() && #[trigger] keys[k] == rows[i].name@,
{
}

/// What a page query has behind the query: the offset and the number of rows.
pub open spec fn page_at(s: Seq<char>) -> Option<(nat, nat)> {
    match reading::after(s, " OFFSET "@) {
        None => None,
        Some(a) => match reading::numeral_at(a) {
            None => None,
            Some((offset, b)) => match reading::after(b, " ROWS FETCH NEXT "@) {
                None => None,
                Some(c) => match reading::numeral_at(c) {
                    None => None,
                    Some((limit, d)) => if d == " ROWS ONLY"@ {
                        Some((offset, limit))
                    } else {
                        None
                    },
                },
            },
        },
    }
}

/// Law: a page query is the query with the offset and the number of rows that were
/// asked for.
pub proof fn law_page_limits_the_query(sql: Seq<char>, offset: u64, limit: u64)
    ensures
        text::starts_with(page(sql, offset, limit), sql::bare(sql)),
        page_at(page(sql, offset, limit).skip(sql::bare(sql).len() as int)) == Some((offset as nat, limit as nat)),
{
    reveal_strlit(" ROWS FETCH NEXT ");
    reveal_strlit(" ROWS ONLY");
    let q = sql::bare(sql);
    let m = text::dec(offset as nat);
    let n = text::dec(limit as nat);
    let d = " ROWS ONLY"@;
    let b = " ROWS FETCH NEXT "@ + (n + d);
    let t = " OFFSET "@ + (m + b);
    let p1 = q + " OFFSET "@;
    let p2 = p1 + m;
    reading::lemma_regroup(p2 + " ROWS FETCH NEXT "@, n, d);
    reading::lemma_regroup(p2, " ROWS FETCH NEXT "@, n + d);
    reading::lemma_regroup(p1, m, b);
    reading::lemma_regroup(q, " OFFSET "@, m + b);
    assert((q + t).take(q.len() as int) =~= q);
    assert((q + t).skip(q.len() as int) =~= t);
    reading::lemma_after(" OFFSET "@, m + b);
    assert(b[0] == ' ');
    reading::law_numeral_reads_back(offset as nat, b);
    reading::lemma_after(" ROWS FETCH NEXT "@, n + d);
    assert(d[0] == ' ');
    reading::law_numeral_reads_back(limit as nat, d);
}

/// Law: no row that was sent goes uncounted, and nothing but the two counts is
/// ever counted.
pub proof fn law_every_sent_row_counts(affected: u64, rows: usize)
    ensures
        counted(affected, rows) >= rows,
        counted(affected, rows) >= affected,
        counted(affected, rows) == rows || counted(affected, rows) == affected,
{
}

/// The host, the port and the database that a connect string names.
pub open spec fn target_at(s: Seq<char>) -> Option<(Seq<char>, nat, Seq<char>)> {
    match reading::after(s, "//"@) {
        None => None,
        Some(a) => match reading::numeral_at(a.skip(text::find(a, ':') + 1)) {
            None => None,
            Some((port, b)) => match reading::after(b, "/"@) {
                None => None,
                Some(database) => Some((a.take(text::find(a, ':')), port, database)),
            },
        },
    }
}

/// Law: the connect string names the host, the port and the database of the
/// connection.
pub proof fn law_connect_string_names_the_target(cfg: ConnectionConfig)
    requires
        !cfg.host@.contains(':'),
    ensures
        target_at(connect_target(cfg)) == Some((cfg.host@, cfg.port as nat, cfg.database@)),
{
    reveal_strlit(":");
    reveal_strlit("/");
    let (h, d) = (cfg.host@, cfg.database@);
    let p = text::dec(cfg.port as nat);
    let b = "/"@ + d;
    let a = h + (":"@ + (p + b));
    let q = "//"@ + h;
    reading::lemma_regroup(q + ":"@ + p, "/"@, d);
    reading::lemma_regroup(q + ":"@, p, b);
    reading::lemma_regroup(q, ":"@, p + b);
    reading::lemma_regroup("//"@, h, ":"@ + (p + b));
    reading::lemma_after("//"@, a);
    assert(a =~= h + seq![':'] + (p + b));
    text::law_find_is_the_first_place(h, ':', p + b);
    assert(a.take(h.len() as int) =~= h);
    assert(a.skip(h.len() + 1int) =~= p + b);
    assert(b[0] == '/');
    reading::law_numeral_reads_back(cfg.port as nat, b);
    reading::lemma_after("/"@, d);
}

} // verus!

//! The MySQL dialect: statements, connection options and value conversion.

use vstd::prelude::*;
use vstd::string::*;

use crate::error::{DatasourceError, DatasourceErrorV};
use crate::float::{Float, FloatV};
use crate::model::{
    copy_bytes, Column, ColumnV, ConnectionConfig, SyncMode, TableSchema, Val, Value,
};
use crate::reading;
use crate::sql;
use crate::sql::{
    find_ragged, frame, limited, pool_limit, prepared, quote_all, refuse_type, schema_of, wait_secs, width_words, without,
    Statement, StatementV,
};
use crate::strmap;
use crate::text;
use crate::text::{cat2, cat3, cat4, cat5, copy, dec_text, joined, padded_text, quote, same, to_lower};
use crate::views;

verus! {

/// A value as the MySQL protocol carries it.
#[derive(Debug)]
pub enum MysqlCell {
    Null,
    Bytes(Vec<u8>),
    Int(i64),
    UInt(u64),
    Double(Float),
    /// Year, month, day, hour, minute, second, microsecond.
    Date(u16, u8, u8, u8, u8, u8, u32),
    /// Sign, days, hours, minutes, seconds, microseconds.
    Time(bool, u32, u8, u8, u8, u32),
}

/// What a [`MysqlCell`] holds.
#[verifier::ext_equal]
pub enum MysqlCellV {
    Null,
    Bytes(Seq<u8>),
    Int(i64),
    UInt(u64),
    Double(FloatV),
    Date(u16, u8, u8, u8, u8, u8, u32),
    Time(bool, u32, u8, u8, u8, u32),
}

impl View for MysqlCell {
    type V = MysqlCellV;

    open spec fn view(&self) -> MysqlCellV {
        match self {
            MysqlCell::Null => MysqlCellV::Null,
            MysqlCell::Bytes(b) => MysqlCellV::Bytes(b@),
            MysqlCell::Int(i) => MysqlCellV::Int(*i),
            MysqlCell::UInt(u) => MysqlCellV::UInt(*u),
            MysqlCell::Double(f) => MysqlCellV::Double(f@),
            MysqlCell::Date(y, mo, d, h, mi, s, us) => MysqlCellV::Date(*y, *mo, *d, *h, *mi, *s, *us),
            MysqlCell::Time(n, d, h, mi, s, us) => MysqlCellV::Time(*n, *d, *h, *mi, *s, *us),
        }
    }
}

// ---------------------------------------------------------------------------
// Values
// ---------------------------------------------------------------------------

pub open spec fn two(n: int) -> Seq<char> {
    text::dec_padded(n as nat, 2)
}

pub open spec fn day_text(y: u16, mo: u8, d: u8) -> Seq<char> {
    text::dec_padded(y as nat, 4) + "-"@ + two(mo as int) + "-"@ + two(d as int)
}

pub open spec fn clock_text(h: int, mi: u8, s: u8) -> Seq<char> {
    two(h) + ":"@ + two(mi as int) + ":"@ + two(s as int)
}

/// A date, with the time of day unless it is midnight, and with microseconds
/// where there are any.
pub open spec fn date_text(y: u16, mo: u8, d: u8, h: u8, mi: u8, s: u8, us: u32) -> Seq<char> {
    if h == 0 && mi == 0 && s == 0 && us == 0 {
        day_text(y, mo, d)
    } else if us == 0 {
        day_text(y, mo, d) + " "@ + clock_text(h as int, mi, s)
    } else {
        day_text(y, mo, d) + " "@ + clock_text(h as int, mi, s) + "."@ + text::dec_padded(us as nat, 6)
    }
}

fn clock(h: u64, mi: u8, s: u8) -> (out: String)
    ensures
        out@ == clock_text(h as int, mi, s),
{
    let a = padded_text(h, 2);
    let b = padded_text(mi as u64, 2);
    let c = padded_text(s as u64, 2);
    cat5(a.as_str(), ":", b.as_str(), ":", c.as_str())
}

pub fn format_date(y: u16, mo: u8, d: u8, h: u8, mi: u8, s: u8, us: u32) -> (out: String)
    ensures
        out@ == date_text(y, mo, d, h, mi, s, us),
{
    let a = padded_text(y as u64, 4);
    let b = padded_text(mo as u64, 2);
    let c = padded_text(d as u64, 2);
    let day = cat5(a.as_str(), "-", b.as_str(), "-", c.as_str());
    if h == 0 && mi == 0 && s == 0 && us == 0 {
        day
    } else {
        let t = clock(h as u64, mi, s);
        if us == 0 {
            cat3(day.as_str(), " ", t.as_str())
        } else {
            let f = padded_text(us as u64, 6);
            cat5(day.as_str(), " ", t.as_str(), ".", f.as_str())
        }
    }
}

/// What a protocol value stands for.
pub open spec fn read(c: MysqlCellV) -> Val {
    match c {
        MysqlCellV::Null => Val::Null,
        MysqlCellV::Bytes(b) => Val::Bytes(b),
        MysqlCellV::Int(i) => Val::Int(i),
        MysqlCellV::UInt(u) => Val::UInt(u),
        MysqlCellV::Double(f) => Val::Float(f),
        MysqlCellV::Date(y, mo, d, h, mi, s, us) => Val::Date(date_text(y, mo, d, h, mi, s, us)),
        MysqlCellV::Time(_, d, h, mi, s, _) => Val::String(clock_text(d * 24 + h, mi, s)),
    }
}

pub fn value_from_mysql(c: MysqlCell) -> (out: Value)
    ensures
        out@ == read(c@),
{
    match c {
        MysqlCell::Null => Value::Null,
        MysqlCell::Bytes(b) => Value::Bytes(b),
        MysqlCell::Int(i) => Value::Int(i),
        MysqlCell::UInt(u) => Value::UInt(u),
        MysqlCell::Double(f) => Value::Float(f),
        MysqlCell::Date(y, mo, d, h, mi, s, us) => Value::Date(format_date(y, mo, d, h, mi, s, us)),
        MysqlCell::Time(_, d, h, mi, s, _) => Value::String(clock(d as u64 * 24 + h as u64, mi, s)),
    }
}

/// How a value is bound: text, decimals and dates as bytes, coerced by the
/// server to the column's type.
pub open spec fn written(v: Val) -> MysqlCellV {
    match v {
        Val::Null => MysqlCellV::Null,
        Val::Bool(b) => MysqlCellV::Int(if b {
            1
        } else {
            0
        }),
        Val::Int(i) => MysqlCellV::Int(i),
        Val::UInt(u) => MysqlCellV::UInt(u),
        Val::Float(f) => MysqlCellV::Double(f),
        Val::Decimal(s) => MysqlCellV::Bytes(vstd::utf8::encode_utf8(s)),
        Val::String(s) => MysqlCellV::Bytes(vstd::utf8::encode_utf8(s)),
        Val::Date(s) => MysqlCellV::Bytes(vstd::utf8::encode_utf8(s)),
        Val::Bytes(b) => MysqlCellV::Bytes(b),
    }
}

pub fn value_to_mysql(v: &Value) -> (out: MysqlCell)
    ensures
        out@ == written(v@),
{
    match v {
        Value::Null => MysqlCell::Null,
        Value::Bool(b) => MysqlCell::Int(
            if *b {
                1
            } else {
                0
            },
        ),
        Value::Int(i) => MysqlCell::Int(*i),
        Value::UInt(u) => MysqlCell::UInt(*u),
        Value::Float(f) => MysqlCell::Double(f.clone()),
        Value::Decimal(s) => MysqlCell::Bytes(s.as_str().as_bytes_vec()),
        Value::String(s) => MysqlCell::Bytes(s.as_str().as_bytes_vec()),
        Value::Date(s) => MysqlCell::Bytes(s.as_str().as_bytes_vec()),
        Value::Bytes(b) => MysqlCell::Bytes(copy_bytes(b)),
    }
}

/// Law: integers, doubles, nulls and bytes come back from the protocol as they
/// were bound.
pub proof fn law_plain_values_come_back(v: Val)
    requires
        v is Null || v is Int || v is UInt || v is Float || v is Bytes,
    ensures
        read(written(v)) == v,
{
}

// ---------------------------------------------------------------------------
// Connecting
// ---------------------------------------------------------------------------

/// What a connection pool is opened with.
#[derive(Debug)]
pub struct MysqlPlan {
    pub host: String,
    pub port: u16,
    pub database: String,
    pub username: String,
    pub password: String,
    pub connect_timeout_secs: u64,
    pub io_timeout_secs: u64,
    pub pool_min: usize,
    pub pool_max: usize,
    /// Statements run on every new connection.
    pub init: Vec<String>,
    pub tls: bool,
}

/// The server's name of a supported character set.
pub open spec fn charset_name(s: Seq<char>) -> Option<Seq<char>> {
    let c = text::lower(s);
    if c == "utf8"@ || c == "utf8mb4"@ {
        Some("utf8mb4"@)
    } else if c == "latin1"@ {
        Some("latin1"@)
    } else if c == "gbk"@ {
        Some("gbk"@)
    } else if c == "big5"@ {
        Some("big5"@)
    } else {
        None
    }
}

/// The SSL modes that ask for TLS.
pub open spec fn asks_tls(s: Seq<char>) -> bool {
    let m = text::lower(s);
    m == "require"@ || m == "required"@ || m == "verify_ca"@ || m == "verify_identity"@
}

/// The statements that a new connection starts with.
pub open spec fn greeting(charset: Option<Seq<char>>) -> Seq<Seq<char>> {
    match charset {
        Some(c) => seq!["SET NAMES "@ + charset_name(c)->Some_0],
        None => Seq::empty(),
    }
}

pub open spec fn refusal(conn_type: Seq<char>, charset: Option<Seq<char>>) -> Option<DatasourceErrorV> {
    if conn_type != "mysql"@ {
        Some(sql::wrong_type("mysql"@, conn_type))
    } else {
        match charset {
            Some(c) => if charset_name(c) is None {
                Some(DatasourceErrorV::InvalidArgument("unsupported mysql charset '"@ + text::lower(c) + "'"@))
            } else {
                None
            },
            None => None,
        }
    }
}

fn find_charset(s: &str) -> (out: Option<&'static str>)
    ensures
        views::opt(out) == charset_name(s@),
{
    let c = to_lower(s);
    if same(c.as_str(), "utf8") || same(c.as_str(), "utf8mb4") {
        Some("utf8mb4")
    } else if same(c.as_str(), "latin1") {
        Some("latin1")
    } else if same(c.as_str(), "gbk") {
        Some("gbk")
    } else if same(c.as_str(), "big5") {
        Some("big5")
    } else {
        None
    }
}

// ---------------------------------------------------------------------------
// Statements
// ---------------------------------------------------------------------------

/// One parenthesised list of `n` question marks.
pub open spec fn marks(n: nat) -> Seq<char> {
    "("@ + text::join(Seq::new(n, |j: int| "?"@), ","@) + ")"@
}

pub open spec fn insert_head(table: Seq<char>, columns: Seq<Seq<char>>) -> Seq<char> {
    "INSERT INTO "@ + text::quoted(table, '`') + " ("@ + text::join(sql::quoted_all(columns, '`'), ", "@)
        + ") VALUES "@
}

/// In upsert mode the columns outside the key take the inserted values.
pub open spec fn upsert_tail(columns: Seq<Seq<char>>, mode: SyncMode, keys: Seq<Seq<char>>) -> Seq<char> {
    let rest = sql::others(columns, keys);
    if mode == SyncMode::Upsert && rest.len() > 0 {
        " ON DUPLICATE KEY UPDATE "@ + text::join(sql::framed(rest, '`', ""@, " = VALUES("@, ")"@), ", "@)
    } else {
        ""@
    }
}

pub open spec fn insert_sql(table: Seq<char>, columns: Seq<Seq<char>>, rows: nat, mode: SyncMode, keys: Seq<Seq<char>>) -> Seq<
    char,
> {
    insert_head(table, columns) + text::join(Seq::new(rows, |i: int| marks(columns.len())), ","@) + upsert_tail(
        columns,
        mode,
        keys,
    )
}

/// The statement of a batch: none for no rows; an error for no columns, for a
/// row of the wrong width and for a datasource that is not connected, in this
/// order.
pub open spec fn batch(
    connected: bool,
    table: Seq<char>,
    columns: Seq<Seq<char>>,
    rows: Seq<Seq<Val>>,
    mode: SyncMode,
    keys: Seq<Seq<char>>,
) -> Result<Option<StatementV<MysqlCellV>>, DatasourceErrorV> {
    let bad = sql::first_ragged(rows, columns.len());
    if rows.len() == 0 {
        Ok(None)
    } else if columns.len() == 0 {
        Err(DatasourceErrorV::InvalidArgument("batch_insert requires at least one column"@))
    } else if bad < rows.len() {
        Err(
            DatasourceErrorV::InvalidArgument(
                "row "@ + text::dec(bad as nat) + " "@ + sql::width_fault(rows[bad].len(), columns.len()),
            ),
        )
    } else if !connected {
        Err(DatasourceErrorV::Connection("mysql datasource not connected"@))
    } else {
        Ok(
            Some(
                StatementV {
                    sql: insert_sql(table, columns, rows.len(), mode, keys),
                    params: sql::flat(rows).map_values(|v: Val| written(v)),
                },
            ),
        )
    }
}

/// A column as `information_schema.COLUMNS` describes it.
#[derive(Debug)]
pub struct MysqlColumnRow {
    pub name: Option<String>,
    pub data_type: Option<String>,
    pub nullable: Option<String>,
    pub key: Option<String>,
    pub ordinal: Option<usize>,
}

pub open spec fn or_empty(s: Option<Seq<char>>) -> Seq<char> {
    match s {
        Some(t) => t,
        None => ""@,
    }
}

impl View for MysqlColumnRow {
    type V = ColumnV;

    /// The column that the row describes.
    open spec fn view(&self) -> ColumnV {
        ColumnV {
            name: or_empty(views::opt(self.name)),
            data_type: or_empty(views::opt(self.data_type)),
            nullable: or_empty(views::opt(self.nullable)) == "YES"@,
            is_primary: or_empty(views::opt(self.key)) == "PRI"@,
            ordinal: match self.ordinal {
                Some(n) => n,
                None => 0,
            },
        }
    }
}

fn text_or_empty(s: &Option<String>) -> (out: String)
    ensures
        out@ == or_empty(views::opt(*s)),
{
    match s {
        Some(t) => t.clone(),
        None => copy(""),
    }
}

fn marks_of(n: usize) -> (out: String)
    ensures
        out@ == marks(n as nat),
{
    let ghost want = Seq::new(n as nat, |j: int| "?"@);
    let mut list: Vec<String> = Vec::new();
    let mut j: usize = 0;
    while j < n
        invariant
            j <= n,
            want == Seq::new(n as nat, |j: int| "?"@),
            text::views(list@) == want.take(j as int),
        decreases n - j,
    {
        let m = copy("?");
        proof {
            views::lemma_list_push(list@, m);
        }
        list.push(m);
        assert(want.take(j + 1) =~= want.take(j as int).push(want[j as int]));
        j += 1;
    }
    assert(want.take(j as int) =~= want);
    let inner = joined(&list, ",");
    cat3("(", inner.as_str(), ")")
}

fn tuples_of(rows: usize, n: usize) -> (out: String)
    ensures
        out@ == text::join(Seq::new(rows as nat, |i: int| marks(n as nat)), ","@),
{
    let ghost want = Seq::new(rows as nat, |i: int| marks(n as nat));
    let one = marks_of(n);
    let mut list: Vec<String> = Vec::new();
    let mut i: usize = 0;
    while i < rows
        invariant
            i <= rows,
            one@ == marks(n as nat),
            want == Seq::new(rows as nat, |i: int| marks(n as nat)),
            text::views(list@) == want.take(i as int),
        decreases rows - i,
    {
        let m = one.clone();
        proof {
            views::lemma_list_push(list@, m);
        }
        list.push(m);
        assert(want.take(i + 1) =~= want.take(i as int).push(want[i as int]));
        i += 1;
    }
    assert(want.take(i as int) =~= want);
    joined(&list, ",")
}

pub open spec fn cells(rows: Seq<Seq<Val>>) -> Seq<MysqlCellV> {
    sql::flat(rows).map_values(|v: Val| written(v))
}

fn cells_of(rows: &Vec<Vec<Value>>) -> (out: Vec<MysqlCell>)
    ensures
        views::list(out@) == cells(views::lists(rows@)),
{
    let ghost all = views::lists(rows@);
    let mut out: Vec<MysqlCell> = Vec::new();
    let mut i: usize = 0;
    assert(views::list(out@) =~= cells(all.take(0)));
    while i < rows.len()
        invariant
            i <= rows.len(),
            all == views::lists(rows@),
            views::list(out@) == cells(all.take(i as int)),
        decreases rows.len() - i,
    {
        let ghost row = all[i as int];
        let ghost base = cells(all.take(i as int));
        let ghost add = row.map_values(|v: Val| written(v));
        let mut j: usize = 0;
        assert(base + add.take(0) =~= base);
        while j < rows[i].len()
            invariant
                i < rows.len(),
                j <= rows@[i as int].len(),
                row == views::list(rows@[i as int]@),
                add == row.map_values(|v: Val| written(v)),
                views::list(out@) == base + add.take(j as int),
            decreases rows@[i as int].len() - j,
        {
            let c = value_to_mysql(&rows[i][j]);
            proof {
                views::lemma_list_push(out@, c);
            }
            out.push(c);
            assert(base + add.take(j + 1) =~= (base + add.take(j as int)).push(add[j as int]));
            j += 1;
        }
        assert(all.take(i + 1).drop_last() =~= all.take(i as int));
        assert(all.take(i + 1).last() == row);
        assert(cells(all.take(i + 1)) =~= base + add.take(j as int));
        i += 1;
    }
    assert(all.take(i as int) =~= all);
    out
}

/// A MySQL datasource: the connection it was opened with, if it is open.
#[derive(Debug)]
pub struct MysqlDatasource {
    pub cfg: Option<ConnectionConfig>,
}

impl Default for MysqlDatasource {
    fn default() -> (out: MysqlDatasource)
        ensures
            out.cfg is None,
    {
        MysqlDatasource { cfg: None }
    }
}

impl MysqlDatasource {
    pub fn name(&self) -> (out: &'static str)
        ensures
            out@ == "mysql"@,
    {
        "mysql"
    }

    /// The check that precedes every use of the connection.
    pub fn pool(&self) -> (out: Result<&ConnectionConfig, DatasourceError>)
        ensures
            match out {
                Ok(c) => self.cfg == Some(*c),
                Err(e) => self.cfg is None && e@ == DatasourceErrorV::Connection("mysql datasource not connected"@),
            },
    {
        match &self.cfg {
            Some(c) => Ok(c),
            None => Err(DatasourceError::Connection(copy("mysql datasource not connected"))),
        }
    }

    pub fn quote_ident(&self, name: &str) -> (out: String)
        ensures
            out@ == text::quoted(name@, '`'),
    {
        quote(name, '`')
    }

    /// What the pool is opened with, or why the connection is refused.
    pub fn connect(cfg: &ConnectionConfig) -> (out: Result<MysqlPlan, DatasourceError>)
        ensures
            match out {
                Ok(p) => {
                    &&& refusal(cfg.conn_type@, strmap::at(cfg.params@, "charset"@)) is None
                    &&& p.host@ == cfg.host@
                    &&& p.port == cfg.port
                    &&& p.database@ == cfg.database@
                    &&& p.username@ == cfg.username@
                    &&& p.password@ == cfg.password@
                    &&& p.connect_timeout_secs == sql::at_least_one(cfg.connect_timeout_secs as int)
                    &&& p.io_timeout_secs == 600
                    &&& p.pool_min == 0
                    &&& p.pool_max == sql::at_least_one(cfg.max_pool_size as int)
                    &&& text::views(p.init@) == greeting(strmap::at(cfg.params@, "charset"@))
                    &&& p.tls == (strmap::at(cfg.params@, "ssl_mode"@) matches Some(m) && asks_tls(m))
                },
                Err(e) => refusal(cfg.conn_type@, strmap::at(cfg.params@, "charset"@)) == Some(e@),
            },
    {
        if !same(cfg.conn_type.as_str(), "mysql") {
            return Err(refuse_type("mysql", cfg.conn_type.as_str()));
        }
        let mut init: Vec<String> = Vec::new();
        if let Some(charset) = cfg.param("charset") {
            match find_charset(charset) {
                Some(name) => {
                    init.push(cat2("SET NAMES ", name));
                    assert(text::views(init@) =~= greeting(Some(charset@)));
                },
                None => {
                    let c = to_lower(charset);
                    return Err(DatasourceError::InvalidArgument(cat3("unsupported mysql charset '", c.as_str(), "'")));
                },
            }
        } else {
            assert(text::views(init@) =~= greeting(None));
        }
        let tls = match cfg.param("ssl_mode") {
            Some(m) => {
                let m = to_lower(m);
                same(m.as_str(), "require") || same(m.as_str(), "required") || same(m.as_str(), "verify_ca") || same(
                    m.as_str(),
                    "verify_identity",
                )
            },
            None => false,
        };
        Ok(
            MysqlPlan {
                host: cfg.host.clone(),
                port: cfg.port,
                database: cfg.database.clone(),
                username: cfg.username.clone(),
                password: cfg.password.clone(),
                connect_timeout_secs: wait_secs(cfg),
                io_timeout_secs: 600,
                pool_min: 0,
                pool_max: pool_limit(cfg) as usize,
                init,
                tls,
            },
        )
    }

    /// The statement that lists a table's columns; it binds the table's name.
    pub fn schema_sql(&self) -> (out: &'static str)
        ensures
            out@ == "SELECT COLUMN_NAME, COLUMN_TYPE, IS_NULLABLE, COLUMN_KEY, ORDINAL_POSITION FROM information_schema.COLUMNS WHERE TABLE_SCHEMA = DATABASE() AND TABLE_NAME = ? ORDER BY ORDINAL_POSITION"@,
    {
        "SELECT COLUMN_NAME, COLUMN_TYPE, IS_NULLABLE, COLUMN_KEY, ORDINAL_POSITION FROM information_schema.COLUMNS WHERE TABLE_SCHEMA = DATABASE() AND TABLE_NAME = ? ORDER BY ORDINAL_POSITION"
    }

    /// The structure of a table from what the server lists.
    pub fn get_schema(&self, table: &str, rows: &Vec<MysqlColumnRow>) -> (out: Result<TableSchema, DatasourceError>)
        ensures
            views::res(out) == sql::structure(table@, views::list(rows@), "database"@),
    {
        let ghost want = views::list(rows@);
        let mut columns: Vec<Column> = Vec::new();
        let mut i: usize = 0;
        while i < rows.len()
            invariant
                i <= rows.len(),
                want == views::list(rows@),
                views::list(columns@) == want.take(i as int),
            decreases rows.len() - i,
        {
            let nullable = text_or_empty(&rows[i].nullable);
            let key = text_or_empty(&rows[i].key);
            let c = Column {
                name: text_or_empty(&rows[i].name),
                data_type: text_or_empty(&rows[i].data_type),
                nullable: same(nullable.as_str(), "YES"),
                is_primary: same(key.as_str(), "PRI"),
                ordinal: match rows[i].ordinal {
                    Some(n) => n,
                    None => 0,
                },
            };
            proof {
                views::lemma_list_push(columns@, c);
                assert(c@ == want[i as int]);
            }
            columns.push(c);
            assert(want.take(i + 1) =~= want.take(i as int).push(want[i as int]));
            i += 1;
        }
        assert(want.take(i as int) =~= want);
        schema_of(table, columns, "database")
    }

    /// The statement of one page.
    pub fn query_page(&self, sql: &str, offset: u64, limit: u64) -> (out: String)
        ensures
            out@ == sql::limit_page(sql@, offset, limit),
    {
        limited(sql, offset, limit)
    }

    /// The statement and values of a batch.
    pub fn batch_insert(
        &self,
        table: &str,
        columns: &Vec<String>,
        rows: &Vec<Vec<Value>>,
        mode: SyncMode,
        pk_columns: &Vec<String>,
    ) -> (out: Result<Option<Statement<MysqlCell>>, DatasourceError>)
        ensures
            prepared(out) == batch(
                self.cfg is Some,
                table@,
                text::views(columns@),
                views::lists(rows@),
                mode,
                text::views(pk_columns@),
            ),
    {
        let ghost names = text::views(columns@);
        let ghost keys = text::views(pk_columns@);
        let ghost all = views::lists(rows@);
        if rows.len() == 0 {
            return Ok(None);
        }
        if columns.len() == 0 {
            return Err(DatasourceError::InvalidArgument(copy("batch_insert requires at least one column")));
        }
        let bad = find_ragged(rows, columns.len());
        if bad < rows.len() {
            let i = dec_text(bad as u64);
            let w = width_words(rows[bad].len(), columns.len());
            return Err(DatasourceError::InvalidArgument(cat4("row ", i.as_str(), " ", w.as_str())));
        }
        let quoted = quote_all(columns, '`');
        let list = joined(&quoted, ", ");
        let name = self.quote_ident(table);
        let head = cat5("INSERT INTO ", name.as_str(), " (", list.as_str(), ") VALUES ");
        let tuples = tuples_of(rows.len(), columns.len());
        let rest = without(columns, pk_columns);
        let tail = if mode == SyncMode::Upsert && rest.len() > 0 {
            let updates = frame(&rest, '`', "", " = VALUES(", ")");
            let u = joined(&updates, ", ");
            cat2(" ON DUPLICATE KEY UPDATE ", u.as_str())
        } else {
            copy("")
        };
        assert(tail@ == upsert_tail(names, mode, keys));
        let sql = cat3(head.as_str(), tuples.as_str(), tail.as_str());
        assert(sql@ == insert_sql(table@, names, all.len(), mode, keys));
        match self.pool() {
            Ok(_) => Ok(Some(Statement { sql, params: cells_of(rows) })),
            Err(e) => Err(e),
        }
    }

    /// The statement that empties a table.
    pub fn truncate(&self, table: &str) -> (out: String)
        ensures
            out@ == "TRUNCATE TABLE "@ + text::quoted(table@, '`'),
    {
        let t = self.quote_ident(table);
        cat2("TRUNCATE TABLE ", t.as_str())
    }

    /// The statement of the liveness check.
    pub fn ping(&self) -> (out: &'static str)
        ensures
            out@ == "SELECT 1"@,
    {
        "SELECT 1"
    }
}

// ---------------------------------------------------------------------------
// What a batch says
// ---------------------------------------------------------------------------

/// An insert as the server reads it: the table, the columns, the number of
/// placeholders of each tuple, and the columns that a duplicate updates, each with
/// the inserted column it is set to.
#[verifier::ext_equal]
pub struct InsertV {
    pub table: Seq<char>,
    pub columns: Seq<Seq<char>>,
    pub tuples: Seq<nat>,
    pub updates: Seq<(Seq<char>, Seq<char>)>,
}

/// A placeholder.
pub open spec fn mark_item() -> reading::ItemAt<()> {
    |s: Seq<char>| match reading::after(s, "?"@) {
        None => None,
        Some(r) => Some(((), r)),
    }
}

/// The number of placeholders in brackets.
pub open spec fn tuple_item() -> reading::ItemAt<nat> {
    |s: Seq<char>| match reading::in_brackets(s, |a: Seq<char>| reading::list_at(a, mark_item(), ","@)) {
        None => None,
        Some((v, r)) => Some((v.len(), r)),
    }
}

/// What stands behind the tuples: nothing, or what a duplicate updates.
pub open spec fn updates_at(s: Seq<char>) -> Option<Seq<(Seq<char>, Seq<char>)>> {
    if s.len() == 0 {
        Some(Seq::empty())
    } else {
        match reading::after(s, " ON DUPLICATE KEY UPDATE "@) {
            None => None,
            Some(r) => match reading::list_at(r, reading::pair_item('`', ""@, " = VALUES("@, ")"@), ", "@) {
                Some((v, end)) => if end.len() == 0 {
                    Some(v)
                } else {
                    None
                },
                None => None,
            },
        }
    }
}

/// An insert statement, read.
#[verifier::opaque]
pub open spec fn insert_read(s: Seq<char>) -> Option<InsertV> {
    match reading::after(s, "INSERT INTO "@) {
        None => None,
        Some(a) => match reading::name_at(a, '`') {
            None => None,
            Some((table, b)) => match reading::after(b, " ("@) {
                None => None,
                Some(c) => match reading::names_at(c, '`', ", "@) {
                    None => None,
                    Some((columns, d)) => match reading::after(d, ") VALUES "@) {
                        None => None,
                        Some(e) => match reading::list_at(e, tuple_item(), ","@) {
                            None => None,
                            Some((tuples, f)) => match updates_at(f) {
                                None => None,
                                Some(updates) => Some(InsertV { table, columns, tuples, updates }),
                            },
                        },
                    },
                },
            },
        },
    }
}

proof fn lemma_marks(n: nat, rest: Seq<char>)
    requires
        n > 0,
    ensures
        tuple_item()(marks(n) + rest) == Some((n, rest)),
{
    reveal_strlit(",");
    reveal_strlit(")");
    reveal_strlit("?");
    let parts = Seq::new(n, |j: int| "?"@);
    let xs = Seq::new(n, |j: int| ());
    let ok = |r: Seq<char>| true;
    assert forall|i: int, r: Seq<char>| 0 <= i < parts.len() && ok(r) implies #[trigger] mark_item()(parts[i] + r) == Some(
        (xs[i], r),
    ) by {
        reading::lemma_after("?"@, r);
    }
    let tail = ")"@ + rest;
    assert(tail[0] == ')');
    reading::lemma_not_after(tail, ","@);
    reading::lemma_list_reads_back(parts, xs, mark_item(), ","@, ok, tail);
    let inner = |a: Seq<char>| reading::list_at(a, mark_item(), ","@);
    reading::lemma_in_brackets(text::join(parts, ","@), xs, inner, rest);
}

proof fn lemma_tail_reads(columns: Seq<Seq<char>>, mode: SyncMode, keys: Seq<Seq<char>>)
    ensures
        updates_at(upsert_tail(columns, mode, keys)) == Some(
            if mode == SyncMode::Upsert {
                reading::with_itself(sql::others(columns, keys))
            } else {
                Seq::empty()
            },
        ),
        reading::after(upsert_tail(columns, mode, keys), ","@) is None,
{
    reveal_strlit("");
    reveal_strlit(",");
    reveal_strlit(", ");
    reveal_strlit(" = VALUES(");
    reveal_strlit(")");
    reveal_strlit(" ON DUPLICATE KEY UPDATE ");
    let rest = sql::others(columns, keys);
    let tail = upsert_tail(columns, mode, keys);
    assert(reading::with_itself(Seq::<Seq<char>>::empty()) =~= Seq::empty());
    if mode == SyncMode::Upsert && rest.len() > 0 {
        let list = text::join(sql::framed(rest, '`', ""@, " = VALUES("@, ")"@), ", "@);
        let none = Seq::<char>::empty();
        reading::lemma_not_after(none, ", "@);
        reading::lemma_pairs_read_back(rest, '`', ""@, " = VALUES("@, ")"@, ", "@, none);
        assert(list + none =~= list);
        reading::lemma_after(" ON DUPLICATE KEY UPDATE "@, list);
        assert(tail[0] == ' ');
    } else {
        assert(rest.len() == 0 ==> rest =~= Seq::empty());
        assert(tail.len() == 0);
    }
    reading::lemma_not_after(tail, ","@);
}

proof fn lemma_tuples(n: nat, rows: nat, tail: Seq<char>)
    requires
        n > 0,
        rows > 0,
        reading::after(tail, ","@) is None,
    ensures
        reading::list_at(text::join(Seq::new(rows, |i: int| marks(n)), ","@) + tail, tuple_item(), ","@) == Some(
            (Seq::new(rows, |i: int| n), tail),
        ),
{
    reveal_strlit(",");
    let parts = Seq::new(rows, |i: int| marks(n));
    let xs = Seq::new(rows, |i: int| n);
    let ok = |r: Seq<char>| true;
    assert forall|i: int, r: Seq<char>| 0 <= i < parts.len() && ok(r) implies #[trigger] tuple_item()(parts[i] + r) == Some(
        (xs[i], r),
    ) by {
        lemma_marks(n, r);
    }
    reading::lemma_list_reads_back(parts, xs, tuple_item(), ","@, ok, tail);
}

proof fn lemma_head_reads(table: Seq<char>, columns: Seq<Seq<char>>, e: Seq<char>)
    requires
        columns.len() > 0,
    ensures
        ({
            let d = ") VALUES "@ + e;
            let list = text::join(sql::quoted_all(columns, '`'), ", "@);
            let b = " ("@ + (list + d);
            let a = text::quoted(table, '`') + b;
            &&& reading::after("INSERT INTO "@ + a, "INSERT INTO "@) == Some(a)
            &&& reading::name_at(a, '`') == Some((table, b))
            &&& reading::after(b, " ("@) == Some(list + d)
            &&& reading::names_at(list + d, '`', ", "@) == Some((columns, d))
            &&& reading::after(d, ") VALUES "@) == Some(e)
        }),
{
    reveal_strlit(", ");
    reveal_strlit(" (");
    reveal_strlit(") VALUES ");
    let d = ") VALUES "@ + e;
    reading::lemma_after(") VALUES "@, e);
    assert(d[0] == ')');
    reading::lemma_not_after(d, ", "@);
    let list = text::join(sql::quoted_all(columns, '`'), ", "@);
    reading::lemma_names_read_back(columns, '`', ", "@, d);
    let b = " ("@ + (list + d);
    reading::lemma_after(" ("@, list + d);
    assert(b[0] == ' ');
    reading::law_quoted_name_reads_back(table, '`', b);
    reading::lemma_after("INSERT INTO "@, text::quoted(table, '`') + b);
}

/// Law: a batch inserts into the table that was asked for, under the columns in
/// their order, one tuple for each row with one placeholder for each column. In
/// upsert mode a duplicate sets just the columns that are no keys, each to the
/// value that was to be inserted in it; in other modes it sets nothing.
pub proof fn law_insert_says_what_was_asked(
    table: Seq<char>,
    columns: Seq<Seq<char>>,
    rows: nat,
    mode: SyncMode,
    keys: Seq<Seq<char>>,
)
    requires
        columns.len() > 0,
        rows > 0,
    ensures
        insert_read(insert_sql(table, columns, rows, mode, keys)) == Some(
            InsertV {
                table,
                columns,
                tuples: Seq::new(rows, |i: int| columns.len()),
                updates: if mode == SyncMode::Upsert {
                    reading::with_itself(columns.filter(|c: Seq<char>| !keys.contains(c)))
                } else {
                    Seq::empty()
                },
            },
        ),
{
    reveal(insert_read);
    sql::law_others_are_those_not_taken(columns, keys);
    let tail = upsert_tail(columns, mode, keys);
    lemma_tail_reads(columns, mode, keys);
    lemma_tuples(columns.len(), rows, tail);
    let values = text::join(Seq::new(rows, |i: int| marks(columns.len())), ","@);
    let e = values + tail;
    let list = text::join(sql::quoted_all(columns, '`'), ", "@);
    let d = ") VALUES "@ + e;
    let b = " ("@ + (list + d);
    lemma_head_reads(table, columns, e);
    let name = text::quoted(table, '`');
    reading::lemma_regroup(insert_head(table, columns), values, tail);
    reading::lemma_regroup("INSERT INTO "@ + name + " ("@ + list, ") VALUES "@, e);
    reading::lemma_regroup("INSERT INTO "@ + name + " ("@, list, d);
    reading::lemma_regroup("INSERT INTO "@ + name, " ("@, list + d);
    reading::lemma_regroup("INSERT INTO "@, name, b);
}

/// Law: the statement of a batch is the insert that was asked for, and its
/// parameters are the values of the rows, row by row, one for each placeholder.
pub proof fn law_batch_inserts_its_rows(
    table: Seq<char>,
    columns: Seq<Seq<char>>,
    rows: Seq<Seq<Val>>,
    mode: SyncMode,
    keys: Seq<Seq<char>>,
    i: int,
    j: int,
)
    requires
        batch(true, table, columns, rows, mode, keys) matches Ok(Some(_)),
        0 <= i < rows.len(),
        0 <= j < columns.len(),
    ensures
        ({
            let st = batch(true, table, columns, rows, mode, keys)->Ok_0->Some_0;
            &&& insert_read(st.sql) matches Some(x) && x.table == table && x.columns == columns && x.tuples.len() == rows.len()
                && x.tuples[i] == columns.len() && x.updates == (if mode == SyncMode::Upsert {
                reading::with_itself(columns.filter(|c: Seq<char>| !keys.contains(c)))
            } else {
                Seq::empty()
            })
            &&& rows[i].len() == columns.len()
            &&& st.params.len() == rows.len() * columns.len()
            &&& st.params[i * columns.len() + j] == written(rows[i][j])
        }),
{
    sql::law_first_ragged_is_the_first(rows, columns.len());
    law_insert_says_what_was_asked(table, columns, rows.len(), mode, keys);
    sql::law_batch_is_row_major(rows, columns.len(), i, j);
}

/// Law: a batch without rows needs no statement; otherwise it has one just where
/// there is a column, every row has a value for each column, and the datasource is
/// connected.
pub proof fn law_batch_has_a_statement(
    connected: bool,
    table: Seq<char>,
    columns: Seq<Seq<char>>,
    rows: Seq<Seq<Val>>,
    mode: SyncMode,
    keys: Seq<Seq<char>>,
)
    ensures
        batch(connected, table, columns, rows, mode, keys) == Ok::<Option<StatementV<MysqlCellV>>, DatasourceErrorV>(None)
            <==> rows.len() == 0,
        rows.len() > 0 ==> (batch(connected, table, columns, rows, mode, keys) is Ok <==> connected && columns.len() > 0
            && forall|k: int| 0 <= k < rows.len() ==> (#[trigger] rows[k]).len() == columns.len()),
{
    sql::law_first_ragged_is_the_first(rows, columns.len());
}

/// Law: a value is written as itself: null as null, a boolean as 0 or 1, a whole
/// number by its number, a text, decimal or date by the bytes of its text.
pub proof fn law_written_values_are_the_values(v: Val)
    ensures
        written(v) is Null <==> v is Null,
        v matches Val::Bool(b) ==> (written(v) matches MysqlCellV::Int(i) && (i == 1 <==> b) && (i == 0 <==> !b)),
        v matches Val::Int(i) ==> written(v) == MysqlCellV::Int(i),
        v matches Val::UInt(u) ==> written(v) == MysqlCellV::UInt(u),
        v matches Val::Float(f) ==> written(v) == MysqlCellV::Double(f),
        v.text() matches Some(s) ==> written(v) == MysqlCellV::Bytes(vstd::utf8::encode_utf8(s)),
        v matches Val::Bytes(b) ==> written(v) == MysqlCellV::Bytes(b),
{
}

// ---------------------------------------------------------------------------
// What is read
// ---------------------------------------------------------------------------

/// Three numerals with marks between them, and what follows.
#[verifier::opaque]
pub open spec fn triple_at(s: Seq<char>, mark: Seq<char>) -> Option<(nat, nat, nat, Seq<char>)> {
    match reading::numeral_at(s) {
        None => None,
        Some((x, a)) => match reading::after(a, mark) {
            None => None,
            Some(b) => match reading::numeral_at(b) {
                None => None,
                Some((y, c)) => match reading::after(c, mark) {
                    None => None,
                    Some(d) => match reading::numeral_at(d) {
                        None => None,
                        Some((z, r)) => Some((x, y, z, r)),
                    },
                },
            },
        },
    }
}

proof fn lemma_triple(x: nat, w: nat, y: nat, z: nat, mark: Seq<char>, rest: Seq<char>)
    requires
        mark.len() > 0,
        reading::no_digit(mark),
        reading::no_digit(rest),
    ensures
        triple_at(
            text::dec_padded(x, w) + mark + text::dec_padded(y, 2) + mark + text::dec_padded(z, 2) + rest,
            mark,
        ) == Some((x, y, z, rest)),
{
    reveal(triple_at);
    reading::law_padding_keeps_the_number(x, w);
    reading::law_padding_keeps_the_number(y, 2);
    reading::law_padding_keeps_the_number(z, 2);
    let (a, b, c) = (text::dec_padded(x, w), text::dec_padded(y, 2), text::dec_padded(z, 2));
    let e = c + rest;
    let d = mark + e;
    let f = mark + (b + d);
    reading::lemma_regroup(a + mark + b + mark, c, rest);
    reading::lemma_regroup(a + mark + b, mark, e);
    reading::lemma_regroup(a + mark, b, d);
    reading::lemma_regroup(a, mark, b + d);
    assert(f[0] == mark[0] && d[0] == mark[0]);
    reading::lemma_digits_read(a, f);
    reading::lemma_after(mark, b + d);
    reading::lemma_digits_read(b, d);
    reading::lemma_after(mark, e);
    reading::lemma_digits_read(c, rest);
}

/// The time of day that stands behind a day: nothing, or hours, minutes, seconds
/// and, behind a point, microseconds.
pub open spec fn time_at(s: Seq<char>) -> Option<(nat, nat, nat, nat)> {
    if s.len() == 0 {
        Some((0, 0, 0, 0))
    } else {
        match reading::after(s, " "@) {
            None => None,
            Some(a) => match triple_at(a, ":"@) {
                None => None,
                Some((h, mi, sec, b)) => if b.len() == 0 {
                    Some((h, mi, sec, 0))
                } else {
                    match reading::after(b, "."@) {
                        None => None,
                        Some(c) => match reading::numeral_at(c) {
                            Some((us, d)) => if d.len() == 0 && c.len() == 6 {
                                Some((h, mi, sec, us))
                            } else {
                                None
                            },
                            None => None,
                        },
                    }
                },
            },
        }
    }
}

/// Law: a date reads back from its text: year, month and day, then the time of day
/// (midnight where none stands there), with the microseconds as a fraction of six
/// digits.
pub proof fn law_date_reads_back(y: u16, mo: u8, d: u8, h: u8, mi: u8, s: u8, us: u32)
    requires
        us < 1_000_000,
    ensures
        triple_at(date_text(y, mo, d, h, mi, s, us), "-"@) matches Some((a, b, c, r)) && a == y && b == mo && c == d
            && time_at(r) == Some((h as nat, mi as nat, s as nat, us as nat)),
{
    reveal_strlit("-");
    reveal_strlit(":");
    reveal_strlit(".");
    reveal_strlit(" ");
    let none = Seq::<char>::empty();
    let day = day_text(y, mo, d);
    let clock = clock_text(h as int, mi, s);
    let t = date_text(y, mo, d, h, mi, s, us);
    if h == 0 && mi == 0 && s == 0 && us == 0 {
        lemma_triple(y as nat, 4, mo as nat, d as nat, "-"@, none);
        assert(day + none =~= day);
    } else {
        let frac = if us == 0 {
            none
        } else {
            "."@ + text::dec_padded(us as nat, 6)
        };
        let rest = " "@ + (clock + frac);
        assert(rest[0] == ' ');
        lemma_triple(y as nat, 4, mo as nat, d as nat, "-"@, rest);
        reading::lemma_after(" "@, clock + frac);
        assert(frac.len() > 0 ==> frac[0] == '.');
        lemma_triple(h as nat, 2, mi as nat, s as nat, ":"@, frac);
        if us == 0 {
            assert(day + " "@ + clock =~= day + rest);
        } else {
            let p = text::dec_padded(us as nat, 6);
            reading::lemma_regroup(day + " "@ + clock, "."@, p);
            reading::lemma_regroup(day + " "@, clock, frac);
            reading::lemma_regroup(day, " "@, clock + frac);
            reading::lemma_after("."@, p);
            reading::law_padding_keeps_the_number(us as nat, 6);
            reading::lemma_digits_read(p, none);
            assert(p + none =~= p);
            lemma_six_digits(us as nat);
        }
    }
}

proof fn lemma_six_digits(n: nat)
    requires
        n < 1_000_000,
    ensures
        text::dec(n).len() <= 6,
{
    reveal_with_fuel(text::dec, 7);
}

/// Law: a span of time is read as hours, minutes and seconds, the days counted as
/// hours, and its sign and microseconds left out.
pub proof fn law_span_counts_days_as_hours(neg: bool, d: u32, h: u8, mi: u8, s: u8, us: u32)
    ensures
        read(MysqlCellV::Time(neg, d, h, mi, s, us)) matches Val::String(t) && triple_at(t, ":"@) matches Some(
            (a, b, c, r),
        ) && a == 24 * d + h && b == mi && c == s && r.len() == 0,
{
    reveal_strlit(":");
    let none = Seq::<char>::empty();
    lemma_triple((d * 24 + h) as nat, 2, mi as nat, s as nat, ":"@, none);
    let t = clock_text(d * 24 + h, mi, s);
    assert(t + none =~= t);
}

/// Law: a character set is found whatever the case of its name. What is set is
/// that name, but `utf8mb4` for `utf8` too; a set that is known has itself set.
pub proof fn law_charset_is_set_as_named(s: Seq<char>)
    ensures
        charset_name(s) == charset_name(text::lower(s)),
        charset_name(s) matches Some(c) ==> greeting(Some(s)) == seq!["SET NAMES "@ + c] && (c == text::lower(s) || (
        text::lower(s) == "utf8"@ && c == "utf8mb4"@)),
        greeting(None).len() == 0,
{
    assert(text::lower(text::lower(s)) =~= text::lower(s)) by {
        assert forall|i: int| 0 <= i < s.len() implies text::lower(text::lower(s))[i] == #[trigger] text::lower(s)[i] by {
            text::law_lower_changes_capitals_only(s, i);
        }
    }
}

/// Law: a connection is refused just where it is of another type or names a
/// character set that is not known.
pub proof fn law_connection_is_refused_for_its_type_or_charset(conn_type: Seq<char>, charset: Option<Seq<char>>)
    ensures
        refusal(conn_type, charset) is None <==> conn_type == "mysql"@ && (charset matches Some(c) ==> charset_name(c)
            is Some),
        conn_type != "mysql"@ ==> refusal(conn_type, charset)->Some_0 is Connection,
        conn_type == "mysql"@ && refusal(conn_type, charset) is Some ==> refusal(conn_type, charset)->Some_0
            is InvalidArgument,
{
}

/// Law: an encrypted connection is asked for by the modes that demand one, in any
/// case, and by no other.
pub proof fn law_encryption_is_asked_for_in_any_case(s: Seq<char>)
    ensures
        asks_tls(s) == asks_tls(text::lower(s)),
        asks_tls(s) <==> exists|m: Seq<char>|
            #![trigger text::lower(m)]
            text::lower(m) == text::lower(s) && (m == "require"@ || m == "required"@ || m == "verify_ca"@ || m
                == "verify_identity"@),
{
    reveal_strlit("require");
    reveal_strlit("required");
    reveal_strlit("verify_ca");
    reveal_strlit("verify_identity");
    assert(text::lower("require"@) =~= "require"@);
    assert(text::lower("required"@) =~= "required"@);
    assert(text::lower("verify_ca"@) =~= "verify_ca"@);
    assert(text::lower("verify_identity"@) =~= "verify_identity"@);
    assert(text::lower(text::lower(s)) =~= text::lower(s)) by {
        assert forall|i: int| 0 <= i < s.len() implies text::lower(text::lower(s))[i] == #[trigger] text::lower(s)[i] by {
            text::law_lower_changes_capitals_only(s, i);
        }
    }
}

/// Law: a column is described as the server tells it: by its name and type, as one
/// that may be null where the server says `YES`, as a key where it says `PRI`, and by
/// its position; what the server leaves out is empty.
pub proof fn law_column_is_as_told(r: MysqlColumnRow)
    ensures
        r.name matches Some(s) ==> r@.name == s@,
        r.name is None ==> r@.name.len() == 0,
        r.data_type matches Some(s) ==> r@.data_type == s@,
        r.data_type is None ==> r@.data_type.len() == 0,
        r@.nullable <==> (r.nullable matches Some(s) && s@ == "YES"@),
        r@.is_primary <==> (r.key matches Some(s) && s@ == "PRI"@),
        r.ordinal matches Some(n) ==> r@.ordinal == n,
        r.ordinal is None ==> r@.ordinal == 0,
{
    reveal_strlit("");
    reveal_strlit("YES");
    reveal_strlit("PRI");
    assert("YES"@.len() == 3 && "PRI"@.len() == 3);
}

/// Law: a batch with a row of another width is refused for the first such row, by
/// its number, whether the datasource is connected or not.
pub proof fn law_ragged_row_is_named(
    connected: bool,
    table: Seq<char>,
    columns: Seq<Seq<char>>,
    rows: Seq<Seq<Val>>,
    mode: SyncMode,
    keys: Seq<Seq<char>>,
    i: int,
)
    requires
        columns.len() > 0,
        0 <= i < rows.len(),
        rows[i].len() != columns.len(),
        forall|k: int| 0 <= k < i ==> (#[trigger] rows[k]).len() == columns.len(),
    ensures
        batch(connected, table, columns, rows, mode, keys) matches Err(DatasourceErrorV::InvalidArgument(s)) && (
        reading::after(s, "row "@) matches Some(a) && reading::numeral_at(a) matches Some((n, b)) && n == i && b == " "@
            + sql::width_fault(rows[i].len(), columns.len())),
{
    reveal_strlit(" ");
    sql::law_first_ragged_is_the_first(rows, columns.len());
    let bad = sql::first_ragged(rows, columns.len());
    assert(bad == i) by {
        if bad < i {
            assert(rows[bad].len() == columns.len());
        } else if bad > i {
            assert(rows[i].len() == columns.len());
        }
    }
    let b = " "@ + sql::width_fault(rows[i].len(), columns.len());
    assert(b[0] == ' ');
    reading::lemma_regroup("row "@ + text::dec(i as nat), " "@, sql::width_fault(rows[i].len(), columns.len()));
    reading::lemma_regroup("row "@, text::dec(i as nat), b);
    reading::lemma_after("row "@, text::dec(i as nat) + b);
    reading::law_numeral_reads_back(i as nat, b);
}

} // verus!

//! The value model shared by every datasource: values, rows, table structure
//! and connection definitions.

use vstd::prelude::*;
use vstd::std_specs::cmp::PartialEqSpecImpl;

use crate::error::{DatasourceError, DatasourceErrorV};
use crate::float;
use crate::float::{is_level, Float, FloatV};
use crate::reading;
use crate::strmap;
use crate::strmap::{Duplicate, StrMap};
use crate::text;
use crate::text::{cat2, cat3, copy, dec_text, hex, int_text, quote, same, to_lower};
use crate::views;

verus! {

/// The value model is the fixed interchange format between every datasource
/// and the transfer core. Every dialect converts the native database value
/// into one of these variants and back.
#[derive(Debug)]
pub enum Value {
    Null,
    Bool(bool),
    Int(i64),
    UInt(u64),
    Float(Float),
    /// Decimal / NUMERIC: kept as raw string to preserve exact precision.
    Decimal(String),
    String(String),
    Bytes(Vec<u8>),
    /// Date & timestamp values, formatted as `YYYY-MM-DD` or `YYYY-MM-DD HH:MM:SS[.ffffff]`.
    Date(String),
}

/// What a [`Value`] stands for.
#[verifier::ext_equal]
pub enum Val {
    Null,
    Bool(bool),
    Int(i64),
    UInt(u64),
    Float(FloatV),
    Decimal(Seq<char>),
    String(Seq<char>),
    Bytes(Seq<u8>),
    Date(Seq<char>),
}

impl View for Value {
    type V = Val;

    open spec fn view(&self) -> Val {
        match self {
            Value::Null => Val::Null,
            Value::Bool(b) => Val::Bool(*b),
            Value::Int(i) => Val::Int(*i),
            Value::UInt(u) => Val::UInt(*u),
            Value::Float(f) => Val::Float(f@),
            Value::Decimal(s) => Val::Decimal(s@),
            Value::String(s) => Val::String(s@),
            Value::Bytes(b) => Val::Bytes(b@),
            Value::Date(s) => Val::Date(s@),
        }
    }
}

impl Val {
    /// The text of the variants that hold one.
    pub open spec fn text(self) -> Option<Seq<char>> {
        match self {
            Val::String(s) => Some(s),
            Val::Decimal(s) => Some(s),
            Val::Date(s) => Some(s),
            _ => None,
        }
    }

    /// The value as a SQL literal.
    pub open spec fn literal(self) -> Seq<char> {
        match self {
            Val::Null => "NULL"@,
            Val::Bool(b) => if b {
                "1"@
            } else {
                "0"@
            },
            Val::Int(i) => text::dec_int(i as int),
            Val::UInt(u) => text::dec(u as nat),
            Val::Float(f) => f.text,
            Val::Decimal(s) => text::quoted(s, '\''),
            Val::String(s) => text::quoted(s, '\''),
            Val::Date(s) => text::quoted(s, '\''),
            Val::Bytes(b) => "X'"@ + text::hex_of(b) + "'"@,
        }
    }

    /// The value as plain text.
    pub open spec fn display(self) -> Seq<char> {
        match self {
            Val::Null => "NULL"@,
            Val::Bool(b) => if b {
                "true"@
            } else {
                "false"@
            },
            Val::Int(i) => text::dec_int(i as int),
            Val::UInt(u) => text::dec(u as nat),
            Val::Float(f) => f.text,
            Val::Decimal(s) => s,
            Val::String(s) => s,
            Val::Date(s) => s,
            Val::Bytes(b) => "0x"@ + text::hex_of(b),
        }
    }
}

pub fn copy_bytes(b: &Vec<u8>) -> (out: Vec<u8>)
    ensures
        out@ == b@,
{
    let mut out: Vec<u8> = Vec::new();
    let mut i: usize = 0;
    while i < b.len()
        invariant
            i <= b.len(),
            out@ == b@.take(i as int),
        decreases b.len() - i,
    {
        out.push(b[i]);
        assert(b@.take(i + 1) =~= b@.take(i as int).push(b@[i as int]));
        i += 1;
    }
    assert(b@.take(i as int) =~= b@);
    out
}

impl Clone for Value {
    fn clone(&self) -> (out: Value)
        ensures
            out@ == self@,
    {
        match self {
            Value::Null => Value::Null,
            Value::Bool(b) => Value::Bool(*b),
            Value::Int(i) => Value::Int(*i),
            Value::UInt(u) => Value::UInt(*u),
            Value::Float(f) => Value::Float(f.clone()),
            Value::Decimal(s) => Value::Decimal(s.clone()),
            Value::String(s) => Value::String(s.clone()),
            Value::Bytes(b) => Value::Bytes(copy_bytes(b)),
            Value::Date(s) => Value::Date(s.clone()),
        }
    }
}

impl Duplicate for Value {
    fn duplicate(&self) -> (out: Value) {
        self.clone()
    }
}

impl Value {
    pub fn is_null(&self) -> (out: bool)
        ensures
            out == (self@ == Val::Null),
    {
        matches!(self, Value::Null)
    }

    pub fn as_str(&self) -> (out: Option<&str>)
        ensures
            self@.text() == views::opt(out),
    {
        match self {
            Value::String(s) => Some(s.as_str()),
            Value::Decimal(s) => Some(s.as_str()),
            Value::Date(s) => Some(s.as_str()),
            _ => None,
        }
    }

    /// Render a value for use inside a SQL literal.
    pub fn sql_literal(&self) -> (out: Option<String>)
        ensures
            out matches Some(s) && s@ == self@.literal(),
    {
        Some(
            match self {
                Value::Null => copy("NULL"),
                Value::Bool(b) => if *b {
                    copy("1")
                } else {
                    copy("0")
                },
                Value::Int(i) => int_text(*i),
                Value::UInt(u) => dec_text(*u),
                Value::Float(f) => f.text.clone(),
                Value::Decimal(s) => quote(s.as_str(), '\''),
                Value::String(s) => quote(s.as_str(), '\''),
                Value::Date(s) => quote(s.as_str(), '\''),
                Value::Bytes(b) => {
                    let h = hex(b);
                    cat3("X'", h.as_str(), "'")
                },
            },
        )
    }

    /// The value as plain text.
    pub fn display(&self) -> (out: String)
        ensures
            out@ == self@.display(),
    {
        match self {
            Value::Null => copy("NULL"),
            Value::Bool(b) => if *b {
                copy("true")
            } else {
                copy("false")
            },
            Value::Int(i) => int_text(*i),
            Value::UInt(u) => dec_text(*u),
            Value::Float(f) => f.text.clone(),
            Value::Decimal(s) => s.clone(),
            Value::String(s) => s.clone(),
            Value::Date(s) => s.clone(),
            Value::Bytes(b) => {
                let h = hex(b);
                cat2("0x", h.as_str())
            },
        }
    }

    /// Whether the two values are of one variant and hold the same.
    pub fn matches_exactly(&self, other: &Value) -> (out: bool)
        ensures
            out == alike(self@, other@),
    {
        match (self, other) {
            (Value::Null, Value::Null) => true,
            (Value::Bool(a), Value::Bool(b)) => *a == *b,
            (Value::Int(a), Value::Int(b)) => *a == *b,
            (Value::UInt(a), Value::UInt(b)) => *a == *b,
            (Value::Float(a), Value::Float(b)) => is_level(a.bits, b.bits),
            (Value::Decimal(a), Value::Decimal(b)) => same(a.as_str(), b.as_str()),
            (Value::String(a), Value::String(b)) => same(a.as_str(), b.as_str()),
            (Value::Date(a), Value::Date(b)) => same(a.as_str(), b.as_str()),
            (Value::Bytes(a), Value::Bytes(b)) => same_bytes(a, b),
            _ => false,
        }
    }
}

/// Values of one variant that hold the same; doubles compare as numbers.
pub open spec fn alike(a: Val, b: Val) -> bool {
    match (a, b) {
        (Val::Float(x), Val::Float(y)) => float::level(x.bits, y.bits),
        _ => a == b,
    }
}

impl PartialEq for Value {
    fn eq(&self, other: &Value) -> (out: bool) {
        self.matches_exactly(other)
    }
}

impl PartialEqSpecImpl for Value {
    open spec fn obeys_eq_spec() -> bool {
        true
    }

    open spec fn eq_spec(&self, other: &Value) -> bool {
        alike(self@, other@)
    }
}

fn same_bytes(a: &Vec<u8>, b: &Vec<u8>) -> (out: bool)
    ensures
        out == (a@ == b@),
{
    if a.len() != b.len() {
        return false;
    }
    let mut i: usize = 0;
    while i < a.len()
        invariant
            i <= a.len(),
            a.len() == b.len(),
            forall|j: int| 0 <= j < i ==> a@[j] == b@[j],
        decreases a.len() - i,
    {
        if a[i] != b[i] {
            return false;
        }
        i += 1;
    }
    assert(a@ =~= b@);
    true
}

/// Law: an exact literal reads back. Two texts with the same SQL literal are
/// the same text, whatever quotes they hold.
pub proof fn law_text_literal_is_injective(a: Seq<char>, b: Seq<char>)
    requires
        Val::String(a).literal() == Val::String(b).literal(),
    ensures
        a == b,
{
    text::law_quote_injective(a, b, '\'');
}

// ---------------------------------------------------------------------------
// Rows
// ---------------------------------------------------------------------------

/// A single logical row. Values are keyed by column name; ordering is
/// reconstructed from the schema/column list at read/write time.
#[derive(Debug)]
pub struct Row {
    pub data: StrMap<Value>,
}

/// The cells of a row in the order of their column names.
pub type Cells = Seq<(Seq<char>, Val)>;

impl View for Row {
    type V = Cells;

    open spec fn view(&self) -> Cells {
        self.data@
    }
}

impl Clone for Row {
    fn clone(&self) -> (out: Row)
        ensures
            out@ == self@,
    {
        Row { data: self.data.clone() }
    }
}

impl Default for Row {
    fn default() -> (out: Row)
        ensures
            out@ == Cells::empty(),
            strmap::ordered(out@),
    {
        Row { data: StrMap::new() }
    }
}

/// The value of a column, or null where the row lacks it.
pub open spec fn cell(row: Cells, col: Seq<char>) -> Val {
    match strmap::at(row, col) {
        Some(v) => v,
        None => Val::Null,
    }
}

/// What a list of values stands for.
pub open spec fn vals(v: Seq<Value>) -> Seq<Val> {
    views::list(v)
}

/// What a list of rows stands for.
pub open spec fn rows_view(v: Seq<Row>) -> Seq<Cells> {
    views::list(v)
}

/// `row` with the columns stored one after the other, each with what `from` holds.
pub open spec fn put_cells(row: Cells, from: Cells, columns: Seq<Seq<char>>) -> Cells
    decreases columns.len(),
{
    if columns.len() == 0 {
        row
    } else {
        strmap::put(put_cells(row, from, columns.drop_last()), columns.last(), cell(from, columns.last()))
    }
}

impl Row {
    pub fn new() -> (out: Self)
        ensures
            out@ == Cells::empty(),
            strmap::ordered(out@),
    {
        Row { data: StrMap::new() }
    }

    pub fn get(&self, col: &str) -> (out: Option<&Value>)
        ensures
            strmap::at(self@, col@) == views::opt(out),
            strmap::ordered(self@),
    {
        self.data.get(col)
    }

    /// The value of a column, or null where the row lacks it.
    pub fn value(&self, col: &str) -> (out: Value)
        ensures
            out@ == cell(self@, col@),
    {
        match self.data.get(col) {
            Some(v) => v.clone(),
            None => Value::Null,
        }
    }

    pub fn insert(&mut self, col: String, value: Value)
        ensures
            final(self)@ == strmap::put(old(self)@, col@, value@),
            strmap::ordered(final(self)@),
    {
        self.data.insert(col, value);
    }

    pub fn columns(&self) -> (out: Vec<String>)
        ensures
            text::views(out@) == strmap::keys_of(self@),
    {
        self.data.keys()
    }

    /// Extract values following `columns` order.
    pub fn extract(&self, columns: &Vec<String>) -> (out: Vec<Value>)
        ensures
            vals(out@) == text::views(columns@).map_values(|c: Seq<char>| cell(self@, c)),
    {
        let ghost want = text::views(columns@).map_values(|c: Seq<char>| cell(self@, c));
        let mut out: Vec<Value> = Vec::new();
        let mut i: usize = 0;
        while i < columns.len()
            invariant
                i <= columns.len(),
                want == text::views(columns@).map_values(|c: Seq<char>| cell(self@, c)),
                vals(out@) == want.take(i as int),
            decreases columns.len() - i,
        {
            let v = self.value(columns[i].as_str());
            let ghost before = vals(out@);
            out.push(v);
            assert(vals(out@) =~= before.push(v@));
            assert(want.take(i + 1) =~= want.take(i as int).push(want[i as int]));
            i += 1;
        }
        assert(want.take(i as int) =~= want);
        out
    }

    /// Rebuild a row keeping only `columns`.
    pub fn project(&self, columns: &Vec<String>) -> (out: Row)
        ensures
            out@ == put_cells(Cells::empty(), self@, text::views(columns@)),
    {
        let ghost names = text::views(columns@);
        let mut out = Row::new();
        let mut i: usize = 0;
        assert(names.take(0) =~= Seq::<Seq<char>>::empty());
        while i < columns.len()
            invariant
                i <= columns.len(),
                names == text::views(columns@),
                out@ == put_cells(Cells::empty(), self@, names.take(i as int)),
            decreases columns.len() - i,
        {
            out.insert(columns[i].clone(), self.value(columns[i].as_str()));
            assert(names.take(i + 1).drop_last() =~= names.take(i as int));
            i += 1;
        }
        assert(names.take(i as int) =~= names);
        out
    }
}

proof fn lemma_put_cells(row: Cells, from: Cells, columns: Seq<Seq<char>>)
    requires
        strmap::ordered(row),
    ensures
        strmap::ordered(put_cells(row, from, columns)),
        forall|c: Seq<char>| #[trigger]
            strmap::at(put_cells(row, from, columns), c) == (if columns.contains(c) {
                Some(cell(from, c))
            } else {
                strmap::at(row, c)
            }),
    decreases columns.len(),
{
    if columns.len() > 0 {
        let rest = columns.drop_last();
        let k = columns.last();
        lemma_put_cells(row, from, rest);
        strmap::lemma_put(put_cells(row, from, rest), k, cell(from, k));
        assert forall|c: Seq<char>| #[trigger]
            strmap::at(put_cells(row, from, columns), c) == (if columns.contains(c) {
                Some(cell(from, c))
            } else {
                strmap::at(row, c)
            }) by {
            strmap::lemma_dict(put_cells(row, from, columns), c);
            strmap::lemma_dict(put_cells(row, from, rest), c);
            assert(columns =~= rest.push(k));
            if rest.contains(c) {
                let i = choose|i: int| 0 <= i < rest.len() && rest[i] == c;
                assert(columns[i] == c);
            }
            if columns.contains(c) && c != k {
                let i = choose|i: int| 0 <= i < columns.len() && columns[i] == c;
                assert(rest[i] == c);
            }
            if c == k {
                assert(columns[columns.len() - 1] == c);
            }
        }
    }
}

/// Law: a projected row holds the listed columns and no others, each with its
/// old value or null.
pub proof fn law_project_keeps_listed(row: Cells, columns: Seq<Seq<char>>, c: Seq<char>)
    requires
        strmap::ordered(row),
    ensures
        strmap::at(put_cells(Cells::empty(), row, columns), c) == (if columns.contains(c) {
            Some(cell(row, c))
        } else {
            None
        }),
{
    lemma_put_cells(Cells::empty(), row, columns);
}

// ---------------------------------------------------------------------------
// Table structure
// ---------------------------------------------------------------------------

/// Column metadata.
#[derive(Debug)]
pub struct Column {
    pub name: String,
    /// Native type representation, e.g. `varchar(64)`, `bigint`, `number(10,2)`.
    pub data_type: String,
    pub nullable: bool,
    pub is_primary: bool,
    pub ordinal: usize,
}

/// What a [`Column`] says.
#[verifier::ext_equal]
pub struct ColumnV {
    pub name: Seq<char>,
    pub data_type: Seq<char>,
    pub nullable: bool,
    pub is_primary: bool,
    pub ordinal: usize,
}

impl View for Column {
    type V = ColumnV;

    open spec fn view(&self) -> ColumnV {
        ColumnV {
            name: self.name@,
            data_type: self.data_type@,
            nullable: self.nullable,
            is_primary: self.is_primary,
            ordinal: self.ordinal,
        }
    }
}

impl Clone for Column {
    fn clone(&self) -> (out: Column)
        ensures
            out@ == self@,
    {
        Column {
            name: self.name.clone(),
            data_type: self.data_type.clone(),
            nullable: self.nullable,
            is_primary: self.is_primary,
            ordinal: self.ordinal,
        }
    }
}

pub open spec fn columns_view(c: Seq<Column>) -> Seq<ColumnV> {
    views::list(c)
}

/// Table structure.
#[derive(Debug)]
pub struct TableSchema {
    pub table: String,
    pub columns: Vec<Column>,
}

/// What a [`TableSchema`] says.
#[verifier::ext_equal]
pub struct TableSchemaV {
    pub table: Seq<char>,
    pub columns: Seq<ColumnV>,
}

impl View for TableSchema {
    type V = TableSchemaV;

    open spec fn view(&self) -> TableSchemaV {
        TableSchemaV { table: self.table@, columns: columns_view(self.columns@) }
    }
}

/// The names of the primary key columns, in order.
pub open spec fn key_names(c: Seq<ColumnV>) -> Seq<Seq<char>>
    decreases c.len(),
{
    if c.len() == 0 {
        Seq::empty()
    } else if c.last().is_primary {
        key_names(c.drop_last()).push(c.last().name)
    } else {
        key_names(c.drop_last())
    }
}

/// The position of the first column of that name, or the number of columns.
pub open spec fn first_named(c: Seq<ColumnV>, name: Seq<char>) -> int
    decreases c.len(),
{
    if c.len() == 0 {
        0
    } else if c[0].name == name {
        0
    } else {
        1 + first_named(c.skip(1), name)
    }
}

impl TableSchemaV {
    pub open spec fn names(self) -> Seq<Seq<char>> {
        self.columns.map_values(|c: ColumnV| c.name)
    }

    pub open spec fn named(self, name: Seq<char>) -> Option<ColumnV> {
        let i = first_named(self.columns, name);
        if i < self.columns.len() {
            Some(self.columns[i])
        } else {
            None
        }
    }
}

impl TableSchema {
    pub fn column_names(&self) -> (out: Vec<String>)
        ensures
            text::views(out@) == self@.names(),
    {
        let ghost want = self@.names();
        let mut out: Vec<String> = Vec::new();
        let mut i: usize = 0;
        while i < self.columns.len()
            invariant
                i <= self.columns.len(),
                want == self@.names(),
                text::views(out@) == want.take(i as int),
            decreases self.columns.len() - i,
        {
            let n = self.columns[i].name.clone();
            let ghost before = text::views(out@);
            out.push(n);
            assert(text::views(out@) =~= before.push(n@));
            assert(want.take(i + 1) =~= want.take(i as int).push(want[i as int]));
            i += 1;
        }
        assert(want.take(i as int) =~= want);
        out
    }

    pub fn primary_keys(&self) -> (out: Vec<String>)
        ensures
            text::views(out@) == key_names(self@.columns),
    {
        let ghost all = self@.columns;
        let mut out: Vec<String> = Vec::new();
        let mut i: usize = 0;
        assert(text::views(out@) =~= key_names(all.take(0)));
        while i < self.columns.len()
            invariant
                i <= self.columns.len(),
                all == self@.columns,
                text::views(out@) == key_names(all.take(i as int)),
            decreases self.columns.len() - i,
        {
            let ghost before = text::views(out@);
            assert(all.take(i + 1).drop_last() =~= all.take(i as int));
            assert(all.take(i + 1).last() == self.columns@[i as int]@);
            if self.columns[i].is_primary {
                let n = self.columns[i].name.clone();
                out.push(n);
                assert(text::views(out@) =~= before.push(n@));
            }
            i += 1;
        }
        assert(all.take(i as int) =~= all);
        out
    }

    pub fn get(&self, name: &str) -> (out: Option<&Column>)
        ensures
            self@.named(name@) == views::opt(out),
    {
        let ghost all = self@.columns;
        let mut i: usize = 0;
        assert(all.skip(0) =~= all);
        while i < self.columns.len()
            invariant
                i <= self.columns.len(),
                all == self@.columns,
                first_named(all, name@) == i + first_named(all.skip(i as int), name@),
            decreases self.columns.len() - i,
        {
            assert(all.skip(i as int)[0] == self.columns@[i as int]@);
            if same(self.columns[i].name.as_str(), name) {
                return Some(&self.columns[i]);
            }
            assert(all.skip(i as int).skip(1) =~= all.skip(i + 1));
            i += 1;
        }
        None
    }
}

impl Clone for TableSchema {
    fn clone(&self) -> (out: TableSchema)
        ensures
            out@ == self@,
    {
        let ghost want = columns_view(self.columns@);
        let mut columns: Vec<Column> = Vec::new();
        let mut i: usize = 0;
        while i < self.columns.len()
            invariant
                i <= self.columns.len(),
                want == columns_view(self.columns@),
                columns_view(columns@) == want.take(i as int),
            decreases self.columns.len() - i,
        {
            let c = self.columns[i].clone();
            let ghost before = columns_view(columns@);
            columns.push(c);
            assert(columns_view(columns@) =~= before.push(c@));
            assert(want.take(i + 1) =~= want.take(i as int).push(want[i as int]));
            i += 1;
        }
        assert(want.take(i as int) =~= want);
        TableSchema { table: self.table.clone(), columns }
    }
}

// ---------------------------------------------------------------------------
// Connections
// ---------------------------------------------------------------------------

/// Connection definition, as a driver receives it.
#[derive(Debug)]
pub struct ConnectionConfig {
    pub name: String,
    /// `mysql`, `postgresql`, `oracle`, ...
    pub conn_type: String,
    pub host: String,
    pub port: u16,
    pub database: String,
    pub schema: Option<String>,
    pub username: String,
    pub password: String,
    /// Extra driver options, e.g. `{"ssl_mode": "require", "charset": "utf8mb4"}`.
    pub params: StrMap<String>,
    pub max_pool_size: u32,
    pub connect_timeout_secs: u64,
}

/// What a connection definition says.
#[verifier::ext_equal]
pub struct ConnectionV {
    pub name: Seq<char>,
    pub conn_type: Seq<char>,
    pub host: Seq<char>,
    pub port: u16,
    pub database: Seq<char>,
    pub schema: Option<Seq<char>>,
    pub username: Seq<char>,
    pub password: Seq<char>,
    pub params: Seq<(Seq<char>, Seq<char>)>,
    pub max_pool_size: u32,
    pub connect_timeout_secs: u64,
}

impl View for ConnectionConfig {
    type V = ConnectionV;

    open spec fn view(&self) -> ConnectionV {
        ConnectionV {
            name: self.name@,
            conn_type: self.conn_type@,
            host: self.host@,
            port: self.port,
            database: self.database@,
            schema: views::opt(self.schema),
            username: self.username@,
            password: self.password@,
            params: self.params@,
            max_pool_size: self.max_pool_size,
            connect_timeout_secs: self.connect_timeout_secs,
        }
    }
}

/// The pool size of a connection that names none.
pub fn default_max_pool() -> (out: u32)
    ensures
        out == 4,
{
    4
}

/// The connect timeout, in seconds, of a connection that names none.
pub fn default_timeout() -> (out: u64)
    ensures
        out == 15,
{
    15
}

impl ConnectionConfig {
    pub fn param(&self, key: &str) -> (out: Option<&str>)
        ensures
            strmap::at(self.params@, key@) == views::opt(out),
    {
        match self.params.get(key) {
            Some(s) => Some(s.as_str()),
            None => None,
        }
    }
}

/// Write mode for a target table.
#[derive(Debug, Clone, Copy, PartialEq, Eq, Structural)]
pub enum SyncMode {
    /// TRUNCATE the target table, then append all rows.
    Full,
    /// INSERT ... ON DUPLICATE KEY UPDATE ... (MySQL)
    /// INSERT ... ON CONFLICT (pk) DO UPDATE ... (PostgreSQL/Oracle)
    Upsert,
    /// Plain INSERT, never touches existing rows.
    Append,
}

impl SyncMode {
    pub open spec fn word(self) -> Seq<char> {
        match self {
            SyncMode::Full => "full"@,
            SyncMode::Upsert => "upsert"@,
            SyncMode::Append => "append"@,
        }
    }

    /// The mode that a word names, in any case.
    pub open spec fn named(s: Seq<char>) -> Option<SyncMode> {
        if text::lower(s) == "full"@ {
            Some(SyncMode::Full)
        } else if text::lower(s) == "upsert"@ {
            Some(SyncMode::Upsert)
        } else if text::lower(s) == "append"@ {
            Some(SyncMode::Append)
        } else {
            None
        }
    }

    pub fn as_str(&self) -> (out: &'static str)
        ensures
            out@ == self.word(),
    {
        match self {
            SyncMode::Full => "full",
            SyncMode::Upsert => "upsert",
            SyncMode::Append => "append",
        }
    }

    /// Reads a mode, in any case.
    pub fn from_str(s: &str) -> (out: Result<SyncMode, DatasourceError>)
        ensures
            match out {
                Ok(m) => SyncMode::named(s@) == Some(m),
                Err(e) => SyncMode::named(s@) is None && e@ == unknown_mode(s@),
            },
    {
        let w = to_lower(s);
        if same(w.as_str(), "full") {
            Ok(SyncMode::Full)
        } else if same(w.as_str(), "upsert") {
            Ok(SyncMode::Upsert)
        } else if same(w.as_str(), "append") {
            Ok(SyncMode::Append)
        } else {
            Err(DatasourceError::InvalidArgument(cat2("unknown sync mode: ", w.as_str())))
        }
    }
}

/// The refusal of a word that names no mode.
pub open spec fn unknown_mode(s: Seq<char>) -> DatasourceErrorV {
    DatasourceErrorV::InvalidArgument("unknown sync mode: "@ + text::lower(s))
}

/// Law: the word of a mode reads back as that mode.
pub proof fn law_mode_reads_back(m: SyncMode)
    ensures
        SyncMode::named(m.word()) == Some(m),
{
    reveal_strlit("full");
    reveal_strlit("upsert");
    reveal_strlit("append");
    assert(text::lower("full"@) =~= "full"@);
    assert(text::lower("upsert"@) =~= "upsert"@);
    assert(text::lower("append"@) =~= "append"@);
    assert("full"@.len() == 4 && "upsert"@[0] == 'u' && "append"@[0] == 'a');
}

/// Law: the literal of a text reads back as the text, whatever quotes it holds and
/// whatever follows that is no quote; so does a decimal and a date.
pub proof fn law_text_literal_reads_back(v: Val, rest: Seq<char>)
    requires
        v.text() is Some,
        reading::not_before(rest, '\''),
    ensures
        reading::name_at(v.literal() + rest, '\'') == Some((v.text()->Some_0, rest)),
{
    reading::law_quoted_name_reads_back(v.text()->Some_0, '\'', rest);
}

/// Law: a whole number's literal is the number in digits, with a minus sign where
/// it is negative; a boolean's is the number 1 or 0; the text shown of a number is
/// its literal, and the text shown of a text is the text itself.
pub proof fn law_literals_are_the_values(v: Val)
    ensures
        v matches Val::Int(i) ==> text::read_int(v.literal()) == Ok::<int, text::IntFault>(i as int),
        v matches Val::UInt(u) ==> reading::all_digits(v.literal()) && reading::run_value(v.literal()) == u,
        v matches Val::Bool(b) ==> reading::all_digits(v.literal()) && (reading::run_value(v.literal()) == 1 <==> b) && (
        reading::run_value(v.literal()) == 0 <==> !b),
        v is Int || v is UInt || v is Float || v is Null ==> v.display() == v.literal(),
        v.text() matches Some(s) ==> v.display() == s,
{
    if let Val::Int(i) = v {
        reading::law_written_number_reads_back(i as int);
    }
    if let Val::UInt(u) = v {
        reading::lemma_dec_digits(u as nat);
    }
    if let Val::Bool(b) = v {
        reveal_strlit("0");
        reveal_strlit("1");
        assert("0"@ =~= text::dec(0));
        assert("1"@ =~= text::dec(1));
        reading::lemma_dec_digits(0);
        reading::lemma_dec_digits(1);
    }
}

/// Law: bytes are shown and written in hexadecimal, two digits for each.
pub proof fn law_bytes_are_written_in_hexadecimal(b: Seq<u8>, i: int)
    requires
        0 <= i < b.len(),
    ensures
        ({
            let s = Val::Bytes(b).literal();
            let d = Val::Bytes(b).display();
            &&& s.len() == 2 * b.len() + 3 && s[0] == 'X' && s[1] == '\'' && s.last() == '\''
            &&& text::hex_value(s[2 * i + 2]) * 16 + text::hex_value(s[2 * i + 3]) == b[i]
            &&& d.len() == 2 * b.len() + 2 && d[0] == '0' && d[1] == 'x'
            &&& text::hex_value(d[2 * i + 2]) * 16 + text::hex_value(d[2 * i + 3]) == b[i]
        }),
{
    reveal_strlit("X'");
    reveal_strlit("'");
    reveal_strlit("0x");
    text::law_hexadecimal_reads_back(b, i);
}

/// Law: two values are alike where they are the same value; doubles where they
/// compare as equal. A value is alike to null only where it is null.
pub proof fn law_alike_values_are_the_same(a: Val, b: Val)
    requires
        alike(a, b),
    ensures
        a is Float <==> b is Float,
        !(a is Float) ==> a == b,
        a is Null <==> b is Null,
{
}

/// Law: the key columns are those marked as keys, by name and in their order.
pub proof fn law_keys_are_the_marked_columns(c: Seq<ColumnV>)
    ensures
        key_names(c) == c.filter(|x: ColumnV| x.is_primary).map_values(|x: ColumnV| x.name),
    decreases c.len(),
{
    reveal(Seq::filter);
    let named = |x: ColumnV| x.name;
    let marked = |x: ColumnV| x.is_primary;
    if c.len() > 0 {
        law_keys_are_the_marked_columns(c.drop_last());
        let head = c.drop_last().filter(marked);
        assert(head.push(c.last()).map_values(named) =~= head.map_values(named).push(c.last().name));
    } else {
        assert(key_names(c) =~= c.filter(marked).map_values(named));
    }
}

/// Law: a column is found by its name, the first of that name; none is found where
/// no column has the name.
pub proof fn law_column_is_found_by_name(t: TableSchemaV, name: Seq<char>, i: int)
    requires
        0 <= i < t.columns.len(),
        t.columns[i].name == name,
        forall|j: int| 0 <= j < i ==> (#[trigger] t.columns[j]).name != name,
    ensures
        t.named(name) == Some(t.columns[i]),
{
    lemma_first_named(t.columns, name, i);
}

proof fn lemma_first_named(c: Seq<ColumnV>, name: Seq<char>, i: int)
    requires
        0 <= i < c.len(),
        c[i].name == name,
        forall|j: int| 0 <= j < i ==> (#[trigger] c[j]).name != name,
    ensures
        first_named(c, name) == i,
    decreases c.len(),
{
    if i > 0 {
        assert(c[0].name != name);
        assert(c.skip(1)[i - 1] == c[i]);
        lemma_first_named(c.skip(1), name, i - 1);
    }
}

/// Law: no column is found under a name that none has.
pub proof fn law_no_column_is_found_otherwise(t: TableSchemaV, name: Seq<char>)
    requires
        forall|j: int| 0 <= j < t.columns.len() ==> (#[trigger] t.columns[j]).name != name,
    ensures
        t.named(name) is None,
{
    lemma_none_named(t.columns, name);
}

proof fn lemma_none_named(c: Seq<ColumnV>, name: Seq<char>)
    requires
        forall|j: int| 0 <= j < c.len() ==> (#[trigger] c[j]).name != name,
    ensures
        first_named(c, name) == c.len(),
    decreases c.len(),
{
    if c.len() > 0 {
        assert(c[0].name != name);
        lemma_none_named(c.skip(1), name);
    }
}

/// Law: a mode is named by its word in any case, and by nothing else.
pub proof fn law_mode_is_named_by_its_word(s: Seq<char>, m: SyncMode)
    ensures
        SyncMode::named(s) == Some(m) <==> text::lower(s) == m.word(),
{
    reveal_strlit("full");
    reveal_strlit("upsert");
    reveal_strlit("append");
    assert("full"@.len() == 4 && "upsert"@[0] == 'u' && "append"@[0] == 'a');
    assert("upsert"@.len() == 6 && "append"@.len() == 6);
}

} // verus!

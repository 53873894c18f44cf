//! What the SQL dialects share: quoted names, bound values and batches.

use vstd::prelude::*;

use crate::clock;
use crate::clock::{moment_text, Moment};
use crate::error::{DatasourceError, DatasourceErrorV};
use crate::float::{Float, FloatV};
use crate::model::{copy_bytes, Cells, Column, ColumnV, ConnectionConfig, Row, TableSchema, TableSchemaV, Val, Value};
use crate::reading;
use crate::strmap;
use crate::text;
use crate::text::{cat2, cat5, copy, dec_text, quote, same, trimmed, trimmed_end_any};
use crate::views;

verus! {

// ---------------------------------------------------------------------------
// Statements
// ---------------------------------------------------------------------------

/// A SQL text and the values bound to its placeholders, in order.
#[derive(Debug)]
pub struct Statement<P> {
    pub sql: String,
    pub params: Vec<P>,
}

/// What a [`Statement`] says.
#[verifier::ext_equal]
#[verifier::reject_recursive_types(P)]
pub struct StatementV<P> {
    pub sql: Seq<char>,
    pub params: Seq<P>,
}

impl<P: View> View for Statement<P> {
    type V = StatementV<P::V>;

    open spec fn view(&self) -> StatementV<P::V> {
        StatementV { sql: self.sql@, params: views::list(self.params@) }
    }
}

/// What preparing a batch gives: nothing to do, a statement, or an error.
pub open spec fn prepared<P: View>(r: Result<Option<Statement<P>>, DatasourceError>) -> Result<
    Option<StatementV<P::V>>,
    DatasourceErrorV,
> {
    match r {
        Ok(s) => Ok(views::opt(s)),
        Err(e) => Err(e@),
    }
}

/// A value as a driver with typed parameters binds it.
#[derive(Debug)]
pub enum Bind {
    Null,
    Bool(bool),
    Int(i64),
    Float(Float),
    Text(String),
    Bytes(Vec<u8>),
}

/// What a [`Bind`] holds.
#[verifier::ext_equal]
pub enum BindV {
    Null,
    Bool(bool),
    Int(i64),
    Float(FloatV),
    Text(Seq<char>),
    Bytes(Seq<u8>),
}

impl View for Bind {
    type V = BindV;

    open spec fn view(&self) -> BindV {
        match self {
            Bind::Null => BindV::Null,
            Bind::Bool(b) => BindV::Bool(*b),
            Bind::Int(i) => BindV::Int(*i),
            Bind::Float(f) => BindV::Float(f@),
            Bind::Text(s) => BindV::Text(s@),
            Bind::Bytes(b) => BindV::Bytes(b@),
        }
    }
}

/// The signed number with the same 64 bits.
pub open spec fn wrapped(u: u64) -> i64 {
    if u < 0x8000_0000_0000_0000 {
        u as i64
    } else {
        (u - 0x1_0000_0000_0000_0000) as i64
    }
}

pub fn wrap(u: u64) -> (out: i64)
    ensures
        out == wrapped(u),
{
    if u < 0x8000_0000_0000_0000 {
        u as i64
    } else {
        (u - 0x8000_0000_0000_0000) as i64 + i64::MIN
    }
}

/// How a value is bound: decimals and dates as text, coerced by the server to
/// the column's type; booleans as such or as the numbers 0 and 1.
pub open spec fn bound(v: Val, booleans: bool) -> BindV {
    match v {
        Val::Null => BindV::Null,
        Val::Bool(b) => if booleans {
            BindV::Bool(b)
        } else if b {
            BindV::Int(1)
        } else {
            BindV::Int(0)
        },
        Val::Int(i) => BindV::Int(i),
        Val::UInt(u) => BindV::Int(wrapped(u)),
        Val::Float(f) => BindV::Float(f),
        Val::Decimal(s) => BindV::Text(s),
        Val::String(s) => BindV::Text(s),
        Val::Date(s) => BindV::Text(s),
        Val::Bytes(b) => BindV::Bytes(b),
    }
}

pub fn bind(v: &Value, booleans: bool) -> (out: Bind)
    ensures
        out@ == bound(v@, booleans),
{
    match v {
        Value::Null => Bind::Null,
        Value::Bool(b) => if booleans {
            Bind::Bool(*b)
        } else if *b {
            Bind::Int(1)
        } else {
            Bind::Int(0)
        },
        Value::Int(i) => Bind::Int(*i),
        Value::UInt(u) => Bind::Int(wrap(*u)),
        Value::Float(f) => Bind::Float(f.clone()),
        Value::Decimal(s) => Bind::Text(s.clone()),
        Value::String(s) => Bind::Text(s.clone()),
        Value::Date(s) => Bind::Text(s.clone()),
        Value::Bytes(b) => Bind::Bytes(copy_bytes(b)),
    }
}

// ---------------------------------------------------------------------------
// Texts
// ---------------------------------------------------------------------------

/// A statement without the blanks around it and without semicolons at its end.
pub open spec fn bare(sql: Seq<char>) -> Seq<char> {
    text::trim_end_any(text::trim(sql), ";"@)
}

pub fn trim_sql(sql: &str) -> (out: String)
    ensures
        out@ == bare(sql@),
{
    let t = trimmed(sql);
    trimmed_end_any(t.as_str(), ";")
}

/// The statement of one page in the dialects that know `LIMIT`.
pub open spec fn limit_page(sql: Seq<char>, offset: u64, limit: u64) -> Seq<char> {
    bare(sql) + " LIMIT "@ + text::dec(limit as nat) + " OFFSET "@ + text::dec(offset as nat)
}

pub fn limited(sql: &str, offset: u64, limit: u64) -> (out: String)
    ensures
        out@ == limit_page(sql@, offset, limit),
{
    let s = trim_sql(sql);
    let l = dec_text(limit);
    let o = dec_text(offset);
    cat5(s.as_str(), " LIMIT ", l.as_str(), " OFFSET ", o.as_str())
}

/// The names, each quoted.
pub open spec fn quoted_all(names: Seq<Seq<char>>, q: char) -> Seq<Seq<char>> {
    names.map_values(|c: Seq<char>| text::quoted(c, q))
}

pub fn quote_all(names: &Vec<String>, q: char) -> (out: Vec<String>)
    ensures
        text::views(out@) == quoted_all(text::views(names@), q),
{
    let ghost want = quoted_all(text::views(names@), q);
    let mut out: Vec<String> = Vec::new();
    let mut i: usize = 0;
    while i < names.len()
        invariant
            i <= names.len(),
            want == quoted_all(text::views(names@), q),
            text::views(out@) == want.take(i as int),
        decreases names.len() - i,
    {
        let n = quote(names[i].as_str(), q);
        proof {
            views::lemma_list_push(out@, n);
        }
        out.push(n);
        assert(want.take(i + 1) =~= want.take(i as int).push(want[i as int]));
        i += 1;
    }
    assert(want.take(i as int) =~= want);
    out
}

/// Each name between two texts and once more before a third.
pub open spec fn framed(names: Seq<Seq<char>>, q: char, before: Seq<char>, between: Seq<char>, after: Seq<char>) -> Seq<
    Seq<char>,
> {
    names.map_values(|c: Seq<char>| before + text::quoted(c, q) + between + text::quoted(c, q) + after)
}

pub fn frame(names: &Vec<String>, q: char, before: &str, between: &str, after: &str) -> (out: Vec<String>)
    ensures
        text::views(out@) == framed(text::views(names@), q, before@, between@, after@),
{
    let ghost want = framed(text::views(names@), q, before@, between@, after@);
    let mut out: Vec<String> = Vec::new();
    let mut i: usize = 0;
    while i < names.len()
        invariant
            i <= names.len(),
            want == framed(text::views(names@), q, before@, between@, after@),
            text::views(out@) == want.take(i as int),
        decreases names.len() - i,
    {
        let n = quote(names[i].as_str(), q);
        let s = cat5(before, n.as_str(), between, n.as_str(), after);
        proof {
            views::lemma_list_push(out@, s);
        }
        out.push(s);
        assert(want.take(i + 1) =~= want.take(i as int).push(want[i as int]));
        i += 1;
    }
    assert(want.take(i as int) =~= want);
    out
}

pub fn is_listed(names: &Vec<String>, name: &str) -> (out: bool)
    ensures
        out == text::views(names@).contains(name@),
{
    let mut i: usize = 0;
    while i < names.len()
        invariant
            i <= names.len(),
            forall|j: int| 0 <= j < i ==> #[trigger] text::views(names@)[j] != name@,
        decreases names.len() - i,
    {
        if same(names[i].as_str(), name) {
            assert(text::views(names@)[i as int] == name@);
            return true;
        }
        i += 1;
    }
    false
}

/// The names that are not among `taken`, in their order.
pub open spec fn others(names: Seq<Seq<char>>, taken: Seq<Seq<char>>) -> Seq<Seq<char>>
    decreases names.len(),
{
    if names.len() == 0 {
        Seq::empty()
    } else if taken.contains(names.last()) {
        others(names.drop_last(), taken)
    } else {
        others(names.drop_last(), taken).push(names.last())
    }
}

pub fn without(names: &Vec<String>, taken: &Vec<String>) -> (out: Vec<String>)
    ensures
        text::views(out@) == others(text::views(names@), text::views(taken@)),
{
    let ghost all = text::views(names@);
    let mut out: Vec<String> = Vec::new();
    let mut i: usize = 0;
    assert(text::views(out@) =~= others(all.take(0), text::views(taken@)));
    while i < names.len()
        invariant
            i <= names.len(),
            all == text::views(names@),
            text::views(out@) == others(all.take(i as int), text::views(taken@)),
        decreases names.len() - i,
    {
        assert(all.take(i + 1).drop_last() =~= all.take(i as int));
        assert(all.take(i + 1).last() == names@[i as int]@);
        if !is_listed(taken, names[i].as_str()) {
            let n = names[i].clone();
            proof {
                views::lemma_list_push(out@, n);
            }
            out.push(n);
        }
        i += 1;
    }
    assert(all.take(i as int) =~= all);
    out
}

/// Numbered placeholders `prefix 1`, `prefix 2`, ... from the one after `from`.
pub open spec fn numbered(prefix: Seq<char>, from: int, n: nat) -> Seq<Seq<char>> {
    Seq::new(n, |j: int| prefix + text::dec((from + j + 1) as nat))
}

/// Numbered placeholders, each followed by a text of its own.
pub open spec fn numbered_before(prefix: Seq<char>, from: int, tails: Seq<Seq<char>>) -> Seq<Seq<char>> {
    Seq::new(tails.len(), |j: int| prefix + text::dec((from + j + 1) as nat) + tails[j])
}

pub fn number_before(prefix: &str, from: usize, tails: &Vec<String>) -> (out: Vec<String>)
    requires
        from + tails@.len() <= usize::MAX,
    ensures
        text::views(out@) == numbered_before(prefix@, from as int, text::views(tails@)),
{
    let ghost want = numbered_before(prefix@, from as int, text::views(tails@));
    let mut out: Vec<String> = Vec::new();
    let mut j: usize = 0;
    while j < tails.len()
        invariant
            j <= tails.len(),
            from + tails@.len() <= usize::MAX,
            want == numbered_before(prefix@, from as int, text::views(tails@)),
            text::views(out@) == want.take(j as int),
        decreases tails.len() - j,
    {
        let d = dec_text((from + j + 1) as u64);
        let s = text::cat3(prefix, d.as_str(), tails[j].as_str());
        proof {
            views::lemma_list_push(out@, s);
        }
        out.push(s);
        assert(want.take(j + 1) =~= want.take(j as int).push(want[j as int]));
        j += 1;
    }
    assert(want.take(j as int) =~= want);
    out
}

pub fn number(prefix: &str, from: usize, n: usize) -> (out: Vec<String>)
    requires
        from + n <= usize::MAX,
    ensures
        text::views(out@) == numbered(prefix@, from as int, n as nat),
{
    let ghost want = numbered(prefix@, from as int, n as nat);
    let mut out: Vec<String> = Vec::new();
    let mut j: usize = 0;
    while j < n
        invariant
            j <= n,
            from + n <= usize::MAX,
            want == numbered(prefix@, from as int, n as nat),
            text::views(out@) == want.take(j as int),
        decreases n - j,
    {
        let d = dec_text((from + j + 1) as u64);
        let s = cat2(prefix, d.as_str());
        proof {
            views::lemma_list_push(out@, s);
        }
        out.push(s);
        assert(want.take(j + 1) =~= want.take(j as int).push(want[j as int]));
        j += 1;
    }
    assert(want.take(j as int) =~= want);
    out
}

// ---------------------------------------------------------------------------
// Batches
// ---------------------------------------------------------------------------

/// The values of all rows, one row after the other.
pub open spec fn flat(rows: Seq<Seq<Val>>) -> Seq<Val>
    decreases rows.len(),
{
    if rows.len() == 0 {
        Seq::empty()
    } else {
        flat(rows.drop_last()) + rows.last()
    }
}

/// The position of the first row whose width is not `n`, or the number of rows.
pub open spec fn first_ragged(rows: Seq<Seq<Val>>, n: nat) -> int
    decreases rows.len(),
{
    if rows.len() == 0 {
        0
    } else if first_ragged(rows.drop_last(), n) < rows.len() - 1 {
        first_ragged(rows.drop_last(), n)
    } else if rows.last().len() != n {
        rows.len() - 1
    } else {
        rows.len() as int
    }
}

pub proof fn lemma_first_ragged(rows: Seq<Seq<Val>>, n: nat)
    ensures
        0 <= first_ragged(rows, n) <= rows.len(),
        forall|i: int| 0 <= i < first_ragged(rows, n) ==> #[trigger] rows[i].len() == n,
        first_ragged(rows, n) < rows.len() ==> rows[first_ragged(rows, n)].len() != n,
    decreases rows.len(),
{
    if rows.len() > 0 {
        let r = rows.drop_last();
        lemma_first_ragged(r, n);
        assert forall|i: int| 0 <= i < first_ragged(rows, n) implies #[trigger] rows[i].len() == n by {
            if i < r.len() {
                assert(rows[i] == r[i]);
            }
        }
    }
}

/// The width check stops at the first ragged row.
pub fn find_ragged(rows: &Vec<Vec<Value>>, n: usize) -> (out: usize)
    ensures
        out == first_ragged(views::lists(rows@), n as nat),
        out <= rows.len(),
        forall|i: int| 0 <= i < out ==> (#[trigger] rows@[i]).len() == n,
        out < rows.len() ==> rows@[out as int].len() != n,
{
    let ghost all = views::lists(rows@);
    proof {
        lemma_first_ragged(all, n as nat);
    }
    let mut i: usize = 0;
    while i < rows.len()
        invariant
            i <= rows.len(),
            all == views::lists(rows@),
            forall|j: int| 0 <= j < i ==> (#[trigger] rows@[j]).len() == n,
            0 <= first_ragged(all, n as nat) <= all.len(),
            forall|j: int| 0 <= j < first_ragged(all, n as nat) ==> #[trigger] all[j].len() == n,
            first_ragged(all, n as nat) < all.len() ==> all[first_ragged(all, n as nat)].len() != n,
        decreases rows.len() - i,
    {
        if rows[i].len() != n {
            let ghost f = first_ragged(all, n as nat);
            assert(all[i as int].len() != n);
            assert(f <= i);
            assert(f < i ==> all[f].len() == rows@[f].len());
            return i;
        }
        i += 1;
    }
    proof {
        let f = first_ragged(all, n as nat);
        assert(f < all.len() ==> all[f].len() == rows@[f].len());
    }
    i
}

/// The values of all rows, each bound.
pub open spec fn binds(rows: Seq<Seq<Val>>, booleans: bool) -> Seq<BindV> {
    flat(rows).map_values(|v: Val| bound(v, booleans))
}

pub fn bind_all(rows: &Vec<Vec<Value>>, booleans: bool) -> (out: Vec<Bind>)
    ensures
        views::list(out@) == binds(views::lists(rows@), booleans),
{
    let ghost all = views::lists(rows@);
    let mut out: Vec<Bind> = Vec::new();
    let mut i: usize = 0;
    assert(views::list(out@) =~= binds(all.take(0), booleans));
    while i < rows.len()
        invariant
            i <= rows.len(),
            all == views::lists(rows@),
            views::list(out@) == binds(all.take(i as int), booleans),
        decreases rows.len() - i,
    {
        let ghost row = all[i as int];
        let ghost base = binds(all.take(i as int), booleans);
        let ghost add = row.map_values(|v: Val| bound(v, booleans));
        let mut j: usize = 0;
        assert(base + add.take(0) =~= base);
        while j < rows[i as usize].len()
            invariant
                i < rows.len(),
                j <= rows@[i as int].len(),
                row == views::list(rows@[i as int]@),
                add == row.map_values(|v: Val| bound(v, booleans)),
                views::list(out@) == base + add.take(j as int),
            decreases rows@[i as int].len() - j,
        {
            let b = bind(&rows[i][j], booleans);
            proof {
                views::lemma_list_push(out@, b);
            }
            out.push(b);
            assert(base + add.take(j + 1) =~= (base + add.take(j as int)).push(add[j as int]));
            j += 1;
        }
        assert(all.take(i + 1).drop_last() =~= all.take(i as int));
        assert(all.take(i + 1).last() == row);
        assert(binds(all.take(i + 1), booleans) =~= base + add.take(j as int));
        i += 1;
    }
    assert(all.take(i as int) =~= all);
    out
}

proof fn lemma_flat_len(rows: Seq<Seq<Val>>, n: nat)
    requires
        forall|i: int| 0 <= i < rows.len() ==> #[trigger] rows[i].len() == n,
    ensures
        flat(rows).len() == rows.len() * n,
    decreases rows.len(),
{
    if rows.len() > 0 {
        let r = rows.drop_last();
        assert forall|i: int| 0 <= i < r.len() implies #[trigger] r[i].len() == n by {
            assert(r[i] == rows[i]);
        }
        lemma_flat_len(r, n);
        assert(rows[rows.len() - 1].len() == n);
        assert(r.len() * n + n == rows.len() * n) by (nonlinear_arith)
            requires
                r.len() + 1 == rows.len(),
        ;
    } else {
        assert(0 * n == 0);
    }
}

/// The number of values in a batch of even rows.
pub proof fn lemma_binds_len(rows: Seq<Seq<Val>>, n: nat, booleans: bool)
    requires
        first_ragged(rows, n) == rows.len(),
    ensures
        binds(rows, booleans).len() == rows.len() * n,
        flat(rows).len() == rows.len() * n,
{
    lemma_first_ragged(rows, n);
    lemma_flat_len(rows, n);
}

pub proof fn lemma_row_fits(i: int, rows: int, n: int)
    requires
        0 <= i < rows,
        n >= 0,
    ensures
        i * n + n <= rows * n,
        0 <= i * n,
        (i + 1) * n == i * n + n,
{
    assert(i * n + n <= rows * n && 0 <= i * n && (i + 1) * n == i * n + n) by (nonlinear_arith)
        requires
            0 <= i < rows,
            n >= 0,
    ;
}

/// Law: in a batch of rows of width `n`, the value of row `i` and column `j` is
/// bound as number `i * n + j + 1`.
pub proof fn law_batch_is_row_major(rows: Seq<Seq<Val>>, n: nat, i: int, j: int)
    requires
        forall|k: int| 0 <= k < rows.len() ==> #[trigger] rows[k].len() == n,
        0 <= i < rows.len(),
        0 <= j < n,
    ensures
        flat(rows).len() == rows.len() * n,
        0 <= i * n + j < flat(rows).len(),
        flat(rows)[i * n + j] == rows[i][j],
    decreases rows.len(),
{
    let r = rows.drop_last();
    lemma_flat_len(rows, n);
    assert forall|k: int| 0 <= k < r.len() implies #[trigger] r[k].len() == n by {
        assert(r[k] == rows[k]);
    }
    lemma_flat_len(r, n);
    assert(rows[i].len() == n);
    assert(0 <= i * n) by (nonlinear_arith)
        requires
            i >= 0,
            n >= 0,
    ;
    if i == rows.len() - 1 {
        assert(r.len() == i);
        assert(rows.len() * n == i * n + n) by (nonlinear_arith)
            requires
                rows.len() == i + 1,
        ;
    } else {
        law_batch_is_row_major(r, n, i, j);
    }
}

/// Law: in a batch of rows of width `n`, the placeholder of row `i` and column
/// `j` carries the number at which that row's value is bound.
pub proof fn law_placeholder_names_its_value(
    rows: Seq<Seq<Val>>,
    n: nat,
    prefix: Seq<char>,
    booleans: bool,
    i: int,
    j: int,
)
    requires
        forall|k: int| 0 <= k < rows.len() ==> #[trigger] rows[k].len() == n,
        0 <= i < rows.len(),
        0 <= j < n,
    ensures
        numbered(prefix, i * n, n)[j] == prefix + text::dec((i * n + j + 1) as nat),
        0 <= i * n + j < binds(rows, booleans).len(),
        binds(rows, booleans)[i * n + j] == bound(rows[i][j], booleans),
{
    law_batch_is_row_major(rows, n, i, j);
}

pub open spec fn width_fault(values: nat, columns: nat) -> Seq<char> {
    "has "@ + text::dec(values) + " values, expected "@ + text::dec(columns)
}

/// What is wrong with a row of the wrong width.
pub fn width_words(values: usize, columns: usize) -> (out: String)
    ensures
        out@ == width_fault(values as nat, columns as nat),
{
    let a = dec_text(values as u64);
    let b = dec_text(columns as u64);
    text::cat4("has ", a.as_str(), " values, expected ", b.as_str())
}

// ---------------------------------------------------------------------------
// Rows and schemas
// ---------------------------------------------------------------------------

/// The cells stored one after the other: of two with one name the later stays.
pub open spec fn stored(cells: Seq<(Seq<char>, Val)>) -> Cells
    decreases cells.len(),
{
    if cells.len() == 0 {
        Seq::empty()
    } else {
        strmap::put(stored(cells.drop_last()), cells.last().0, cells.last().1)
    }
}

/// A row from the names and values that a driver hands out.
pub fn row_of(cells: &Vec<(String, Value)>) -> (out: Row)
    ensures
        out@ == stored(strmap::entries_view(cells@)),
{
    let ghost all = strmap::entries_view(cells@);
    let mut out = Row::new();
    let mut i: usize = 0;
    assert(all.take(0) =~= Seq::empty());
    while i < cells.len()
        invariant
            i <= cells.len(),
            all == strmap::entries_view(cells@),
            out@ == stored(all.take(i as int)),
        decreases cells.len() - i,
    {
        assert(all.take(i + 1).drop_last() =~= all.take(i as int));
        assert(all.take(i + 1).last() == all[i as int]);
        out.insert(cells[i].0.clone(), cells[i].1.clone());
        i += 1;
    }
    assert(all.take(i as int) =~= all);
    out
}

/// A date without the time of day.
pub open spec fn day_format() -> Seq<char> {
    "%Y-%m-%d"@
}

/// A date and time with microseconds.
pub open spec fn stamp_format() -> Seq<char> {
    "%Y-%m-%d %H:%M:%S%.6f"@
}

/// A point in time as a value; null where it lies outside the calendar.
pub open spec fn dated(t: Moment, format: Seq<char>) -> Val {
    match clock::chrono_text(t.secs, t.nanos, t.offset, format) {
        Some(s) => Val::Date(s),
        None => Val::Null,
    }
}

pub fn date_value(t: Moment, format: &str) -> (out: Value)
    ensures
        out@ == dated(t, format@),
{
    match moment_text(t, format) {
        Some(s) => Value::Date(s),
        None => Value::Null,
    }
}

/// A table's structure, or the error that a table without columns is.
pub open spec fn structure(table: Seq<char>, columns: Seq<ColumnV>, lacking: Seq<char>) -> Result<
    TableSchemaV,
    DatasourceErrorV,
> {
    if columns.len() == 0 {
        Err(DatasourceErrorV::Schema("table '"@ + table + "' not found in "@ + lacking))
    } else {
        Ok(TableSchemaV { table, columns })
    }
}

pub fn schema_of(table: &str, columns: Vec<Column>, lacking: &str) -> (out: Result<TableSchema, DatasourceError>)
    ensures
        views::res(out) == structure(table@, views::list(columns@), lacking@),
{
    if columns.len() == 0 {
        Err(DatasourceError::Schema(text::cat4("table '", table, "' not found in ", lacking)))
    } else {
        Ok(TableSchema { table: copy(table), columns })
    }
}

/// The refusal of a connection of another type.
pub open spec fn wrong_type(plugin: Seq<char>, conn_type: Seq<char>) -> DatasourceErrorV {
    DatasourceErrorV::Connection("plugin '"@ + plugin + "' cannot open connection type '"@ + conn_type + "'"@)
}

pub fn refuse_type(plugin: &str, conn_type: &str) -> (out: DatasourceError)
    ensures
        out@ == wrong_type(plugin@, conn_type@),
{
    DatasourceError::Connection(cat5("plugin '", plugin, "' cannot open connection type '", conn_type, "'"))
}

/// A number of at least one.
pub open spec fn at_least_one(n: int) -> int {
    if n < 1 {
        1
    } else {
        n
    }
}

/// The seconds to wait for a connection: at least one.
pub fn wait_secs(cfg: &ConnectionConfig) -> (out: u64)
    ensures
        out == at_least_one(cfg.connect_timeout_secs as int),
{
    if cfg.connect_timeout_secs < 1 {
        1
    } else {
        cfg.connect_timeout_secs
    }
}

/// The size of the connection pool: at least one.
pub fn pool_limit(cfg: &ConnectionConfig) -> (out: u32)
    ensures
        out == at_least_one(cfg.max_pool_size as int),
{
    if cfg.max_pool_size < 1 {
        1
    } else {
        cfg.max_pool_size
    }
}

/// Law: the other columns are just those that are not taken, in their order.
pub proof fn law_others_are_those_not_taken(names: Seq<Seq<char>>, taken: Seq<Seq<char>>)
    ensures
        others(names, taken) == names.filter(|c: Seq<char>| !taken.contains(c)),
    decreases names.len(),
{
    reveal(Seq::filter);
    if names.len() > 0 {
        law_others_are_those_not_taken(names.drop_last(), taken);
    }
}

/// Law: the first ragged row is the first one of another width; where there is
/// none, all rows have the width.
pub proof fn law_first_ragged_is_the_first(rows: Seq<Seq<Val>>, n: nat)
    ensures
        0 <= first_ragged(rows, n) <= rows.len(),
        first_ragged(rows, n) < rows.len() ==> rows[first_ragged(rows, n)].len() != n,
        forall|i: int| 0 <= i < first_ragged(rows, n) ==> (#[trigger] rows[i]).len() == n,
    decreases rows.len(),
{
    if rows.len() > 0 {
        let head = rows.drop_last();
        law_first_ragged_is_the_first(head, n);
        assert forall|i: int| 0 <= i < first_ragged(rows, n) implies (#[trigger] rows[i]).len() == n by {
            if i < head.len() {
                assert(head[i] == rows[i]);
            }
        }
        if first_ragged(head, n) < head.len() {
            assert(head[first_ragged(head, n)] == rows[first_ragged(head, n)]);
        }
    }
}

/// Law: a bound value is the value: null for null, a whole number by its number, a
/// text, decimal or date by its text, bytes by themselves. A whole number that
/// does not fit is taken modulo the machine word. Booleans are booleans where the
/// database has them, else 0 and 1.
pub proof fn law_bound_values_are_the_values(v: Val, booleans: bool)
    ensures
        bound(v, booleans) is Null <==> v is Null,
        v matches Val::Int(i) ==> bound(v, booleans) == BindV::Int(i),
        v matches Val::UInt(u) ==> (bound(v, booleans) matches BindV::Int(i) && (u <= i64::MAX ==> i == u) && (u > i64::MAX
            ==> i == u - 0x1_0000_0000_0000_0000)),
        v.text() matches Some(s) ==> bound(v, booleans) == BindV::Text(s),
        v matches Val::Bytes(b) ==> bound(v, booleans) == BindV::Bytes(b),
        v matches Val::Float(f) ==> bound(v, booleans) == BindV::Float(f),
        v matches Val::Bool(b) ==> bound(v, true) == BindV::Bool(b) && (bound(v, false) matches BindV::Int(i) && (i == 1
            <==> b) && (i == 0 <==> !b)),
{
}

/// Law: the placeholder with the number `i * n + j + 1` stands for the value in
/// row `i`, column `j`, and there is one for each value.
pub proof fn law_parameters_are_row_major(rows: Seq<Seq<Val>>, n: nat, booleans: bool, i: int, j: int)
    requires
        forall|k: int| 0 <= k < rows.len() ==> #[trigger] rows[k].len() == n,
        0 <= i < rows.len(),
        0 <= j < n,
    ensures
        binds(rows, booleans).len() == rows.len() * n,
        binds(rows, booleans)[i * n + j] == bound(rows[i][j], booleans),
{
    law_batch_is_row_major(rows, n, i, j);
}

/// What a page query has behind the query: the number of rows and the offset.
pub open spec fn page_at(s: Seq<char>) -> Option<(nat, nat)> {
    match reading::after(s, " LIMIT "@) {
        None => None,
        Some(a) => match reading::numeral_at(a) {
            None => None,
            Some((limit, b)) => match reading::after(b, " OFFSET "@) {
                None => None,
                Some(c) => match reading::numeral_at(c) {
                    None => None,
                    Some((offset, d)) => if d.len() == 0 {
                        Some((limit, offset))
                    } else {
                        None
                    },
                },
            },
        },
    }
}

/// Law: a page query is the query with the number of rows and the offset that were
/// asked for.
pub proof fn law_page_limits_the_query(sql: Seq<char>, offset: u64, limit: u64)
    ensures
        text::starts_with(limit_page(sql, offset, limit), bare(sql)),
        page_at(limit_page(sql, offset, limit).skip(bare(sql).len() as int)) == Some((limit as nat, offset as nat)),
{
    reveal_strlit(" OFFSET ");
    let none = Seq::<char>::empty();
    let m = text::dec(offset as nat);
    let n = text::dec(limit as nat);
    let b = " OFFSET "@ + m;
    let t = " LIMIT "@ + (n + b);
    reading::lemma_regroup(bare(sql) + " LIMIT "@ + n, " OFFSET "@, m);
    reading::lemma_regroup(bare(sql) + " LIMIT "@, n, b);
    reading::lemma_regroup(bare(sql), " LIMIT "@, n + b);
    assert((bare(sql) + t).take(bare(sql).len() as int) =~= bare(sql));
    assert((bare(sql) + t).skip(bare(sql).len() as int) =~= t);
    reading::lemma_after(" LIMIT "@, n + b);
    assert(b[0] == ' ');
    reading::law_numeral_reads_back(limit as nat, b);
    reading::lemma_after(" OFFSET "@, m);
    assert(m + none =~= m);
    reading::law_numeral_reads_back(offset as nat, none);
}

/// Law: a query loses the white space round it and the semicolons at its end, and
/// nothing else.
pub proof fn law_bare_query_is_the_query(a: Seq<char>, q: Seq<char>, semicolons: nat, b: Seq<char>)
    requires
        text::blank(a),
        text::blank(b),
        q.len() > 0,
        !text::is_space(q[0]),
        !text::is_space(q.last()),
        q.last() != ';',
    ensures
        bare(a + (q + Seq::new(semicolons, |i: int| ';')) + b) == q,
{
    reveal_strlit(";");
    let t = Seq::new(semicolons, |i: int| ';');
    let s = q + t;
    assert(s[0] == q[0]);
    assert(t.len() > 0 ==> s.last() == t.last());
    assert(t.len() == 0 ==> s =~= q);
    text::law_trim_takes_off_outer_space(a, s, b);
    assert(";"@[0] == ';');
    assert forall|i: int| 0 <= i < t.len() implies ";"@.contains(#[trigger] t[i]) by {
        assert(";"@[0] == t[i]);
    }
    assert forall|c: char| #[trigger] ";"@.contains(c) implies c == ';' by {}
    text::law_trim_end_takes_off_its_set(q, t, ";"@);
}

/// Law: the row of some cells holds each cell under its column; of two for one
/// column the last one counts.
pub proof fn law_row_holds_its_cells(cells: Seq<(Seq<char>, Val)>, k: Seq<char>, v: Val, c: Seq<char>)
    ensures
        strmap::ordered(stored(cells)),
        strmap::at(stored(Seq::empty()), c) is None,
        strmap::at(stored(cells.push((k, v))), c) == (if c == k {
            Some(v)
        } else {
            strmap::at(stored(cells), c)
        }),
    decreases cells.len(),
{
    assert(cells.push((k, v)).drop_last() =~= cells);
    if cells.len() > 0 {
        law_row_holds_its_cells(cells.drop_last(), cells.last().0, cells.last().1, c);
        assert(cells.drop_last().push(cells.last()) =~= cells);
        strmap::lemma_put(stored(cells.drop_last()), cells.last().0, cells.last().1);
    }
    strmap::lemma_put(stored(cells), k, v);
    strmap::lemma_dict(stored(cells), c);
    strmap::lemma_dict(stored(cells.push((k, v))), c);
}

/// Law: a table has a structure just where it has columns, and then all of them.
pub proof fn law_table_with_columns_has_a_structure(table: Seq<char>, columns: Seq<ColumnV>, lacking: Seq<char>)
    ensures
        structure(table, columns, lacking) is Ok <==> columns.len() > 0,
        structure(table, columns, lacking) matches Ok(t) ==> t.table == table && t.columns == columns,
        structure(table, columns, lacking) is Err ==> structure(table, columns, lacking)->Err_0 is Schema,
{
}

/// Law: a limit stays, but is never less than one.
pub proof fn law_limits_are_at_least_one(n: int)
    ensures
        at_least_one(n) >= 1,
        at_least_one(n) >= n,
        at_least_one(n) == 1 || at_least_one(n) == n,
{
}

/// Law: a date and time is written like the date, with the time of day behind it
/// from the hours down.
pub proof fn law_stamps_begin_with_the_day()
    ensures
        text::starts_with(stamp_format(), day_format() + " %H:%M:%S"@),
        text::starts_with(day_format(), "%Y-%m"@),
{
    reveal_strlit("%Y-%m");
    reveal_strlit("%Y-%m-%d");
    reveal_strlit(" %H:%M:%S");
    reveal_strlit("%Y-%m-%d %H:%M:%S%.6f");
    let p = day_format() + " %H:%M:%S"@;
    assert(stamp_format().take(p.len() as int) =~= p);
    assert(day_format().take(5) =~= "%Y-%m"@);
}

/// Law: the values of a batch are those of its rows, one row after the other.
pub proof fn law_values_follow_row_by_row(rows: Seq<Seq<Val>>)
    ensures
        flat(rows) == rows.flatten(),
    decreases rows.len(),
{
    rows.lemma_flatten_and_flatten_alt_are_equivalent();
    if rows.len() > 0 {
        law_values_follow_row_by_row(rows.drop_last());
        rows.drop_last().lemma_flatten_and_flatten_alt_are_equivalent();
    }
}

/// Law: the refusal of a connection of another type names the plugin first and the
/// type last.
pub proof fn law_wrong_type_names_both(plugin: Seq<char>, conn_type: Seq<char>)
    ensures
        wrong_type(plugin, conn_type) matches DatasourceErrorV::Connection(s) && text::starts_with(s, "plugin '"@ + plugin)
            && text::ends_with(s, conn_type + "'"@),
{
    let p = "plugin '"@ + plugin;
    let m = "' cannot open connection type '"@;
    let e = conn_type + "'"@;
    reading::lemma_regroup(p + m, conn_type, "'"@);
    reading::lemma_regroup(p, m, e);
    text::law_parts_are_found(p + m, e, Seq::empty());
    text::law_parts_are_found(Seq::empty(), p, m + e);
}

/// Law: the fault of a row tells how many values it has and how many columns there
/// are.
pub proof fn law_width_fault_tells_both_numbers(values: nat, columns: nat)
    ensures
        reading::after(width_fault(values, columns), "has "@) matches Some(a) && reading::numeral_at(a) matches Some((n, b))
            && n == values && (reading::after(b, " values, expected "@) matches Some(c) && reading::numeral_at(
            c + Seq::<char>::empty(),
        ) == Some((columns, Seq::<char>::empty()))),
{
    reveal_strlit(" values, expected ");
    let none = Seq::<char>::empty();
    let m = text::dec(columns);
    let b = " values, expected "@ + m;
    reading::lemma_regroup("has "@ + text::dec(values), " values, expected "@, m);
    reading::lemma_regroup("has "@, text::dec(values), b);
    reading::lemma_after("has "@, text::dec(values) + b);
    assert(b[0] == ' ');
    reading::law_numeral_reads_back(values, b);
    reading::lemma_after(" values, expected "@, m);
    reading::law_numeral_reads_back(columns, none);
}

/// Law: a moment that has a text in the format is the date of that text; one that has
/// none is null.
pub proof fn law_moment_is_the_date_of_its_text(t: Moment, format: Seq<char>)
    ensures
        clock::chrono_text(t.secs, t.nanos, t.offset, format) matches Some(s) ==> dated(t, format) == Val::Date(s),
        clock::chrono_text(t.secs, t.nanos, t.offset, format) is None ==> dated(t, format) is Null,
{
}

} // verus!

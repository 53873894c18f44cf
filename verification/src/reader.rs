//! Paginated source reader.
//!
//! Builds `SELECT <cols> FROM <table> WHERE <expanded template>` and walks it
//! page by page with `Datasource::query_page`. High-water-mark state is read
//! (immutably) at construction and updated by the job runner afterwards.

use vstd::prelude::*;

use crate::clock::Moment;
use crate::datasource::Datasource;
use crate::error::{AppError, AppErrorV, AppResult, DatasourceError, DatasourceErrorV};
use crate::float;
use crate::float::{double_of_signed, double_of_unsigned, is_below, read_float};
use crate::job::{SourceConfig, SourceV, StateSpec, StateSpecs};
use crate::json;
use crate::link::{Ask, Link};
use crate::model;
use crate::model::{Cells, Column, ColumnV, Row, TableSchema, TableSchemaV, Val, Value};
use crate::reading;
use crate::sql;
use crate::sql::quote_all;
use crate::state::StateStore;
use crate::strmap;
use crate::strmap::StrMap;
use crate::templates;
use crate::templates::{state_to_literal, Answers, Template};
use crate::text;
use crate::tokens::PieceV;
use crate::text::{
    cat3, cat4, cat5, copy, dec_text, has_part, has_prefix, is_less, joined, quote, same, to_lower,
    trimmed, trimmed_end_any,
};
use crate::views;

verus! {

// ---------------------------------------------------------------------------
// Comparing values
// ---------------------------------------------------------------------------

/// The double that a value counts as, by its bit pattern.
pub open spec fn number(v: Val) -> Option<u64> {
    match v {
        Val::Int(i) => Some(float::double_of(i as int)),
        Val::UInt(u) => Some(float::double_of(u as int)),
        Val::Float(f) => Some(f.bits),
        Val::Decimal(s) => match float::reading(text::trim(s)) {
            Some(f) => Some(f.bits),
            None => None,
        },
        _ => None,
    }
}

pub fn num(v: &Value) -> (out: Option<u64>)
    ensures
        out == number(v@),
        match v@ {
            Val::Int(i) => out is Some && float::rounds(i as int, out->Some_0),
            Val::UInt(u) => out is Some && float::rounds(u as int, out->Some_0),
            Val::Decimal(s) => float::whole_number(text::trim(s)) matches Some(i) ==> out is Some && float::rounds(
                i,
                out->Some_0,
            ),
            _ => true,
        },
{
    match v {
        Value::Int(i) => Some(double_of_signed(*i)),
        Value::UInt(u) => Some(double_of_unsigned(*u)),
        Value::Float(f) => Some(f.bits),
        Value::Decimal(s) => {
            let t = trimmed(s.as_str());
            match read_float(t.as_str()) {
                Some(f) => Some(f.bits),
                None => None,
            }
        },
        _ => None,
    }
}

/// Strictly greater: numbers by value, else texts by their characters; values
/// of other kinds do not compare.
pub open spec fn greater(a: Val, b: Val) -> bool {
    match (number(a), number(b)) {
        (Some(x), Some(y)) => float::below(y, x),
        _ => match (a.text(), b.text()) {
            (Some(x), Some(y)) => text::less(y, x),
            _ => false,
        },
    }
}

/// Strictly-greater comparison across numeric and string/date values.
pub fn value_gt(a: &Value, b: &Value) -> (out: bool)
    ensures
        out == greater(a@, b@),
{
    match (num(a), num(b)) {
        (Some(x), Some(y)) => is_below(y, x),
        _ => match (a.as_str(), b.as_str()) {
            (Some(x), Some(y)) => is_less(y, x),
            _ => false,
        },
    }
}

/// Law: no value is greater than itself, and of two values at most one is
/// greater than the other.
pub proof fn law_greater_is_one_way(a: Val, b: Val)
    ensures
        !greater(a, a),
        greater(a, b) ==> !greater(b, a),
{
    if let Some(x) = a.text() {
        text::lemma_less_irreflexive(x);
        if let Some(y) = b.text() {
            if text::less(x, y) && text::less(y, x) {
                text::lemma_less_transitive(x, y, x);
            }
        }
    }
}

// ---------------------------------------------------------------------------
// Comparing marks
// ---------------------------------------------------------------------------

/// The double that a value counts as where it may be a high-water mark: a number
/// by its value, and a text that is a numeral by the number it stands for. A mark
/// comes back from its file as text, so how it was stored makes no difference.
pub open spec fn numeral(v: Val) -> Option<u64> {
    match number(v) {
        Some(x) => Some(x),
        None => match v.text() {
            None => None,
            Some(s) => match float::reading(text::trim(s)) {
                None => None,
                Some(f) => if float::finite(f.bits) {
                    Some(f.bits)
                } else {
                    None
                },
            },
        },
    }
}

/// Whether a value lies above a mark. The value says which order its column has:
/// a number lies above a numeral by value, a text above a text by its characters.
pub open spec fn rises(v: Val, mark: Val) -> bool {
    match number(v) {
        Some(x) => match numeral(mark) {
            Some(y) => float::below(y, x),
            None => false,
        },
        None => match (v.text(), mark.text()) {
            (Some(x), Some(y)) => text::less(y, x),
            _ => false,
        },
    }
}

/// The whole number that a value stands for, up to and including the 53rd power
/// of two: a number by its value, and a text that is its numeral. Zero counts
/// only as a number.
pub open spec fn whole(v: Val) -> Option<int> {
    let i = match v {
        Val::Int(i) => Some(i as int),
        Val::UInt(u) => Some(u as int),
        Val::Decimal(s) => float::whole_number(text::trim(s)),
        _ => match v.text() {
            Some(s) => float::whole_number(text::trim(s)),
            None => None,
        },
    };
    match i {
        Some(n) => if -0x20_0000_0000_0000 <= n <= 0x20_0000_0000_0000 {
            Some(n)
        } else {
            None
        },
        None => None,
    }
}

fn read_numeral(v: &Value) -> (out: Option<u64>)
    ensures
        out == numeral(v@),
        whole(v@) matches Some(i) ==> out is Some && float::rounds(i, out->Some_0),
{
    match num(v) {
        Some(x) => Some(x),
        None => match v.as_str() {
            None => None,
            Some(s) => {
                let t = trimmed(s);
                match read_float(t.as_str()) {
                    None => None,
                    Some(f) => if float::is_finite(f.bits) {
                        Some(f.bits)
                    } else {
                        None
                    },
                }
            },
        },
    }
}

/// Whether a value lies above a high-water mark. Whole numbers compare by value
/// with each other and with numerals.
pub fn value_rises(v: &Value, mark: &Value) -> (out: bool)
    ensures
        out == rises(v@, mark@),
        !(v@ is String || v@ is Date) && whole(v@) is Some && whole(mark@) is Some ==> out == (whole(v@)->Some_0
            > whole(mark@)->Some_0),
{
    match num(v) {
        Some(x) => match read_numeral(mark) {
            Some(y) => {
                proof {
                    if let (Some(i), Some(j)) = (whole(v@), whole(mark@)) {
                        float::law_small_whole_numbers_compare_by_value(j, i, y, x);
                    }
                }
                is_below(y, x)
            },
            None => false,
        },
        None => match (v.as_str(), mark.as_str()) {
            (Some(x), Some(y)) => is_less(y, x),
            _ => false,
        },
    }
}

/// Whether two values are of one kind: both numbers, or both none.
pub open spec fn same_kind(a: Val, b: Val) -> bool {
    number(a) is Some <==> number(b) is Some
}

/// Law: values of one kind are strictly ordered: none lies above itself, of two
/// at most one lies above the other, and what lies above a value lies above all
/// marks that it lies above, however those are stored.
pub proof fn law_marks_are_strictly_ordered(a: Val, b: Val, c: Val)
    ensures
        !rises(a, a),
        same_kind(a, b) && rises(a, b) ==> !rises(b, a),
        same_kind(b, c) && rises(c, b) && rises(b, a) ==> rises(c, a),
{
    if let Some(x) = a.text() {
        text::lemma_less_irreflexive(x);
        if let Some(y) = b.text() {
            if text::less(x, y) && text::less(y, x) {
                text::lemma_less_transitive(x, y, x);
            }
            if let Some(z) = c.text() {
                if text::less(x, y) && text::less(y, z) {
                    text::lemma_less_transitive(x, y, z);
                }
            }
        }
    }
}

/// Law: of two texts that differ one lies above the other, whether or not they
/// are numerals: texts are in the order that [`value_gt`] gives them.
pub proof fn law_texts_are_totally_ordered(a: Val, b: Val)
    requires
        number(a) is None,
        number(b) is None,
        a.text() is Some,
        b.text() is Some,
    ensures
        a.text() != b.text() ==> rises(a, b) || rises(b, a),
        rises(a, b) == greater(a, b),
{
    text::lemma_less_total(a.text()->Some_0, b.text()->Some_0);
}

/// Law: a mark of whole or decimal numbers, texts or dates that was saved and
/// loaded compares as the mark that was saved. Left out are doubles, bytes, and
/// decimals that are no finite number.
pub proof fn law_reloaded_mark_compares_alike(v: Val, mark: Val)
    requires
        !(mark is Float) && !(mark is Bytes),
        mark is Decimal ==> (number(mark) matches Some(x) ==> float::finite(x)),
    ensures
        rises(v, json::flattened(mark)) == rises(v, mark),
{
}

// ---------------------------------------------------------------------------
// First runs
// ---------------------------------------------------------------------------

/// A safe lower bound for a first run, based on the column's native type.
pub open spec fn low_bound(data_type: Seq<char>) -> Seq<char> {
    let t = text::lower(data_type);
    if text::contains(t, "time"@) || text::contains(t, "date"@) {
        "'1970-01-01 00:00:00'"@
    } else if text::contains(t, "char"@) || text::contains(t, "text"@) || text::contains(t, "string"@) || text::contains(
        t,
        "uuid"@,
    ) || text::contains(t, "clob"@) {
        "''"@
    } else {
        "0"@
    }
}

pub fn default_literal(data_type: &str) -> (out: String)
    ensures
        out@ == low_bound(data_type@),
{
    let t = to_lower(data_type);
    if has_part(t.as_str(), "time") || has_part(t.as_str(), "date") {
        copy("'1970-01-01 00:00:00'")
    } else if has_part(t.as_str(), "char") || has_part(t.as_str(), "text") || has_part(t.as_str(), "string") || has_part(
        t.as_str(),
        "uuid",
    ) || has_part(t.as_str(), "clob") {
        copy("''")
    } else {
        copy("0")
    }
}

/// The literal of a state key: the stored value if present, else a
/// schema-derived low bound so the first run reads everything.
pub open spec fn state_default(
    values: Seq<(Seq<char>, Val)>,
    specs: StateSpecs,
    schema: Option<TableSchemaV>,
    key: Seq<char>,
) -> Result<Option<Seq<char>>, AppErrorV> {
    match strmap::at(values, key) {
        Some(v) => Ok(Some(v.literal())),
        None => match strmap::at(specs, key) {
            None => Err(
                AppErrorV::Template("state key '"@ + key + "' referenced but not declared in sync.state"@),
            ),
            Some(spec_of) => Ok(
                Some(
                    match schema {
                        Some(s) => match s.named(spec_of.column) {
                            Some(c) => low_bound(c.data_type),
                            None => "0"@,
                        },
                        None => "0"@,
                    },
                ),
            ),
        },
    }
}

/// Resolve `${state.key}` to a SQL literal.
pub fn resolve_state_default(
    state: &StateStore,
    specs: &StrMap<StateSpec>,
    schema: &Option<TableSchema>,
    key: &str,
) -> (out: AppResult<Option<String>>)
    ensures
        templates::answer(out) == state_default(state@.values, specs@, views::opt(*schema), key@),
{
    if let Some(v) = state.get(key) {
        return Ok(Some(state_to_literal(v)));
    }
    match specs.get(key) {
        None => Err(
            AppError::Template(cat3("state key '", key, "' referenced but not declared in sync.state")),
        ),
        Some(spec_of) => {
            let literal = match schema {
                Some(s) => match s.get(spec_of.column.as_str()) {
                    Some(c) => default_literal(c.data_type.as_str()),
                    None => copy("0"),
                },
                None => copy("0"),
            };
            Ok(Some(literal))
        },
    }
}

// ---------------------------------------------------------------------------
// Schema of a custom select
// ---------------------------------------------------------------------------

/// Coarse column type approximation from a sampled value.
pub open spec fn sampled_type(v: Val) -> Seq<char> {
    match v {
        Val::Null => "varchar"@,
        Val::String(_) => "varchar"@,
        Val::Bytes(_) => "varchar"@,
        Val::Bool(_) => "bool"@,
        Val::Int(_) => "bigint"@,
        Val::UInt(_) => "bigint"@,
        Val::Float(_) => "double"@,
        Val::Decimal(_) => "decimal"@,
        Val::Date(_) => "datetime"@,
    }
}

/// Only used to pick a safe first-run lower bound for `${state.*}` templates.
pub fn infer_type(v: &Value) -> (out: &'static str)
    ensures
        out@ == sampled_type(v@),
{
    match v {
        Value::Null => "varchar",
        Value::String(_) => "varchar",
        Value::Bytes(_) => "varchar",
        Value::Bool(_) => "bool",
        Value::Int(_) => "bigint",
        Value::UInt(_) => "bigint",
        Value::Float(_) => "double",
        Value::Decimal(_) => "decimal",
        Value::Date(_) => "datetime",
    }
}

/// The columns of a sample row, in the order of their names.
pub open spec fn sampled(row: Cells) -> TableSchemaV {
    TableSchemaV {
        table: "<custom-select>"@,
        columns: row.map_values(
            |e: (Seq<char>, Val)|
                ColumnV {
                    name: e.0,
                    data_type: sampled_type(e.1),
                    nullable: true,
                    is_primary: false,
                    ordinal: 0,
                },
        ),
    }
}

/// The structure of what a probe returned; none where it returned no row.
pub fn probe_schema(rows: &Vec<Row>) -> (out: Option<TableSchema>)
    ensures
        views::opt(out) == (if rows@.len() == 0 {
            None
        } else {
            Some(sampled(rows@[0]@))
        }),
{
    if rows.len() == 0 {
        return None;
    }
    let sample = &rows[0];
    let ghost want = sampled(sample@).columns;
    let mut columns: Vec<Column> = Vec::new();
    let mut i: usize = 0;
    while i < sample.data.len()
        invariant
            i <= sample@.len(),
            want == sampled(sample@).columns,
            views::list(columns@) == want.take(i as int),
        decreases sample@.len() - i,
    {
        let c = Column {
            name: copy(sample.data.key_at(i)),
            data_type: copy(infer_type(sample.data.value_at(i))),
            nullable: true,
            is_primary: false,
            ordinal: 0,
        };
        proof {
            views::lemma_list_push(columns@, c);
            assert(c@ == want[i as int]);
        }
        columns.push(c);
        assert(want.take(i + 1) =~= want.take(i as int).push(want[i as int]));
        i += 1;
    }
    assert(want.take(i as int) =~= want);
    Some(TableSchema { table: copy("<custom-select>"), columns })
}

/// The statement that fetches one row of an expanded select; none for an empty one.
pub open spec fn probe(conn_type: Seq<char>, select: Seq<char>) -> Option<Seq<char>> {
    let s = text::trim_end_any(text::trim(select), "; "@);
    if s == ""@ {
        None
    } else if text::starts_with(conn_type, "oracle"@) {
        Some("SELECT * FROM ("@ + s + ") WHERE ROWNUM <= 1"@)
    } else {
        Some("SELECT * FROM ("@ + s + ") dt_probe LIMIT 1"@)
    }
}

pub fn probe_sql(conn_type: &str, select: &str) -> (out: Option<String>)
    ensures
        views::opt(out) == probe(conn_type@, select@),
{
    let t = trimmed(select);
    let s = trimmed_end_any(t.as_str(), "; ");
    if same(s.as_str(), "") {
        None
    } else if has_prefix(conn_type, "oracle") {
        Some(cat3("SELECT * FROM (", s.as_str(), ") WHERE ROWNUM <= 1"))
    } else {
        Some(cat3("SELECT * FROM (", s.as_str(), ") dt_probe LIMIT 1"))
    }
}

// ---------------------------------------------------------------------------
// The query
// ---------------------------------------------------------------------------

/// The quote of names in a dialect.
pub open spec fn name_quote(conn_type: Seq<char>) -> char {
    if conn_type == "mysql"@ {
        '`'
    } else {
        '"'
    }
}

/// The generated query before its condition.
pub open spec fn base_query(columns: Seq<Seq<char>>, table: Seq<char>, q: char) -> Seq<char> {
    "SELECT "@ + (if columns.len() == 0 {
        "*"@
    } else {
        text::join(sql::quoted_all(columns, q), ", "@)
    }) + " FROM "@ + text::quoted(table, q)
}

/// Whether the results are what the texts came to, up to the first error.
pub open spec fn texts_give(a: Answers, t: Seq<Seq<char>>, results: Seq<Result<Seq<char>, AppErrorV>>) -> bool {
    &&& results.len() <= t.len()
    &&& forall|i: int| 0 <= i < results.len() ==> #[trigger] templates::gives(a, t[i], results[i])
    &&& forall|i: int| 0 <= i < results.len() - 1 ==> (#[trigger] results[i]) is Ok
    &&& results.len() == t.len() || (results.len() > 0 && results.last() is Err)
}

/// The texts, or the error that came last.
pub open spec fn gathered(results: Seq<Result<Seq<char>, AppErrorV>>) -> Result<Seq<Seq<char>>, AppErrorV> {
    if results.len() > 0 && results.last() is Err {
        Err(results.last()->Err_0)
    } else {
        Ok(results.map_values(|r: Result<Seq<char>, AppErrorV>| r->Ok_0))
    }
}

/// Whether `r` can be what the columns come to.
pub open spec fn columns_give(a: Answers, columns: Seq<Seq<char>>, r: Result<Seq<Seq<char>>, AppErrorV>) -> bool {
    exists|results: Seq<Result<Seq<char>, AppErrorV>>| #[trigger]
        texts_give(a, columns, results) && r == gathered(results)
}

/// Whether `r` can be what the condition comes to; nothing where there is none.
pub open spec fn condition_gives(a: Answers, w: Option<Seq<char>>, r: Result<Option<Seq<char>>, AppErrorV>) -> bool {
    match w {
        Some(c) => if text::trim(c) == ""@ {
            r == Ok::<Option<Seq<char>>, AppErrorV>(None)
        } else {
            match r {
                Ok(None) => false,
                Ok(Some(x)) => templates::gives(a, text::trim(c), Ok(x)),
                Err(e) => templates::gives(a, text::trim(c), Err(e)),
            }
        },
        None => r == Ok::<Option<Seq<char>>, AppErrorV>(None),
    }
}

/// A query with its condition.
pub open spec fn whole_query(base: Seq<char>, condition: Option<Seq<char>>) -> Seq<char> {
    match condition {
        Some(c) => base + " WHERE "@ + c,
        None => base,
    }
}

/// Whether `r` can be the query that is generated for a table.
pub open spec fn table_gives(a: Answers, source: SourceV, q: char, r: Result<Seq<char>, AppErrorV>) -> bool {
    exists|c: Result<Seq<Seq<char>>, AppErrorV>| #[trigger]
        columns_give(a, source.columns, c) && (match c {
            Err(e) => r == Err::<Seq<char>, AppErrorV>(e),
            Ok(names) => with_condition(a, source, base_query(names, source.table, q), r),
        })
}

pub open spec fn with_condition(a: Answers, source: SourceV, base: Seq<char>, r: Result<Seq<char>, AppErrorV>) -> bool {
    exists|w: Result<Option<Seq<char>>, AppErrorV>| #[trigger]
        condition_gives(a, source.where_clause, w) && (match w {
            Err(e) => r == Err::<Seq<char>, AppErrorV>(e),
            Ok(cond) => r == Ok::<Seq<char>, AppErrorV>(whole_query(base, cond)),
        })
}

/// Whether `r` can be the reader's query: the custom select with its tokens
/// filled in, else the generated one.
pub open spec fn query_gives(a: Answers, source: SourceV, conn_type: Seq<char>, r: Result<Seq<char>, AppErrorV>) -> bool {
    match source.select {
        Some(s) => if text::trim(s) == ""@ {
            r == Err::<Seq<char>, AppErrorV>(
                AppErrorV::Config("job source '"@ + source.table + "': 'select' must not be empty"@),
            )
        } else {
            templates::gives(a, text::trim(s), r)
        },
        None => if source.table == ""@ {
            r == Err::<Seq<char>, AppErrorV>(
                AppErrorV::Config("source has no 'table' and no 'select' to build a query from"@),
            )
        } else {
            table_gives(a, source, name_quote(conn_type), r)
        },
    }
}

pub open spec fn names_view(r: AppResult<Vec<String>>) -> Result<Seq<Seq<char>>, AppErrorV> {
    match r {
        Ok(v) => Ok(text::views(v@)),
        Err(e) => Err(e@),
    }
}

fn expand_columns<S, N>(columns: &Vec<String>, t: &Template<S, N>) -> (out: AppResult<Vec<String>>) where
    S: Fn(&str) -> AppResult<Option<String>>,
    N: Fn(i64) -> Option<Moment>,

    requires
        t.ready(),
    ensures
        columns_give(t.answers(), text::views(columns@), names_view(out)),
{
    let ghost a = t.answers();
    let ghost names = text::views(columns@);
    let ghost mut results: Seq<Result<Seq<char>, AppErrorV>> = Seq::empty();
    let mut out: Vec<String> = Vec::new();
    let mut i: usize = 0;
    while i < columns.len()
        invariant
            i <= columns.len(),
            t.ready(),
            a == t.answers(),
            names == text::views(columns@),
            results.len() == i,
            out@.len() == i,
            forall|k: int| 0 <= k < i ==> #[trigger] templates::gives(a, names[k], results[k]),
            forall|k: int| 0 <= k < i ==> (#[trigger] results[k]) == Ok::<Seq<char>, AppErrorV>(out@[k]@),
        decreases columns.len() - i,
    {
        let r = t.expand(columns[i].as_str());
        proof {
            let longer = results.push(views::res(r));
            assert(templates::gives(a, names[i as int], longer[i as int]));
            assert forall|k: int| 0 <= k < i + 1 implies #[trigger] templates::gives(a, names[k], longer[k]) by {
                assert(k < i ==> longer[k] == results[k]);
            }
            assert forall|k: int| 0 <= k < i implies (#[trigger] longer[k]) == Ok::<Seq<char>, AppErrorV>(out@[k]@) by {
                assert(longer[k] == results[k]);
            }
            results = longer;
        }
        match r {
            Ok(s) => {
                out.push(s);
            },
            Err(e) => {
                assert(texts_give(a, names, results));
                return Err(e);
            },
        }
        i += 1;
    }
    proof {
        assert(texts_give(a, names, results));
        let got = results.map_values(|r: Result<Seq<char>, AppErrorV>| r->Ok_0);
        assert(got =~= text::views(out@));
        assert(results.len() > 0 ==> results[results.len() - 1] is Ok);
    }
    Ok(out)
}

fn expand_condition<S, N>(w: &Option<String>, t: &Template<S, N>) -> (out: AppResult<Option<String>>) where
    S: Fn(&str) -> AppResult<Option<String>>,
    N: Fn(i64) -> Option<Moment>,

    requires
        t.ready(),
    ensures
        condition_gives(t.answers(), views::opt(*w), templates::answer(out)),
{
    match w {
        None => Ok(None),
        Some(c) => {
            let c = trimmed(c.as_str());
            if same(c.as_str(), "") {
                return Ok(None);
            }
            match t.expand(c.as_str()) {
                Ok(x) => Ok(Some(x)),
                Err(e) => Err(e),
            }
        },
    }
}

/// Build the reader's base query.
///
/// * If `source.select` is given it is used verbatim as the full SELECT (for
///   joins etc.); `${state.*}` / `${sys.now(...)}` templates are expanded. Any
///   `where` clause is ignored in this mode (put filtering inside the `select`).
/// * Otherwise generate `SELECT <cols> FROM <table> [WHERE <expanded>]`.
///
/// Pagination is added by each datasource's `query_page` (MySQL/PG
/// `LIMIT/OFFSET`, Oracle `OFFSET ROWS FETCH NEXT`).
pub fn build_select<S, N>(source: &SourceConfig, t: &Template<S, N>, conn_type: &str) -> (out: AppResult<String>) where
    S: Fn(&str) -> AppResult<Option<String>>,
    N: Fn(i64) -> Option<Moment>,

    requires
        t.ready(),
    ensures
        query_gives(t.answers(), source@, conn_type@, views::res(out)),
{
    let ghost a = t.answers();
    if let Some(s) = &source.select {
        let s = trimmed(s.as_str());
        if same(s.as_str(), "") {
            return Err(
                AppError::Config(cat3("job source '", source.table.as_str(), "': 'select' must not be empty")),
            );
        }
        return t.expand(s.as_str());
    }
    if same(source.table.as_str(), "") {
        return Err(AppError::Config(copy("source has no 'table' and no 'select' to build a query from")));
    }
    let q = if same(conn_type, "mysql") {
        '`'
    } else {
        '"'
    };
    let columns = expand_columns(&source.columns, t);
    let ghost c = names_view(columns);
    assert(columns_give(a, source@.columns, c));
    match columns {
        Err(e) => {
            assert(table_gives(a, source@, name_quote(conn_type@), Err(e@)));
            Err(e)
        },
        Ok(columns) => {
            let list = if columns.len() == 0 {
                copy("*")
            } else {
                let quoted = quote_all(&columns, q);
                joined(&quoted, ", ")
            };
            let table = quote(source.table.as_str(), q);
            let base = cat4("SELECT ", list.as_str(), " FROM ", table.as_str());
            assert(base@ == base_query(text::views(columns@), source@.table, q));
            let condition = expand_condition(&source.where_clause, t);
            let ghost w = templates::answer(condition);
            assert(condition_gives(a, source@.where_clause, w));
            let out = match condition {
                Err(e) => Err(e),
                Ok(None) => Ok(base),
                Ok(Some(x)) => Ok(cat3(base.as_str(), " WHERE ", x.as_str())),
            };
            assert(with_condition(a, source@, base@, views::res(out)));
            assert(table_gives(a, source@, name_quote(conn_type@), views::res(out)));
            out
        },
    }
}

/// A stable label for log/error output when no `table` is configured.
pub open spec fn label(source: SourceV) -> Seq<char> {
    if source.table == ""@ {
        "<custom-select>"@
    } else {
        source.table
    }
}

pub fn source_label(source: &SourceConfig) -> (out: &str)
    ensures
        out@ == label(source@),
{
    if same(source.table.as_str(), "") {
        "<custom-select>"
    } else {
        source.table.as_str()
    }
}

// ---------------------------------------------------------------------------
// The reader
// ---------------------------------------------------------------------------

/// Walks a query page by page.
pub struct Reader {
    pub sql: String,
    pub source: SourceConfig,
    pub schema: Option<TableSchema>,
    pub page_size: u64,
    pub offset: u64,
    pub done: bool,
}

/// What a [`Reader`] goes by.
#[verifier::ext_equal]
pub struct ReaderV {
    pub sql: Seq<char>,
    pub source: SourceV,
    pub schema: Option<TableSchemaV>,
    pub page_size: u64,
    pub offset: u64,
    pub done: bool,
}

impl View for Reader {
    type V = ReaderV;

    open spec fn view(&self) -> ReaderV {
        ReaderV {
            sql: self.sql@,
            source: self.source@,
            schema: views::opt(self.schema),
            page_size: self.page_size,
            offset: self.offset,
            done: self.done,
        }
    }
}

/// What a datasource answered to the question for rows.
pub open spec fn rows_answer(r: Result<Vec<Row>, DatasourceError>) -> Result<Seq<Cells>, DatasourceErrorV> {
    match r {
        Ok(v) => Ok(model::rows_view(v@)),
        Err(e) => Err(e@),
    }
}

/// What the reader of a query hands out.
pub open spec fn page_view(r: AppResult<Option<Vec<Row>>>) -> Result<Option<Seq<Cells>>, AppErrorV> {
    match r {
        Ok(Some(v)) => Ok(Some(model::rows_view(v@))),
        Ok(None) => Ok(None),
        Err(e) => Err(e@),
    }
}

impl ReaderV {
    /// The question for the next page, with its answer.
    pub open spec fn question(self, answer: Result<Seq<Cells>, DatasourceErrorV>) -> Ask {
        Ask::Page { at: self.source.connection, query: self.sql, offset: self.offset, limit: self.page_size, answer }
    }

    /// The reader once the datasource answered the question for the next page:
    /// behind it, or done where the page was empty or no further one can be
    /// asked for.
    pub open spec fn after(self, answer: Result<Seq<Cells>, DatasourceErrorV>) -> ReaderV {
        match answer {
            Err(_) => self,
            Ok(rows) => if self.offset + self.page_size > u64::MAX {
                ReaderV { done: true, ..self }
            } else {
                ReaderV {
                    offset: (self.offset + self.page_size) as u64,
                    done: self.done || rows.len() == 0,
                    ..self
                }
            },
        }
    }

    /// What is handed out for the answer.
    pub open spec fn page(self, answer: Result<Seq<Cells>, DatasourceErrorV>) -> Result<Option<Seq<Cells>>, AppErrorV> {
        match answer {
            Err(e) => Err(
                AppErrorV::Datasource(
                    "read "@ + label(self.source) + " (offset "@ + text::dec(self.offset as nat) + "): "@ + e.words()
                        + "\nsql: "@ + self.sql,
                ),
            ),
            Ok(rows) => Ok(
                if rows.len() == 0 {
                    None
                } else {
                    Some(rows)
                },
            ),
        }
    }
}

/// Whether the reader finds the schema `s` by just these questions: that of its
/// table, or one inferred from a first row of its select.
pub open spec fn schema_found(
    asks: Seq<Ask>,
    a: Answers,
    conn_type: Seq<char>,
    source: SourceV,
    s: Option<TableSchemaV>,
) -> bool {
    if source.table != ""@ {
        &&& asks.len() == 1
        &&& asks[0] matches Ask::Schema { at, table, schema } && at == source.connection && table == source.table && s
            == schema.ok()
    } else {
        match source.select {
            Some(sel) => select_schema_found(asks, a, conn_type, source.connection, sel, s),
            None => asks.len() == 0 && s is None,
        }
    }
}

pub open spec fn select_schema_found(
    asks: Seq<Ask>,
    a: Answers,
    conn_type: Seq<char>,
    connection: Seq<char>,
    select: Seq<char>,
    s: Option<TableSchemaV>,
) -> bool {
    exists|x: Result<Seq<char>, AppErrorV>| #[trigger]
        templates::gives(a, select, x) && (match x {
            Err(_) => asks.len() == 0 && s is None,
            Ok(sel) => match probe(conn_type, sel) {
                None => asks.len() == 0 && s is None,
                Some(q) => {
                    &&& asks.len() == 1
                    &&& asks[0] matches Ask::Query { at, query, answer } && at == connection && query == q && s
                        == sampled_first(answer)
                },
            },
        })
}

/// The schema that the first row of an answer gives.
pub open spec fn sampled_first(answer: Result<Seq<Cells>, DatasourceErrorV>) -> Option<TableSchemaV> {
    match answer {
        Ok(rows) => if rows.len() == 0 {
            None
        } else {
            Some(sampled(rows[0]))
        },
        Err(_) => None,
    }
}

/// What is answered while a source's query is built.
pub open spec fn source_answers<N: Fn(i64) -> Option<Moment>>(
    values: Seq<(Seq<char>, Val)>,
    specs: StateSpecs,
    schema: Option<TableSchemaV>,
    now: N,
    env: Seq<(Seq<char>, Seq<char>)>,
) -> Answers {
    Answers {
        state: |key: Seq<char>, x: Result<Option<Seq<char>>, AppErrorV>| x == state_default(values, specs, schema, key),
        clock: |d: i64, m: Option<Moment>| call_ensures(now, (d,), m),
        env,
    }
}

/// The source's custom select, expanded.
fn expand_select<N: Fn(i64) -> Option<Moment>>(
    select: &str,
    specs: &StrMap<StateSpec>,
    state: &StateStore,
    now: &N,
    env: &StrMap<String>,
) -> (out: AppResult<String>)
    requires
        forall|d: i64| call_requires(*now, (d,)),
    ensures
        templates::gives(source_answers(state@.values, specs@, None, *now, env@), select@, views::res(out)),
{
    let none: Option<TableSchema> = None;
    let resolve = |key: &str| -> (r: AppResult<Option<String>>)
            ensures
                templates::answer(r) == state_default(state@.values, specs@, None, key@),
            { resolve_state_default(state, specs, &none, key) };
    let t = Template { resolve_state: &resolve, now, env };
    let out = t.expand(select);
    proof {
        templates::lemma_covered(
            t.answers(),
            source_answers(state@.values, specs@, None, *now, env@),
            select@,
            views::res(out),
        );
    }
    out
}

/// The source's query, with what the state, the schema, the clock and the
/// environment answer.
fn expand_query<N: Fn(i64) -> Option<Moment>>(
    source: &SourceConfig,
    conn_type: &str,
    specs: &StrMap<StateSpec>,
    state: &StateStore,
    schema: &Option<TableSchema>,
    now: &N,
    env: &StrMap<String>,
) -> (out: AppResult<String>)
    requires
        forall|d: i64| call_requires(*now, (d,)),
    ensures
        query_gives(
            source_answers(state@.values, specs@, views::opt(*schema), *now, env@),
            source@,
            conn_type@,
            views::res(out),
        ),
{
    let resolve = |key: &str| -> (r: AppResult<Option<String>>)
            ensures
                templates::answer(r) == state_default(state@.values, specs@, views::opt(*schema), key@),
            { resolve_state_default(state, specs, schema, key) };
    let t = Template { resolve_state: &resolve, now, env };
    let out = build_select(source, &t, conn_type);
    proof {
        let b = source_answers(state@.values, specs@, views::opt(*schema), *now, env@);
        lemma_query_covered(t.answers(), b, source@, conn_type@, views::res(out));
    }
    out
}

proof fn lemma_query_covered(
    a: Answers,
    b: Answers,
    source: SourceV,
    conn_type: Seq<char>,
    r: Result<Seq<char>, AppErrorV>,
)
    requires
        templates::covers(b, a),
        query_gives(a, source, conn_type, r),
    ensures
        query_gives(b, source, conn_type, r),
{
    match source.select {
        Some(s) => {
            if text::trim(s) != ""@ {
                templates::lemma_covered(a, b, text::trim(s), r);
            }
        },
        None => {
            if source.table != ""@ {
                let q = name_quote(conn_type);
                let c = choose|c: Result<Seq<Seq<char>>, AppErrorV>| #[trigger]
                    columns_give(a, source.columns, c) && (match c {
                        Err(e) => r == Err::<Seq<char>, AppErrorV>(e),
                        Ok(names) => with_condition(a, source, base_query(names, source.table, q), r),
                    });
                let results = choose|results: Seq<Result<Seq<char>, AppErrorV>>| #[trigger]
                    texts_give(a, source.columns, results) && c == gathered(results);
                assert forall|i: int| 0 <= i < results.len() implies #[trigger] templates::gives(
                    b,
                    source.columns[i],
                    results[i],
                ) by {
                    assert(templates::gives(a, source.columns[i], results[i]));
                    templates::lemma_covered(a, b, source.columns[i], results[i]);
                }
                assert(texts_give(b, source.columns, results));
                assert(columns_give(b, source.columns, c));
                if let Ok(names) = c {
                    let base = base_query(names, source.table, q);
                    let w = choose|w: Result<Option<Seq<char>>, AppErrorV>| #[trigger]
                        condition_gives(a, source.where_clause, w) && (match w {
                            Err(e) => r == Err::<Seq<char>, AppErrorV>(e),
                            Ok(cond) => r == Ok::<Seq<char>, AppErrorV>(whole_query(base, cond)),
                        });
                    if let Some(t) = source.where_clause {
                        if text::trim(t) != ""@ {
                            match w {
                                Ok(Some(x)) => templates::lemma_covered(a, b, text::trim(t), Ok(x)),
                                Err(e) => templates::lemma_covered(a, b, text::trim(t), Err(e)),
                                Ok(None) => {},
                            }
                        }
                    }
                    assert(condition_gives(b, source.where_clause, w));
                    assert(with_condition(b, source, base, r));
                }
                assert(table_gives(b, source, q, r));
            }
        },
    }
}

/// The number of rows of a page: the source's own limit, else the given size,
/// but at least one.
pub open spec fn page_rows(source: SourceV, page_size: u64) -> int {
    let n = match source.batch_limit {
        Some(n) => n,
        None => page_size,
    };
    if n < 1 {
        1
    } else {
        n as int
    }
}

/// Whether the schema is found by just these questions and the query can come to
/// this with it.
pub open spec fn query_with<N: Fn(i64) -> Option<Moment>>(
    asks: Seq<Ask>,
    conn_type: Seq<char>,
    source: SourceV,
    specs: StateSpecs,
    values: Seq<(Seq<char>, Val)>,
    now: N,
    env: Seq<(Seq<char>, Seq<char>)>,
    schema: Option<TableSchemaV>,
    r: Result<Seq<char>, AppErrorV>,
) -> bool {
    &&& schema_found(asks, source_answers(values, specs, None, now, env), conn_type, source, schema)
    &&& query_gives(source_answers(values, specs, schema, now, env), source, conn_type, r)
}

/// Whether a reader can start so, having asked just this: at the first row, with
/// a query that the source, the stored state, the schema, the clock and the
/// environment give.
pub open spec fn opens<N: Fn(i64) -> Option<Moment>>(
    asks: Seq<Ask>,
    conn_type: Seq<char>,
    source: SourceV,
    specs: StateSpecs,
    values: Seq<(Seq<char>, Val)>,
    page_size: u64,
    now: N,
    env: Seq<(Seq<char>, Seq<char>)>,
    r: ReaderV,
) -> bool {
    &&& query_with(asks, conn_type, source, specs, values, now, env, r.schema, Ok(r.sql))
    &&& r.source == source
    &&& r.page_size == page_rows(source, page_size)
    &&& r.offset == 0
    &&& !r.done
}

/// Whether building the query can fail so, having asked just this.
pub open spec fn refuses<N: Fn(i64) -> Option<Moment>>(
    asks: Seq<Ask>,
    conn_type: Seq<char>,
    source: SourceV,
    specs: StateSpecs,
    values: Seq<(Seq<char>, Val)>,
    now: N,
    env: Seq<(Seq<char>, Seq<char>)>,
    e: AppErrorV,
) -> bool {
    exists|schema: Option<TableSchemaV>| #[trigger]
        query_with(asks, conn_type, source, specs, values, now, env, schema, Err(e))
}

impl Reader {
    /// The schema that the reader goes by; none where it cannot be found.
    fn find_schema<'a, D: Datasource, Z: Fn(u64), N: Fn(i64) -> Option<Moment>>(
        link: &mut Link<'a, D, Z>,
        conn_type: &str,
        source: &SourceConfig,
        specs: &StrMap<StateSpec>,
        state: &StateStore,
        now: &N,
        env: &StrMap<String>,
    ) -> (out: Option<TableSchema>)
        requires
            forall|d: i64| call_requires(*now, (d,)),
            old(link).ready(),
            old(link).reaches(source@.connection),
        ensures
            final(link).ready(),
            final(link).conns() == old(link).conns(),
            final(link).done() == old(link).done(),
            exists|asks: Seq<Ask>|
                final(link).asked() == old(link).asked() + asks && #[trigger] schema_found(
                    asks,
                    source_answers(state@.values, specs@, None, *now, env@),
                    conn_type@,
                    source@,
                    views::opt(out),
                ),
    {
        let ghost first = link.asked();
        let ghost a = source_answers(state@.values, specs@, None, *now, env@);
        let ghost none = Seq::<Ask>::empty();
        assert(first + none =~= first);
        if !same(source.table.as_str(), "") {
            let r = link.get_schema(source.connection.as_str(), source.table.as_str());
            let out = match r {
                Ok(s) => Some(s),
                Err(_) => None,
            };
            proof {
                let asks = seq![link.asked().last()];
                assert(link.asked() =~= first + asks);
                assert(schema_found(asks, a, conn_type@, source@, views::opt(out)));
            }
            return out;
        }
        match &source.select {
            None => {
                assert(schema_found(none, a, conn_type@, source@, None));
                None
            },
            Some(select) => {
                let x = expand_select(select.as_str(), specs, state, now, env);
                let ghost gave = views::res(x);
                match x {
                    Err(_) => {
                        assert(templates::gives(a, select@, gave));
                        assert(schema_found(none, a, conn_type@, source@, None));
                        None
                    },
                    Ok(sel) => match probe_sql(conn_type, sel.as_str()) {
                        None => {
                            assert(templates::gives(a, select@, gave));
                            assert(schema_found(none, a, conn_type@, source@, None));
                            None
                        },
                        Some(query) => {
                            let r = link.query(source.connection.as_str(), query.as_str());
                            let out = match &r {
                                Ok(rows) => probe_schema(rows),
                                Err(_) => None,
                            };
                            proof {
                                assert(templates::gives(a, select@, gave));
                                let asks = seq![link.asked().last()];
                                assert(link.asked() =~= first + asks);
                                assert(schema_found(asks, a, conn_type@, source@, views::opt(out)));
                            }
                            out
                        },
                    },
                }
            },
        }
    }

    /// Build the reader: resolves the WHERE template (stored state values or
    /// schema-derived defaults for first runs) and stores the query that is
    /// paged during the run.
    pub fn new<'a, D: Datasource, Z: Fn(u64), N: Fn(i64) -> Option<Moment>>(
        link: &mut Link<'a, D, Z>,
        conn_type: &str,
        source: SourceConfig,
        specs: &StrMap<StateSpec>,
        state: &StateStore,
        page_size: u64,
        now: &N,
        env: &StrMap<String>,
    ) -> (out: AppResult<Reader>)
        requires
            forall|d: i64| call_requires(*now, (d,)),
            old(link).ready(),
            old(link).reaches(source@.connection),
        ensures
            final(link).ready(),
            final(link).conns() == old(link).conns(),
            final(link).done() == old(link).done(),
            exists|asks: Seq<Ask>|
                #![trigger old(link).asked() + asks]
                final(link).asked() == old(link).asked() + asks && match out {
                    Ok(r) => opens(asks, conn_type@, source@, specs@, state@.values, page_size, *now, env@, r@),
                    Err(e) => refuses(asks, conn_type@, source@, specs@, state@.values, *now, env@, e@),
                },
    {
        let ghost first = link.asked();
        let schema = Reader::find_schema(link, conn_type, &source, specs, state, now, env);
        let ghost found = views::opt(schema);
        let ghost asks = choose|asks: Seq<Ask>|
            link.asked() == first + asks && #[trigger] schema_found(
                asks,
                source_answers(state@.values, specs@, None, *now, env@),
                conn_type@,
                source@,
                found,
            );
        let r = expand_query(&source, conn_type, specs, state, &schema, now, env);
        let ghost gave = views::res(r);
        assert(query_with(asks, conn_type@, source@, specs@, state@.values, *now, env@, found, gave));
        match r {
            Err(e) => {
                assert(refuses(asks, conn_type@, source@, specs@, state@.values, *now, env@, e@));
                Err(e)
            },
            Ok(sql) => {
                let n = match source.batch_limit {
                    Some(n) => n,
                    None => page_size,
                };
                let page_size = if n < 1 {
                    1
                } else {
                    n
                };
                Ok(Reader { sql, source, schema, page_size, offset: 0, done: false })
            },
        }
    }

    pub fn schema(&self) -> (out: Option<&TableSchema>)
        ensures
            views::opt(out) == self@.schema,
    {
        match &self.schema {
            Some(s) => Some(s),
            None => None,
        }
    }

    /// What the datasource's answer for the next page comes to.
    pub fn on_page(&mut self, answer: Result<Vec<Row>, DatasourceError>) -> (out: AppResult<Option<Vec<Row>>>)
        ensures
            page_view(out) == old(self)@.page(rows_answer(answer)),
            final(self)@ == old(self)@.after(rows_answer(answer)),
    {
        match answer {
            Err(e) => {
                let o = dec_text(self.offset);
                let words = e.message();
                let head = cat5("read ", source_label(&self.source), " (offset ", o.as_str(), "): ");
                Err(AppError::Datasource(cat4(head.as_str(), words.as_str(), "\nsql: ", self.sql.as_str())))
            },
            Ok(rows) => {
                if self.page_size > u64::MAX - self.offset {
                    self.done = true;
                } else {
                    self.offset = self.offset + self.page_size;
                }
                if rows.len() == 0 {
                    self.done = true;
                    Ok(None)
                } else {
                    Ok(Some(rows))
                }
            },
        }
    }

    /// Fetch the next page. Returns `Ok(None)` when the source is exhausted; a
    /// reader that is done asks nothing.
    pub fn next_page<'a, D: Datasource, Z: Fn(u64)>(&mut self, link: &mut Link<'a, D, Z>) -> (out: AppResult<
        Option<Vec<Row>>,
    >)
        requires
            old(link).ready(),
            old(link).reaches(old(self)@.source.connection),
        ensures
            final(link).ready(),
            final(link).conns() == old(link).conns(),
            final(link).done() == old(link).done(),
            if old(self)@.done {
                out matches Ok(None) && final(self)@ == old(self)@ && final(link).asked() == old(link).asked()
            } else {
                exists|answer: Result<Seq<Cells>, DatasourceErrorV>|
                    {
                        &&& final(link).asked() == old(link).asked().push(#[trigger] old(self)@.question(answer))
                        &&& page_view(out) == old(self)@.page(answer)
                        &&& final(self)@ == old(self)@.after(answer)
                    }
            },
    {
        if self.done {
            return Ok(None);
        }
        let r = link.query_page(self.source.connection.as_str(), self.sql.as_str(), self.offset, self.page_size);
        assert(link.asked() == old(link).asked().push(self@.question(rows_answer(r))));
        self.on_page(r)
    }
}

/// Law: a reader that has read so many pages without fail asks next for the rows
/// behind them: each page starts where the one before it ended.
pub proof fn law_pages_follow_each_other(r: ReaderV, pages: Seq<Seq<Cells>>)
    requires
        r.offset + r.page_size * pages.len() <= u64::MAX,
    ensures
        after_pages(r, pages).offset == r.offset + r.page_size * pages.len(),
        after_pages(r, pages).page_size == r.page_size,
        after_pages(r, pages).sql == r.sql,
    decreases pages.len(),
{
    if pages.len() > 0 {
        let n = pages.len() as int;
        assert(r.page_size * n == r.page_size * (n - 1) + r.page_size) by (nonlinear_arith);
        law_pages_follow_each_other(r, pages.drop_last());
    } else {
        assert(r.page_size * 0 == 0) by (nonlinear_arith);
    }
}

/// The questions that these pages answered, in order.
pub open spec fn questions(r: ReaderV, pages: Seq<Seq<Cells>>) -> Seq<Ask>
    decreases pages.len(),
{
    if pages.len() == 0 {
        Seq::empty()
    } else {
        questions(r, pages.drop_last()).push(after_pages(r, pages.drop_last()).question(Ok(pages.last())))
    }
}

/// The reader once the datasource answered with these pages.
pub open spec fn after_pages(r: ReaderV, pages: Seq<Seq<Cells>>) -> ReaderV
    decreases pages.len(),
{
    if pages.len() == 0 {
        r
    } else {
        after_pages(r, pages.drop_last()).after(Ok(pages.last()))
    }
}

// ---------------------------------------------------------------------------
// What is asked for
// ---------------------------------------------------------------------------

/// Law: whole numbers below the 53rd power of two are greater, and rise above a
/// mark, by value; texts in the order of texts.
pub proof fn law_values_rise_by_value(i: i64, j: i64, s: Seq<char>, t: Seq<char>)
    requires
        -0x20_0000_0000_0000 < i < 0x20_0000_0000_0000,
        -0x20_0000_0000_0000 < j < 0x20_0000_0000_0000,
    ensures
        greater(Val::Int(i), Val::Int(j)) <==> i > j,
        rises(Val::Int(i), Val::Int(j)) <==> i > j,
        greater(Val::String(s), Val::String(t)) <==> text::less(t, s),
        rises(Val::String(s), Val::String(t)) <==> text::less(t, s),
        greater(Val::Date(s), Val::Date(t)) <==> text::less(t, s),
        rises(Val::Date(s), Val::Date(t)) <==> text::less(t, s),
        !greater(Val::Null, Val::Int(j)) && !greater(Val::Int(i), Val::Null) && !rises(Val::Null, Val::Int(j)),
{
    float::law_small_whole_numbers_stay_what_they_are(j as int, i as int);
}

/// Law: without a saved value a column of dates or times starts at the literal of
/// the first date, a column of texts at the literal of the empty text, and any
/// other at the literal of zero, whatever the case of the type.
pub proof fn law_low_bound_is_a_literal_of_the_type(data_type: Seq<char>)
    ensures
        low_bound(data_type) == low_bound(text::lower(data_type)),
        ({
            let t = text::lower(data_type);
            let dated = text::contains(t, "time"@) || text::contains(t, "date"@);
            let textual = text::contains(t, "char"@) || text::contains(t, "text"@) || text::contains(t, "string"@)
                || text::contains(t, "uuid"@) || text::contains(t, "clob"@);
            &&& dated ==> low_bound(data_type) == Val::Date("1970-01-01 00:00:00"@).literal()
            &&& !dated && textual ==> low_bound(data_type) == Val::String(""@).literal()
            &&& !dated && !textual ==> low_bound(data_type) == Val::Int(0).literal()
        }),
{
    reveal_strlit("0");
    reveal_strlit("");
    reveal_strlit("''");
    reveal_strlit("1970-01-01 00:00:00");
    reveal_strlit("'1970-01-01 00:00:00'");
    assert(Val::Int(0).literal() =~= "0"@);
    assert(text::double(""@, '\'') =~= Seq::<char>::empty());
    assert(Val::String(""@).literal() =~= "''"@);
    lemma_no_quotes("1970-01-01 00:00:00"@);
    assert(Val::Date("1970-01-01 00:00:00"@).literal() =~= "'1970-01-01 00:00:00'"@);
    assert(text::lower(text::lower(data_type)) =~= text::lower(data_type)) by {
        assert forall|i: int| 0 <= i < data_type.len() implies text::lower(text::lower(data_type))[i] == #[trigger] text::lower(
            data_type,
        )[i] by {
            text::law_lower_changes_capitals_only(data_type, i);
        }
    }
}

proof fn lemma_no_quotes(s: Seq<char>)
    requires
        forall|i: int| 0 <= i < s.len() ==> #[trigger] s[i] != '\'',
    ensures
        text::double(s, '\'') == s,
    decreases s.len(),
{
    if s.len() > 0 {
        lemma_no_quotes(s.drop_last());
        assert(s.drop_last().push(s.last()) =~= s);
    } else {
        assert(text::double(s, '\'') =~= s);
    }
}

/// Law: a state key stands for the literal of its saved value; without one, for
/// the low bound of the type of its column, or zero where the column is not known;
/// a key that is not declared and has no value is refused.
pub proof fn law_state_key_stands_for_its_value(
    values: Seq<(Seq<char>, Val)>,
    specs: StateSpecs,
    schema: Option<TableSchemaV>,
    key: Seq<char>,
)
    ensures
        strmap::at(values, key) matches Some(v) ==> state_default(values, specs, schema, key) == Ok::<
            Option<Seq<char>>,
            AppErrorV,
        >(Some(v.literal())),
        strmap::at(values, key) is None && strmap::at(specs, key) is None ==> (state_default(values, specs, schema, key)
            matches Err(e) && e is Template),
        strmap::at(values, key) is None && strmap::at(specs, key) is Some ==> {
            let column = strmap::at(specs, key)->Some_0.column;
            let known = schema is Some && schema->Some_0.named(column) is Some;
            state_default(values, specs, schema, key) == Ok::<Option<Seq<char>>, AppErrorV>(
                Some(
                    if known {
                        low_bound(schema->Some_0.named(column)->Some_0.data_type)
                    } else {
                        Val::Int(0).literal()
                    },
                ),
            )
        },
{
    reveal_strlit("0");
    assert(Val::Int(0).literal() =~= "0"@);
}

/// Law: a sample row gives a structure with a column for each of its cells, by
/// name; a whole number counts as one, a date as a date, a text as a text.
pub proof fn law_sample_has_the_columns_of_its_row(row: Cells, i: int)
    requires
        0 <= i < row.len(),
    ensures
        sampled(row).columns.len() == row.len(),
        sampled(row).columns[i].name == row[i].0,
        row[i].1 is Int || row[i].1 is UInt ==> low_bound(sampled(row).columns[i].data_type) == Val::Int(0).literal(),
        row[i].1 is String ==> low_bound(sampled(row).columns[i].data_type) == Val::String(""@).literal(),
        row[i].1 is Date ==> low_bound(sampled(row).columns[i].data_type) == Val::Date("1970-01-01 00:00:00"@).literal(),
{
    let ty = sampled(row).columns[i].data_type;
    law_low_bound_is_a_literal_of_the_type(ty);
    lemma_plain_types();
}

proof fn lemma_plain_types()
    ensures
        !text::contains(text::lower("bigint"@), "time"@) && !text::contains(text::lower("bigint"@), "date"@)
            && !text::contains(text::lower("bigint"@), "char"@) && !text::contains(text::lower("bigint"@), "text"@)
            && !text::contains(text::lower("bigint"@), "string"@) && !text::contains(text::lower("bigint"@), "uuid"@)
            && !text::contains(text::lower("bigint"@), "clob"@),
        text::contains(text::lower("varchar"@), "char"@) && !text::contains(text::lower("varchar"@), "time"@)
            && !text::contains(text::lower("varchar"@), "date"@),
        text::contains(text::lower("datetime"@), "time"@),
{
    reveal_strlit("bigint");
    reveal_strlit("varchar");
    reveal_strlit("datetime");
    reveal_strlit("time");
    reveal_strlit("date");
    reveal_strlit("char");
    reveal_strlit("text");
    reveal_strlit("string");
    reveal_strlit("uuid");
    reveal_strlit("clob");
    assert(text::lower("bigint"@) =~= "bigint"@);
    assert(text::lower("varchar"@) =~= "varchar"@);
    assert(text::lower("datetime"@) =~= "datetime"@);
    let b = "bigint"@;
    let v = "varchar"@;
    let t = "datetime"@;
    assert(v.subrange(3, 3int + "char"@.len()) =~= "char"@);
    assert(t.subrange(4, 4int + "time"@.len()) =~= "time"@);
    lemma_lacks(b, "time"@, 'm', 2);
    lemma_lacks(b, "date"@, 'd', 0);
    lemma_lacks(b, "char"@, 'c', 0);
    lemma_lacks(b, "text"@, 'e', 1);
    lemma_lacks(b, "string"@, 's', 0);
    lemma_lacks(b, "uuid"@, 'u', 0);
    lemma_lacks(b, "clob"@, 'c', 0);
    lemma_lacks(v, "time"@, 't', 0);
    lemma_lacks(v, "date"@, 'd', 0);
}

/// A text without a character contains no text that has it.
proof fn lemma_lacks(s: Seq<char>, p: Seq<char>, c: char, k: int)
    requires
        0 <= k < p.len(),
        p[k] == c,
        forall|i: int| 0 <= i < s.len() ==> #[trigger] s[i] != c,
    ensures
        !text::contains(s, p),
{
    if text::contains(s, p) {
        let i = choose|i: int| 0 <= i && i + p.len() <= s.len() && #[trigger] s.subrange(i, i + p.len()) == p;
        assert(s.subrange(i, i + p.len())[k] == s[i + k]);
    }
}

/// The columns and the table that a query reads: no column where it reads all.
pub open spec fn query_read(s: Seq<char>, q: char) -> Option<(Seq<Seq<char>>, Seq<char>)> {
    match reading::after(s, "SELECT "@) {
        None => None,
        Some(a) => {
            let listed = match reading::after(a, "*"@) {
                Some(b) => Some((Seq::<Seq<char>>::empty(), b)),
                None => reading::names_at(a, q, ", "@),
            };
            match listed {
                None => None,
                Some((columns, b)) => match reading::after(b, " FROM "@) {
                    None => None,
                    Some(c) => match reading::name_at(c, q) {
                        Some((table, d)) => if d.len() == 0 {
                            Some((columns, table))
                        } else {
                            None
                        },
                        None => None,
                    },
                },
            }
        },
    }
}

/// Law: the query of a source reads its columns, in their order, or all of them
/// where none is named, from its table.
pub proof fn law_query_reads_columns_from_table(columns: Seq<Seq<char>>, table: Seq<char>, q: char)
    requires
        q == '`' || q == '"',
    ensures
        query_read(base_query(columns, table, q), q) == Some((columns, table)),
{
    reveal_strlit("*");
    reveal_strlit(", ");
    reveal_strlit(" FROM ");
    let none = Seq::<char>::empty();
    let name = text::quoted(table, q);
    let list = if columns.len() == 0 {
        "*"@
    } else {
        text::join(sql::quoted_all(columns, q), ", "@)
    };
    let b = " FROM "@ + name;
    reading::lemma_regroup("SELECT "@ + list, " FROM "@, name);
    reading::lemma_regroup("SELECT "@, list, b);
    reading::lemma_after("SELECT "@, list + b);
    reading::lemma_after(" FROM "@, name);
    assert(name + none =~= name);
    reading::law_quoted_name_reads_back(table, q, none);
    assert(b[0] == ' ');
    if columns.len() == 0 {
        reading::lemma_after("*"@, b);
        assert(columns =~= Seq::<Seq<char>>::empty());
    } else {
        reading::lemma_not_after(b, ", "@);
        reading::lemma_names_read_back(columns, q, ", "@, b);
        let parts = sql::quoted_all(columns, q);
        lemma_join_first(parts, ", "@);
        assert((list + b)[0] == q);
        reading::lemma_not_after(list + b, "*"@);
    }
}

proof fn lemma_join_first(parts: Seq<Seq<char>>, sep: Seq<char>)
    requires
        parts.len() > 0,
        parts[0].len() > 0,
    ensures
        text::join(parts, sep).len() > 0,
        text::join(parts, sep)[0] == parts[0][0],
{
    if parts.len() > 1 {
        reading::lemma_join_front(parts, sep);
    }
}

/// Law: names stand in backquotes on a MySQL connection and in double quotes on any
/// other.
pub proof fn law_names_are_quoted_by_dialect(conn_type: Seq<char>)
    ensures
        name_quote(conn_type) == '`' <==> conn_type == "mysql"@,
        name_quote(conn_type) == '"' <==> conn_type != "mysql"@,
{
}

/// Law: a condition stands behind the query; without one the query is as it was.
pub proof fn law_condition_follows_the_query(base: Seq<char>, c: Seq<char>)
    ensures
        whole_query(base, None) == base,
        text::starts_with(whole_query(base, Some(c)), base + " WHERE "@),
        text::ends_with(whole_query(base, Some(c)), c),
{
    let w = whole_query(base, Some(c));
    let p = base + " WHERE "@;
    assert(w.take(p.len() as int) =~= p);
    assert(w.skip(p.len() as int) =~= c);
}

/// Law: a probe of a select asks for one row of what the select gives; a select
/// that is blank has none.
pub proof fn law_probe_asks_for_one_row(conn_type: Seq<char>, select: Seq<char>)
    ensures
        ({
            let s = text::trim_end_any(text::trim(select), "; "@);
            &&& probe(conn_type, select) is None <==> s.len() == 0
            &&& probe(conn_type, select) matches Some(q) ==> text::starts_with(q, "SELECT * FROM ("@ + s + ")"@) && q.last()
                == '1'
        }),
{
    reveal_strlit("");
    reveal_strlit(")");
    reveal_strlit(") WHERE ROWNUM <= 1");
    reveal_strlit(") dt_probe LIMIT 1");
    let s = text::trim_end_any(text::trim(select), "; "@);
    assert(s.len() == 0 ==> s =~= ""@);
    if let Some(q) = probe(conn_type, select) {
        let p = "SELECT * FROM ("@ + s + ")"@;
        assert(q.take(p.len() as int) =~= p);
    }
}

/// Law: a page holds as many rows as the source's batch limit, or the page size
/// where it has none, and never less than one.
pub proof fn law_page_size_is_the_limit(source: SourceV, page_size: u64)
    ensures
        page_rows(source, page_size) >= 1,
        source.batch_limit matches Some(n) ==> n >= 1 ==> page_rows(source, page_size) == n,
        source.batch_limit is None && page_size >= 1 ==> page_rows(source, page_size) == page_size,
{
}

/// Law: a reader hands on the rows that came, as they came; it ends on a page
/// without rows and on no other (unless the offset can go no further), goes on
/// behind the page that it read, and stays where it was when a read fails.
pub proof fn law_reader_goes_on_until_a_page_is_empty(r: ReaderV, rows: Seq<Cells>, e: DatasourceErrorV)
    requires
        !r.done,
        r.offset + r.page_size <= u64::MAX,
    ensures
        r.after(Ok(rows)).done <==> rows.len() == 0,
        r.after(Ok(rows)).offset == r.offset + r.page_size,
        r.after(Err(e)) == r,
        rows.len() > 0 ==> r.page(Ok(rows)) == Ok::<Option<Seq<Cells>>, AppErrorV>(Some(rows)),
        rows.len() == 0 ==> r.page(Ok(rows)) == Ok::<Option<Seq<Cells>>, AppErrorV>(None),
        r.page(Err(e)) matches Err(x) && x is Datasource,
        r.question(Ok(rows)) matches Ask::Page { at, query, offset, limit, answer } && at == r.source.connection && query
            == r.sql && offset == r.offset && limit == r.page_size,
{
}

/// Law: a mark that was saved as a text counts as the number it reads as, where
/// that is a finite one; a number does not rise above any other text.
pub proof fn law_text_mark_counts_as_its_number(v: Val, s: Seq<char>)
    requires
        number(v) is Some,
    ensures
        rises(v, Val::String(s)) <==> (float::reading(text::trim(s)) matches Some(f) && float::finite(f.bits) && float::below(
            f.bits,
            number(v)->Some_0,
        )),
        !rises(v, Val::Null) && !rises(v, Val::Bool(true)) && !rises(v, Val::Bool(false)),
{
}

/// Law: texts are had where every one of them is, in their order; otherwise the
/// first fault counts.
pub proof fn law_texts_are_had_where_all_are(results: Seq<Result<Seq<char>, AppErrorV>>, i: int)
    requires
        forall|k: int| 0 <= k < results.len() - 1 ==> (#[trigger] results[k]) is Ok,
        0 <= i < results.len(),
    ensures
        gathered(results) is Ok <==> forall|k: int| 0 <= k < results.len() ==> (#[trigger] results[k]) is Ok,
        gathered(results) matches Ok(v) ==> v.len() == results.len() && results[i] == Ok::<Seq<char>, AppErrorV>(v[i]),
        gathered(results) matches Err(e) ==> results.last() == Err::<Seq<char>, AppErrorV>(e),
{
    assert(results[results.len() - 1] == results.last());
}

/// Law: a source is called by its table; one that has none by a name that no table
/// has.
pub proof fn law_source_is_called_by_its_table(source: SourceV)
    ensures
        source.table.len() > 0 ==> label(source) == source.table,
        source.table.len() == 0 ==> label(source)[0] == '<',
{
    reveal_strlit("");
    reveal_strlit("<custom-select>");
    assert(source.table.len() == 0 ==> source.table =~= ""@);
}

/// Law: a structure is sampled from the first row that came, where one came.
pub proof fn law_first_row_is_sampled(rows: Seq<Cells>, e: DatasourceErrorV)
    ensures
        rows.len() > 0 ==> sampled_first(Ok(rows)) == Some(sampled(rows[0])),
        rows.len() == 0 ==> sampled_first(Ok(rows)) is None,
        sampled_first(Err(e)) is None,
{
}

/// Law: a source with a table has the structure that its connection tells of that
/// table; the connection is asked once.
pub proof fn law_structure_is_that_of_the_table(
    asks: Seq<Ask>,
    a: Answers,
    conn_type: Seq<char>,
    source: SourceV,
    s: Option<TableSchemaV>,
)
    requires
        schema_found(asks, a, conn_type, source, s),
        source.table.len() > 0,
    ensures
        asks.len() == 1,
        asks[0] matches Ask::Schema { at, table, schema } && at == source.connection && table == source.table && (
        match schema {
            Ok(t) => s == Some(t),
            Err(_) => s is None,
        }),
{
    reveal_strlit("");
    assert(source.table != ""@);
}

/// Law: a reader whose offset can go no further is done; a failed read is told by
/// its source and its offset, by the fault and by the query.
pub proof fn law_reader_ends_with_the_offsets(r: ReaderV, rows: Seq<Cells>, e: DatasourceErrorV)
    ensures
        r.offset + r.page_size > u64::MAX ==> r.after(Ok(rows)).done && r.after(Ok(rows)).offset == r.offset,
        r.page(Err(e)) matches Err(AppErrorV::Datasource(s)) && text::starts_with(s, "read "@ + label(r.source))
            && text::ends_with(s, e.words() + "\nsql: "@ + r.sql),
{
    let none = Seq::<char>::empty();
    let p = "read "@ + label(r.source);
    let n = text::dec(r.offset as nat);
    let w = e.words();
    let q = "\nsql: "@;
    let p2 = p + " (offset "@ + n + "): "@;
    reading::lemma_regroup(p2 + w, q, r.sql);
    reading::lemma_regroup(p2, w, q + r.sql);
    reading::lemma_regroup(w, q, r.sql);
    text::law_parts_are_found(p2, w + q + r.sql, none);
    let tail = w + q + r.sql;
    reading::lemma_regroup(p + " (offset "@ + n, "): "@, tail);
    reading::lemma_regroup(p + " (offset "@, n, "): "@ + tail);
    reading::lemma_regroup(p, " (offset "@, n + ("): "@ + tail));
    text::law_parts_are_found(none, p, " (offset "@ + (n + ("): "@ + tail)));
}

/// Law: in the texts of a source a state key stands for the literal of its saved
/// value or for its low bound, and a variable for its value in the environment.
pub proof fn law_source_tokens_stand_for_state_and_environment<N: Fn(i64) -> Option<Moment>>(
    values: Seq<(Seq<char>, Val)>,
    specs: StateSpecs,
    schema: Option<TableSchemaV>,
    now: N,
    env: Seq<(Seq<char>, Seq<char>)>,
    key: Seq<char>,
    r: Result<Seq<char>, AppErrorV>,
)
    requires
        key.len() > 0,
        !text::is_space(key.last()),
    ensures
        ({
            let a = source_answers(values, specs, schema, now, env);
            &&& templates::piece_gives(a, PieceV::Token("state."@ + key), r) <==> r == templates::state_text(
                key,
                state_default(values, specs, schema, key),
            )
            &&& templates::piece_gives(a, PieceV::Token("env."@ + key), r) <==> r == templates::env_text(key, env)
        }),
{
    let none = Seq::<char>::empty();
    templates::law_tokens_ask_by_their_prefix(none, key, none);
    assert(none + ("state."@ + key) + none =~= "state."@ + key);
    assert(none + ("env."@ + key) + none =~= "env."@ + key);
    let a = source_answers(values, specs, schema, now, env);
    let x = state_default(values, specs, schema, key);
    assert((a.state)(key, x));
}

/// Law: a source without a table that has a select is sampled: its connection is
/// asked at most once, for the probe of the select, and the structure is that of the
/// first row that came.
pub proof fn law_select_is_sampled_once(
    asks: Seq<Ask>,
    a: Answers,
    conn_type: Seq<char>,
    source: SourceV,
    s: Option<TableSchemaV>,
)
    requires
        schema_found(asks, a, conn_type, source, s),
        source.table.len() == 0,
    ensures
        asks.len() <= 1,
        source.select is None ==> asks.len() == 0,
        asks.len() == 0 ==> s is None,
        asks.len() == 1 ==> (asks[0] matches Ask::Query { at, query, answer } && at == source.connection && s == sampled_first(
            answer,
        ) && exists|x: Seq<char>|
            templates::gives(a, source.select->Some_0, Ok(x)) && #[trigger] probe(conn_type, x) == Some(query)),
{
    reveal_strlit("");
    assert(source.table =~= ""@);
    if let Some(sel) = source.select {
        let x = choose|x: Result<Seq<char>, AppErrorV>| #[trigger]
            templates::gives(a, sel, x) && (match x {
                Err(_) => asks.len() == 0 && s is None,
                Ok(q) => match probe(conn_type, q) {
                    None => asks.len() == 0 && s is None,
                    Some(p) => {
                        &&& asks.len() == 1
                        &&& asks[0] matches Ask::Query { at, query, answer } && at == source.connection && query == p && s
                            == sampled_first(answer)
                    },
                },
            });
        if let Ok(q) = x {
            assert(templates::gives(a, sel, Ok(q)));
            if asks.len() == 1 {
                assert(probe(conn_type, q) is Some);
            }
        }
    }
}

/// Law: the pages of a pass are asked for in turn, each behind the one before, all
/// of one size and of one query.
pub proof fn law_pages_are_asked_for_in_turn(r: ReaderV, pages: Seq<Seq<Cells>>, k: int)
    requires
        r.offset + r.page_size * pages.len() <= u64::MAX,
        0 <= k < pages.len(),
    ensures
        questions(r, pages).len() == pages.len(),
        questions(r, pages)[k] matches Ask::Page { at, query, offset, limit, answer } && at == r.source.connection && query
            == r.sql && offset == r.offset + r.page_size * k && limit == r.page_size && answer == Ok::<
            Seq<Cells>,
            DatasourceErrorV,
        >(pages[k]),
    decreases pages.len(),
{
    let head = pages.drop_last();
    let n = pages.len() - 1;
    assert(r.page_size * n <= r.page_size * pages.len()) by (nonlinear_arith)
        requires
            n == pages.len() - 1,
            r.page_size >= 0,
    ;
    law_pages_follow_each_other(r, head);
    lemma_questions_len(r, head);
    lemma_source_stays(r, head);
    if k < n {
        law_pages_are_asked_for_in_turn(r, head, k);
    }
}

proof fn lemma_questions_len(r: ReaderV, pages: Seq<Seq<Cells>>)
    ensures
        questions(r, pages).len() == pages.len(),
    decreases pages.len(),
{
    if pages.len() > 0 {
        lemma_questions_len(r, pages.drop_last());
    }
}

proof fn lemma_source_stays(r: ReaderV, pages: Seq<Seq<Cells>>)
    ensures
        after_pages(r, pages).source == r.source,
    decreases pages.len(),
{
    if pages.len() > 0 {
        lemma_source_stays(r, pages.drop_last());
    }
}

} // verus!

//! The built-in processors: rename, set, filter and cast.

use vstd::prelude::*;

use crate::error::{EtlError, EtlErrorV};
use crate::etl::{EtlContext, EtlOutputRow, EtlOutputRowV, EtlProcessor, EtlRow, Named, TableLookup};
use crate::float;
use crate::float::{float_of_signed, float_of_unsigned, is_below, is_near, read_float, truncate, Float};
use crate::model;
use crate::model::{Cells, Row, Val, Value};
use crate::reader;
use crate::reading;
use crate::reader::num;
use crate::sql;
use crate::sql::wrap;
use crate::strmap;
use crate::strmap::StrMap;
use crate::text;
use crate::text::{
    cat3, cat4, cat5, copy, debug_text, dec_text, int_text, is_less, joined, parse_i64, same,
    to_lower, trimmed, trimmed_end_any, trimmed_start_any, without_prefix, words_of,
};
use crate::views;

verus! {

/// What a processor hands back.
pub open spec fn outputs(r: Result<Vec<EtlOutputRow>, EtlError>) -> Result<Seq<EtlOutputRowV>, EtlErrorV> {
    match r {
        Ok(v) => Ok(views::list(v@)),
        Err(e) => Err(e@),
    }
}

/// The one output that a row becomes.
pub open spec fn single(table: Seq<char>, row: Cells) -> Result<Seq<EtlOutputRowV>, EtlErrorV> {
    Ok(seq![EtlOutputRowV { table, row }])
}

/// An output row for the context's target table; with none, the table is left
/// empty and the framework applies the job default.
pub fn transform_output<L: TableLookup>(ctx: &EtlContext<L>, _input: &EtlRow, row: Row) -> (out: EtlOutputRow)
    ensures
        out@ == (EtlOutputRowV { table: ctx.target_table(), row: row@ }),
{
    let table = match ctx.target_schema {
        Some(s) => s.table.clone(),
        None => copy(""),
    };
    EtlOutputRow::new(table, row)
}

fn one(out: EtlOutputRow) -> (v: Vec<EtlOutputRow>)
    ensures
        views::list(v@) == seq![out@],
{
    let mut v: Vec<EtlOutputRow> = Vec::new();
    v.push(out);
    assert(views::list(v@) =~= seq![out@]);
    v
}

// ---------------------------------------------------------------------------
// Rename
// ---------------------------------------------------------------------------

/// One renaming.
#[derive(Debug)]
pub struct RenameItem {
    pub from: String,
    pub to: String,
}

/// What a [`RenameItem`] says: the old and the new name.
impl View for RenameItem {
    type V = (Seq<char>, Seq<char>);

    open spec fn view(&self) -> (Seq<char>, Seq<char>) {
        (self.from@, self.to@)
    }
}

/// Rename one or more columns: `column: { from: "a", to: "b" }`.
#[derive(Debug)]
pub struct RenameConfig {
    pub column: Option<Vec<RenameItem>>,
}

impl RenameConfig {
    pub open spec fn items(self) -> Seq<(Seq<char>, Seq<char>)> {
        match self.column {
            Some(v) => views::list(v@),
            None => Seq::empty(),
        }
    }
}

/// `{ "rename": { "column": [ { "from": "id", "to": "user_id" } ] } }`
#[derive(Debug)]
pub struct RenameProcessor {
    pub rename: RenameConfig,
}

/// A row with a column under another name; a row without it stays as it is.
pub open spec fn renamed_one(row: Cells, from: Seq<char>, to: Seq<char>) -> Cells {
    match strmap::at(row, from) {
        Some(v) => strmap::put(strmap::cut(row, from), to, v),
        None => row,
    }
}

/// A row after the renamings, one after the other.
pub open spec fn renamed(row: Cells, items: Seq<(Seq<char>, Seq<char>)>) -> Cells
    decreases items.len(),
{
    if items.len() == 0 {
        row
    } else {
        renamed_one(renamed(row, items.drop_last()), items.last().0, items.last().1)
    }
}

impl RenameProcessor {
    pub fn apply(&self, input: &Row) -> (out: Row)
        ensures
            out@ == renamed(input@, self.rename.items()),
    {
        let mut row = input.clone();
        if let Some(v) = &self.rename.column {
            let ghost all = views::list(v@);
            let mut i: usize = 0;
            assert(all.take(0) =~= Seq::empty());
            while i < v.len()
                invariant
                    i <= v.len(),
                    all == views::list(v@),
                    row@ == renamed(input@, all.take(i as int)),
                decreases v.len() - i,
            {
                assert(all.take(i + 1).drop_last() =~= all.take(i as int));
                assert(all.take(i + 1).last() == v@[i as int]@);
                if let Some(x) = row.data.remove(v[i].from.as_str()) {
                    row.data.insert(v[i].to.clone(), x);
                }
                i += 1;
            }
            assert(all.take(i as int) =~= all);
        }
        row
    }
}

impl Named for RenameProcessor {
    fn name(&self) -> (out: &str)
        ensures
            out@ == "rename"@,
    {
        "rename"
    }
}

impl<L: TableLookup> EtlProcessor<L> for RenameProcessor {
    fn process(&self, ctx: &mut EtlContext<L>, input: &EtlRow) -> (out: Result<Vec<EtlOutputRow>, EtlError>)
        ensures
            *final(ctx) == *old(ctx),
            outputs(out) == single(old(ctx).target_table(), renamed(input@.row, self.rename.items())),
    {
        let row = self.apply(&input.row);
        Ok(one(transform_output(&*ctx, input, row)))
    }
}

/// Law: a renamed column keeps its value under the new name, is gone under the
/// old one, and no other column changes.
pub proof fn law_rename_moves_one_column(row: Cells, from: Seq<char>, to: Seq<char>, c: Seq<char>)
    requires
        strmap::ordered(row),
        strmap::at(row, from) is Some,
    ensures
        strmap::ordered(renamed_one(row, from, to)),
        strmap::at(renamed_one(row, from, to), c) == (if c == to {
            strmap::at(row, from)
        } else if c == from {
            None
        } else {
            strmap::at(row, c)
        }),
{
    let v = strmap::at(row, from)->Some_0;
    let t = strmap::cut(row, from);
    strmap::lemma_cut(row, from);
    strmap::lemma_put(t, to, v);
    strmap::lemma_dict(row, c);
    strmap::lemma_dict(t, c);
    strmap::lemma_dict(strmap::put(t, to, v), c);
}

// ---------------------------------------------------------------------------
// Set
// ---------------------------------------------------------------------------

/// Add constant columns.
#[derive(Debug)]
pub struct SetConfig {
    pub constant: Option<StrMap<Value>>,
}

impl SetConfig {
    pub open spec fn constants(self) -> Cells {
        match self.constant {
            Some(m) => m@,
            None => Seq::empty(),
        }
    }
}

/// Add constant columns: `{ "set": { "constant": { "app_id": "erp" } } }`
#[derive(Debug)]
pub struct SetProcessor {
    pub set: SetConfig,
}

/// A row with the constants stored in it.
pub open spec fn with_constants(row: Cells, constants: Cells) -> Cells
    decreases constants.len(),
{
    if constants.len() == 0 {
        row
    } else {
        strmap::put(with_constants(row, constants.drop_last()), constants.last().0, constants.last().1)
    }
}

impl SetProcessor {
    pub fn apply(&self, input: &Row) -> (out: Row)
        ensures
            out@ == with_constants(input@, self.set.constants()),
    {
        let mut row = input.clone();
        if let Some(m) = &self.set.constant {
            let ghost all = m@;
            let mut i: usize = 0;
            assert(all.take(0) =~= Seq::empty());
            while i < m.len()
                invariant
                    i <= m@.len(),
                    all == m@,
                    row@ == with_constants(input@, all.take(i as int)),
                decreases m@.len() - i,
            {
                assert(all.take(i + 1).drop_last() =~= all.take(i as int));
                assert(all.take(i + 1).last() == all[i as int]);
                row.data.insert(copy(m.key_at(i)), m.value_at(i).clone());
                i += 1;
            }
            assert(all.take(i as int) =~= all);
        }
        row
    }
}

impl Named for SetProcessor {
    fn name(&self) -> (out: &str)
        ensures
            out@ == "set"@,
    {
        "set"
    }
}

impl<L: TableLookup> EtlProcessor<L> for SetProcessor {
    fn process(&self, ctx: &mut EtlContext<L>, input: &EtlRow) -> (out: Result<Vec<EtlOutputRow>, EtlError>)
        ensures
            *final(ctx) == *old(ctx),
            outputs(out) == single(old(ctx).target_table(), with_constants(input@.row, self.set.constants())),
    {
        let row = self.apply(&input.row);
        Ok(one(transform_output(&*ctx, input, row)))
    }
}

/// Law: each constant column holds its constant, and every other column is as it
/// was.
pub proof fn law_set_overrides_listed(row: Cells, constants: Cells, c: Seq<char>)
    requires
        strmap::ordered(row),
        strmap::ordered(constants),
    ensures
        strmap::ordered(with_constants(row, constants)),
        strmap::at(with_constants(row, constants), c) == (match strmap::at(constants, c) {
            Some(v) => Some(v),
            None => strmap::at(row, c),
        }),
    decreases constants.len(),
{
    if constants.len() > 0 {
        let rest = constants.drop_last();
        assert forall|i: int, j: int| 0 <= i < j < rest.len() implies text::less(
            #[trigger] rest[i].0,
            #[trigger] rest[j].0,
        ) by {
            assert(text::less(constants[i].0, constants[j].0));
        }
        law_set_overrides_listed(row, rest, c);
        let t = with_constants(row, rest);
        let k = constants.last().0;
        let v = constants.last().1;
        strmap::lemma_put(t, k, v);
        strmap::lemma_dict(t, c);
        strmap::lemma_dict(strmap::put(t, k, v), c);
    }
}

// ---------------------------------------------------------------------------
// Filter
// ---------------------------------------------------------------------------

/// Whether two values are equal to a filter: a null equals nothing, numbers are
/// equal where they are close, other values where they are alike.
pub open spec fn equals(l: Val, r: Val) -> bool {
    if l is Null || r is Null {
        false
    } else {
        match (reader::number(l), reader::number(r)) {
            (Some(a), Some(b)) => float::near(a, b),
            _ => model::alike(l, r),
        }
    }
}

pub fn equal(l: &Value, r: &Value) -> (out: bool)
    ensures
        out == equals(l@, r@),
{
    if l.is_null() || r.is_null() {
        return false;
    }
    match (num(l), num(r)) {
        (Some(a), Some(b)) => is_near(a, b),
        _ => l.matches_exactly(r),
    }
}

/// The text that a filter compares by; empty for values without one.
pub open spec fn compared(v: Val) -> Seq<char> {
    match v.text() {
        Some(s) => s,
        None => ""@,
    }
}

/// Below, to a filter: numbers by value, anything else by text.
pub open spec fn under(l: Val, r: Val) -> bool {
    match (reader::number(l), reader::number(r)) {
        (Some(a), Some(b)) => float::below(a, b),
        _ => text::less(compared(l), compared(r)),
    }
}

fn is_under(l: &Value, r: &Value) -> (out: bool)
    ensures
        out == under(l@, r@),
{
    match (num(l), num(r)) {
        (Some(a), Some(b)) => is_below(a, b),
        _ => {
            let x = match l.as_str() {
                Some(s) => s,
                None => "",
            };
            let y = match r.as_str() {
                Some(s) => s,
                None => "",
            };
            is_less(x, y)
        },
    }
}

/// An operand: `$col` reads the column value, anything else is a literal.
pub open spec fn operand(tok: Seq<char>, row: Cells) -> Val {
    if text::starts_with(tok, "$"@) {
        model::cell(row, tok.skip(1))
    } else if tok == "null"@ || tok == "NULL"@ {
        Val::Null
    } else if tok == "true"@ || tok == "TRUE"@ {
        Val::Bool(true)
    } else if tok == "false"@ || tok == "FALSE"@ {
        Val::Bool(false)
    } else {
        match text::read_int(tok) {
            Ok(i) => Val::Int(i as i64),
            Err(_) => match float::reading(tok) {
                Some(f) => Val::Float(f),
                None => Val::String(text::trim_char(tok, '\'')),
            },
        }
    }
}

pub fn resolve_literal(tok: &str, row: &Row) -> (out: Value)
    ensures
        out@ == operand(tok@, row@),
{
    proof {
        reveal_strlit("$");
        reveal_strlit("'");
        assert("'"@ =~= seq!['\'']);
    }
    if let Some(name) = without_prefix(tok, "$") {
        return row.value(name.as_str());
    }
    if same(tok, "null") || same(tok, "NULL") {
        return Value::Null;
    }
    if same(tok, "true") || same(tok, "TRUE") {
        return Value::Bool(true);
    }
    if same(tok, "false") || same(tok, "FALSE") {
        return Value::Bool(false);
    }
    match parse_i64(tok) {
        Ok(i) => Value::Int(i),
        Err(_) => match read_float(tok) {
            Some(f) => Value::Float(f),
            None => {
                let t = trimmed_start_any(tok, "'");
                Value::String(trimmed_end_any(t.as_str(), "'"))
            },
        },
    }
}

/// What a condition says of a row: `<column> <op> <value>`. The operators
/// `null` and `not_null` do not look at the value.
pub open spec fn condition(expr: Seq<char>, row: Cells) -> Result<bool, EtlErrorV> {
    let e = text::trim(expr);
    let toks = text::words(e);
    if toks.len() != 3 {
        Err(
            EtlErrorV::Expression(
                "invalid filter expression: '"@ + e + "' (expected '<column> <op> <value>')"@,
            ),
        )
    } else {
        let op = toks[1];
        let value = model::cell(row, toks[0]);
        let rhs = operand(toks[2], row);
        if op == "eq"@ {
            Ok(equals(value, rhs))
        } else if op == "ne"@ {
            Ok(!equals(value, rhs))
        } else if op == "null"@ || (op == "is"@ && rhs is Null) {
            Ok(value is Null)
        } else if op == "not_null"@ || (op == "not"@ && rhs is Null) {
            Ok(!(value is Null))
        } else if op == "gt"@ {
            Ok(under(rhs, value))
        } else if op == "gte"@ {
            Ok(!under(value, rhs))
        } else if op == "lt"@ {
            Ok(under(value, rhs))
        } else if op == "lte"@ {
            Ok(!under(rhs, value))
        } else {
            Err(EtlErrorV::Expression("unsupported operator '"@ + op + "' in '"@ + e + "'"@))
        }
    }
}

pub fn eval_condition(expr: &str, row: &Row) -> (out: Result<bool, EtlError>)
    ensures
        (match out {
            Ok(b) => Ok(b),
            Err(e) => Err(e@),
        }) == condition(expr@, row@),
{
    let e = trimmed(expr);
    let toks = words_of(e.as_str());
    let ghost words = text::words(e@);
    assert(words.len() == toks@.len());
    if toks.len() != 3 {
        return Err(
            EtlError::Expression(
                cat3("invalid filter expression: '", e.as_str(), "' (expected '<column> <op> <value>')"),
            ),
        );
    }
    assert(words[0] == toks@[0]@ && words[1] == toks@[1]@ && words[2] == toks@[2]@);
    let op: &str = toks[1].as_str();
    let rhs = resolve_literal(toks[2].as_str(), row);
    let value = row.value(toks[0].as_str());
    if same(op, "eq") {
        Ok(equal(&value, &rhs))
    } else if same(op, "ne") {
        Ok(!equal(&value, &rhs))
    } else if same(op, "null") || (same(op, "is") && rhs.is_null()) {
        Ok(value.is_null())
    } else if same(op, "not_null") || (same(op, "not") && rhs.is_null()) {
        Ok(!value.is_null())
    } else if same(op, "gt") {
        Ok(is_under(&rhs, &value))
    } else if same(op, "gte") {
        Ok(!is_under(&value, &rhs))
    } else if same(op, "lt") {
        Ok(is_under(&value, &rhs))
    } else if same(op, "lte") {
        Ok(!is_under(&rhs, &value))
    } else {
        Err(EtlError::Expression(cat5("unsupported operator '", op, "' in '", e.as_str(), "'")))
    }
}

/// Filter rows: `{ "filter": { "keep": "expr", "drop": "expr" } }`
/// Supported operators: `not`, `null`, `not_null`, `eq`, `ne`, `gt`, `gte`,
/// `lt`, `lte`. Values come from the row by `$column` reference or a literal.
#[derive(Debug)]
pub struct FilterConfig {
    pub keep: Option<String>,
    pub drop: Option<String>,
}

#[derive(Debug)]
pub struct FilterProcessor {
    pub filter: FilterConfig,
}

/// Whether a filter lets a row pass: it meets the condition to keep, and not
/// the one to drop.
pub open spec fn passes(keep: Option<Seq<char>>, drop: Option<Seq<char>>, row: Cells) -> Result<bool, EtlErrorV> {
    let kept = match keep {
        Some(e) => condition(e, row),
        None => Ok(true),
    };
    match kept {
        Err(e) => Err(e),
        Ok(false) => Ok(false),
        Ok(true) => match drop {
            Some(e) => match condition(e, row) {
                Err(x) => Err(x),
                Ok(b) => Ok(!b),
            },
            None => Ok(true),
        },
    }
}

impl FilterProcessor {
    pub fn lets_pass(&self, row: &Row) -> (out: Result<bool, EtlError>)
        ensures
            (match out {
                Ok(b) => Ok(b),
                Err(e) => Err(e@),
            }) == passes(views::opt(self.filter.keep), views::opt(self.filter.drop), row@),
    {
        if let Some(e) = &self.filter.keep {
            match eval_condition(e.as_str(), row) {
                Err(x) => {
                    return Err(x);
                },
                Ok(b) => {
                    if !b {
                        return Ok(false);
                    }
                },
            }
        }
        if let Some(e) = &self.filter.drop {
            match eval_condition(e.as_str(), row) {
                Err(x) => {
                    return Err(x);
                },
                Ok(b) => {
                    if b {
                        return Ok(false);
                    }
                },
            }
        }
        Ok(true)
    }
}

/// What a filter hands back.
pub open spec fn filtered(pass: Result<bool, EtlErrorV>, table: Seq<char>, row: Cells) -> Result<
    Seq<EtlOutputRowV>,
    EtlErrorV,
> {
    match pass {
        Err(e) => Err(e),
        Ok(false) => Ok(Seq::empty()),
        Ok(true) => single(table, row),
    }
}

impl Named for FilterProcessor {
    fn name(&self) -> (out: &str)
        ensures
            out@ == "filter"@,
    {
        "filter"
    }
}

impl<L: TableLookup> EtlProcessor<L> for FilterProcessor {
    fn process(&self, ctx: &mut EtlContext<L>, input: &EtlRow) -> (out: Result<Vec<EtlOutputRow>, EtlError>)
        ensures
            *final(ctx) == *old(ctx),
            outputs(out) == filtered(
                passes(views::opt(self.filter.keep), views::opt(self.filter.drop), input@.row),
                old(ctx).target_table(),
                input@.row,
            ),
    {
        match self.lets_pass(&input.row) {
            Err(e) => Err(e),
            Ok(false) => {
                let none: Vec<EtlOutputRow> = Vec::new();
                assert(views::list(none@) =~= Seq::<EtlOutputRowV>::empty());
                Ok(none)
            },
            Ok(true) => Ok(one(transform_output(&*ctx, input, input.row.clone()))),
        }
    }
}

/// Law: of two operands at most one is below the other, and none is below
/// itself, so `gt` and `lt` never both hold.
pub proof fn law_below_is_one_way(l: Val, r: Val)
    ensures
        !(under(l, r) && under(r, l)),
        !under(l, l),
{
    text::lemma_less_irreflexive(compared(l));
    if text::less(compared(l), compared(r)) && text::less(compared(r), compared(l)) {
        text::lemma_less_transitive(compared(l), compared(r), compared(l));
    }
}

/// Law: a filter lets a row pass just where its condition to keep, if any, holds
/// and its condition to drop, if any, does not.
pub proof fn law_filter_passes_what_is_kept_and_not_dropped(
    keep: Option<Seq<char>>,
    drop: Option<Seq<char>>,
    row: Cells,
)
    requires
        keep matches Some(e) ==> condition(e, row) is Ok,
        drop matches Some(e) ==> condition(e, row) is Ok,
    ensures
        passes(keep, drop, row) == Ok::<bool, EtlErrorV>(
            (keep is None || condition(keep->Some_0, row) == Ok::<bool, EtlErrorV>(true)) && (drop is None || condition(
                drop->Some_0,
                row,
            ) == Ok::<bool, EtlErrorV>(false)),
        ),
{
}

/// Law: a filter fails just where a condition that it has to look at fails, and
/// with that condition's error: the one to drop counts only for a row that is
/// kept.
pub proof fn law_filter_fails_with_its_condition(keep: Option<Seq<char>>, drop: Option<Seq<char>>, row: Cells, e: EtlErrorV)
    ensures
        passes(keep, drop, row) == Err::<bool, EtlErrorV>(e) <==> {
            ||| keep is Some && condition(keep->Some_0, row) == Err::<bool, EtlErrorV>(e)
            ||| (keep is None || condition(keep->Some_0, row) == Ok::<bool, EtlErrorV>(true)) && drop is Some && condition(
                drop->Some_0,
                row,
            ) == Err::<bool, EtlErrorV>(e)
        },
        keep is Some && condition(keep->Some_0, row) == Ok::<bool, EtlErrorV>(false) ==> passes(keep, drop, row) == Ok::<
            bool,
            EtlErrorV,
        >(false),
{
}

/// Law: a filter hands on just one row, as it came, where it lets the row pass,
/// none where it does not, and its error where it fails.
pub proof fn law_filter_hands_on_the_row_or_nothing(
    keep: Option<Seq<char>>,
    drop: Option<Seq<char>>,
    table: Seq<char>,
    row: Cells,
)
    ensures
        match filtered(passes(keep, drop, row), table, row) {
            Ok(out) => {
                &&& passes(keep, drop, row) is Ok
                &&& out.len() == 1 <==> passes(keep, drop, row) == Ok::<bool, EtlErrorV>(true)
                &&& out.len() <= 1
                &&& forall|i: int| 0 <= i < out.len() ==> (#[trigger] out[i]).row == row && out[i].table == table
            },
            Err(e) => passes(keep, drop, row) == Err::<bool, EtlErrorV>(e),
        },
{
}

/// What a condition `<column> <op> <value>` says.
pub open spec fn says(column: Seq<char>, op: Seq<char>, value: Seq<char>, expr: Seq<char>) -> bool {
    text::words(text::trim(expr)) == seq![column, op, value]
}

/// Law: on the same column and value `ne` is the opposite of `eq`, `lte` that of
/// `gt`, `gte` that of `lt` and `not_null` that of `null`; none of them fails.
#[verifier::spinoff_prover]
pub proof fn law_operators_come_in_opposites(
    column: Seq<char>,
    value: Seq<char>,
    op: Seq<char>,
    opposite: Seq<char>,
    a: Seq<char>,
    b: Seq<char>,
    row: Cells,
)
    requires
        says(column, op, value, a),
        says(column, opposite, value, b),
        (op == "eq"@ && opposite == "ne"@) || (op == "gt"@ && opposite == "lte"@) || (op == "lt"@ && opposite == "gte"@)
            || (op == "null"@ && opposite == "not_null"@),
    ensures
        condition(a, row) is Ok,
        condition(b, row) == Ok::<bool, EtlErrorV>(!condition(a, row)->Ok_0),
{
    lemma_operators_differ();
    if op == "eq"@ || op == "null"@ {
        lemma_plain_condition(column, op, value, a, row);
        lemma_plain_condition(column, opposite, value, b, row);
    } else {
        lemma_ordered_condition(column, op, value, a, row);
        lemma_ordered_condition(column, opposite, value, b, row);
    }
}

/// Law: `gt` and `lt` never both hold; where `gt` holds so does `gte`, and where
/// `lt` holds so does `lte`.
#[verifier::spinoff_prover]
pub proof fn law_strict_operators_imply_the_others(
    column: Seq<char>,
    value: Seq<char>,
    gt: Seq<char>,
    gte: Seq<char>,
    lt: Seq<char>,
    lte: Seq<char>,
    row: Cells,
)
    requires
        says(column, "gt"@, value, gt),
        says(column, "gte"@, value, gte),
        says(column, "lt"@, value, lt),
        says(column, "lte"@, value, lte),
    ensures
        !(condition(gt, row) == Ok::<bool, EtlErrorV>(true) && condition(lt, row) == Ok::<bool, EtlErrorV>(true)),
        condition(gt, row) == Ok::<bool, EtlErrorV>(true) ==> condition(gte, row) == Ok::<bool, EtlErrorV>(true),
        condition(lt, row) == Ok::<bool, EtlErrorV>(true) ==> condition(lte, row) == Ok::<bool, EtlErrorV>(true),
{
    lemma_ordered_condition(column, "gt"@, value, gt, row);
    lemma_ordered_condition(column, "gte"@, value, gte, row);
    lemma_ordered_condition(column, "lt"@, value, lt, row);
    lemma_ordered_condition(column, "lte"@, value, lte, row);
    lemma_operators_differ();
    law_below_is_one_way(model::cell(row, column), operand(value, row));
}

/// Law: to keep by a condition lets the same rows pass as to drop by its opposite.
pub proof fn law_keep_is_drop_of_the_opposite(
    column: Seq<char>,
    value: Seq<char>,
    op: Seq<char>,
    opposite: Seq<char>,
    a: Seq<char>,
    b: Seq<char>,
    row: Cells,
)
    requires
        says(column, op, value, a),
        says(column, opposite, value, b),
        (op == "eq"@ && opposite == "ne"@) || (op == "gt"@ && opposite == "lte"@) || (op == "lt"@ && opposite == "gte"@)
            || (op == "null"@ && opposite == "not_null"@),
    ensures
        passes(Some(a), None, row) == passes(None, Some(b), row),
        passes(Some(b), None, row) == passes(None, Some(a), row),
        passes(Some(a), Some(b), row) == passes(Some(a), None, row),
        passes(Some(a), Some(a), row) == Ok::<bool, EtlErrorV>(false),
{
    law_operators_come_in_opposites(column, value, op, opposite, a, b, row);
}

/// What an ordering operator says of two operands.
spec fn ordering(op: Seq<char>, l: Val, r: Val) -> bool {
    if op == "gt"@ {
        under(r, l)
    } else if op == "gte"@ {
        !under(l, r)
    } else if op == "lt"@ {
        under(l, r)
    } else {
        !under(r, l)
    }
}

#[verifier::spinoff_prover]
proof fn lemma_ordered_condition(column: Seq<char>, op: Seq<char>, value: Seq<char>, expr: Seq<char>, row: Cells)
    requires
        says(column, op, value, expr),
        op == "gt"@ || op == "gte"@ || op == "lt"@ || op == "lte"@,
    ensures
        condition(expr, row) == Ok::<bool, EtlErrorV>(ordering(op, model::cell(row, column), operand(value, row))),
{
    lemma_operators_differ();
    let toks = text::words(text::trim(expr));
    assert(toks[0] == column && toks[1] == op && toks[2] == value);
}

#[verifier::spinoff_prover]
proof fn lemma_plain_condition(column: Seq<char>, op: Seq<char>, value: Seq<char>, expr: Seq<char>, row: Cells)
    requires
        says(column, op, value, expr),
        op == "eq"@ || op == "ne"@ || op == "null"@ || op == "not_null"@,
    ensures
        condition(expr, row) == Ok::<bool, EtlErrorV>(
            if op == "eq"@ {
                equals(model::cell(row, column), operand(value, row))
            } else if op == "ne"@ {
                !equals(model::cell(row, column), operand(value, row))
            } else if op == "null"@ {
                model::cell(row, column) is Null
            } else {
                !(model::cell(row, column) is Null)
            },
        ),
{
    lemma_operators_differ();
    let toks = text::words(text::trim(expr));
    assert(toks[0] == column && toks[1] == op && toks[2] == value);
}

#[verifier::spinoff_prover]
proof fn lemma_operators_differ()
    ensures
        "ne"@ != "eq"@,
        "null"@ != "eq"@ && "null"@ != "ne"@,
        "not_null"@ != "eq"@ && "not_null"@ != "ne"@ && "not_null"@ != "null"@ && "not_null"@ != "is"@,
        "gt"@ != "eq"@ && "gt"@ != "ne"@ && "gt"@ != "null"@ && "gt"@ != "is"@ && "gt"@ != "not_null"@ && "gt"@ != "not"@,
        "gte"@ != "eq"@ && "gte"@ != "ne"@ && "gte"@ != "null"@ && "gte"@ != "is"@ && "gte"@ != "not_null"@ && "gte"@
            != "not"@,
        "lt"@ != "eq"@ && "lt"@ != "ne"@ && "lt"@ != "null"@ && "lt"@ != "is"@ && "lt"@ != "not_null"@ && "lt"@ != "not"@,
        "lte"@ != "eq"@ && "lte"@ != "ne"@ && "lte"@ != "null"@ && "lte"@ != "is"@ && "lte"@ != "not_null"@ && "lte"@
            != "not"@,
        "gte"@ != "gt"@,
        "lt"@ != "gt"@ && "lt"@ != "gte"@,
        "lte"@ != "gt"@ && "lte"@ != "gte"@ && "lte"@ != "lt"@,
{
    reveal_strlit("eq");
    reveal_strlit("ne");
    reveal_strlit("gt");
    reveal_strlit("gte");
    reveal_strlit("lt");
    reveal_strlit("lte");
    reveal_strlit("null");
    reveal_strlit("not_null");
    reveal_strlit("is");
    reveal_strlit("not");
    assert("gt"@.len() == 2 && "gte"@.len() == 3 && "lt"@.len() == 2 && "lte"@.len() == 3);
    assert("ne"@.len() == 2 && "null"@.len() == 4 && "not_null"@.len() == 8 && "not"@.len() == 3);
    assert("eq"@[0] == 'e' && "ne"@[0] == 'n' && "gt"@[0] == 'g' && "gte"@[0] == 'g' && "lt"@[0] == 'l' && "lte"@[0] == 'l');
    assert("null"@[0] == 'n' && "not_null"@[0] == 'n' && "is"@[0] == 'i' && "not"@[0] == 'n');
}

// ---------------------------------------------------------------------------
// Cast
// ---------------------------------------------------------------------------

/// The numerals of the bytes.
pub open spec fn byte_numerals(b: Seq<u8>) -> Seq<Seq<char>> {
    b.map_values(|x: u8| text::dec(x as nat))
}

/// A value as messages show it.
pub open spec fn shown(v: Val) -> Seq<char> {
    match v {
        Val::Null => "Null"@,
        Val::Bool(b) => if b {
            "Bool(true)"@
        } else {
            "Bool(false)"@
        },
        Val::Int(i) => "Int("@ + text::dec_int(i as int) + ")"@,
        Val::UInt(u) => "UInt("@ + text::dec(u as nat) + ")"@,
        Val::Float(f) => "Float("@ + float::shown(f) + ")"@,
        Val::Decimal(s) => "Decimal("@ + text::debug_form(s) + ")"@,
        Val::String(s) => "String("@ + text::debug_form(s) + ")"@,
        Val::Date(s) => "Date("@ + text::debug_form(s) + ")"@,
        Val::Bytes(b) => "Bytes(["@ + text::join(byte_numerals(b), ", "@) + "])"@,
    }
}

fn bytes_text(b: &Vec<u8>) -> (out: String)
    ensures
        out@ == text::join(byte_numerals(b@), ", "@),
{
    let ghost want = byte_numerals(b@);
    let mut parts: Vec<String> = Vec::new();
    let mut i: usize = 0;
    while i < b.len()
        invariant
            i <= b.len(),
            want == byte_numerals(b@),
            text::views(parts@) == want.take(i as int),
        decreases b.len() - i,
    {
        let t = dec_text(b[i] as u64);
        proof {
            views::lemma_list_push(parts@, t);
        }
        parts.push(t);
        assert(want.take(i + 1) =~= want.take(i as int).push(want[i as int]));
        i += 1;
    }
    assert(want.take(i as int) =~= want);
    joined(&parts, ", ")
}

fn show(v: &Value) -> (out: String)
    ensures
        out@ == shown(v@),
{
    match v {
        Value::Null => copy("Null"),
        Value::Bool(b) => if *b {
            copy("Bool(true)")
        } else {
            copy("Bool(false)")
        },
        Value::Int(i) => {
            let t = int_text(*i);
            cat3("Int(", t.as_str(), ")")
        },
        Value::UInt(u) => {
            let t = dec_text(*u);
            cat3("UInt(", t.as_str(), ")")
        },
        Value::Float(f) => {
            let t = float::show(f);
            cat3("Float(", t.as_str(), ")")
        },
        Value::Decimal(s) => {
            let t = debug_text(s.as_str());
            cat3("Decimal(", t.as_str(), ")")
        },
        Value::String(s) => {
            let t = debug_text(s.as_str());
            cat3("String(", t.as_str(), ")")
        },
        Value::Date(s) => {
            let t = debug_text(s.as_str());
            cat3("Date(", t.as_str(), ")")
        },
        Value::Bytes(b) => {
            let t = bytes_text(b);
            cat3("Bytes([", t.as_str(), "])")
        },
    }
}

/// The refusal of a value that has no form of the type.
pub open spec fn no_form(v: Val, ty: Seq<char>) -> EtlErrorV {
    EtlErrorV::Expression("cannot cast "@ + shown(v) + " to "@ + ty)
}

fn formless(v: &Value, ty: &str) -> (out: EtlError)
    ensures
        out@ == no_form(v@, ty@),
{
    let t = show(v);
    EtlError::Expression(cat4("cannot cast ", t.as_str(), " to ", ty))
}

/// The refusal of a text that does not read as the type.
pub open spec fn no_reading(s: Seq<char>, ty: Seq<char>, cause: Seq<char>) -> EtlErrorV {
    EtlErrorV::Expression("cannot cast '"@ + s + "' to "@ + ty + ": "@ + cause)
}

fn unreadable(s: &str, ty: &str, cause: &str) -> (out: EtlError)
    ensures
        out@ == no_reading(s@, ty@, cause@),
{
    let head = cat4("cannot cast '", s, "' to ", ty);
    EtlError::Expression(cat3(head.as_str(), ": ", cause))
}

/// A value as a whole number.
pub open spec fn to_int(v: Val) -> Result<i64, EtlErrorV> {
    match v {
        Val::Int(i) => Ok(i),
        Val::UInt(u) => Ok(sql::wrapped(u)),
        Val::Float(f) => Ok(float::truncated(f.bits) as i64),
        _ => match v.text() {
            Some(s) => match text::read_int(text::trim(s)) {
                Ok(i) => Ok(i as i64),
                Err(e) => Err(no_reading(s, "int"@, e.words())),
            },
            None => Err(no_form(v, "int"@)),
        },
    }
}

pub fn parse_int(v: &Value) -> (out: Result<i64, EtlError>)
    ensures
        (match out {
            Ok(i) => Ok(i),
            Err(e) => Err(e@),
        }) == to_int(v@),
{
    match v {
        Value::Int(i) => Ok(*i),
        Value::UInt(u) => Ok(wrap(*u)),
        Value::Float(f) => Ok(truncate(f.bits)),
        _ => match v.as_str() {
            Some(s) => {
                let t = trimmed(s);
                match parse_i64(t.as_str()) {
                    Ok(i) => Ok(i),
                    Err(e) => Err(unreadable(s, "int", e.text())),
                }
            },
            None => Err(formless(v, "int")),
        },
    }
}

/// Why a text is no double.
pub open spec fn float_fault(s: Seq<char>) -> Seq<char> {
    if s == ""@ {
        "cannot parse float from empty string"@
    } else {
        "invalid float literal"@
    }
}

/// A value as a double.
pub open spec fn to_float(v: Val) -> Result<float::FloatV, EtlErrorV> {
    match v {
        Val::Int(i) => Ok(float::of_int(i as int)),
        Val::UInt(u) => Ok(float::of_int(u as int)),
        Val::Float(f) => Ok(f),
        _ => match v.text() {
            Some(s) => match float::reading(text::trim(s)) {
                Some(f) => Ok(f),
                None => Err(no_reading(s, "float"@, float_fault(text::trim(s)))),
            },
            None => Err(no_form(v, "float"@)),
        },
    }
}

pub fn parse_float(v: &Value) -> (out: Result<Float, EtlError>)
    ensures
        views::res(out) == to_float(v@),
{
    match v {
        Value::Int(i) => Ok(float_of_signed(*i)),
        Value::UInt(u) => Ok(float_of_unsigned(*u)),
        Value::Float(f) => Ok(f.clone()),
        _ => match v.as_str() {
            Some(s) => {
                let t = trimmed(s);
                match read_float(t.as_str()) {
                    Some(f) => Ok(f),
                    None => if same(t.as_str(), "") {
                        Err(unreadable(s, "float", "cannot parse float from empty string"))
                    } else {
                        Err(unreadable(s, "float", "invalid float literal"))
                    },
                }
            },
            None => Err(formless(v, "float")),
        },
    }
}

/// The truth that a word names, in any case.
pub open spec fn truth(s: Seq<char>) -> Option<bool> {
    let w = text::lower(text::trim(s));
    if w == "true"@ || w == "1"@ || w == "yes"@ || w == "y"@ {
        Some(true)
    } else if w == "false"@ || w == "0"@ || w == "no"@ || w == "n"@ {
        Some(false)
    } else {
        None
    }
}

/// A value as a truth.
pub open spec fn to_bool(v: Val) -> Result<bool, EtlErrorV> {
    match v {
        Val::Bool(b) => Ok(b),
        Val::Int(i) => Ok(i != 0),
        Val::String(s) => match truth(s) {
            Some(b) => Ok(b),
            None => Err(EtlErrorV::Expression("cannot cast '"@ + s + "' to bool"@)),
        },
        _ => Err(no_form(v, "bool"@)),
    }
}

pub fn parse_bool(v: &Value) -> (out: Result<bool, EtlError>)
    ensures
        (match out {
            Ok(b) => Ok(b),
            Err(e) => Err(e@),
        }) == to_bool(v@),
{
    match v {
        Value::Bool(b) => Ok(*b),
        Value::Int(i) => Ok(*i != 0),
        Value::String(s) => {
            let t = trimmed(s.as_str());
            let w = to_lower(t.as_str());
            let w: &str = w.as_str();
            if same(w, "true") || same(w, "1") || same(w, "yes") || same(w, "y") {
                Ok(true)
            } else if same(w, "false") || same(w, "0") || same(w, "no") || same(w, "n") {
                Ok(false)
            } else {
                Err(EtlError::Expression(cat3("cannot cast '", s.as_str(), "' to bool")))
            }
        },
        _ => Err(formless(v, "bool")),
    }
}

/// A value as the text of a decimal.
pub open spec fn to_decimal(v: Val) -> Result<Seq<char>, EtlErrorV> {
    match v {
        Val::Decimal(s) => Ok(s),
        Val::Int(i) => Ok(text::dec_int(i as int)),
        Val::UInt(u) => Ok(text::dec(u as nat)),
        Val::Float(f) => Ok(f.text),
        Val::String(s) => Ok(s),
        _ => Err(no_form(v, "decimal"@)),
    }
}

pub fn parse_numeric(v: &Value) -> (out: Result<String, EtlError>)
    ensures
        views::res(out) == to_decimal(v@),
{
    match v {
        Value::Decimal(s) => Ok(s.clone()),
        Value::Int(i) => Ok(int_text(*i)),
        Value::UInt(u) => Ok(dec_text(*u)),
        Value::Float(f) => Ok(f.text.clone()),
        Value::String(s) => Ok(s.clone()),
        _ => Err(formless(v, "decimal")),
    }
}

/// A value as one of another type; a null stays null.
pub open spec fn cast(v: Val, ty: Seq<char>) -> Result<Val, EtlErrorV> {
    let t = text::lower(ty);
    if v is Null {
        Ok(Val::Null)
    } else if t == "int"@ || t == "integer"@ || t == "bigint"@ {
        match to_int(v) {
            Ok(i) => Ok(Val::Int(i)),
            Err(e) => Err(e),
        }
    } else if t == "float"@ || t == "double"@ {
        match to_float(v) {
            Ok(f) => Ok(Val::Float(f)),
            Err(e) => Err(e),
        }
    } else if t == "bool"@ || t == "boolean"@ {
        match to_bool(v) {
            Ok(b) => Ok(Val::Bool(b)),
            Err(e) => Err(e),
        }
    } else if t == "string"@ || t == "varchar"@ || t == "text"@ {
        Ok(Val::String(v.display()))
    } else if t == "decimal"@ || t == "numeric"@ {
        match to_decimal(v) {
            Ok(s) => Ok(Val::Decimal(s)),
            Err(e) => Err(e),
        }
    } else {
        Err(EtlErrorV::Config("unsupported cast type '"@ + t + "'"@))
    }
}

pub fn cast_value(v: &Value, ty: &str) -> (out: Result<Value, EtlError>)
    ensures
        views::res(out) == cast(v@, ty@),
{
    if v.is_null() {
        return Ok(Value::Null);
    }
    let t = to_lower(ty);
    let t: &str = t.as_str();
    if same(t, "int") || same(t, "integer") || same(t, "bigint") {
        match parse_int(v) {
            Ok(i) => Ok(Value::Int(i)),
            Err(e) => Err(e),
        }
    } else if same(t, "float") || same(t, "double") {
        match parse_float(v) {
            Ok(f) => Ok(Value::Float(f)),
            Err(e) => Err(e),
        }
    } else if same(t, "bool") || same(t, "boolean") {
        match parse_bool(v) {
            Ok(b) => Ok(Value::Bool(b)),
            Err(e) => Err(e),
        }
    } else if same(t, "string") || same(t, "varchar") || same(t, "text") {
        Ok(Value::String(v.display()))
    } else if same(t, "decimal") || same(t, "numeric") {
        match parse_numeric(v) {
            Ok(s) => Ok(Value::Decimal(s)),
            Err(e) => Err(e),
        }
    } else {
        Err(EtlError::Config(cat3("unsupported cast type '", t, "'")))
    }
}

#[derive(Debug)]
pub struct CastItem {
    pub name: String,
    pub target_type: String,
}

/// What a [`CastItem`] says: the column and the type.
impl View for CastItem {
    type V = (Seq<char>, Seq<char>);

    open spec fn view(&self) -> (Seq<char>, Seq<char>) {
        (self.name@, self.target_type@)
    }
}

/// Convert a column to another storage type: `{ "cast": { "column": [ { "name": "age", "type": "int" } ] } }`
#[derive(Debug)]
pub struct CastConfig {
    pub column: Option<Vec<CastItem>>,
}

impl CastConfig {
    pub open spec fn items(self) -> Seq<(Seq<char>, Seq<char>)> {
        match self.column {
            Some(v) => views::list(v@),
            None => Seq::empty(),
        }
    }
}

#[derive(Debug)]
pub struct CastProcessor {
    pub cast: CastConfig,
}

/// A row with one column converted; a row without it stays as it is.
pub open spec fn converted_one(row: Cells, name: Seq<char>, ty: Seq<char>) -> Result<Cells, EtlErrorV> {
    match strmap::at(row, name) {
        None => Ok(row),
        Some(v) => match cast(v, ty) {
            Ok(x) => Ok(strmap::put(row, name, x)),
            Err(e) => Err(e),
        },
    }
}

/// A row after the conversions, one after the other, or the first error.
pub open spec fn converted(row: Cells, items: Seq<(Seq<char>, Seq<char>)>) -> Result<Cells, EtlErrorV>
    decreases items.len(),
{
    if items.len() == 0 {
        Ok(row)
    } else {
        match converted(row, items.drop_last()) {
            Err(e) => Err(e),
            Ok(r) => converted_one(r, items.last().0, items.last().1),
        }
    }
}

proof fn lemma_conversion_stops(row: Cells, items: Seq<(Seq<char>, Seq<char>)>, n: int)
    requires
        0 <= n <= items.len(),
        converted(row, items.take(n)) is Err,
    ensures
        converted(row, items) == converted(row, items.take(n)),
    decreases items.len(),
{
    if n < items.len() {
        assert(items.drop_last().take(n) =~= items.take(n));
        lemma_conversion_stops(row, items.drop_last(), n);
    } else {
        assert(items.take(n) =~= items);
    }
}

impl CastProcessor {
    pub fn apply(&self, input: &Row) -> (out: Result<Row, EtlError>)
        ensures
            views::res(out) == converted(input@, self.cast.items()),
    {
        let mut row = input.clone();
        if let Some(v) = &self.cast.column {
            let ghost all = views::list(v@);
            let mut i: usize = 0;
            assert(all.take(0) =~= Seq::empty());
            while i < v.len()
                invariant
                    i <= v.len(),
                    all == views::list(v@),
                    all == self.cast.items(),
                    converted(input@, all.take(i as int)) == Ok::<Cells, EtlErrorV>(row@),
                decreases v.len() - i,
            {
                assert(all.take(i + 1).drop_last() =~= all.take(i as int));
                assert(all.take(i + 1).last() == v@[i as int]@);
                let cell = match row.get(v[i].name.as_str()) {
                    Some(x) => Some(cast_value(x, v[i].target_type.as_str())),
                    None => None,
                };
                match cell {
                    None => {},
                    Some(Ok(x)) => {
                        row.insert(v[i].name.clone(), x);
                    },
                    Some(Err(e)) => {
                        proof {
                            lemma_conversion_stops(input@, all, i + 1);
                        }
                        return Err(e);
                    },
                }
                i += 1;
            }
            assert(all.take(i as int) =~= all);
        }
        Ok(row)
    }
}

/// What a conversion hands back.
pub open spec fn recast(r: Result<Cells, EtlErrorV>, table: Seq<char>) -> Result<Seq<EtlOutputRowV>, EtlErrorV> {
    match r {
        Err(e) => Err(e),
        Ok(row) => single(table, row),
    }
}

impl Named for CastProcessor {
    fn name(&self) -> (out: &str)
        ensures
            out@ == "cast"@,
    {
        "cast"
    }
}

impl<L: TableLookup> EtlProcessor<L> for CastProcessor {
    fn process(&self, ctx: &mut EtlContext<L>, input: &EtlRow) -> (out: Result<Vec<EtlOutputRow>, EtlError>)
        ensures
            *final(ctx) == *old(ctx),
            outputs(out) == recast(converted(input@.row, self.cast.items()), old(ctx).target_table()),
    {
        match self.apply(&input.row) {
            Err(e) => Err(e),
            Ok(row) => Ok(one(transform_output(&*ctx, input, row))),
        }
    }
}

/// Law: a cast leaves every other column as it is.
pub proof fn law_cast_keeps_the_rest(row: Cells, name: Seq<char>, ty: Seq<char>, c: Seq<char>)
    requires
        strmap::ordered(row),
        converted_one(row, name, ty) is Ok,
        c != name,
    ensures
        strmap::at(converted_one(row, name, ty)->Ok_0, c) == strmap::at(row, c),
{
    if let Some(v) = strmap::at(row, name) {
        let x = cast(v, ty)->Ok_0;
        strmap::lemma_put(row, name, x);
        strmap::lemma_dict(row, c);
        strmap::lemma_dict(strmap::put(row, name, x), c);
    }
}

/// Law: casting is settled after the first time: what a cast gave, the same
/// cast gives back.
pub proof fn law_cast_is_settled(v: Val, ty: Seq<char>)
    requires
        cast(v, ty) is Ok,
    ensures
        cast(cast(v, ty)->Ok_0, ty) == cast(v, ty),
{
}

// ---------------------------------------------------------------------------
// What conditions mean
// ---------------------------------------------------------------------------

proof fn lemma_operator_words()
    ensures
        "eq"@ != "ne"@ && "eq"@ != "null"@ && "eq"@ != "is"@ && "eq"@ != "not_null"@ && "eq"@ != "not"@ && "eq"@ != "gt"@,
        "gt"@ != "eq"@ && "gt"@ != "ne"@ && "gt"@ != "null"@ && "gt"@ != "is"@ && "gt"@ != "not_null"@ && "gt"@ != "not"@,
        "lt"@ != "eq"@ && "lt"@ != "ne"@ && "lt"@ != "null"@ && "lt"@ != "is"@ && "lt"@ != "not_null"@ && "lt"@ != "not"@
            && "lt"@ != "gt"@ && "lt"@ != "gte"@,
        "gte"@ != "eq"@ && "gte"@ != "ne"@ && "gte"@ != "null"@ && "gte"@ != "is"@ && "gte"@ != "not_null"@ && "gte"@
            != "not"@ && "gte"@ != "gt"@,
        "lte"@ != "eq"@ && "lte"@ != "ne"@ && "lte"@ != "null"@ && "lte"@ != "is"@ && "lte"@ != "not_null"@ && "lte"@
            != "not"@ && "lte"@ != "gt"@ && "lte"@ != "gte"@ && "lte"@ != "lt"@,
        "null"@ != "eq"@ && "null"@ != "ne"@,
        "not_null"@ != "eq"@ && "not_null"@ != "ne"@ && "not_null"@ != "null"@ && "not_null"@ != "is"@,
        "is"@ != "eq"@ && "is"@ != "ne"@ && "not"@ != "eq"@ && "not"@ != "ne"@ && "not"@ != "null"@ && "not"@ != "is"@,
{
    reveal_strlit("eq");
    reveal_strlit("ne");
    reveal_strlit("gt");
    reveal_strlit("gte");
    reveal_strlit("lt");
    reveal_strlit("lte");
    reveal_strlit("is");
    reveal_strlit("not");
    reveal_strlit("null");
    reveal_strlit("not_null");
    assert("eq"@[0] == 'e' && "ne"@[0] == 'n' && "gt"@[0] == 'g' && "lt"@[0] == 'l' && "is"@[0] == 'i');
    assert("gte"@[0] == 'g' && "lte"@[0] == 'l' && "not"@[0] == 'n');
    assert("gte"@.len() == 3 && "lte"@.len() == 3 && "not"@.len() == 3 && "null"@.len() == 4 && "not_null"@.len() == 8);
    assert("eq"@.len() == 2 && "ne"@.len() == 2 && "gt"@.len() == 2 && "lt"@.len() == 2 && "is"@.len() == 2);
}

proof fn lemma_numeral_operand(i: i64, row: Cells)
    ensures
        operand(text::dec_int(i as int), row) == Val::Int(i),
{
    reveal_strlit("$");
    reveal_strlit("null");
    reveal_strlit("NULL");
    reveal_strlit("true");
    reveal_strlit("TRUE");
    reveal_strlit("false");
    reveal_strlit("FALSE");
    let tok = text::dec_int(i as int);
    let n = if i < 0 {
        (-(i as int)) as nat
    } else {
        i as nat
    };
    reading::lemma_dec_digits(n);
    reading::law_written_number_reads_back(i as int);
    assert(tok[0] == '-' || '0' <= tok[0] <= '9');
    assert(text::starts_with(tok, "$"@) ==> tok.take(1)[0] == tok[0]);
    assert("$"@[0] == '$' && "null"@[0] == 'n' && "NULL"@[0] == 'N' && "true"@[0] == 't' && "TRUE"@[0] == 'T' && "false"@[0]
        == 'f' && "FALSE"@[0] == 'F');
}

/// Law: on whole numbers the operators compare by value: a column that holds `i`
/// is `eq`, `ne`, `gt`, `gte`, `lt` or `lte` to the number `j` just where `i` is
/// equal to, not equal to, greater than, at least, less than or at most `j`.
pub proof fn law_conditions_compare_whole_numbers(column: Seq<char>, i: i64, j: i64, op: Seq<char>, e: Seq<char>, row: Cells)
    requires
        -0x20_0000_0000_0000 < i < 0x20_0000_0000_0000,
        -0x20_0000_0000_0000 < j < 0x20_0000_0000_0000,
        model::cell(row, column) == Val::Int(i),
        says(column, op, text::dec_int(j as int), e),
    ensures
        op == "eq"@ ==> condition(e, row) == Ok::<bool, EtlErrorV>(i == j),
        op == "ne"@ ==> condition(e, row) == Ok::<bool, EtlErrorV>(i != j),
        op == "gt"@ ==> condition(e, row) == Ok::<bool, EtlErrorV>(i > j),
        op == "gte"@ ==> condition(e, row) == Ok::<bool, EtlErrorV>(i >= j),
        op == "lt"@ ==> condition(e, row) == Ok::<bool, EtlErrorV>(i < j),
        op == "lte"@ ==> condition(e, row) == Ok::<bool, EtlErrorV>(i <= j),
{
    lemma_operator_words();
    lemma_numeral_operand(j, row);
    float::law_small_whole_numbers_stay_what_they_are(i as int, j as int);
    float::law_small_whole_numbers_stay_what_they_are(j as int, i as int);
}

/// Law: on texts the operators compare in the order of texts, character by
/// character, and `eq` asks for the same text.
pub proof fn law_conditions_compare_texts(
    column: Seq<char>,
    a: Seq<char>,
    b: Seq<char>,
    value: Seq<char>,
    op: Seq<char>,
    e: Seq<char>,
    row: Cells,
)
    requires
        model::cell(row, column) == Val::String(a),
        operand(value, row) == Val::String(b),
        says(column, op, value, e),
    ensures
        op == "eq"@ ==> condition(e, row) == Ok::<bool, EtlErrorV>(a == b),
        op == "ne"@ ==> condition(e, row) == Ok::<bool, EtlErrorV>(a != b),
        op == "gt"@ ==> condition(e, row) == Ok::<bool, EtlErrorV>(text::less(b, a)),
        op == "gte"@ ==> condition(e, row) == Ok::<bool, EtlErrorV>(a == b || text::less(b, a)),
        op == "lt"@ ==> condition(e, row) == Ok::<bool, EtlErrorV>(text::less(a, b)),
        op == "lte"@ ==> condition(e, row) == Ok::<bool, EtlErrorV>(a == b || text::less(a, b)),
{
    lemma_operator_words();
    text::lemma_less_total(a, b);
    text::lemma_less_irreflexive(a);
    if text::less(a, b) && text::less(b, a) {
        text::lemma_less_transitive(a, b, a);
    }
}

/// Law: nothing is equal to null, so `eq` fails and `ne` holds on a null column and
/// on a null value; `null` and `is null` hold on a null column alone, `not_null` and
/// `not null` on any other.
pub proof fn law_null_is_equal_to_nothing(column: Seq<char>, op: Seq<char>, value: Seq<char>, e: Seq<char>, row: Cells)
    requires
        says(column, op, value, e),
    ensures
        model::cell(row, column) is Null || operand(value, row) is Null ==> (op == "eq"@ ==> condition(e, row) == Ok::<
            bool,
            EtlErrorV,
        >(false)) && (op == "ne"@ ==> condition(e, row) == Ok::<bool, EtlErrorV>(true)),
        op == "null"@ || (op == "is"@ && value == "null"@) ==> condition(e, row) == Ok::<bool, EtlErrorV>(
            model::cell(row, column) is Null,
        ),
        op == "not_null"@ || (op == "not"@ && value == "null"@) ==> condition(e, row) == Ok::<bool, EtlErrorV>(
            !(model::cell(row, column) is Null),
        ),
{
    lemma_operator_words();
    reveal_strlit("$");
    reveal_strlit("null");
    assert("null"@[0] == 'n' && "$"@[0] == '$');
    assert(text::starts_with("null"@, "$"@) ==> "null"@.take(1)[0] == "null"@[0]);
}

/// Law: a condition has three words. One of another number of words, or with an
/// operator that is none of the ten, is refused, whatever the row holds.
pub proof fn law_conditions_have_three_words(e: Seq<char>, row: Cells)
    ensures
        text::words(text::trim(e)).len() != 3 ==> condition(e, row) is Err,
        condition(e, row) is Ok ==> {
            let op = text::words(text::trim(e))[1];
            op == "eq"@ || op == "ne"@ || op == "gt"@ || op == "gte"@ || op == "lt"@ || op == "lte"@ || op == "null"@ || op
                == "not_null"@ || op == "is"@ || op == "not"@
        },
        condition(e, row) matches Err(x) ==> x is Expression,
{
}

/// Law: a value that starts with a dollar sign is the row's value in the column
/// behind the sign; a whole number is that number.
pub proof fn law_operands_are_columns_or_values(column: Seq<char>, i: i64, row: Cells)
    ensures
        operand("$"@ + column, row) == model::cell(row, column),
        operand(text::dec_int(i as int), row) == Val::Int(i),
{
    reveal_strlit("$");
    let tok = "$"@ + column;
    assert(tok.take(1) =~= "$"@);
    assert(tok.skip(1) =~= column);
    lemma_numeral_operand(i, row);
}

/// Law: the words for null and for the two truth values stand for them in small
/// and in capital letters; a text in single quotes that is no number stands for
/// the text between the quotes.
pub proof fn law_words_and_quoted_texts_are_values(tok: Seq<char>, s: Seq<char>, row: Cells)
    requires
        s.len() > 0,
        s[0] != '\'',
        s.last() != '\'',
    ensures
        tok == "null"@ || tok == "NULL"@ ==> operand(tok, row) is Null,
        tok == "true"@ || tok == "TRUE"@ ==> operand(tok, row) == Val::Bool(true),
        tok == "false"@ || tok == "FALSE"@ ==> operand(tok, row) == Val::Bool(false),
        tok == seq!['\''] + s + seq!['\''] && float::reading(tok) is None ==> operand(tok, row) == Val::String(s),
{
    reveal_strlit("$");
    reveal_strlit("null");
    reveal_strlit("NULL");
    reveal_strlit("true");
    reveal_strlit("TRUE");
    reveal_strlit("false");
    reveal_strlit("FALSE");
    assert("$"@[0] == '$' && "null"@[0] == 'n' && "NULL"@[0] == 'N' && "true"@[0] == 't' && "TRUE"@[0] == 'T' && "false"@[0]
        == 'f' && "FALSE"@[0] == 'F');
    assert(tok.len() > 0 && text::starts_with(tok, "$"@) ==> tok.take(1)[0] == tok[0]);
    if tok == seq!['\''] + s + seq!['\''] {
        let q = seq!['\''];
        assert(tok[0] == '\'');
        assert(q[0] == '\'');
        if text::read_int(tok) is Ok {
            reading::law_only_whole_numbers_are_read(tok);
        }
        assert(tok =~= q + (s + q));
        assert(!q.contains(s[0]) && !q.contains(s.last()));
        text::law_trim_start_takes_off_its_set(q, s + q, q);
        text::law_trim_end_takes_off_its_set(s, q, q);
    }
}

// ---------------------------------------------------------------------------
// What casts and renames do
// ---------------------------------------------------------------------------

/// Law: a whole number survives the way to a text and back, and white space round
/// a numeral does not matter.
pub proof fn law_whole_number_casts_to_text_and_back(i: i64, a: Seq<char>, b: Seq<char>)
    requires
        text::blank(a),
        text::blank(b),
    ensures
        to_int(Val::String(a + text::dec_int(i as int) + b)) == Ok::<i64, EtlErrorV>(i),
        to_int(Val::String(Val::Int(i).display())) == Ok::<i64, EtlErrorV>(i),
        to_decimal(Val::Int(i)) == Ok::<Seq<char>, EtlErrorV>(Val::Int(i).display()),
        to_int(Val::Decimal(to_decimal(Val::Int(i))->Ok_0)) == Ok::<i64, EtlErrorV>(i),
        to_int(Val::Int(i)) == Ok::<i64, EtlErrorV>(i),
{
    let t = text::dec_int(i as int);
    let none = Seq::<char>::empty();
    let n = if i < 0 {
        (-(i as int)) as nat
    } else {
        i as nat
    };
    reading::lemma_dec_digits(n);
    let d = text::dec(n);
    assert(t[0] == '-' || '0' <= t[0] <= '9');
    assert(t.last() == d.last());
    assert('0' <= d[d.len() - 1] <= '9');
    text::law_trim_takes_off_outer_space(a, t, b);
    text::law_trim_takes_off_outer_space(none, t, none);
    assert(none + t + none =~= t);
    reading::law_written_number_reads_back(i as int);
}

/// Law: a double is cut to a whole number towards zero; a small whole number is
/// the same number as a double.
pub proof fn law_numbers_cast_by_value(i: i64, f: float::FloatV)
    requires
        -0x20_0000_0000_0000 < i < 0x20_0000_0000_0000,
        f.bits == float::double_of(i as int),
    ensures
        to_int(Val::Float(f)) == Ok::<i64, EtlErrorV>(i),
        to_float(Val::Int(i)) matches Ok(x) && x.bits == f.bits,
        to_float(Val::Float(f)) == Ok::<float::FloatV, EtlErrorV>(f),
{
    float::law_small_whole_numbers_stay_what_they_are(i as int, i as int);
}

/// Law: a number is true just where it is not zero; a text is true or false by a
/// word for it, in any case and with any white space round it; the two words of a
/// truth value cast back to it.
pub proof fn law_truth_values_cast_both_ways(b: bool, i: i64, s: Seq<char>, before: Seq<char>, behind: Seq<char>)
    requires
        text::blank(before),
        text::blank(behind),
        s.len() > 0 ==> !text::is_space(s[0]) && !text::is_space(s.last()),
    ensures
        to_bool(Val::Bool(b)) == Ok::<bool, EtlErrorV>(b),
        to_bool(Val::Int(i)) == Ok::<bool, EtlErrorV>(i != 0),
        to_bool(Val::String(Val::Bool(b).display())) == Ok::<bool, EtlErrorV>(b),
        to_bool(Val::String(Val::Bool(b).literal())) == Ok::<bool, EtlErrorV>(b),
        truth(before + s + behind) == truth(s),
        truth(text::lower(s)) == truth(s),
        truth(s) == Some(true) <==> text::lower(s) == "true"@ || text::lower(s) == "1"@ || text::lower(s) == "yes"@
            || text::lower(s) == "y"@,
{
    reveal_strlit("true");
    reveal_strlit("false");
    reveal_strlit("1");
    reveal_strlit("0");
    reveal_strlit("yes");
    reveal_strlit("no");
    reveal_strlit("y");
    reveal_strlit("n");
    assert("true"@.len() == 4 && "false"@.len() == 5 && "yes"@.len() == 3 && "no"@.len() == 2);
    assert("1"@[0] == '1' && "0"@[0] == '0' && "y"@[0] == 'y' && "n"@[0] == 'n');
    let none = Seq::<char>::empty();
    text::law_trim_takes_off_outer_space(before, s, behind);
    text::law_trim_takes_off_outer_space(none, s, none);
    assert(none + s + none =~= s);
    let l = text::lower(s);
    if s.len() > 0 {
        text::law_lower_changes_capitals_only(s, 0);
        text::law_lower_changes_capitals_only(s, s.len() - 1);
        lemma_lower_keeps_space(s[0]);
        lemma_lower_keeps_space(s.last());
        assert(l[0] == text::lower_char(s[0]) && l.last() == text::lower_char(s.last()));
    } else {
        assert(l =~= s);
    }
    text::law_trim_takes_off_outer_space(none, l, none);
    assert(none + l + none =~= l);
    lemma_plain_word("true"@);
    lemma_plain_word("false"@);
    lemma_plain_word("1"@);
    lemma_plain_word("0"@);
}

proof fn lemma_lower_keeps_space(c: char)
    ensures
        text::is_space(text::lower_char(c)) <==> text::is_space(c),
{
}

proof fn lemma_plain_word(w: Seq<char>)
    requires
        w.len() > 0,
        forall|i: int| 0 <= i < w.len() ==> !text::is_space(#[trigger] w[i]) && !('A' <= w[i] <= 'Z'),
    ensures
        text::lower(text::trim(w)) == w,
{
    let none = Seq::<char>::empty();
    text::law_trim_takes_off_outer_space(none, w, none);
    assert(none + w + none =~= w);
    assert(text::lower(w) =~= w);
}

/// Law: null stays null under every cast. Otherwise a cast gives a value of the
/// kind that it names, in any case: a text is the text that is shown, and a cast
/// under an unknown name is refused.
pub proof fn law_casts_give_what_they_name(v: Val, ty: Seq<char>)
    ensures
        v is Null ==> cast(v, ty) == Ok::<Val, EtlErrorV>(Val::Null),
        !(v is Null) ==> ({
            let t = text::lower(ty);
            &&& t == "int"@ || t == "integer"@ || t == "bigint"@ ==> (cast(v, ty) matches Ok(x) ==> x is Int && Ok::<
                i64,
                EtlErrorV,
            >(x->Int_0) == to_int(v))
            &&& t == "float"@ || t == "double"@ ==> (cast(v, ty) matches Ok(x) ==> x is Float)
            &&& t == "bool"@ || t == "boolean"@ ==> (cast(v, ty) matches Ok(x) ==> x is Bool && Ok::<bool, EtlErrorV>(
                x->Bool_0,
            ) == to_bool(v))
            &&& t == "string"@ || t == "varchar"@ || t == "text"@ ==> cast(v, ty) == Ok::<Val, EtlErrorV>(
                Val::String(v.display()),
            )
            &&& t == "decimal"@ || t == "numeric"@ ==> (cast(v, ty) matches Ok(x) ==> x is Decimal)
            &&& (cast(v, ty) matches Err(e) && e is Config) <==> !(t == "int"@ || t == "integer"@ || t == "bigint"@ || t
                == "float"@ || t == "double"@ || t == "bool"@ || t == "boolean"@ || t == "string"@ || t == "varchar"@ || t
                == "text"@ || t == "decimal"@ || t == "numeric"@)
        }),
{
    reveal_strlit("int");
    reveal_strlit("integer");
    reveal_strlit("bigint");
    reveal_strlit("float");
    reveal_strlit("double");
    reveal_strlit("bool");
    reveal_strlit("boolean");
    reveal_strlit("string");
    reveal_strlit("varchar");
    reveal_strlit("text");
    reveal_strlit("decimal");
    reveal_strlit("numeric");
    assert("int"@[0] == 'i' && "integer"@[0] == 'i' && "bigint"@[0] == 'b' && "float"@[0] == 'f' && "double"@[0] == 'd');
    assert("bool"@[0] == 'b' && "boolean"@[0] == 'b' && "string"@[0] == 's' && "varchar"@[0] == 'v' && "text"@[0] == 't');
    assert("decimal"@[0] == 'd' && "numeric"@[0] == 'n' && "bigint"@[1] == 'i' && "bool"@[1] == 'o' && "boolean"@[1] == 'o');
    assert("decimal"@[1] == 'e' && "double"@[1] == 'o');
}

/// Law: of several renames, none of which touches a column of another, each moves
/// its column: the value stands under the new name and no longer under the old.
/// Every other column stays.
pub proof fn law_renames_move_their_columns(row: Cells, items: Seq<(Seq<char>, Seq<char>)>, c: Seq<char>, i: int)
    requires
        strmap::ordered(row),
        forall|j: int, k: int|
            0 <= j < items.len() && 0 <= k < items.len() ==> (#[trigger] items[j]).0 != (#[trigger] items[k]).1,
        forall|j: int, k: int|
            0 <= j < k < items.len() ==> (#[trigger] items[j]).0 != (#[trigger] items[k]).0 && items[j].1 != items[k].1,
        0 <= i < items.len() ==> strmap::at(row, items[i].0) is Some,
    ensures
        strmap::ordered(renamed(row, items)),
        0 <= i < items.len() ==> strmap::at(renamed(row, items), items[i].1) == strmap::at(row, items[i].0),
        0 <= i < items.len() ==> strmap::at(renamed(row, items), items[i].0) is None,
        (forall|k: int| 0 <= k < items.len() ==> (#[trigger] items[k]).0 != c && items[k].1 != c) ==> strmap::at(
            renamed(row, items),
            c,
        ) == strmap::at(row, c),
    decreases items.len(),
{
    if items.len() > 0 {
        let head = items.drop_last();
        let (f, t) = items.last();
        assert(items[items.len() - 1] == (f, t));
        assert forall|j: int| 0 <= j < head.len() implies #[trigger] head[j] == items[j] by {}
        law_renames_move_their_columns(row, head, c, i);
        law_renames_move_their_columns(row, head, f, i);
        let before = renamed(row, head);
        assert(strmap::at(before, f) == strmap::at(row, f));
        if strmap::at(before, f) is Some {
            law_rename_moves_one_column(before, f, t, c);
            law_rename_moves_one_column(before, f, t, f);
            law_rename_moves_one_column(before, f, t, t);
            if 0 <= i < head.len() {
                law_rename_moves_one_column(before, f, t, items[i].1);
                law_rename_moves_one_column(before, f, t, items[i].0);
            }
        }
    }
}

/// Law: where a list of casts succeeds, each listed column that the row has holds
/// its value as cast, and every other column stays; it fails where one of the
/// listed casts does.
pub proof fn law_casts_apply_to_their_columns(row: Cells, items: Seq<(Seq<char>, Seq<char>)>, c: Seq<char>, i: int)
    requires
        strmap::ordered(row),
        forall|j: int, k: int| 0 <= j < k < items.len() ==> (#[trigger] items[j]).0 != (#[trigger] items[k]).0,
    ensures
        converted(row, items) matches Ok(r) ==> {
            &&& strmap::ordered(r)
            &&& 0 <= i < items.len() ==> (match strmap::at(row, items[i].0) {
                Some(v) => cast(v, items[i].1) is Ok && strmap::at(r, items[i].0) == Some(cast(v, items[i].1)->Ok_0),
                None => strmap::at(r, items[i].0) is None,
            })
            &&& (forall|k: int| 0 <= k < items.len() ==> (#[trigger] items[k]).0 != c) ==> strmap::at(r, c) == strmap::at(
                row,
                c,
            )
        },
        converted(row, items) is Err ==> exists|k: int|
            0 <= k < items.len() && (strmap::at(row, (#[trigger] items[k]).0) matches Some(v) && cast(v, items[k].1) is Err),
    decreases items.len(),
{
    if items.len() > 0 {
        let head = items.drop_last();
        let (f, t) = items.last();
        assert(items[items.len() - 1] == (f, t));
        assert forall|j: int| 0 <= j < head.len() implies #[trigger] head[j] == items[j] by {}
        law_casts_apply_to_their_columns(row, head, c, i);
        law_casts_apply_to_their_columns(row, head, f, i);
        match converted(row, head) {
            Ok(before) => {
                assert(strmap::at(before, f) == strmap::at(row, f));
                if let Some(v) = strmap::at(before, f) {
                    if let Ok(x) = cast(v, t) {
                        strmap::lemma_put(before, f, x);
                        let r = strmap::put(before, f, x);
                        strmap::lemma_dict(before, c);
                        strmap::lemma_dict(r, c);
                        strmap::lemma_dict(before, f);
                        strmap::lemma_dict(r, f);
                        if 0 <= i < head.len() {
                            strmap::lemma_dict(before, items[i].0);
                            strmap::lemma_dict(r, items[i].0);
                        }
                    }
                }
            },
            Err(_) => {
                let k = choose|k: int|
                    0 <= k < head.len() && (strmap::at(row, (#[trigger] head[k]).0) matches Some(v) && cast(v, head[k].1)
                        is Err);
                assert(items[k] == head[k]);
            },
        }
    }
}

/// Law: a decimal is the text of a text or decimal as it stands, and a whole number
/// in digits; a truth value, a date, bytes and null are no decimals.
pub proof fn law_decimals_are_texts_of_numbers(v: Val)
    ensures
        v matches Val::String(s) ==> to_decimal(v) == Ok::<Seq<char>, EtlErrorV>(s),
        v matches Val::Decimal(s) ==> to_decimal(v) == Ok::<Seq<char>, EtlErrorV>(s),
        v matches Val::UInt(u) ==> (to_decimal(v) matches Ok(d) && reading::all_digits(d) && reading::run_value(d) == u),
        v matches Val::Float(f) ==> to_decimal(v) == Ok::<Seq<char>, EtlErrorV>(f.text),
        v is Bool || v is Date || v is Bytes || v is Null ==> to_decimal(v) is Err,
{
    if let Val::UInt(u) = v {
        reading::lemma_dec_digits(u as nat);
    }
}

/// Law: only numbers and texts are cast to numbers; an unsigned number keeps its
/// value where it fits, and is the nearest double to it.
pub proof fn law_numbers_and_texts_cast_to_numbers(v: Val)
    ensures
        v is Bool || v is Bytes || v is Null ==> to_int(v) is Err && to_float(v) is Err,
        v matches Val::UInt(u) ==> (u <= i64::MAX ==> to_int(v) == Ok::<i64, EtlErrorV>(u as i64)),
        v matches Val::UInt(u) ==> (to_float(v) matches Ok(f) && f.bits == float::double_of(u as int)),
        v matches Val::Float(f) ==> (to_int(v) matches Ok(i) && i == float::truncated(f.bits)),
{
    if let Val::Float(f) = v {
        if !float::nan(f.bits) {
            float::law_truncation_goes_towards_zero(f.bits);
        }
    }
}

/// Law: the words for false are `false`, `0`, `no` and `n`, in any case; a text that
/// is neither a word for true nor one for false is no truth value, nor is any value
/// but a truth value, a whole number or a text.
pub proof fn law_words_for_false(s: Seq<char>, v: Val)
    requires
        s.len() > 0 ==> !text::is_space(s[0]) && !text::is_space(s.last()),
    ensures
        truth(s) == Some(false) <==> text::lower(s) == "false"@ || text::lower(s) == "0"@ || text::lower(s) == "no"@
            || text::lower(s) == "n"@,
        truth(s) is None ==> to_bool(Val::String(s)) is Err,
        !(v is Bool || v is Int || v is String) ==> to_bool(v) is Err,
{
    reveal_strlit("true");
    reveal_strlit("false");
    reveal_strlit("1");
    reveal_strlit("0");
    reveal_strlit("yes");
    reveal_strlit("no");
    reveal_strlit("y");
    reveal_strlit("n");
    assert("true"@.len() == 4 && "false"@.len() == 5 && "yes"@.len() == 3 && "no"@.len() == 2);
    assert("1"@[0] == '1' && "0"@[0] == '0' && "y"@[0] == 'y' && "n"@[0] == 'n');
    let none = Seq::<char>::empty();
    text::law_trim_takes_off_outer_space(none, s, none);
    assert(none + s + none =~= s);
}

/// Law: in an ordering a value that is neither a number nor a text counts as the
/// empty text: no text is below it, and it is below every text but the empty one.
pub proof fn law_values_without_an_order_come_first(l: Val, r: Val)
    requires
        l is Null || l is Bool || l is Bytes,
    ensures
        !under(r, l),
        r.text() matches Some(s) ==> (under(l, r) <==> s.len() > 0),
        r is Null || r is Bool || r is Bytes ==> !under(l, r),
{
    reveal_strlit("");
}

/// Law: a step hands on its row, and nothing beside it, to the table it is for.
pub proof fn law_one_row_is_handed_on(table: Seq<char>, row: Cells, e: EtlErrorV)
    ensures
        single(table, row) matches Ok(v) && v.len() == 1 && v[0].table == table && v[0].row == row,
        recast(Ok(row), table) == single(table, row),
        recast(Err(e), table) == Err::<Seq<EtlOutputRowV>, EtlErrorV>(e),
{
}

} // verus!

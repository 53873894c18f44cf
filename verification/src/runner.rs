//! Executes a single job pass: read -> (map columns) -> ETL -> route -> write.

use vstd::prelude::*;

use crate::buckets;
use crate::buckets::{Batch, BatchV, Buckets, GatherV};
use crate::clock::Moment;
use crate::connections;
use crate::connections::{AppLookup, ConnectionManager};
use crate::datasource::Datasource;
use crate::error::{AppErrorV, AppResult, DatasourceErrorV};
use crate::etl::{copy_schema, EtlOutputRow, EtlOutputRowV, EtlProcessor, EtlRow, EtlRowV};
use crate::float;
use crate::job::{JobConfig, JobV, StateSpec, StateSpecV, StateSpecs};
use crate::json;
use crate::link;
use crate::link::{Ask, Deed, Link};
use crate::model;
use crate::model::{Cells, Row, TableSchema, TableSchemaV, Val, Value};
use crate::pipeline;
use crate::pipeline::EtlPipeline;
use crate::reader;
use crate::reader::{value_rises, Reader, ReaderV};
use crate::router;
use crate::router::{Router, RouterV};
use crate::state;
use crate::state::{StateFile, StateStore, StateV};
use crate::strmap;
use crate::strmap::StrMap;
use crate::text;
use crate::text::{copy, copy_all, same};
use crate::views;
use crate::writer;
use crate::writer::{must_truncate, Truncated, Writer};

verus! {

/// The number of rows at which a batch is written.
pub const FLUSH_THRESHOLD: usize = 500;

// ---------------------------------------------------------------------------
// Column mapping
// ---------------------------------------------------------------------------

/// The first `n` target columns, each with the value of the source column at
/// its position.
pub open spec fn positional(row: Cells, src: Seq<Seq<char>>, tgt: Seq<Seq<char>>, n: nat) -> Cells
    decreases n,
{
    if n == 0 {
        Seq::empty()
    } else {
        strmap::put(positional(row, src, tgt, (n - 1) as nat), tgt[n - 1], model::cell(row, src[n - 1]))
    }
}

/// The length of the shorter list.
pub open spec fn shorter(a: Seq<Seq<char>>, b: Seq<Seq<char>>) -> nat {
    if a.len() < b.len() {
        a.len()
    } else {
        b.len()
    }
}

/// A row keyed by source names as one keyed by target names: `tgt[i]` receives
/// `src[i]`. One list alone keeps its columns under their names; without lists
/// the row stays as it is.
pub open spec fn mapped(row: Cells, src: Seq<Seq<char>>, tgt: Seq<Seq<char>>) -> Cells {
    if src.len() == 0 && tgt.len() == 0 {
        row
    } else if src.len() == 0 {
        model::put_cells(Seq::empty(), row, tgt)
    } else if tgt.len() == 0 {
        model::put_cells(Seq::empty(), row, src)
    } else {
        positional(row, src, tgt, shorter(src, tgt))
    }
}

/// Positional column mapping: `target.columns[i]` receives `source.columns[i]`.
/// A row keyed by source names is turned into one keyed by target names.
pub fn map_columns(row: Row, src_columns: &Vec<String>, tgt_columns: &Vec<String>) -> (out: Row)
    ensures
        out@ == mapped(row@, text::views(src_columns@), text::views(tgt_columns@)),
{
    if src_columns.len() == 0 && tgt_columns.len() == 0 {
        return row;
    }
    if src_columns.len() == 0 {
        return row.project(tgt_columns);
    }
    if tgt_columns.len() == 0 {
        return row.project(src_columns);
    }
    let ghost src = text::views(src_columns@);
    let ghost tgt = text::views(tgt_columns@);
    let n: usize = if src_columns.len() < tgt_columns.len() {
        src_columns.len()
    } else {
        tgt_columns.len()
    };
    let mut out = Row::new();
    let mut i: usize = 0;
    while i < n
        invariant
            i <= n,
            n <= src_columns.len(),
            n <= tgt_columns.len(),
            src == text::views(src_columns@),
            tgt == text::views(tgt_columns@),
            out@ == positional(row@, src, tgt, i as nat),
        decreases n - i,
    {
        out.insert(tgt_columns[i].clone(), row.value(src_columns[i].as_str()));
        i += 1;
    }
    out
}

/// Law: with both lists, no target column named twice, each target column holds
/// the value of the source column at its position.
pub proof fn law_columns_map_by_position(row: Cells, src: Seq<Seq<char>>, tgt: Seq<Seq<char>>, n: nat, i: int)
    requires
        n <= shorter(src, tgt),
        0 <= i < n,
        forall|a: int, b: int| 0 <= a < b < n ==> #[trigger] tgt[a] != #[trigger] tgt[b],
    ensures
        strmap::ordered(positional(row, src, tgt, n)),
        strmap::at(positional(row, src, tgt, n), tgt[i]) == Some(model::cell(row, src[i])),
    decreases n,
{
    let m = (n - 1) as nat;
    if m > 0 {
        law_columns_map_by_position(row, src, tgt, m, if i < m {
            i
        } else {
            0
        });
    }
    let p = positional(row, src, tgt, m);
    let k = tgt[m as int];
    let v = model::cell(row, src[m as int]);
    strmap::lemma_put(p, k, v);
    strmap::lemma_dict(strmap::put(p, k, v), tgt[i]);
    strmap::lemma_dict(p, tgt[i]);
}

proof fn lemma_positional(row: Cells, src: Seq<Seq<char>>, tgt: Seq<Seq<char>>, n: nat, c: Seq<char>)
    requires
        n <= shorter(src, tgt),
    ensures
        strmap::ordered(positional(row, src, tgt, n)),
        (forall|i: int| 0 <= i < n ==> #[trigger] tgt[i] != c) ==> strmap::at(positional(row, src, tgt, n), c) is None,
        forall|i: int|
            0 <= i < n && #[trigger] tgt[i] == c && (forall|j: int| i < j < n ==> #[trigger] tgt[j] != c) ==> strmap::at(
                positional(row, src, tgt, n),
                c,
            ) == Some(model::cell(row, src[i])),
    decreases n,
{
    if n > 0 {
        let m = (n - 1) as nat;
        lemma_positional(row, src, tgt, m, c);
        let p = positional(row, src, tgt, m);
        let k = tgt[m as int];
        let v = model::cell(row, src[m as int]);
        strmap::lemma_put(p, k, v);
        strmap::lemma_dict(strmap::put(p, k, v), c);
        strmap::lemma_dict(p, c);
        assert forall|i: int|
            0 <= i < n && #[trigger] tgt[i] == c && (forall|j: int| i < j < n ==> #[trigger] tgt[j] != c) implies strmap::at(
            positional(row, src, tgt, n),
            c,
        ) == Some(model::cell(row, src[i])) by {
            if i < m {
                assert(tgt[m as int] != c);
                assert(forall|j: int| i < j < m ==> #[trigger] tgt[j] != c);
            }
        }
    }
}

/// Law: with both lists, the target column at each position receives what the row
/// holds under the source column at the same position, null where it holds
/// nothing; where a target column is listed again, its last position counts.
/// Positions that only one of the lists has receive nothing.
pub proof fn law_target_columns_receive_source_columns(row: Cells, src: Seq<Seq<char>>, tgt: Seq<Seq<char>>, i: int)
    requires
        0 <= i < src.len(),
        i < tgt.len(),
        forall|j: int| i < j < src.len() && j < tgt.len() ==> #[trigger] tgt[j] != tgt[i],
    ensures
        strmap::at(mapped(row, src, tgt), tgt[i]) == Some(
            match strmap::at(row, src[i]) {
                Some(v) => v,
                None => Val::Null,
            },
        ),
{
    lemma_positional(row, src, tgt, shorter(src, tgt), tgt[i]);
}

/// Law: with both lists, a mapped row has no column but the target columns at the
/// positions that both lists have.
pub proof fn law_mapping_makes_no_other_column(row: Cells, src: Seq<Seq<char>>, tgt: Seq<Seq<char>>, c: Seq<char>)
    requires
        src.len() > 0,
        tgt.len() > 0,
        forall|i: int| 0 <= i < src.len() && i < tgt.len() ==> #[trigger] tgt[i] != c,
    ensures
        strmap::ordered(mapped(row, src, tgt)),
        strmap::at(mapped(row, src, tgt), c) is None,
{
    lemma_positional(row, src, tgt, shorter(src, tgt), c);
}

/// Law: one list alone keeps its columns under their names, null where the row
/// holds nothing, and no others; without lists the row stays as it is.
pub proof fn law_one_list_keeps_its_columns(row: Cells, names: Seq<Seq<char>>, c: Seq<char>)
    requires
        strmap::ordered(row),
        names.len() > 0,
    ensures
        mapped(row, Seq::empty(), Seq::empty()) == row,
        strmap::at(mapped(row, names, Seq::empty()), c) == strmap::at(mapped(row, Seq::empty(), names), c),
        names.contains(c) ==> strmap::at(mapped(row, names, Seq::empty()), c) == Some(
            match strmap::at(row, c) {
                Some(v) => v,
                None => Val::Null,
            },
        ),
        !names.contains(c) ==> strmap::at(mapped(row, names, Seq::empty()), c) is None,
{
    model::law_project_keeps_listed(row, names, c);
}

// ---------------------------------------------------------------------------
// State
// ---------------------------------------------------------------------------

/// The greater of a value so far and a further one; nulls do not count.
pub open spec fn better(best: Option<Val>, v: Option<Val>) -> Option<Val> {
    match v {
        None => best,
        Some(x) => if x is Null {
            best
        } else {
            match best {
                None => Some(x),
                Some(b) => if reader::rises(x, b) {
                    Some(x)
                } else {
                    Some(b)
                },
            }
        },
    }
}

/// The greatest value of a column.
pub open spec fn greatest(rows: Seq<Cells>, column: Seq<char>) -> Option<Val>
    decreases rows.len(),
{
    if rows.len() == 0 {
        None
    } else {
        better(greatest(rows.drop_last(), column), strmap::at(rows.last(), column))
    }
}

/// The state values after a page, one key considered: only a `max` key with a
/// column moves, and only upwards.
pub open spec fn advanced_one(
    values: Seq<(Seq<char>, Val)>,
    key: Seq<char>,
    spec_of: StateSpecV,
    rows: Seq<Cells>,
) -> Seq<(Seq<char>, Val)> {
    if spec_of.kind != "max"@ || spec_of.column == ""@ {
        values
    } else {
        match greatest(rows, spec_of.column) {
            None => values,
            Some(v) => match strmap::at(values, key) {
                None => strmap::put(values, key, v),
                Some(cur) => if reader::rises(v, cur) {
                    strmap::put(values, key, v)
                } else {
                    values
                },
            },
        }
    }
}

/// The state values after a page, key by key.
pub open spec fn advanced(values: Seq<(Seq<char>, Val)>, specs: StateSpecs, rows: Seq<Cells>) -> Seq<(Seq<char>, Val)>
    decreases specs.len(),
{
    if specs.len() == 0 {
        values
    } else {
        advanced_one(advanced(values, specs.drop_last(), rows), specs.last().0, specs.last().1, rows)
    }
}

fn find_greatest(rows: &Vec<Row>, column: &str) -> (out: Option<Value>)
    ensures
        views::opt(out) == greatest(model::rows_view(rows@), column@),
{
    let ghost all = model::rows_view(rows@);
    let mut best: Option<Value> = None;
    let mut i: usize = 0;
    assert(all.take(0) =~= Seq::<Cells>::empty());
    while i < rows.len()
        invariant
            i <= rows.len(),
            all == model::rows_view(rows@),
            views::opt(best) == greatest(all.take(i as int), column@),
        decreases rows.len() - i,
    {
        assert(all.take(i + 1).drop_last() =~= all.take(i as int));
        assert(all.take(i + 1).last() == rows@[i as int]@);
        if let Some(v) = rows[i].get(column) {
            if !v.is_null() {
                let replace = match &best {
                    None => true,
                    Some(b) => value_rises(v, b),
                };
                if replace {
                    best = Some(v.clone());
                }
            }
        }
        i += 1;
    }
    assert(all.take(i as int) =~= all);
    best
}

/// Advance each `max` state spec with the rows of the current page.
pub fn update_state(state: &mut StateStore, rows: &Vec<Row>, specs: &StrMap<StateSpec>)
    ensures
        final(state)@ == (StateV {
            values: advanced(old(state)@.values, specs@, model::rows_view(rows@)),
            ..old(state)@
        }),
{
    let ghost first = state@;
    let ghost all = specs@;
    let ghost page = model::rows_view(rows@);
    let mut i: usize = 0;
    assert(all.take(0) =~= Seq::empty());
    while i < specs.len()
        invariant
            i <= specs@.len(),
            all == specs@,
            page == model::rows_view(rows@),
            state@ == (StateV { values: advanced(first.values, all.take(i as int), page), ..first }),
        decreases specs@.len() - i,
    {
        assert(all.take(i + 1).drop_last() =~= all.take(i as int));
        assert(all.take(i + 1).last() == all[i as int]);
        let key = specs.key_at(i);
        let spec_of = specs.value_at(i);
        if same(spec_of.kind.as_str(), "max") && !same(spec_of.column.as_str(), "") {
            if let Some(v) = find_greatest(rows, spec_of.column.as_str()) {
                let should_update = match state.get(key) {
                    None => true,
                    Some(cur) => value_rises(&v, cur),
                };
                if should_update {
                    state.set(copy(key), v);
                }
            }
        }
        i += 1;
    }
    assert(all.take(i as int) =~= all);
}

proof fn lemma_advanced_one(
    values: Seq<(Seq<char>, Val)>,
    key: Seq<char>,
    spec_of: StateSpecV,
    rows: Seq<Cells>,
    k: Seq<char>,
)
    requires
        strmap::ordered(values),
    ensures
        strmap::ordered(advanced_one(values, key, spec_of, rows)),
        k != key ==> strmap::at(advanced_one(values, key, spec_of, rows), k) == strmap::at(values, k),
        strmap::at(values, key) is Some ==> {
            let new = strmap::at(advanced_one(values, key, spec_of, rows), key);
            new is Some && (new == strmap::at(values, key) || reader::rises(
                new->Some_0,
                strmap::at(values, key)->Some_0,
            ))
        },
{
    if let Some(v) = greatest(rows, spec_of.column) {
        strmap::lemma_put(values, key, v);
        strmap::lemma_dict(values, k);
        strmap::lemma_dict(strmap::put(values, key, v), k);
        strmap::lemma_dict(values, key);
        strmap::lemma_dict(strmap::put(values, key, v), key);
    }
}

/// Law: a stored high-water mark never moves down: after a page it is what it
/// was, or greater. A key that no spec names stays as it is.
pub proof fn law_state_only_moves_up(
    values: Seq<(Seq<char>, Val)>,
    specs: StateSpecs,
    rows: Seq<Cells>,
    key: Seq<char>,
)
    requires
        strmap::ordered(values),
        strmap::ordered(specs),
    ensures
        strmap::ordered(advanced(values, specs, rows)),
        strmap::at(specs, key) is None ==> strmap::at(advanced(values, specs, rows), key) == strmap::at(values, key),
        strmap::at(values, key) is Some ==> {
            let new = strmap::at(advanced(values, specs, rows), key);
            new is Some && (new == strmap::at(values, key) || reader::rises(
                new->Some_0,
                strmap::at(values, key)->Some_0,
            ))
        },
    decreases specs.len(),
{
    if specs.len() > 0 {
        let rest = specs.drop_last();
        assert forall|i: int, j: int| 0 <= i < j < rest.len() implies text::less(
            #[trigger] rest[i].0,
            #[trigger] rest[j].0,
        ) by {
            assert(text::less(specs[i].0, specs[j].0));
        }
        law_state_only_moves_up(values, rest, rows, key);
        let mid = advanced(values, rest, rows);
        let k = specs.last().0;
        lemma_advanced_one(mid, k, specs.last().1, rows, key);
        if key == k {
            // no earlier spec names this key
            assert forall|i: int| 0 <= i < rest.len() implies #[trigger] rest[i].0 != key by {
                assert(text::less(specs[i].0, specs[specs.len() - 1].0));
                text::lemma_less_irreflexive(key);
            }
            strmap::lemma_at_absent(rest, key);
        }
    }
}

/// Whether the values of a column that are not null are all numbers, or all none.
pub open spec fn of_kind(rows: Seq<Cells>, column: Seq<char>, numeric: bool) -> bool {
    forall|i: int|
        0 <= i < rows.len() ==> (strmap::at(#[trigger] rows[i], column) matches Some(v) ==> v is Null || (reader::number(v)
            is Some) == numeric)
}

/// As [`of_kind`], for some pages.
pub open spec fn pages_of_kind(pages: Seq<Seq<Cells>>, column: Seq<char>, numeric: bool) -> bool {
    forall|i: int| 0 <= i < pages.len() ==> of_kind(#[trigger] pages[i], column, numeric)
}

/// Whether a column holds values of one kind: all numbers, or none.
pub open spec fn one_kind(pages: Seq<Seq<Cells>>, column: Seq<char>) -> bool {
    pages_of_kind(pages, column, true) || pages_of_kind(pages, column, false)
}

proof fn lemma_greatest_is_listed(rows: Seq<Cells>, column: Seq<char>)
    ensures
        greatest(rows, column) matches Some(b) ==> !(b is Null) && exists|k: int|
            0 <= k < rows.len() && strmap::at(#[trigger] rows[k], column) == Some(b),
    decreases rows.len(),
{
    if rows.len() > 0 {
        let head = rows.drop_last();
        let n = rows.len() - 1;
        lemma_greatest_is_listed(head, column);
        assert(rows.last() == rows[n]);
        if let Some(b) = greatest(rows, column) {
            if greatest(head, column) == Some(b) {
                let k = choose|k: int| 0 <= k < head.len() && strmap::at(#[trigger] head[k], column) == Some(b);
                assert(rows[k] == head[k]);
            } else {
                assert(strmap::at(rows[n], column) == Some(b));
            }
        }
    }
}

/// Law: the greatest value of a column of one kind is among its values and is
/// exceeded by none of them.
pub proof fn law_greatest_is_not_exceeded(rows: Seq<Cells>, column: Seq<char>, numeric: bool, i: int)
    requires
        of_kind(rows, column, numeric),
        0 <= i < rows.len(),
    ensures
        strmap::at(rows[i], column) matches Some(v) ==> v is Null || (greatest(rows, column) is Some && !reader::rises(
            v,
            greatest(rows, column)->Some_0,
        )),
        greatest(rows, column) matches Some(b) ==> !(b is Null) && (reader::number(b) is Some) == numeric && exists|k: int|
            0 <= k < rows.len() && strmap::at(#[trigger] rows[k], column) == Some(b),
    decreases rows.len(),
{
    let head = rows.drop_last();
    let n = rows.len() - 1;
    let last = strmap::at(rows[n], column);
    lemma_greatest_is_listed(rows, column);
    assert forall|k: int| 0 <= k < head.len() implies (strmap::at(#[trigger] head[k], column) matches Some(v) ==> v is Null
        || (reader::number(v) is Some) == numeric) by {
        assert(head[k] == rows[k]);
    }
    if i < n {
        law_greatest_is_not_exceeded(head, column, numeric, i);
        assert(head[i] == rows[i]);
        if let (Some(b), Some(x), Some(v)) = (greatest(head, column), last, strmap::at(rows[i], column)) {
            reader::law_marks_are_strictly_ordered(b, x, v);
        }
    }
    if let Some(x) = last {
        reader::law_marks_are_strictly_ordered(x, x, x);
    }
    assert(rows.last() == rows[n]);
}

/// Law: a page moves each mark by its own column alone, as [`risen`] says; a key
/// that no spec names stays as it is.
pub proof fn law_mark_moves_with_its_column(
    values: Seq<(Seq<char>, Val)>,
    specs: StateSpecs,
    rows: Seq<Cells>,
    key: Seq<char>,
)
    requires
        strmap::ordered(values),
        strmap::ordered(specs),
    ensures
        strmap::ordered(advanced(values, specs, rows)),
        strmap::at(advanced(values, specs, rows), key) == (match strmap::at(specs, key) {
            None => strmap::at(values, key),
            Some(x) => risen(strmap::at(values, key), x, rows),
        }),
    decreases specs.len(),
{
    if specs.len() > 0 {
        let rest = specs.drop_last();
        let (k, x) = specs.last();
        assert forall|i: int, j: int| 0 <= i < j < rest.len() implies text::less(
            #[trigger] rest[i].0,
            #[trigger] rest[j].0,
        ) by {
            assert(text::less(specs[i].0, specs[j].0));
        }
        law_mark_moves_with_its_column(values, rest, rows, key);
        let mid = advanced(values, rest, rows);
        if let Some(v) = greatest(rows, x.column) {
            strmap::lemma_put(mid, k, v);
            strmap::lemma_dict(mid, key);
            strmap::lemma_dict(strmap::put(mid, k, v), key);
        }
        if key == k {
            assert forall|i: int| 0 <= i < rest.len() implies #[trigger] rest[i].0 != key by {
                assert(text::less(specs[i].0, specs[specs.len() - 1].0));
                text::lemma_less_irreflexive(key);
            }
            strmap::lemma_at_absent(rest, key);
        }
    }
}

/// What becomes of a mark: it moves to the greatest value of its column where it
/// was unset or that lies above it.
pub open spec fn risen(mark: Option<Val>, spec_of: StateSpecV, rows: Seq<Cells>) -> Option<Val> {
    if spec_of.kind != "max"@ || spec_of.column == ""@ {
        mark
    } else {
        match (greatest(rows, spec_of.column), mark) {
            (None, _) => mark,
            (Some(v), None) => Some(v),
            (Some(v), Some(cur)) => if reader::rises(v, cur) {
                Some(v)
            } else {
                mark
            },
        }
    }
}

/// Whether a column holds numbers other than the NaN, and its mark, if any, is a
/// numeral.
pub open spec fn number_column(mark: Option<Val>, rows: Seq<Cells>, column: Seq<char>) -> bool {
    &&& mark matches Some(m) ==> reader::numeral(m) is Some
    &&& forall|i: int|
        0 <= i < rows.len() ==> (strmap::at(#[trigger] rows[i], column) matches Some(v) ==> v is Null || (
        reader::number(v) matches Some(x) && !float::nan(x)))
}

/// Whether a column holds texts or dates, and its mark, if any, has a text.
pub open spec fn text_column(mark: Option<Val>, rows: Seq<Cells>, column: Seq<char>) -> bool {
    &&& mark matches Some(m) ==> m.text() is Some
    &&& forall|i: int|
        0 <= i < rows.len() ==> (strmap::at(#[trigger] rows[i], column) matches Some(v) ==> v is Null || v is String || v
            is Date)
}

/// Whether a value is greater than a mark, in the order of numbers or of texts.
pub open spec fn exceeds(v: Val, mark: Val, numeric: bool) -> bool {
    if numeric {
        float::below(reader::numeral(mark)->Some_0, reader::numeral(v)->Some_0)
    } else {
        text::less(mark.text()->Some_0, v.text()->Some_0)
    }
}

/// Law: after a page a `max` mark is the maximum of what it was and the values of
/// its column, for every column of numbers and for every column of texts or
/// dates: it is one of them, and none of them exceeds it.
pub proof fn law_mark_is_the_maximum(
    values: Seq<(Seq<char>, Val)>,
    specs: StateSpecs,
    rows: Seq<Cells>,
    key: Seq<char>,
    numeric: bool,
    i: int,
)
    requires
        strmap::ordered(values),
        strmap::ordered(specs),
        strmap::at(specs, key) matches Some(x) && x.kind == "max"@ && x.column != ""@,
        numeric ==> number_column(strmap::at(values, key), rows, strmap::at(specs, key)->Some_0.column),
        !numeric ==> text_column(strmap::at(values, key), rows, strmap::at(specs, key)->Some_0.column),
        0 <= i < rows.len(),
    ensures
        ({
            let old_mark = strmap::at(values, key);
            let new_mark = strmap::at(advanced(values, specs, rows), key);
            let column = strmap::at(specs, key)->Some_0.column;
            &&& strmap::at(rows[i], column) matches Some(v) ==> v is Null || (new_mark is Some && !exceeds(
                v,
                new_mark->Some_0,
                numeric,
            ))
            &&& old_mark matches Some(m) ==> new_mark is Some && !exceeds(m, new_mark->Some_0, numeric)
            &&& new_mark matches Some(m) ==> old_mark == Some(m) || exists|k: int|
                0 <= k < rows.len() && strmap::at(#[trigger] rows[k], column) == Some(m)
        }),
{
    let column = strmap::at(specs, key)->Some_0.column;
    let mark = strmap::at(values, key);
    law_mark_moves_with_its_column(values, specs, rows, key);
    assert(of_kind(rows, column, numeric));
    law_greatest_is_not_exceeded(rows, column, numeric, i);
    let v = strmap::at(rows[i], column);
    if let Some(g) = greatest(rows, column) {
        let k = choose|k: int| 0 <= k < rows.len() && strmap::at(#[trigger] rows[k], column) == Some(g);
        if !numeric {
            lemma_text_mark(mark, g, v);
        }
    }
    if let Some(m) = mark {
        if !numeric {
            text::lemma_less_irreflexive(m.text()->Some_0);
        }
    }
}

proof fn lemma_text_mark(mark: Option<Val>, g: Val, v: Option<Val>)
    requires
        mark matches Some(m) ==> m.text() is Some,
        g.text() is Some,
    ensures
        !text::less(g.text()->Some_0, g.text()->Some_0),
        mark matches Some(m) ==> (text::less(m.text()->Some_0, g.text()->Some_0) ==> !text::less(
            g.text()->Some_0,
            m.text()->Some_0,
        )),
        mark matches Some(m) && v is Some && v->Some_0.text() is Some && !text::less(
            g.text()->Some_0,
            v->Some_0.text()->Some_0,
        ) && !text::less(m.text()->Some_0, g.text()->Some_0) ==> !text::less(
            mark->Some_0.text()->Some_0,
            v->Some_0.text()->Some_0,
        ),
{
    let y = g.text()->Some_0;
    text::lemma_less_irreflexive(y);
    if let Some(m) = mark {
        let x = m.text()->Some_0;
        if text::less(x, y) && text::less(y, x) {
            text::lemma_less_transitive(x, y, x);
            text::lemma_less_irreflexive(x);
        }
        if v is Some && v->Some_0.text() is Some {
            let z = v->Some_0.text()->Some_0;
            text::lemma_less_total(y, z);
            if text::less(x, z) && text::less(z, y) {
                text::lemma_less_transitive(x, z, y);
            }
        }
    }
}

/// Law: reading the same page again moves no mark.
pub proof fn law_second_reading_changes_nothing(
    values: Seq<(Seq<char>, Val)>,
    specs: StateSpecs,
    rows: Seq<Cells>,
    key: Seq<char>,
)
    requires
        strmap::ordered(values),
        strmap::ordered(specs),
    ensures
        strmap::at(advanced(advanced(values, specs, rows), specs, rows), key) == strmap::at(
            advanced(values, specs, rows),
            key,
        ),
{
    law_mark_moves_with_its_column(values, specs, rows, key);
    law_mark_moves_with_its_column(advanced(values, specs, rows), specs, rows, key);
    if let Some(x) = strmap::at(specs, key) {
        if let Some(g) = greatest(rows, x.column) {
            reader::law_marks_are_strictly_ordered(g, g, g);
        }
    }
}

// ---------------------------------------------------------------------------
// One pass
// ---------------------------------------------------------------------------

/// What the rows of a pass go through.
pub struct Scene<'b, 'a, D: Datasource, P> {
    pub job: &'b JobConfig,
    pub etl: &'b EtlPipeline<P>,
    pub lookup: AppLookup<'a, D>,
    pub writer: Writer,
    pub schema: Option<TableSchema>,
    pub threshold: usize,
}

/// What a row enters the pipeline as.
pub open spec fn entry(job: JobV, schema: Option<TableSchemaV>, row: Cells) -> EtlRowV {
    EtlRowV {
        source_connection: job.source.connection,
        source_table: job.source.table,
        target_connections: seq![job.target.connection],
        row: mapped(row, job.source.columns, job.target.columns),
        source_schema: schema,
        target_schema: None,
    }
}

/// The key columns of a table: those of the job's target; other tables have none.
pub open spec fn keys_for(job: JobV, table: Seq<char>) -> Seq<Seq<char>> {
    if table == job.target.table {
        job.target.primary_key
    } else {
        Seq::empty()
    }
}

/// A batch that was written: what was done for it, and the number of rows that
/// it counted for.
#[verifier::ext_equal]
pub struct Shipment {
    pub batch: BatchV,
    pub deeds: Seq<Deed>,
    pub count: u64,
}

/// What was done for all shipments, in order.
pub open spec fn all_deeds(log: Seq<Shipment>) -> Seq<Deed>
    decreases log.len(),
{
    if log.len() == 0 {
        Seq::empty()
    } else {
        all_deeds(log.drop_last()) + log.last().deeds
    }
}

/// The tables that the shipments truncated.
pub open spec fn truncated_by(mode: model::SyncMode, log: Seq<Shipment>) -> Truncated
    decreases log.len(),
{
    if log.len() == 0 {
        Seq::empty()
    } else {
        truncated_after(mode, truncated_by(mode, log.drop_last()), log.last().batch)
    }
}

/// The truncated tables after one more batch; an empty one is not written.
pub open spec fn truncated_after(mode: model::SyncMode, truncated: Truncated, b: BatchV) -> Truncated {
    if b.rows.len() == 0 {
        truncated
    } else {
        writer::marked(mode, truncated, b.table)
    }
}

/// The batches of the shipments.
pub open spec fn batches(log: Seq<Shipment>) -> Seq<BatchV> {
    log.map_values(|x: Shipment| x.batch)
}

/// The outputs of all rows, one after the other.
pub open spec fn joined_lists(lists: Seq<Seq<EtlOutputRowV>>) -> Seq<EtlOutputRowV>
    decreases lists.len(),
{
    if lists.len() == 0 {
        Seq::empty()
    } else {
        joined_lists(lists.drop_last()) + lists.last()
    }
}

/// The rows of all pages, one after the other.
pub open spec fn all_rows(pages: Seq<Seq<Cells>>) -> Seq<Cells>
    decreases pages.len(),
{
    if pages.len() == 0 {
        Seq::empty()
    } else {
        all_rows(pages.drop_last()) + pages.last()
    }
}

/// The state values after the pages, page by page.
pub open spec fn advanced_by(values: Seq<(Seq<char>, Val)>, specs: StateSpecs, pages: Seq<Seq<Cells>>) -> Seq<
    (Seq<char>, Val),
>
    decreases pages.len(),
{
    if pages.len() == 0 {
        values
    } else {
        advanced(advanced_by(values, specs, pages.drop_last()), specs, pages.last())
    }
}

/// The course of a pass.
#[verifier::ext_equal]
pub struct Course {
    /// The questions by which the query was built.
    pub opening: Seq<Ask>,
    /// The reader at its start.
    pub reader: ReaderV,
    /// The pages that were read.
    pub pages: Seq<Seq<Cells>>,
    /// The question after these pages, if any.
    pub last: Seq<Ask>,
    /// What the pipeline made of each row.
    pub lists: Seq<Seq<EtlOutputRowV>>,
    /// The batches that were written.
    pub log: Seq<Shipment>,
    /// What was done after that.
    pub rest: Seq<Deed>,
}

impl Course {
    /// All questions, in order.
    pub open spec fn asks(self) -> Seq<Ask> {
        self.opening + reader::questions(self.reader, self.pages) + self.last
    }

    /// All deeds, in order.
    pub open spec fn deeds(self) -> Seq<Deed> {
        all_deeds(self.log) + self.rest
    }

    /// No page is empty.
    pub open spec fn pages_full(self) -> bool {
        forall|k: int| 0 <= k < self.pages.len() ==> (#[trigger] self.pages[k]).len() > 0
    }

    /// The source was read to its end: the reader is done, or the last page was
    /// empty.
    pub open spec fn exhausted(self) -> bool {
        let at = reader::after_pages(self.reader, self.pages);
        if at.done {
            self.last.len() == 0
        } else {
            self.last == seq![at.question(Ok(Seq::empty()))]
        }
    }

    /// The page after these could not be read.
    pub open spec fn unread(self, e: AppErrorV) -> bool {
        let at = reader::after_pages(self.reader, self.pages);
        &&& !at.done
        &&& self.last.len() == 1
        &&& self.last[0] matches Ask::Page { answer, .. } && self.last[0] == at.question(answer) && at.page(answer)
            == Err::<Option<Seq<Cells>>, AppErrorV>(e)
    }
}

impl<'b, 'a, D: Datasource, P: EtlProcessor<AppLookup<'a, D>>> Scene<'b, 'a, D, P> {
    /// Whether the pipeline can make this of a row.
    pub open spec fn row_gives(self, row: Cells, r: Result<Seq<EtlOutputRowV>, AppErrorV>) -> bool {
        self.etl.gives(self.lookup, entry(self.job@, views::opt(self.schema), row), self.job@.target.table, r)
    }

    /// Whether the write of a batch does just this and comes to `r`, with these
    /// tables truncated before.
    pub open spec fn batch_gives(self, truncated: Truncated, b: BatchV, deeds: Seq<Deed>, r: Result<u64, AppErrorV>) -> bool {
        self.writer@.writes(
            writer::truncates(self.writer.mode, truncated, b.table),
            b.table,
            b.rows,
            keys_for(self.job@, b.table),
            deeds,
            r,
        )
    }

    /// Whether the shipments are writes of their batches, in order.
    pub open spec fn ships(self, log: Seq<Shipment>) -> bool {
        forall|i: int|
            0 <= i < log.len() ==> self.batch_gives(
                truncated_by(self.writer.mode, log.take(i)),
                (#[trigger] log[i]).batch,
                log[i].deeds,
                Ok(log[i].count),
            )
    }

    /// Whether the lists can be what the pipeline made of the rows, in order.
    pub open spec fn runs(self, rows: Seq<Cells>, lists: Seq<Seq<EtlOutputRowV>>) -> bool {
        &&& rows.len() == lists.len()
        &&& forall|i: int| 0 <= i < rows.len() ==> self.row_gives(rows[i], Ok(#[trigger] lists[i]))
    }

    /// What is pending before the first row.
    pub open spec fn start(self) -> GatherV {
        let n = if self.job@.writers < 1 {
            1
        } else {
            self.job@.writers as nat
        };
        GatherV {
            buckets: Seq::new(n, |w: int| Seq::<(Seq<char>, Seq<Cells>)>::empty()),
            router: RouterV {
                n,
                main_table: self.job@.target.table,
                main_pk: self.job@.target.primary_key,
                round: 0,
            },
        }
    }

    /// The batches that become due while the outputs come in, in order.
    pub open spec fn due(self, outs: Seq<EtlOutputRowV>) -> Seq<BatchV> {
        self.start().all_due(outs, self.job@.target.table, self.threshold as int)
    }

    /// All batches of the outputs: those that become due, then what is left.
    pub open spec fn plan(self, outs: Seq<EtlOutputRowV>) -> Seq<BatchV> {
        self.due(outs) + buckets::drained(
            self.start().after_all(outs, self.job@.target.table, self.threshold as int).buckets,
        )
    }

    /// What closes a pass: a full one that wrote nothing to the target table
    /// truncates it all the same.
    pub open spec fn closing(self, log: Seq<Shipment>) -> Seq<Deed> {
        if writer::truncates(self.writer.mode, truncated_by(self.writer.mode, log), self.job@.target.table) {
            seq![self.writer@.truncation(self.job@.target.table, Ok(()))]
        } else {
            Seq::empty()
        }
    }

    /// Whether the truncate that closes a pass is all that was done, and fails so.
    pub open spec fn closing_fails(self, log: Seq<Shipment>, rest: Seq<Deed>, e: AppErrorV) -> bool {
        &&& self.closing(log).len() == 1
        &&& rest.len() == 1
        &&& rest[0] matches Deed::Truncate { outcome: Err(x), .. } && rest[0] == self.writer@.truncation(
            self.job@.target.table,
            Err(x),
        ) && e == writer::not_truncated(self.job@.target.table, x)
    }

    /// Whether the rows before the next one went through the pipeline and all was
    /// written that was due, and nothing else done.
    pub open spec fn keeps_up(self, rows: Seq<Cells>, c: Course) -> bool {
        &&& self.runs(rows, c.lists)
        &&& self.ships(c.log)
        &&& batches(c.log) == self.due(joined_lists(c.lists))
        &&& c.rest.len() == 0
    }

    /// Whether the pipeline refuses so the row that follows those it took.
    pub open spec fn row_halts(self, rows: Seq<Cells>, c: Course, e: AppErrorV) -> bool {
        &&& c.lists.len() < rows.len()
        &&& self.keeps_up(rows.take(c.lists.len() as int), c)
        &&& self.row_gives(rows[c.lists.len() as int], Err(e))
    }

    /// Whether the write of the batch that `k` outputs made due fails so.
    pub open spec fn batch_halts(self, rows: Seq<Cells>, c: Course, k: int, e: AppErrorV) -> bool {
        let due = self.due(joined_lists(c.lists).take(k));
        &&& c.lists.len() <= rows.len()
        &&& self.runs(rows.take(c.lists.len() as int), c.lists)
        &&& self.ships(c.log)
        &&& 0 <= k <= joined_lists(c.lists).len()
        &&& due.len() == c.log.len() + 1
        &&& due.drop_last() == batches(c.log)
        &&& self.batch_gives(truncated_by(self.writer.mode, c.log), due.last(), c.rest, Err(e))
    }

    /// Whether a pass halts so on these rows: on one that the pipeline refuses, or
    /// on a batch that is due.
    pub open spec fn halts(self, rows: Seq<Cells>, c: Course, e: AppErrorV) -> bool {
        self.row_halts(rows, c, e) || exists|k: int| #[trigger] self.batch_halts(rows, c, k, e)
    }

    /// Whether a pass halts so behind its last row: on a batch of what was left,
    /// or on the truncate that closes it.
    pub open spec fn end_halts(self, rows: Seq<Cells>, c: Course, e: AppErrorV) -> bool {
        let plan = self.plan(joined_lists(c.lists));
        &&& self.runs(rows, c.lists)
        &&& self.ships(c.log)
        &&& self.due(joined_lists(c.lists)).len() <= c.log.len() <= plan.len()
        &&& batches(c.log) == plan.take(c.log.len() as int)
        &&& if c.log.len() < plan.len() {
            self.batch_gives(truncated_by(self.writer.mode, c.log), plan[c.log.len() as int], c.rest, Err(e))
        } else {
            self.closing_fails(c.log, c.rest, e)
        }
    }

    /// Whether a pass is complete so: every row went through the pipeline, every
    /// output was routed and written, in batches of the threshold and at the end
    /// what was left.
    pub open spec fn finishes(self, rows: Seq<Cells>, c: Course) -> bool {
        &&& self.runs(rows, c.lists)
        &&& self.ships(c.log)
        &&& batches(c.log) == self.plan(joined_lists(c.lists))
        &&& c.rest == self.closing(c.log)
    }

    proof fn lemma_halts_longer(self, rows: Seq<Cells>, more: Seq<Cells>, c: Course, e: AppErrorV)
        requires
            self.halts(rows, c, e),
        ensures
            self.halts(rows + more, c, e),
    {
        let n = c.lists.len() as int;
        if self.row_halts(rows, c, e) {
            assert((rows + more).take(n) =~= rows.take(n));
            assert((rows + more)[n] == rows[n]);
            assert(self.row_halts(rows + more, c, e));
        } else {
            let k = choose|k: int| #[trigger] self.batch_halts(rows, c, k, e);
            assert((rows + more).take(n) =~= rows.take(n));
            assert(self.batch_halts(rows + more, c, k, e));
        }
    }

    /// Run the pipeline on one row.
    fn run_row(&self, row: Row) -> (out: AppResult<Vec<EtlOutputRow>>)
        ensures
            self.row_gives(row@, pipeline::run_view(out)),
    {
        let job = self.job;
        let base = map_columns(row, &job.source.columns, &job.target.columns);
        let mut targets: Vec<String> = Vec::new();
        targets.push(job.target.connection.clone());
        assert(text::views(targets@) =~= seq![job@.target.connection]);
        let input = EtlRow {
            source_connection: job.source.connection.clone(),
            source_table: job.source.table.clone(),
            target_connections: targets,
            row: base,
            source_schema: copy_schema(&self.schema),
            target_schema: None,
        };
        assert(input@ == entry(job@, views::opt(self.schema), row@));
        self.etl.run(&input, &self.lookup, job.target.table.as_str())
    }
}

/// Where a pass stands.
pub struct Pass {
    pub buckets: Buckets,
    pub router: Router,
    pub truncated: StrMap<bool>,
    pub written: u64,
    /// What was done before the pass.
    pub before: Ghost<Seq<Deed>>,
    /// The rows that were taken.
    pub rows: Ghost<Seq<Cells>>,
    pub course: Ghost<Course>,
}

impl Pass {
    pub open spec fn gathered(self) -> GatherV {
        GatherV { buckets: self.buckets@, router: self.router@ }
    }

    /// The writes took place, nothing else was done, and they were counted.
    pub open spec fn accounts<'b, 'a, D: Datasource, P: EtlProcessor<AppLookup<'a, D>>>(
        self,
        scene: Scene<'b, 'a, D, P>,
        done: Seq<Deed>,
    ) -> bool {
        &&& scene.ships(self.course@.log)
        &&& self.truncated@ == truncated_by(scene.writer.mode, self.course@.log)
        &&& self.written == link::counted(all_deeds(self.course@.log))
        &&& self.course@.rest.len() == 0
        &&& done == self.before@ + all_deeds(self.course@.log)
    }

    /// What was written is what the outputs made due, and the rest is pending.
    pub open spec fn follows<'b, 'a, D: Datasource, P: EtlProcessor<AppLookup<'a, D>>>(
        self,
        scene: Scene<'b, 'a, D, P>,
        done: Seq<Deed>,
        outs: Seq<EtlOutputRowV>,
    ) -> bool {
        &&& self.gathered().fits()
        &&& self.gathered() == scene.start().after_all(outs, scene.job@.target.table, scene.threshold as int)
        &&& batches(self.course@.log) == scene.due(outs)
        &&& self.accounts(scene, done)
    }

    /// As [`Pass::follows`], for the rows that were taken.
    pub open spec fn is_even<'b, 'a, D: Datasource, P: EtlProcessor<AppLookup<'a, D>>>(
        self,
        scene: Scene<'b, 'a, D, P>,
        done: Seq<Deed>,
    ) -> bool {
        &&& scene.runs(self.rows@, self.course@.lists)
        &&& self.follows(scene, done, joined_lists(self.course@.lists))
    }

    /// Whether a pass differs from another one in its log alone.
    pub open spec fn logs_on(self, other: Pass) -> bool {
        &&& self.gathered() == other.gathered()
        &&& self.before@ == other.before@
        &&& self.rows@ == other.rows@
        &&& self.course@ == (Course { log: self.course@.log, rest: self.course@.rest, ..other.course@ })
    }
}

proof fn lemma_log_push<'b, 'a, D: Datasource, P: EtlProcessor<AppLookup<'a, D>>>(
    scene: Scene<'b, 'a, D, P>,
    log: Seq<Shipment>,
    x: Shipment,
)
    requires
        scene.ships(log),
        scene.batch_gives(truncated_by(scene.writer.mode, log), x.batch, x.deeds, Ok(x.count)),
    ensures
        scene.ships(log.push(x)),
        truncated_by(scene.writer.mode, log.push(x)) == truncated_after(
            scene.writer.mode,
            truncated_by(scene.writer.mode, log),
            x.batch,
        ),
        all_deeds(log.push(x)) == all_deeds(log) + x.deeds,
        link::counted(all_deeds(log.push(x))) == (link::counted(all_deeds(log)) + x.count) % 0x1_0000_0000_0000_0000,
        batches(log.push(x)) == batches(log).push(x.batch),
{
    let longer = log.push(x);
    assert(longer.drop_last() =~= log);
    assert(batches(longer) =~= batches(log).push(x.batch));
    assert forall|i: int| 0 <= i < longer.len() implies scene.batch_gives(
        truncated_by(scene.writer.mode, longer.take(i)),
        (#[trigger] longer[i]).batch,
        longer[i].deeds,
        Ok(longer[i].count),
    ) by {
        assert(longer.take(i) =~= log.take(i));
        if i < log.len() {
            assert(longer[i] == log[i]);
        } else {
            assert(log.take(i) =~= log);
        }
    }
    link::lemma_counted_append(all_deeds(log), x.deeds);
    writer::law_write_counts_its_inserts(
        scene.writer@,
        writer::truncates(scene.writer.mode, truncated_by(scene.writer.mode, log), x.batch.table),
        x.batch.table,
        x.batch.rows,
        keys_for(scene.job@, x.batch.table),
        x.deeds,
        x.count,
    );
}

impl<'b, 'a, D: Datasource, P: EtlProcessor<AppLookup<'a, D>>> Scene<'b, 'a, D, P> {
    fn begin(&self, Ghost(before): Ghost<Seq<Deed>>, Ghost(course): Ghost<Course>) -> (out: Pass)
        requires
            course.lists.len() == 0,
            course.log.len() == 0,
            course.rest.len() == 0,
        ensures
            out.is_even(*self, before),
            out.before@ == before,
            out.rows@ == Seq::<Cells>::empty(),
            out.course@ == course,
    {
        let n = if self.job.writers < 1 {
            1
        } else {
            self.job.writers
        };
        let out = Pass {
            buckets: Buckets::new(n),
            router: Router::new(
                self.job.writers,
                self.job.target.table.clone(),
                copy_all(&self.job.target.primary_key),
            ),
            truncated: StrMap::new(),
            written: 0,
            before: Ghost(before),
            rows: Ghost(Seq::empty()),
            course: Ghost(course),
        };
        proof {
            assert(out.gathered() =~= self.start());
            assert(batches(course.log) =~= Seq::<BatchV>::empty());
            assert(before + all_deeds(course.log) =~= before);
        }
        out
    }

    /// Write one batch and count it.
    fn flush_bucket<Z: Fn(u64)>(&self, link: &mut Link<'a, D, Z>, pass: &mut Pass, batch: &Batch) -> (out: AppResult<()>)
        requires
            old(link).ready(),
            old(link).reaches(self.writer@.connection),
            old(pass).accounts(*self, old(link).done()),
        ensures
            final(link).ready(),
            final(link).conns() == old(link).conns(),
            final(link).asked() == old(link).asked(),
            final(pass).logs_on(*old(pass)),
            match out {
                Ok(_) => {
                    &&& final(pass).accounts(*self, final(link).done())
                    &&& batches(final(pass).course@.log) == batches(old(pass).course@.log).push(batch@)
                },
                Err(e) => {
                    &&& final(pass).course@.log == old(pass).course@.log
                    &&& final(link).done() == old(link).done() + final(pass).course@.rest
                    &&& self.batch_gives(
                        truncated_by(self.writer.mode, old(pass).course@.log),
                        batch@,
                        final(pass).course@.rest,
                        Err(e@),
                    )
                },
            },
    {
        let ghost log = pass.course@.log;
        let ghost first = link.done();
        let ghost truncated = pass.truncated@;
        let pk = if same(batch.table.as_str(), self.job.target.table.as_str()) {
            copy_all(&self.job.target.primary_key)
        } else {
            Vec::new()
        };
        assert(text::views(pk@) =~= keys_for(self.job@, batch@.table));
        let r = self.writer.write_batch(link, &mut pass.truncated, batch.table.as_str(), &batch.rows, &pk);
        let ghost deeds = choose|deeds: Seq<Deed>|
            link.done() == first + deeds && #[trigger] self.writer@.writes(
                writer::truncates(self.writer.mode, truncated, batch@.table),
                batch@.table,
                batch@.rows,
                text::views(pk@),
                deeds,
                writer::count_view(r),
            );
        assert(self.batch_gives(truncated, batch@, deeds, writer::count_view(r)));
        match r {
            Ok(n) => {
                let ghost x = Shipment { batch: batch@, deeds, count: n };
                proof {
                    lemma_log_push(*self, log, x);
                    assert(link.done() =~= pass.before@ + all_deeds(log.push(x)));
                }
                let sum: u128 = (pass.written as u128 + n as u128) % 0x1_0000_0000_0000_0000;
                pass.written = sum as u64;
                pass.course = Ghost(Course { log: log.push(x), ..pass.course@ });
                Ok(())
            },
            Err(e) => {
                pass.course = Ghost(Course { rest: deeds, ..pass.course@ });
                Err(e)
            },
        }
    }

    proof fn lemma_due_push(self, log: Seq<Shipment>, outs: Seq<EtlOutputRowV>, k: int, b: BatchV)
        requires
            0 < k <= outs.len(),
            batches(log).push(b) == self.due(outs.take(k)),
        ensures
            self.due(outs.take(k)).len() == log.len() + 1,
            self.due(outs.take(k)).drop_last() == batches(log),
            self.due(outs.take(k)).last() == b,
    {
        assert(batches(log).push(b).drop_last() =~= batches(log));
    }

    /// One output is routed, and the batch that it makes due is written.
    #[verifier::spinoff_prover]
    fn deliver<Z: Fn(u64)>(&self, link: &mut Link<'a, D, Z>, pass: &mut Pass, o: EtlOutputRow, Ghost(outs): Ghost<
        Seq<EtlOutputRowV>,
    >) -> (out: AppResult<()>)
        requires
            old(link).ready(),
            old(link).reaches(self.writer@.connection),
            old(pass).follows(*self, old(link).done(), outs),
        ensures
            final(link).ready(),
            final(link).conns() == old(link).conns(),
            final(link).asked() == old(link).asked(),
            final(pass).before@ == old(pass).before@,
            final(pass).rows@ == old(pass).rows@,
            final(pass).course@ == (Course {
                log: final(pass).course@.log,
                rest: final(pass).course@.rest,
                ..old(pass).course@
            }),
            match out {
                Ok(_) => final(pass).follows(*self, final(link).done(), outs.push(o@)),
                Err(e) => {
                    let due = self.due(outs.push(o@));
                    &&& final(pass).course@.log == old(pass).course@.log
                    &&& final(link).done() == old(link).done() + final(pass).course@.rest
                    &&& due.len() == old(pass).course@.log.len() + 1
                    &&& due.drop_last() == batches(old(pass).course@.log)
                    &&& self.batch_gives(
                        truncated_by(self.writer.mode, old(pass).course@.log),
                        due.last(),
                        final(pass).course@.rest,
                        Err(e@),
                    )
                },
            },
    {
        let ghost log = pass.course@.log;
        let ghost next = outs.push(o@);
        assert(next.drop_last() =~= outs);
        let due = pass.buckets.deliver(&mut pass.router, o, self.job.target.table.as_str(), self.threshold);
        if let Some(batch) = due {
            proof {
                assert(self.due(next) == batches(log).push(batch@));
                assert(next.take(next.len() as int) =~= next);
                self.lemma_due_push(log, next, next.len() as int, batch@);
            }
            return self.flush_bucket(link, pass, &batch);
        }
        Ok(())
    }

    /// One row goes through the pipeline; each output is routed, and the batches
    /// that are due are written.
    #[verifier::spinoff_prover]
    fn take_row<Z: Fn(u64)>(&self, link: &mut Link<'a, D, Z>, pass: &mut Pass, row: Row) -> (out: AppResult<()>)
        requires
            old(link).ready(),
            old(link).reaches(self.writer@.connection),
            old(pass).is_even(*self, old(link).done()),
        ensures
            final(link).ready(),
            final(link).conns() == old(link).conns(),
            final(link).asked() == old(link).asked(),
            final(pass).before@ == old(pass).before@,
            final(pass).rows@ == old(pass).rows@.push(row@),
            final(pass).course@ == (Course {
                lists: final(pass).course@.lists,
                log: final(pass).course@.log,
                rest: final(pass).course@.rest,
                ..old(pass).course@
            }),
            match out {
                Ok(_) => final(pass).is_even(*self, final(link).done()),
                Err(e) => {
                    &&& self.halts(final(pass).rows@, final(pass).course@, e@)
                    &&& final(link).done() == final(pass).before@ + final(pass).course@.deeds()
                },
            },
    {
        let ghost cells = row@;
        let ghost lists = pass.course@.lists;
        let ghost rows = pass.rows@;
        let ghost before = joined_lists(lists);
        let ghost more = rows.push(cells);
        let r = self.run_row(row);
        pass.rows = Ghost(more);
        let mut outs = match r {
            Ok(v) => v,
            Err(e) => {
                proof {
                    assert(more.take(lists.len() as int) =~= rows);
                    assert(self.row_halts(more, pass.course@, e@));
                    assert(link.done() =~= pass.before@ + pass.course@.deeds());
                }
                return Err(e);
            },
        };
        let ghost all = views::list(outs@);
        let ghost longer = lists.push(all);
        proof {
            assert(longer.drop_last() =~= lists);
            assert(joined_lists(longer) == before + all);
            assert forall|i: int| 0 <= i < more.len() implies self.row_gives(more[i], Ok(#[trigger] longer[i])) by {
                if i < rows.len() {
                    assert(longer[i] == lists[i]);
                }
            }
        }
        pass.course = Ghost(Course { lists: longer, ..pass.course@ });
        let ghost mut done: int = 0;
        assert(before + all.take(0) =~= before);
        assert(all.skip(0) =~= all);
        while outs.len() > 0
            invariant
                link.ready(),
                link.reaches(self.writer@.connection),
                link.conns() == old(link).conns(),
                link.asked() == old(link).asked(),
                0 <= done <= all.len(),
                views::list(outs@) == all.skip(done),
                pass.before@ == old(pass).before@,
                pass.rows@ == more,
                more == old(pass).rows@.push(cells),
                cells == row@,
                pass.course@ == (Course {
                    lists: longer,
                    log: pass.course@.log,
                    rest: pass.course@.rest,
                    ..old(pass).course@
                }),
                joined_lists(longer) == before + all,
                self.runs(more, longer),
                pass.follows(*self, link.done(), before + all.take(done)),
            decreases outs.len(),
        {
            let ghost left = outs@;
            let ghost log = pass.course@.log;
            let o = outs.remove(0);
            let ghost k = (before.len() + done + 1) as int;
            proof {
                assert(views::list(left).len() == all.skip(done).len());
                assert(views::list(left)[0] == all.skip(done)[0]);
                assert(o@ == all[done]);
                assert(views::list(outs@) =~= views::list(left).skip(1));
                assert(all.skip(done).skip(1) =~= all.skip(done + 1));
                assert((before + all.take(done)).push(o@) =~= before + all.take(done + 1));
                assert(joined_lists(longer).take(k) =~= before + all.take(done + 1));
            }
            match self.deliver(link, pass, o, Ghost(before + all.take(done))) {
                Ok(_) => {},
                Err(e) => {
                    proof {
                        assert(more.take(longer.len() as int) =~= more);
                        assert(self.batch_halts(more, pass.course@, k, e@));
                        assert(link.done() =~= pass.before@ + pass.course@.deeds());
                    }
                    return Err(e);
                },
            }
            proof {
                done = done + 1;
            }
        }
        assert(done == all.len());
        assert(all.take(done) =~= all);
        Ok(())
    }

    /// The rows of a page, one after the other.
    #[verifier::spinoff_prover]
    fn take_page<Z: Fn(u64)>(&self, link: &mut Link<'a, D, Z>, pass: &mut Pass, page: Vec<Row>) -> (out: AppResult<()>)
        requires
            old(link).ready(),
            old(link).reaches(self.writer@.connection),
            old(pass).is_even(*self, old(link).done()),
        ensures
            final(link).ready(),
            final(link).conns() == old(link).conns(),
            final(link).asked() == old(link).asked(),
            final(pass).before@ == old(pass).before@,
            final(pass).course@ == (Course {
                lists: final(pass).course@.lists,
                log: final(pass).course@.log,
                rest: final(pass).course@.rest,
                ..old(pass).course@
            }),
            match out {
                Ok(_) => {
                    &&& final(pass).rows@ == old(pass).rows@ + model::rows_view(page@)
                    &&& final(pass).is_even(*self, final(link).done())
                },
                Err(e) => {
                    &&& self.halts(old(pass).rows@ + model::rows_view(page@), final(pass).course@, e@)
                    &&& final(link).done() == final(pass).before@ + final(pass).course@.deeds()
                },
            },
    {
        let ghost first = pass.rows@;
        let ghost all = model::rows_view(page@);
        let mut left = page;
        let ghost mut done: int = 0;
        assert(first + all.take(0) =~= first);
        assert(all.skip(0) =~= all);
        while left.len() > 0
            invariant
                link.ready(),
                link.reaches(self.writer@.connection),
                link.conns() == old(link).conns(),
                link.asked() == old(link).asked(),
                0 <= done <= all.len(),
                first == old(pass).rows@,
                all == model::rows_view(page@),
                model::rows_view(left@) == all.skip(done),
                pass.before@ == old(pass).before@,
                pass.rows@ == first + all.take(done),
                pass.course@ == (Course {
                    lists: pass.course@.lists,
                    log: pass.course@.log,
                    rest: pass.course@.rest,
                    ..old(pass).course@
                }),
                pass.is_even(*self, link.done()),
            decreases left.len(),
        {
            let ghost before = left@;
            let row = left.remove(0);
            proof {
                assert(model::rows_view(before).len() == all.skip(done).len());
                assert(model::rows_view(before)[0] == all.skip(done)[0]);
                assert(row@ == all[done]);
                assert(model::rows_view(left@) =~= model::rows_view(before).skip(1));
                assert(all.skip(done).skip(1) =~= all.skip(done + 1));
                assert(first + all.take(done + 1) =~= (first + all.take(done)).push(all[done]));
            }
            match self.take_row(link, pass, row) {
                Ok(_) => {},
                Err(e) => {
                    proof {
                        let seen = first + all.take(done + 1);
                        let rest = all.skip(done + 1);
                        assert(seen + rest =~= first + all);
                        self.lemma_halts_longer(seen, rest, pass.course@, e@);
                    }
                    return Err(e);
                },
            }
            proof {
                done = done + 1;
            }
        }
        assert(done == all.len());
        assert(all.take(done) =~= all);
        Ok(())
    }

    /// Write the batches that are left, one after the other.
    #[verifier::spinoff_prover]
    fn ship_rest<Z: Fn(u64)>(&self, link: &mut Link<'a, D, Z>, pass: &mut Pass, rest: &Vec<Batch>) -> (out: AppResult<()>)
        requires
            old(link).ready(),
            old(link).reaches(self.writer@.connection),
            old(pass).accounts(*self, old(link).done()),
        ensures
            final(link).ready(),
            final(link).conns() == old(link).conns(),
            final(link).asked() == old(link).asked(),
            final(pass).logs_on(*old(pass)),
            match out {
                Ok(_) => {
                    &&& final(pass).accounts(*self, final(link).done())
                    &&& batches(final(pass).course@.log) == batches(old(pass).course@.log) + views::list(rest@)
                },
                Err(e) => {
                    let n = final(pass).course@.log.len() - old(pass).course@.log.len();
                    &&& self.ships(final(pass).course@.log)
                    &&& 0 <= n < rest@.len()
                    &&& batches(final(pass).course@.log) == batches(old(pass).course@.log) + views::list(rest@).take(n)
                    &&& final(link).done() == final(pass).before@ + final(pass).course@.deeds()
                    &&& self.batch_gives(
                        truncated_by(self.writer.mode, final(pass).course@.log),
                        rest@[n]@,
                        final(pass).course@.rest,
                        Err(e@),
                    )
                },
            },
    {
        let ghost first = batches(pass.course@.log);
        let ghost all = views::list(rest@);
        let mut i: usize = 0;
        assert(first + all.take(0) =~= first);
        while i < rest.len()
            invariant
                link.ready(),
                link.reaches(self.writer@.connection),
                link.conns() == old(link).conns(),
                link.asked() == old(link).asked(),
                i <= rest.len(),
                all == views::list(rest@),
                first == batches(old(pass).course@.log),
                pass.logs_on(*old(pass)),
                pass.accounts(*self, link.done()),
                batches(pass.course@.log) == first + all.take(i as int),
            decreases rest.len() - i,
        {
            assert(all[i as int] == rest@[i as int]@);
            assert(first.len() == old(pass).course@.log.len());
            assert(pass.course@.log.len() == batches(pass.course@.log).len());
            match self.flush_bucket(link, pass, &rest[i]) {
                Ok(_) => {},
                Err(e) => {
                    assert(link.done() =~= pass.before@ + pass.course@.deeds());
                    return Err(e);
                },
            }
            assert(first + all.take(i + 1) =~= (first + all.take(i as int)).push(all[i as int]));
            i += 1;
        }
        assert(all.take(i as int) =~= all);
        Ok(())
    }

    /// Truncate the target table where a full pass wrote nothing to it.
    #[verifier::spinoff_prover]
    fn close<Z: Fn(u64)>(&self, link: &mut Link<'a, D, Z>, pass: &mut Pass) -> (out: AppResult<()>)
        requires
            old(link).ready(),
            old(link).reaches(self.writer@.connection),
            old(pass).accounts(*self, old(link).done()),
        ensures
            final(link).ready(),
            final(link).conns() == old(link).conns(),
            final(link).asked() == old(link).asked(),
            final(pass).logs_on(*old(pass)),
            final(pass).course@.log == old(pass).course@.log,
            final(link).done() == final(pass).before@ + final(pass).course@.deeds(),
            match out {
                Ok(_) => {
                    &&& final(pass).course@.rest == self.closing(final(pass).course@.log)
                    &&& final(pass).written == link::counted(final(pass).course@.deeds())
                },
                Err(e) => self.closing_fails(final(pass).course@.log, final(pass).course@.rest, e@),
            },
    {
        let ghost log = pass.course@.log;
        proof {
            link::lemma_counted_append(all_deeds(log), self.closing(log));
        }
        let table: &str = self.job.target.table.as_str();
        if must_truncate(self.writer.mode, &mut pass.truncated, table) {
            let ghost before = link.done();
            let r = self.writer.truncate(link, table);
            let ghost last = seq![link.done().last()];
            pass.course = Ghost(Course { rest: last, ..pass.course@ });
            proof {
                assert(link.done() =~= before + last);
                assert(link.done() =~= pass.before@ + pass.course@.deeds());
                lemma_truncate_counts_nothing(last[0]);
            }
            return r;
        }
        proof {
            assert(pass.course@.rest =~= self.closing(log));
            assert(link.done() =~= pass.before@ + pass.course@.deeds());
            assert(pass.course@.deeds() =~= all_deeds(log));
        }
        Ok(())
    }

    /// Write what is pending; a full pass that wrote nothing to the target table
    /// truncates it.
    #[verifier::spinoff_prover]
    fn finish<Z: Fn(u64)>(&self, link: &mut Link<'a, D, Z>, pass: &mut Pass) -> (out: AppResult<()>)
        requires
            old(link).ready(),
            old(link).reaches(self.writer@.connection),
            old(pass).is_even(*self, old(link).done()),
        ensures
            final(link).ready(),
            final(link).conns() == old(link).conns(),
            final(link).asked() == old(link).asked(),
            final(pass).logs_on(*old(pass)),
            final(link).done() == final(pass).before@ + final(pass).course@.deeds(),
            match out {
                Ok(_) => {
                    &&& self.finishes(old(pass).rows@, final(pass).course@)
                    &&& final(pass).written == link::counted(final(pass).course@.deeds())
                },
                Err(e) => self.end_halts(old(pass).rows@, final(pass).course@, e@),
            },
    {
        let ghost c = pass.course@;
        let ghost outs = joined_lists(c.lists);
        let ghost plan = self.plan(outs);
        let rest = pass.buckets.drain();
        assert(plan =~= self.due(outs) + views::list(rest@));
        assert(batches(c.log).len() == c.log.len());
        match self.ship_rest(link, pass, &rest) {
            Ok(_) => {},
            Err(e) => {
                proof {
                    let n = pass.course@.log.len() - c.log.len();
                    assert(batches(pass.course@.log).len() == pass.course@.log.len());
                    assert(plan.take(pass.course@.log.len() as int) =~= self.due(outs) + views::list(rest@).take(n));
                    assert(plan[pass.course@.log.len() as int] == rest@[n]@);
                }
                return Err(e);
            },
        }
        proof {
            let log = pass.course@.log;
            assert(batches(log).len() == log.len());
            assert(plan.take(log.len() as int) =~= plan);
        }
        self.close(link, pass)
    }
}

proof fn lemma_truncate_counts_nothing(x: Deed)
    requires
        x is Truncate,
    ensures
        link::counted(seq![x]) == 0,
{
    assert(seq![x].drop_last() =~= Seq::<Deed>::empty());
    assert(link::counted(Seq::<Deed>::empty()) == 0);
}

proof fn lemma_pages_push(
    r: ReaderV,
    values: Seq<(Seq<char>, Val)>,
    specs: StateSpecs,
    pages: Seq<Seq<Cells>>,
    rows: Seq<Cells>,
)
    ensures
        reader::after_pages(r, pages.push(rows)) == reader::after_pages(r, pages).after(Ok(rows)),
        reader::questions(r, pages.push(rows)) == reader::questions(r, pages).push(
            reader::after_pages(r, pages).question(Ok(rows)),
        ),
        all_rows(pages.push(rows)) == all_rows(pages) + rows,
        advanced_by(values, specs, pages.push(rows)) == advanced(advanced_by(values, specs, pages), specs, rows),
{
    assert(pages.push(rows).drop_last() =~= pages);
}

// ---------------------------------------------------------------------------
// The pages of a pass
// ---------------------------------------------------------------------------

impl<'b, 'a, D: Datasource, P: EtlProcessor<AppLookup<'a, D>>> Scene<'b, 'a, D, P> {
    /// Where the reading of a pass stands.
    pub open spec fn in_step(
        self,
        pass: Pass,
        asked: Seq<Ask>,
        before: Seq<Ask>,
        state: StateV,
        first: StateV,
    ) -> bool {
        let c = pass.course@;
        &&& asked == before + c.asks()
        &&& c.pages_full()
        &&& pass.rows@ == all_rows(c.pages)
        &&& state == (StateV { values: advanced_by(first.values, self.job@.state, c.pages), ..first })
    }

    /// Read page after page and put its rows through; the state moves with every
    /// page. Returns the number of rows.
    #[verifier::spinoff_prover]
    fn transfer<Z: Fn(u64)>(
        &self,
        link: &mut Link<'a, D, Z>,
        reader: &mut Reader,
        state: &mut StateStore,
        pass: &mut Pass,
        Ghost(asked): Ghost<Seq<Ask>>,
    ) -> (out: AppResult<usize>)
        requires
            old(link).ready(),
            old(link).reaches(self.writer@.connection),
            old(link).reaches(old(reader)@.source.connection),
            old(reader)@.page_size >= 1,
            old(pass).is_even(*self, old(link).done()),
            old(pass).course@.reader == old(reader)@,
            old(pass).course@.pages.len() == 0,
            old(pass).course@.last.len() == 0,
            old(pass).rows@.len() == 0,
            old(link).asked() == asked + old(pass).course@.opening,
        ensures
            final(link).ready(),
            final(link).conns() == old(link).conns(),
            final(pass).before@ == old(pass).before@,
            final(pass).course@.opening == old(pass).course@.opening,
            final(pass).course@.reader == old(pass).course@.reader,
            final(link).asked() == asked + final(pass).course@.asks(),
            final(pass).course@.pages_full(),
            final(state)@ == (StateV {
                values: advanced_by(old(state)@.values, self.job@.state, final(pass).course@.pages),
                ..old(state)@
            }),
            match out {
                Ok(n) => {
                    &&& n == all_rows(final(pass).course@.pages).len() as int % (usize::MAX + 1)
                    &&& final(pass).course@.exhausted()
                    &&& final(pass).rows@ == all_rows(final(pass).course@.pages)
                    &&& final(pass).is_even(*self, final(link).done())
                },
                Err(e) => {
                    let c = final(pass).course@;
                    &&& final(link).done() == final(pass).before@ + c.deeds()
                    &&& (c.unread(e@) && self.keeps_up(all_rows(c.pages), c)) || (c.last.len() == 0 && self.halts(
                        all_rows(c.pages),
                        c,
                        e@,
                    ))
                },
            },
    {
        let ghost r0 = reader@;
        let ghost first = state@;
        let ghost opening = pass.course@.opening;
        let ghost specs = self.job@.state;
        let mut count: usize = 0;
        proof {
            let c = pass.course@;
            assert(c.pages =~= Seq::<Seq<Cells>>::empty());
            assert(reader::questions(r0, c.pages) =~= Seq::<Ask>::empty());
            assert(c.asks() =~= opening);
            assert(pass.rows@ =~= all_rows(c.pages));
        }
        let mut more = true;
        while more
            invariant
                link.ready(),
                link.conns() == old(link).conns(),
                link.reaches(self.writer@.connection),
                link.reaches(r0.source.connection),
                r0.page_size >= 1,
                first == old(state)@,
                specs == self.job@.state,
                opening == old(pass).course@.opening,
                r0 == old(pass).course@.reader,
                pass.before@ == old(pass).before@,
                pass.course@.opening == opening,
                pass.course@.reader == r0,
                pass.is_even(*self, link.done()),
                self.in_step(*pass, link.asked(), asked, state@, first),
                count == all_rows(pass.course@.pages).len() as int % (usize::MAX + 1),
                reader@.source == r0.source,
                reader@.page_size == r0.page_size,
                more ==> reader@ == reader::after_pages(r0, pass.course@.pages) && pass.course@.last.len() == 0,
                !more ==> pass.course@.exhausted(),
            decreases
                    if !more {
                        0int
                    } else if reader@.done {
                        1int
                    } else {
                        2 + u64::MAX - reader@.offset
                    },
        {
            let ghost at = reader@;
            let ghost c = pass.course@;
            let ghost seen = link.asked();
            let r = reader.next_page(link);
            let ghost answer = choose|answer: Result<Seq<Cells>, DatasourceErrorV>|
                {
                    &&& link.asked() == seen.push(#[trigger] at.question(answer))
                    &&& reader::page_view(r) == at.page(answer)
                    &&& reader@ == at.after(answer)
                };
            match r {
                Err(e) => {
                    let ghost end = Course { last: seq![at.question(answer)], ..c };
                    pass.course = Ghost(end);
                    proof {
                        assert(link.asked() =~= asked + end.asks());
                        assert(end.unread(e@));
                        assert(link.done() =~= pass.before@ + end.deeds());
                    }
                    return Err(e);
                },
                Ok(None) => {
                    let ghost end = if at.done {
                        c
                    } else {
                        Course { last: seq![at.question(answer)], ..c }
                    };
                    pass.course = Ghost(end);
                    proof {
                        if !at.done {
                            assert(answer->Ok_0 =~= Seq::<Cells>::empty());
                        }
                        assert(link.asked() =~= asked + end.asks());
                        assert(end.exhausted());
                    }
                    more = false;
                },
                Ok(Some(page)) => {
                    let ghost rows = model::rows_view(page@);
                    let ghost next = Course { pages: c.pages.push(rows), ..c };
                    proof {
                        assert(answer == Ok::<Seq<Cells>, DatasourceErrorV>(rows));
                        lemma_pages_push(r0, first.values, specs, c.pages, rows);
                        lemma_count(all_rows(c.pages).len(), rows.len());
                        assert(link.asked() =~= asked + next.asks());
                    }
                    let sum: u128 = (count as u128 + page.len() as u128) % (usize::MAX as u128 + 1);
                    count = sum as usize;
                    update_state(state, &page, &self.job.state);
                    pass.course = Ghost(next);
                    match self.take_page(link, pass, page) {
                        Ok(_) => {},
                        Err(e) => {
                            return Err(e);
                        },
                    }
                },
            }
        }
        Ok(count)
    }
}

// ---------------------------------------------------------------------------
// The runner
// ---------------------------------------------------------------------------

/// A job and what it runs with.
pub struct JobRunner<P> {
    pub job: JobConfig,
    pub etl: EtlPipeline<P>,
    pub state: StateStore,
    pub retry: u32,
    pub page_size: u64,
    pub flush_threshold: usize,
}

/// What a pass came to.
#[derive(Debug)]
pub struct PassReport {
    pub written: u64,
    pub read_rows: usize,
    /// The state file to write.
    pub file: StateFile,
}

impl<P> JobRunner<P> {
    /// What a job runs with, its state loaded from the text of its file.
    pub fn build(
        job: JobConfig,
        etl: EtlPipeline<P>,
        state_dir: &str,
        state_file: Option<&str>,
        retry: u32,
        page_size: u64,
    ) -> (out: AppResult<JobRunner<P>>)
        ensures
            match out {
                Ok(r) => {
                    &&& state::loaded(state_dir@, job@.name, views::opt(state_file)) == Ok::<StateV, AppErrorV>(r.state@)
                    &&& r.job == job
                    &&& r.etl == etl
                    &&& r.retry == retry
                    &&& r.page_size == (if page_size < 1 {
                        1
                    } else {
                        page_size
                    })
                    &&& r.flush_threshold == FLUSH_THRESHOLD
                },
                Err(e) => state::loaded(state_dir@, job@.name, views::opt(state_file)) == Err::<StateV, AppErrorV>(e@),
            },
    {
        match StateStore::load(state_dir, job.name.as_str(), state_file) {
            Err(e) => Err(e),
            Ok(state) => Ok(
                JobRunner {
                    job,
                    etl,
                    state,
                    retry,
                    page_size: if page_size < 1 {
                        1
                    } else {
                        page_size
                    },
                    flush_threshold: FLUSH_THRESHOLD,
                },
            ),
        }
    }

    /// The connection that the job lacks first: its source, its target, or the
    /// settings of its source.
    pub open spec fn lacks<D>(self, conns: ConnectionManager<D>) -> Option<Seq<char>> {
        if strmap::at(conns@.conns, self.job@.source.connection) is None {
            Some(self.job@.source.connection)
        } else if strmap::at(conns@.conns, self.job@.target.connection) is None {
            Some(self.job@.target.connection)
        } else if conns@.kind(self.job@.source.connection) is None {
            Some(self.job@.source.connection)
        } else {
            None
        }
    }

    /// The type of the source, once both connections are there.
    fn find_ends<'a, D: Datasource, Z: Fn(u64)>(&self, link: &Link<'a, D, Z>) -> (out: AppResult<&'a str>)
        ensures
            match out {
                Ok(t) => self.lacks(link.conns()) is None && link.conns()@.kind(self.job@.source.connection) == Some(t@),
                Err(e) => self.lacks(link.conns()) matches Some(name) && e@ == connections::not_connected(name),
            },
    {
        match link.find(self.job.source.connection.as_str()) {
            Ok(_) => {},
            Err(e) => {
                return Err(e);
            },
        }
        match link.find(self.job.target.connection.as_str()) {
            Ok(_) => {},
            Err(e) => {
                return Err(e);
            },
        }
        link.conn_type(self.job.source.connection.as_str())
    }

    /// Whether the scene is that of a pass of this job.
    pub open spec fn stages<'b, 'a, D: Datasource>(
        self,
        conns: ConnectionManager<D>,
        schema: Option<TableSchemaV>,
        scene: Scene<'b, 'a, D, P>,
    ) -> bool {
        &&& *scene.job == self.job
        &&& *scene.etl == self.etl
        &&& scene.lookup.manager() == conns
        &&& scene.writer.connection@ == self.job@.target.connection
        &&& scene.writer.mode == self.job@.mode
        &&& scene.writer.retry == self.retry
        &&& views::opt(scene.schema) == schema
        &&& scene.threshold == self.flush_threshold
    }

    /// Whether the course of a pass can start so: the reader opens on the job's
    /// source, and no page is empty.
    pub open spec fn starts<D, N: Fn(i64) -> Option<Moment>>(
        self,
        conns: ConnectionManager<D>,
        now: N,
        env: Seq<(Seq<char>, Seq<char>)>,
        c: Course,
    ) -> bool {
        &&& reader::opens(
            c.opening,
            conns@.kind(self.job@.source.connection)->Some_0,
            self.job@.source,
            self.job@.state,
            self.state@.values,
            self.page_size,
            now,
            env,
            c.reader,
        )
        &&& c.pages_full()
    }

    /// Whether a pass can end so: all pages were read, every row went through
    /// the pipeline, every output was routed and written, in batches of the
    /// threshold and at the end what was left.
    pub open spec fn completes<'b, 'a, D: Datasource, N: Fn(i64) -> Option<Moment>>(
        self,
        conns: ConnectionManager<D>,
        now: N,
        env: Seq<(Seq<char>, Seq<char>)>,
        scene: Scene<'b, 'a, D, P>,
        c: Course,
    ) -> bool where P: EtlProcessor<AppLookup<'a, D>> {
        &&& self.starts(conns, now, env, c)
        &&& c.exhausted()
        &&& self.stages(conns, c.reader.schema, scene)
        &&& scene.finishes(all_rows(c.pages), c)
    }

    /// The text of the state after the pages.
    pub open spec fn state_text(self, pages: Seq<Seq<Cells>>) -> Result<Seq<char>, Seq<char>> {
        json::object_writing(state::value_entries(advanced_by(self.state@.values, self.job@.state, pages)))
    }

    /// What the report says of a pass that ended so.
    pub open spec fn reported(self, report: PassReport, c: Course) -> bool {
        &&& report.written == link::counted(c.deeds())
        &&& report.read_rows == all_rows(c.pages).len() as int % (usize::MAX + 1)
        &&& self.state_text(c.pages) == Ok::<Seq<char>, Seq<char>>(report.file.text@)
        &&& report.file.dir@ == self.state@.dir
        &&& report.file.path@ == state::state_path(self.state@.dir, self.state@.job)
        &&& report.file.temp@ == state::temp_path(self.state@.dir, self.state@.job)
    }

    /// Whether a pass can break off so once its query is built: the page after
    /// those of the course cannot be read, the pipeline refuses a row, or a write
    /// or the closing truncate fails.
    pub open spec fn breaks_off<'b, 'a, D: Datasource, N: Fn(i64) -> Option<Moment>>(
        self,
        conns: ConnectionManager<D>,
        now: N,
        env: Seq<(Seq<char>, Seq<char>)>,
        scene: Scene<'b, 'a, D, P>,
        c: Course,
        e: AppErrorV,
    ) -> bool where P: EtlProcessor<AppLookup<'a, D>> {
        &&& self.starts(conns, now, env, c)
        &&& self.stages(conns, c.reader.schema, scene)
        &&& {
            ||| c.unread(e) && scene.keeps_up(all_rows(c.pages), c)
            ||| c.last.len() == 0 && scene.halts(all_rows(c.pages), c, e)
            ||| c.exhausted() && scene.end_halts(all_rows(c.pages), c, e)
        }
    }

    /// Whether the query cannot be built, so that a pass ends before its first
    /// page, having asked just this.
    pub open spec fn refused<D, N: Fn(i64) -> Option<Moment>>(
        self,
        conns: ConnectionManager<D>,
        now: N,
        env: Seq<(Seq<char>, Seq<char>)>,
        asks: Seq<Ask>,
        e: AppErrorV,
    ) -> bool {
        reader::refuses(
            asks,
            conns@.kind(self.job@.source.connection)->Some_0,
            self.job@.source,
            self.job@.state,
            self.state@.values,
            now,
            env,
            e,
        )
    }

    /// Run the job once. The state has moved with every page that was read; the
    /// report holds the file that makes it durable, and there is none where the
    /// pass failed.
    #[verifier::spinoff_prover]
    pub fn run_once<'a, D: Datasource, N: Fn(i64) -> Option<Moment>, Z: Fn(u64)>(
        &mut self,
        link: &mut Link<'a, D, Z>,
        now: &N,
        env: &StrMap<String>,
    ) -> (out: AppResult<PassReport>) where P: EtlProcessor<AppLookup<'a, D>>
        requires
            forall|d: i64| call_requires(*now, (d,)),
            old(link).ready(),
        ensures
            final(link).ready(),
            final(link).conns() == old(link).conns(),
            final(self).job == old(self).job,
            final(self).etl == old(self).etl,
            final(self).retry == old(self).retry,
            final(self).page_size == old(self).page_size,
            final(self).flush_threshold == old(self).flush_threshold,
            final(self).state@.job == old(self).state@.job,
            final(self).state@.dir == old(self).state@.dir,
            old(self).lacks(old(link).conns()) matches Some(name) ==> (out matches Err(e) && e@
                == connections::not_connected(name)) && final(self).state@ == old(self).state@ && final(link).asked()
                == old(link).asked() && final(link).done() == old(link).done(),
            old(self).lacks(old(link).conns()) is None ==> match out {
                Ok(report) => exists|scene: Scene<'_, 'a, D, P>, c: Course|
                    {
                        &&& #[trigger] old(self).completes(old(link).conns(), *now, env@, scene, c)
                        &&& old(self).reported(report, c)
                        &&& final(link).asked() == old(link).asked() + c.asks()
                        &&& final(link).done() == old(link).done() + c.deeds()
                        &&& final(self).state@.values == advanced_by(
                            old(self).state@.values,
                            old(self).job@.state,
                            c.pages,
                        )
                    },
                Err(e) => {
                    ||| exists|asks: Seq<Ask>|
                        {
                            &&& #[trigger] old(self).refused(old(link).conns(), *now, env@, asks, e@)
                            &&& final(link).asked() == old(link).asked() + asks
                            &&& final(link).done() == old(link).done()
                            &&& final(self).state@ == old(self).state@
                        }
                    ||| exists|scene: Scene<'_, 'a, D, P>, c: Course|
                        {
                            &&& #[trigger] old(self).breaks_off(old(link).conns(), *now, env@, scene, c, e@)
                            &&& final(link).asked() == old(link).asked() + c.asks()
                            &&& final(link).done() == old(link).done() + c.deeds()
                            &&& final(self).state@.values == advanced_by(
                                old(self).state@.values,
                                old(self).job@.state,
                                c.pages,
                            )
                        }
                },
            },
    {
        let source_type = match self.find_ends(&*link) {
            Ok(t) => t,
            Err(e) => {
                return Err(e);
            },
        };
        let ghost first = *self;
        let ghost conns = link.conns();
        let ghost asked = link.asked();
        let ghost done = link.done();
        let opened = Reader::new(
            link,
            source_type,
            self.job.source.clone(),
            &self.job.state,
            &self.state,
            self.page_size,
            now,
            env,
        );
        let ghost opening = choose|asks: Seq<Ask>|
            #![trigger asked + asks]
            link.asked() == asked + asks && match opened {
                Ok(r) => reader::opens(
                    asks,
                    source_type@,
                    first.job@.source,
                    first.job@.state,
                    first.state@.values,
                    first.page_size,
                    *now,
                    env@,
                    r@,
                ),
                Err(e) => reader::refuses(
                    asks,
                    source_type@,
                    first.job@.source,
                    first.job@.state,
                    first.state@.values,
                    *now,
                    env@,
                    e@,
                ),
            };
        let mut reader = match opened {
            Ok(r) => r,
            Err(e) => {
                assert(first.refused(conns, *now, env@, opening, e@));
                return Err(e);
            },
        };
        let scene = Scene {
            job: &self.job,
            etl: &self.etl,
            lookup: link.lookup(),
            writer: Writer::new(self.job.target.connection.clone(), self.job.mode, self.retry, copy("main")),
            schema: copy_schema(&reader.schema),
            threshold: self.flush_threshold,
        };
        let ghost c0 = Course {
            opening,
            reader: reader@,
            pages: Seq::empty(),
            last: Seq::empty(),
            lists: Seq::empty(),
            log: Seq::empty(),
            rest: Seq::empty(),
        };
        let mut pass = scene.begin(Ghost(done), Ghost(c0));
        assert(first.stages(conns, c0.reader.schema, scene));
        let read_rows = match scene.transfer(link, &mut reader, &mut self.state, &mut pass, Ghost(asked)) {
            Ok(n) => n,
            Err(e) => {
                assert(first.breaks_off(conns, *now, env@, scene, pass.course@, e@));
                return Err(e);
            },
        };
        match scene.finish(link, &mut pass) {
            Ok(_) => {},
            Err(e) => {
                assert(first.breaks_off(conns, *now, env@, scene, pass.course@, e@));
                return Err(e);
            },
        }
        let ghost c = pass.course@;
        assert(first.completes(conns, *now, env@, scene, c));
        match self.state.save() {
            Err(e) => Err(e),
            Ok(file) => {
                let report = PassReport { written: pass.written, read_rows, file };
                assert(first.reported(report, c));
                Ok(report)
            },
        }
    }
}

/// The marks of a column of one kind only move up, from page to page.
proof fn lemma_page_moves_up(
    values: Seq<(Seq<char>, Val)>,
    specs: StateSpecs,
    rows: Seq<Cells>,
    key: Seq<char>,
    numeric: bool,
)
    requires
        strmap::ordered(values),
        strmap::ordered(specs),
        strmap::at(specs, key) matches Some(x) ==> of_kind(rows, x.column, numeric),
    ensures
        strmap::ordered(advanced(values, specs, rows)),
        strmap::at(values, key) matches Some(m) ==> (strmap::at(advanced(values, specs, rows), key) matches Some(new) && (
        new == m || (reader::rises(new, m) && (reader::number(new) is Some) == numeric))),
{
    law_mark_moves_with_its_column(values, specs, rows, key);
    if let Some(x) = strmap::at(specs, key) {
        lemma_greatest_is_listed(rows, x.column);
        if let Some(g) = greatest(rows, x.column) {
            let k = choose|k: int| 0 <= k < rows.len() && strmap::at(#[trigger] rows[k], x.column) == Some(g);
            assert((reader::number(g) is Some) == numeric);
        }
    }
}

proof fn lemma_rest_moves_up(
    values: Seq<(Seq<char>, Val)>,
    specs: StateSpecs,
    pages: Seq<Seq<Cells>>,
    n: int,
    key: Seq<char>,
    numeric: bool,
)
    requires
        strmap::ordered(values),
        strmap::ordered(specs),
        strmap::at(specs, key) matches Some(x) ==> pages_of_kind(pages, x.column, numeric),
        0 <= n <= pages.len(),
    ensures
        strmap::ordered(advanced_by(values, specs, pages)),
        strmap::at(advanced_by(values, specs, pages.take(n)), key) matches Some(m) ==> (strmap::at(
            advanced_by(values, specs, pages),
            key,
        ) matches Some(new) && (new == m || (reader::rises(new, m) && (reader::number(new) is Some) == numeric))),
    decreases pages.len(),
{
    if pages.len() > 0 {
        let head = pages.drop_last();
        let page = pages[pages.len() - 1];
        if let Some(x) = strmap::at(specs, key) {
            assert forall|i: int| 0 <= i < head.len() implies of_kind(#[trigger] head[i], x.column, numeric) by {
                assert(head[i] == pages[i]);
            }
        }
        let k = if n == pages.len() {
            n - 1
        } else {
            n
        };
        lemma_rest_moves_up(values, specs, head, k, key, numeric);
        let mid = advanced_by(values, specs, head);
        lemma_page_moves_up(mid, specs, page, key, numeric);
        if n == pages.len() {
            assert(pages.take(n) =~= pages);
        } else {
            assert(head.take(n) =~= pages.take(n));
            if let Some(m) = strmap::at(advanced_by(values, specs, pages.take(n)), key) {
                reader::law_marks_are_strictly_ordered(
                    m,
                    strmap::at(mid, key)->Some_0,
                    strmap::at(advanced(mid, specs, page), key)->Some_0,
                );
            }
        }
    } else {
        assert(pages.take(n) =~= pages);
    }
}

/// Law: over a whole pass a stored high-water mark never moves down: in the end it
/// is what it was, or lies above it. The values of its column are of one kind; the
/// mark may be stored either way.
pub proof fn law_pass_moves_state_up(
    values: Seq<(Seq<char>, Val)>,
    specs: StateSpecs,
    pages: Seq<Seq<Cells>>,
    key: Seq<char>,
)
    requires
        strmap::ordered(values),
        strmap::ordered(specs),
        strmap::at(specs, key) matches Some(x) ==> one_kind(pages, x.column),
    ensures
        strmap::ordered(advanced_by(values, specs, pages)),
        strmap::at(values, key) matches Some(m) ==> (strmap::at(advanced_by(values, specs, pages), key) matches Some(new)
            && (new == m || reader::rises(new, m))),
{
    let numeric = strmap::at(specs, key) matches Some(x) && pages_of_kind(pages, x.column, true);
    lemma_rest_moves_up(values, specs, pages, 0, key, numeric);
    assert(pages.take(0) =~= Seq::<Seq<Cells>>::empty());
}

/// Law: after a pass a `max` mark is the maximum of what it was and the values of
/// its column in all pages that were read, for every column of numbers and for
/// every column of texts or dates: it is one of them, and none of them exceeds it.
pub proof fn law_pass_mark_is_the_maximum(
    values: Seq<(Seq<char>, Val)>,
    specs: StateSpecs,
    pages: Seq<Seq<Cells>>,
    key: Seq<char>,
    numeric: bool,
)
    requires
        strmap::ordered(values),
        strmap::ordered(specs),
        strmap::at(specs, key) matches Some(x) && x.kind == "max"@ && x.column != ""@,
        forall|p: int|
            0 <= p < pages.len() ==> if numeric {
                number_column(strmap::at(values, key), #[trigger] pages[p], strmap::at(specs, key)->Some_0.column)
            } else {
                text_column(strmap::at(values, key), pages[p], strmap::at(specs, key)->Some_0.column)
            },
    ensures
        strmap::ordered(advanced_by(values, specs, pages)),
        ({
            let old_mark = strmap::at(values, key);
            let new_mark = strmap::at(advanced_by(values, specs, pages), key);
            let column = strmap::at(specs, key)->Some_0.column;
            &&& forall|p: int, i: int|
                0 <= p < pages.len() && 0 <= i < pages[p].len() ==> (strmap::at(#[trigger] pages[p][i], column) matches Some(
                    v,
                ) ==> v is Null || (new_mark is Some && !exceeds(v, new_mark->Some_0, numeric)))
            &&& old_mark matches Some(m) ==> new_mark is Some && !exceeds(m, new_mark->Some_0, numeric)
            &&& new_mark matches Some(m) ==> old_mark == Some(m) || (!(m is Null) && exists|p: int, k: int|
                0 <= p < pages.len() && 0 <= k < pages[p].len() && strmap::at(#[trigger] pages[p][k], column) == Some(m))
        }),
    decreases pages.len(),
{
    if pages.len() > 0 {
        let column = strmap::at(specs, key)->Some_0.column;
        let old_mark = strmap::at(values, key);
        let head = pages.drop_last();
        let n = pages.len() - 1;
        let page = pages[n];
        assert forall|p: int| 0 <= p < head.len() implies (if numeric {
            number_column(old_mark, #[trigger] head[p], column)
        } else {
            text_column(old_mark, head[p], column)
        }) by {
            assert(head[p] == pages[p]);
        }
        law_pass_mark_is_the_maximum(values, specs, head, key, numeric);
        let before = advanced_by(values, specs, head);
        let mid = strmap::at(before, key);
        let new = strmap::at(advanced_by(values, specs, pages), key);
        assert(if numeric {
            number_column(old_mark, pages[n], column)
        } else {
            text_column(old_mark, pages[n], column)
        });
        if let Some(m) = mid {
            if old_mark != mid {
                let (p, k) = choose|p: int, k: int|
                    0 <= p < head.len() && 0 <= k < head[p].len() && strmap::at(#[trigger] head[p][k], column) == Some(m);
                assert(head[p] == pages[p]);
                assert(strmap::at(pages[p][k], column) == Some(m));
            }
        }
        assert(of_kind(page, column, numeric));
        law_mark_moves_with_its_column(before, specs, page, key);
        lemma_page_moves_up(before, specs, page, key, numeric);
        assert forall|p: int, i: int| 0 <= p < pages.len() && 0 <= i < pages[p].len() implies (strmap::at(
            #[trigger] pages[p][i],
            column,
        ) matches Some(v) ==> v is Null || (new is Some && !exceeds(v, new->Some_0, numeric))) by {
            if p == n {
                law_mark_is_the_maximum(before, specs, page, key, numeric, i);
            } else {
                assert(head[p] == pages[p]);
                assert(strmap::at(head[p][i], column) == strmap::at(pages[p][i], column));
                if let Some(v) = strmap::at(pages[p][i], column) {
                    if !(v is Null) {
                        lemma_still_not_exceeded(mid->Some_0, new->Some_0, v, numeric);
                    }
                }
            }
        }
        if let Some(m) = old_mark {
            lemma_still_not_exceeded(mid->Some_0, new->Some_0, m, numeric);
        }
        if let Some(m) = new {
            if new != mid {
                lemma_greatest_is_listed(page, column);
                let k = choose|k: int| 0 <= k < page.len() && strmap::at(#[trigger] page[k], column) == Some(m);
                assert(strmap::at(pages[n][k], column) == Some(m));
            }
        }
    } else if let Some(m) = strmap::at(values, key) {
        text::lemma_less_irreflexive(m.text()->Some_0);
    }
}

proof fn lemma_still_not_exceeded(mark: Val, new: Val, v: Val, numeric: bool)
    requires
        new == mark || (reader::rises(new, mark) && (reader::number(new) is Some) == numeric),
        !exceeds(v, mark, numeric),
    ensures
        !exceeds(v, new, numeric),
{
    if new != mark && !numeric {
        let x = mark.text()->Some_0;
        let y = new.text()->Some_0;
        let z = v.text()->Some_0;
        if text::less(y, z) {
            text::lemma_less_transitive(x, y, z);
        }
    }
}

/// Law: a second pass over the same pages moves no mark whose column holds values
/// of one kind.
pub proof fn law_second_pass_changes_nothing(
    values: Seq<(Seq<char>, Val)>,
    specs: StateSpecs,
    pages: Seq<Seq<Cells>>,
    key: Seq<char>,
)
    requires
        strmap::ordered(values),
        strmap::ordered(specs),
        strmap::at(specs, key) matches Some(x) ==> one_kind(pages, x.column),
    ensures
        strmap::at(advanced_by(advanced_by(values, specs, pages), specs, pages), key) == strmap::at(
            advanced_by(values, specs, pages),
            key,
        ),
{
    let numeric = strmap::at(specs, key) matches Some(x) && pages_of_kind(pages, x.column, true);
    lemma_settled_pages(values, specs, pages, advanced_by(values, specs, pages), pages.len() as int, key, numeric);
    assert(pages.take(pages.len() as int) =~= pages);
}

/// A page that was read leaves the marks alone that came later.
proof fn lemma_settled_pages(
    values: Seq<(Seq<char>, Val)>,
    specs: StateSpecs,
    pages: Seq<Seq<Cells>>,
    end: Seq<(Seq<char>, Val)>,
    n: int,
    key: Seq<char>,
    numeric: bool,
)
    requires
        strmap::ordered(values),
        strmap::ordered(specs),
        strmap::at(specs, key) matches Some(x) ==> pages_of_kind(pages, x.column, numeric),
        end == advanced_by(values, specs, pages),
        0 <= n <= pages.len(),
    ensures
        strmap::ordered(advanced_by(end, specs, pages.take(n))),
        strmap::at(advanced_by(end, specs, pages.take(n)), key) == strmap::at(end, key),
    decreases n,
{
    lemma_rest_moves_up(values, specs, pages, n, key, numeric);
    if n > 0 {
        let before = pages.take(n - 1);
        let page = pages[n - 1];
        assert(pages.take(n).drop_last() =~= before);
        assert(pages.take(n).last() == page);
        lemma_settled_pages(values, specs, pages, end, n - 1, key, numeric);
        let again = advanced_by(end, specs, before);
        law_mark_moves_with_its_column(again, specs, page, key);
        // when the page was first read, and from there to the end
        if let Some(x) = strmap::at(specs, key) {
            assert forall|i: int| 0 <= i < before.len() implies of_kind(#[trigger] before[i], x.column, numeric) by {
                assert(before[i] == pages[i]);
            }
        }
        lemma_rest_moves_up(values, specs, before, 0, key, numeric);
        let at_first = advanced_by(values, specs, before);
        law_mark_moves_with_its_column(at_first, specs, page, key);
        if let Some(x) = strmap::at(specs, key) {
            if let Some(g) = greatest(page, x.column) {
                let m = strmap::at(advanced_by(values, specs, pages.take(n)), key);
                let e = strmap::at(end, key);
                lemma_greatest_is_listed(page, x.column);
                let k = choose|k: int| 0 <= k < page.len() && strmap::at(#[trigger] page[k], x.column) == Some(g);
                assert((reader::number(g) is Some) == numeric);
                if x.kind == "max"@ && x.column != ""@ {
                    reader::law_marks_are_strictly_ordered(m->Some_0, e->Some_0, g);
                    reader::law_marks_are_strictly_ordered(g, g, g);
                }
            }
        }
    }
}

/// Law: in a pass a table is truncated at most once, before the first rows that
/// are written to it: no write truncates a table that an earlier one wrote to,
/// whichever writer it was for.
pub proof fn law_pass_truncates_once(mode: model::SyncMode, log: Seq<Shipment>, i: int, j: int)
    requires
        0 <= i < j <= log.len(),
        log[i].batch.rows.len() > 0,
    ensures
        strmap::ordered(truncated_by(mode, log.take(j))),
        !writer::truncates(mode, truncated_by(mode, log.take(j)), log[i].batch.table),
    decreases j,
{
    let b = log[j - 1].batch;
    let before = truncated_by(mode, log.take(j - 1));
    lemma_truncated_ordered(mode, log.take(j - 1));
    lemma_truncated_ordered(mode, log.take(j));
    assert(log.take(j).drop_last() =~= log.take(j - 1));
    assert(log.take(j).last() == log[j - 1]);
    if i < j - 1 {
        law_pass_truncates_once(mode, log, i, j - 1);
    }
    writer::law_truncated_once(mode, before, log[i].batch.table, b.table);
    writer::law_truncated_once(mode, before, b.table, b.table);
}

proof fn lemma_truncated_ordered(mode: model::SyncMode, log: Seq<Shipment>)
    ensures
        strmap::ordered(truncated_by(mode, log)),
    decreases log.len(),
{
    if log.len() > 0 {
        lemma_truncated_ordered(mode, log.drop_last());
        strmap::lemma_put(truncated_by(mode, log.drop_last()), log.last().batch.table, true);
    }
}

/// How often a table is truncated among some deeds.
pub open spec fn truncates_of(deeds: Seq<Deed>, at: Seq<char>, table: Seq<char>) -> nat
    decreases deeds.len(),
{
    if deeds.len() == 0 {
        0
    } else {
        truncates_of(deeds.drop_last(), at, table) + (match deeds.last() {
            Deed::Truncate { at: a, table: t, .. } => if a == at && t == table {
                1nat
            } else {
                0nat
            },
            _ => 0nat,
        })
    }
}

proof fn lemma_truncates_append(a: Seq<Deed>, b: Seq<Deed>, at: Seq<char>, table: Seq<char>)
    ensures
        truncates_of(a + b, at, table) == truncates_of(a, at, table) + truncates_of(b, at, table),
    decreases b.len(),
{
    if b.len() == 0 {
        assert(a + b =~= a);
    } else {
        lemma_truncates_append(a, b.drop_last(), at, table);
        assert((a + b).drop_last() =~= a + b.drop_last());
    }
}

proof fn lemma_no_truncates(deeds: Seq<Deed>, at: Seq<char>, table: Seq<char>)
    requires
        forall|i: int| 0 <= i < deeds.len() ==> !((#[trigger] deeds[i]) is Truncate),
    ensures
        truncates_of(deeds, at, table) == 0,
    decreases deeds.len(),
{
    if deeds.len() > 0 {
        assert forall|i: int| 0 <= i < deeds.drop_last().len() implies !((#[trigger] deeds.drop_last()[i]) is Truncate) by {
            assert(deeds.drop_last()[i] == deeds[i]);
        }
        assert(!(deeds[deeds.len() - 1] is Truncate));
        lemma_no_truncates(deeds.drop_last(), at, table);
    }
}

proof fn lemma_truncates_shipped<'b, 'a, D: Datasource, P: EtlProcessor<AppLookup<'a, D>>>(
    scene: Scene<'b, 'a, D, P>,
    log: Seq<Shipment>,
    table: Seq<char>,
)
    requires
        scene.ships(log),
    ensures
        strmap::ordered(truncated_by(scene.writer.mode, log)),
        truncates_of(all_deeds(log), scene.writer@.connection, table) == (if scene.writer.mode == model::SyncMode::Full
            && strmap::at(truncated_by(scene.writer.mode, log), table) is Some {
            1nat
        } else {
            0nat
        }),
    decreases log.len(),
{
    let mode = scene.writer.mode;
    let at = scene.writer@.connection;
    lemma_truncated_ordered(mode, log);
    if log.len() > 0 {
        let head = log.drop_last();
        let x = log.last();
        assert(scene.ships(head)) by {
            assert forall|i: int| 0 <= i < head.len() implies scene.batch_gives(
                truncated_by(mode, head.take(i)),
                (#[trigger] head[i]).batch,
                head[i].deeds,
                Ok(head[i].count),
            ) by {
                assert(head.take(i) =~= log.take(i));
                assert(log[i] == head[i]);
            }
        }
        lemma_truncates_shipped(scene, head, table);
        lemma_truncates_append(all_deeds(head), x.deeds, at, table);
        let n = log.len() - 1;
        assert(log.take(n) =~= head);
        assert(log[n] == x);
        let before = truncated_by(mode, head);
        let truncating = writer::truncates(mode, before, x.batch.table);
        assert(scene.batch_gives(before, x.batch, x.deeds, Ok(x.count)));
        strmap::lemma_put(before, x.batch.table, true);
        strmap::lemma_dict(before, table);
        strmap::lemma_dict(strmap::put(before, x.batch.table, true), table);
        let keys = keys_for(scene.job@, x.batch.table);
        let rest = if x.deeds.len() > 0 && truncating {
            x.deeds.skip(1)
        } else {
            x.deeds
        };
        assert forall|i: int| 0 <= i < rest.len() implies !((#[trigger] rest[i]) is Truncate) by {
            let j = if x.deeds.len() > 0 && truncating {
                i + 1
            } else {
                i
            };
            assert(rest[i] == x.deeds[j]);
            writer::law_truncate_comes_first(
                scene.writer@,
                truncating,
                x.batch.table,
                x.batch.rows,
                keys,
                x.deeds,
                Ok(x.count),
                j,
            );
        }
        lemma_no_truncates(rest, at, table);
        if x.batch.rows.len() > 0 && truncating {
            let one = seq![x.deeds[0]];
            assert(x.deeds =~= one + rest);
            lemma_truncates_append(one, rest, at, table);
            assert(one.drop_last() =~= Seq::<Deed>::empty());
            assert(truncates_of(Seq::<Deed>::empty(), at, table) == 0);
        }
    }
}

/// Law: a full pass that completes truncates the target table just once, whether
/// or not there were rows; and in no pass is any table truncated twice, or at all
/// where the pass is not full.
pub proof fn law_full_pass_truncates_its_target<'b, 'a, D: Datasource, P: EtlProcessor<AppLookup<'a, D>>>(
    scene: Scene<'b, 'a, D, P>,
    rows: Seq<Cells>,
    c: Course,
    table: Seq<char>,
)
    requires
        scene.finishes(rows, c),
    ensures
        truncates_of(c.deeds(), scene.writer@.connection, table) <= 1,
        scene.writer.mode != model::SyncMode::Full ==> truncates_of(c.deeds(), scene.writer@.connection, table) == 0,
        scene.writer.mode == model::SyncMode::Full ==> truncates_of(
            c.deeds(),
            scene.writer@.connection,
            scene.job@.target.table,
        ) == 1,
{
    let at = scene.writer@.connection;
    let target = scene.job@.target.table;
    lemma_truncates_shipped(scene, c.log, table);
    lemma_truncates_shipped(scene, c.log, target);
    lemma_truncates_append(all_deeds(c.log), c.rest, at, table);
    lemma_truncates_append(all_deeds(c.log), c.rest, at, target);
    assert(truncates_of(Seq::<Deed>::empty(), at, table) == 0);
    assert(truncates_of(Seq::<Deed>::empty(), at, target) == 0);
    if c.rest.len() > 0 {
        assert(c.rest.drop_last() =~= Seq::<Deed>::empty());
    } else {
        assert(c.rest =~= Seq::<Deed>::empty());
    }
}

proof fn lemma_nothing_drained(b: Seq<buckets::Pending>)
    requires
        forall|w: int| 0 <= w < b.len() ==> (#[trigger] b[w]).len() == 0,
    ensures
        buckets::drained(b) == Seq::<BatchV>::empty(),
    decreases b.len(),
{
    if b.len() > 0 {
        let head = b.drop_last();
        assert forall|w: int| 0 <= w < head.len() implies (#[trigger] head[w]).len() == 0 by {
            assert(head[w] == b[w]);
        }
        lemma_nothing_drained(head);
        assert(b[b.len() - 1].len() == 0);
        assert(buckets::drained(b) =~= Seq::<BatchV>::empty());
    }
}

/// Law: a pass without rows inserts nothing: a full one truncates its target
/// table and does nothing else, and in other modes nothing is done at all.
pub proof fn law_pass_without_rows_only_truncates<'b, 'a, D: Datasource, P: EtlProcessor<AppLookup<'a, D>>>(
    scene: Scene<'b, 'a, D, P>,
    c: Course,
)
    requires
        scene.finishes(Seq::<Cells>::empty(), c),
    ensures
        c.deeds() == (if scene.writer.mode == model::SyncMode::Full {
            seq![scene.writer@.truncation(scene.job@.target.table, Ok(()))]
        } else {
            Seq::empty()
        }),
        link::counted(c.deeds()) == 0,
{
    assert(joined_lists(c.lists) =~= Seq::<EtlOutputRowV>::empty());
    lemma_nothing_drained(scene.start().buckets);
    assert(batches(c.log).len() == c.log.len());
    assert(c.log =~= Seq::<Shipment>::empty());
    strmap::lemma_dict(Seq::<(Seq<char>, bool)>::empty(), scene.job@.target.table);
    assert(all_deeds(c.log) =~= Seq::<Deed>::empty());
    assert(c.deeds() =~= c.rest);
    if c.rest.len() > 0 {
        lemma_truncate_counts_nothing(c.rest[0]);
        assert(c.rest =~= seq![c.rest[0]]);
    } else {
        assert(link::counted(c.rest) == 0);
    }
}

/// Law: a pass that completes writes every output of the pipeline: for each
/// writer and table, the batches hold the rows that were routed there, each
/// once, in the order in which they came.
pub proof fn law_pass_writes_every_output<'b, 'a, D: Datasource, P: EtlProcessor<AppLookup<'a, D>>>(
    scene: Scene<'b, 'a, D, P>,
    rows: Seq<Cells>,
    c: Course,
    w: int,
    t: Seq<char>,
)
    requires
        scene.finishes(rows, c),
        0 <= w < scene.start().buckets.len(),
    ensures
        buckets::written_to(batches(c.log), w, t) == scene.start().sent(
            joined_lists(c.lists),
            scene.job@.target.table,
            scene.threshold as int,
            w,
            t,
        ),
{
    assert(scene.start().buckets[w] =~= Seq::empty());
    buckets::law_every_output_goes_out(
        scene.start(),
        joined_lists(c.lists),
        scene.job@.target.table,
        scene.threshold as int,
        w,
        t,
    );
}

proof fn lemma_count(a: nat, b: nat)
    ensures
        (a as int % (usize::MAX + 1) + b) % (usize::MAX + 1) == (a + b) as int % (usize::MAX + 1),
{
    vstd::arithmetic::div_mod::lemma_add_mod_noop_right(b as int, a as int, usize::MAX + 1);
}

// ---------------------------------------------------------------------------
// What goes through a pass
// ---------------------------------------------------------------------------

/// Law: the rows of a pass are those of its pages, the outputs those of its rows,
/// and the deeds those of its shipments, each one after the other.
pub proof fn law_nothing_is_left_out_or_reordered(
    pages: Seq<Seq<Cells>>,
    lists: Seq<Seq<EtlOutputRowV>>,
    log: Seq<Shipment>,
)
    ensures
        all_rows(pages) == pages.flatten(),
        joined_lists(lists) == lists.flatten(),
        all_deeds(log) == log.map_values(|x: Shipment| x.deeds).flatten(),
    decreases pages.len() + lists.len() + log.len(),
{
    let deeds = log.map_values(|x: Shipment| x.deeds);
    pages.lemma_flatten_and_flatten_alt_are_equivalent();
    lists.lemma_flatten_and_flatten_alt_are_equivalent();
    deeds.lemma_flatten_and_flatten_alt_are_equivalent();
    if pages.len() > 0 {
        law_nothing_is_left_out_or_reordered(pages.drop_last(), lists, log);
        pages.drop_last().lemma_flatten_and_flatten_alt_are_equivalent();
    }
    if lists.len() > 0 {
        law_nothing_is_left_out_or_reordered(pages, lists.drop_last(), log);
        lists.drop_last().lemma_flatten_and_flatten_alt_are_equivalent();
    }
    if log.len() > 0 {
        law_nothing_is_left_out_or_reordered(pages, lists, log.drop_last());
        assert(deeds.drop_last() =~= log.drop_last().map_values(|x: Shipment| x.deeds));
        deeds.drop_last().lemma_flatten_and_flatten_alt_are_equivalent();
    }
}

/// Law: a row enters the pipeline under the source's connection and table, bound
/// for the target's connection, with its columns mapped from the source's to the
/// target's.
pub proof fn law_row_enters_as_mapped(job: JobV, schema: Option<TableSchemaV>, row: Cells)
    ensures
        ({
            let e = entry(job, schema, row);
            &&& e.source_connection == job.source.connection && e.source_table == job.source.table
            &&& e.target_connections.len() == 1 && e.target_connections[0] == job.target.connection
            &&& e.row == mapped(row, job.source.columns, job.target.columns)
            &&& e.source_schema == schema && e.target_schema is None
        }),
{
}

/// Law: the target table is written by the keys of the job, every other table
/// without keys.
pub proof fn law_only_the_target_has_keys(job: JobV, table: Seq<char>)
    ensures
        table == job.target.table ==> keys_for(job, table) == job.target.primary_key,
        table != job.target.table ==> keys_for(job, table).len() == 0,
{
}

/// Law: a pass starts with as many writers as the job asks for, at least one, none
/// of which has anything to write, and sends rows of the target by its keys.
pub proof fn law_pass_starts_empty_handed<'b, 'a, D: Datasource, P: EtlProcessor<AppLookup<'a, D>>>(
    scene: Scene<'b, 'a, D, P>,
    w: int,
    t: Seq<char>,
)
    ensures
        scene.start().fits(),
        scene.start().router.n >= 1,
        scene.job@.writers >= 1 ==> scene.start().router.n == scene.job@.writers,
        0 <= w < scene.start().router.n ==> buckets::pending(scene.start().buckets[w], t).len() == 0,
        scene.start().router.keyed(t) <==> t == scene.job@.target.table && scene.job@.target.primary_key.len() > 0,
{
}

/// Law: a row of the target goes to one writer by its key: two rows of a pass that
/// have the same key go to the same writer, so that they are written in order.
pub proof fn law_rows_of_one_key_stay_in_order<'b, 'a, D: Datasource, P: EtlProcessor<AppLookup<'a, D>>>(
    scene: Scene<'b, 'a, D, P>,
    before: Seq<EtlOutputRowV>,
    between: Seq<EtlOutputRowV>,
    a: EtlOutputRowV,
    b: EtlOutputRowV,
)
    requires
        scene.job@.target.primary_key.len() > 0,
        buckets::table_of(a, scene.job@.target.table) == scene.job@.target.table,
        buckets::table_of(b, scene.job@.target.table) == scene.job@.target.table,
        forall|i: int|
            0 <= i < scene.job@.target.primary_key.len() ==> strmap::at(a.row, #[trigger] scene.job@.target.primary_key[i])
                == strmap::at(b.row, scene.job@.target.primary_key[i]),
    ensures
        ({
            let table = scene.job@.target.table;
            let n = scene.threshold as int;
            scene.start().after_all(before, table, n).writer(a, table) == scene.start().after_all(
                before + seq![a] + between,
                table,
                n,
            ).writer(b, table)
        }),
{
    let table = scene.job@.target.table;
    let n = scene.threshold as int;
    let r = scene.start().after_all(before, table, n).router;
    let s = scene.start().after_all(before + seq![a] + between, table, n).router;
    lemma_router_stays(scene.start(), before, table, n);
    lemma_router_stays(scene.start(), before + seq![a] + between, table, n);
    router::law_same_key_same_writer(r, s, a.row, b.row);
}

proof fn lemma_router_stays(g: GatherV, outs: Seq<EtlOutputRowV>, table: Seq<char>, n: int)
    ensures
        g.after_all(outs, table, n).router.n == g.router.n,
        g.after_all(outs, table, n).router.main_table == g.router.main_table,
        g.after_all(outs, table, n).router.main_pk == g.router.main_pk,
    decreases outs.len(),
{
    if outs.len() > 0 {
        lemma_router_stays(g, outs.drop_last(), table, n);
    }
}

/// Law: a pass needs the connections of its source and of its target, and the kind
/// of the source; the first of them that is missing is named.
pub proof fn law_pass_needs_both_connections<P, D>(r: JobRunner<P>, conns: ConnectionManager<D>)
    ensures
        r.lacks(conns) is None <==> strmap::at(conns@.conns, r.job@.source.connection) is Some && strmap::at(
            conns@.conns,
            r.job@.target.connection,
        ) is Some && conns@.kind(r.job@.source.connection) is Some,
        r.lacks(conns) matches Some(n) ==> {
            ||| n == r.job@.source.connection && (strmap::at(conns@.conns, n) is None || conns@.kind(n) is None)
            ||| n == r.job@.target.connection && strmap::at(conns@.conns, n) is None
        },
        strmap::at(conns@.conns, r.job@.source.connection) is None ==> r.lacks(conns) == Some(r.job@.source.connection),
{
}

/// Law: a report tells how many rows were read, as far as a machine word counts, and
/// how many the server took; the state goes first to its temporary file and then to
/// its own.
pub proof fn law_report_tells_of_the_pass<P>(r: JobRunner<P>, report: PassReport, c: Course)
    requires
        r.reported(report, c),
    ensures
        c.pages.flatten().len() <= usize::MAX ==> report.read_rows == c.pages.flatten().len(),
        report.written == link::counted(c.deeds()),
        report.file.path@ == state::state_path(r.state@.dir, r.state@.job),
        text::starts_with(report.file.temp@, report.file.path@) && report.file.temp@ != report.file.path@,
        r.state_text(c.pages) == Ok::<Seq<char>, Seq<char>>(report.file.text@),
{
    reveal_strlit(".tmp");
    reveal_strlit(".json.tmp");
    law_nothing_is_left_out_or_reordered(c.pages, Seq::empty(), Seq::empty());
    state::law_temporary_file_is_named_after_the_state(r.state@.dir, r.state@.job);
    let n = c.pages.flatten().len();
    if n <= usize::MAX {
        vstd::arithmetic::div_mod::lemma_small_mod(n, (usize::MAX + 1) as nat);
    }
    assert(report.file.temp@.len() > report.file.path@.len());
}

/// Law: a pass that cannot read on has asked for the page behind those it read, and
/// fails with the answer to that; one that has read all has asked until a page was
/// empty, unless the offset could go no further.
pub proof fn law_reading_ends_with_an_empty_page_or_a_fault(c: Course, e: AppErrorV)
    ensures
        c.unread(e) ==> e is Datasource && c.last.len() == 1 && (c.last[0] matches Ask::Page { offset, limit, answer, .. }
            && offset == reader::after_pages(c.reader, c.pages).offset && limit == reader::after_pages(
            c.reader,
            c.pages,
        ).page_size && answer is Err),
        c.exhausted() && c.last.len() > 0 ==> c.last.len() == 1 && (c.last[0] matches Ask::Page { offset, answer, .. }
            && offset == reader::after_pages(c.reader, c.pages).offset && (answer matches Ok(rows) && rows.len() == 0)),
        c.exhausted() && c.last.len() == 0 ==> reader::after_pages(c.reader, c.pages).done,
{
}

} // verus!

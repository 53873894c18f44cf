//! Batch writer to a target datasource with retry + backoff.
//!
//! Rows are column-normalised (first-seen column order, NULL for missing) and
//! shipped via `Datasource::batch_insert`. `Full` mode truncates each table
//! once per run, before its first insert. The set of truncated tables belongs
//! to the run, so several writers of a run do not truncate each other's
//! already-inserted rows.

use vstd::prelude::*;

use crate::datasource::Datasource;
use crate::error::{AppError, AppErrorV, AppResult, DatasourceError, DatasourceErrorV};
use crate::float;
use crate::float::two_to;
use crate::link;
use crate::link::{Deed, Link};
use crate::model;
use crate::model::{Cells, Row, SyncMode, Val, Value};
use crate::sql::is_listed;
use crate::strmap;
use crate::strmap::StrMap;
use crate::text;
use crate::text::{cat4, cat5, copy, dec_text};
use crate::views;

verus! {

// ---------------------------------------------------------------------------
// Normalising
// ---------------------------------------------------------------------------

/// The names, and behind them the keys that are not yet among them.
pub open spec fn with_keys(names: Seq<Seq<char>>, keys: Seq<Seq<char>>) -> Seq<Seq<char>>
    decreases keys.len(),
{
    if keys.len() == 0 {
        names
    } else {
        let rest = with_keys(names, keys.drop_last());
        if rest.contains(keys.last()) {
            rest
        } else {
            rest.push(keys.last())
        }
    }
}

/// The columns of the rows in the order in which they are first seen.
pub open spec fn all_columns(rows: Seq<Cells>) -> Seq<Seq<char>>
    decreases rows.len(),
{
    if rows.len() == 0 {
        Seq::empty()
    } else {
        with_keys(all_columns(rows.drop_last()), strmap::keys_of(rows.last()))
    }
}

/// A row's values in the order of the columns, null where it lacks one.
pub open spec fn aligned(row: Cells, columns: Seq<Seq<char>>) -> Seq<Val> {
    columns.map_values(|c: Seq<char>| model::cell(row, c))
}

/// The rows, each aligned.
pub open spec fn matrix(rows: Seq<Cells>) -> Seq<Seq<Val>> {
    rows.map_values(|r: Cells| aligned(r, all_columns(rows)))
}

fn columns_of(rows: &Vec<Row>) -> (out: Vec<String>)
    ensures
        text::views(out@) == all_columns(model::rows_view(rows@)),
{
    let ghost all = model::rows_view(rows@);
    let mut out: Vec<String> = Vec::new();
    let mut i: usize = 0;
    assert(text::views(out@) =~= all_columns(all.take(0)));
    while i < rows.len()
        invariant
            i <= rows.len(),
            all == model::rows_view(rows@),
            text::views(out@) == all_columns(all.take(i as int)),
        decreases rows.len() - i,
    {
        let ghost start = text::views(out@);
        let keys = rows[i].columns();
        let ghost names = text::views(keys@);
        let mut j: usize = 0;
        assert(names.take(0) =~= Seq::<Seq<char>>::empty());
        while j < keys.len()
            invariant
                j <= keys.len(),
                names == text::views(keys@),
                text::views(out@) == with_keys(start, names.take(j as int)),
            decreases keys.len() - j,
        {
            assert(names.take(j + 1).drop_last() =~= names.take(j as int));
            assert(names.take(j + 1).last() == keys@[j as int]@);
            if !is_listed(&out, keys[j].as_str()) {
                let k = keys[j].clone();
                proof {
                    views::lemma_list_push(out@, k);
                }
                out.push(k);
            }
            j += 1;
        }
        assert(names.take(j as int) =~= names);
        assert(all.take(i + 1).drop_last() =~= all.take(i as int));
        assert(all.take(i + 1).last() == rows@[i as int]@);
        i += 1;
    }
    assert(all.take(i as int) =~= all);
    out
}

/// Column-normalise rows: deterministic first-seen column order; every row is
/// padded with NULL for columns it does not contain.
pub fn normalise(rows: &Vec<Row>) -> (out: (Vec<String>, Vec<Vec<Value>>))
    ensures
        text::views(out.0@) == all_columns(model::rows_view(rows@)),
        views::lists(out.1@) == matrix(model::rows_view(rows@)),
{
    let ghost all = model::rows_view(rows@);
    let ghost want = matrix(all);
    let columns = columns_of(rows);
    let mut out: Vec<Vec<Value>> = Vec::new();
    let mut i: usize = 0;
    while i < rows.len()
        invariant
            i <= rows.len(),
            all == model::rows_view(rows@),
            want == matrix(all),
            text::views(columns@) == all_columns(all),
            views::lists(out@) == want.take(i as int),
        decreases rows.len() - i,
    {
        let r = rows[i].extract(&columns);
        let ghost before = views::lists(out@);
        out.push(r);
        assert(views::lists(out@) =~= before.push(views::list(r@)));
        assert(views::list(r@) == want[i as int]);
        assert(want.take(i + 1) =~= want.take(i as int).push(want[i as int]));
        i += 1;
    }
    assert(want.take(i as int) =~= want);
    (columns, out)
}

proof fn lemma_with_keys(names: Seq<Seq<char>>, keys: Seq<Seq<char>>, c: Seq<char>)
    ensures
        with_keys(names, keys).contains(c) <==> names.contains(c) || keys.contains(c),
    decreases keys.len(),
{
    if keys.len() > 0 {
        let k = keys.last();
        let rest = with_keys(names, keys.drop_last());
        lemma_with_keys(names, keys.drop_last(), c);
        lemma_push_contains(keys.drop_last(), k, c);
        assert(keys =~= keys.drop_last().push(k));
        lemma_push_contains(rest, k, c);
    }
}

proof fn lemma_push_contains(s: Seq<Seq<char>>, x: Seq<char>, c: Seq<char>)
    ensures
        s.push(x).contains(c) <==> s.contains(c) || x == c,
{
    let t = s.push(x);
    if s.contains(c) {
        let i = choose|i: int| 0 <= i < s.len() && s[i] == c;
        assert(t[i] == c);
    }
    if x == c {
        assert(t[s.len() as int] == c);
    }
    if t.contains(c) {
        let i = choose|i: int| 0 <= i < t.len() && t[i] == c;
        if i < s.len() {
            assert(s[i] == c);
        }
    }
}

/// Law: normalising loses no column: every column of every row is among the
/// columns, and the row's value stands in the matrix.
pub proof fn law_normalising_loses_nothing(rows: Seq<Cells>, i: int, k: int)
    requires
        0 <= i < rows.len(),
        0 <= k < rows[i].len(),
        strmap::ordered(rows[i]),
    ensures
        all_columns(rows).contains(rows[i][k].0),
        forall|j: int|
            0 <= j < all_columns(rows).len() && #[trigger] all_columns(rows)[j] == rows[i][k].0 ==> matrix(rows)[i][j]
                == rows[i][k].1,
{
    let c = rows[i][k].0;
    lemma_column_listed(rows, i, k);
    strmap::lemma_at_index(rows[i], k);
}

proof fn lemma_column_listed(rows: Seq<Cells>, i: int, k: int)
    requires
        0 <= i < rows.len(),
        0 <= k < rows[i].len(),
    ensures
        all_columns(rows).contains(rows[i][k].0),
    decreases rows.len(),
{
    let c = rows[i][k].0;
    let keys = strmap::keys_of(rows.last());
    lemma_with_keys(all_columns(rows.drop_last()), keys, c);
    if i == rows.len() - 1 {
        assert(keys[k] == c);
    } else {
        assert(rows.drop_last()[i] == rows[i]);
        lemma_column_listed(rows.drop_last(), i, k);
    }
}

// ---------------------------------------------------------------------------
// Truncating
// ---------------------------------------------------------------------------

/// The tables that a run truncated.
pub type Truncated = Seq<(Seq<char>, bool)>;

/// Whether the next write to a table truncates it first.
pub open spec fn truncates(mode: SyncMode, truncated: Truncated, table: Seq<char>) -> bool {
    mode == SyncMode::Full && strmap::at(truncated, table) is None
}

/// The truncated tables once a table is written to.
pub open spec fn marked(mode: SyncMode, truncated: Truncated, table: Seq<char>) -> Truncated {
    if truncates(mode, truncated, table) {
        strmap::put(truncated, table, true)
    } else {
        truncated
    }
}

/// Whether this write truncates the table first; the table is remembered.
pub fn must_truncate(mode: SyncMode, truncated: &mut StrMap<bool>, table: &str) -> (out: bool)
    ensures
        out == truncates(mode, old(truncated)@, table@),
        final(truncated)@ == marked(mode, old(truncated)@, table@),
{
    if mode == SyncMode::Full && !truncated.contains_key(table) {
        truncated.insert(copy(table), true);
        true
    } else {
        false
    }
}

/// Law: once a table was written to in a run, no later write of the run
/// truncates it, whatever is written to other tables in between.
pub proof fn law_truncated_once(mode: SyncMode, truncated: Truncated, table: Seq<char>, other: Seq<char>)
    requires
        strmap::ordered(truncated),
    ensures
        !truncates(mode, marked(mode, truncated, table), table),
        !truncates(mode, truncated, table) ==> !truncates(mode, marked(mode, truncated, other), table),
        mode != SyncMode::Full ==> !truncates(mode, truncated, table),
{
    strmap::lemma_put(truncated, table, true);
    strmap::lemma_put(truncated, other, true);
    strmap::lemma_dict(strmap::put(truncated, table, true), table);
    strmap::lemma_dict(strmap::put(truncated, other, true), table);
    strmap::lemma_dict(truncated, table);
}

// ---------------------------------------------------------------------------
// Attempts
// ---------------------------------------------------------------------------

/// The seconds to wait after so many failed attempts: one, then twice as many
/// each time, up to `2^63`.
pub open spec fn backoff(attempt: int) -> int {
    if attempt <= 1 {
        1
    } else if attempt <= 64 {
        float::p2(attempt - 1)
    } else {
        float::p2(63)
    }
}

pub fn backoff_secs(attempt: u64) -> (out: u64)
    ensures
        out == backoff(attempt as int),
{
    proof {
        float::lemma_p2_small();
    }
    let k: u32 = if attempt <= 1 {
        0
    } else if attempt <= 64 {
        (attempt - 1) as u32
    } else {
        63
    };
    proof {
        float::lemma_p2_le(k as int, 63);
    }
    two_to(k) as u64
}

/// The error after the last attempt.
pub open spec fn gave_up(table: Seq<char>, rows: nat, attempts: nat, cause: DatasourceErrorV) -> AppErrorV {
    AppErrorV::Datasource(
        "batch_insert "@ + table + " ("@ + text::dec(rows) + " rows) failed after "@ + text::dec(attempts) + " attempts: "@
            + cause.words(),
    )
}

/// What follows a failed attempt.
#[derive(Debug)]
pub enum AfterFailure {
    GiveUp(AppError),
    /// Try again after so many seconds.
    Wait(u64),
}

/// What follows the failure of attempt number `attempt`, counted from one: with
/// `retry` retries, attempt number `retry + 1` is the last.
pub fn after_failure(table: &str, rows: usize, retry: u32, attempt: u64, cause: &DatasourceError) -> (out: AfterFailure)
    ensures
        match out {
            AfterFailure::GiveUp(e) => attempt > retry && e@ == gave_up(
                table@,
                rows as nat,
                attempt as nat,
                cause@,
            ),
            AfterFailure::Wait(secs) => attempt <= retry && secs == backoff(attempt as int),
        },
{
    if attempt > retry as u64 {
        let n = dec_text(rows as u64);
        let a = dec_text(attempt);
        let words = cause.message();
        let head = cat5("batch_insert ", table, " (", n.as_str(), " rows) failed after ");
        AfterFailure::GiveUp(AppError::Datasource(cat4(head.as_str(), a.as_str(), " attempts: ", words.as_str())))
    } else {
        AfterFailure::Wait(backoff_secs(attempt))
    }
}

/// The outcome of a number of attempts.
pub open spec fn verdict(table: Seq<char>, rows: nat, replies: Seq<Result<u64, DatasourceErrorV>>) -> Result<
    u64,
    AppErrorV,
> {
    match replies.last() {
        Ok(n) => Ok(n),
        Err(e) => Err(gave_up(table, rows, replies.len(), e)),
    }
}

/// What a write comes to.
pub open spec fn count_view(r: AppResult<u64>) -> Result<u64, AppErrorV> {
    match r {
        Ok(n) => Ok(n),
        Err(e) => Err(e@),
    }
}

/// The error of a table that cannot be truncated.
pub open spec fn not_truncated(table: Seq<char>, cause: DatasourceErrorV) -> AppErrorV {
    AppErrorV::Datasource("truncate "@ + table + ": "@ + cause.words())
}

/// Writes batches to a connection.
pub struct Writer {
    /// The connection that is written to.
    pub connection: String,
    pub mode: SyncMode,
    pub retry: u32,
    /// Short identity used in logs (`main`, `w0`, `w1`, ...).
    pub tag: String,
}

/// What a [`Writer`] goes by.
#[verifier::ext_equal]
pub struct WriterV {
    pub connection: Seq<char>,
    pub mode: SyncMode,
    pub retry: u32,
    pub tag: Seq<char>,
}

impl View for Writer {
    type V = WriterV;

    open spec fn view(&self) -> WriterV {
        WriterV { connection: self.connection@, mode: self.mode, retry: self.retry, tag: self.tag@ }
    }
}

impl WriterV {
    /// The insert of some rows, with the reply it got.
    pub open spec fn insertion(
        self,
        table: Seq<char>,
        rows: Seq<Cells>,
        keys: Seq<Seq<char>>,
        reply: Result<u64, DatasourceErrorV>,
    ) -> Deed {
        Deed::Insert {
            at: self.connection,
            table,
            columns: all_columns(rows),
            rows: matrix(rows),
            mode: self.mode,
            keys,
            reply,
        }
    }

    pub open spec fn truncation(self, table: Seq<char>, outcome: Result<(), DatasourceErrorV>) -> Deed {
        Deed::Truncate { at: self.connection, table, outcome }
    }

    /// The attempts that got these replies: the same insert each time, and
    /// between two of them a pause that grows with their number.
    pub open spec fn attempts(
        self,
        table: Seq<char>,
        rows: Seq<Cells>,
        keys: Seq<Seq<char>>,
        replies: Seq<Result<u64, DatasourceErrorV>>,
    ) -> Seq<Deed>
        decreases replies.len(),
    {
        if replies.len() == 0 {
            Seq::empty()
        } else if replies.len() == 1 {
            seq![self.insertion(table, rows, keys, replies[0])]
        } else {
            self.attempts(table, rows, keys, replies.drop_last()).push(
                Deed::Pause(backoff(replies.len() - 1) as u64),
            ).push(self.insertion(table, rows, keys, replies.last()))
        }
    }

    /// Whether the attempts end with these replies: there is at least one and at
    /// most `retry + 1`; all but the last failed, and the last one failed only if
    /// no attempt was left.
    pub open spec fn ends_with(self, replies: Seq<Result<u64, DatasourceErrorV>>) -> bool {
        &&& 1 <= replies.len() <= self.retry + 1
        &&& forall|i: int| 0 <= i < replies.len() - 1 ==> (#[trigger] replies[i]) is Err
        &&& replies.last() is Err ==> replies.len() == self.retry + 1
    }

    /// Whether the insert of some rows does just this and comes to `r`.
    pub open spec fn inserts(
        self,
        table: Seq<char>,
        rows: Seq<Cells>,
        keys: Seq<Seq<char>>,
        deeds: Seq<Deed>,
        r: Result<u64, AppErrorV>,
    ) -> bool {
        exists|replies: Seq<Result<u64, DatasourceErrorV>>|
            {
                &&& self.ends_with(replies)
                &&& deeds == #[trigger] self.attempts(table, rows, keys, replies)
                &&& r == verdict(table, rows.len(), replies)
            }
    }

    /// Whether the write of some rows does just this and comes to `r`: nothing for
    /// no rows; a truncate first where it is due; then the attempts to insert.
    pub open spec fn writes(
        self,
        truncating: bool,
        table: Seq<char>,
        rows: Seq<Cells>,
        keys: Seq<Seq<char>>,
        deeds: Seq<Deed>,
        r: Result<u64, AppErrorV>,
    ) -> bool {
        if rows.len() == 0 {
            deeds.len() == 0 && r == Ok::<u64, AppErrorV>(0)
        } else if !truncating {
            self.inserts(table, rows, keys, deeds, r)
        } else {
            &&& deeds.len() > 0
            &&& deeds[0] matches Deed::Truncate { at, table: t, outcome } && at == self.connection && t == table && (
            match outcome {
                Ok(_) => self.inserts(table, rows, keys, deeds.skip(1), r),
                Err(e) => deeds.len() == 1 && r == Err::<u64, AppErrorV>(not_truncated(table, e)),
            })
        }
    }
}

impl Writer {
    pub fn new(connection: String, mode: SyncMode, retry: u32, tag: String) -> (out: Writer)
        ensures
            out@ == (WriterV { connection: connection@, mode, retry, tag: tag@ }),
    {
        Writer { connection, mode, retry, tag }
    }

    fn insert_rows<'a, D: Datasource, Z: Fn(u64)>(
        &self,
        link: &mut Link<'a, D, Z>,
        table: &str,
        rows: &Vec<Row>,
        pk: &Vec<String>,
    ) -> (out: AppResult<u64>)
        requires
            old(link).ready(),
            old(link).reaches(self@.connection),
        ensures
            final(link).ready(),
            final(link).conns() == old(link).conns(),
            final(link).asked() == old(link).asked(),
            exists|deeds: Seq<Deed>|
                final(link).done() == old(link).done() + deeds && #[trigger] self@.inserts(
                    table@,
                    model::rows_view(rows@),
                    text::views(pk@),
                    deeds,
                    count_view(out),
                ),
    {
        let (columns, matrix) = normalise(rows);
        let ghost all = model::rows_view(rows@);
        let ghost keys = text::views(pk@);
        let ghost first = link.done();
        let ghost mut replies: Seq<Result<u64, DatasourceErrorV>> = Seq::empty();
        let mut attempt: u64 = 0;
        assert(first + self@.attempts(table@, all, keys, replies) =~= first);
        loop
            invariant
                link.ready(),
                link.conns() == old(link).conns(),
                link.asked() == old(link).asked(),
                first == old(link).done(),
                link.reaches(self@.connection),
                all == model::rows_view(rows@),
                keys == text::views(pk@),
                text::views(columns@) == all_columns(all),
                views::lists(matrix@) == self::matrix(all),
                attempt <= self.retry,
                replies.len() == attempt,
                link.done() == first + self@.attempts(table@, all, keys, replies) + (if attempt == 0 {
                    Seq::<Deed>::empty()
                } else {
                    seq![Deed::Pause(backoff(attempt as int) as u64)]
                }),
                forall|i: int| 0 <= i < replies.len() ==> (#[trigger] replies[i]) is Err,
            decreases self.retry + 1 - attempt,
        {
            let ghost before = link.done();
            let ghost so_far = replies;
            let r = link.batch_insert(self.connection.as_str(), table, &columns, &matrix, self.mode, pk);
            proof {
                replies = replies.push(link::insert_reply(r));
                assert(replies.drop_last() =~= so_far);
                assert(link.done() =~= first + self@.attempts(table@, all, keys, replies));
            }
            attempt += 1;
            match r {
                Ok(n) => {
                    assert(self@.ends_with(replies));
                    assert(self@.inserts(table@, all, keys, self@.attempts(table@, all, keys, replies), Ok(n)));
                    return Ok(n);
                },
                Err(e) => match after_failure(table, rows.len(), self.retry, attempt, &e) {
                    AfterFailure::GiveUp(x) => {
                        assert(self@.ends_with(replies));
                        assert(self@.inserts(table@, all, keys, self@.attempts(table@, all, keys, replies), Err(x@)));
                        return Err(x);
                    },
                    AfterFailure::Wait(secs) => {
                        link.wait(secs);
                        assert(link.done() =~= first + self@.attempts(table@, all, keys, replies) + seq![
                            Deed::Pause(backoff(attempt as int) as u64),
                        ]);
                    },
                },
            }
        }
    }

    /// Truncate a table.
    pub fn truncate<'a, D: Datasource, Z: Fn(u64)>(&self, link: &mut Link<'a, D, Z>, table: &str) -> (out: AppResult<()>)
        requires
            old(link).ready(),
            old(link).reaches(self@.connection),
        ensures
            final(link).ready(),
            final(link).conns() == old(link).conns(),
            final(link).asked() == old(link).asked(),
            final(link).done().len() == old(link).done().len() + 1,
            final(link).done().drop_last() == old(link).done(),
            match out {
                Ok(_) => final(link).done().last() == self@.truncation(table@, Ok(())),
                Err(x) => final(link).done().last() matches Deed::Truncate { outcome: Err(e), .. }
                    && final(link).done().last() == self@.truncation(table@, Err(e)) && x@ == not_truncated(table@, e),
            },
    {
        let x = link.truncate(self.connection.as_str(), table);
        assert(link.done().drop_last() =~= old(link).done());
        match x {
            Ok(_) => Ok(()),
            Err(e) => {
                let words = e.message();
                Err(AppError::Datasource(cat4("truncate ", table, ": ", words.as_str())))
            },
        }
    }

    /// Write a batch of rows to `table`. In `Full` mode the table is truncated
    /// once per run, before its first insert; `truncated` belongs to the run and
    /// is shared by its writers.
    pub fn write_batch<'a, D: Datasource, Z: Fn(u64)>(
        &self,
        link: &mut Link<'a, D, Z>,
        truncated: &mut StrMap<bool>,
        table: &str,
        rows: &Vec<Row>,
        pk: &Vec<String>,
    ) -> (out: AppResult<u64>)
        requires
            old(link).ready(),
            old(link).reaches(self@.connection),
        ensures
            final(link).ready(),
            final(link).conns() == old(link).conns(),
            final(link).asked() == old(link).asked(),
            final(truncated)@ == (if rows@.len() == 0 {
                old(truncated)@
            } else {
                marked(self.mode, old(truncated)@, table@)
            }),
            exists|deeds: Seq<Deed>|
                final(link).done() == old(link).done() + deeds && #[trigger] self@.writes(
                    truncates(self.mode, old(truncated)@, table@),
                    table@,
                    model::rows_view(rows@),
                    text::views(pk@),
                    deeds,
                    count_view(out),
                ),
    {
        let ghost all = model::rows_view(rows@);
        let ghost keys = text::views(pk@);
        let ghost first = link.done();
        let ghost truncating = truncates(self.mode, truncated@, table@);
        if rows.len() == 0 {
            assert(first + Seq::<Deed>::empty() =~= first);
            assert(self@.writes(truncating, table@, all, keys, Seq::empty(), Ok(0)));
            return Ok(0);
        }
        if must_truncate(self.mode, truncated, table) {
            match self.truncate(link, table) {
                Ok(_) => {},
                Err(x) => {
                    proof {
                        let deeds = seq![link.done().last()];
                        assert(link.done() =~= first + deeds);
                        assert(self@.writes(true, table@, all, keys, deeds, Err(x@)));
                    }
                    return Err(x);
                },
            }
        }
        let ghost middle = link.done();
        let out = self.insert_rows(link, table, rows, pk);
        proof {
            let rest = choose|deeds: Seq<Deed>|
                link.done() == middle + deeds && #[trigger] self@.inserts(table@, all, keys, deeds, count_view(out));
            if truncating {
                let deeds = seq![self@.truncation(table@, Ok(()))] + rest;
                assert(deeds.skip(1) =~= rest);
                assert(middle =~= first + seq![self@.truncation(table@, Ok(()))]);
                assert(link.done() =~= first + deeds);
                assert(self@.writes(true, table@, all, keys, deeds, count_view(out)));
            } else {
                assert(self@.writes(false, table@, all, keys, rest, count_view(out)));
            }
        }
        out
    }
}

proof fn lemma_attempts_count(
    w: WriterV,
    table: Seq<char>,
    rows: Seq<Cells>,
    keys: Seq<Seq<char>>,
    replies: Seq<Result<u64, DatasourceErrorV>>,
)
    requires
        forall|i: int| 0 <= i < replies.len() - 1 ==> (#[trigger] replies[i]) is Err,
    ensures
        link::counted(w.attempts(table, rows, keys, replies)) == (if replies.len() > 0 && replies.last() is Ok {
            replies.last()->Ok_0 as int
        } else {
            0
        }),
    decreases replies.len(),
{
    reveal_with_fuel(link::counted, 3);
    let all = w.attempts(table, rows, keys, replies);
    if replies.len() == 1 {
        assert(all.drop_last() =~= Seq::<Deed>::empty());
    } else if replies.len() > 1 {
        let head = replies.drop_last();
        assert forall|i: int| 0 <= i < head.len() - 1 implies (#[trigger] head[i]) is Err by {
            assert(head[i] == replies[i]);
        }
        assert(replies[replies.len() - 2] is Err);
        assert(head.last() == replies[replies.len() - 2]);
        lemma_attempts_count(w, table, rows, keys, head);
        let before = w.attempts(table, rows, keys, head);
        let pause = Deed::Pause(backoff(replies.len() - 1) as u64);
        assert(all.drop_last() =~= before.push(pause));
        assert(before.push(pause).drop_last() =~= before);
    }
}

/// Law: a write counts for just the rows that its inserts counted for, whatever
/// number of attempts it took.
pub proof fn law_write_counts_its_inserts(
    w: WriterV,
    truncating: bool,
    table: Seq<char>,
    rows: Seq<Cells>,
    keys: Seq<Seq<char>>,
    deeds: Seq<Deed>,
    n: u64,
)
    requires
        w.writes(truncating, table, rows, keys, deeds, Ok(n)),
    ensures
        link::counted(deeds) == n,
{
    if rows.len() > 0 {
        let rest = if truncating {
            deeds.skip(1)
        } else {
            deeds
        };
        assert(w.inserts(table, rows, keys, rest, Ok(n)));
        let replies = choose|replies: Seq<Result<u64, DatasourceErrorV>>|
            {
                &&& w.ends_with(replies)
                &&& rest == #[trigger] w.attempts(table, rows, keys, replies)
                &&& Ok::<u64, AppErrorV>(n) == verdict(table, rows.len(), replies)
            };
        lemma_attempts_count(w, table, rows, keys, replies);
        if truncating {
            let head = seq![deeds[0]];
            assert(deeds =~= head + rest);
            link::lemma_counted_append(head, rest);
            reveal_with_fuel(link::counted, 2);
            assert(head.drop_last() =~= Seq::<Deed>::empty());
        }
    }
}

/// Law: a table is truncated only by the first write of a full run, and then
/// before anything is inserted: a truncate is the first deed of its write and
/// there is no other.
pub proof fn law_truncate_comes_first(
    w: WriterV,
    truncating: bool,
    table: Seq<char>,
    rows: Seq<Cells>,
    keys: Seq<Seq<char>>,
    deeds: Seq<Deed>,
    r: Result<u64, AppErrorV>,
    i: int,
)
    requires
        w.writes(truncating, table, rows, keys, deeds, r),
        0 <= i < deeds.len(),
    ensures
        deeds[i] is Truncate <==> truncating && i == 0,
{
    let rest = if truncating {
        deeds.skip(1)
    } else {
        deeds
    };
    if rows.len() > 0 && !(truncating && i == 0) {
        assert(w.inserts(table, rows, keys, rest, r));
        let replies = choose|replies: Seq<Result<u64, DatasourceErrorV>>|
            {
                &&& w.ends_with(replies)
                &&& rest == #[trigger] w.attempts(table, rows, keys, replies)
                &&& r == verdict(table, rows.len(), replies)
            };
        let j = if truncating {
            i - 1
        } else {
            i
        };
        assert(rest[j] == deeds[i]);
        lemma_attempts_insert(w, table, rows, keys, replies, j);
    }
}

proof fn lemma_attempts_insert(
    w: WriterV,
    table: Seq<char>,
    rows: Seq<Cells>,
    keys: Seq<Seq<char>>,
    replies: Seq<Result<u64, DatasourceErrorV>>,
    j: int,
)
    requires
        0 <= j < w.attempts(table, rows, keys, replies).len(),
    ensures
        !(w.attempts(table, rows, keys, replies)[j] is Truncate),
    decreases replies.len(),
{
    if replies.len() > 1 {
        let before = w.attempts(table, rows, keys, replies.drop_last());
        if j < before.len() {
            lemma_attempts_insert(w, table, rows, keys, replies.drop_last(), j);
        }
    }
}

// ---------------------------------------------------------------------------
// Several writers
// ---------------------------------------------------------------------------

/// One call of [`Writer::write_batch`]: by which writer, with what, what it did
/// and what it came to.
#[verifier::ext_equal]
pub struct Call {
    pub writer: WriterV,
    pub table: Seq<char>,
    pub rows: Seq<Cells>,
    pub keys: Seq<Seq<char>>,
    pub deeds: Seq<Deed>,
    pub outcome: Result<u64, AppErrorV>,
}

/// The truncated tables after some calls that share them, none at first.
pub open spec fn shared(mode: SyncMode, calls: Seq<Call>) -> Truncated
    decreases calls.len(),
{
    if calls.len() == 0 {
        Seq::empty()
    } else {
        let before = shared(mode, calls.drop_last());
        if calls.last().rows.len() == 0 {
            before
        } else {
            marked(mode, before, calls.last().table)
        }
    }
}

/// Whether these can be the calls of a run, one after the other, by writers of
/// one mode that share the truncated tables.
pub open spec fn is_run(mode: SyncMode, calls: Seq<Call>) -> bool {
    forall|i: int|
        0 <= i < calls.len() ==> (#[trigger] calls[i]).writer.mode == mode && calls[i].writer.writes(
            truncates(mode, shared(mode, calls.take(i)), calls[i].table),
            calls[i].table,
            calls[i].rows,
            calls[i].keys,
            calls[i].deeds,
            calls[i].outcome,
        )
}

/// Whether one of the first `n` calls had rows for a table.
pub open spec fn had_rows(calls: Seq<Call>, n: int, table: Seq<char>) -> bool {
    exists|k: int| 0 <= k < n && (#[trigger] calls[k]).table == table && calls[k].rows.len() > 0
}

proof fn lemma_shared(mode: SyncMode, calls: Seq<Call>, n: int, table: Seq<char>)
    requires
        0 <= n <= calls.len(),
    ensures
        strmap::ordered(shared(mode, calls.take(n))),
        strmap::at(shared(mode, calls.take(n)), table) is Some <==> mode == SyncMode::Full && had_rows(calls, n, table),
    decreases n,
{
    let now = shared(mode, calls.take(n));
    strmap::lemma_dict(now, table);
    if n > 0 {
        let last = calls[n - 1];
        lemma_shared(mode, calls, n - 1, table);
        lemma_shared(mode, calls, n - 1, last.table);
        let before = shared(mode, calls.take(n - 1));
        assert(calls.take(n).drop_last() =~= calls.take(n - 1));
        assert(calls.take(n).last() == last);
        strmap::lemma_put(before, last.table, true);
        strmap::lemma_dict(before, table);
        strmap::lemma_dict(strmap::put(before, last.table, true), table);
        if had_rows(calls, n, table) && !had_rows(calls, n - 1, table) {
            let k = choose|k: int| 0 <= k < n && (#[trigger] calls[k]).table == table && calls[k].rows.len() > 0;
            assert(k == n - 1);
        }
        if had_rows(calls, n - 1, table) {
            let k = choose|k: int| 0 <= k < n - 1 && (#[trigger] calls[k]).table == table && calls[k].rows.len() > 0;
            assert(calls[k].table == table);
        }
        if last.table == table && last.rows.len() > 0 {
            assert(calls[n - 1].table == table);
            assert(had_rows(calls, n, table));
        }
    }
}

/// Law: writers that share the truncated tables of a full run truncate each
/// table that gets rows just once, before its first insert: the first call with
/// rows for a table starts with the truncate, and there is no other. In other
/// modes nothing is truncated. A call without rows does nothing.
pub proof fn law_writers_truncate_each_table_once(mode: SyncMode, calls: Seq<Call>, i: int)
    requires
        is_run(mode, calls),
        0 <= i < calls.len(),
    ensures
        calls[i].rows.len() == 0 <==> calls[i].deeds.len() == 0,
        calls[i].rows.len() == 0 ==> calls[i].outcome == Ok::<u64, AppErrorV>(0),
        forall|j: int|
            0 <= j < calls[i].deeds.len() ==> ((#[trigger] calls[i].deeds[j]) is Truncate <==> j == 0 && mode
                == SyncMode::Full && !had_rows(calls, i, calls[i].table)),
        forall|j: int|
            0 <= j < calls[i].deeds.len() ==> ((#[trigger] calls[i].deeds[j]) matches Deed::Truncate { at, table, .. }
                ==> at == calls[i].writer.connection && table == calls[i].table),
{
    let x = calls[i];
    lemma_shared(mode, calls, i, x.table);
    let truncating = truncates(mode, shared(mode, calls.take(i)), x.table);
    assert(x.writer.writes(truncating, x.table, x.rows, x.keys, x.deeds, x.outcome));
    if x.rows.len() > 0 {
        lemma_writes_something(x.writer, truncating, x.table, x.rows, x.keys, x.deeds, x.outcome);
    }
    assert forall|j: int| 0 <= j < x.deeds.len() implies ((#[trigger] x.deeds[j]) is Truncate <==> truncating && j == 0) by {
        law_truncate_comes_first(x.writer, truncating, x.table, x.rows, x.keys, x.deeds, x.outcome, j);
    }
}

proof fn lemma_writes_something(
    w: WriterV,
    truncating: bool,
    table: Seq<char>,
    rows: Seq<Cells>,
    keys: Seq<Seq<char>>,
    deeds: Seq<Deed>,
    r: Result<u64, AppErrorV>,
)
    requires
        w.writes(truncating, table, rows, keys, deeds, r),
        rows.len() > 0,
    ensures
        deeds.len() > 0,
{
    if !truncating {
        assert(w.inserts(table, rows, keys, deeds, r));
        let replies = choose|replies: Seq<Result<u64, DatasourceErrorV>>|
            {
                &&& w.ends_with(replies)
                &&& deeds == #[trigger] w.attempts(table, rows, keys, replies)
                &&& r == verdict(table, rows.len(), replies)
            };
        assert(w.attempts(table, rows, keys, replies).len() > 0);
    }
}

// ---------------------------------------------------------------------------
// What a write does
// ---------------------------------------------------------------------------

/// Law: the pause before a retry is one second at first and doubles with each
/// further attempt, until it can double no more.
pub proof fn law_pauses_double(attempt: int)
    requires
        attempt >= 1,
    ensures
        attempt == 1 ==> backoff(attempt) == 1,
        attempt < 64 ==> backoff(attempt + 1) == 2 * backoff(attempt),
        attempt >= 64 ==> backoff(attempt + 1) == backoff(attempt),
{
    float::lemma_p2_small();
    if attempt < 64 {
        float::lemma_p2_add(attempt - 1, 1);
    }
}

/// Law: the attempts at a batch alternate with pauses. Each attempt sends the same
/// batch: the table, all columns and rows, the keys and the mode of the writer, over
/// its connection. The pause behind an attempt goes by the number of that attempt.
pub proof fn law_attempts_send_the_same_batch(
    w: WriterV,
    table: Seq<char>,
    rows: Seq<Cells>,
    keys: Seq<Seq<char>>,
    replies: Seq<Result<u64, DatasourceErrorV>>,
    k: int,
)
    requires
        0 <= k < replies.len(),
    ensures
        ({
            let deeds = w.attempts(table, rows, keys, replies);
            &&& deeds.len() == 2 * replies.len() - 1
            &&& deeds[2 * k] matches Deed::Insert { at, table: t, columns, rows: values, mode, keys: ks, reply } && at
                == w.connection && t == table && columns == all_columns(rows) && values == matrix(rows) && mode == w.mode
                && ks == keys && reply == replies[k]
            &&& k < replies.len() - 1 ==> deeds[2 * k + 1] == Deed::Pause(backoff(k + 1) as u64)
        }),
    decreases replies.len(),
{
    if replies.len() > 1 {
        let head = replies.drop_last();
        if k < head.len() {
            law_attempts_send_the_same_batch(w, table, rows, keys, head, k);
        } else {
            law_attempts_send_the_same_batch(w, table, rows, keys, head, 0);
        }
    }
}

/// Law: a batch is tried until the server takes it, at most once more than there
/// are retries. Where the server takes it, the write gives the server's count; it
/// fails only where every attempt failed.
pub proof fn law_batch_is_tried_until_taken(
    w: WriterV,
    table: Seq<char>,
    rows: Seq<Cells>,
    keys: Seq<Seq<char>>,
    deeds: Seq<Deed>,
    r: Result<u64, AppErrorV>,
)
    requires
        w.inserts(table, rows, keys, deeds, r),
    ensures
        1 <= deeds.len() <= 2 * w.retry + 1,
        r is Err ==> deeds.len() == 2 * w.retry + 1,
        deeds.last() matches Deed::Insert { reply, .. } && (r is Ok <==> reply is Ok) && (r matches Ok(n) ==> reply == Ok::<
            u64,
            DatasourceErrorV,
        >(n)),
        forall|k: int|
            0 <= k < deeds.len() - 1 ==> ((#[trigger] deeds[k]) matches Deed::Insert { reply, .. } ==> reply is Err),
{
    let replies = choose|replies: Seq<Result<u64, DatasourceErrorV>>|
        {
            &&& w.ends_with(replies)
            &&& deeds == #[trigger] w.attempts(table, rows, keys, replies)
            &&& r == verdict(table, rows.len(), replies)
        };
    law_attempts_send_the_same_batch(w, table, rows, keys, replies, replies.len() - 1);
    assert forall|k: int| 0 <= k < deeds.len() - 1 implies ((#[trigger] deeds[k]) matches Deed::Insert { reply, .. }
        ==> reply is Err) by {
        let i = k / 2;
        law_attempts_send_the_same_batch(w, table, rows, keys, replies, i);
        assert(k == 2 * i || k == 2 * i + 1);
    }
}

proof fn lemma_names_stay(names: Seq<Seq<char>>, keys: Seq<Seq<char>>)
    ensures
        names.no_duplicates() ==> with_keys(names, keys).no_duplicates(),
        with_keys(names, keys).len() >= names.len(),
        with_keys(names, keys).take(names.len() as int) == names,
    decreases keys.len(),
{
    if keys.len() > 0 {
        let head = keys.drop_last();
        lemma_names_stay(names, head);
        let rest = with_keys(names, head);
        if !rest.contains(keys.last()) {
            let all = rest.push(keys.last());
            assert(all.take(names.len() as int) =~= rest.take(names.len() as int));
        }
    } else {
        assert(names.take(names.len() as int) =~= names);
    }
}

/// Law: a batch has each column of its rows once and no other column; the columns
/// of the first rows come first.
pub proof fn law_batch_has_each_column_once(rows: Seq<Cells>, c: Seq<char>)
    ensures
        all_columns(rows).no_duplicates(),
        all_columns(rows).contains(c) <==> exists|i: int|
            0 <= i < rows.len() && strmap::keys_of(#[trigger] rows[i]).contains(c),
        rows.len() > 0 ==> all_columns(rows).take(all_columns(rows.drop_last()).len() as int) == all_columns(
            rows.drop_last(),
        ),
    decreases rows.len(),
{
    if rows.len() > 0 {
        let head = rows.drop_last();
        law_batch_has_each_column_once(head, c);
        lemma_with_keys(all_columns(head), strmap::keys_of(rows.last()), c);
        lemma_names_stay(all_columns(head), strmap::keys_of(rows.last()));
        if strmap::keys_of(rows.last()).contains(c) {
            assert(strmap::keys_of(rows[rows.len() - 1]).contains(c));
        }
        if exists|i: int| 0 <= i < head.len() && strmap::keys_of(#[trigger] head[i]).contains(c) {
            let i = choose|i: int| 0 <= i < head.len() && strmap::keys_of(#[trigger] head[i]).contains(c);
            assert(strmap::keys_of(rows[i]).contains(c));
        }
        if exists|i: int| 0 <= i < rows.len() && strmap::keys_of(#[trigger] rows[i]).contains(c) {
            let i = choose|i: int| 0 <= i < rows.len() && strmap::keys_of(#[trigger] rows[i]).contains(c);
            if i < head.len() {
                assert(strmap::keys_of(head[i]).contains(c));
            }
        }
    }
}

/// Law: a row of a batch has a value for each column: the row's own where it has
/// the column, null where it has not.
pub proof fn law_missing_columns_are_null(rows: Seq<Cells>, i: int, j: int)
    requires
        0 <= i < rows.len(),
        0 <= j < all_columns(rows).len(),
    ensures
        matrix(rows).len() == rows.len(),
        matrix(rows)[i].len() == all_columns(rows).len(),
        strmap::at(rows[i], all_columns(rows)[j]) matches Some(v) ==> matrix(rows)[i][j] == v,
        strmap::at(rows[i], all_columns(rows)[j]) is None ==> matrix(rows)[i][j] is Null,
{
}

/// Law: a batch that is given up names its table and its cause, and between them how
/// many rows it had and how often it was tried; a table that cannot be emptied is
/// named with the cause too.
pub proof fn law_faults_name_table_and_cause(table: Seq<char>, rows: nat, attempts: nat, cause: DatasourceErrorV)
    ensures
        gave_up(table, rows, attempts, cause) matches AppErrorV::Datasource(s) && text::starts_with(
            s,
            "batch_insert "@ + table + " ("@ + text::dec(rows) + " rows)"@,
        ) && text::ends_with(s, text::dec(attempts) + " attempts: "@ + cause.words()),
        not_truncated(table, cause) matches AppErrorV::Datasource(s) && text::starts_with(s, "truncate "@ + table)
            && text::ends_with(s, cause.words()),
{
    reveal_strlit(" rows)");
    reveal_strlit(" rows) failed after ");
    let none = Seq::<char>::empty();
    let p = "batch_insert "@ + table + " ("@ + text::dec(rows);
    let m = " rows) failed after "@;
    let n = text::dec(attempts);
    let w = cause.words();
    let s = p + m + n + " attempts: "@ + w;
    let tail = m.skip(6);
    assert(m =~= " rows)"@ + tail);
    let head = p + " rows)"@;
    assert(p + m =~= head + tail);
    assert(s =~= head + (tail + n + " attempts: "@ + w));
    text::law_parts_are_found(none, head, tail + n + " attempts: "@ + w);
    assert(s =~= (p + m) + (n + " attempts: "@ + w));
    text::law_parts_are_found(p + m, n + " attempts: "@ + w, none);
    let t = "truncate "@ + table;
    assert(t + ": "@ + w =~= t + (": "@ + w));
    text::law_parts_are_found(none, t, ": "@ + w);
    text::law_parts_are_found(t + ": "@, w, none);
}

} // verus!

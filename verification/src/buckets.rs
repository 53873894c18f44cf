//! Rows gathered by writer and table until a batch is full.

use vstd::prelude::*;

use crate::etl::{EtlOutputRow, EtlOutputRowV};
use crate::model;
use crate::model::{Cells, Row};
use crate::router::{Router, RouterV};
use crate::strmap;
use crate::strmap::{Pairs, StrMap};
use crate::text;
use crate::text::{copy, same};
use crate::views;

verus! {

/// Rows for one table.
#[derive(Debug)]
pub struct RowList {
    pub rows: Vec<Row>,
}

impl View for RowList {
    type V = Seq<Cells>;

    open spec fn view(&self) -> Seq<Cells> {
        model::rows_view(self.rows@)
    }
}

/// Rows that one writer writes to one table at once.
#[derive(Debug)]
pub struct Batch {
    pub writer: usize,
    pub table: String,
    pub rows: Vec<Row>,
}

/// What a [`Batch`] holds.
#[verifier::ext_equal]
pub struct BatchV {
    pub writer: int,
    pub table: Seq<char>,
    pub rows: Seq<Cells>,
}

impl View for Batch {
    type V = BatchV;

    open spec fn view(&self) -> BatchV {
        BatchV { writer: self.writer as int, table: self.table@, rows: model::rows_view(self.rows@) }
    }
}

/// The pending rows of one writer, by table.
pub type Pending = Seq<(Seq<char>, Seq<Cells>)>;

/// Pending rows, for each writer by table.
#[derive(Debug)]
pub struct Buckets {
    pub parts: Vec<StrMap<RowList>>,
}

impl View for Buckets {
    type V = Seq<Pending>;

    open spec fn view(&self) -> Seq<Pending> {
        views::list(self.parts@)
    }
}

/// The pending rows for a table.
pub open spec fn pending(p: Pending, table: Seq<char>) -> Seq<Cells> {
    match strmap::at(p, table) {
        Some(rows) => rows,
        None => Seq::empty(),
    }
}

/// A writer's pending rows and the batch that is due, once a row for a table
/// came in.
pub open spec fn dropped_in(p: Pending, writer: int, table: Seq<char>, row: Cells, threshold: int) -> (
    Pending,
    Option<BatchV>,
) {
    let rows = pending(p, table).push(row);
    if rows.len() >= threshold {
        (strmap::cut(p, table), Some(BatchV { writer, table, rows }))
    } else {
        (strmap::put(p, table, rows), None)
    }
}

proof fn lemma_put_after_cut<V>(p: Pairs<V>, k: Seq<char>, v: V)
    requires
        strmap::ordered(p),
    ensures
        strmap::put(strmap::cut(p, k), k, v) == strmap::put(p, k, v),
{
    strmap::lemma_cut(p, k);
    strmap::lemma_put(p, k, v);
    strmap::lemma_put(strmap::cut(p, k), k, v);
    assert(strmap::dict(p).remove(k).insert(k, v) =~= strmap::dict(p).insert(k, v));
    strmap::law_order_is_canonical(strmap::put(strmap::cut(p, k), k, v), strmap::put(p, k, v));
}

/// A row for a table comes in: a batch is due once it has `threshold` rows.
fn drop_in(part: &mut StrMap<RowList>, writer: usize, table: &str, row: Row, threshold: usize) -> (out: Option<Batch>)
    ensures
        (final(part)@, views::opt(out)) == dropped_in(old(part)@, writer as int, table@, row@, threshold as int),
{
    let ghost before = part@;
    let mut rows = match part.remove(table) {
        Some(l) => l.rows,
        None => Vec::new(),
    };
    assert(model::rows_view(rows@) =~= pending(before, table@));
    proof {
        views::lemma_list_push(rows@, row);
    }
    rows.push(row);
    if rows.len() >= threshold {
        Some(Batch { writer, table: copy(table), rows })
    } else {
        proof {
            lemma_put_after_cut(before, table@, model::rows_view(rows@));
        }
        part.insert(copy(table), RowList { rows });
        None
    }
}

fn copy_rows(rows: &Vec<Row>) -> (out: Vec<Row>)
    ensures
        model::rows_view(out@) == model::rows_view(rows@),
{
    let ghost want = model::rows_view(rows@);
    let mut out: Vec<Row> = Vec::new();
    let mut i: usize = 0;
    while i < rows.len()
        invariant
            i <= rows.len(),
            want == model::rows_view(rows@),
            model::rows_view(out@) == want.take(i as int),
        decreases rows.len() - i,
    {
        let r = rows[i].clone();
        proof {
            views::lemma_list_push(out@, r);
        }
        out.push(r);
        assert(want.take(i + 1) =~= want.take(i as int).push(want[i as int]));
        i += 1;
    }
    assert(want.take(i as int) =~= want);
    out
}

// ---------------------------------------------------------------------------
// Gathering
// ---------------------------------------------------------------------------

/// The buckets and the router behind them.
#[verifier::ext_equal]
pub struct GatherV {
    pub buckets: Seq<Pending>,
    pub router: RouterV,
}

/// The table that an output row is for: its own, else the default.
pub open spec fn table_of(o: EtlOutputRowV, default_table: Seq<char>) -> Seq<char> {
    if o.table == ""@ {
        default_table
    } else {
        o.table
    }
}

impl GatherV {
    /// There is a bucket for each writer, in order.
    pub open spec fn fits(self) -> bool {
        &&& self.router.n >= 1
        &&& self.buckets.len() == self.router.n
        &&& forall|w: int| 0 <= w < self.buckets.len() ==> strmap::ordered(#[trigger] self.buckets[w])
    }

    /// The writer that receives an output row.
    pub open spec fn writer(self, o: EtlOutputRowV, default_table: Seq<char>) -> int {
        self.router.writer(table_of(o, default_table), o.row)
    }

    /// The batch that is due once an output row came in.
    pub open spec fn due(self, o: EtlOutputRowV, default_table: Seq<char>, threshold: int) -> Option<BatchV> {
        let w = self.writer(o, default_table);
        dropped_in(self.buckets[w], w, table_of(o, default_table), o.row, threshold).1
    }

    /// What is pending once an output row came in.
    pub open spec fn after(self, o: EtlOutputRowV, default_table: Seq<char>, threshold: int) -> GatherV {
        let w = self.writer(o, default_table);
        GatherV {
            buckets: self.buckets.update(
                w,
                dropped_in(self.buckets[w], w, table_of(o, default_table), o.row, threshold).0,
            ),
            router: self.router.after(table_of(o, default_table)),
        }
    }

    /// What is pending once the output rows came in, one after the other.
    pub open spec fn after_all(self, outs: Seq<EtlOutputRowV>, default_table: Seq<char>, threshold: int) -> GatherV
        decreases outs.len(),
    {
        if outs.len() == 0 {
            self
        } else {
            self.after_all(outs.drop_last(), default_table, threshold).after(outs.last(), default_table, threshold)
        }
    }

    /// The batches that were due meanwhile, in order.
    pub open spec fn all_due(self, outs: Seq<EtlOutputRowV>, default_table: Seq<char>, threshold: int) -> Seq<BatchV>
        decreases outs.len(),
    {
        if outs.len() == 0 {
            Seq::empty()
        } else {
            let before = self.all_due(outs.drop_last(), default_table, threshold);
            match self.after_all(outs.drop_last(), default_table, threshold).due(
                outs.last(),
                default_table,
                threshold,
            ) {
                Some(b) => before.push(b),
                None => before,
            }
        }
    }

    /// The rows that came in for one writer and one table, in order.
    pub open spec fn sent(self, outs: Seq<EtlOutputRowV>, default_table: Seq<char>, threshold: int, w: int, t: Seq<char>) -> Seq<
        Cells,
    >
        decreases outs.len(),
    {
        if outs.len() == 0 {
            Seq::empty()
        } else {
            let before = self.sent(outs.drop_last(), default_table, threshold, w, t);
            let o = outs.last();
            let s = self.after_all(outs.drop_last(), default_table, threshold);
            if table_of(o, default_table) == t && s.writer(o, default_table) == w {
                before.push(o.row)
            } else {
                before
            }
        }
    }
}

/// The batches of one writer's pending rows, by table.
pub open spec fn leftovers(p: Pending, writer: int) -> Seq<BatchV> {
    p.map_values(|e: (Seq<char>, Seq<Cells>)| BatchV { writer, table: e.0, rows: e.1 })
}

/// The batches of all that is pending: writer by writer, table by table.
pub open spec fn drained(b: Seq<Pending>) -> Seq<BatchV>
    decreases b.len(),
{
    if b.len() == 0 {
        Seq::empty()
    } else {
        drained(b.drop_last()) + leftovers(b.last(), b.len() - 1)
    }
}

/// The rows of the batches for one writer and one table, in order.
pub open spec fn written_to(batches: Seq<BatchV>, w: int, t: Seq<char>) -> Seq<Cells>
    decreases batches.len(),
{
    if batches.len() == 0 {
        Seq::empty()
    } else {
        let before = written_to(batches.drop_last(), w, t);
        let b = batches.last();
        if b.writer == w && b.table == t {
            before + b.rows
        } else {
            before
        }
    }
}

impl Buckets {
    /// Empty buckets for so many writers.
    pub fn new(writers: usize) -> (out: Buckets)
        ensures
            out@ == Seq::new(writers as nat, |w: int| Seq::<(Seq<char>, Seq<Cells>)>::empty()),
            forall|w: int| 0 <= w < out@.len() ==> strmap::ordered(#[trigger] out@[w]),
    {
        let ghost want = Seq::new(writers as nat, |w: int| Seq::<(Seq<char>, Seq<Cells>)>::empty());
        let mut parts: Vec<StrMap<RowList>> = Vec::new();
        let mut i: usize = 0;
        while i < writers
            invariant
                i <= writers,
                want == Seq::new(writers as nat, |w: int| Seq::<(Seq<char>, Seq<Cells>)>::empty()),
                views::list(parts@) == want.take(i as int),
            decreases writers - i,
        {
            let p: StrMap<RowList> = StrMap::new();
            proof {
                views::lemma_list_push(parts@, p);
            }
            parts.push(p);
            assert(want.take(i + 1) =~= want.take(i as int).push(want[i as int]));
            i += 1;
        }
        assert(want.take(i as int) =~= want);
        Buckets { parts }
    }

    /// An output row comes in: it goes to the bucket of its writer and table,
    /// and the bucket goes out as a batch once it has `threshold` rows.
    pub fn deliver(&mut self, router: &mut Router, o: EtlOutputRow, default_table: &str, threshold: usize) -> (out: Option<
        Batch,
    >)
        requires
            (GatherV { buckets: old(self)@, router: old(router)@ }).fits(),
        ensures
            views::opt(out) == (GatherV { buckets: old(self)@, router: old(router)@ }).due(
                o@,
                default_table@,
                threshold as int,
            ),
            (GatherV { buckets: final(self)@, router: final(router)@ }) == (GatherV {
                buckets: old(self)@,
                router: old(router)@,
            }).after(o@, default_table@, threshold as int),
            (GatherV { buckets: final(self)@, router: final(router)@ }).fits(),
    {
        let ghost s = GatherV { buckets: self@, router: router@ };
        let table = if same(o.table.as_str(), "") {
            copy(default_table)
        } else {
            o.table.clone()
        };
        let w = router.route(table.as_str(), &o.row);
        let ghost parts = self.parts@;
        let mut part: StrMap<RowList> = StrMap::new();
        assert(w < self.parts@.len()) by {
            assert(self@.len() == self.parts@.len());
        }
        std::mem::swap(&mut part, &mut self.parts[w]);
        let ghost mine = part@;
        assert(mine == s.buckets[w as int]);
        let out = drop_in(&mut part, w, table.as_str(), o.row, threshold);
        let ghost left = part@;
        std::mem::swap(&mut part, &mut self.parts[w]);
        proof {
            let d = dropped_in(mine, w as int, table@, o@.row, threshold as int);
            assert(left == d.0);
            assert(self@ =~= s.buckets.update(w as int, left));
            strmap::lemma_cut(mine, table@);
            strmap::lemma_put(mine, table@, pending(mine, table@).push(o@.row));
            let e = s.after(o@, default_table@, threshold as int);
            assert forall|v: int| 0 <= v < e.buckets.len() implies strmap::ordered(#[trigger] e.buckets[v]) by {
                if v != w {
                    assert(e.buckets[v] == s.buckets[v]);
                }
            }
        }
        out
    }

    /// All that is pending, as batches.
    pub fn drain(&self) -> (out: Vec<Batch>)
        ensures
            views::list(out@) == drained(self@),
    {
        let ghost all = self@;
        let mut out: Vec<Batch> = Vec::new();
        let mut w: usize = 0;
        assert(views::list(out@) =~= drained(all.take(0)));
        while w < self.parts.len()
            invariant
                w <= self.parts.len(),
                all == self@,
                views::list(out@) == drained(all.take(w as int)),
            decreases self.parts.len() - w,
        {
            let part = &self.parts[w];
            let ghost base = drained(all.take(w as int));
            let ghost add = leftovers(part@, w as int);
            let mut i: usize = 0;
            assert(base + add.take(0) =~= base);
            while i < part.len()
                invariant
                    i <= part@.len(),
                    add == leftovers(part@, w as int),
                    views::list(out@) == base + add.take(i as int),
                decreases part@.len() - i,
            {
                let b = Batch {
                    writer: w,
                    table: copy(part.key_at(i)),
                    rows: copy_rows(&part.value_at(i).rows),
                };
                proof {
                    views::lemma_list_push(out@, b);
                }
                out.push(b);
                assert(base + add.take(i + 1) =~= (base + add.take(i as int)).push(add[i as int]));
                i += 1;
            }
            assert(add.take(i as int) =~= add);
            assert(all.take(w + 1).drop_last() =~= all.take(w as int));
            assert(all.take(w + 1).last() == part@);
            w += 1;
        }
        assert(all.take(w as int) =~= all);
        out
    }
}

// ---------------------------------------------------------------------------
// Nothing is lost
// ---------------------------------------------------------------------------

proof fn lemma_fits(s: GatherV, o: EtlOutputRowV, d: Seq<char>, n: int)
    requires
        s.fits(),
    ensures
        s.after(o, d, n).fits(),
        0 <= s.writer(o, d) < s.buckets.len(),
{
    let t = table_of(o, d);
    let w = s.writer(o, d);
    if s.router.n > 1 {
        assert(0 <= w < s.router.n as int) by (nonlinear_arith)
            requires
                s.router.n > 1,
                w == (if s.router.keyed(t) {
                    (crate::router::key_hash(o.row, s.router.main_pk) as int % (usize::MAX + 1)) % s.router.n as int
                } else {
                    s.router.round as int % s.router.n as int
                }),
        ;
    }
    let p = s.buckets[w];
    assert(strmap::ordered(p));
    strmap::lemma_cut(p, t);
    strmap::lemma_put(p, t, pending(p, t).push(o.row));
    let e = s.after(o, d, n);
    assert forall|v: int| 0 <= v < e.buckets.len() implies strmap::ordered(#[trigger] e.buckets[v]) by {
        if v != w {
            assert(e.buckets[v] == s.buckets[v]);
        }
    }
}

proof fn lemma_all_fit(s: GatherV, outs: Seq<EtlOutputRowV>, d: Seq<char>, n: int)
    requires
        s.fits(),
    ensures
        s.after_all(outs, d, n).fits(),
        s.after_all(outs, d, n).buckets.len() == s.buckets.len(),
    decreases outs.len(),
{
    if outs.len() > 0 {
        lemma_all_fit(s, outs.drop_last(), d, n);
        lemma_fits(s.after_all(outs.drop_last(), d, n), outs.last(), d, n);
    }
}

/// Law: of the rows that came in for a writer and a table, those in the batches
/// that went out and those still pending are together all, each once, in the
/// order in which they came.
pub proof fn law_no_row_is_lost(s: GatherV, outs: Seq<EtlOutputRowV>, d: Seq<char>, n: int, w: int, t: Seq<char>)
    requires
        s.fits(),
        0 <= w < s.buckets.len(),
    ensures
        written_to(s.all_due(outs, d, n), w, t) + pending(s.after_all(outs, d, n).buckets[w], t) == pending(
            s.buckets[w],
            t,
        ) + s.sent(outs, d, n, w, t),
    decreases outs.len(),
{
    let p0 = pending(s.buckets[w], t);
    if outs.len() == 0 {
        assert(written_to(s.all_due(outs, d, n), w, t) + p0 =~= p0 + s.sent(outs, d, n, w, t));
    } else {
        let head = outs.drop_last();
        let o = outs.last();
        law_no_row_is_lost(s, head, d, n, w, t);
        lemma_all_fit(s, head, d, n);
        let m = s.after_all(head, d, n);
        lemma_fits(m, o, d, n);
        let x = table_of(o, d);
        let v = m.writer(o, d);
        let p = m.buckets[v];
        let rows = pending(p, x).push(o.row);
        let e = m.after(o, d, n);
        strmap::lemma_cut(p, x);
        strmap::lemma_put(p, x, rows);
        strmap::lemma_dict(p, t);
        strmap::lemma_dict(strmap::cut(p, x), t);
        strmap::lemma_dict(strmap::put(p, x, rows), t);
        let due = s.all_due(head, d, n);
        let gone = written_to(due, w, t);
        let left = pending(m.buckets[w], t);
        if let Some(b) = m.due(o, d, n) {
            assert(due.push(b).drop_last() =~= due);
        }
        if v == w && x == t {
            assert(gone + left.push(o.row) =~= (gone + left).push(o.row));
            assert(p0 + s.sent(head, d, n, w, t).push(o.row) =~= (p0 + s.sent(head, d, n, w, t)).push(o.row));
            if m.due(o, d, n) is Some {
                assert(pending(e.buckets[w], t) =~= Seq::empty());
                assert((gone + rows) + Seq::<Cells>::empty() =~= gone + rows);
            }
        }
    }
}

proof fn lemma_written_append(a: Seq<BatchV>, b: Seq<BatchV>, w: int, t: Seq<char>)
    ensures
        written_to(a + b, w, t) == written_to(a, w, t) + written_to(b, w, t),
    decreases b.len(),
{
    if b.len() == 0 {
        assert(a + b =~= a);
        assert(written_to(a, w, t) + Seq::<Cells>::empty() =~= written_to(a, w, t));
    } else {
        lemma_written_append(a, b.drop_last(), w, t);
        assert((a + b).drop_last() =~= a + b.drop_last());
        let x = b.last();
        assert((a + b).last() == x);
        let p = written_to(a, w, t);
        let q = written_to(b.drop_last(), w, t);
        assert((p + q) + x.rows =~= p + (q + x.rows));
    }
}

proof fn lemma_leftovers(p: Pending, v: int, w: int, t: Seq<char>)
    requires
        strmap::ordered(p),
    ensures
        written_to(leftovers(p, v), w, t) == (if v == w {
            pending(p, t)
        } else {
            Seq::empty()
        }),
    decreases p.len(),
{
    let all = leftovers(p, v);
    if p.len() > 0 {
        let q = p.drop_last();
        assert forall|i: int, j: int| 0 <= i < j < q.len() implies text::less(#[trigger] q[i].0, #[trigger] q[j].0) by {
            assert(text::less(p[i].0, p[j].0));
        }
        lemma_leftovers(q, v, w, t);
        assert(all.drop_last() =~= leftovers(q, v));
        let b = all.last();
        if v == w && b.table == t {
            assert forall|i: int| 0 <= i < q.len() implies #[trigger] q[i].0 != t by {
                assert(text::less(p[i].0, p[p.len() - 1].0));
                text::lemma_less_irreflexive(t);
            }
            strmap::lemma_at_absent(q, t);
            assert(Seq::<Cells>::empty() + b.rows =~= b.rows);
        }
    }
}

/// Law: once all that is pending went out too, every row for a writer and a
/// table went out, once, in the order in which the rows came.
pub proof fn law_draining_leaves_nothing(b: Seq<Pending>, w: int, t: Seq<char>)
    requires
        forall|v: int| 0 <= v < b.len() ==> strmap::ordered(#[trigger] b[v]),
        0 <= w,
    ensures
        written_to(drained(b), w, t) == (if w < b.len() {
            pending(b[w], t)
        } else {
            Seq::empty()
        }),
    decreases b.len(),
{
    if b.len() > 0 {
        let c = b.drop_last();
        assert forall|v: int| 0 <= v < c.len() implies strmap::ordered(#[trigger] c[v]) by {
            assert(c[v] == b[v]);
        }
        law_draining_leaves_nothing(c, w, t);
        assert(strmap::ordered(b[b.len() - 1]));
        lemma_leftovers(b.last(), b.len() - 1, w, t);
        lemma_written_append(drained(c), leftovers(b.last(), b.len() - 1), w, t);
        if w < c.len() {
            assert(pending(b[w], t) + Seq::<Cells>::empty() =~= pending(b[w], t));
        } else {
            assert(Seq::<Cells>::empty() + written_to(leftovers(b.last(), b.len() - 1), w, t) =~= written_to(
                leftovers(b.last(), b.len() - 1),
                w,
                t,
            ));
        }
    }
}

/// Law: starting with nothing pending, the batches that were due and those of
/// the rest at the end hold, for each writer and table, exactly the rows that
/// came in for them, each once, in the order in which they came.
pub proof fn law_every_output_goes_out(s: GatherV, outs: Seq<EtlOutputRowV>, d: Seq<char>, n: int, w: int, t: Seq<char>)
    requires
        s.fits(),
        0 <= w < s.buckets.len(),
        s.buckets[w].len() == 0,
    ensures
        written_to(s.all_due(outs, d, n) + drained(s.after_all(outs, d, n).buckets), w, t) == s.sent(outs, d, n, w, t),
{
    let e = s.after_all(outs, d, n);
    lemma_all_fit(s, outs, d, n);
    law_no_row_is_lost(s, outs, d, n, w, t);
    law_draining_leaves_nothing(e.buckets, w, t);
    lemma_written_append(s.all_due(outs, d, n), drained(e.buckets), w, t);
    assert(pending(s.buckets[w], t) =~= Seq::empty());
    assert(pending(s.buckets[w], t) + s.sent(outs, d, n, w, t) =~= s.sent(outs, d, n, w, t));
}

// ---------------------------------------------------------------------------
// When a batch is due
// ---------------------------------------------------------------------------

/// Law: a row goes behind the rows that wait for its table and writer. They are a
/// batch as soon as they are as many as the threshold, and then none of them waits
/// any more; until then all of them wait. The rows of other tables stay.
pub proof fn law_batch_is_due_at_the_threshold(
    p: Pending,
    writer: int,
    table: Seq<char>,
    row: Cells,
    threshold: int,
    other: Seq<char>,
)
    requires
        strmap::ordered(p),
        other != table,
    ensures
        ({
            let (after, due) = dropped_in(p, writer, table, row, threshold);
            &&& due is Some <==> pending(p, table).len() + 1 >= threshold
            &&& due matches Some(b) ==> b.writer == writer && b.table == table && b.rows == pending(p, table).push(row)
                && pending(after, table).len() == 0
            &&& due is None ==> pending(after, table) == pending(p, table).push(row)
            &&& pending(after, other) == pending(p, other)
        }),
{
    let rows = pending(p, table).push(row);
    strmap::lemma_cut(p, table);
    strmap::lemma_put(p, table, rows);
    strmap::lemma_dict(p, table);
    strmap::lemma_dict(p, other);
    strmap::lemma_dict(strmap::cut(p, table), table);
    strmap::lemma_dict(strmap::cut(p, table), other);
    strmap::lemma_dict(strmap::put(p, table, rows), table);
    strmap::lemma_dict(strmap::put(p, table, rows), other);
}

/// Law: an output goes to the table it names, and to the default table just where
/// it names none.
pub proof fn law_output_goes_to_its_table(o: EtlOutputRowV, default_table: Seq<char>)
    ensures
        o.table.len() > 0 ==> table_of(o, default_table) == o.table,
        o.table.len() == 0 ==> table_of(o, default_table) == default_table,
{
    reveal_strlit("");
    assert(o.table.len() == 0 ==> o.table =~= ""@);
}

/// Law: an output that names no table is gathered just like one that names the
/// default table.
pub proof fn law_default_table_is_as_good_as_named(g: GatherV, row: Cells, table: Seq<char>, threshold: int)
    ensures
        ({
            let a = EtlOutputRowV { table: ""@, row };
            let b = EtlOutputRowV { table, row };
            &&& g.after(a, table, threshold) == g.after(b, table, threshold)
            &&& g.due(a, table, threshold) == g.due(b, table, threshold)
            &&& g.writer(a, table) == g.writer(b, table)
        }),
{
}

/// Law: an output changes what waits for its own writer alone, and takes a turn just
/// where the router says so.
pub proof fn law_output_touches_its_writer_alone(g: GatherV, o: EtlOutputRowV, d: Seq<char>, threshold: int, w: int)
    requires
        g.fits(),
        0 <= w < g.buckets.len(),
    ensures
        w != g.writer(o, d) ==> g.after(o, d, threshold).buckets[w] == g.buckets[w],
        g.after(o, d, threshold).buckets.len() == g.buckets.len(),
        g.router.keyed(table_of(o, d)) ==> g.after(o, d, threshold).router == g.router,
        !g.router.keyed(table_of(o, d)) && g.router.n > 1 && g.router.round < usize::MAX ==> g.after(o, d, threshold).router.round
            == g.router.round + 1,
{
    if g.router.round < usize::MAX {
        vstd::arithmetic::div_mod::lemma_small_mod((g.router.round + 1) as nat, (usize::MAX + 1) as nat);
    }
}

} // verus!

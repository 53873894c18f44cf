//! The way to the databases.
//!
//! Reading and writing goes through a [`Link`]. It keeps the datasources to
//! itself and takes note of each call and its reply, so a contract can say which
//! calls were made, how many, and in which order.

use vstd::prelude::*;

use crate::connections;
use crate::connections::{AppLookup, ConnectionManager};
use crate::datasource::Datasource;
use crate::error::{AppResult, DatasourceError, DatasourceErrorV};
use crate::model;
use crate::model::{Cells, Row, SyncMode, TableSchema, TableSchemaV, Val, Value};
use crate::reader;
use crate::strmap;
use crate::text;
use crate::views;

verus! {

/// A question to a connection, and its answer.
#[verifier::ext_equal]
pub enum Ask {
    Schema { at: Seq<char>, table: Seq<char>, schema: Result<TableSchemaV, DatasourceErrorV> },
    Query { at: Seq<char>, query: Seq<char>, answer: Result<Seq<Cells>, DatasourceErrorV> },
    Page {
        at: Seq<char>,
        query: Seq<char>,
        offset: u64,
        limit: u64,
        answer: Result<Seq<Cells>, DatasourceErrorV>,
    },
}

/// Something done to a connection, and what came of it; or a pause of so many
/// seconds.
#[verifier::ext_equal]
pub enum Deed {
    Truncate { at: Seq<char>, table: Seq<char>, outcome: Result<(), DatasourceErrorV> },
    Insert {
        at: Seq<char>,
        table: Seq<char>,
        columns: Seq<Seq<char>>,
        rows: Seq<Seq<Val>>,
        mode: SyncMode,
        keys: Seq<Seq<char>>,
        reply: Result<u64, DatasourceErrorV>,
    },
    Pause(u64),
}

/// What a question for a schema was answered.
pub open spec fn schema_answer(r: Result<TableSchema, DatasourceError>) -> Result<TableSchemaV, DatasourceErrorV> {
    match r {
        Ok(s) => Ok(s@),
        Err(e) => Err(e@),
    }
}

/// What an insert was replied.
pub open spec fn insert_reply(r: Result<u64, DatasourceError>) -> Result<u64, DatasourceErrorV> {
    match r {
        Ok(n) => Ok(n),
        Err(e) => Err(e@),
    }
}

/// What a truncate was replied.
pub open spec fn truncate_reply(r: Result<(), DatasourceError>) -> Result<(), DatasourceErrorV> {
    match r {
        Ok(_) => Ok(()),
        Err(e) => Err(e@),
    }
}

pub open spec fn schema_told<D: Datasource>(ds: D, table: Seq<char>, answer: Result<TableSchemaV, DatasourceErrorV>) -> bool {
    exists|t: &str, r: Result<TableSchema, DatasourceError>|
        t@ == table && #[trigger] call_ensures(D::get_schema, (&ds, t), r) && answer == schema_answer(r)
}

pub open spec fn query_told<D: Datasource>(ds: D, query: Seq<char>, answer: Result<Seq<Cells>, DatasourceErrorV>) -> bool {
    exists|q: &str, r: Result<Vec<Row>, DatasourceError>|
        q@ == query && #[trigger] call_ensures(D::query, (&ds, q), r) && answer == reader::rows_answer(r)
}

pub open spec fn page_told<D: Datasource>(
    ds: D,
    query: Seq<char>,
    offset: u64,
    limit: u64,
    answer: Result<Seq<Cells>, DatasourceErrorV>,
) -> bool {
    exists|q: &str, r: Result<Vec<Row>, DatasourceError>|
        q@ == query && #[trigger] call_ensures(D::query_page, (&ds, q, offset, limit), r) && answer
            == reader::rows_answer(r)
}

pub open spec fn truncate_told<D: Datasource>(ds: D, table: Seq<char>, reply: Result<(), DatasourceErrorV>) -> bool {
    exists|t: &str, r: Result<(), DatasourceError>|
        t@ == table && #[trigger] call_ensures(D::truncate, (&ds, t), r) && reply == truncate_reply(r)
}

pub open spec fn insert_told<D: Datasource>(
    ds: D,
    table: Seq<char>,
    columns: Seq<Seq<char>>,
    rows: Seq<Seq<Val>>,
    mode: SyncMode,
    keys: Seq<Seq<char>>,
    reply: Result<u64, DatasourceErrorV>,
) -> bool {
    exists|t: &str, c: &Vec<String>, m: &Vec<Vec<Value>>, k: &Vec<String>, r: Result<u64, DatasourceError>|
        {
            &&& t@ == table
            &&& text::views(c@) == columns
            &&& views::lists(m@) == rows
            &&& text::views(k@) == keys
            &&& #[trigger] call_ensures(D::batch_insert, (&ds, t, c, m, mode, k), r)
            &&& reply == insert_reply(r)
        }
}

/// Whether the connection asked can have answered so.
pub open spec fn answered<D: Datasource>(conns: ConnectionManager<D>, a: Ask) -> bool {
    match a {
        Ask::Schema { at, table, schema } => strmap::at(conns@.conns, at) matches Some(d) && schema_told(d, table, schema),
        Ask::Query { at, query, answer } => strmap::at(conns@.conns, at) matches Some(d) && query_told(d, query, answer),
        Ask::Page { at, query, offset, limit, answer } => strmap::at(conns@.conns, at) matches Some(d) && page_told(
            d,
            query,
            offset,
            limit,
            answer,
        ),
    }
}

/// Whether the connection can have replied so.
pub open spec fn replied<D: Datasource>(conns: ConnectionManager<D>, x: Deed) -> bool {
    match x {
        Deed::Truncate { at, table, outcome } => strmap::at(conns@.conns, at) matches Some(d) && truncate_told(
            d,
            table,
            outcome,
        ),
        Deed::Insert { at, table, columns, rows, mode, keys, reply } => strmap::at(conns@.conns, at) matches Some(d)
            && insert_told(d, table, columns, rows, mode, keys, reply),
        Deed::Pause(_) => true,
    }
}

/// The connections, a way to wait, and what was asked and done so far.
pub struct Link<'a, D: Datasource, Z: Fn(u64)> {
    conns: &'a ConnectionManager<D>,
    pause: &'a Z,
    asked: Ghost<Seq<Ask>>,
    done: Ghost<Seq<Deed>>,
}

impl<'a, D: Datasource, Z: Fn(u64)> Link<'a, D, Z> {
    /// The connections.
    pub closed spec fn conns(self) -> ConnectionManager<D> {
        *self.conns
    }

    /// The questions that were asked, in order.
    pub closed spec fn asked(self) -> Seq<Ask> {
        self.asked@
    }

    /// What was done, in order.
    pub closed spec fn done(self) -> Seq<Deed> {
        self.done@
    }

    /// The way to wait can be called.
    pub closed spec fn can_wait(self) -> bool {
        forall|s: u64| call_requires(*self.pause, (s,))
    }

    /// Every answer and reply on record can have come from its connection.
    pub open spec fn ready(self) -> bool {
        &&& self.can_wait()
        &&& forall|i: int| 0 <= i < self.asked().len() ==> answered(self.conns(), #[trigger] self.asked()[i])
        &&& forall|i: int| 0 <= i < self.done().len() ==> replied(self.conns(), #[trigger] self.done()[i])
    }

    /// Whether there is a connection of this name.
    pub open spec fn reaches(self, name: Seq<char>) -> bool {
        strmap::at(self.conns()@.conns, name) is Some
    }

    pub fn new(conns: &'a ConnectionManager<D>, pause: &'a Z) -> (out: Self)
        requires
            forall|s: u64| call_requires(*pause, (s,)),
        ensures
            out.conns() == *conns,
            out.asked() == Seq::<Ask>::empty(),
            out.done() == Seq::<Deed>::empty(),
            out.ready(),
    {
        Link { conns, pause, asked: Ghost(Seq::empty()), done: Ghost(Seq::empty()) }
    }

    /// An error unless there is a connection of this name.
    pub fn find(&self, name: &str) -> (out: AppResult<()>)
        ensures
            match out {
                Ok(_) => self.reaches(name@),
                Err(e) => !self.reaches(name@) && e@ == connections::not_connected(name@),
            },
    {
        match self.conns.get(name) {
            Ok(_) => Ok(()),
            Err(e) => Err(e),
        }
    }

    /// The type of a connection's datasource.
    pub fn conn_type(&self, name: &str) -> (out: AppResult<&'a str>)
        ensures
            match out {
                Ok(t) => self.conns()@.kind(name@) == Some(t@),
                Err(e) => self.conns()@.kind(name@) is None && e@ == connections::not_connected(name@),
            },
    {
        self.conns.conn_type(name)
    }

    /// The lookups that the connections serve.
    pub fn lookup(&self) -> (out: AppLookup<'a, D>)
        ensures
            out.manager() == self.conns(),
    {
        AppLookup::new(self.conns)
    }

    fn ds(&self, at: &str) -> (out: &'a D)
        requires
            self.reaches(at@),
        ensures
            strmap::at(self.conns()@.conns, at@) == Some(*out),
    {
        match self.conns.get(at) {
            Ok(d) => d,
            Err(_) => vstd::pervasive::unreached(),
        }
    }

    proof fn lemma_still_ready(before: Self, after: Self)
        requires
            before.ready(),
            after.conns == before.conns,
            after.pause == before.pause,
            after.asked() == before.asked() || (after.asked().len() > 0 && after.asked().drop_last() == before.asked()
                && answered(after.conns(), after.asked().last())),
            after.done() == before.done() || (after.done().len() > 0 && after.done().drop_last() == before.done()
                && replied(after.conns(), after.done().last())),
        ensures
            after.ready(),
    {
        assert forall|i: int| 0 <= i < after.asked().len() implies answered(after.conns(), #[trigger] after.asked()[i]) by {
            if i < before.asked().len() {
                assert(after.asked()[i] == before.asked()[i]);
            }
        }
        assert forall|i: int| 0 <= i < after.done().len() implies replied(after.conns(), #[trigger] after.done()[i]) by {
            if i < before.done().len() {
                assert(after.done()[i] == before.done()[i]);
            }
        }
    }

    pub fn get_schema(&mut self, at: &str, table: &str) -> (out: Result<TableSchema, DatasourceError>)
        requires
            old(self).ready(),
            old(self).reaches(at@),
        ensures
            final(self).ready(),
            final(self).conns() == old(self).conns(),
            final(self).done() == old(self).done(),
            final(self).asked() == old(self).asked().push(
                Ask::Schema { at: at@, table: table@, schema: schema_answer(out) },
            ),
    {
        let ds = self.ds(at);
        let r = ds.get_schema(table);
        assert(call_ensures(D::get_schema, (ds, table), r));
        let ghost a = Ask::Schema { at: at@, table: table@, schema: schema_answer(r) };
        assert(schema_told(*ds, table@, schema_answer(r)));
        assert(answered(self.conns(), a));
        let ghost before = *self;
        self.asked = Ghost(self.asked@.push(a));
        proof {
            assert(self.asked@.drop_last() =~= before.asked@);
            Link::lemma_still_ready(before, *self);
        }
        r
    }

    pub fn query(&mut self, at: &str, sql: &str) -> (out: Result<Vec<Row>, DatasourceError>)
        requires
            old(self).ready(),
            old(self).reaches(at@),
        ensures
            final(self).ready(),
            final(self).conns() == old(self).conns(),
            final(self).done() == old(self).done(),
            final(self).asked() == old(self).asked().push(
                Ask::Query { at: at@, query: sql@, answer: reader::rows_answer(out) },
            ),
    {
        let ds = self.ds(at);
        let r = ds.query(sql);
        assert(call_ensures(D::query, (ds, sql), r));
        let ghost a = Ask::Query { at: at@, query: sql@, answer: reader::rows_answer(r) };
        assert(query_told(*ds, sql@, reader::rows_answer(r)));
        assert(answered(self.conns(), a));
        let ghost before = *self;
        self.asked = Ghost(self.asked@.push(a));
        proof {
            assert(self.asked@.drop_last() =~= before.asked@);
            Link::lemma_still_ready(before, *self);
        }
        r
    }

    pub fn query_page(&mut self, at: &str, sql: &str, offset: u64, limit: u64) -> (out: Result<Vec<Row>, DatasourceError>)
        requires
            old(self).ready(),
            old(self).reaches(at@),
        ensures
            final(self).ready(),
            final(self).conns() == old(self).conns(),
            final(self).done() == old(self).done(),
            final(self).asked() == old(self).asked().push(
                Ask::Page { at: at@, query: sql@, offset, limit, answer: reader::rows_answer(out) },
            ),
    {
        let ds = self.ds(at);
        let r = ds.query_page(sql, offset, limit);
        assert(call_ensures(D::query_page, (ds, sql, offset, limit), r));
        let ghost a = Ask::Page { at: at@, query: sql@, offset, limit, answer: reader::rows_answer(r) };
        assert(page_told(*ds, sql@, offset, limit, reader::rows_answer(r)));
        assert(answered(self.conns(), a));
        let ghost before = *self;
        self.asked = Ghost(self.asked@.push(a));
        proof {
            assert(self.asked@.drop_last() =~= before.asked@);
            Link::lemma_still_ready(before, *self);
        }
        r
    }

    pub fn truncate(&mut self, at: &str, table: &str) -> (out: Result<(), DatasourceError>)
        requires
            old(self).ready(),
            old(self).reaches(at@),
        ensures
            final(self).ready(),
            final(self).conns() == old(self).conns(),
            final(self).asked() == old(self).asked(),
            final(self).done() == old(self).done().push(
                Deed::Truncate { at: at@, table: table@, outcome: truncate_reply(out) },
            ),
    {
        let ds = self.ds(at);
        let r = ds.truncate(table);
        assert(call_ensures(D::truncate, (ds, table), r));
        let ghost x = Deed::Truncate { at: at@, table: table@, outcome: truncate_reply(r) };
        assert(truncate_told(*ds, table@, truncate_reply(r)));
        assert(replied(self.conns(), x));
        let ghost before = *self;
        self.done = Ghost(self.done@.push(x));
        proof {
            assert(self.done@.drop_last() =~= before.done@);
            Link::lemma_still_ready(before, *self);
        }
        r
    }

    pub fn batch_insert(
        &mut self,
        at: &str,
        table: &str,
        columns: &Vec<String>,
        rows: &Vec<Vec<Value>>,
        mode: SyncMode,
        pk_columns: &Vec<String>,
    ) -> (out: Result<u64, DatasourceError>)
        requires
            old(self).ready(),
            old(self).reaches(at@),
        ensures
            final(self).ready(),
            final(self).conns() == old(self).conns(),
            final(self).asked() == old(self).asked(),
            final(self).done() == old(self).done().push(
                Deed::Insert {
                    at: at@,
                    table: table@,
                    columns: text::views(columns@),
                    rows: views::lists(rows@),
                    mode,
                    keys: text::views(pk_columns@),
                    reply: insert_reply(out),
                },
            ),
    {
        let ds = self.ds(at);
        let r = ds.batch_insert(table, columns, rows, mode, pk_columns);
        assert(call_ensures(D::batch_insert, (ds, table, columns, rows, mode, pk_columns), r));
        let ghost x = Deed::Insert {
            at: at@,
            table: table@,
            columns: text::views(columns@),
            rows: views::lists(rows@),
            mode,
            keys: text::views(pk_columns@),
            reply: insert_reply(r),
        };
        assert(insert_told(
            *ds,
            table@,
            text::views(columns@),
            views::lists(rows@),
            mode,
            text::views(pk_columns@),
            insert_reply(r),
        ));
        assert(replied(self.conns(), x));
        let ghost before = *self;
        self.done = Ghost(self.done@.push(x));
        proof {
            assert(self.done@.drop_last() =~= before.done@);
            Link::lemma_still_ready(before, *self);
        }
        r
    }

    /// Wait so many seconds.
    pub fn wait(&mut self, secs: u64)
        requires
            old(self).ready(),
        ensures
            final(self).ready(),
            final(self).conns() == old(self).conns(),
            final(self).asked() == old(self).asked(),
            final(self).done() == old(self).done().push(Deed::Pause(secs)),
    {
        (*self.pause)(secs);
        let ghost before = *self;
        self.done = Ghost(self.done@.push(Deed::Pause(secs)));
        proof {
            assert(self.done@.drop_last() =~= before.done@);
            Link::lemma_still_ready(before, *self);
        }
    }
}

/// The rows that the inserts among these deeds counted for, as a machine word
/// holds the sum.
pub open spec fn counted(deeds: Seq<Deed>) -> int
    decreases deeds.len(),
{
    if deeds.len() == 0 {
        0
    } else {
        match deeds.last() {
            Deed::Insert { reply: Ok(n), .. } => (counted(deeds.drop_last()) + n) % 0x1_0000_0000_0000_0000,
            _ => counted(deeds.drop_last()),
        }
    }
}

proof fn lemma_counted_fits(a: Seq<Deed>)
    ensures
        0 <= counted(a) < 0x1_0000_0000_0000_0000,
    decreases a.len(),
{
    if a.len() > 0 {
        lemma_counted_fits(a.drop_last());
    }
}

proof fn lemma_wrapped_sum(x: int, y: int, n: int)
    ensures
        ((x + y) % 0x1_0000_0000_0000_0000 + n) % 0x1_0000_0000_0000_0000 == (x + (y + n) % 0x1_0000_0000_0000_0000)
            % 0x1_0000_0000_0000_0000,
{
}

pub proof fn lemma_counted_append(a: Seq<Deed>, b: Seq<Deed>)
    ensures
        0 <= counted(a) < 0x1_0000_0000_0000_0000,
        counted(a + b) == (counted(a) + counted(b)) % 0x1_0000_0000_0000_0000,
    decreases b.len(),
{
    lemma_counted_fits(a);
    if b.len() == 0 {
        assert(a + b =~= a);
    } else {
        let head = b.drop_last();
        lemma_counted_append(a, head);
        assert((a + b).drop_last() =~= a + head);
        assert((a + b).last() == b.last());
        if let Deed::Insert { reply: Ok(n), .. } = b.last() {
            lemma_wrapped_sum(counted(a), counted(head), n as int);
        }
    }
}

/// Law: what is counted is what the server took: an insert that it took adds its
/// count, modulo the machine word; everything else adds nothing.
pub proof fn law_only_taken_inserts_count(deeds: Seq<Deed>, d: Deed)
    ensures
        counted(Seq::empty()) == 0,
        d matches Deed::Insert { reply: Ok(n), .. } ==> counted(deeds.push(d)) == (counted(deeds) + n)
            % 0x1_0000_0000_0000_0000,
        !(d matches Deed::Insert { reply: Ok(_), .. }) ==> counted(deeds.push(d)) == counted(deeds),
{
    assert(deeds.push(d).drop_last() =~= deeds);
    assert(deeds.push(d).last() == d);
}

} // verus!

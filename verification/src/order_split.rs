//! Splits one source row (an order header) into:
//!
//! 1. a **header row** containing only the configured `keep` columns, written
//!    to the job's default target table; and
//! 2. zero or more **detail rows** looked up from the source database through
//!    the `TableLookup` capability, written to `detail_table`.
//!
//! ```yaml
//! etl:
//!   - plugin: order_split
//!     config:
//!       detail_table: order_item       # target detail table
//!       source_detail_table: t_order_item  # source table to read details from
//!       detail_columns: [item_id, product, qty, price]
//!       parent_key: order_id           # source column of the header
//!       child_key: order_id            # FK column on the detail source table
//!       keep: [order_id, user_id, amount]
//!       limit: 1000
//! ```

use vstd::prelude::*;

use crate::builtin;
use crate::error::{EtlError, EtlErrorV};
use crate::etl;
use crate::etl::{
    EtlConfigure, EtlContext, EtlOutputRow, EtlOutputRowV, EtlProcessor, EtlRow, LookupV, Named, TableLookup,
};
use crate::model;
use crate::model::{Cells, Row, Value};
use crate::strmap;
use crate::text;
use crate::text::{cat2, copy, same, trimmed};
use crate::views;

verus! {

/// Configuration of the processor.
#[derive(Debug)]
pub struct SplitConfig {
    /// Target detail table the detail rows are written to.
    pub detail_table: String,
    /// Source table the detail rows are read from (default: `detail_table`).
    pub source_detail_table: Option<String>,
    /// Columns read from the source detail table (default: all).
    pub detail_columns: Vec<String>,
    /// Source column that identifies the parent (header), e.g. `order_id`.
    pub parent_key: String,
    /// FK column on the detail source table (default: `parent_key`).
    pub child_key: Option<String>,
    /// Columns kept on the header row (default: all source columns).
    pub keep: Vec<String>,
    /// Maximum number of detail rows looked up per header (default: 1000).
    pub limit: u64,
}

/// What a [`SplitConfig`] says.
#[verifier::ext_equal]
pub struct SplitV {
    pub detail_table: Seq<char>,
    pub source_detail_table: Option<Seq<char>>,
    pub detail_columns: Seq<Seq<char>>,
    pub parent_key: Seq<char>,
    pub child_key: Option<Seq<char>>,
    pub keep: Seq<Seq<char>>,
    pub limit: u64,
}

impl View for SplitConfig {
    type V = SplitV;

    open spec fn view(&self) -> SplitV {
        SplitV {
            detail_table: self.detail_table@,
            source_detail_table: views::opt(self.source_detail_table),
            detail_columns: text::views(self.detail_columns@),
            parent_key: self.parent_key@,
            child_key: views::opt(self.child_key),
            keep: text::views(self.keep@),
            limit: self.limit,
        }
    }
}

/// The number of detail rows looked up where no limit is configured.
pub fn default_limit() -> (out: u64)
    ensures
        out == 1000,
{
    1000
}

/// The processor. A default instance knows no configuration.
#[derive(Debug)]
pub struct OrderSplit {
    pub config: Option<SplitConfig>,
}

impl Default for OrderSplit {
    fn default() -> (out: OrderSplit)
        ensures
            out.config is None,
    {
        OrderSplit { config: None }
    }
}

/// A row with only the columns listed, of those that it has.
pub open spec fn kept(row: Cells, keep: Seq<Seq<char>>) -> Cells
    decreases keep.len(),
{
    if keep.len() == 0 {
        Seq::empty()
    } else {
        match strmap::at(row, keep.last()) {
            Some(v) => strmap::put(kept(row, keep.drop_last()), keep.last(), v),
            None => kept(row, keep.drop_last()),
        }
    }
}

/// The header row: an empty list keeps all columns.
pub open spec fn header(row: Cells, keep: Seq<Seq<char>>) -> Cells {
    if keep.len() == 0 {
        row
    } else {
        kept(row, keep)
    }
}

/// Return a new row containing only `keep`; an empty `keep` keeps all columns.
pub fn keep_columns(row: &Row, keep: &Vec<String>) -> (out: Row)
    ensures
        out@ == header(row@, text::views(keep@)),
{
    if keep.len() == 0 {
        return row.clone();
    }
    let ghost names = text::views(keep@);
    let mut out = Row::new();
    let mut i: usize = 0;
    assert(names.take(0) =~= Seq::<Seq<char>>::empty());
    while i < keep.len()
        invariant
            i <= keep.len(),
            names == text::views(keep@),
            out@ == kept(row@, names.take(i as int)),
        decreases keep.len() - i,
    {
        assert(names.take(i + 1).drop_last() =~= names.take(i as int));
        assert(names.take(i + 1).last() == keep@[i as int]@);
        if let Some(v) = row.get(keep[i].as_str()) {
            out.insert(keep[i].clone(), v.clone());
        }
        i += 1;
    }
    assert(names.take(i as int) =~= names);
    out
}

proof fn lemma_kept(row: Cells, keep: Seq<Seq<char>>, c: Seq<char>)
    requires
        strmap::ordered(row),
    ensures
        strmap::ordered(kept(row, keep)),
        strmap::at(kept(row, keep), c) == (if keep.contains(c) {
            strmap::at(row, c)
        } else {
            None
        }),
    decreases keep.len(),
{
    if keep.len() > 0 {
        let rest = keep.drop_last();
        let k = keep.last();
        lemma_kept(row, rest, c);
        assert(keep =~= rest.push(k));
        assert(keep.contains(c) <==> rest.contains(c) || c == k) by {
            if rest.contains(c) {
                let i = choose|i: int| 0 <= i < rest.len() && rest[i] == c;
                assert(keep[i] == c);
            }
            if c == k {
                assert(keep[keep.len() - 1] == c);
            }
            if keep.contains(c) && c != k {
                let i = choose|i: int| 0 <= i < keep.len() && keep[i] == c;
                assert(rest[i] == c);
            }
        }
        if let Some(v) = strmap::at(row, k) {
            let t = kept(row, rest);
            strmap::lemma_put(t, k, v);
            strmap::lemma_dict(t, c);
            strmap::lemma_dict(strmap::put(t, k, v), c);
        }
    }
}

/// Law: the header holds the listed columns with the row's values, and nothing
/// else.
pub proof fn law_header_keeps_listed(row: Cells, keep: Seq<Seq<char>>, c: Seq<char>)
    requires
        strmap::ordered(row),
    ensures
        strmap::at(header(row, keep), c) == (if keep.len() == 0 || keep.contains(c) {
            strmap::at(row, c)
        } else {
            None
        }),
{
    if keep.len() > 0 {
        lemma_kept(row, keep, c);
    }
}

// ---------------------------------------------------------------------------
// Details
// ---------------------------------------------------------------------------

impl SplitV {
    /// What is wrong with the configuration.
    pub open spec fn fault(self) -> Option<EtlErrorV> {
        if text::trim(self.detail_table) == ""@ {
            Some(EtlErrorV::Config("order_split: config.detail_table is required"@))
        } else if text::trim(self.parent_key) == ""@ {
            Some(EtlErrorV::Config("order_split: config.parent_key is required"@))
        } else {
            None
        }
    }

    /// The table that the details are read from.
    pub open spec fn source_table(self) -> Seq<char> {
        match self.source_detail_table {
            Some(t) => t,
            None => self.detail_table,
        }
    }

    /// The condition that finds the details: its one placeholder takes the
    /// parent's value.
    pub open spec fn details_of_parent(self) -> Seq<char> {
        (match self.child_key {
            Some(k) => k,
            None => self.parent_key,
        }) + " = ?"@
    }

    /// The outputs of a row once its details were looked up: the header, then
    /// each detail for the detail table.
    pub open spec fn split(self, row: Cells, details: Seq<Cells>) -> Seq<EtlOutputRowV> {
        seq![EtlOutputRowV { table: ""@, row: header(row, self.keep) }] + details.map_values(
            |d: Cells| EtlOutputRowV { table: self.detail_table, row: d },
        )
    }
}

/// Adds the details to what is handed out.
pub fn add_details(out: &mut Vec<EtlOutputRow>, table: &str, details: Vec<Row>)
    ensures
        views::list(final(out)@) == views::list(old(out)@) + model::rows_view(details@).map_values(
            |d: Cells| EtlOutputRowV { table: table@, row: d },
        ),
{
    let ghost first = views::list(out@);
    let ghost all = model::rows_view(details@).map_values(|d: Cells| EtlOutputRowV { table: table@, row: d });
    let mut i: usize = 0;
    assert(first + all.take(0) =~= first);
    while i < details.len()
        invariant
            i <= details.len(),
            all == model::rows_view(details@).map_values(|d: Cells| EtlOutputRowV { table: table@, row: d }),
            views::list(out@) == first + all.take(i as int),
        decreases details.len() - i,
    {
        let o = EtlOutputRow::new(copy(table), details[i].clone());
        proof {
            views::lemma_list_push(out@, o);
        }
        out.push(o);
        assert(first + all.take(i + 1) =~= (first + all.take(i as int)).push(all[i as int]));
        i += 1;
    }
    assert(all.take(i as int) =~= all);
}

impl OrderSplit {
    /// Whether a row is split into `r` by just these lookups: none and the header
    /// alone where the row has no parent value, else one, and the header and what
    /// it found.
    pub open spec fn gives(
        self,
        connection: Seq<char>,
        row: Cells,
        made: Seq<LookupV>,
        r: Result<Seq<EtlOutputRowV>, EtlErrorV>,
    ) -> bool {
        match self.config {
            None => made.len() == 0 && r == Err::<Seq<EtlOutputRowV>, EtlErrorV>(
                EtlErrorV::Config("order_split: plugin not configured"@),
            ),
            Some(c) => if model::cell(row, c@.parent_key) is Null {
                made.len() == 0 && r == Ok::<Seq<EtlOutputRowV>, EtlErrorV>(c@.split(row, Seq::empty()))
            } else {
                looked_up(connection, c@, row, made, r)
            },
        }
    }
}

/// Whether `r` comes of looking the details up, by just these lookups: one, for
/// the details of the parent.
pub open spec fn looked_up(
    connection: Seq<char>,
    c: SplitV,
    row: Cells,
    made: Seq<LookupV>,
    r: Result<Seq<EtlOutputRowV>, EtlErrorV>,
) -> bool {
    &&& made.len() == 1
    &&& made[0] == (LookupV {
        connection,
        table: c.source_table(),
        columns: if c.detail_columns.len() == 0 {
            None
        } else {
            Some(c.detail_columns)
        },
        condition: Some(c.details_of_parent()),
        params: seq![model::cell(row, c.parent_key)],
        limit: c.limit,
        found: made[0].found,
    })
    &&& r == (match made[0].found {
        Ok(rows) => Ok(c.split(row, rows)),
        Err(e) => Err(e),
    })
}

impl Named for OrderSplit {
    fn name(&self) -> (out: &str)
        ensures
            out@ == "order_split"@,
    {
        "order_split"
    }
}

impl<L: TableLookup> EtlProcessor<L> for OrderSplit {
    fn process(&self, ctx: &mut EtlContext<L>, input: &EtlRow) -> (out: Result<Vec<EtlOutputRow>, EtlError>)
        ensures
            *final(ctx) == (EtlContext { lookup: final(ctx).lookup, ..*old(ctx) }),
            final(ctx).lookup.served_by() == old(ctx).lookup.served_by(),
            old(ctx).lookup.made().len() <= final(ctx).lookup.made().len(),
            forall|i: int|
                old(ctx).lookup.made().len() <= i < final(ctx).lookup.made().len() ==> etl::lookup_told(
                    old(ctx).lookup.served_by(),
                    #[trigger] final(ctx).lookup.made()[i],
                ),
            final(ctx).lookup.made().take(old(ctx).lookup.made().len() as int) == old(ctx).lookup.made(),
            self.gives(
                old(ctx).source_connection@,
                input@.row,
                final(ctx).lookup.made().skip(old(ctx).lookup.made().len() as int),
                builtin::outputs(out),
            ),
    {
        let ghost first = ctx.lookup.made();
        proof {
            assert(first.take(first.len() as int) =~= first);
            assert(first.skip(first.len() as int) =~= Seq::<LookupV>::empty());
        }
        let cfg = match &self.config {
            Some(c) => c,
            None => {
                return Err(EtlError::Config(copy("order_split: plugin not configured")));
            },
        };
        let ghost c = cfg@;
        let ghost row = input@.row;
        let mut out: Vec<EtlOutputRow> = Vec::new();
        let h = EtlOutputRow::new(copy(""), keep_columns(&input.row, &cfg.keep));
        out.push(h);
        assert(views::list(out@) =~= c.split(row, Seq::empty()));
        let parent = input.row.value(cfg.parent_key.as_str());
        if parent.is_null() {
            return Ok(out);
        }
        let child_key: &str = match &cfg.child_key {
            Some(k) => k.as_str(),
            None => cfg.parent_key.as_str(),
        };
        let source_table: &str = match &cfg.source_detail_table {
            Some(t) => t.as_str(),
            None => cfg.detail_table.as_str(),
        };
        let columns: Option<&Vec<String>> = if cfg.detail_columns.len() == 0 {
            None
        } else {
            Some(&cfg.detail_columns)
        };
        let words = cat2(child_key, " = ?");
        let condition: Option<&str> = Some(words.as_str());
        let mut params: Vec<Value> = Vec::new();
        params.push(parent);
        assert(model::vals(params@) =~= seq![model::cell(row, c.parent_key)]);
        let conn: &str = ctx.source_connection;
        let reply = ctx.lookup_table(conn, source_table, columns, condition, &params, cfg.limit);
        proof {
            let made = ctx.lookup.made().skip(first.len() as int);
            assert(made =~= seq![ctx.lookup.made().last()]);
            assert(ctx.lookup.made().take(first.len() as int) =~= first);
        }
        match reply {
            Err(e) => Err(e),
            Ok(details) => {
                let ghost rows = model::rows_view(details@);
                add_details(&mut out, cfg.detail_table.as_str(), details);
                assert(views::list(out@) =~= c.split(row, rows));
                Ok(out)
            },
        }
    }
}

impl EtlConfigure for OrderSplit {
    type Config = SplitConfig;

    /// Takes a configuration that names a detail table and a parent key. The
    /// first one taken stays.
    fn configure(&mut self, config: SplitConfig) -> (out: Result<(), EtlError>)
        ensures
            match config@.fault() {
                Some(e) => (out matches Err(x) && x@ == e) && *final(self) == *old(self),
                None => out is Ok && (if old(self).config is Some {
                    *final(self) == *old(self)
                } else {
                    final(self).config == Some(config)
                }),
            },
    {
        let t = trimmed(config.detail_table.as_str());
        if same(t.as_str(), "") {
            return Err(EtlError::Config(copy("order_split: config.detail_table is required")));
        }
        let p = trimmed(config.parent_key.as_str());
        if same(p.as_str(), "") {
            return Err(EtlError::Config(copy("order_split: config.parent_key is required")));
        }
        if self.config.is_none() {
            self.config = Some(config);
        }
        Ok(())
    }
}

// ---------------------------------------------------------------------------
// What a split gives
// ---------------------------------------------------------------------------

/// Law: a split gives the header to the table that the row was for and every
/// detail, as it was found and in the same order, to the detail table.
pub proof fn law_split_gives_header_and_details(c: SplitV, row: Cells, details: Seq<Cells>, i: int)
    requires
        0 <= i < details.len(),
    ensures
        c.split(row, details).len() == details.len() + 1,
        c.split(row, details)[0].table.len() == 0,
        c.split(row, details)[0].row == header(row, c.keep),
        c.split(row, details)[i + 1].table == c.detail_table,
        c.split(row, details)[i + 1].row == details[i],
{
    reveal_strlit("");
}

/// Law: a row whose parent key is null is split without a lookup, into its header
/// alone; any other asks once, for the details whose key is its own, and fails just
/// where the lookup fails.
pub proof fn law_details_are_those_of_the_parent(
    p: OrderSplit,
    connection: Seq<char>,
    row: Cells,
    made: Seq<LookupV>,
    r: Result<Seq<EtlOutputRowV>, EtlErrorV>,
)
    requires
        p.gives(connection, row, made, r),
        p.config is Some,
    ensures
        ({
            let c = p.config->Some_0@;
            let own = model::cell(row, c.parent_key);
            &&& own is Null ==> made.len() == 0 && r == Ok::<Seq<EtlOutputRowV>, EtlErrorV>(c.split(row, Seq::empty()))
            &&& !(own is Null) ==> {
                &&& made.len() == 1
                &&& made[0].connection == connection
                &&& made[0].params == seq![own]
                &&& made[0].limit == c.limit
                &&& c.source_detail_table matches Some(t) ==> made[0].table == t
                &&& c.source_detail_table is None ==> made[0].table == c.detail_table
                &&& made[0].condition matches Some(w) && text::starts_with(
                    w,
                    if c.child_key is Some {
                        c.child_key->Some_0
                    } else {
                        c.parent_key
                    },
                )
                &&& made[0].columns is None <==> c.detail_columns.len() == 0
                &&& made[0].columns matches Some(v) ==> v == c.detail_columns
                &&& r is Err <==> made[0].found is Err
            }
        }),
{
    let c = p.config->Some_0@;
    let k = if c.child_key is Some {
        c.child_key->Some_0
    } else {
        c.parent_key
    };
    text::law_parts_are_found(Seq::empty(), k, " = ?"@);
}

/// Law: a split needs a detail table and a parent key that are not blank.
pub proof fn law_split_needs_table_and_key(c: SplitV)
    ensures
        c.fault() is None <==> text::trim(c.detail_table).len() > 0 && text::trim(c.parent_key).len() > 0,
        c.fault() matches Some(e) ==> e is Config,
{
    reveal_strlit("");
    let (a, b) = (text::trim(c.detail_table), text::trim(c.parent_key));
    assert(a.len() == 0 ==> a =~= ""@);
    assert(b.len() == 0 ==> b =~= ""@);
}

} // verus!

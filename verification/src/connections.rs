//! One connected datasource per named connection.

use vstd::prelude::*;

use crate::config;
use crate::config::{expand_settings, ConnectionSettings};
use crate::datasource::Datasource;
use crate::error::{AppError, AppErrorV, AppResult, DatasourceError, DatasourceErrorV, EtlError, EtlErrorV};
use crate::etl;
use crate::etl::TableLookup;
use crate::model;
use crate::model::{Cells, ConnectionV, Row, Value};
use crate::reader;
use crate::reading;
use crate::sql;
use crate::strmap;
use crate::strmap::StrMap;
use crate::text;
use crate::text::{cat2, cat3, cat4, cat5, copy, dec_text, joined, quote, same, trimmed};
use crate::tokens;
use crate::views;

verus! {

// ---------------------------------------------------------------------------
// Connecting
// ---------------------------------------------------------------------------

/// What came of the attempt to open a connection.
pub enum ConnectReply<D> {
    Connected(D),
    /// There is no plugin of the type, or it refused.
    Refused(DatasourceError),
    /// Nothing came within the connect timeout.
    TimedOut,
    /// The attempt ended without an answer.
    Died,
}

/// The seconds that an attempt to open a connection may take: its connect
/// timeout, at least one.
pub fn patience_secs(settings: &ConnectionSettings) -> (out: u64)
    ensures
        out == (if settings@.connect_timeout_secs < 1 {
            1
        } else {
            settings@.connect_timeout_secs
        }),
{
    if settings.connect_timeout_secs < 1 {
        1
    } else {
        settings.connect_timeout_secs
    }
}

pub open spec fn address(c: ConnectionV) -> Seq<char> {
    c.conn_type + "@"@ + c.host + ":"@ + text::dec(c.port as nat)
}

/// The connection, or why there is none.
pub open spec fn settled<D>(c: ConnectionV, reply: ConnectReply<D>) -> Result<D, AppErrorV> {
    match reply {
        ConnectReply::Connected(d) => Ok(d),
        ConnectReply::Refused(e) => Err(AppErrorV::Datasource("connect '"@ + c.name + "': "@ + e@.words())),
        ConnectReply::TimedOut => Err(
            AppErrorV::Datasource(
                "connect '"@ + c.name + "' ("@ + address(c) + ") timed out after "@ + text::dec(
                    c.connect_timeout_secs as nat,
                ) + "s"@,
            ),
        ),
        ConnectReply::Died => Err(AppErrorV::Datasource("connect '"@ + c.name + "': worker thread panicked"@)),
    }
}

/// What came of opening a connection.
pub open spec fn opening_view<D>(r: AppResult<D>) -> Result<D, AppErrorV> {
    match r {
        Ok(d) => Ok(d),
        Err(e) => Err(e@),
    }
}

pub fn settle<D>(settings: &ConnectionSettings, reply: ConnectReply<D>) -> (out: AppResult<D>)
    ensures
        opening_view(out) == settled(settings@, reply),
{
    match reply {
        ConnectReply::Connected(d) => Ok(d),
        ConnectReply::Refused(e) => {
            let words = e.message();
            Err(AppError::Datasource(cat4("connect '", settings.name.as_str(), "': ", words.as_str())))
        },
        ConnectReply::TimedOut => {
            let port = dec_text(settings.port as u64);
            let secs = dec_text(settings.connect_timeout_secs);
            let at = cat5(settings.conn_type.as_str(), "@", settings.host.as_str(), ":", port.as_str());
            let head = cat5("connect '", settings.name.as_str(), "' (", at.as_str(), ") timed out after ");
            Err(AppError::Datasource(cat3(head.as_str(), secs.as_str(), "s")))
        },
        ConnectReply::Died => Err(
            AppError::Datasource(cat3("connect '", settings.name.as_str(), "': worker thread panicked")),
        ),
    }
}

/// The error of a plugin file that cannot be loaded.
pub fn plugin_failed(plugin_type: &str, path: &str, cause: &str) -> (out: AppError)
    ensures
        out@ == AppErrorV::Config("datasource plugin '"@ + plugin_type@ + "' ("@ + path@ + "): "@ + cause@),
{
    let head = cat5("datasource plugin '", plugin_type, "' (", path, "): ");
    AppError::Config(cat2(head.as_str(), cause))
}

// ---------------------------------------------------------------------------
// The manager
// ---------------------------------------------------------------------------

/// A connected datasource.
pub struct Slot<D> {
    pub ds: D,
}

impl<D> View for Slot<D> {
    type V = D;

    open spec fn view(&self) -> D {
        self.ds
    }
}

/// The settings and the datasource of each connection.
pub struct ConnectionManager<D> {
    pub settings: StrMap<ConnectionSettings>,
    pub conns: StrMap<Slot<D>>,
}

/// What a [`ConnectionManager`] holds.
#[verifier::ext_equal]
#[verifier::reject_recursive_types(D)]
pub struct ManagerV<D> {
    pub settings: Seq<(Seq<char>, ConnectionV)>,
    pub conns: Seq<(Seq<char>, D)>,
}

impl<D> View for ConnectionManager<D> {
    type V = ManagerV<D>;

    open spec fn view(&self) -> ManagerV<D> {
        ManagerV { settings: self.settings@, conns: self.conns@ }
    }
}

pub open spec fn not_connected(name: Seq<char>) -> AppErrorV {
    AppErrorV::Config("connection '"@ + name + "' is not connected"@)
}

fn no_connection(name: &str) -> (out: AppError)
    ensures
        out@ == not_connected(name@),
{
    AppError::Config(cat3("connection '", name, "' is not connected"))
}

impl<D> ManagerV<D> {
    /// The manager with one more connection.
    pub open spec fn with(self, name: Seq<char>, c: ConnectionV, d: D) -> ManagerV<D> {
        ManagerV { settings: strmap::put(self.settings, name, c), conns: strmap::put(self.conns, name, d) }
    }

    /// The type of a connection's datasource.
    pub open spec fn kind(self, name: Seq<char>) -> Option<Seq<char>> {
        match strmap::at(self.settings, name) {
            Some(c) => Some(c.conn_type),
            None => None,
        }
    }

    /// The manager after connections were opened one after the other, with what
    /// came of each, up to the first that failed.
    pub open spec fn opened(
        self,
        entries: Seq<(Seq<char>, ConnectionV)>,
        env: tokens::Env,
        results: Seq<Result<D, AppErrorV>>,
    ) -> (ManagerV<D>, Option<AppErrorV>)
        decreases results.len(),
    {
        if results.len() == 0 {
            (self, None)
        } else {
            let (m, e) = self.opened(entries, env, results.drop_last());
            if e is Some {
                (m, e)
            } else {
                let x = entries[results.len() - 1];
                match results.last() {
                    Ok(d) => (m.with(x.0, config::expanded_settings(x.1, env), d), None),
                    Err(f) => (m, Some(f)),
                }
            }
        }
    }
}

/// Whether the results can be those of opening the connections, in order, up to
/// the first that failed.
pub open spec fn openings<D, C: Fn(&ConnectionSettings) -> ConnectReply<D>>(
    connect: C,
    entries: Seq<(Seq<char>, ConnectionV)>,
    env: tokens::Env,
    results: Seq<Result<D, AppErrorV>>,
) -> bool {
    &&& results.len() <= entries.len()
    &&& forall|i: int|
        0 <= i < results.len() ==> opening_gives(connect, config::expanded_settings(entries[i].1, env), #[trigger] results[i])
    &&& forall|i: int| 0 <= i < results.len() - 1 ==> (#[trigger] results[i]) is Ok
    &&& results.len() == entries.len() || (results.len() > 0 && results.last() is Err)
}

/// Whether `r` can be what comes of opening a connection.
pub open spec fn opening_gives<D, C: Fn(&ConnectionSettings) -> ConnectReply<D>>(
    connect: C,
    c: ConnectionV,
    r: Result<D, AppErrorV>,
) -> bool {
    exists|s: &ConnectionSettings, reply: ConnectReply<D>|
        s@ == c && #[trigger] call_ensures(connect, (s,), reply) && r == settled(c, reply)
}

impl<D> ConnectionManager<D> {
    pub fn new() -> (out: Self)
        ensures
            out@ == (ManagerV::<D> { settings: Seq::empty(), conns: Seq::empty() }),
    {
        ConnectionManager { settings: StrMap::new(), conns: StrMap::new() }
    }

    /// Takes a connected datasource.
    pub fn register(&mut self, name: String, settings: ConnectionSettings, ds: D)
        ensures
            final(self)@ == old(self)@.with(name@, settings@, ds),
    {
        self.settings.insert(name.clone(), settings);
        self.conns.insert(name, Slot { ds });
    }

    /// Connect every connection, in the order of their names. Fails fast on the
    /// first connection error so misconfiguration is visible at startup.
    pub fn connect_all<C: Fn(&ConnectionSettings) -> ConnectReply<D>>(
        &mut self,
        connections: &StrMap<ConnectionSettings>,
        env: &StrMap<String>,
        connect: &C,
    ) -> (out: AppResult<()>)
        requires
            forall|s: &ConnectionSettings| call_requires(*connect, (s,)),
        ensures
            exists|results: Seq<Result<D, AppErrorV>>| #[trigger]
                openings(*connect, connections@, env@, results) && (
                final(self)@,
                match out {
                    Ok(_) => None,
                    Err(e) => Some(e@),
                },
            ) == old(self)@.opened(connections@, env@, results),
    {
        let ghost entries = connections@;
        let ghost first = self@;
        let ghost mut results: Seq<Result<D, AppErrorV>> = Seq::empty();
        let mut i: usize = 0;
        while i < connections.len()
            invariant
                forall|s: &ConnectionSettings| call_requires(*connect, (s,)),
                i <= connections@.len(),
                entries == connections@,
                first == old(self)@,
                results.len() == i,
                forall|k: int|
                    0 <= k < i ==> opening_gives(
                        *connect,
                        config::expanded_settings(entries[k].1, env@),
                        #[trigger] results[k],
                    ),
                forall|k: int| 0 <= k < i ==> (#[trigger] results[k]) is Ok,
                first.opened(entries, env@, results) == (self@, None::<AppErrorV>),
            decreases connections@.len() - i,
        {
            let name = copy(connections.key_at(i));
            let settings = expand_settings(connections.value_at(i), env);
            let reply = (*connect)(&settings);
            let ghost r = settled(settings@, reply);
            proof {
                assert(call_ensures(*connect, (&settings,), reply));
                assert(opening_gives(*connect, settings@, r));
                let longer = results.push(r);
                assert(longer.drop_last() =~= results);
                assert forall|k: int| 0 <= k < i + 1 implies opening_gives(
                    *connect,
                    config::expanded_settings(entries[k].1, env@),
                    #[trigger] longer[k],
                ) by {
                    assert(k < i ==> longer[k] == results[k]);
                }
                assert forall|k: int| 0 <= k < i implies (#[trigger] longer[k]) is Ok by {
                    assert(longer[k] == results[k]);
                }
                results = longer;
            }
            match settle(&settings, reply) {
                Ok(ds) => {
                    self.register(name, settings, ds);
                },
                Err(e) => {
                    assert(openings(*connect, entries, env@, results));
                    return Err(e);
                },
            }
            i += 1;
        }
        assert(openings(*connect, entries, env@, results));
        Ok(())
    }

    pub fn get(&self, name: &str) -> (out: AppResult<&D>)
        ensures
            match out {
                Ok(d) => strmap::at(self@.conns, name@) == Some(*d),
                Err(e) => strmap::at(self@.conns, name@) is None && e@ == not_connected(name@),
            },
    {
        match self.conns.get(name) {
            Some(s) => Ok(&s.ds),
            None => Err(no_connection(name)),
        }
    }

    /// Datasource type (`mysql`, `postgresql`, `oracle`, ...) for a connection.
    pub fn conn_type(&self, name: &str) -> (out: AppResult<&str>)
        ensures
            match out {
                Ok(t) => self@.kind(name@) == Some(t@),
                Err(e) => self@.kind(name@) is None && e@ == not_connected(name@),
            },
    {
        match self.settings.get(name) {
            Some(s) => Ok(s.conn_type.as_str()),
            None => Err(no_connection(name)),
        }
    }

    /// Connection pool size of a connection (drivers that pool their
    /// connections use this as the max concurrent connections).
    pub fn pool_size(&self, name: &str) -> (out: Option<usize>)
        ensures
            out == (match strmap::at(self@.settings, name@) {
                Some(c) => Some(c.max_pool_size as usize),
                None => None,
            }),
    {
        match self.settings.get(name) {
            Some(s) => Some(s.max_pool_size as usize),
            None => None,
        }
    }

    pub fn names(&self) -> (out: Vec<String>)
        ensures
            text::views(out@) == strmap::keys_of(self@.conns),
    {
        self.conns.keys()
    }
}

/// Law: whatever connections are opened, and whether or not one fails, every
/// connection with a datasource has its settings and the other way round.
pub proof fn law_settings_go_with_connections<D>(
    m: ManagerV<D>,
    entries: Seq<(Seq<char>, ConnectionV)>,
    env: tokens::Env,
    results: Seq<Result<D, AppErrorV>>,
    name: Seq<char>,
)
    requires
        strmap::ordered(m.settings),
        strmap::ordered(m.conns),
        strmap::at(m.settings, name) is Some <==> strmap::at(m.conns, name) is Some,
    ensures
        strmap::ordered(m.opened(entries, env, results).0.settings),
        strmap::ordered(m.opened(entries, env, results).0.conns),
        strmap::at(m.opened(entries, env, results).0.settings, name) is Some <==> strmap::at(
            m.opened(entries, env, results).0.conns,
            name,
        ) is Some,
    decreases results.len(),
{
    if results.len() > 0 {
        law_settings_go_with_connections(m, entries, env, results.drop_last(), name);
        let p = m.opened(entries, env, results.drop_last()).0;
        let x = entries[results.len() - 1];
        let c = config::expanded_settings(x.1, env);
        if let Ok(d) = results.last() {
            strmap::lemma_put(p.settings, x.0, c);
            strmap::lemma_put(p.conns, x.0, d);
            strmap::lemma_dict(p.settings, name);
            strmap::lemma_dict(p.conns, name);
            strmap::lemma_dict(strmap::put(p.settings, x.0, c), name);
            strmap::lemma_dict(strmap::put(p.conns, x.0, d), name);
        }
    }
}

// ---------------------------------------------------------------------------
// Lookups
// ---------------------------------------------------------------------------

/// A failed lookup, from the error behind it.
pub fn lookup_err(e: AppError) -> (out: EtlError)
    ensures
        out@ == EtlErrorV::Lookup(e@.words()),
{
    EtlError::Lookup(e.message())
}

/// `TableLookup` used by every ETL processor in this process.
pub struct AppLookup<'a, D> {
    conns: &'a ConnectionManager<D>,
}

impl<'a, D> AppLookup<'a, D> {
    /// The connections that are read.
    pub closed spec fn manager(self) -> ConnectionManager<D> {
        *self.conns
    }

    pub fn new(conns: &'a ConnectionManager<D>) -> (out: Self)
        ensures
            out.manager() == *conns,
    {
        AppLookup { conns }
    }
}

/// The clause that limits a query to so many rows.
pub open spec fn limit_words(conn_type: Seq<char>, limit: u64) -> Seq<char> {
    if conn_type == "oracle"@ {
        "FETCH FIRST "@ + text::dec(limit as nat) + " ROWS ONLY"@
    } else {
        "LIMIT "@ + text::dec(limit as nat)
    }
}

/// The condition of a lookup; nothing where it is blank.
pub open spec fn lookup_condition(w: Option<Seq<char>>) -> Seq<char> {
    match w {
        Some(c) => if text::trim(c) == ""@ {
            ""@
        } else {
            " WHERE "@ + text::trim(c)
        },
        None => ""@,
    }
}

/// The columns of a lookup: those listed, else all.
pub open spec fn listed(columns: Option<Seq<Seq<char>>>) -> Seq<Seq<char>> {
    match columns {
        Some(v) => v,
        None => Seq::empty(),
    }
}

/// The query of a lookup.
pub open spec fn lookup_sql(
    conn_type: Seq<char>,
    table: Seq<char>,
    columns: Option<Seq<Seq<char>>>,
    condition: Option<Seq<char>>,
    limit: u64,
) -> Seq<char> {
    reader::base_query(listed(columns), table, reader::name_quote(conn_type)) + lookup_condition(condition) + " "@
        + limit_words(conn_type, limit)
}

/// What a lookup comes to once the datasource answered.
pub open spec fn lookup_result(answer: Result<Seq<Cells>, DatasourceErrorV>) -> Result<Seq<Cells>, EtlErrorV> {
    match answer {
        Ok(rows) => Ok(rows),
        Err(e) => Err(EtlErrorV::Lookup(e.words())),
    }
}

impl<'a, D: Datasource> AppLookup<'a, D> {
    /// A name, quoted for a connection.
    pub fn quote_ident(&self, conn: &str, name: &str) -> (out: AppResult<String>)
        ensures
            match out {
                Ok(s) => (self.manager()@.kind(conn@) matches Some(t) && s@ == text::quoted(name@, reader::name_quote(t))),
                Err(e) => self.manager()@.kind(conn@) is None && e@ == not_connected(conn@),
            },
    {
        match self.conns.conn_type(conn) {
            Err(e) => Err(e),
            Ok(t) => if same(t, "mysql") {
                Ok(quote(name, '`'))
            } else {
                Ok(quote(name, '"'))
            },
        }
    }

    /// The clause that limits a query on a connection.
    pub fn limit_clause(&self, conn: &str, limit: u64) -> (out: AppResult<String>)
        ensures
            match out {
                Ok(s) => (self.manager()@.kind(conn@) matches Some(t) && s@ == limit_words(t, limit)),
                Err(e) => self.manager()@.kind(conn@) is None && e@ == not_connected(conn@),
            },
    {
        match self.conns.conn_type(conn) {
            Err(e) => Err(e),
            Ok(t) => {
                let n = dec_text(limit);
                if same(t, "oracle") {
                    Ok(cat3("FETCH FIRST ", n.as_str(), " ROWS ONLY"))
                } else {
                    Ok(cat2("LIMIT ", n.as_str()))
                }
            },
        }
    }

    fn quote_columns(&self, conn: &str, columns: &Vec<String>) -> (out: AppResult<Vec<String>>)
        ensures
            match out {
                Ok(v) => (columns@.len() == 0 && v@.len() == 0) || (self.manager()@.kind(conn@) matches Some(t)
                    && text::views(v@) == sql::quoted_all(text::views(columns@), reader::name_quote(t))),
                Err(e) => self.manager()@.kind(conn@) is None && e@ == not_connected(conn@),
            },
    {
        let mut out: Vec<String> = Vec::new();
        let ghost kind = self.manager()@.kind(conn@);
        let ghost q = reader::name_quote(kind->Some_0);
        let ghost want = sql::quoted_all(text::views(columns@), q);
        let mut i: usize = 0;
        while i < columns.len()
            invariant
                i <= columns.len(),
                kind == self.manager()@.kind(conn@),
                q == reader::name_quote(kind->Some_0),
                want == sql::quoted_all(text::views(columns@), q),
                i > 0 ==> kind is Some,
                text::views(out@) == want.take(i as int),
            decreases columns.len() - i,
        {
            match self.quote_ident(conn, columns[i].as_str()) {
                Err(e) => {
                    return Err(e);
                },
                Ok(s) => {
                    proof {
                        views::lemma_list_push(out@, s);
                    }
                    out.push(s);
                    assert(want.take(i + 1) =~= want.take(i as int).push(want[i as int]));
                },
            }
            i += 1;
        }
        assert(want.take(i as int) =~= want);
        Ok(out)
    }

    /// The query of a lookup on a connection.
    pub fn query_for(
        &self,
        connection: &str,
        table: &str,
        columns: Option<&Vec<String>>,
        where_clause: Option<&str>,
        limit: u64,
    ) -> (out: AppResult<String>)
        ensures
            match out {
                Ok(s) => (self.manager()@.kind(connection@) matches Some(t) && s@ == lookup_sql(
                    t,
                    table@,
                    match columns {
                        Some(v) => Some(text::views(v@)),
                        None => None,
                    },
                    views::opt(where_clause),
                    limit,
                )),
                Err(e) => self.manager()@.kind(connection@) is None && e@ == not_connected(connection@),
            },
    {
        let list = match columns {
            Some(v) => if v.len() > 0 {
                match self.quote_columns(connection, v) {
                    Err(e) => {
                        return Err(e);
                    },
                    Ok(parts) => joined(&parts, ", "),
                }
            } else {
                copy("*")
            },
            None => copy("*"),
        };
        let name = match self.quote_ident(connection, table) {
            Err(e) => {
                return Err(e);
            },
            Ok(n) => n,
        };
        let base = cat4("SELECT ", list.as_str(), " FROM ", name.as_str());
        let condition = match where_clause {
            Some(w) => {
                let c = trimmed(w);
                if same(c.as_str(), "") {
                    copy("")
                } else {
                    cat2(" WHERE ", c.as_str())
                }
            },
            None => copy(""),
        };
        match self.limit_clause(connection, limit) {
            Err(e) => Err(e),
            Ok(l) => Ok(cat4(base.as_str(), condition.as_str(), " ", l.as_str())),
        }
    }

    /// Whether `r` can be what a lookup comes to.
    pub open spec fn lookup_gives(
        self,
        connection: Seq<char>,
        table: Seq<char>,
        columns: Option<Seq<Seq<char>>>,
        condition: Option<Seq<char>>,
        params: &Vec<Value>,
        limit: u64,
        r: Result<Seq<Cells>, EtlErrorV>,
    ) -> bool {
        match (strmap::at(self.manager()@.conns, connection), self.manager()@.kind(connection)) {
            (Some(ds), Some(t)) => answered(ds, lookup_sql(t, table, columns, condition, limit), params, r),
            _ => r == Err::<Seq<Cells>, EtlErrorV>(EtlErrorV::Lookup(not_connected(connection).words())),
        }
    }

    /// Reads rows of any configured table.
    pub fn do_lookup(
        &self,
        connection: &str,
        table: &str,
        columns: Option<&Vec<String>>,
        where_clause: Option<&str>,
        params: &Vec<Value>,
        limit: u64,
    ) -> (out: Result<Vec<Row>, EtlError>)
        ensures
            self.lookup_gives(
                connection@,
                table@,
                match columns {
                    Some(v) => Some(text::views(v@)),
                    None => None,
                },
                views::opt(where_clause),
                params,
                limit,
                etl::found_view(out),
            ),
    {
        let ds = match self.conns.get(connection) {
            Err(e) => {
                return Err(lookup_err(e));
            },
            Ok(d) => d,
        };
        let query = match self.query_for(connection, table, columns, where_clause, limit) {
            Err(e) => {
                return Err(lookup_err(e));
            },
            Ok(s) => s,
        };
        let q: &str = query.as_str();
        let r = ds.query_params(q, params);
        let ghost told = reader::rows_answer(r);
        assert(call_ensures(D::query_params, (ds, q, params), r));
        let out = match r {
            Ok(rows) => Ok(rows),
            Err(e) => Err(EtlError::from_datasource(&e)),
        };
        assert(answered(*ds, query@, params, etl::found_view(out)));
        out
    }
}

/// Whether `r` can be what a datasource's answer to a lookup comes to.
pub open spec fn answered<D: Datasource>(
    ds: D,
    query: Seq<char>,
    params: &Vec<Value>,
    r: Result<Seq<Cells>, EtlErrorV>,
) -> bool {
    exists|q: &str, x: Result<Vec<Row>, DatasourceError>|
        q@ == query && #[trigger] call_ensures(D::query_params, (&ds, q, params), x) && r == lookup_result(
            reader::rows_answer(x),
        )
}

impl<'a, D: Datasource> TableLookup for AppLookup<'a, D> {
    fn lookup(
        &self,
        connection: &str,
        table: &str,
        columns: Option<&Vec<String>>,
        where_clause: Option<&str>,
        params: &Vec<Value>,
        limit: u64,
    ) -> (out: Result<Vec<Row>, EtlError>)
        ensures
            self.lookup_gives(
                connection@,
                table@,
                match columns {
                    Some(v) => Some(text::views(v@)),
                    None => None,
                },
                views::opt(where_clause),
                params,
                limit,
                etl::found_view(out),
            ),
    {
        self.do_lookup(connection, table, columns, where_clause, params, limit)
    }
}

// ---------------------------------------------------------------------------
// What is opened and what is asked
// ---------------------------------------------------------------------------

/// Law: a connection is had just where the server was reached; a refusal, a
/// timeout and a death are errors of the data source.
pub proof fn law_only_a_reached_server_connects<D>(c: ConnectionV, reply: ConnectReply<D>)
    ensures
        reply matches ConnectReply::Connected(d) ==> settled(c, reply) == Ok::<D, AppErrorV>(d),
        !(reply is Connected) ==> (settled(c, reply) matches Err(e) && e is Datasource),
{
}

/// Law: where every connection opens, each stands under its name with its settings,
/// those filled in from the environment; what was open under other names stays.
pub proof fn law_connections_open_under_their_names<D>(
    m: ManagerV<D>,
    entries: Seq<(Seq<char>, ConnectionV)>,
    env: tokens::Env,
    results: Seq<Result<D, AppErrorV>>,
    i: int,
    other: Seq<char>,
)
    requires
        strmap::ordered(m.settings),
        strmap::ordered(m.conns),
        results.len() <= entries.len(),
        forall|j: int, k: int| 0 <= j < k < entries.len() ==> (#[trigger] entries[j]).0 != (#[trigger] entries[k]).0,
        forall|j: int| 0 <= j < results.len() ==> (#[trigger] results[j]) is Ok,
    ensures
        m.opened(entries, env, results).1 is None,
        strmap::ordered(m.opened(entries, env, results).0.settings),
        strmap::ordered(m.opened(entries, env, results).0.conns),
        0 <= i < results.len() ==> strmap::at(m.opened(entries, env, results).0.conns, entries[i].0) == Some(
            results[i]->Ok_0,
        ),
        0 <= i < results.len() ==> strmap::at(m.opened(entries, env, results).0.settings, entries[i].0) == Some(
            config::expanded_settings(entries[i].1, env),
        ),
        (forall|k: int| 0 <= k < results.len() ==> (#[trigger] entries[k]).0 != other) ==> strmap::at(
            m.opened(entries, env, results).0.conns,
            other,
        ) == strmap::at(m.conns, other),
    decreases results.len(),
{
    if results.len() > 0 {
        let head = results.drop_last();
        assert forall|j: int| 0 <= j < head.len() implies (#[trigger] head[j]) is Ok by {
            assert(head[j] == results[j]);
        }
        law_connections_open_under_their_names(m, entries, env, head, i, other);
        let before = m.opened(entries, env, head).0;
        let x = entries[results.len() - 1];
        assert(results[results.len() - 1] is Ok);
        let c = config::expanded_settings(x.1, env);
        let d = results.last()->Ok_0;
        strmap::lemma_put(before.settings, x.0, c);
        strmap::lemma_put(before.conns, x.0, d);
        let after = before.with(x.0, c, d);
        strmap::lemma_dict(before.conns, other);
        strmap::lemma_dict(after.conns, other);
        strmap::lemma_dict(after.conns, x.0);
        strmap::lemma_dict(after.settings, x.0);
        if 0 <= i < head.len() {
            strmap::lemma_dict(before.conns, entries[i].0);
            strmap::lemma_dict(after.conns, entries[i].0);
            strmap::lemma_dict(before.settings, entries[i].0);
            strmap::lemma_dict(after.settings, entries[i].0);
        }
    }
}

/// Law: the first connection that fails ends the opening with its error; those
/// before it stay open.
pub proof fn law_failed_connection_ends_the_opening<D>(
    m: ManagerV<D>,
    entries: Seq<(Seq<char>, ConnectionV)>,
    env: tokens::Env,
    opened: Seq<Result<D, AppErrorV>>,
    e: AppErrorV,
    more: Seq<Result<D, AppErrorV>>,
)
    requires
        m.opened(entries, env, opened).1 is None,
    ensures
        m.opened(entries, env, opened.push(Err(e)) + more) == (m.opened(entries, env, opened).0, Some(e)),
    decreases more.len(),
{
    let all = opened.push(Err(e)) + more;
    if more.len() == 0 {
        assert(all =~= opened.push(Err(e)));
        assert(all.drop_last() =~= opened);
    } else {
        law_failed_connection_ends_the_opening(m, entries, env, opened, e, more.drop_last());
        assert(all.drop_last() =~= opened.push(Err(e)) + more.drop_last());
    }
}

/// The number of rows that a lookup is held to.
pub open spec fn limit_at(s: Seq<char>, conn_type: Seq<char>) -> Option<nat> {
    if conn_type == "oracle"@ {
        match reading::after(s, "FETCH FIRST "@) {
            None => None,
            Some(a) => match reading::numeral_at(a) {
                Some((n, r)) => if r == " ROWS ONLY"@ {
                    Some(n)
                } else {
                    None
                },
                None => None,
            },
        }
    } else {
        match reading::after(s, "LIMIT "@) {
            None => None,
            Some(a) => match reading::numeral_at(a) {
                Some((n, r)) => if r.len() == 0 {
                    Some(n)
                } else {
                    None
                },
                None => None,
            },
        }
    }
}

/// Law: a lookup is the query of its columns and table, with its condition behind
/// it, held to its number of rows in the words of the dialect. A blank condition
/// asks for nothing; any other stands there without the white space round it.
pub proof fn law_lookup_asks_for_its_rows(
    conn_type: Seq<char>,
    table: Seq<char>,
    columns: Option<Seq<Seq<char>>>,
    condition: Seq<char>,
    a: Seq<char>,
    b: Seq<char>,
    limit: u64,
)
    requires
        text::blank(a),
        text::blank(b),
        condition.len() > 0 ==> !text::is_space(condition[0]) && !text::is_space(condition.last()),
    ensures
        limit_at(limit_words(conn_type, limit), conn_type) == Some(limit as nat),
        ({
            let base = reader::base_query(listed(columns), table, reader::name_quote(conn_type));
            let end = " "@ + limit_words(conn_type, limit);
            &&& lookup_sql(conn_type, table, columns, None, limit) == base + end
            &&& condition.len() == 0 ==> lookup_sql(conn_type, table, columns, Some(a + condition + b), limit) == base + end
            &&& condition.len() > 0 ==> lookup_sql(conn_type, table, columns, Some(a + condition + b), limit)
                == reader::whole_query(base, Some(condition)) + end
        }),
{
    reveal_strlit("");
    reveal_strlit(" ");
    reveal_strlit(" ROWS ONLY");
    let n = text::dec(limit as nat);
    let none = Seq::<char>::empty();
    if conn_type == "oracle"@ {
        let end = " ROWS ONLY"@;
        assert(end[0] == ' ');
        reading::lemma_regroup("FETCH FIRST "@, n, end);
        reading::lemma_after("FETCH FIRST "@, n + end);
        reading::law_numeral_reads_back(limit as nat, end);
    } else {
        reading::lemma_after("LIMIT "@, n);
        reading::law_numeral_reads_back(limit as nat, none);
        assert(n + none =~= n);
    }
    text::law_trim_takes_off_outer_space(a, condition, b);
    let base = reader::base_query(listed(columns), table, reader::name_quote(conn_type));
    let words = limit_words(conn_type, limit);
    assert(base + ""@ =~= base);
    reading::lemma_regroup(base, " "@, words);
    if condition.len() == 0 {
        assert(condition =~= ""@);
    } else {
        reading::lemma_regroup(base, " WHERE "@, condition);
        reading::lemma_regroup(base + (" WHERE "@ + condition), " "@, words);
    }
}

proof fn lemma_timeout_words(p: Seq<char>, a: Seq<char>, n: Seq<char>)
    ensures
        ({
            let s = p + "' ("@ + a + ") timed out after "@ + n + "s"@;
            &&& text::starts_with(s, p)
            &&& text::contains(s, a)
            &&& text::ends_with(s, ") timed out after "@ + n + "s"@)
        }),
{
    let none = Seq::<char>::empty();
    let t = ") timed out after "@;
    let end = t + n + "s"@;
    let q = p + "' ("@;
    reading::lemma_regroup(q + a + t, n, "s"@);
    reading::lemma_regroup(q + a, t, n + "s"@);
    reading::lemma_regroup(t, n, "s"@);
    reading::lemma_regroup(q, a, end);
    reading::lemma_regroup(p, "' ("@, a + end);
    text::law_parts_are_found(none, p, "' ("@ + (a + end));
    text::law_parts_are_found(q, a, end);
    text::law_parts_are_found(q + a, end, none);
}

/// Law: a connection that fails is named, and a refusal told in the server's words;
/// a timeout tells where the server was sought and how long was waited.
pub proof fn law_failed_connection_is_named<D>(c: ConnectionV, reply: ConnectReply<D>)
    requires
        !(reply is Connected),
    ensures
        settled(c, reply) is Err && settled(c, reply)->Err_0 is Datasource,
        ({
            let s = settled(c, reply)->Err_0->Datasource_0;
            &&& text::starts_with(s, "connect '"@ + c.name)
            &&& reply matches ConnectReply::Refused(e) ==> text::ends_with(s, e@.words())
            &&& reply is TimedOut ==> text::contains(s, address(c)) && text::ends_with(
                s,
                ") timed out after "@ + text::dec(c.connect_timeout_secs as nat) + "s"@,
            )
        }),
{
    let none = Seq::<char>::empty();
    let p = "connect '"@ + c.name;
    match reply {
        ConnectReply::Refused(e) => {
            let w = e@.words();
            reading::lemma_regroup(p, "': "@, w);
            text::law_parts_are_found(none, p, "': "@ + w);
            text::law_parts_are_found(p + "': "@, w, none);
        },
        ConnectReply::TimedOut => {
            lemma_timeout_words(p, address(c), text::dec(c.connect_timeout_secs as nat));
        },
        _ => {
            text::law_parts_are_found(none, p, "': worker thread panicked"@);
        },
    }
}

/// Law: a lookup gives the rows that came, all of them and as they came; a fault of
/// the data source is a fault of the lookup, in the same words.
pub proof fn law_lookup_gives_what_came(rows: Seq<Cells>, e: DatasourceErrorV)
    ensures
        lookup_result(Ok(rows)) == Ok::<Seq<Cells>, EtlErrorV>(rows),
        lookup_result(Err(e)) == Err::<Seq<Cells>, EtlErrorV>(EtlErrorV::Lookup(e.words())),
{
}

/// Law: a connection is of the kind that its settings name, and of none where it has
/// no settings.
pub proof fn law_kind_is_that_of_the_settings<D>(m: ManagerV<D>, name: Seq<char>)
    ensures
        strmap::at(m.settings, name) matches Some(c) ==> m.kind(name) == Some(c.conn_type),
        strmap::at(m.settings, name) is None ==> m.kind(name) is None,
{
}

/// Law: an address is the kind of the server, its host and its port.
pub proof fn law_address_is_kind_host_and_port(c: ConnectionV)
    requires
        !c.host.contains(':'),
    ensures
        reading::after(address(c), c.conn_type + "@"@) matches Some(a) && a.take(text::find(a, ':')) == c.host
            && reading::numeral_at(a.skip(text::find(a, ':') + 1) + Seq::<char>::empty()) == Some(
            (c.port as nat, Seq::<char>::empty()),
        ),
{
    reveal_strlit(":");
    let none = Seq::<char>::empty();
    let p = text::dec(c.port as nat);
    let q = c.conn_type + "@"@;
    let a = c.host + (":"@ + p);
    reading::lemma_regroup(q + c.host, ":"@, p);
    reading::lemma_regroup(q, c.host, ":"@ + p);
    reading::lemma_after(q, a);
    assert(a =~= c.host + seq![':'] + p);
    text::law_find_is_the_first_place(c.host, ':', p);
    assert(a.take(c.host.len() as int) =~= c.host);
    assert(a.skip(c.host.len() + 1int) =~= p);
    reading::law_numeral_reads_back(c.port as nat, none);
}

} // verus!

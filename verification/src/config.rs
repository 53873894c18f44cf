//! The main configuration and the connections.
//!
//! The functions here take the text of a file; reading the file is the
//! caller's part. Secrets like `${MY_PASSWORD}` are expanded from the environment
//! at load time so they never end up in state or logs.

use vstd::prelude::*;

use crate::error::{AppError, AppErrorV, AppResult};
use crate::float;
use crate::float::yaml_real;
use crate::model::{ConnectionConfig, ConnectionV};
use crate::reading;
use crate::strmap;
use crate::strmap::{Duplicate, StrMap};
use crate::text;
use crate::text::{cat2, cat3, cat4, copy, copy_opt, has_prefix, has_suffix, int_text};
use crate::tokens;
use crate::tokens::expand_env;
use crate::views;
use crate::yaml;
use crate::yaml::{load_documents, Node, NodeV};

verus! {

// ---------------------------------------------------------------------------
// Paths
// ---------------------------------------------------------------------------

/// A path read relative to a directory: an absolute one stays as it is.
pub open spec fn resolved(base: Seq<char>, p: Seq<char>) -> Seq<char> {
    if text::starts_with(p, "/"@) {
        p
    } else if base.len() == 0 || text::ends_with(base, "/"@) {
        base + p
    } else {
        base + "/"@ + p
    }
}

pub fn resolve_relative(base: &str, p: &str) -> (out: String)
    ensures
        out@ == resolved(base@, p@),
{
    proof {
        reveal_strlit("");
        assert(base@.len() == 0 ==> base@ =~= ""@);
    }
    if has_prefix(p, "/") {
        copy(p)
    } else if text::same(base, "") || has_suffix(base, "/") {
        cat2(base, p)
    } else {
        cat3(base, "/", p)
    }
}

/// Law: resolving an absolute path twice, against whatever directories, changes
/// nothing.
pub proof fn law_absolute_path_stays(a: Seq<char>, b: Seq<char>, p: Seq<char>)
    requires
        text::starts_with(p, "/"@),
    ensures
        resolved(a, p) == p,
        resolved(b, resolved(a, p)) == resolved(a, p),
{
}

// ---------------------------------------------------------------------------
// Scalars
// ---------------------------------------------------------------------------

pub open spec fn text_or(n: NodeV, default: Seq<char>) -> Seq<char> {
    match n.text() {
        Some(s) => s,
        None => default,
    }
}

pub fn str_or(n: &Node, default: &str) -> (out: String)
    ensures
        out@ == text_or(n@, default@),
{
    match n.as_str() {
        Some(s) => copy(s),
        None => copy(default),
    }
}

/// The number of a node, or the default, but at least `least`.
pub open spec fn number_or(n: NodeV, default: int, least: int) -> int {
    let x = match n.number() {
        Some(i) => i as int,
        None => default,
    };
    if x < least {
        least
    } else {
        x
    }
}

pub fn int_or(n: &Node, default: i64, least: i64) -> (out: i64)
    ensures
        out == number_or(n@, default as int, least as int),
        out >= least,
{
    let x = match n.as_i64() {
        Some(i) => i,
        None => default,
    };
    if x < least {
        least
    } else {
        x
    }
}

/// The part of a number that a machine word holds.
pub open spec fn word(n: int) -> int {
    n % (usize::MAX + 1)
}

pub fn to_word(n: i64) -> (out: usize)
    requires
        n >= 0,
    ensures
        out == word(n as int),
{
    (n as u128 % (usize::MAX as u128 + 1)) as usize
}

/// A scalar as text: text as it stands, numbers and booleans by their numeral
/// or name, anything else empty.
pub open spec fn scalar(n: NodeV) -> Seq<char> {
    match n {
        NodeV::String(s) => s,
        NodeV::Integer(i) => text::dec_int(i as int),
        NodeV::Real(s) => match float::yaml_reading(s) {
            Some(f) => f.text,
            None => ""@,
        },
        NodeV::Boolean(b) => if b {
            "true"@
        } else {
            "false"@
        },
        _ => ""@,
    }
}

/// Read a YAML scalar as a string, tolerating unquoted numbers/bools.
/// `password: 123456` parses as an integer in YAML; this keeps the value
/// instead of silently dropping it.
pub fn scalar_str(y: &Node) -> (out: String)
    ensures
        out@ == scalar(y@),
{
    match y {
        Node::String(s) => s.clone(),
        Node::Integer(i) => int_text(*i),
        Node::Real(s) => match yaml_real(s.as_str()) {
            Some(f) => f.text,
            None => copy(""),
        },
        Node::Boolean(b) => if *b {
            copy("true")
        } else {
            copy("false")
        },
        _ => copy(""),
    }
}

// ---------------------------------------------------------------------------
// Connections
// ---------------------------------------------------------------------------

/// One entry of the connection file.
#[derive(Debug)]
pub struct ConnectionSettings {
    pub name: String,
    pub conn_type: String,
    pub host: String,
    pub port: u16,
    pub database: String,
    pub schema: Option<String>,
    pub username: String,
    pub password: String,
    pub params: StrMap<String>,
    pub max_pool_size: u32,
    pub connect_timeout_secs: u64,
}

impl View for ConnectionSettings {
    type V = ConnectionV;

    open spec fn view(&self) -> ConnectionV {
        ConnectionV {
            name: self.name@,
            conn_type: self.conn_type@,
            host: self.host@,
            port: self.port,
            database: self.database@,
            schema: views::opt(self.schema),
            username: self.username@,
            password: self.password@,
            params: self.params@,
            max_pool_size: self.max_pool_size,
            connect_timeout_secs: self.connect_timeout_secs,
        }
    }
}

impl ConnectionSettings {
    pub fn to_connection_config(&self) -> (out: ConnectionConfig)
        ensures
            out@ == self@,
    {
        ConnectionConfig {
            name: self.name.clone(),
            conn_type: self.conn_type.clone(),
            host: self.host.clone(),
            port: self.port,
            database: self.database.clone(),
            schema: copy_opt(&self.schema),
            username: self.username.clone(),
            password: self.password.clone(),
            params: self.params.clone(),
            max_pool_size: self.max_pool_size,
            connect_timeout_secs: self.connect_timeout_secs,
        }
    }
}

impl Clone for ConnectionSettings {
    fn clone(&self) -> (out: ConnectionSettings)
        ensures
            out@ == self@,
    {
        ConnectionSettings {
            name: self.name.clone(),
            conn_type: self.conn_type.clone(),
            host: self.host.clone(),
            port: self.port,
            database: self.database.clone(),
            schema: copy_opt(&self.schema),
            username: self.username.clone(),
            password: self.password.clone(),
            params: self.params.clone(),
            max_pool_size: self.max_pool_size,
            connect_timeout_secs: self.connect_timeout_secs,
        }
    }
}

impl Duplicate for ConnectionSettings {
    fn duplicate(&self) -> (out: ConnectionSettings) {
        self.clone()
    }
}

/// Driver options: every entry, as text, with an empty text for what is none.
pub open spec fn options(h: Seq<(NodeV, NodeV)>) -> Seq<(Seq<char>, Seq<char>)>
    decreases h.len(),
{
    if h.len() == 0 {
        Seq::empty()
    } else {
        strmap::put(options(h.drop_last()), text_or(h.last().0, ""@), text_or(h.last().1, ""@))
    }
}

/// The connection that an entry describes, as it is written, or what is wrong
/// with it.
pub open spec fn described(key: NodeV, v: NodeV) -> Result<ConnectionV, AppErrorV> {
    match key.text() {
        None => Err(AppErrorV::Config("connection name must be a string"@)),
        Some(name) => match v.field("type"@).text() {
            None => Err(AppErrorV::Config("connection '"@ + name + "': missing type"@)),
            Some(conn_type) => {
                let host = text_or(v.field("host"@), "localhost"@);
                if host == ""@ {
                    Err(AppErrorV::Config("connection '"@ + name + "': missing host"@))
                } else {
                    Ok(
                        ConnectionV {
                            name,
                            conn_type,
                            host,
                            port: (number_or(v.field("port"@), 0, 1) % 0x1_0000) as u16,
                            database: text_or(v.field("database"@), ""@),
                            schema: v.field("schema"@).text(),
                            username: text_or(v.field("username"@), ""@),
                            password: scalar(v.field("password"@)),
                            params: match v.field("params"@).entries() {
                                Some(h) => options(h),
                                None => Seq::empty(),
                            },
                            max_pool_size: (number_or(v.field("max_pool_size"@), 4, 1) % 0x1_0000_0000) as u32,
                            connect_timeout_secs: number_or(v.field("connect_timeout_secs"@), 15, 1) as u64,
                        },
                    )
                }
            },
        },
    }
}

fn read_options(v: &Node) -> (out: StrMap<String>)
    ensures
        out@ == (match v@.entries() {
            Some(h) => options(h),
            None => Seq::empty(),
        }),
{
    let mut out: StrMap<String> = StrMap::new();
    if let Some(h) = v.as_hash() {
        let ghost all = yaml::entries_view(h@);
        let mut i: usize = 0;
        assert(all.take(0) =~= Seq::empty());
        while i < h.len()
            invariant
                i <= h.len(),
                all == yaml::entries_view(h@),
                out@ == options(all.take(i as int)),
            decreases h.len() - i,
        {
            assert(all.take(i + 1).drop_last() =~= all.take(i as int));
            assert(all.take(i + 1).last() == (h@[i as int].0@, h@[i as int].1@));
            out.insert(str_or(&h[i].0, ""), str_or(&h[i].1, ""));
            i += 1;
        }
        assert(all.take(i as int) =~= all);
    }
    out
}

fn read_connection(key: &Node, v: &Node) -> (out: AppResult<ConnectionSettings>)
    ensures
        views::res(out) == described(key@, v@),
{
    let name = match key.as_str() {
        Some(n) => copy(n),
        None => {
            return Err(AppError::Config(copy("connection name must be a string")));
        },
    };
    let conn_type = match v.index("type").as_str() {
        Some(t) => copy(t),
        None => {
            return Err(AppError::Config(cat3("connection '", name.as_str(), "': missing type")));
        },
    };
    let host = str_or(v.index("host"), "localhost");
    if text::same(host.as_str(), "") {
        return Err(AppError::Config(cat3("connection '", name.as_str(), "': missing host")));
    }
    let schema = match v.index("schema").as_str() {
        Some(s) => Some(copy(s)),
        None => None,
    };
    Ok(
        ConnectionSettings {
            name,
            conn_type,
            host,
            port: (int_or(v.index("port"), 0, 1) % 0x1_0000) as u16,
            database: str_or(v.index("database"), ""),
            schema,
            username: str_or(v.index("username"), ""),
            password: scalar_str(v.index("password")),
            params: read_options(v.index("params")),
            max_pool_size: (int_or(v.index("max_pool_size"), 4, 1) % 0x1_0000_0000) as u32,
            connect_timeout_secs: int_or(v.index("connect_timeout_secs"), 15, 1) as u64,
        },
    )
}

// ---------------------------------------------------------------------------
// Secrets
// ---------------------------------------------------------------------------

/// Driver options with the environment filled in.
pub open spec fn expanded_params(params: Seq<(Seq<char>, Seq<char>)>, env: tokens::Env) -> Seq<(Seq<char>, Seq<char>)> {
    params.map_values(|e: (Seq<char>, Seq<char>)| (e.0, tokens::expanded(e.1, env)))
}

/// A connection's settings with the environment filled in, in the password and
/// in the driver options.
pub open spec fn expanded_settings(c: ConnectionV, env: tokens::Env) -> ConnectionV {
    ConnectionV {
        password: tokens::expanded(c.password, env),
        params: expanded_params(c.params, env),
        ..c
    }
}

fn expand_params(params: &StrMap<String>, env: &StrMap<String>) -> (out: StrMap<String>)
    ensures
        out@ == expanded_params(params@, env@),
{
    let ghost all = params@;
    let ghost want = expanded_params(all, env@);
    let mut out: StrMap<String> = StrMap::new();
    let mut i: usize = 0;
    assert(want.take(0) =~= Seq::empty());
    while i < params.len()
        invariant
            i <= params@.len(),
            all == params@,
            want == expanded_params(all, env@),
            out@ == want.take(i as int),
            strmap::ordered(out@),
        decreases params@.len() - i,
    {
        let k = copy(params.key_at(i));
        let v = expand_env(params.value_at(i).as_str(), env);
        proof {
            assert(want[i as int] == (k@, v@));
            assert forall|j: int| 0 <= j < out@.len() implies text::less(#[trigger] out@[j].0, k@) by {
                assert(out@[j].0 == all[j].0);
                assert(text::less(all[j].0, all[i as int].0));
            }
            strmap::lemma_put_last(out@, k@, v@);
            assert(want.take(i + 1) =~= want.take(i as int).push(want[i as int]));
        }
        out.insert(k, v);
        i += 1;
    }
    assert(want.take(i as int) =~= want);
    out
}

/// The settings that a connection is opened with.
pub fn expand_settings(settings: &ConnectionSettings, env: &StrMap<String>) -> (out: ConnectionSettings)
    ensures
        out@ == expanded_settings(settings@, env@),
{
    let mut s = settings.clone();
    s.password = expand_env(settings.password.as_str(), env);
    s.params = expand_params(&settings.params, env);
    s
}

// ---------------------------------------------------------------------------
// The connections of a file
// ---------------------------------------------------------------------------

/// The connection that an entry describes, with the environment filled in, or
/// what is wrong with it.
pub open spec fn connection(key: NodeV, v: NodeV, env: tokens::Env) -> Result<ConnectionV, AppErrorV> {
    match described(key, v) {
        Ok(c) => Ok(expanded_settings(c, env)),
        Err(e) => Err(e),
    }
}

/// The connections by name.
pub type Connections = Seq<(Seq<char>, ConnectionV)>;

/// The connections after the entries of a file were added one after the other,
/// up to the first faulty one, and what was wrong with that.
pub open spec fn merged(conns: Connections, h: Seq<(NodeV, NodeV)>, env: tokens::Env) -> (Connections, Option<AppErrorV>)
    decreases h.len(),
{
    if h.len() == 0 {
        (conns, None)
    } else {
        let (c, e) = merged(conns, h.drop_last(), env);
        if e is Some {
            (c, e)
        } else {
            match connection(h.last().0, h.last().1, env) {
                Ok(s) => (strmap::put(c, s.name, s), None),
                Err(x) => (c, Some(x)),
            }
        }
    }
}

proof fn lemma_merged_stops(conns: Connections, h: Seq<(NodeV, NodeV)>, env: tokens::Env, n: int)
    requires
        0 <= n <= h.len(),
        merged(conns, h.take(n), env).1 is Some,
    ensures
        merged(conns, h, env) == merged(conns, h.take(n), env),
    decreases h.len(),
{
    if n < h.len() {
        assert(h.drop_last().take(n) =~= h.take(n));
        lemma_merged_stops(conns, h.drop_last(), env, n);
    } else {
        assert(h.take(n) =~= h);
    }
}

// ---------------------------------------------------------------------------
// The main configuration
// ---------------------------------------------------------------------------

/// Top-level configuration merged from `config.yaml` + `datasource.yaml`.
#[derive(Debug)]
pub struct AppConfig {
    /// datasource type -> plugin file, e.g. `mysql -> plugins/datasource/mysql.so`.
    pub datasource_plugins: StrMap<String>,
    /// additional ETL plugin cdylibs.
    pub etl_plugin_paths: Vec<String>,
    /// job file paths (relative to the config file directory).
    pub job_files: Vec<String>,
    pub log_level: String,
    pub log_file: Option<String>,
    /// max concurrently running jobs.
    pub workers: usize,
    /// per-pass retry count.
    pub retry: u32,
    /// datasource.yaml location (relative to config dir).
    pub datasource_file: String,
    /// state directory (relative to config dir).
    pub state_dir: String,
    /// source paging size.
    pub page_size: u64,
    /// Named connections from `datasource.yaml`, name -> settings.
    pub connections: StrMap<ConnectionSettings>,
    /// Directory containing the main config file (used to resolve paths).
    pub base_dir: String,
}

/// What an [`AppConfig`] says.
#[verifier::ext_equal]
pub struct AppConfigV {
    pub datasource_plugins: Seq<(Seq<char>, Seq<char>)>,
    pub etl_plugin_paths: Seq<Seq<char>>,
    pub job_files: Seq<Seq<char>>,
    pub log_level: Seq<char>,
    pub log_file: Option<Seq<char>>,
    pub workers: int,
    pub retry: int,
    pub datasource_file: Seq<char>,
    pub state_dir: Seq<char>,
    pub page_size: int,
    pub connections: Connections,
    pub base_dir: Seq<char>,
}

impl View for AppConfig {
    type V = AppConfigV;

    open spec fn view(&self) -> AppConfigV {
        AppConfigV {
            datasource_plugins: self.datasource_plugins@,
            etl_plugin_paths: text::views(self.etl_plugin_paths@),
            job_files: text::views(self.job_files@),
            log_level: self.log_level@,
            log_file: views::opt(self.log_file),
            workers: self.workers as int,
            retry: self.retry as int,
            datasource_file: self.datasource_file@,
            state_dir: self.state_dir@,
            page_size: self.page_size as int,
            connections: self.connections@,
            base_dir: self.base_dir@,
        }
    }
}

/// The plugin files by type; entries without a type or without a file are left out.
pub open spec fn plugin_files(h: Seq<(NodeV, NodeV)>, base: Seq<char>) -> Seq<(Seq<char>, Seq<char>)>
    decreases h.len(),
{
    if h.len() == 0 {
        Seq::empty()
    } else {
        let key = text_or(h.last().0, ""@);
        let file = text_or(h.last().1, ""@);
        let rest = plugin_files(h.drop_last(), base);
        if key != ""@ && file != ""@ {
            strmap::put(rest, key, resolved(base, file))
        } else {
            rest
        }
    }
}

/// The paths of a list, resolved; items that are no text are left out.
pub open spec fn listed_files(v: Seq<NodeV>, base: Seq<char>) -> Seq<Seq<char>>
    decreases v.len(),
{
    if v.len() == 0 {
        Seq::empty()
    } else {
        match v.last().text() {
            Some(s) => listed_files(v.drop_last(), base).push(resolved(base, s)),
            None => listed_files(v.drop_last(), base),
        }
    }
}

pub open spec fn files(n: NodeV, base: Seq<char>) -> Seq<Seq<char>> {
    match n.items() {
        Some(v) => listed_files(v, base),
        None => Seq::empty(),
    }
}

/// The configuration that a document describes.
pub open spec fn configuration(n: NodeV, base: Seq<char>) -> AppConfigV {
    AppConfigV {
        datasource_plugins: match n.field("datasource"@).entries() {
            Some(h) => plugin_files(h, base),
            None => Seq::empty(),
        },
        etl_plugin_paths: files(n.field("etl"@), base),
        job_files: files(n.field("jobs"@), base),
        log_level: text_or(n.field("logging"@).field("level"@), "info"@),
        log_file: match n.field("logging"@).field("file"@).text() {
            Some(s) => Some(resolved(base, s)),
            None => None,
        },
        workers: word(number_or(n.field("runtime"@).field("workers"@), 4, 1)),
        retry: number_or(n.field("runtime"@).field("retry"@), 3, 0) % 0x1_0000_0000,
        datasource_file: text_or(n.field("datasource_file"@), "datasource.yaml"@),
        state_dir: text_or(n.field("state_dir"@), "state"@),
        page_size: number_or(n.field("runtime"@).field("page_size"@), 500, 1),
        connections: Seq::empty(),
        base_dir: base,
    }
}

fn read_plugin_files(n: &Node, base: &str) -> (out: StrMap<String>)
    ensures
        out@ == (match n@.entries() {
            Some(h) => plugin_files(h, base@),
            None => Seq::empty(),
        }),
{
    let mut out: StrMap<String> = StrMap::new();
    if let Some(h) = n.as_hash() {
        let ghost all = yaml::entries_view(h@);
        let mut i: usize = 0;
        assert(all.take(0) =~= Seq::empty());
        while i < h.len()
            invariant
                i <= h.len(),
                all == yaml::entries_view(h@),
                out@ == plugin_files(all.take(i as int), base@),
            decreases h.len() - i,
        {
            assert(all.take(i + 1).drop_last() =~= all.take(i as int));
            assert(all.take(i + 1).last() == (h@[i as int].0@, h@[i as int].1@));
            let key = str_or(&h[i].0, "");
            let file = str_or(&h[i].1, "");
            if !text::same(key.as_str(), "") && !text::same(file.as_str(), "") {
                out.insert(key, resolve_relative(base, file.as_str()));
            }
            i += 1;
        }
        assert(all.take(i as int) =~= all);
    }
    out
}

fn read_files(n: &Node, base: &str) -> (out: Vec<String>)
    ensures
        text::views(out@) == files(n@, base@),
{
    let mut out: Vec<String> = Vec::new();
    assert(text::views(out@) =~= Seq::<Seq<char>>::empty());
    if let Some(v) = n.as_vec() {
        let ghost all = views::list(v@);
        let mut i: usize = 0;
        assert(all.take(0) =~= Seq::empty());
        while i < v.len()
            invariant
                i <= v.len(),
                all == views::list(v@),
                text::views(out@) == listed_files(all.take(i as int), base@),
            decreases v.len() - i,
        {
            assert(all.take(i + 1).drop_last() =~= all.take(i as int));
            assert(all.take(i + 1).last() == v@[i as int]@);
            if let Some(s) = v[i].as_str() {
                let p = resolve_relative(base, s);
                proof {
                    views::lemma_list_push(out@, p);
                }
                out.push(p);
            }
            i += 1;
        }
        assert(all.take(i as int) =~= all);
    }
    out
}

/// The error of a file that cannot be read.
pub fn unreadable(path: &str, cause: &str) -> (out: AppError)
    ensures
        out@ == AppErrorV::Config("cannot read "@ + path@ + ": "@ + cause@),
{
    AppError::Config(cat4("cannot read ", path, ": ", cause))
}

/// What is wrong with a text that is no YAML.
pub open spec fn not_yaml(path: Seq<char>, cause: Seq<char>) -> AppErrorV {
    AppErrorV::Config("invalid yaml in "@ + path + ": "@ + cause)
}

/// The first document of a text, or what is wrong with it: it is no YAML, or it
/// holds no document.
pub open spec fn first_document(path: Seq<char>, s: Seq<char>) -> Result<NodeV, AppErrorV> {
    match yaml::yaml_documents(s) {
        Err(e) => Err(not_yaml(path, e)),
        Ok(docs) => if docs.len() == 0 {
            Err(AppErrorV::Config(path + ": no document"@))
        } else {
            Ok(docs[0])
        },
    }
}

pub fn read_document(path: &str, s: &str) -> (out: AppResult<Node>)
    ensures
        views::res(out) == first_document(path@, s@),
{
    match load_documents(s) {
        Err(e) => Err(AppError::Config(cat4("invalid yaml in ", path, ": ", e.as_str()))),
        Ok(docs) => first_of(path, docs),
    }
}

/// What is made of the documents that a text holds: the first one counts.
pub fn first_of(path: &str, docs: Vec<Node>) -> (out: AppResult<Node>)
    ensures
        views::res(out) == (if docs@.len() == 0 {
            Err(AppErrorV::Config(path@ + ": no document"@))
        } else {
            Ok(docs@[0]@)
        }),
{
    if docs.len() == 0 {
        return Err(AppError::Config(cat2(path, ": no document")));
    }
    let mut docs = docs;
    Ok(docs.remove(0))
}

/// The configuration after the connections of a document were added to it, or
/// what is wrong with the document.
pub open spec fn connected(c: AppConfigV, path: Seq<char>, n: NodeV, env: tokens::Env) -> Result<AppConfigV, AppErrorV> {
    match n.field("connections"@).entries() {
        None => Err(AppErrorV::Config(path + ": missing 'connections' section"@)),
        Some(h) => match merged(c.connections, h, env) {
            (conns, None) => Ok(AppConfigV { connections: conns, ..c }),
            (_, Some(e)) => Err(e),
        },
    }
}

/// The whole configuration: what the main document describes, with the
/// connections of the datasource document.
pub open spec fn whole(main: NodeV, base: Seq<char>, datasources: NodeV, env: tokens::Env) -> Result<AppConfigV, AppErrorV> {
    let c = configuration(main, base);
    connected(c, resolved(base, c.datasource_file), datasources, env)
}

impl AppConfig {
    /// The configuration that a document describes; all paths are resolved
    /// relative to `base_dir`.
    pub fn from_document(cfg: &Node, base_dir: &str) -> (out: AppConfig)
        ensures
            out@ == configuration(cfg@, base_dir@),
    {
        let logging = cfg.index("logging");
        let runtime = cfg.index("runtime");
        let log_file = match logging.index("file").as_str() {
            Some(s) => Some(resolve_relative(base_dir, s)),
            None => None,
        };
        AppConfig {
            datasource_plugins: read_plugin_files(cfg.index("datasource"), base_dir),
            etl_plugin_paths: read_files(cfg.index("etl"), base_dir),
            job_files: read_files(cfg.index("jobs"), base_dir),
            log_level: str_or(logging.index("level"), "info"),
            log_file,
            workers: to_word(int_or(runtime.index("workers"), 4, 1)),
            retry: (int_or(runtime.index("retry"), 3, 0) % 0x1_0000_0000) as u32,
            datasource_file: str_or(cfg.index("datasource_file"), "datasource.yaml"),
            state_dir: str_or(cfg.index("state_dir"), "state"),
            page_size: int_or(runtime.index("page_size"), 500, 1) as u64,
            connections: StrMap::new(),
            base_dir: copy(base_dir),
        }
    }

    /// The main configuration alone, from the text of its file: it says where
    /// the connections are to be found.
    pub fn load_main(config_path: &str, base_dir: &str, text: &str) -> (out: AppResult<AppConfig>)
        ensures
            views::res(out) == (match first_document(config_path@, text@) {
                Err(e) => Err(e),
                Ok(n) => Ok(configuration(n, base_dir@)),
            }),
    {
        match read_document(config_path, text) {
            Err(e) => Err(e),
            Ok(n) => Ok(AppConfig::from_document(&n, base_dir)),
        }
    }

    /// Load everything: main config + datasource connections, from the texts of
    /// their files. All paths are resolved relative to `base_dir`.
    pub fn load(
        config_path: &str,
        base_dir: &str,
        text: &str,
        datasource_text: &str,
        env: &StrMap<String>,
    ) -> (out: AppResult<AppConfig>)
        ensures
            views::res(out) == (match first_document(config_path@, text@) {
                Err(e) => Err(e),
                Ok(n) => match first_document(
                    resolved(base_dir@, configuration(n, base_dir@).datasource_file),
                    datasource_text@,
                ) {
                    Err(e) => Err(e),
                    Ok(d) => whole(n, base_dir@, d, env@),
                },
            }),
    {
        let n = match read_document(config_path, text) {
            Err(e) => {
                return Err(e);
            },
            Ok(n) => n,
        };
        let mut out = AppConfig::from_document(&n, base_dir);
        let file = out.datasource_file.clone();
        match out.load_datasources(file.as_str(), datasource_text, env) {
            Err(e) => Err(e),
            Ok(_) => Ok(out),
        }
    }

    /// The whole configuration, from the two documents.
    pub fn from_documents(main: &Node, base_dir: &str, datasources: &Node, env: &StrMap<String>) -> (out: AppResult<AppConfig>)
        ensures
            views::res(out) == whole(main@, base_dir@, datasources@, env@),
    {
        let mut out = AppConfig::from_document(main, base_dir);
        let path = resolve_relative(base_dir, out.datasource_file.as_str());
        match out.add_connections(path.as_str(), datasources, env) {
            Err(e) => Err(e),
            Ok(_) => Ok(out),
        }
    }

    /// Add the connections of a document to `self`, with secrets filled in from
    /// the environment.
    pub fn add_connections(&mut self, path: &str, cfg: &Node, env: &StrMap<String>) -> (out: AppResult<()>)
        ensures
            match cfg@.field("connections"@).entries() {
                None => {
                    &&& out matches Err(e) && e@ == AppErrorV::Config(path@ + ": missing 'connections' section"@)
                    &&& final(self)@ == old(self)@
                },
                Some(h) => {
                    &&& final(self)@ == (AppConfigV { connections: merged(old(self)@.connections, h, env@).0, ..old(self)@ })
                    &&& (match out {
                        Ok(_) => None,
                        Err(e) => Some(e@),
                    }) == merged(old(self)@.connections, h, env@).1
                },
            },
    {
        let ghost first = self@;
        let h = match cfg.index("connections").as_hash() {
            Some(h) => h,
            None => {
                return Err(AppError::Config(cat2(path, ": missing 'connections' section")));
            },
        };
        let ghost all = yaml::entries_view(h@);
        let mut i: usize = 0;
        assert(all.take(0) =~= Seq::empty());
        while i < h.len()
            invariant
                i <= h.len(),
                all == yaml::entries_view(h@),
                cfg@.field("connections"@).entries() == Some(all),
                merged(first.connections, all.take(i as int), env@) == (self@.connections, None::<AppErrorV>),
                first == old(self)@,
                self@ == (AppConfigV { connections: self@.connections, ..first }),
            decreases h.len() - i,
        {
            assert(all.take(i + 1).drop_last() =~= all.take(i as int));
            assert(all.take(i + 1).last() == (h@[i as int].0@, h@[i as int].1@));
            match read_connection(&h[i].0, &h[i].1) {
                Ok(s) => {
                    let s = expand_settings(&s, env);
                    self.connections.insert(s.name.clone(), s);
                },
                Err(e) => {
                    proof {
                        lemma_merged_stops(first.connections, all, env@, i + 1);
                    }
                    return Err(e);
                },
            }
            i += 1;
        }
        assert(all.take(i as int) =~= all);
        Ok(())
    }

    /// Merge the connections of `datasource.yaml`, from the text of that file,
    /// into `self`.
    pub fn load_datasources(&mut self, datasource_file: &str, text: &str, env: &StrMap<String>) -> (out: AppResult<()>)
        ensures
            match first_document(resolved(old(self)@.base_dir, datasource_file@), text@) {
                Err(e) => (out matches Err(x) && x@ == e) && final(self)@ == old(self)@,
                Ok(n) => match n.field("connections"@).entries() {
                    None => {
                        &&& out matches Err(e) && e@ == AppErrorV::Config(
                            resolved(old(self)@.base_dir, datasource_file@) + ": missing 'connections' section"@,
                        )
                        &&& final(self)@ == old(self)@
                    },
                    Some(h) => {
                        &&& final(self)@ == (AppConfigV {
                            connections: merged(old(self)@.connections, h, env@).0,
                            ..old(self)@
                        })
                        &&& (match out {
                            Ok(_) => None,
                            Err(e) => Some(e@),
                        }) == merged(old(self)@.connections, h, env@).1
                    },
                },
            },
    {
        let path = resolve_relative(self.base_dir.as_str(), datasource_file);
        match read_document(path.as_str(), text) {
            Err(e) => Err(e),
            Ok(n) => self.add_connections(path.as_str(), &n, env),
        }
    }
}

/// Law: adding connections to those there are keeps every one that the file
/// does not name.
pub proof fn law_other_connections_stay(conns: Connections, h: Seq<(NodeV, NodeV)>, env: tokens::Env, name: Seq<char>)
    requires
        strmap::ordered(conns),
        forall|i: int| 0 <= i < h.len() ==> (#[trigger] h[i]).0 != NodeV::String(name),
    ensures
        strmap::ordered(merged(conns, h, env).0),
        strmap::at(merged(conns, h, env).0, name) == strmap::at(conns, name),
    decreases h.len(),
{
    if h.len() > 0 {
        let t = h.drop_last();
        assert forall|i: int| 0 <= i < t.len() implies (#[trigger] t[i]).0 != NodeV::String(name) by {
            assert(t[i] == h[i]);
        }
        law_other_connections_stay(conns, t, env, name);
        let c = merged(conns, t, env).0;
        assert(h[h.len() - 1].0 != NodeV::String(name));
        if let Ok(s) = connection(h.last().0, h.last().1, env) {
            strmap::lemma_put(c, s.name, s);
            strmap::lemma_dict(strmap::put(c, s.name, s), name);
            strmap::lemma_dict(c, name);
        }
    }
}

/// A number that fits a machine word is kept.
pub proof fn lemma_word_fits(n: int)
    ensures
        0 <= n <= usize::MAX ==> word(n) == n,
{
    if 0 <= n <= usize::MAX {
        vstd::arithmetic::div_mod::lemma_small_mod(n as nat, (usize::MAX + 1) as nat);
    }
}

// ---------------------------------------------------------------------------
// What a document says
// ---------------------------------------------------------------------------

/// Law: a relative path goes below the base, with one separator between them; an
/// empty base adds nothing.
pub proof fn law_relative_path_goes_below_the_base(base: Seq<char>, p: Seq<char>)
    requires
        !text::starts_with(p, "/"@),
    ensures
        base.len() == 0 ==> resolved(base, p) == p,
        base.len() > 0 ==> resolved(base + "/"@, p) == base + "/"@ + p,
        base.len() > 0 && !text::ends_with(base, "/"@) ==> resolved(base, p) == resolved(base + "/"@, p),
{
    text::law_parts_are_found(base, "/"@, Seq::empty());
    if base.len() == 0 {
        assert(base + p =~= p);
    }
}

/// Law: a number in a document counts as it is written, but is never below its
/// least value; without one the default counts.
pub proof fn law_numbers_count_as_written(n: NodeV, default: int, least: int)
    requires
        default >= least,
    ensures
        n matches NodeV::Integer(i) ==> i >= least ==> number_or(n, default, least) == i,
        n matches NodeV::Integer(i) ==> i < least ==> number_or(n, default, least) == least,
        !(n is Integer) ==> number_or(n, default, least) == default,
{
}

/// Law: a password may be written as a text, a whole number or a truth value, and is
/// then its text.
pub proof fn law_scalars_are_their_texts(n: NodeV)
    ensures
        n matches NodeV::String(s) ==> scalar(n) == s,
        n matches NodeV::Integer(i) ==> text::read_int(scalar(n)) == Ok::<int, text::IntFault>(i as int),
        n matches NodeV::Boolean(b) ==> scalar(n) == (if b {
            "true"@
        } else {
            "false"@
        }),
        n is Array || n is Hash || n is Null || n is BadValue || n is Alias ==> scalar(n).len() == 0,
{
    reveal_strlit("");
    if let NodeV::Integer(i) = n {
        reading::law_written_number_reads_back(i as int);
    }
}

/// Law: a connection is what its entry says: its name is the key, its kind, host,
/// database, user and password are those written there; the port, the size of the
/// pool and the time to connect too, where they are whole numbers in range. What is
/// not written has its default.
pub proof fn law_connection_is_as_described(key: NodeV, v: NodeV, name: Seq<char>, kind: Seq<char>)
    requires
        key == NodeV::String(name),
        v.field("type"@) == NodeV::String(kind),
        v.field("host"@) != NodeV::String(""@),
    ensures
        described(key, v) is Ok,
        ({
            let c = described(key, v)->Ok_0;
            &&& c.name == name && c.conn_type == kind
            &&& v.field("host"@) matches NodeV::String(s) ==> c.host == s
            &&& !(v.field("host"@) is String) ==> c.host == "localhost"@
            &&& v.field("port"@) matches NodeV::Integer(i) ==> 1 <= i <= 65535 ==> c.port == i
            &&& v.field("database"@) matches NodeV::String(s) ==> c.database == s
            &&& !(v.field("database"@) is String) ==> c.database == ""@
            &&& v.field("schema"@) matches NodeV::String(s) ==> c.schema == Some(s)
            &&& !(v.field("schema"@) is String) ==> c.schema is None
            &&& v.field("username"@) matches NodeV::String(s) ==> c.username == s
            &&& !(v.field("username"@) is String) ==> c.username == ""@
            &&& c.password == scalar(v.field("password"@))
            &&& v.field("max_pool_size"@) matches NodeV::Integer(i) ==> 1 <= i <= u32::MAX ==> c.max_pool_size == i
            &&& !(v.field("max_pool_size"@) is Integer) ==> c.max_pool_size == 4
            &&& v.field("connect_timeout_secs"@) matches NodeV::Integer(i) ==> i >= 1 ==> c.connect_timeout_secs == i
            &&& !(v.field("connect_timeout_secs"@) is Integer) ==> c.connect_timeout_secs == 15
            &&& !(v.field("params"@) is Hash) ==> c.params.len() == 0
        }),
{
    reveal_strlit("");
    reveal_strlit("localhost");
    assert("localhost"@.len() == 9);
    if let NodeV::Integer(i) = v.field("port"@) {
        if 1 <= i <= 65535 {
            vstd::arithmetic::div_mod::lemma_small_mod(i as nat, 0x1_0000);
        }
    }
    if let NodeV::Integer(i) = v.field("max_pool_size"@) {
        if 1 <= i <= u32::MAX {
            vstd::arithmetic::div_mod::lemma_small_mod(i as nat, 0x1_0000_0000);
        }
    }
}

/// Law: a connection without a name or a kind that is a text, or with an empty
/// host, is refused.
pub proof fn law_connection_needs_name_kind_and_host(key: NodeV, v: NodeV)
    ensures
        described(key, v) is Ok <==> key is String && v.field("type"@) is String && v.field("host"@) != NodeV::String(""@),
        described(key, v) matches Err(e) ==> e is Config,
{
    reveal_strlit("");
    reveal_strlit("localhost");
    assert("localhost"@.len() == 9);
}

/// Law: the parameters of a connection are its entries, each under its name; of two
/// under one name the last one counts.
pub proof fn law_parameters_are_the_entries(h: Seq<(NodeV, NodeV)>, k: Seq<char>, v: Seq<char>, c: Seq<char>)
    ensures
        strmap::ordered(options(h)),
        strmap::at(options(h.push((NodeV::String(k), NodeV::String(v)))), c) == (if c == k {
            Some(v)
        } else {
            strmap::at(options(h), c)
        }),
        options(Seq::empty()).len() == 0,
{
    lemma_options_ordered(h);
    assert(h.push((NodeV::String(k), NodeV::String(v))).drop_last() =~= h);
    strmap::lemma_put(options(h), k, v);
    strmap::lemma_dict(options(h), c);
    strmap::lemma_dict(strmap::put(options(h), k, v), c);
}

proof fn lemma_options_ordered(h: Seq<(NodeV, NodeV)>)
    ensures
        strmap::ordered(options(h)),
    decreases h.len(),
{
    if h.len() > 0 {
        lemma_options_ordered(h.drop_last());
        strmap::lemma_put(options(h.drop_last()), text_or(h.last().0, ""@), text_or(h.last().1, ""@));
    }
}

/// Law: the environment fills in the password and the values of the parameters,
/// and nothing else.
pub proof fn law_environment_fills_in_secrets(c: ConnectionV, env: tokens::Env, i: int)
    ensures
        ({
            let x = expanded_settings(c, env);
            &&& x.password == tokens::expanded(c.password, env)
            &&& x.params.len() == c.params.len()
            &&& 0 <= i < c.params.len() ==> x.params[i].0 == c.params[i].0 && x.params[i].1 == tokens::expanded(
                c.params[i].1,
                env,
            )
            &&& x.name == c.name && x.conn_type == c.conn_type && x.host == c.host && x.port == c.port && x.database
                == c.database && x.schema == c.schema && x.username == c.username && x.max_pool_size == c.max_pool_size
                && x.connect_timeout_secs == c.connect_timeout_secs
        }),
{
}

/// Law: where every listed connection can be read, each stands under its name as
/// it was read; one that cannot be read fails the whole list.
pub proof fn law_listed_connections_are_there(conns: Connections, h: Seq<(NodeV, NodeV)>, env: tokens::Env, i: int)
    requires
        strmap::ordered(conns),
        0 <= i < h.len(),
        forall|j: int, k: int| 0 <= j < k < h.len() ==> (#[trigger] h[j]).0 != (#[trigger] h[k]).0,
    ensures
        merged(conns, h, env).1 is None ==> {
            &&& connection(h[i].0, h[i].1, env) is Ok
            &&& strmap::at(merged(conns, h, env).0, h[i].0.text()->Some_0) == Some(connection(h[i].0, h[i].1, env)->Ok_0)
        },
        (forall|k: int| 0 <= k < h.len() ==> connection((#[trigger] h[k]).0, h[k].1, env) is Ok) ==> merged(conns, h, env).1
            is None,
    decreases h.len(),
{
    let head = h.drop_last();
    let last = h.last();
    let n = h.len() - 1;
    assert(h[n] == last);
    lemma_merged_ordered(conns, head, env);
    assert forall|j: int| 0 <= j < head.len() implies #[trigger] head[j] == h[j] by {}
    if i < n {
        law_listed_connections_are_there(conns, head, env, i);
    } else if n > 0 {
        law_listed_connections_are_there(conns, head, env, 0);
    }
    let c = merged(conns, head, env).0;
    if merged(conns, head, env).1 is None {
        if let Ok(s) = connection(last.0, last.1, env) {
            strmap::lemma_put(c, s.name, s);
            strmap::lemma_dict(strmap::put(c, s.name, s), s.name);
            if i < n {
                let name = h[i].0.text()->Some_0;
                assert(h[i].0 == NodeV::String(name));
                assert(last.0 == NodeV::String(s.name));
                assert(h[i].0 != h[n].0);
                strmap::lemma_dict(c, name);
                strmap::lemma_dict(strmap::put(c, s.name, s), name);
            }
        }
    }
    if forall|k: int| 0 <= k < h.len() ==> connection((#[trigger] h[k]).0, h[k].1, env) is Ok {
        assert(connection(h[n].0, h[n].1, env) is Ok);
    }
}

proof fn lemma_merged_ordered(conns: Connections, h: Seq<(NodeV, NodeV)>, env: tokens::Env)
    requires
        strmap::ordered(conns),
    ensures
        strmap::ordered(merged(conns, h, env).0),
    decreases h.len(),
{
    if h.len() > 0 {
        lemma_merged_ordered(conns, h.drop_last(), env);
        if let Ok(s) = connection(h.last().0, h.last().1, env) {
            strmap::lemma_put(merged(conns, h.drop_last(), env).0, s.name, s);
        }
    }
}

/// Law: files that are listed as texts are all there, in their order, each found
/// from the base.
pub proof fn law_listed_files_are_found_from_the_base(names: Seq<Seq<char>>, base: Seq<char>)
    ensures
        files(NodeV::Array(names.map_values(|s: Seq<char>| NodeV::String(s))), base) == names.map_values(
            |s: Seq<char>| resolved(base, s),
        ),
    decreases names.len(),
{
    let nodes = names.map_values(|s: Seq<char>| NodeV::String(s));
    let paths = names.map_values(|s: Seq<char>| resolved(base, s));
    if names.len() > 0 {
        let head = names.drop_last();
        law_listed_files_are_found_from_the_base(head, base);
        assert(nodes.drop_last() =~= head.map_values(|s: Seq<char>| NodeV::String(s)));
        assert(paths =~= head.map_values(|s: Seq<char>| resolved(base, s)).push(resolved(base, names.last())));
    } else {
        assert(paths =~= Seq::empty());
    }
}

/// Law: a plugin stands under its name with its file, found from the base; an entry
/// without a name or a file counts for nothing.
pub proof fn law_plugins_are_found_from_the_base(
    h: Seq<(NodeV, NodeV)>,
    base: Seq<char>,
    k: Seq<char>,
    f: Seq<char>,
    c: Seq<char>,
)
    ensures
        strmap::ordered(plugin_files(h, base)),
        plugin_files(Seq::empty(), base).len() == 0,
        strmap::at(plugin_files(h.push((NodeV::String(k), NodeV::String(f))), base), c) == (if c == k && k.len() > 0
            && f.len() > 0 {
            Some(resolved(base, f))
        } else {
            strmap::at(plugin_files(h, base), c)
        }),
{
    reveal_strlit("");
    assert(k.len() == 0 ==> k =~= ""@);
    assert(f.len() == 0 ==> f =~= ""@);
    lemma_plugins_ordered(h, base);
    assert(h.push((NodeV::String(k), NodeV::String(f))).drop_last() =~= h);
    let p = plugin_files(h, base);
    let file = resolved(base, f);
    strmap::lemma_put(p, k, file);
    strmap::lemma_dict(p, c);
    strmap::lemma_dict(strmap::put(p, k, file), c);
}

proof fn lemma_plugins_ordered(h: Seq<(NodeV, NodeV)>, base: Seq<char>)
    ensures
        strmap::ordered(plugin_files(h, base)),
    decreases h.len(),
{
    if h.len() > 0 {
        lemma_plugins_ordered(h.drop_last(), base);
        strmap::lemma_put(
            plugin_files(h.drop_last(), base),
            text_or(h.last().0, ""@),
            resolved(base, text_or(h.last().1, ""@)),
        );
    }
}

/// Law: a configuration is what its document says: how many workers, how many
/// retries and how many rows to a page, where they are whole numbers in range, the
/// level of the log, and where the data sources and the state are kept. What is not
/// written has its default.
pub proof fn law_configuration_is_as_written(n: NodeV, base: Seq<char>)
    ensures
        ({
            let c = configuration(n, base);
            let run = n.field("runtime"@);
            let log = n.field("logging"@);
            &&& run.field("workers"@) matches NodeV::Integer(i) ==> 1 <= i <= usize::MAX ==> c.workers == i
            &&& !(run.field("workers"@) is Integer) ==> c.workers == 4
            &&& run.field("retry"@) matches NodeV::Integer(i) ==> 0 <= i <= u32::MAX ==> c.retry == i
            &&& !(run.field("retry"@) is Integer) ==> c.retry == 3
            &&& run.field("page_size"@) matches NodeV::Integer(i) ==> i >= 1 ==> c.page_size == i
            &&& !(run.field("page_size"@) is Integer) ==> c.page_size == 500
            &&& c.workers >= 0 && c.page_size >= 1
            &&& log.field("level"@) matches NodeV::String(s) ==> c.log_level == s
            &&& !(log.field("level"@) is String) ==> c.log_level == "info"@
            &&& log.field("file"@) matches NodeV::String(s) ==> c.log_file == Some(resolved(base, s))
            &&& !(log.field("file"@) is String) ==> c.log_file is None
            &&& n.field("datasource_file"@) matches NodeV::String(s) ==> c.datasource_file == s
            &&& !(n.field("datasource_file"@) is String) ==> c.datasource_file == "datasource.yaml"@
            &&& n.field("state_dir"@) matches NodeV::String(s) ==> c.state_dir == s
            &&& !(n.field("state_dir"@) is String) ==> c.state_dir == "state"@
            &&& c.job_files == files(n.field("jobs"@), base)
            &&& c.etl_plugin_paths == files(n.field("etl"@), base)
            &&& c.base_dir == base
        }),
{
    let run = n.field("runtime"@);
    if let NodeV::Integer(i) = run.field("workers"@) {
        if 1 <= i <= usize::MAX {
            lemma_word_fits(i as int);
        }
    } else {
        lemma_word_fits(4);
    }
    if let NodeV::Integer(i) = run.field("retry"@) {
        if 0 <= i <= u32::MAX {
            vstd::arithmetic::div_mod::lemma_small_mod(i as nat, 0x1_0000_0000);
        }
    }
}

/// Law: the data sources of a configuration are the connections listed in their
/// file; without such a list the configuration is refused, and the rest of it
/// stays as it was.
pub proof fn law_connections_come_from_their_file(c: AppConfigV, path: Seq<char>, n: NodeV, env: tokens::Env)
    ensures
        !(n.field("connections"@) is Hash) ==> (connected(c, path, n, env) matches Err(e) && e is Config),
        n.field("connections"@) matches NodeV::Hash(h) ==> (connected(c, path, n, env) is Ok <==> merged(
            c.connections,
            h,
            env,
        ).1 is None),
        connected(c, path, n, env) matches Ok(x) ==> x.connections == merged(
            c.connections,
            n.field("connections"@)->Hash_0,
            env,
        ).0 && x.workers == c.workers && x.retry == c.retry && x.page_size == c.page_size && x.job_files == c.job_files
            && x.datasource_plugins == c.datasource_plugins && x.etl_plugin_paths == c.etl_plugin_paths && x.state_dir
            == c.state_dir && x.base_dir == c.base_dir && x.log_level == c.log_level && x.log_file == c.log_file
            && x.datasource_file == c.datasource_file,
{
}

/// Law: of several documents in a file the first counts; a file without one is
/// refused, and so is one that cannot be read, by its path and the cause.
pub proof fn law_first_document_counts(path: Seq<char>, s: Seq<char>)
    ensures
        yaml::yaml_documents(s) matches Ok(docs) ==> (docs.len() > 0 ==> first_document(path, s) == Ok::<NodeV, AppErrorV>(
            docs[0],
        )),
        yaml::yaml_documents(s) matches Ok(docs) ==> (docs.len() == 0 ==> (first_document(path, s) matches Err(
            AppErrorV::Config(w),
        ) && text::starts_with(w, path))),
        yaml::yaml_documents(s) matches Err(e) ==> (first_document(path, s) matches Err(AppErrorV::Config(w))
            && text::ends_with(w, e) && text::contains(w, path)),
{
    let none = Seq::<char>::empty();
    text::law_parts_are_found(none, path, ": no document"@);
    if let Err(e) = yaml::yaml_documents(s) {
        let a = "invalid yaml in "@;
        reading::lemma_regroup(a + path, ": "@, e);
        text::law_parts_are_found(a, path, ": "@ + e);
        text::law_parts_are_found(a + path + ": "@, e, none);
    }
}

/// Law: a whole configuration is that of its main document with the connections of
/// the other one; where those are not listed, the file they were sought in is named,
/// as found from the base.
pub proof fn law_whole_configuration_is_of_both_documents(
    main: NodeV,
    base: Seq<char>,
    datasources: NodeV,
    env: tokens::Env,
)
    ensures
        !(datasources.field("connections"@) is Hash) ==> (whole(main, base, datasources, env) matches Err(AppErrorV::Config(w))
            && text::starts_with(w, resolved(base, configuration(main, base).datasource_file))),
        whole(main, base, datasources, env) matches Ok(c) ==> {
            let m = configuration(main, base);
            &&& datasources.field("connections"@) is Hash
            &&& c.connections == merged(Seq::empty(), datasources.field("connections"@)->Hash_0, env).0
            &&& c.workers == m.workers && c.retry == m.retry && c.page_size == m.page_size && c.job_files == m.job_files
            &&& c.datasource_plugins == m.datasource_plugins && c.etl_plugin_paths == m.etl_plugin_paths
            &&& c.state_dir == m.state_dir && c.base_dir == base && c.log_level == m.log_level && c.log_file == m.log_file
        },
{
    let p = resolved(base, configuration(main, base).datasource_file);
    text::law_parts_are_found(Seq::empty(), p, ": missing 'connections' section"@);
}

} // verus!

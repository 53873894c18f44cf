//! Plugin files, plugin registries and what crosses the plugin boundary.

use vstd::prelude::*;

use crate::config;
use crate::config::resolve_relative;
use crate::connections::Slot;
use crate::error::{DatasourceError, DatasourceErrorV, EtlError, EtlErrorV};
use crate::json;
use crate::json::{read_names, write_names, Json};
use crate::reading;
use crate::strmap;
use crate::strmap::StrMap;
use crate::text;
use crate::text::{
    cat2, cat3, cat4, cat5, copy, debug_text, dec_text, has_prefix, has_suffix, joined, same, without_prefix,
};
use crate::views;

verus! {

/// Version of the datasource plugin interface.
pub const ABI_VERSION: u32 = 1;

/// Version of the ETL plugin interface.
pub const ETL_ABI_VERSION: u32 = 2;

/// What a plugin call returns on success.
pub const C_OK: i32 = 0;

// ---------------------------------------------------------------------------
// Files
// ---------------------------------------------------------------------------

/// The file names that a directory scan takes for datasource plugins.
pub open spec fn plugin_name(name: Seq<char>) -> bool {
    (text::starts_with(name, "lib"@) && text::ends_with(name, ".so"@)) || text::ends_with(name, ".dylib"@)
        || text::ends_with(name, ".dll"@)
}

pub fn is_plugin_file(name: &str) -> (out: bool)
    ensures
        out == plugin_name(name@),
{
    (has_prefix(name, "lib") && has_suffix(name, ".so")) || has_suffix(name, ".dylib") || has_suffix(name, ".dll")
}

/// The file names that a directory scan takes for ETL plugins.
pub open spec fn etl_plugin_name(name: Seq<char>) -> bool {
    text::starts_with(name, "lib"@) && (text::ends_with(name, ".so"@) || text::ends_with(name, ".dylib"@)
        || text::ends_with(name, ".dll"@))
}

pub fn is_etl_plugin_file(name: &str) -> (out: bool)
    ensures
        out == etl_plugin_name(name@),
{
    has_prefix(name, "lib") && (has_suffix(name, ".so") || has_suffix(name, ".dylib") || has_suffix(name, ".dll"))
}

/// Where a datasource plugin may lie that is not where it was named: with each
/// of the platforms' suffixes, without and with the `lib` prefix.
pub open spec fn candidates(parent: Seq<char>, stem: Seq<char>) -> Seq<Seq<char>> {
    seq![
        config::resolved(parent, stem + ".so"@),
        config::resolved(parent, "lib"@ + stem + ".so"@),
        config::resolved(parent, stem + ".dylib"@),
        config::resolved(parent, "lib"@ + stem + ".dylib"@),
        config::resolved(parent, stem + ".dll"@),
        config::resolved(parent, "lib"@ + stem + ".dll"@),
    ]
}

pub fn plugin_candidates(parent: &str, stem: &str) -> (out: Vec<String>)
    ensures
        text::views(out@) == candidates(parent@, stem@),
{
    let mut out: Vec<String> = Vec::new();
    let a = cat2(stem, ".so");
    let b = cat3("lib", stem, ".so");
    let c = cat2(stem, ".dylib");
    let d = cat3("lib", stem, ".dylib");
    let e = cat2(stem, ".dll");
    let f = cat3("lib", stem, ".dll");
    out.push(resolve_relative(parent, a.as_str()));
    out.push(resolve_relative(parent, b.as_str()));
    out.push(resolve_relative(parent, c.as_str()));
    out.push(resolve_relative(parent, d.as_str()));
    out.push(resolve_relative(parent, e.as_str()));
    out.push(resolve_relative(parent, f.as_str()));
    assert(text::views(out@) =~= candidates(parent@, stem@));
    out
}

/// A stem without the `lib` prefixes that it starts with.
pub open spec fn bare_stem(stem: Seq<char>) -> Seq<char>
    decreases stem.len(),
{
    if text::starts_with(stem, "lib"@) && "lib"@.len() > 0 {
        bare_stem(stem.skip("lib"@.len() as int))
    } else {
        stem
    }
}

fn strip_lib(stem: &str) -> (out: String)
    ensures
        out@ == bare_stem(stem@),
    decreases stem@.len(),
{
    proof {
        reveal_strlit("lib");
    }
    match without_prefix(stem, "lib") {
        Some(rest) => strip_lib(rest.as_str()),
        None => copy(stem),
    }
}

/// Where an ETL plugin may lie that is not where it was named: with the `lib`
/// prefix and each of the platforms' suffixes.
pub open spec fn etl_candidates(parent: Seq<char>, stem: Seq<char>) -> Seq<Seq<char>> {
    seq![
        config::resolved(parent, "lib"@ + bare_stem(stem) + ".so"@),
        config::resolved(parent, "lib"@ + bare_stem(stem) + ".dylib"@),
        config::resolved(parent, "lib"@ + bare_stem(stem) + ".dll"@),
    ]
}

pub fn etl_plugin_candidates(parent: &str, stem: &str) -> (out: Vec<String>)
    ensures
        text::views(out@) == etl_candidates(parent@, stem@),
{
    let s = strip_lib(stem);
    let a = cat3("lib", s.as_str(), ".so");
    let b = cat3("lib", s.as_str(), ".dylib");
    let c = cat3("lib", s.as_str(), ".dll");
    let mut out: Vec<String> = Vec::new();
    out.push(resolve_relative(parent, a.as_str()));
    out.push(resolve_relative(parent, b.as_str()));
    out.push(resolve_relative(parent, c.as_str()));
    assert(text::views(out@) =~= etl_candidates(parent@, stem@));
    out
}

/// Whether the test for a file can answer so.
pub open spec fn tested<F: Fn(&str) -> bool>(is_file: F, path: Seq<char>, yes: bool) -> bool {
    exists|p: &str| p@ == path && #[trigger] call_ensures(is_file, (p,), yes)
}

/// Whether `r` can be the first of the paths that is a file.
pub open spec fn first_file<F: Fn(&str) -> bool>(is_file: F, paths: Seq<Seq<char>>, r: Option<Seq<char>>) -> bool {
    match r {
        Some(p) => exists|i: int|
            {
                &&& 0 <= i < paths.len()
                &&& #[trigger] paths[i] == p
                &&& tested(is_file, p, true)
                &&& forall|j: int| 0 <= j < i ==> tested(is_file, #[trigger] paths[j], false)
            },
        None => forall|j: int| 0 <= j < paths.len() ==> tested(is_file, #[trigger] paths[j], false),
    }
}

fn find_file<F: Fn(&str) -> bool>(paths: &Vec<String>, is_file: &F) -> (out: Option<String>)
    requires
        forall|p: &str| call_requires(*is_file, (p,)),
    ensures
        first_file(*is_file, text::views(paths@), views::opt(out)),
{
    let ghost all = text::views(paths@);
    let mut i: usize = 0;
    while i < paths.len()
        invariant
            forall|p: &str| call_requires(*is_file, (p,)),
            i <= paths.len(),
            all == text::views(paths@),
            forall|j: int| 0 <= j < i ==> tested(*is_file, #[trigger] all[j], false),
        decreases paths.len() - i,
    {
        let p: &str = paths[i].as_str();
        let yes = (*is_file)(p);
        assert(call_ensures(*is_file, (p,), yes));
        assert(tested(*is_file, all[i as int], yes));
        if yes {
            let out = paths[i].clone();
            assert(all[i as int] == out@);
            return Some(out);
        }
        i += 1;
    }
    None
}

/// The places where a plugin is looked for: as it was named, then the
/// candidates; a path without a file name has none.
pub open spec fn places(path: Seq<char>, others: Option<Seq<Seq<char>>>) -> Seq<Seq<char>> {
    match others {
        Some(v) => seq![path] + v,
        None => seq![path],
    }
}

fn first_place<F: Fn(&str) -> bool>(path: &str, others: Option<Vec<String>>, is_file: &F) -> (out: Option<String>)
    requires
        forall|p: &str| call_requires(*is_file, (p,)),
    ensures
        first_file(
            *is_file,
            places(
                path@,
                match others {
                    Some(v) => Some(text::views(v@)),
                    None => None,
                },
            ),
            views::opt(out),
        ),
{
    let mut all: Vec<String> = Vec::new();
    all.push(copy(path));
    match others {
        Some(v) => {
            let ghost w = v@;
            let mut v = v;
            all.append(&mut v);
            assert(text::views(all@) =~= places(path@, Some(text::views(w))));
        },
        None => {
            assert(text::views(all@) =~= places(path@, None));
        },
    }
    find_file(&all, is_file)
}

/// Resolve a plugin path from configuration, trying common suffixes. `parent`
/// and `stem` are the path's directory and its file name without the suffix.
pub fn resolve_plugin_path<F: Fn(&str) -> bool>(path: &str, parent: &str, stem: Option<&str>, is_file: &F) -> (out: Option<
    String,
>)
    requires
        forall|p: &str| call_requires(*is_file, (p,)),
    ensures
        first_file(
            *is_file,
            places(
                path@,
                match stem {
                    Some(s) => Some(candidates(parent@, s@)),
                    None => None,
                },
            ),
            views::opt(out),
        ),
{
    let others = match stem {
        Some(s) => Some(plugin_candidates(parent, s)),
        None => None,
    };
    first_place(path, others, is_file)
}

/// Resolve an ETL plugin path from configuration.
pub fn resolve_etl_path<F: Fn(&str) -> bool>(path: &str, parent: &str, stem: Option<&str>, is_file: &F) -> (out: Option<
    String,
>)
    requires
        forall|p: &str| call_requires(*is_file, (p,)),
    ensures
        first_file(
            *is_file,
            places(
                path@,
                match stem {
                    Some(s) => Some(etl_candidates(parent@, s@)),
                    None => None,
                },
            ),
            views::opt(out),
        ),
{
    let others = match stem {
        Some(s) => Some(etl_plugin_candidates(parent, s)),
        None => None,
    };
    first_place(path, others, is_file)
}

// ---------------------------------------------------------------------------
// Registries
// ---------------------------------------------------------------------------

/// The names, each quoted, in brackets.
pub open spec fn name_list(names: Seq<Seq<char>>) -> Seq<char> {
    "["@ + text::join(names.map_values(|n: Seq<char>| text::debug_form(n)), ", "@) + "]"@
}

fn list_names(names: &Vec<String>) -> (out: String)
    ensures
        out@ == name_list(text::views(names@)),
{
    let ghost want = text::views(names@).map_values(|n: Seq<char>| text::debug_form(n));
    let mut parts: Vec<String> = Vec::new();
    let mut i: usize = 0;
    while i < names.len()
        invariant
            i <= names.len(),
            want == text::views(names@).map_values(|n: Seq<char>| text::debug_form(n)),
            text::views(parts@) == want.take(i as int),
        decreases names.len() - i,
    {
        let t = debug_text(names[i].as_str());
        proof {
            views::lemma_list_push(parts@, t);
        }
        parts.push(t);
        assert(want.take(i + 1) =~= want.take(i as int).push(want[i as int]));
        i += 1;
    }
    assert(want.take(i as int) =~= want);
    let inner = joined(&parts, ", ");
    cat3("[", inner.as_str(), "]")
}

/// Loaded plugins by name.
pub type Loaded<H> = Seq<(Seq<char>, H)>;

/// The plugins once another declared a name: the first to declare it stays.
pub open spec fn registered<H>(plugins: Loaded<H>, name: Seq<char>, handle: H) -> Loaded<H> {
    if strmap::at(plugins, name) is Some {
        plugins
    } else {
        strmap::put(plugins, name, handle)
    }
}

/// Registry of loaded datasource plugins, keyed by the name each declares.
pub struct PluginRegistry<H> {
    pub plugins: StrMap<Slot<H>>,
}

impl<H> PluginRegistry<H> {
    pub fn new() -> (out: Self)
        ensures
            out.plugins@ == Seq::<(Seq<char>, H)>::empty(),
    {
        PluginRegistry { plugins: StrMap::new() }
    }

    /// Takes a plugin under the name it declares, which must be unique: a
    /// duplicate is ignored. Tells whether the plugin was taken.
    pub fn register(&mut self, name: &str, handle: H) -> (out: bool)
        ensures
            out == strmap::at(old(self).plugins@, name@) is None,
            final(self).plugins@ == registered(old(self).plugins@, name@, handle),
    {
        if self.plugins.contains_key(name) {
            false
        } else {
            self.plugins.insert(copy(name), Slot { ds: handle });
            true
        }
    }

    /// Look up a loaded plugin by datasource type name.
    pub fn get(&self, conn_type: &str) -> (out: Result<&H, DatasourceError>)
        ensures
            match out {
                Ok(h) => strmap::at(self.plugins@, conn_type@) == Some(*h),
                Err(e) => strmap::at(self.plugins@, conn_type@) is None && e@ == DatasourceErrorV::Connection(
                    "no datasource plugin registered for type '"@ + conn_type@ + "' (loaded: "@ + name_list(
                        strmap::keys_of(self.plugins@),
                    ) + ")"@,
                ),
            },
    {
        match self.plugins.get(conn_type) {
            Some(s) => Ok(&s.ds),
            None => {
                let names = self.names();
                let list = list_names(&names);
                Err(
                    DatasourceError::Connection(
                        cat5(
                            "no datasource plugin registered for type '",
                            conn_type,
                            "' (loaded: ",
                            list.as_str(),
                            ")",
                        ),
                    ),
                )
            },
        }
    }

    pub fn names(&self) -> (out: Vec<String>)
        ensures
            text::views(out@) == strmap::keys_of(self.plugins@),
    {
        self.plugins.keys()
    }
}

/// Registry of loaded ETL plugins, keyed by declared name.
pub struct EtlRegistry<H> {
    pub plugins: StrMap<Slot<H>>,
}

impl<H> EtlRegistry<H> {
    pub fn new() -> (out: Self)
        ensures
            out.plugins@ == Seq::<(Seq<char>, H)>::empty(),
    {
        EtlRegistry { plugins: StrMap::new() }
    }

    /// Takes a plugin under the name it declares; a duplicate is ignored. Tells
    /// whether the plugin was taken.
    pub fn register(&mut self, name: &str, handle: H) -> (out: bool)
        ensures
            out == strmap::at(old(self).plugins@, name@) is None,
            final(self).plugins@ == registered(old(self).plugins@, name@, handle),
    {
        if self.plugins.contains_key(name) {
            false
        } else {
            self.plugins.insert(copy(name), Slot { ds: handle });
            true
        }
    }

    pub fn get(&self, name: &str) -> (out: Result<&H, EtlError>)
        ensures
            match out {
                Ok(h) => strmap::at(self.plugins@, name@) == Some(*h),
                Err(e) => strmap::at(self.plugins@, name@) is None && e@ == EtlErrorV::Config(
                    "no etl plugin named '"@ + name@ + "' loaded"@,
                ),
            },
    {
        match self.plugins.get(name) {
            Some(s) => Ok(&s.ds),
            None => Err(EtlError::Config(cat3("no etl plugin named '", name, "' loaded"))),
        }
    }

    pub fn names(&self) -> (out: Vec<String>)
        ensures
            text::views(out@) == strmap::keys_of(self.plugins@),
    {
        self.plugins.keys()
    }
}

/// Law: a registered plugin stays: no later registration, under its name or
/// another, replaces it.
pub proof fn law_first_registration_stays<H>(plugins: Loaded<H>, name: Seq<char>, other: Seq<char>, h: H)
    requires
        strmap::ordered(plugins),
        strmap::at(plugins, name) is Some,
    ensures
        strmap::at(registered(plugins, other, h), name) == strmap::at(plugins, name),
{
    strmap::lemma_put(plugins, other, h);
    strmap::lemma_dict(plugins, name);
    strmap::lemma_dict(strmap::put(plugins, other, h), name);
}

// ---------------------------------------------------------------------------
// Loading
// ---------------------------------------------------------------------------

/// The check of a datasource plugin's function table: its version, if it gave a
/// table at all.
pub fn check_abi(path: &str, version: Option<u32>) -> (out: Result<(), DatasourceError>)
    ensures
        (match out {
            Ok(_) => None,
            Err(e) => Some(e@),
        }) == (match version {
            None => Some(DatasourceErrorV::Connection(path@ + ": ds_get_api returned NULL"@)),
            Some(v) => if v == ABI_VERSION {
                None
            } else {
                Some(
                    DatasourceErrorV::Connection(
                        path@ + ": ABI version mismatch (plugin "@ + text::dec(v as nat) + ", host "@ + text::dec(
                            ABI_VERSION as nat,
                        ) + ")"@,
                    ),
                )
            },
        }),
{
    match version {
        None => Err(DatasourceError::Connection(cat2(path, ": ds_get_api returned NULL"))),
        Some(v) => if v == ABI_VERSION {
            Ok(())
        } else {
            let a = dec_text(v as u64);
            let b = dec_text(ABI_VERSION as u64);
            let head = cat5(path, ": ABI version mismatch (plugin ", a.as_str(), ", host ", b.as_str());
            Err(DatasourceError::Connection(cat2(head.as_str(), ")")))
        },
    }
}

/// The check of an ETL plugin's function table.
pub fn check_etl_abi(path: &str, version: Option<u32>) -> (out: Result<(), EtlError>)
    ensures
        (match out {
            Ok(_) => None,
            Err(e) => Some(e@),
        }) == (match version {
            None => Some(EtlErrorV::Config(path@ + ": etl_get_api NULL"@)),
            Some(v) => if v == ETL_ABI_VERSION {
                None
            } else {
                Some(
                    EtlErrorV::Config(
                        path@ + ": etl ABI mismatch ("@ + text::dec(v as nat) + " vs "@ + text::dec(
                            ETL_ABI_VERSION as nat,
                        ) + ")"@,
                    ),
                )
            },
        }),
{
    match version {
        None => Err(EtlError::Config(cat2(path, ": etl_get_api NULL"))),
        Some(v) => if v == ETL_ABI_VERSION {
            Ok(())
        } else {
            let a = dec_text(v as u64);
            let b = dec_text(ETL_ABI_VERSION as u64);
            let head = cat5(path, ": etl ABI mismatch (", a.as_str(), " vs ", b.as_str());
            Err(EtlError::Config(cat2(head.as_str(), ")")))
        },
    }
}

/// Why a plugin file is no datasource plugin.
#[derive(Debug)]
pub enum LoadFault {
    NotFound,
    /// The file cannot be opened, in the loader's words.
    CannotOpen(String),
    /// The file lacks the entry point, in the loader's words.
    NoEntryPoint(String),
}

pub open spec fn load_error(path: Seq<char>, f: LoadFault) -> DatasourceErrorV {
    DatasourceErrorV::Connection(
        match f {
            LoadFault::NotFound => "datasource plugin not found: "@ + path,
            LoadFault::CannotOpen(e) => "cannot open plugin "@ + path + ": "@ + e@,
            LoadFault::NoEntryPoint(e) => path + " is not a datasource plugin (missing ds_get_api): "@ + e@,
        },
    )
}

pub fn plugin_load_error(path: &str, f: &LoadFault) -> (out: DatasourceError)
    ensures
        out@ == load_error(path@, *f),
{
    DatasourceError::Connection(
        match f {
            LoadFault::NotFound => cat2("datasource plugin not found: ", path),
            LoadFault::CannotOpen(e) => cat4("cannot open plugin ", path, ": ", e.as_str()),
            LoadFault::NoEntryPoint(e) => cat3(
                path,
                " is not a datasource plugin (missing ds_get_api): ",
                e.as_str(),
            ),
        },
    )
}

pub open spec fn etl_load_error(path: Seq<char>, f: LoadFault) -> EtlErrorV {
    EtlErrorV::Config(
        match f {
            LoadFault::NotFound => "etl plugin not found: "@ + path,
            LoadFault::CannotOpen(e) => "cannot open etl plugin "@ + path + ": "@ + e@,
            LoadFault::NoEntryPoint(e) => path + " is not an etl plugin: "@ + e@,
        },
    )
}

pub fn etl_plugin_load_error(path: &str, f: &LoadFault) -> (out: EtlError)
    ensures
        out@ == etl_load_error(path@, *f),
{
    EtlError::Config(
        match f {
            LoadFault::NotFound => cat2("etl plugin not found: ", path),
            LoadFault::CannotOpen(e) => cat4("cannot open etl plugin ", path, ": ", e.as_str()),
            LoadFault::NoEntryPoint(e) => cat3(path, " is not an etl plugin: ", e.as_str()),
        },
    )
}

// ---------------------------------------------------------------------------
// Replies
// ---------------------------------------------------------------------------

/// A plugin's message, or the default where it gave none or an empty one.
pub open spec fn words_or(reply: Option<Seq<char>>, default: Seq<char>) -> Seq<char> {
    match reply {
        None => default,
        Some(s) => if s == ""@ {
            default
        } else {
            s
        },
    }
}

fn message_or(reply: &Option<String>, default: &str) -> (out: String)
    ensures
        out@ == words_or(views::opt(*reply), default@),
{
    match reply {
        None => copy(default),
        Some(s) => if same(s.as_str(), "") {
            copy(default)
        } else {
            s.clone()
        },
    }
}

/// What a datasource call without a payload comes to, from its return code and
/// what it handed out.
pub fn check_reply(rc: i32, reply: &Option<String>) -> (out: Result<(), DatasourceError>)
    ensures
        (match out {
            Ok(_) => None,
            Err(e) => Some(e@),
        }) == (if rc == C_OK {
            None
        } else {
            Some(DatasourceErrorV::Database(words_or(views::opt(*reply), "unknown error"@)))
        }),
{
    if rc == C_OK {
        Ok(())
    } else {
        Err(DatasourceError::Database(message_or(reply, "unknown error")))
    }
}

/// The payload of a datasource call, from its return code and what it handed
/// out.
pub fn read_reply(rc: i32, reply: Option<String>) -> (out: Result<String, DatasourceError>)
    ensures
        views::res(out) == (if rc != C_OK {
            Err(DatasourceErrorV::Database(words_or(views::opt(reply), "unknown error"@)))
        } else {
            match reply {
                None => Err(DatasourceErrorV::Serialize("NULL result"@)),
                Some(s) => Ok(s@),
            }
        }),
{
    if rc != C_OK {
        return Err(DatasourceError::Database(message_or(&reply, "unknown error")));
    }
    match reply {
        None => Err(DatasourceError::Serialize(copy("NULL result"))),
        Some(s) => Ok(s),
    }
}

/// What opening a connection through a plugin comes to, from the return code and
/// what was handed out.
pub fn connect_reply(connection: &str, rc: i32, reply: &Option<String>) -> (out: Result<(), DatasourceError>)
    ensures
        (match out {
            Ok(_) => None,
            Err(e) => Some(e@),
        }) == (if rc == C_OK {
            None
        } else {
            Some(
                DatasourceErrorV::Connection(
                    "connect to '"@ + connection@ + "' failed: "@ + words_or(views::opt(*reply), "unknown error"@),
                ),
            )
        }),
{
    if rc == C_OK {
        Ok(())
    } else {
        let m = message_or(reply, "unknown error");
        Err(DatasourceError::Connection(cat4("connect to '", connection, "' failed: ", m.as_str())))
    }
}

/// The error of a plugin that made no instance.
pub fn no_instance(plugin: &str) -> (out: DatasourceError)
    ensures
        out@ == DatasourceErrorV::Connection("plugin '"@ + plugin@ + "' failed to create instance"@),
{
    DatasourceError::Connection(cat3("plugin '", plugin, "' failed to create instance"))
}

/// Whether an ETL plugin is configured: only where there is a configuration.
pub fn needs_configuring(config: &Json) -> (out: bool)
    ensures
        out == !(config@ is Null),
{
    match config {
        Json::Null => false,
        _ => true,
    }
}

/// What configuring an ETL plugin comes to.
pub fn configure_reply(plugin: &str, rc: i32, reply: &Option<String>) -> (out: Result<(), EtlError>)
    ensures
        (match out {
            Ok(_) => None,
            Err(e) => Some(e@),
        }) == (if rc == C_OK {
            None
        } else {
            Some(
                EtlErrorV::Config(
                    "etl plugin '"@ + plugin@ + "' configure failed: "@ + words_or(
                        views::opt(*reply),
                        "unknown error"@,
                    ),
                ),
            )
        }),
{
    if rc == C_OK {
        Ok(())
    } else {
        let m = message_or(reply, "unknown error");
        Err(EtlError::Config(cat4("etl plugin '", plugin, "' configure failed: ", m.as_str())))
    }
}

/// The payload of an ETL plugin's row, from the return code and what was handed
/// out.
pub fn process_reply(plugin: &str, rc: i32, reply: Option<String>) -> (out: Result<String, EtlError>)
    ensures
        views::res(out) == (if rc != C_OK {
            Err(
                EtlErrorV::Processing(
                    "etl plugin '"@ + plugin@ + "' failed: "@ + words_or(views::opt(reply), "unknown error"@),
                ),
            )
        } else {
            match reply {
                None => Err(EtlErrorV::Processing("etl plugin returned NULL result"@)),
                Some(s) => Ok(s@),
            }
        }),
{
    if rc != C_OK {
        let m = message_or(&reply, "unknown error");
        return Err(EtlError::Processing(cat4("etl plugin '", plugin, "' failed: ", m.as_str())));
    }
    match reply {
        None => Err(EtlError::Processing(copy("etl plugin returned NULL result"))),
        Some(s) => Ok(s),
    }
}

// ---------------------------------------------------------------------------
// Lookups across the boundary
// ---------------------------------------------------------------------------

/// A lookup as a plugin asks for it.
#[derive(Debug)]
pub struct LookupRequest {
    pub connection: String,
    pub table: String,
    /// The columns; none for all.
    pub columns: Option<Vec<String>>,
    /// The condition; none for a full read.
    pub condition: Option<String>,
    /// The bound values as a JSON list.
    pub params: String,
}

/// The text that an argument crosses the boundary as: `null` where it is left
/// out.
pub open spec fn sent(s: Option<Seq<char>>) -> Seq<char> {
    match s {
        None => "null"@,
        Some(t) => t,
    }
}

pub fn text_or_null(s: Option<&str>) -> (out: &str)
    ensures
        out@ == sent(views::opt(s)),
{
    match s {
        None => "null",
        Some(t) => t,
    }
}

/// The columns that were given: nothing where there is no text or the text is
/// `null`, in lower or upper case.
pub open spec fn given_columns(s: Option<Seq<char>>) -> Option<Seq<char>> {
    match s {
        None => None,
        Some(t) => if t == "null"@ || t == "NULL"@ {
            None
        } else {
            Some(t)
        },
    }
}

/// The condition that was given: nothing where there is no text or the text is
/// `null`.
pub open spec fn given_condition(s: Option<Seq<char>>) -> Option<Seq<char>> {
    match s {
        None => None,
        Some(t) => if t == "null"@ {
            None
        } else {
            Some(t)
        },
    }
}

fn take_columns(s: Option<String>) -> (out: Option<String>)
    ensures
        views::opt(out) == given_columns(views::opt(s)),
{
    match s {
        None => None,
        Some(t) => if same(t.as_str(), "null") || same(t.as_str(), "NULL") {
            None
        } else {
            Some(t)
        },
    }
}

fn take_condition(s: Option<String>) -> (out: Option<String>)
    ensures
        views::opt(out) == given_condition(views::opt(s)),
{
    match s {
        None => None,
        Some(t) => if same(t.as_str(), "null") {
            None
        } else {
            Some(t)
        },
    }
}

/// Law: what a plugin asks for is what the host takes it to ask for: a condition
/// other than the bare word `null`, a list of columns, and either of them left
/// out.
pub proof fn law_lookup_arguments_come_back(columns: Option<Seq<char>>, condition: Option<Seq<char>>)
    requires
        columns matches Some(c) ==> c.len() > 0 && c[0] == '[',
        condition != Some("null"@),
    ensures
        given_columns(Some(sent(columns))) == columns,
        given_condition(Some(sent(condition))) == condition,
{
    reveal_strlit("null");
    reveal_strlit("NULL");
}

/// The columns of a request, from what their text read as.
pub open spec fn columns_read(read: Result<Seq<Seq<char>>, Seq<char>>) -> Result<Seq<Seq<char>>, EtlErrorV> {
    match read {
        Ok(v) => Ok(v),
        Err(e) => Err(EtlErrorV::Lookup("bad columns: "@ + e)),
    }
}

pub fn settle_columns(read: Result<Vec<String>, String>) -> (out: Result<Vec<String>, EtlError>)
    ensures
        (match out {
            Ok(v) => Ok(text::views(v@)),
            Err(e) => Err(e@),
        }) == columns_read(
            match read {
                Ok(v) => Ok(text::views(v@)),
                Err(e) => Err(e@),
            },
        ),
{
    match read {
        Ok(v) => Ok(v),
        Err(e) => Err(EtlError::Lookup(cat2("bad columns: ", e.as_str()))),
    }
}

/// The columns of a request as they cross the boundary: a JSON list, or `null`
/// for all of them. The host takes them for what they were.
pub fn columns_text(columns: Option<&Vec<String>>) -> (out: Result<String, EtlError>)
    ensures
        out is Ok,
        match columns {
            None => given_columns(Some(out->Ok_0@)) is None,
            Some(v) => given_columns(Some(out->Ok_0@)) == Some(out->Ok_0@) && json::names_reading(out->Ok_0@) == Ok::<
                Seq<Seq<char>>,
                Seq<char>,
            >(text::views(v@)) && json::names_writing(text::views(v@)) == Ok::<Seq<char>, Seq<char>>(out->Ok_0@),
        },
{
    proof {
        reveal_strlit("null");
        reveal_strlit("NULL");
        assert("null"@[0] == 'n' && "NULL"@[0] == 'N');
    }
    match columns {
        None => Ok(copy("null")),
        Some(v) => match write_names(v) {
            Ok(t) => Ok(t),
            Err(e) => Err(EtlError::Serialize(e)),
        },
    }
}

/// A list of names as it crosses the boundary of a datasource plugin.
pub fn encode_names(v: &Vec<String>) -> (out: Result<String, DatasourceError>)
    ensures
        out is Ok,
        json::names_writing(text::views(v@)) == Ok::<Seq<char>, Seq<char>>(out->Ok_0@),
        json::names_reading(out->Ok_0@) == Ok::<Seq<Seq<char>>, Seq<char>>(text::views(v@)),
{
    match write_names(v) {
        Ok(t) => Ok(t),
        Err(e) => Err(DatasourceError::Serialize(e)),
    }
}

/// The names of a list, from what its text read as.
pub open spec fn names_read(read: Result<Seq<Seq<char>>, Seq<char>>) -> Result<Seq<Seq<char>>, DatasourceErrorV> {
    match read {
        Ok(v) => Ok(v),
        Err(e) => Err(DatasourceErrorV::Serialize(e)),
    }
}

pub fn settle_names(read: Result<Vec<String>, String>) -> (out: Result<Vec<String>, DatasourceError>)
    ensures
        (match out {
            Ok(v) => Ok(text::views(v@)),
            Err(e) => Err(e@),
        }) == names_read(
            match read {
                Ok(v) => Ok(text::views(v@)),
                Err(e) => Err(e@),
            },
        ),
{
    match read {
        Ok(v) => Ok(v),
        Err(e) => Err(DatasourceError::Serialize(e)),
    }
}

/// The names of a list that crossed the boundary of a datasource plugin.
pub fn decode_names(s: &str) -> (out: Result<Vec<String>, DatasourceError>)
    ensures
        (match out {
            Ok(v) => Ok(text::views(v@)),
            Err(e) => Err(e@),
        }) == names_read(json::names_reading(s@)),
{
    let read = read_names(s);
    settle_names(read)
}

/// The request that a plugin's arguments make: connection and table are needed,
/// columns and condition may be left out, and no values are bound by default.
pub fn lookup_request(
    connection: Option<String>,
    table: Option<String>,
    columns: Option<String>,
    condition: Option<String>,
    params: Option<String>,
) -> (out: Result<LookupRequest, EtlError>)
    ensures
        match out {
            Ok(r) => {
                &&& views::opt(connection) == Some(r.connection@)
                &&& views::opt(table) == Some(r.table@)
                &&& match r.columns {
                    None => given_columns(views::opt(columns)) is None,
                    Some(v) => given_columns(views::opt(columns)) matches Some(t) && json::names_reading(t) == Ok::<
                        Seq<Seq<char>>,
                        Seq<char>,
                    >(text::views(v@)),
                }
                &&& views::opt(r.condition) == given_condition(views::opt(condition))
                &&& r.params@ == (match params {
                    Some(p) => p@,
                    None => "[]"@,
                })
            },
            Err(e) => {
                ||| connection is None && e@ == EtlErrorV::Lookup("NULL conn"@)
                ||| connection is Some && table is None && e@ == EtlErrorV::Lookup("NULL table"@)
                ||| connection is Some && table is Some && (given_columns(views::opt(columns)) matches Some(t)
                    && columns_read(json::names_reading(t)) == Err::<Seq<Seq<char>>, EtlErrorV>(e@))
            },
        },
{
    let connection = match connection {
        Some(c) => c,
        None => {
            return Err(EtlError::Lookup(copy("NULL conn")));
        },
    };
    let table = match table {
        Some(t) => t,
        None => {
            return Err(EtlError::Lookup(copy("NULL table")));
        },
    };
    let columns = match take_columns(columns) {
        None => None,
        Some(t) => {
            let read = read_names(t.as_str());
            match settle_columns(read) {
                Ok(v) => Some(v),
                Err(e) => {
                    return Err(e);
                },
            }
        },
    };
    Ok(
        LookupRequest {
            connection,
            table,
            columns,
            condition: take_condition(condition),
            params: match params {
                Some(p) => p,
                None => copy("[]"),
            },
        },
    )
}

/// The payload of a lookup, from the return code and what the host handed out.
pub fn lookup_reply(rc: i32, reply: Option<String>) -> (out: Result<String, EtlError>)
    ensures
        views::res(out) == (if rc != C_OK {
            Err(EtlErrorV::Lookup(words_or(views::opt(reply), "unknown lookup error"@)))
        } else {
            match reply {
                None => Err(EtlErrorV::Lookup("host returned NULL result"@)),
                Some(s) => Ok(s@),
            }
        }),
{
    if rc != C_OK {
        return Err(EtlError::Lookup(message_or(&reply, "unknown lookup error")));
    }
    match reply {
        None => Err(EtlError::Lookup(copy("host returned NULL result"))),
        Some(s) => Ok(s),
    }
}

// ---------------------------------------------------------------------------
// What is found and what is kept
// ---------------------------------------------------------------------------

/// Law: a new plugin stands under its name, and the others stay as they were.
pub proof fn law_new_plugin_is_registered<H>(plugins: Loaded<H>, name: Seq<char>, h: H, other: Seq<char>)
    requires
        strmap::ordered(plugins),
        strmap::at(plugins, name) is None,
        other != name,
    ensures
        strmap::at(registered(plugins, name, h), name) == Some(h),
        strmap::at(registered(plugins, name, h), other) == strmap::at(plugins, other),
{
    strmap::lemma_put(plugins, name, h);
    strmap::lemma_dict(plugins, other);
    strmap::lemma_dict(strmap::put(plugins, name, h), name);
    strmap::lemma_dict(strmap::put(plugins, name, h), other);
}

/// Law: a shared object is a plugin of either sort where its name starts with
/// `lib`; the other two kinds of library are a data source plugin under any name
/// and a processing plugin under a name that starts with `lib`.
pub proof fn law_libraries_are_plugins_by_name(x: Seq<char>)
    ensures
        plugin_name("lib"@ + x + ".so"@) && etl_plugin_name("lib"@ + x + ".so"@),
        plugin_name(x + ".dylib"@) && plugin_name(x + ".dll"@),
        etl_plugin_name("lib"@ + x + ".dylib"@) && etl_plugin_name("lib"@ + x + ".dll"@),
        etl_plugin_name(x) ==> plugin_name(x) && text::starts_with(x, "lib"@),
        !text::ends_with(x, ".so"@) && !text::ends_with(x, ".dylib"@) && !text::ends_with(x, ".dll"@) ==> !plugin_name(x),
        !text::starts_with(x, "lib"@) && text::ends_with(x, ".so"@) ==> !etl_plugin_name(x),
{
    let none = Seq::<char>::empty();
    text::law_parts_are_found("lib"@ + x, ".so"@, none);
    text::law_parts_are_found("lib"@ + x, ".dylib"@, none);
    text::law_parts_are_found("lib"@ + x, ".dll"@, none);
    text::law_parts_are_found(x, ".dylib"@, none);
    text::law_parts_are_found(x, ".dll"@, none);
    text::law_parts_are_found(none, "lib"@, x + ".so"@);
    text::law_parts_are_found(none, "lib"@, x + ".dylib"@);
    text::law_parts_are_found(none, "lib"@, x + ".dll"@);
    reading::lemma_regroup("lib"@, x, ".so"@);
    reading::lemma_regroup("lib"@, x, ".dylib"@);
    reading::lemma_regroup("lib"@, x, ".dll"@);
}

/// Law: a plugin is looked for beside its file under each kind of library, with
/// `lib` before its stem and, for a data source plugin, without it too.
pub proof fn law_plugin_is_looked_for_under_every_name(parent: Seq<char>, stem: Seq<char>, path: Seq<char>)
    ensures
        candidates(parent, stem).contains(path) <==> exists|p: Seq<char>, ext: Seq<char>|
            #![trigger config::resolved(parent, p + stem + ext)]
            (p == ""@ || p == "lib"@) && (ext == ".so"@ || ext == ".dylib"@ || ext == ".dll"@) && path == config::resolved(
                parent,
                p + stem + ext,
            ),
        etl_candidates(parent, stem).contains(path) <==> exists|ext: Seq<char>|
            #![trigger config::resolved(parent, "lib"@ + bare_stem(stem) + ext)]
            (ext == ".so"@ || ext == ".dylib"@ || ext == ".dll"@) && path == config::resolved(
                parent,
                "lib"@ + bare_stem(stem) + ext,
            ),
{
    reveal_strlit("");
    assert(""@ + stem =~= stem);
    let c = candidates(parent, stem);
    let d = etl_candidates(parent, stem);
    assert(c[0] == config::resolved(parent, ""@ + stem + ".so"@) && c[1] == config::resolved(parent, "lib"@ + stem + ".so"@));
    assert(c[2] == config::resolved(parent, ""@ + stem + ".dylib"@) && c[3] == config::resolved(
        parent,
        "lib"@ + stem + ".dylib"@,
    ));
    assert(c[4] == config::resolved(parent, ""@ + stem + ".dll"@) && c[5] == config::resolved(parent, "lib"@ + stem + ".dll"@));
    assert(d[0] == config::resolved(parent, "lib"@ + bare_stem(stem) + ".so"@));
    assert(d[1] == config::resolved(parent, "lib"@ + bare_stem(stem) + ".dylib"@));
    assert(d[2] == config::resolved(parent, "lib"@ + bare_stem(stem) + ".dll"@));
    if c.contains(path) {
        let i = choose|i: int| 0 <= i < c.len() && c[i] == path;
        assert(i == 0 || i == 1 || i == 2 || i == 3 || i == 4 || i == 5);
    }
    if d.contains(path) {
        let i = choose|i: int| 0 <= i < d.len() && d[i] == path;
        assert(i == 0 || i == 1 || i == 2);
    }
}

/// Law: a stem loses every `lib` that it starts with and nothing else.
pub proof fn law_bare_stem_has_no_prefix(stem: Seq<char>)
    ensures
        bare_stem("lib"@ + stem) == bare_stem(stem),
        !text::starts_with(bare_stem(stem), "lib"@),
        !text::starts_with(stem, "lib"@) ==> bare_stem(stem) == stem,
        text::ends_with(stem, bare_stem(stem)),
    decreases stem.len(),
{
    reveal_strlit("lib");
    let s = "lib"@ + stem;
    assert(s.take(3) =~= "lib"@);
    assert(s.skip(3) =~= stem);
    if text::starts_with(stem, "lib"@) {
        let t = stem.skip(3);
        law_bare_stem_has_no_prefix(t);
        let b = bare_stem(t);
        assert(stem.skip(stem.len() - b.len()) =~= t.skip(t.len() - b.len()));
    } else {
        assert(stem.skip(0) =~= stem);
    }
}

/// Law: a plugin's own words are used where it has any, the default words
/// otherwise.
pub proof fn law_words_or_default(reply: Option<Seq<char>>, default: Seq<char>)
    ensures
        reply matches Some(s) ==> s.len() > 0 ==> words_or(reply, default) == s,
        (reply is None || reply->Some_0.len() == 0) ==> words_or(reply, default) == default,
{
    reveal_strlit("");
    if let Some(s) = reply {
        assert(s.len() == 0 ==> s =~= ""@);
    }
}

/// Law: a plugin is looked for at its own path first and then at the other places
/// in their order.
pub proof fn law_own_path_comes_first(path: Seq<char>, others: Option<Seq<Seq<char>>>, i: int)
    ensures
        places(path, others)[0] == path,
        others matches Some(v) ==> places(path, others).len() == v.len() + 1 && (0 <= i < v.len() ==> places(path, others)[i
            + 1] == v[i]),
        others is None ==> places(path, others).len() == 1,
{
}

/// Law: names that could be read are those that were read.
pub proof fn law_names_are_those_that_were_read(v: Seq<Seq<char>>, e: Seq<char>)
    ensures
        columns_read(Ok(v)) == Ok::<Seq<Seq<char>>, EtlErrorV>(v),
        names_read(Ok(v)) == Ok::<Seq<Seq<char>>, DatasourceErrorV>(v),
        columns_read(Err(e)) matches Err(EtlErrorV::Lookup(s)) && text::ends_with(s, e),
        names_read(Err(e)) == Err::<Seq<Seq<char>>, DatasourceErrorV>(DatasourceErrorV::Serialize(e)),
{
    text::law_parts_are_found("bad columns: "@, e, Seq::empty());
}

/// Law: a plugin that cannot be loaded is told by its path, and by the cause where
/// there is one.
pub proof fn law_load_faults_name_the_path(path: Seq<char>, f: LoadFault)
    ensures
        load_error(path, f) is Connection && text::contains(load_error(path, f)->Connection_0, path),
        etl_load_error(path, f) is Config && text::contains(etl_load_error(path, f)->Config_0, path),
        f matches LoadFault::CannotOpen(e) ==> text::ends_with(load_error(path, f)->Connection_0, e@) && text::ends_with(
            etl_load_error(path, f)->Config_0,
            e@,
        ),
        f matches LoadFault::NoEntryPoint(e) ==> text::ends_with(load_error(path, f)->Connection_0, e@) && text::ends_with(
            etl_load_error(path, f)->Config_0,
            e@,
        ),
{
    let none = Seq::<char>::empty();
    match f {
        LoadFault::NotFound => {
            let (a, b) = ("datasource plugin not found: "@, "etl plugin not found: "@);
            text::law_parts_are_found(a, path, none);
            text::law_parts_are_found(b, path, none);
            assert(a + path + none =~= a + path);
            assert(b + path + none =~= b + path);
        },
        LoadFault::CannotOpen(e) => {
            let (a, b) = ("cannot open plugin "@, "cannot open etl plugin "@);
            reading::lemma_regroup(a + path, ": "@, e@);
            reading::lemma_regroup(b + path, ": "@, e@);
            text::law_parts_are_found(a, path, ": "@ + e@);
            text::law_parts_are_found(b, path, ": "@ + e@);
            text::law_parts_are_found(a + path + ": "@, e@, none);
            text::law_parts_are_found(b + path + ": "@, e@, none);
        },
        LoadFault::NoEntryPoint(e) => {
            let (a, b) = (" is not a datasource plugin (missing ds_get_api): "@, " is not an etl plugin: "@);
            reading::lemma_regroup(path, a, e@);
            reading::lemma_regroup(path, b, e@);
            text::law_parts_are_found(none, path, a + e@);
            text::law_parts_are_found(none, path, b + e@);
            assert(none + path + (a + e@) =~= path + (a + e@));
            assert(none + path + (b + e@) =~= path + (b + e@));
            text::law_parts_are_found(path + a, e@, none);
            text::law_parts_are_found(path + b, e@, none);
        },
    }
}

/// Law: a plugin's file is the first of the places that is one: none of those before
/// it is; where no file is found, none of the places is one.
pub proof fn law_first_file_is_taken<F: Fn(&str) -> bool>(is_file: F, paths: Seq<Seq<char>>, r: Option<Seq<char>>, j: int)
    requires
        first_file(is_file, paths, r),
        0 <= j < paths.len(),
    ensures
        r is None ==> tested(is_file, paths[j], false),
        r matches Some(p) ==> paths.contains(p) && tested(is_file, p, true),
        r matches Some(p) ==> tested(is_file, paths[j], false) || exists|i: int| 0 <= i <= j && #[trigger] paths[i] == p,
{
}

} // verus!

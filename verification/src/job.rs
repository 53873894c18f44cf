//! Job definitions.

use vstd::prelude::*;

use crate::config;
use crate::config::{int_or, read_document, str_or, to_word};
use crate::error::{AppError, AppErrorV, AppResult};
use crate::json;
use crate::json::{yaml_to_json, Json, JsonV};
use crate::model;
use crate::model::SyncMode;
use crate::strmap;
use crate::strmap::{Duplicate, StrMap};
use crate::text;
use crate::text::{cat2, cat4, cat5, copy, copy_all, copy_opt, same, split_on, trimmed};
use crate::views;
use crate::yaml;
use crate::yaml::{Node, NodeV};

verus! {

// ---------------------------------------------------------------------------
// Lists of names
// ---------------------------------------------------------------------------

/// The trimmed texts that are not empty.
pub open spec fn names(v: Seq<Seq<char>>) -> Seq<Seq<char>>
    decreases v.len(),
{
    if v.len() == 0 {
        Seq::empty()
    } else if text::trim(v.last()) == ""@ {
        names(v.drop_last())
    } else {
        names(v.drop_last()).push(text::trim(v.last()))
    }
}

/// The names of a list separated by commas.
pub open spec fn csv(s: Option<Seq<char>>) -> Seq<Seq<char>> {
    match s {
        Some(s) => names(text::split(s, ',')),
        None => Seq::empty(),
    }
}

fn keep_names(parts: &Vec<String>) -> (out: Vec<String>)
    ensures
        text::views(out@) == names(text::views(parts@)),
{
    let ghost all = text::views(parts@);
    let mut out: Vec<String> = Vec::new();
    let mut i: usize = 0;
    assert(text::views(out@) =~= names(all.take(0)));
    while i < parts.len()
        invariant
            i <= parts.len(),
            all == text::views(parts@),
            text::views(out@) == names(all.take(i as int)),
        decreases parts.len() - i,
    {
        assert(all.take(i + 1).drop_last() =~= all.take(i as int));
        assert(all.take(i + 1).last() == parts@[i as int]@);
        let t = trimmed(parts[i].as_str());
        if !same(t.as_str(), "") {
            proof {
                views::lemma_list_push(out@, t);
            }
            out.push(t);
        }
        i += 1;
    }
    assert(all.take(i as int) =~= all);
    out
}

pub fn split_csv(s: Option<&str>) -> (out: Vec<String>)
    ensures
        text::views(out@) == csv(views::opt(s)),
{
    match s {
        Some(s) => {
            let parts = split_on(s, ',');
            keep_names(&parts)
        },
        None => {
            let out: Vec<String> = Vec::new();
            assert(text::views(out@) =~= Seq::<Seq<char>>::empty());
            out
        },
    }
}

/// Law: no name of a list is empty.
pub proof fn law_names_are_not_empty(v: Seq<Seq<char>>, i: int)
    requires
        0 <= i < names(v).len(),
    ensures
        names(v)[i] != ""@,
    decreases v.len(),
{
    if text::trim(v.last()) == ""@ || i < names(v.drop_last()).len() {
        law_names_are_not_empty(v.drop_last(), i);
    }
}

proof fn lemma_names_stay(v: Seq<Seq<char>>)
    requires
        forall|i: int| 0 <= i < v.len() ==> text::trim(#[trigger] v[i]) == v[i] && v[i].len() > 0,
    ensures
        names(v) == v,
    decreases v.len(),
{
    reveal_strlit("");
    if v.len() > 0 {
        let head = v.drop_last();
        assert forall|i: int| 0 <= i < head.len() implies text::trim(#[trigger] head[i]) == head[i] && head[i].len() > 0 by {
            assert(head[i] == v[i]);
        }
        lemma_names_stay(head);
        assert(text::trim(v[v.len() - 1]) == v.last());
        assert(head.push(v.last()) =~= v);
    }
}

/// Law: names that are trimmed, hold no comma and are not empty come back from
/// the list that they make up, in order; no names come back from an empty list.
pub proof fn law_joined_names_come_back(v: Seq<Seq<char>>)
    requires
        forall|i: int|
            0 <= i < v.len() ==> text::trim(#[trigger] v[i]) == v[i] && v[i].len() > 0 && !v[i].contains(','),
    ensures
        csv(Some(text::join(v, ","@))) == v,
{
    reveal_strlit(",");
    reveal_strlit("");
    assert(","@ =~= seq![',']);
    if v.len() == 0 {
        let s = text::join(v, ","@);
        assert(s =~= Seq::<char>::empty());
        let p = text::split(s, ',');
        assert(p =~= seq![s]);
        assert(p.drop_last() =~= Seq::<Seq<char>>::empty());
        assert(text::trim(p.last()) =~= ""@);
        assert(names(p.drop_last()) =~= Seq::<Seq<char>>::empty());
        assert(v =~= Seq::<Seq<char>>::empty());
    } else {
        text::law_joined_texts_split_again(v, ',');
        lemma_names_stay(v);
    }
}

/// The texts among the items.
pub open spec fn texts(v: Seq<NodeV>) -> Seq<Seq<char>>
    decreases v.len(),
{
    if v.len() == 0 {
        Seq::empty()
    } else {
        match v.last().text() {
            Some(s) => texts(v.drop_last()).push(s),
            None => texts(v.drop_last()),
        }
    }
}

/// The key columns: a YAML list, or a text separated by commas.
pub open spec fn key_columns(n: NodeV) -> Seq<Seq<char>> {
    match n.items() {
        Some(v) => names(texts(v)),
        None => csv(n.text()),
    }
}

fn read_key_columns(n: &Node) -> (out: Vec<String>)
    ensures
        text::views(out@) == key_columns(n@),
{
    match n.as_vec() {
        Some(v) => {
            let ghost all = views::list(v@);
            let mut found: Vec<String> = Vec::new();
            let mut i: usize = 0;
            assert(text::views(found@) =~= texts(all.take(0)));
            while i < v.len()
                invariant
                    i <= v.len(),
                    all == views::list(v@),
                    text::views(found@) == texts(all.take(i as int)),
                decreases v.len() - i,
            {
                assert(all.take(i + 1).drop_last() =~= all.take(i as int));
                assert(all.take(i + 1).last() == v@[i as int]@);
                if let Some(s) = v[i].as_str() {
                    let t = copy(s);
                    proof {
                        views::lemma_list_push(found@, t);
                    }
                    found.push(t);
                }
                i += 1;
            }
            assert(all.take(i as int) =~= all);
            keep_names(&found)
        },
        None => split_csv(n.as_str()),
    }
}

// ---------------------------------------------------------------------------
// Steps
// ---------------------------------------------------------------------------

#[derive(Debug, Clone, Copy, PartialEq, Eq, Structural)]
pub enum EtlStepKind {
    Builtin,
    Plugin,
}

/// A single step of a job's ETL pipeline.
#[derive(Debug)]
pub struct EtlStep {
    /// builtin name (`rename`, `set`, `filter`, `cast`) or loaded plugin name.
    pub name: String,
    pub kind: EtlStepKind,
}

/// What an [`EtlStep`] says.
#[verifier::ext_equal]
pub struct EtlStepV {
    pub name: Seq<char>,
    pub kind: EtlStepKind,
}

impl View for EtlStep {
    type V = EtlStepV;

    open spec fn view(&self) -> EtlStepV {
        EtlStepV { name: self.name@, kind: self.kind }
    }
}

/// The names of the built-in processors.
pub open spec fn builtin(name: Seq<char>) -> bool {
    name == "rename"@ || name == "set"@ || name == "filter"@ || name == "cast"@
}

pub fn is_builtin(name: &str) -> (out: bool)
    ensures
        out == builtin(name@),
{
    same(name, "rename") || same(name, "set") || same(name, "filter") || same(name, "cast")
}

/// A step by its name.
pub open spec fn named_step(name: Seq<char>) -> EtlStepV {
    EtlStepV {
        name,
        kind: if builtin(name) {
            EtlStepKind::Builtin
        } else {
            EtlStepKind::Plugin
        },
    }
}

fn step_named(name: &str) -> (out: EtlStep)
    ensures
        out@ == named_step(name@),
{
    EtlStep {
        name: copy(name),
        kind: if is_builtin(name) {
            EtlStepKind::Builtin
        } else {
            EtlStepKind::Plugin
        },
    }
}

/// The configuration beside a step's name.
pub open spec fn step_config(h: Seq<(NodeV, NodeV)>) -> NodeV {
    match yaml::under(h, "config"@) {
        Some(c) => c,
        None => NodeV::Null,
    }
}

/// The step and the configuration that a node describes.
pub open spec fn step(n: NodeV) -> Result<(EtlStepV, NodeV), AppErrorV> {
    match n.entries() {
        Some(h) => match yaml::under(h, "plugin"@) {
            Some(p) => if config::text_or(p, ""@) == ""@ {
                Err(AppErrorV::Config("etl step: plugin name empty"@))
            } else {
                Ok((EtlStepV { name: config::text_or(p, ""@), kind: EtlStepKind::Plugin }, step_config(h)))
            },
            None => match yaml::under(h, "builtin"@) {
                Some(b) => Ok((named_step(config::text_or(b, ""@)), step_config(h))),
                None => if h.len() > 0 && h[0].0.text() is Some {
                    Ok((named_step(h[0].0.text()->Some_0), h[0].1))
                } else {
                    Err(AppErrorV::Config("etl step must be {builtin|plugin|name: ...}, got "@ + yaml::shown(n)))
                },
            },
        },
        None => match n.text() {
            Some(name) => Ok((named_step(name), NodeV::Null)),
            None => Err(AppErrorV::Config("invalid etl step: "@ + yaml::shown(n))),
        },
    }
}

fn config_of(n: &Node) -> (out: Node)
    ensures
        out@ == (match n@.entries() {
            Some(h) => step_config(h),
            None => NodeV::Null,
        }),
{
    match n.get("config") {
        Some(c) => c.clone(),
        None => Node::Null,
    }
}

/// Parse one ETL step. Supported shapes:
/// * `{ builtin: rename, config: {...} }`
/// * `{ plugin: my_etl, config: {...} }`
/// * `{ rename: {...} }`  (builtin keyed by name)
/// * a bare name string `rename`
pub fn parse_step(n: &Node) -> (out: AppResult<(EtlStep, Node)>)
    ensures
        views::res(out) == step(n@),
{
    match n.as_hash() {
        Some(h) => {
            if let Some(p) = n.get("plugin") {
                let name = str_or(p, "");
                if same(name.as_str(), "") {
                    return Err(AppError::Config(copy("etl step: plugin name empty")));
                }
                return Ok((EtlStep { name, kind: EtlStepKind::Plugin }, config_of(n)));
            }
            if let Some(b) = n.get("builtin") {
                let name = str_or(b, "");
                return Ok((step_named(name.as_str()), config_of(n)));
            }
            if h.len() > 0 {
                assert(n@.entries()->Some_0[0] == (h@[0].0@, h@[0].1@));
                if let Some(name) = h[0].0.as_str() {
                    return Ok((step_named(name), h[0].1.clone()));
                }
            }
            let shown = n.show();
            Err(AppError::Config(cat2("etl step must be {builtin|plugin|name: ...}, got ", shown.as_str())))
        },
        None => match n.as_str() {
            Some(name) => Ok((step_named(name), Node::Null)),
            None => {
                let shown = n.show();
                Err(AppError::Config(cat2("invalid etl step: ", shown.as_str())))
            },
        },
    }
}

/// A step's configuration as JSON.
pub open spec fn config_json(n: NodeV) -> JsonV {
    match json::from_yaml(n) {
        Some(j) => j,
        None => JsonV::Null,
    }
}

/// Steps and their configurations.
pub type Steps = (Seq<EtlStepV>, Seq<JsonV>);

/// The steps of a list, or what is wrong with the first faulty one.
pub open spec fn steps(v: Seq<NodeV>) -> Result<Steps, AppErrorV>
    decreases v.len(),
{
    if v.len() == 0 {
        Ok((Seq::empty(), Seq::empty()))
    } else {
        match steps(v.drop_last()) {
            Err(e) => Err(e),
            Ok(s) => match step(v.last()) {
                Err(e) => Err(e),
                Ok(x) => Ok((s.0.push(x.0), s.1.push(config_json(x.1)))),
            },
        }
    }
}

proof fn lemma_steps_stop(v: Seq<NodeV>, n: int)
    requires
        0 <= n <= v.len(),
        steps(v.take(n)) is Err,
    ensures
        steps(v) == steps(v.take(n)),
    decreases v.len(),
{
    if n < v.len() {
        assert(v.drop_last().take(n) =~= v.take(n));
        lemma_steps_stop(v.drop_last(), n);
    } else {
        assert(v.take(n) =~= v);
    }
}

/// The pipeline of a job: a list of steps, or one step; no steps where there is
/// no pipeline.
pub open spec fn pipeline(y: NodeV) -> Result<Steps, AppErrorV> {
    match y.field("etl"@).items() {
        Some(v) => steps(v),
        None => if y.field("etl"@).entries() is Some {
            steps(seq![y.field("etl"@)])
        } else {
            Ok((Seq::empty(), Seq::empty()))
        },
    }
}

fn json_of(n: &Node) -> (out: Json)
    ensures
        out@ == config_json(n@),
{
    match yaml_to_json(n) {
        Some(j) => j,
        None => Json::Null,
    }
}

fn read_pipeline(y: &Node) -> (out: AppResult<(Vec<EtlStep>, Vec<Json>)>)
    ensures
        (match out {
            Ok(p) => Ok((views::list(p.0@), views::list(p.1@))),
            Err(e) => Err(e@),
        }) == pipeline(y@),
{
    let mut etl: Vec<EtlStep> = Vec::new();
    let mut configs: Vec<Json> = Vec::new();
    assert(views::list(etl@) =~= Seq::<EtlStepV>::empty());
    assert(views::list(configs@) =~= Seq::<JsonV>::empty());
    let node = y.index("etl");
    if let Some(v) = node.as_vec() {
        let ghost all = views::list(v@);
        let mut i: usize = 0;
        assert(all.take(0) =~= Seq::empty());
        while i < v.len()
            invariant
                i <= v.len(),
                all == views::list(v@),
                y@.field("etl"@).items() == Some(all),
                steps(all.take(i as int)) == Ok::<Steps, AppErrorV>((views::list(etl@), views::list(configs@))),
            decreases v.len() - i,
        {
            assert(all.take(i + 1).drop_last() =~= all.take(i as int));
            assert(all.take(i + 1).last() == v@[i as int]@);
            match parse_step(&v[i]) {
                Ok((s, c)) => {
                    let j = json_of(&c);
                    proof {
                        views::lemma_list_push(etl@, s);
                        views::lemma_list_push(configs@, j);
                    }
                    etl.push(s);
                    configs.push(j);
                },
                Err(e) => {
                    proof {
                        lemma_steps_stop(all, i + 1);
                    }
                    return Err(e);
                },
            }
            i += 1;
        }
        assert(all.take(i as int) =~= all);
    } else if node.as_hash().is_some() {
        assert(seq![node@].drop_last() =~= Seq::<NodeV>::empty());
        assert(steps(Seq::<NodeV>::empty()) == Ok::<Steps, AppErrorV>((Seq::empty(), Seq::empty())));
        match parse_step(node) {
            Ok((s, c)) => {
                let j = json_of(&c);
                proof {
                    views::lemma_list_push(etl@, s);
                    views::lemma_list_push(configs@, j);
                }
                etl.push(s);
                configs.push(j);
            },
            Err(e) => {
                return Err(e);
            },
        }
    }
    Ok((etl, configs))
}

// ---------------------------------------------------------------------------
// Jobs
// ---------------------------------------------------------------------------

#[derive(Debug)]
pub struct SourceConfig {
    pub connection: String,
    /// Source table. Optional when a custom `select` statement is provided.
    pub table: String,
    pub columns: Vec<String>,
    pub where_clause: Option<String>,
    pub primary_key: Vec<String>,
    /// Max rows fetched per query/paging pass (overrides `runtime.page_size`)
    /// before rows are routed to the writers.
    pub batch_limit: Option<u64>,
    /// Custom full SELECT statement (join support). Replaces the generated
    /// `SELECT <columns> FROM <table>`; `${state.*}` / `${sys.now(...)}`
    /// templates are still expanded inside it.
    pub select: Option<String>,
}

/// What a [`SourceConfig`] says.
#[verifier::ext_equal]
pub struct SourceV {
    pub connection: Seq<char>,
    pub table: Seq<char>,
    pub columns: Seq<Seq<char>>,
    pub where_clause: Option<Seq<char>>,
    pub primary_key: Seq<Seq<char>>,
    pub batch_limit: Option<u64>,
    pub select: Option<Seq<char>>,
}

impl View for SourceConfig {
    type V = SourceV;

    open spec fn view(&self) -> SourceV {
        SourceV {
            connection: self.connection@,
            table: self.table@,
            columns: text::views(self.columns@),
            where_clause: views::opt(self.where_clause),
            primary_key: text::views(self.primary_key@),
            batch_limit: self.batch_limit,
            select: views::opt(self.select),
        }
    }
}

impl Clone for SourceConfig {
    fn clone(&self) -> (out: SourceConfig)
        ensures
            out@ == self@,
    {
        SourceConfig {
            connection: self.connection.clone(),
            table: self.table.clone(),
            columns: copy_all(&self.columns),
            where_clause: copy_opt(&self.where_clause),
            primary_key: copy_all(&self.primary_key),
            batch_limit: self.batch_limit,
            select: copy_opt(&self.select),
        }
    }
}

#[derive(Debug)]
pub struct TargetConfig {
    pub connection: String,
    pub table: String,
    pub columns: Vec<String>,
    pub primary_key: Vec<String>,
}

/// What a [`TargetConfig`] says.
#[verifier::ext_equal]
pub struct TargetV {
    pub connection: Seq<char>,
    pub table: Seq<char>,
    pub columns: Seq<Seq<char>>,
    pub primary_key: Seq<Seq<char>>,
}

impl View for TargetConfig {
    type V = TargetV;

    open spec fn view(&self) -> TargetV {
        TargetV {
            connection: self.connection@,
            table: self.table@,
            columns: text::views(self.columns@),
            primary_key: text::views(self.primary_key@),
        }
    }
}

/// How a state key follows a column.
#[derive(Debug)]
pub struct StateSpec {
    pub kind: String,
    pub column: String,
}

/// What a [`StateSpec`] says.
#[verifier::ext_equal]
pub struct StateSpecV {
    pub kind: Seq<char>,
    pub column: Seq<char>,
}

impl View for StateSpec {
    type V = StateSpecV;

    open spec fn view(&self) -> StateSpecV {
        StateSpecV { kind: self.kind@, column: self.column@ }
    }
}

impl Duplicate for StateSpec {
    fn duplicate(&self) -> (out: StateSpec) {
        StateSpec { kind: self.kind.clone(), column: self.column.clone() }
    }
}

#[derive(Debug)]
pub struct JobConfig {
    pub name: String,
    pub description: String,
    pub enabled: bool,
    pub source: SourceConfig,
    pub target: TargetConfig,
    pub mode: SyncMode,
    /// state-key -> high water mark spec (only `max` supported today).
    pub state: StrMap<StateSpec>,
    pub cron: String,
    /// Number of parallel writer threads this job uses (rows are routed to
    /// them after the ETL pipeline). `1` is the default single-writer mode.
    pub writers: usize,
    /// ETL pipeline steps. None means the identity transform.
    pub etl: Vec<EtlStep>,
    /// Raw config blob for each step.
    pub etl_configs: Vec<Json>,
}

/// State keys and what they follow.
pub type StateSpecs = Seq<(Seq<char>, StateSpecV)>;

/// What a [`JobConfig`] says.
#[verifier::ext_equal]
pub struct JobV {
    pub name: Seq<char>,
    pub description: Seq<char>,
    pub enabled: bool,
    pub source: SourceV,
    pub target: TargetV,
    pub mode: SyncMode,
    pub state: StateSpecs,
    pub cron: Seq<char>,
    pub writers: int,
    pub etl: Seq<EtlStepV>,
    pub etl_configs: Seq<JsonV>,
}

impl View for JobConfig {
    type V = JobV;

    open spec fn view(&self) -> JobV {
        JobV {
            name: self.name@,
            description: self.description@,
            enabled: self.enabled,
            source: self.source@,
            target: self.target@,
            mode: self.mode,
            state: self.state@,
            cron: self.cron@,
            writers: self.writers as int,
            etl: views::list(self.etl@),
            etl_configs: views::list(self.etl_configs@),
        }
    }
}

/// The state keys of a job.
pub open spec fn state_specs(h: Seq<(NodeV, NodeV)>) -> StateSpecs
    decreases h.len(),
{
    if h.len() == 0 {
        Seq::empty()
    } else {
        strmap::put(
            state_specs(h.drop_last()),
            config::text_or(h.last().0, ""@),
            StateSpecV {
                kind: config::text_or(h.last().1.field("type"@), "max"@),
                column: config::text_or(h.last().1.field("column"@), ""@),
            },
        )
    }
}

fn read_state_specs(n: &Node) -> (out: StrMap<StateSpec>)
    ensures
        out@ == (match n@.entries() {
            Some(h) => state_specs(h),
            None => Seq::empty(),
        }),
{
    let mut out: StrMap<StateSpec> = StrMap::new();
    if let Some(h) = n.as_hash() {
        let ghost all = yaml::entries_view(h@);
        let mut i: usize = 0;
        assert(all.take(0) =~= Seq::empty());
        while i < h.len()
            invariant
                i <= h.len(),
                all == yaml::entries_view(h@),
                out@ == state_specs(all.take(i as int)),
            decreases h.len() - i,
        {
            assert(all.take(i + 1).drop_last() =~= all.take(i as int));
            assert(all.take(i + 1).last() == (h@[i as int].0@, h@[i as int].1@));
            let spec_of = StateSpec {
                kind: str_or(h[i].1.index("type"), "max"),
                column: str_or(h[i].1.index("column"), ""),
            };
            out.insert(str_or(&h[i].0, ""), spec_of);
            i += 1;
        }
        assert(all.take(i as int) =~= all);
    }
    out
}

/// Whether a custom statement is given.
pub open spec fn has_select(src: NodeV) -> bool {
    src.field("select"@).text() matches Some(s) && text::trim(s) != ""@
}

pub open spec fn source(src: NodeV, connection: Seq<char>) -> SourceV {
    SourceV {
        connection,
        table: config::text_or(src.field("table"@), ""@),
        columns: csv(src.field("columns"@).text()),
        where_clause: src.field("where"@).text(),
        primary_key: key_columns(src.field("primary_key"@)),
        batch_limit: match src.field("batch_limit"@).number() {
            Some(n) => if n > 0 {
                Some(n as u64)
            } else {
                None
            },
            None => None,
        },
        select: src.field("select"@).text(),
    }
}

fn opt_text(n: &Node) -> (out: Option<String>)
    ensures
        views::opt(out) == n@.text(),
{
    match n.as_str() {
        Some(s) => Some(copy(s)),
        None => None,
    }
}

fn read_source(src: &Node, connection: &str) -> (out: SourceConfig)
    ensures
        out@ == source(src@, connection@),
{
    SourceConfig {
        connection: copy(connection),
        table: str_or(src.index("table"), ""),
        columns: split_csv(src.index("columns").as_str()),
        where_clause: opt_text(src.index("where")),
        primary_key: read_key_columns(src.index("primary_key")),
        batch_limit: match src.index("batch_limit").as_i64() {
            Some(n) => if n > 0 {
                Some(n as u64)
            } else {
                None
            },
            None => None,
        },
        select: opt_text(src.index("select")),
    }
}

/// What is missing in a job, in words.
pub open spec fn fault(name: Seq<char>, what: Seq<char>) -> AppErrorV {
    AppErrorV::Config("job '"@ + name + "': "@ + what)
}

fn faulty(name: &str, what: &str) -> (out: AppError)
    ensures
        out@ == fault(name@, what@),
{
    AppError::Config(cat4("job '", name, "': ", what))
}

/// The job that a document describes, or the first thing that is wrong with it.
pub open spec fn job(path: Seq<char>, y: NodeV) -> Result<JobV, AppErrorV> {
    let src = y.field("source"@);
    let tgt = y.field("target"@);
    let mode_word = config::text_or(y.field("sync"@).field("mode"@), "upsert"@);
    match y.field("name"@).text() {
        None => Err(AppErrorV::Config(path + ": missing name"@)),
        Some(name) => if src.field("connection"@).text() is None {
            Err(fault(name, "source.connection"@))
        } else if config::text_or(src.field("table"@), ""@) == ""@ && !has_select(src) {
            Err(fault(name, "source needs a 'table' or a non-empty 'select'"@))
        } else if tgt.field("connection"@).text() is None {
            Err(fault(name, "target.connection"@))
        } else if tgt.field("table"@).text() is None {
            Err(fault(name, "target.table"@))
        } else if SyncMode::named(mode_word) is None {
            Err(fault(name, model::unknown_mode(mode_word).words()))
        } else if y.field("schedule"@).field("cron"@).text() is None {
            Err(fault(name, "schedule.cron"@))
        } else {
            match pipeline(y) {
                Err(e) => Err(e),
                Ok(p) => Ok(
                    JobV {
                        name,
                        description: config::text_or(y.field("description"@), ""@),
                        enabled: match y.field("enabled"@).truth() {
                            Some(b) => b,
                            None => true,
                        },
                        source: source(src, src.field("connection"@).text()->Some_0),
                        target: TargetV {
                            connection: tgt.field("connection"@).text()->Some_0,
                            table: tgt.field("table"@).text()->Some_0,
                            columns: csv(tgt.field("columns"@).text()),
                            primary_key: key_columns(tgt.field("primary_key"@)),
                        },
                        mode: SyncMode::named(mode_word)->Some_0,
                        state: match y.field("sync"@).field("state"@).entries() {
                            Some(h) => state_specs(h),
                            None => Seq::empty(),
                        },
                        cron: y.field("schedule"@).field("cron"@).text()->Some_0,
                        writers: config::word(config::number_or(y.field("writers"@), 1, 1)),
                        etl: p.0,
                        etl_configs: p.1,
                    },
                ),
            }
        },
    }
}

impl JobConfig {
    /// The job that a document describes.
    pub fn from_document(path: &str, y: &Node) -> (out: AppResult<JobConfig>)
        ensures
            views::res(out) == job(path@, y@),
    {
        let name = match y.index("name").as_str() {
            Some(n) => copy(n),
            None => {
                return Err(AppError::Config(cat2(path, ": missing name")));
            },
        };
        let src = y.index("source");
        let src_conn = match src.index("connection").as_str() {
            Some(c) => copy(c),
            None => {
                return Err(faulty(name.as_str(), "source.connection"));
            },
        };
        let src_table = str_or(src.index("table"), "");
        let selects = match src.index("select").as_str() {
            Some(s) => {
                let t = trimmed(s);
                !same(t.as_str(), "")
            },
            None => false,
        };
        if same(src_table.as_str(), "") && !selects {
            return Err(faulty(name.as_str(), "source needs a 'table' or a non-empty 'select'"));
        }
        let source = read_source(src, src_conn.as_str());
        let tgt = y.index("target");
        let tgt_conn = match tgt.index("connection").as_str() {
            Some(c) => copy(c),
            None => {
                return Err(faulty(name.as_str(), "target.connection"));
            },
        };
        let tgt_table = match tgt.index("table").as_str() {
            Some(t) => copy(t),
            None => {
                return Err(faulty(name.as_str(), "target.table"));
            },
        };
        let target = TargetConfig {
            connection: tgt_conn,
            table: tgt_table,
            columns: split_csv(tgt.index("columns").as_str()),
            primary_key: read_key_columns(tgt.index("primary_key")),
        };
        let mode_word = str_or(y.index("sync").index("mode"), "upsert");
        let mode = match SyncMode::from_str(mode_word.as_str()) {
            Ok(m) => m,
            Err(e) => {
                let words = e.message();
                return Err(faulty(name.as_str(), words.as_str()));
            },
        };
        let state = read_state_specs(y.index("sync").index("state"));
        let cron = match y.index("schedule").index("cron").as_str() {
            Some(c) => copy(c),
            None => {
                return Err(faulty(name.as_str(), "schedule.cron"));
            },
        };
        let writers = to_word(int_or(y.index("writers"), 1, 1));
        match read_pipeline(y) {
            Err(e) => Err(e),
            Ok((etl, etl_configs)) => Ok(
                JobConfig {
                    name,
                    description: str_or(y.index("description"), ""),
                    enabled: match y.index("enabled").as_bool() {
                        Some(b) => b,
                        None => true,
                    },
                    source,
                    target,
                    mode,
                    state,
                    cron,
                    writers,
                    etl,
                    etl_configs,
                },
            ),
        }
    }

    /// The job of a file, from its text. A text that is no YAML or holds no
    /// document is an error, so broken jobs are reported.
    pub fn load(path: &str, text: &str) -> (out: AppResult<JobConfig>)
        ensures
            views::res(out) == (match config::first_document(path@, text@) {
                Err(e) => Err(e),
                Ok(n) => job(path@, n),
            }),
    {
        match read_document(path, text) {
            Err(e) => Err(e),
            Ok(n) => JobConfig::from_document(path, &n),
        }
    }
}

/// Takes note of a job's name; a name that another job has is refused.
pub fn claim_name(seen: &mut StrMap<bool>, name: &str, file: &str) -> (out: AppResult<()>)
    ensures
        match out {
            Ok(_) => strmap::at(old(seen)@, name@) is None && final(seen)@ == strmap::put(old(seen)@, name@, true),
            Err(e) => strmap::at(old(seen)@, name@) is Some && final(seen)@ == old(seen)@ && e@ == AppErrorV::Config(
                "duplicate job name '"@ + name@ + "' (from "@ + file@ + ")"@,
            ),
        },
{
    if seen.contains_key(name) {
        Err(AppError::Config(cat5("duplicate job name '", name, "' (from ", file, ")")))
    } else {
        seen.insert(copy(name), true);
        Ok(())
    }
}

/// Law: a job has one configuration for each step, in the same order.
pub proof fn law_each_step_has_its_configuration(path: Seq<char>, y: NodeV)
    requires
        job(path, y) is Ok,
    ensures
        job(path, y)->Ok_0.etl.len() == job(path, y)->Ok_0.etl_configs.len(),
{
    match y.field("etl"@).items() {
        Some(v) => lemma_steps_len(v),
        None => lemma_steps_len(seq![y.field("etl"@)]),
    }
}

proof fn lemma_steps_len(v: Seq<NodeV>)
    ensures
        steps(v) matches Ok(s) ==> s.0.len() == s.1.len(),
    decreases v.len(),
{
    if v.len() > 0 {
        lemma_steps_len(v.drop_last());
    }
}

// ---------------------------------------------------------------------------
// What a job takes from its document
// ---------------------------------------------------------------------------

proof fn lemma_names_append(a: Seq<Seq<char>>, b: Seq<Seq<char>>)
    ensures
        names(a + b) == names(a) + names(b),
    decreases b.len(),
{
    if b.len() == 0 {
        assert(a + b =~= a);
    } else {
        lemma_names_append(a, b.drop_last());
        assert((a + b).drop_last() =~= a + b.drop_last());
        assert((a + b).last() == b.last());
        assert(names(a + b) =~= names(a) + names(b));
    }
}

/// Law: a list separated by commas is the names before a comma, then those behind
/// it; without a comma it is one name, trimmed, or none where it is blank.
pub proof fn law_commas_separate_names(a: Seq<char>, b: Seq<char>)
    ensures
        csv(Some(a + seq![','] + b)) == csv(Some(a)) + csv(Some(b)),
        !a.contains(',') ==> csv(Some(a)) == (if text::trim(a).len() == 0 {
            Seq::<Seq<char>>::empty()
        } else {
            seq![text::trim(a)]
        }),
        csv(None) == Seq::<Seq<char>>::empty(),
{
    text::law_split_at_a_separator(a, b, ',');
    lemma_names_append(text::split(a, ','), text::split(b, ','));
    if !a.contains(',') {
        text::law_split_without_a_separator(a, ',');
        let p = seq![a];
        assert(p.drop_last() =~= Seq::<Seq<char>>::empty());
        reveal_strlit("");
        assert(text::trim(a).len() == 0 ==> text::trim(a) =~= ""@);
        assert(names(p.drop_last()) =~= Seq::<Seq<char>>::empty());
        assert(names(p) =~= (if text::trim(a).len() == 0 {
            Seq::<Seq<char>>::empty()
        } else {
            seq![text::trim(a)]
        }));
    }
}

/// Law: key columns in a list are its texts, trimmed, without blank ones and other
/// nodes, in order; key columns in one text are separated by commas.
pub proof fn law_key_columns_are_listed(v: Seq<NodeV>, s: Seq<char>, other: NodeV)
    requires
        !(other is String),
    ensures
        key_columns(NodeV::Array(Seq::empty())) == Seq::<Seq<char>>::empty(),
        key_columns(NodeV::Array(v.push(NodeV::String(s)))) == (if text::trim(s).len() == 0 {
            key_columns(NodeV::Array(v))
        } else {
            key_columns(NodeV::Array(v)).push(text::trim(s))
        }),
        key_columns(NodeV::Array(v.push(other))) == key_columns(NodeV::Array(v)),
        key_columns(NodeV::String(s)) == csv(Some(s)),
        !(other is Array) ==> key_columns(other) == Seq::<Seq<char>>::empty(),
{
    let a = v.push(NodeV::String(s));
    let b = v.push(other);
    assert(a.drop_last() =~= v);
    assert(b.drop_last() =~= v);
    let t = texts(v).push(s);
    assert(t.drop_last() =~= texts(v));
    reveal_strlit("");
    assert(text::trim(s).len() == 0 ==> text::trim(s) =~= ""@);
    assert(texts(Seq::<NodeV>::empty()) =~= Seq::<Seq<char>>::empty());
}

/// Law: a job is switched on unless its document says otherwise: `enabled` is the
/// truth value written there, and true where none is.
pub proof fn law_job_is_enabled_as_written(path: Seq<char>, y: NodeV)
    requires
        job(path, y) is Ok,
    ensures
        forall|b: bool| y.field("enabled"@) == NodeV::Boolean(b) ==> #[trigger] job(path, y)->Ok_0.enabled == b,
        !(y.field("enabled"@) is Boolean) ==> job(path, y)->Ok_0.enabled,
        !job(path, y)->Ok_0.enabled <==> y.field("enabled"@) == NodeV::Boolean(false),
{
}

/// Law: a job reads from the connection, table, columns, condition, keys and query
/// that its document names under `source`. Only a positive `batch_limit` counts.
pub proof fn law_job_reads_its_source(path: Seq<char>, y: NodeV)
    requires
        job(path, y) is Ok,
    ensures
        ({
            let s = job(path, y)->Ok_0.source;
            let d = y.field("source"@);
            &&& d.field("connection"@) == NodeV::String(s.connection)
            &&& d.field("table"@) == NodeV::String(s.table) || (!(d.field("table"@) is String) && s.table.len() == 0)
            &&& s.columns == csv(d.field("columns"@).text())
            &&& s.primary_key == key_columns(d.field("primary_key"@))
            &&& match s.where_clause {
                Some(w) => d.field("where"@) == NodeV::String(w),
                None => !(d.field("where"@) is String),
            }
            &&& match s.select {
                Some(q) => d.field("select"@) == NodeV::String(q),
                None => !(d.field("select"@) is String),
            }
            &&& match s.batch_limit {
                Some(n) => n > 0 && (d.field("batch_limit"@) matches NodeV::Integer(i) && i == n),
                None => !(d.field("batch_limit"@) matches NodeV::Integer(i) && i > 0),
            }
            &&& s.table.len() > 0 || (s.select matches Some(q) && text::trim(q).len() > 0)
        }),
{
    reveal_strlit("");
    let d = y.field("source"@);
    let s = job(path, y)->Ok_0.source;
    assert(s.table.len() == 0 ==> s.table =~= ""@);
    if let NodeV::String(q) = d.field("select"@) {
        assert(text::trim(q).len() == 0 ==> text::trim(q) =~= ""@);
    }
}

/// Law: a job writes to the connection, table, columns and keys that its document
/// names under `target`, in the mode named under `sync`, or by upserts where none
/// is named.
pub proof fn law_job_writes_its_target(path: Seq<char>, y: NodeV)
    requires
        job(path, y) is Ok,
    ensures
        ({
            let j = job(path, y)->Ok_0;
            let d = y.field("target"@);
            &&& d.field("connection"@) == NodeV::String(j.target.connection)
            &&& d.field("table"@) == NodeV::String(j.target.table)
            &&& j.target.columns == csv(d.field("columns"@).text())
            &&& j.target.primary_key == key_columns(d.field("primary_key"@))
            &&& match y.field("sync"@).field("mode"@) {
                NodeV::String(w) => text::lower(w) == j.mode.word(),
                _ => j.mode == SyncMode::Upsert,
            }
        }),
{
    reveal_strlit("full");
    reveal_strlit("upsert");
    reveal_strlit("append");
    assert(text::lower("upsert"@) =~= "upsert"@);
    assert("upsert"@[0] == 'u' && "full"@[0] == 'f' && "append"@[0] == 'a');
}

/// Law: a job has the name and the schedule that its document names, its
/// description or an empty one, and as many writers as it asks for, at least one.
pub proof fn law_job_is_named_and_scheduled(path: Seq<char>, y: NodeV)
    requires
        job(path, y) is Ok,
    ensures
        ({
            let j = job(path, y)->Ok_0;
            &&& y.field("name"@) == NodeV::String(j.name)
            &&& y.field("schedule"@).field("cron"@) == NodeV::String(j.cron)
            &&& y.field("description"@) == NodeV::String(j.description) || (!(y.field("description"@) is String)
                && j.description.len() == 0)
            &&& y.field("writers"@) matches NodeV::Integer(n) ==> (1 <= n <= usize::MAX ==> j.writers == n) && (n < 1
                ==> j.writers == 1)
            &&& !(y.field("writers"@) is Integer) ==> j.writers == 1
        }),
{
    reveal_strlit("");
    config::lemma_word_fits(config::number_or(y.field("writers"@), 1, 1));
}

/// Law: the state keys of a job are the keys under `sync.state`; a later entry
/// replaces an earlier one of the same key. Each has the kind and the column that
/// its entry names, `max` and none where it names none.
pub proof fn law_state_keys_are_listed(h: Seq<(NodeV, NodeV)>, k: Seq<char>, v: NodeV, other: Seq<char>)
    ensures
        strmap::ordered(state_specs(h)),
        state_specs(Seq::empty()) == Seq::<(Seq<char>, StateSpecV)>::empty(),
        strmap::at(state_specs(h.push((NodeV::String(k), v))), k) matches Some(x) && {
            &&& match v.field("type"@) {
                NodeV::String(t) => x.kind == t,
                _ => x.kind == "max"@,
            }
            &&& match v.field("column"@) {
                NodeV::String(c) => x.column == c,
                _ => x.column.len() == 0,
            }
        },
        other != k ==> strmap::at(state_specs(h.push((NodeV::String(k), v))), other) == strmap::at(state_specs(h), other),
    decreases h.len(),
{
    reveal_strlit("");
    if h.len() > 0 {
        law_state_keys_are_listed(h.drop_last(), k, v, other);
        strmap::lemma_put(
            state_specs(h.drop_last()),
            config::text_or(h.last().0, ""@),
            StateSpecV {
                kind: config::text_or(h.last().1.field("type"@), "max"@),
                column: config::text_or(h.last().1.field("column"@), ""@),
            },
        );
    }
    let p = state_specs(h);
    let x = StateSpecV {
        kind: config::text_or(v.field("type"@), "max"@),
        column: config::text_or(v.field("column"@), ""@),
    };
    assert(h.push((NodeV::String(k), v)).drop_last() =~= h);
    strmap::lemma_put(p, k, x);
    strmap::lemma_dict(strmap::put(p, k, x), k);
    strmap::lemma_dict(strmap::put(p, k, x), other);
    strmap::lemma_dict(p, other);
}

/// Law: the state keys of a job are those listed under `sync.state`, and none
/// where nothing is listed there.
pub proof fn law_job_keeps_its_state_keys(path: Seq<char>, y: NodeV)
    requires
        job(path, y) is Ok,
    ensures
        y.field("sync"@).field("state"@) matches NodeV::Hash(h) ==> job(path, y)->Ok_0.state == state_specs(h),
        !(y.field("sync"@).field("state"@) is Hash) ==> job(path, y)->Ok_0.state.len() == 0,
{
}

/// Law: a step by name alone has no configuration, and so does one under `plugin`
/// or `builtin` that names none; a mapping whose first key is another text names
/// its step by that key and configures it by the value.
pub proof fn law_step_forms(h: Seq<(NodeV, NodeV)>, name: Seq<char>, cfg: NodeV)
    ensures
        step(NodeV::String(name)) matches Ok(x) && x.0.name == name && x.1 == NodeV::Null,
        yaml::under(h, "plugin"@) == Some(NodeV::String(name)) && name.len() > 0 ==> (step(NodeV::Hash(h)) matches Ok(x)
            && x.0.name == name && x.0.kind == EtlStepKind::Plugin && x.1 == step_config(h)),
        yaml::under(h, "plugin"@) is None && yaml::under(h, "builtin"@) == Some(NodeV::String(name)) ==> (step(
            NodeV::Hash(h),
        ) matches Ok(x) && x.0.name == name && x.1 == step_config(h)),
        yaml::under(h, "plugin"@) is None && yaml::under(h, "builtin"@) is None && h.len() > 0 && h[0] == (
            NodeV::String(name),
            cfg,
        ) ==> (step(NodeV::Hash(h)) matches Ok(x) && x.0.name == name && x.1 == cfg),
        yaml::under(h, "config"@) == Some(cfg) ==> step_config(h) == cfg,
        yaml::under(h, "config"@) is None ==> step_config(h) == NodeV::Null,
{
    reveal_strlit("");
}

/// Law: a step that is not under `plugin` is built in just where its name is
/// `rename`, `set`, `filter` or `cast`.
pub proof fn law_four_steps_are_built_in(n: NodeV)
    requires
        step(n) is Ok,
        n matches NodeV::Hash(h) ==> yaml::under(h, "plugin"@) is None,
    ensures
        step(n)->Ok_0.0.kind == EtlStepKind::Builtin <==> step(n)->Ok_0.0.name == "rename"@ || step(n)->Ok_0.0.name
            == "set"@ || step(n)->Ok_0.0.name == "filter"@ || step(n)->Ok_0.0.name == "cast"@,
{
}

/// Law: the steps of a list are read one after the other, each with its own
/// configuration; the first fault ends the reading.
pub proof fn law_steps_are_read_in_order(v: Seq<NodeV>, n: NodeV)
    ensures
        steps(Seq::empty()) == Ok::<Steps, AppErrorV>((Seq::empty(), Seq::empty())),
        steps(v) matches Err(e) ==> steps(v.push(n)) == Err::<Steps, AppErrorV>(e),
        steps(v) is Ok ==> (step(n) matches Err(e) ==> steps(v.push(n)) == Err::<Steps, AppErrorV>(e)),
        steps(v) is Ok && step(n) is Ok ==> (steps(v.push(n)) matches Ok(s) && s.0 == steps(v)->Ok_0.0.push(
            step(n)->Ok_0.0,
        ) && s.1.len() == steps(v)->Ok_0.1.len() + 1 && s.1.drop_last() == steps(v)->Ok_0.1 && (json::from_yaml(
            step(n)->Ok_0.1,
        ) matches Some(c) ==> s.1.last() == c)),
{
    assert(v.push(n).drop_last() =~= v);
    if steps(v) is Ok && step(n) is Ok {
        let s = steps(v.push(n))->Ok_0;
        assert(s.1.drop_last() =~= steps(v)->Ok_0.1);
    }
}

/// Law: the steps of a job are those of the list under `etl`, or the one step that
/// stands there without a list; nothing else there is a step.
pub proof fn law_job_has_its_steps(path: Seq<char>, y: NodeV)
    requires
        job(path, y) is Ok,
    ensures
        ({
            let j = job(path, y)->Ok_0;
            &&& y.field("etl"@) matches NodeV::Array(v) ==> steps(v) == Ok::<Steps, AppErrorV>((j.etl, j.etl_configs))
            &&& y.field("etl"@) is Hash ==> j.etl.len() == 1 && j.etl_configs.len() == 1 && (step(y.field("etl"@)) matches Ok(
                x,
            ) && j.etl[0] == x.0)
            &&& !(y.field("etl"@) is Array || y.field("etl"@) is Hash) ==> j.etl.len() == 0 && j.etl_configs.len() == 0
        }),
{
    let one = seq![y.field("etl"@)];
    assert(one.drop_last() =~= Seq::<NodeV>::empty());
    assert(steps(Seq::<NodeV>::empty()) == Ok::<Steps, AppErrorV>((Seq::empty(), Seq::empty())));
}

/// Law: a document makes a job just where it names the job, both connections, a
/// table or a query to read, a table to write and a schedule, where its mode is a
/// known one and its steps read.
pub proof fn law_job_loads_where_complete(path: Seq<char>, y: NodeV)
    ensures
        job(path, y) is Ok <==> {
            let s = y.field("source"@);
            let t = y.field("target"@);
            let mode = y.field("sync"@).field("mode"@);
            &&& y.field("name"@) is String
            &&& s.field("connection"@) is String
            &&& (s.field("table"@) matches NodeV::String(x) && x.len() > 0) || (s.field("select"@) matches NodeV::String(x)
                && text::trim(x).len() > 0)
            &&& t.field("connection"@) is String
            &&& t.field("table"@) is String
            &&& mode matches NodeV::String(w) ==> text::lower(w) == "full"@ || text::lower(w) == "upsert"@ || text::lower(w)
                == "append"@
            &&& y.field("schedule"@).field("cron"@) is String
            &&& pipeline(y) is Ok
        },
{
    reveal_strlit("");
    reveal_strlit("upsert");
    assert(text::lower("upsert"@) =~= "upsert"@);
    let s = y.field("source"@);
    if let NodeV::String(x) = s.field("table"@) {
        assert(x.len() == 0 ==> x =~= ""@);
    }
    if let NodeV::String(x) = s.field("select"@) {
        assert(text::trim(x).len() == 0 ==> text::trim(x) =~= ""@);
    }
}

/// Law: a step's configuration is that of its node; a node that is no value of its
/// own is no configuration.
pub proof fn law_configuration_is_that_of_the_node(n: NodeV)
    ensures
        json::from_yaml(n) matches Some(j) ==> config_json(n) == j,
        json::from_yaml(n) is None ==> config_json(n) is Null,
{
}

/// Law: a job that is not complete is refused by its name and by what is missing: the
/// connection of its source, what it reads, the connection and table of its target,
/// its mode or its schedule, in this order; a job without a name by its file.
pub proof fn law_incomplete_job_is_told_what_is_missing(path: Seq<char>, y: NodeV)
    ensures
        !(y.field("name"@) is String) ==> (job(path, y) matches Err(AppErrorV::Config(s)) && text::starts_with(s, path)),
        y.field("name"@) matches NodeV::String(name) ==> {
            let src = y.field("source"@);
            let tgt = y.field("target"@);
            let sourced = src.field("connection"@) is String;
            let reads = (src.field("table"@) matches NodeV::String(t) && t.len() > 0) || has_select(src);
            &&& !sourced ==> job(path, y) == Err::<JobV, AppErrorV>(fault(name, "source.connection"@))
            &&& sourced && reads && !(tgt.field("connection"@) is String) ==> job(path, y) == Err::<JobV, AppErrorV>(
                fault(name, "target.connection"@),
            )
            &&& sourced && reads && tgt.field("connection"@) is String && !(tgt.field("table"@) is String) ==> job(path, y)
                == Err::<JobV, AppErrorV>(fault(name, "target.table"@))
        },
{
    reveal_strlit("");
    text::law_parts_are_found(Seq::empty(), path, ": missing name"@);
    if let NodeV::String(t) = y.field("source"@).field("table"@) {
        assert(t.len() > 0 ==> t != ""@);
    }
}

/// Law: a fault of a job names the job and ends in what is at fault.
pub proof fn law_fault_names_the_job(name: Seq<char>, what: Seq<char>)
    ensures
        fault(name, what) matches AppErrorV::Config(s) && text::starts_with(s, "job '"@ + name) && text::ends_with(s, what),
{
    let p = "job '"@ + name;
    assert(p + "': "@ + what =~= p + ("': "@ + what));
    text::law_parts_are_found(Seq::empty(), p, "': "@ + what);
    text::law_parts_are_found(p + "': "@, what, Seq::empty());
}

} // verus!

use std::cell::RefCell;

use datatransfer::builtin::{FilterConfig, FilterProcessor, SetConfig, SetProcessor};
use datatransfer::clock::Moment;
use datatransfer::config::ConnectionSettings;
use datatransfer::connections::{lookup_err, patience_secs, plugin_failed, AppLookup, ConnectReply, ConnectionManager};
use datatransfer::datasource::Datasource;
use datatransfer::error::{AppError, AppResult, DatasourceError, EtlError};
use datatransfer::etl::{EtlContext, EtlOutputRow, EtlProcessor, EtlRow, Named, TableLookup};
use datatransfer::job::{EtlStep, EtlStepKind, JobConfig};
use datatransfer::json::Json;
use datatransfer::link::Link;
use datatransfer::model::{Column, ConnectionConfig, Row, SyncMode, TableSchema, Value};
use datatransfer::pipeline::{plan_step, EtlPipeline, Step, StepPlan, StepReply};
use datatransfer::reader::{default_literal, infer_type, value_gt, value_rises, Reader};
use datatransfer::runner::{map_columns, update_state, JobRunner, PassReport};
use datatransfer::state::StateStore;
use datatransfer::strmap::StrMap;
use datatransfer::writer::{after_failure, backoff_secs, normalise, AfterFailure, Writer};

/// A database in memory that notes what it is asked.
struct FakeDb {
    rows: Vec<Row>,
    fail_inserts: RefCell<u32>,
    log: RefCell<Vec<String>>,
}

impl FakeDb {
    fn new(rows: Vec<Row>) -> FakeDb {
        FakeDb { rows, fail_inserts: RefCell::new(0), log: RefCell::new(Vec::new()) }
    }

    fn note(&self, s: String) {
        self.log.borrow_mut().push(s);
    }
}

impl Datasource for FakeDb {
    fn name(&self) -> &'static str {
        "fake"
    }

    fn connect(&mut self, _cfg: &ConnectionConfig) -> Result<(), DatasourceError> {
        Ok(())
    }

    fn get_schema(&self, table: &str) -> Result<TableSchema, DatasourceError> {
        let column = |name: &str, ty: &str| Column {
            name: name.into(),
            data_type: ty.into(),
            nullable: true,
            is_primary: false,
            ordinal: 0,
        };
        if table == "t_user" {
            Ok(TableSchema { table: table.into(), columns: vec![column("id", "bigint"), column("at", "DATETIME")] })
        } else {
            Err(DatasourceError::Schema(table.into()))
        }
    }

    fn query(&self, sql: &str) -> Result<Vec<Row>, DatasourceError> {
        self.note(format!("query {sql}"));
        Ok(self.rows.clone())
    }

    fn query_page(&self, sql: &str, offset: u64, limit: u64) -> Result<Vec<Row>, DatasourceError> {
        self.note(format!("page {offset} {limit}"));
        if sql.contains("broken") {
            return Err(DatasourceError::db("no such table"));
        }
        Ok(self.rows.iter().skip(offset as usize).take(limit as usize).cloned().collect())
    }

    fn query_params(&self, sql: &str, params: &Vec<Value>) -> Result<Vec<Row>, DatasourceError> {
        self.note(format!("params {sql} {}", params.len()));
        if sql.contains("broken") {
            return Err(DatasourceError::db("lost"));
        }
        Ok(self.rows.clone())
    }

    fn execute(&self, _sql: &str, _params: &Vec<Value>) -> Result<u64, DatasourceError> {
        Ok(0)
    }

    fn batch_insert(
        &self,
        table: &str,
        columns: &Vec<String>,
        rows: &Vec<Vec<Value>>,
        mode: SyncMode,
        pk_columns: &Vec<String>,
    ) -> Result<u64, DatasourceError> {
        let mut left = self.fail_inserts.borrow_mut();
        if *left > 0 {
            *left -= 1;
            self.note(format!("fail {table}"));
            return Err(DatasourceError::db("busy"));
        }
        self.note(format!(
            "insert {table} [{}] {} {} [{}]",
            columns.join(","),
            rows.len(),
            mode.as_str(),
            pk_columns.join(",")
        ));
        Ok(rows.len() as u64)
    }

    fn truncate(&self, table: &str) -> Result<(), DatasourceError> {
        self.note(format!("truncate {table}"));
        if table == "locked" {
            return Err(DatasourceError::db("locked"));
        }
        Ok(())
    }

    fn ping(&self) -> Result<(), DatasourceError> {
        Ok(())
    }

    fn close(&self) {}
}

fn row(pairs: &[(&str, Value)]) -> Row {
    let mut r = Row::new();
    for (k, v) in pairs {
        r.insert(k.to_string(), v.clone());
    }
    r
}

fn user(id: i64) -> Row {
    row(&[("id", Value::Int(id)), ("name", Value::String(format!("u{id}")))])
}

fn now(d: i64) -> Option<Moment> {
    Some(Moment { secs: d, nanos: 0, offset: 0 })
}

fn names(v: &[&str]) -> Vec<String> {
    v.iter().map(|s| s.to_string()).collect()
}

fn settings(name: &str, conn_type: &str) -> ConnectionSettings {
    ConnectionSettings {
        name: name.into(),
        conn_type: conn_type.into(),
        host: "h".into(),
        port: 5,
        database: "".into(),
        schema: None,
        username: "".into(),
        password: "${PW}".into(),
        params: StrMap::new(),
        max_pool_size: 3,
        connect_timeout_secs: 15,
    }
}

fn manager(rows: Vec<Row>) -> ConnectionManager<FakeDb> {
    let mut m = ConnectionManager::new();
    m.register("src".into(), settings("src", "mysql"), FakeDb::new(rows));
    m.register("tgt".into(), settings("tgt", "oracle"), FakeDb::new(Vec::new()));
    m
}

/// A processor that copies each row to a second table.
struct Twice;

impl Named for Twice {
    fn name(&self) -> &str {
        "twice"
    }
}

impl<L: TableLookup> EtlProcessor<L> for Twice {
    fn process(&self, _ctx: &mut EtlContext<L>, input: &EtlRow) -> Result<Vec<EtlOutputRow>, EtlError> {
        if input.row.get("id") == Some(&Value::Int(13)) {
            return Err(EtlError::proc("unlucky"));
        }
        Ok(vec![
            EtlOutputRow::new(String::new(), input.row.clone()),
            EtlOutputRow::new("copy".into(), input.row.clone()),
        ])
    }
}

const JOB: &str = "
name: j
source: {connection: src, table: t_user, columns: 'id,name', where: 'id > ${state.max_id}', batch_limit: 2}
target: {connection: tgt, table: u, columns: 'ID,NAME', primary_key: ID}
sync:
  mode: full
  state:
    max_id: {column: id}
    unused: {type: min, column: id}
schedule: {cron: x}
";

fn job(text: &str) -> JobConfig {
    JobConfig::load("j.yaml", text).unwrap()
}

fn runner(text: &str, steps: Vec<Step<Twice>>) -> JobRunner<Twice> {
    JobRunner::build(job(text), EtlPipeline { steps }, "state", None, 2, 0).unwrap()
}

fn pass(r: &mut JobRunner<Twice>, conns: &ConnectionManager<FakeDb>) -> AppResult<PassReport> {
    let quiet = |_: u64| {};
    r.run_once(&mut Link::new(conns, &quiet), &now, &StrMap::new())
}

fn asked(conns: &ConnectionManager<FakeDb>, name: &str) -> Vec<String> {
    conns.get(name).unwrap().log.borrow().clone()
}

#[test]
fn a_pass_reads_maps_and_writes() {
    let conns = manager((1..=5).map(user).collect());
    let mut r = runner(JOB, Vec::new());
    assert_eq!((r.page_size, r.flush_threshold), (1, 500));
    let report = pass(&mut r, &conns).unwrap();
    assert_eq!((report.written, report.read_rows), (5, 5));
    assert_eq!(
        *conns.get("src").unwrap().log.borrow(),
        vec!["page 0 2", "page 2 2", "page 4 2", "page 6 2"]
    );
    assert_eq!(*conns.get("tgt").unwrap().log.borrow(), vec!["truncate u", "insert u [ID,NAME] 5 full [ID]"]);
    assert_eq!(r.state.get("max_id"), Some(&Value::Int(5)));
    assert_eq!(r.state.get("unused"), None);
    assert_eq!(report.file.text, "{\n  \"max_id\": 5\n}");
    assert_eq!(report.file.path, "state/j.json");
    assert_eq!(report.file.temp, "state/j.json.tmp");
    assert_eq!(report.file.dir, "state");
}

#[test]
fn a_pass_flushes_at_the_threshold_and_splits_tables() {
    let conns = manager((1..=5).map(user).collect());
    let mut r = runner(JOB, vec![Step::Plugin(Twice)]);
    r.flush_threshold = 2;
    let report = pass(&mut r, &conns).unwrap();
    assert_eq!(report.written, 10);
    assert_eq!(
        *conns.get("tgt").unwrap().log.borrow(),
        vec![
            "truncate u",
            "insert u [ID,NAME] 2 full [ID]",
            "truncate copy",
            "insert copy [ID,NAME] 2 full []",
            "insert u [ID,NAME] 2 full [ID]",
            "insert copy [ID,NAME] 2 full []",
            "insert copy [ID,NAME] 1 full []",
            "insert u [ID,NAME] 1 full [ID]",
        ]
    );
}

#[test]
fn several_writers_lose_no_row() {
    let conns = manager((1..=20).map(user).collect());
    let mut r = runner(&format!("{JOB}writers: 3\n"), Vec::new());
    r.flush_threshold = 4;
    let report = pass(&mut r, &conns).unwrap();
    assert_eq!((report.written, report.read_rows), (20, 20));
}

#[test]
fn failures_of_a_pass() {
    let conns = manager(vec![user(1)]);
    let mut r = runner(&JOB.replace("connection: tgt", "connection: nowhere"), Vec::new());
    let e = pass(&mut r, &conns).unwrap_err();
    assert_eq!(e.message(), "config error: connection 'nowhere' is not connected");

    let mut r = runner(&JOB.replace("state.max_id", "state.none"), Vec::new());
    let e = pass(&mut r, &conns).unwrap_err();
    assert_eq!(e.message(), "template error: state key 'none' referenced but not declared in sync.state");

    let mut r = runner(&JOB.replace("id > ${state.max_id}", "broken"), Vec::new());
    let e = pass(&mut r, &conns).unwrap_err();
    assert_eq!(
        e.message(),
        "datasource error: read t_user (offset 0): database error: no such table\nsql: SELECT `id`, `name` FROM `t_user` WHERE broken"
    );

    let mut r = runner(&JOB.replace("columns: 'ID,NAME', ", "").replace("columns: 'id,name', ", ""), vec![Step::Plugin(Twice)]);
    let conns = manager(vec![user(1), user(13)]);
    let e = pass(&mut r, &conns).unwrap_err();
    assert_eq!(e.message(), "etl error: etl step 'twice': etl processing error: unlucky");
    // the page was read before the row failed
    assert_eq!(r.state.get("max_id"), Some(&Value::Int(13)));

    let conns = manager(vec![user(1)]);
    *conns.get("tgt").unwrap().fail_inserts.borrow_mut() = 9;
    let waits = RefCell::new(Vec::new());
    let wait = |s: u64| waits.borrow_mut().push(s);
    let mut r = runner(JOB, Vec::new());
    let e = r.run_once(&mut Link::new(&conns, &wait), &now, &StrMap::new()).unwrap_err();
    assert_eq!(e.message(), "datasource error: batch_insert u (1 rows) failed after 3 attempts: database error: busy");
    assert_eq!(*waits.borrow(), vec![1, 2]);
}

fn reader_sql(
    conns: &ConnectionManager<FakeDb>,
    conn_type: &str,
    text: &str,
) -> Result<(String, Option<TableSchema>, u64), AppError> {
    let j = job(text);
    let state = StateStore::load("s", "j", None).unwrap();
    let quiet = |_: u64| {};
    let mut link = Link::new(conns, &quiet);
    let r = Reader::new(&mut link, conn_type, j.source, &j.state, &state, 0, &now, &StrMap::new())?;
    Ok((r.sql, r.schema, r.page_size))
}

#[test]
fn reader_builds_its_query() {
    let conns = manager(vec![row(&[("n", Value::Int(1)), ("d", Value::Date("x".into()))])]);
    let (sql, schema, size) = reader_sql(&conns, "mysql", JOB).unwrap();
    assert_eq!(sql, "SELECT `id`, `name` FROM `t_user` WHERE id > 0");
    assert_eq!(schema.unwrap().columns.len(), 2);
    assert_eq!(size, 2);
    let all = JOB.replace("columns: 'id,name', where: 'id > ${state.max_id}', batch_limit: 2", "where: ' '");
    let (sql, _, size) = reader_sql(&conns, "oracle", &all).unwrap();
    assert_eq!(sql, "SELECT * FROM \"t_user\"");
    assert_eq!(size, 1);
    let at = JOB.replace("{column: id}", "{column: at}");
    assert_eq!(
        reader_sql(&conns, "mysql", &at).unwrap().0,
        "SELECT `id`, `name` FROM `t_user` WHERE id > '1970-01-01 00:00:00'"
    );
}

#[test]
fn reader_takes_a_custom_select() {
    let conns = manager(vec![row(&[("n", Value::Int(1)), ("d", Value::Date("x".into()))])]);
    let text = JOB
        .replace("table: t_user, ", "select: ' select * from a where d > ${state.max_id} ; ', ")
        .replace("{column: id}", "{column: d}");
    let (sql, schema, _) = reader_sql(&conns, "oracle", &text).unwrap();
    assert_eq!(sql, "select * from a where d > '1970-01-01 00:00:00' ;");
    assert_eq!(
        asked(&conns, "src"),
        vec!["query SELECT * FROM (select * from a where d > 0) WHERE ROWNUM <= 1"]
    );
    let schema = schema.unwrap();
    assert_eq!(schema.table, "<custom-select>");
    assert_eq!(schema.column_names(), vec!["d", "n"]);
    assert_eq!(schema.get("n").unwrap().data_type, "bigint");
    let empty = manager(Vec::new());
    let (sql, schema, _) = reader_sql(&empty, "mysql", &text).unwrap();
    assert_eq!(sql, "select * from a where d > 0 ;");
    assert!(schema.is_none());
    assert_eq!(
        asked(&empty, "src"),
        vec!["query SELECT * FROM (select * from a where d > 0) dt_probe LIMIT 1"]
    );
}

#[test]
fn reader_pages_until_an_empty_one() {
    let conns = manager(vec![user(1), user(2), user(3)]);
    let j = job(JOB);
    let state = StateStore::load("s", "j", None).unwrap();
    let quiet = |_: u64| {};
    let mut link = Link::new(&conns, &quiet);
    let mut r = Reader::new(&mut link, "mysql", j.source, &j.state, &state, 9, &now, &StrMap::new()).unwrap();
    assert!(r.schema().is_some());
    assert_eq!(r.next_page(&mut link).unwrap().unwrap().len(), 2);
    assert_eq!(r.next_page(&mut link).unwrap().unwrap().len(), 1);
    assert!(r.next_page(&mut link).unwrap().is_none());
    // a finished reader sends no query
    assert!(r.next_page(&mut link).unwrap().is_none());
    assert_eq!(asked(&conns, "src"), vec!["page 0 2", "page 2 2", "page 4 2"]);
}

#[test]
fn first_run_literals() {
    assert_eq!(default_literal("TIMESTAMP(6)"), "'1970-01-01 00:00:00'");
    assert_eq!(default_literal("date"), "'1970-01-01 00:00:00'");
    assert_eq!(default_literal("VarChar(64)"), "''");
    assert_eq!(default_literal("NCLOB"), "''");
    assert_eq!(default_literal("number(10,2)"), "0");
    assert_eq!(infer_type(&Value::Null), "varchar");
    assert_eq!(infer_type(&Value::Bool(true)), "bool");
    assert_eq!(infer_type(&Value::Date("x".into())), "datetime");
}

#[test]
fn values_compare() {
    assert!(value_gt(&Value::Int(2), &Value::Decimal(" 1.5 ".into())));
    assert!(!value_gt(&Value::Int(2), &Value::Int(2)));
    assert!(value_gt(&Value::Date("2024-02".into()), &Value::String("2024-01".into())));
    assert!(!value_gt(&Value::String("5".into()), &Value::Int(1)));
    assert!(!value_gt(&Value::Null, &Value::Int(1)));
}

#[test]
fn state_only_moves_up() {
    let j = job(JOB);
    let mut s = StateStore::load("s", "j", None).unwrap();
    let page = |ids: &[i64]| ids.iter().map(|i| user(*i)).collect::<Vec<Row>>();
    update_state(&mut s, &page(&[3, 7, 5]), &j.state);
    assert_eq!(s.get("max_id"), Some(&Value::Int(7)));
    update_state(&mut s, &page(&[6]), &j.state);
    assert_eq!(s.get("max_id"), Some(&Value::Int(7)));
    update_state(&mut s, &vec![row(&[("id", Value::Null)]), Row::new()], &j.state);
    assert_eq!(s.get("max_id"), Some(&Value::Int(7)));
    update_state(&mut s, &page(&[8]), &j.state);
    assert_eq!(s.get("max_id"), Some(&Value::Int(8)));
}

#[test]
fn marks_move_over_a_pass() {
    let day = |d: &str| row(&[("id", Value::Date(d.into()))]);
    let conns = manager(vec![day("2024-02-01"), day("2024-03-01"), day("2024-01-01"), row(&[("id", Value::Null)]), day("2024-02-09")]);
    let mut r = runner(JOB, Vec::new());
    pass(&mut r, &conns).unwrap();
    assert_eq!(r.state.get("max_id"), Some(&Value::Date("2024-03-01".into())));
    let conns = manager(vec![day("2023-01-01")]);
    pass(&mut r, &conns).unwrap();
    assert_eq!(r.state.get("max_id"), Some(&Value::Date("2024-03-01".into())));
}

#[test]
fn a_failed_pass_wrote_what_was_due() {
    let conns = manager(vec![user(1), user(2), user(3), user(13)]);
    let plain = JOB.replace("columns: 'ID,NAME', ", "").replace("columns: 'id,name', ", "");
    let mut r = runner(&plain, vec![Step::Plugin(Twice)]);
    r.flush_threshold = 2;
    let e = pass(&mut r, &conns).unwrap_err();
    assert_eq!(e.message(), "etl error: etl step 'twice': etl processing error: unlucky");
    assert_eq!(
        *conns.get("tgt").unwrap().log.borrow(),
        vec!["truncate u", "insert u [id,name] 2 full [ID]", "truncate copy", "insert copy [id,name] 2 full []"]
    );
    assert_eq!(r.state.get("max_id"), Some(&Value::Int(13)));
}

#[test]
fn a_full_pass_without_rows_truncates_its_target() {
    let conns = manager(Vec::new());
    let report = pass(&mut runner(JOB, Vec::new()), &conns).unwrap();
    assert_eq!((report.written, report.read_rows), (0, 0));
    assert_eq!(asked(&conns, "src"), vec!["page 0 2"]);
    assert_eq!(asked(&conns, "tgt"), vec!["truncate u"]);
    // so does one whose rows are all dropped
    let conns = manager(vec![user(1)]);
    let dropped = vec![Step::Plugin(Twice), Step::Filter(FilterProcessor {
        filter: FilterConfig { keep: None, drop: Some("NAME not null".into()) },
    })];
    pass(&mut runner(JOB, dropped), &conns).unwrap();
    assert_eq!(asked(&conns, "tgt"), vec!["truncate u"]);
    // no other mode truncates
    let conns = manager(Vec::new());
    pass(&mut runner(&JOB.replace("mode: full", "mode: append"), Vec::new()), &conns).unwrap();
    assert_eq!(asked(&conns, "tgt"), Vec::<String>::new());
    // a target that cannot be truncated fails the pass
    let conns = manager(Vec::new());
    let e = pass(&mut runner(&JOB.replace("table: u,", "table: locked,"), Vec::new()), &conns).unwrap_err();
    assert_eq!(e.message(), "datasource error: truncate locked: database error: locked");
}

#[test]
fn several_writers_truncate_once() {
    let conns = manager((1..=20).map(user).collect());
    let mut r = runner(&format!("{JOB}writers: 3\n"), Vec::new());
    r.flush_threshold = 4;
    pass(&mut r, &conns).unwrap();
    let log = asked(&conns, "tgt");
    assert_eq!(log[0], "truncate u");
    assert_eq!(log.iter().filter(|x| x.starts_with("truncate")).count(), 1);
}

#[test]
fn retries_count_rows_once() {
    let conns = manager(vec![user(1), user(2)]);
    let db = conns.get("tgt").unwrap();
    *db.fail_inserts.borrow_mut() = 1;
    let wait = |s: u64| db.note(format!("wait {s}"));
    let mut r = runner(JOB, Vec::new());
    let report = r.run_once(&mut Link::new(&conns, &wait), &now, &StrMap::new()).unwrap();
    assert_eq!((report.written, report.read_rows), (2, 2));
    assert_eq!(asked(&conns, "tgt"), vec!["truncate u", "fail u", "wait 1", "insert u [ID,NAME] 2 full [ID]"]);
}

#[test]
fn reloaded_marks_compare_as_they_did() {
    let decimal = |s: &str| row(&[("id", Value::Decimal(s.into()))]);
    let conns = manager(vec![decimal("10")]);
    let mut r = runner(JOB, Vec::new());
    let report = pass(&mut r, &conns).unwrap();
    assert_eq!(r.state.get("max_id"), Some(&Value::Decimal("10".into())));
    // the mark comes back from its file as text
    let mut again =
        JobRunner::build(job(JOB), EtlPipeline { steps: Vec::new() }, "state", Some(&report.file.text), 2, 0).unwrap();
    assert_eq!(again.state.get("max_id"), Some(&Value::String("10".into())));
    pass(&mut again, &manager(vec![decimal("9")])).unwrap();
    assert_eq!(again.state.get("max_id"), Some(&Value::String("10".into())));
    pass(&mut again, &manager(vec![decimal("10.5")])).unwrap();
    assert_eq!(again.state.get("max_id"), Some(&Value::Decimal("10.5".into())));
}

#[test]
fn marks_rise_by_value_or_by_text() {
    let text = |s: &str| Value::String(s.into());
    assert!(value_rises(&Value::Decimal("10".into()), &text("9")));
    assert!(!value_rises(&Value::Decimal("9".into()), &text("10")));
    assert!(value_rises(&Value::Int(10), &Value::Decimal("9.5".into())));
    assert!(value_rises(&Value::Date("2024-02".into()), &text("2024-01")));
    assert!(!value_rises(&Value::Int(7), &Value::Int(7)));
    // texts compare as texts, whether or not they are numerals
    assert!(!value_rises(&text("10"), &text("9")));
    assert!(value_rises(&text("9"), &text("10")));
    assert!(value_rises(&text("ab"), &text("9")));
    assert!(value_rises(&text("100"), &text("10")));
    for (a, b) in [("9", "10"), ("ab", "9"), ("A5", "100"), ("x", ""), ("10", "1")] {
        assert_eq!(value_rises(&text(a), &text(b)), value_gt(&text(a), &text(b)));
        assert!(value_rises(&text(a), &text(b)) && !value_rises(&text(b), &text(a)));
    }
    // a number and a text that is none are not compared
    assert!(!value_rises(&text("abc"), &Value::Int(5)));
    assert!(!value_rises(&Value::Int(5), &text("abc")));
}

#[test]
fn text_marks_are_the_maximum_of_their_column() {
    let text = |s: &str| Value::String(s.into());
    let rows = |v: &[&str]| v.iter().map(|s| row(&[("id", text(s))])).collect::<Vec<Row>>();
    let mark = |stored: Option<Value>, v: &[&str]| {
        let mut s = StateStore::load("s", "j", None).unwrap();
        if let Some(m) = stored {
            s.set("max_id".into(), m);
        }
        update_state(&mut s, &rows(v), &job(JOB).state);
        s.get("max_id").cloned()
    };
    // of unequal length
    assert_eq!(mark(Some(text("9")), &["10"]), Some(text("9")));
    assert_eq!(mark(Some(text("10")), &["9"]), Some(text("9")));
    assert_eq!(mark(None, &["8", "10", "9", "100"]), Some(text("9")));
    // numerals among other texts, in any order of the rows
    assert_eq!(mark(Some(text("9")), &["ab"]), Some(text("ab")));
    assert_eq!(mark(Some(text("100")), &["A5"]), Some(text("A5")));
    for v in [["100", "A5", "7f"], ["A5", "7f", "100"], ["7f", "100", "A5"]] {
        assert_eq!(mark(None, &v), Some(text("A5")));
    }
    // dates, after a reload
    assert_eq!(mark(Some(text("2024-01-31")), &["2024-02-01", "2023-12-31"]), Some(text("2024-02-01")));
    // over several pages, and nothing changes when they are read again
    let conns = manager(rows(&["9", "10", "b", "100", "a"]));
    let mut r = runner(JOB, Vec::new());
    pass(&mut r, &conns).unwrap();
    assert_eq!(r.state.get("max_id"), Some(&text("b")));
    pass(&mut r, &conns).unwrap();
    assert_eq!(r.state.get("max_id"), Some(&text("b")));
}

#[test]
fn a_second_pass_changes_no_mark() {
    let conns = manager(vec![user(4), user(9), user(2)]);
    let mut r = runner(JOB, Vec::new());
    let first = pass(&mut r, &conns).unwrap().file.text;
    assert_eq!(r.state.get("max_id"), Some(&Value::Int(9)));
    assert_eq!(pass(&mut r, &conns).unwrap().file.text, first);
}

#[test]
fn columns_map_by_position() {
    let r = || row(&[("a", Value::Int(1)), ("b", Value::Int(2))]);
    let none: Vec<String> = Vec::new();
    assert_eq!(map_columns(r(), &none, &none).columns(), vec!["a", "b"]);
    assert_eq!(map_columns(r(), &none, &names(&["b", "x"])).columns(), vec!["b", "x"]);
    assert_eq!(map_columns(r(), &names(&["a"]), &none).columns(), vec!["a"]);
    let m = map_columns(r(), &names(&["b", "a", "c"]), &names(&["x", "y"]));
    assert_eq!(m.columns(), vec!["x", "y"]);
    assert_eq!(m.get("x"), Some(&Value::Int(2)));
    assert_eq!(m.get("y"), Some(&Value::Int(1)));
}

#[test]
fn rows_are_normalised() {
    let rows = vec![row(&[("b", Value::Int(1))]), row(&[("a", Value::Int(2)), ("b", Value::Int(3))])];
    let (columns, matrix) = normalise(&rows);
    assert_eq!(columns, vec!["b", "a"]);
    assert_eq!(matrix, vec![vec![Value::Int(1), Value::Null], vec![Value::Int(3), Value::Int(2)]]);
}

#[test]
fn writer_truncates_once_and_retries() {
    let conns = manager(Vec::new());
    let db = conns.get("tgt").unwrap();
    let wait = |s: u64| db.note(format!("wait {s}"));
    let mut link = Link::new(&conns, &wait);
    let w = Writer::new("tgt".into(), SyncMode::Full, 1, "main".into());
    let mut truncated = StrMap::new();
    let rows = vec![user(1)];
    let pk = names(&["id"]);
    assert_eq!(w.write_batch(&mut link, &mut truncated, "t", &Vec::new(), &pk).unwrap(), 0);
    *db.fail_inserts.borrow_mut() = 1;
    assert_eq!(w.write_batch(&mut link, &mut truncated, "t", &rows, &pk).unwrap(), 1);
    assert_eq!(w.write_batch(&mut link, &mut truncated, "t", &rows, &pk).unwrap(), 1);
    assert_eq!(
        asked(&conns, "tgt"),
        vec!["truncate t", "fail t", "wait 1", "insert t [id,name] 1 full [id]", "insert t [id,name] 1 full [id]"]
    );
    let e = w.write_batch(&mut link, &mut truncated, "locked", &rows, &pk).unwrap_err();
    assert_eq!(e.message(), "datasource error: truncate locked: database error: locked");
    let w = Writer::new("tgt".into(), SyncMode::Append, 0, "main".into());
    let mut none = StrMap::new();
    w.write_batch(&mut link, &mut none, "t", &rows, &pk).unwrap();
    assert_eq!(none.len(), 0);
}

#[test]
fn writer_pauses_between_its_attempts() {
    let conns = manager(Vec::new());
    let db = conns.get("tgt").unwrap();
    let wait = |s: u64| db.note(format!("wait {s}"));
    let mut link = Link::new(&conns, &wait);
    let w = Writer::new("tgt".into(), SyncMode::Append, 3, "main".into());
    *db.fail_inserts.borrow_mut() = 9;
    let e = w.write_batch(&mut link, &mut StrMap::new(), "t", &vec![user(1)], &names(&["id"])).unwrap_err();
    assert_eq!(e.message(), "datasource error: batch_insert t (1 rows) failed after 4 attempts: database error: busy");
    assert_eq!(asked(&conns, "tgt"), vec!["fail t", "wait 1", "fail t", "wait 2", "fail t", "wait 4", "fail t"]);
}

#[test]
fn writers_of_one_run_truncate_each_table_once() {
    let conns = manager(Vec::new());
    let quiet = |_: u64| {};
    let mut link = Link::new(&conns, &quiet);
    let writer = |tag: &str| Writer::new("tgt".into(), SyncMode::Full, 0, tag.into());
    let (a, b) = (writer("w0"), writer("w1"));
    let mut truncated = StrMap::new();
    let pk = names(&["id"]);
    for (w, table, rows) in [
        (&a, "t", vec![]),
        (&b, "t", vec![user(1)]),
        (&a, "t", vec![user(2)]),
        (&a, "u", vec![user(3)]),
        (&b, "u", vec![user(4)]),
    ] {
        assert_eq!(w.write_batch(&mut link, &mut truncated, table, &rows, &pk).unwrap(), rows.len() as u64);
    }
    let log: Vec<String> = asked(&conns, "tgt").iter().map(|x| x.split(' ').take(2).collect::<Vec<_>>().join(" ")).collect();
    assert_eq!(log, vec!["truncate t", "insert t", "insert t", "truncate u", "insert u", "insert u"]);
}

#[test]
fn backoff_doubles() {
    assert_eq!((backoff_secs(1), backoff_secs(2), backoff_secs(5)), (1, 2, 16));
    assert_eq!((backoff_secs(64), backoff_secs(65)), (1 << 63, 1 << 63));
    let e = DatasourceError::db("x");
    assert!(matches!(after_failure("t", 1, 3, 3, &e), AfterFailure::Wait(4)));
    assert!(matches!(after_failure("t", 1, 3, 4, &e), AfterFailure::GiveUp(_)));
}

#[test]
fn lookups_speak_the_connections_dialect() {
    let conns = manager(vec![user(1)]);
    let l = AppLookup::new(&conns);
    let cols = names(&["a`b"]);
    let rows = l.lookup("src", "t", Some(&cols), Some(" id = ? "), &vec![Value::Int(1)], 7).unwrap();
    assert_eq!(rows.len(), 1);
    assert_eq!(
        *conns.get("src").unwrap().log.borrow(),
        vec!["params SELECT `a``b` FROM `t` WHERE id = ? LIMIT 7 1"]
    );
    l.do_lookup("tgt", "t", None, Some("  "), &Vec::new(), 3).unwrap();
    assert_eq!(
        *conns.get("tgt").unwrap().log.borrow(),
        vec!["params SELECT * FROM \"t\" FETCH FIRST 3 ROWS ONLY 0"]
    );
    let e = l.do_lookup("x", "t", None, None, &Vec::new(), 3).unwrap_err();
    assert_eq!(e.message(), "lookup error: config error: connection 'x' is not connected");
    let e = l.do_lookup("src", "broken", None, None, &Vec::new(), 3).unwrap_err();
    assert_eq!(e.message(), "lookup error: database error: lost");
    assert!(l.quote_ident("x", "t").is_err());
    assert_eq!(l.limit_clause("src", 1).unwrap(), "LIMIT 1");
    assert_eq!(lookup_err(AppError::Config("c".into())).message(), "lookup error: config error: c");
}

#[test]
fn connections_open_in_order_up_to_the_first_fault() {
    let mut wanted = StrMap::new();
    for n in ["b", "a", "c"] {
        wanted.insert(n.to_string(), settings(n, "mysql"));
    }
    let mut env = StrMap::new();
    env.insert("PW".to_string(), "secret".to_string());
    let seen = RefCell::new(Vec::new());
    let connect = |s: &ConnectionSettings| {
        seen.borrow_mut().push(format!("{}:{}", s.name, s.password));
        if s.name == "b" {
            ConnectReply::Refused(DatasourceError::conn("down"))
        } else {
            ConnectReply::Connected(FakeDb::new(Vec::new()))
        }
    };
    let mut m: ConnectionManager<FakeDb> = ConnectionManager::new();
    let e = m.connect_all(&wanted, &env, &connect).unwrap_err();
    assert_eq!(e.message(), "datasource error: connect 'b': connection error: down");
    assert_eq!(*seen.borrow(), vec!["a:secret", "b:secret"]);
    assert_eq!(m.names(), vec!["a"]);
    assert_eq!(m.pool_size("a"), Some(3));
    assert_eq!(m.pool_size("b"), None);
    assert_eq!(m.conn_type("a").unwrap(), "mysql");
    assert!(m.get("b").is_err());
    let slow = |_: &ConnectionSettings| ConnectReply::TimedOut;
    let e = m.connect_all(&wanted, &env, &slow).unwrap_err();
    assert_eq!(e.message(), "datasource error: connect 'a' (mysql@h:5) timed out after 15s");
    let dead = |_: &ConnectionSettings| ConnectReply::Died;
    let e = m.connect_all(&wanted, &env, &dead).unwrap_err();
    assert_eq!(e.message(), "datasource error: connect 'a': worker thread panicked");
    let mut hasty = settings("a", "mysql");
    assert_eq!(patience_secs(&hasty), 15);
    hasty.connect_timeout_secs = 0;
    assert_eq!(patience_secs(&hasty), 1);
    assert_eq!(
        plugin_failed("mysql", "m.so", "bad").message(),
        "config error: datasource plugin 'mysql' (m.so): bad"
    );
}

#[test]
fn pipelines_chain_their_steps() {
    let conns = manager(Vec::new());
    let lookup = AppLookup::new(&conns);
    let input = |id: i64| EtlRow {
        source_connection: "src".into(),
        source_table: "t".into(),
        target_connections: Vec::new(),
        row: user(id),
        source_schema: None,
        target_schema: None,
    };
    let none: EtlPipeline<Twice> = EtlPipeline { steps: Vec::new() };
    let out = none.run(&input(1), &lookup, "main").unwrap();
    assert_eq!((out.len(), out[0].table.as_str()), (1, "main"));
    assert_eq!(out[0].row.columns(), vec!["id", "name"]);
    let mut constant = StrMap::new();
    constant.insert("x".to_string(), Value::Int(0));
    let p = EtlPipeline {
        steps: vec![
            Step::Plugin(Twice),
            Step::Constant(SetProcessor { set: SetConfig { constant: Some(constant) } }),
            Step::Filter(FilterProcessor { filter: FilterConfig { keep: Some("id gt 1".into()), drop: None } }),
        ],
    };
    assert_eq!(p.run(&input(1), &lookup, "main").unwrap().len(), 0);
    let out = p.run(&input(2), &lookup, "main").unwrap();
    assert_eq!(out.len(), 2);
    assert_eq!(out[1].row.get("x"), Some(&Value::Int(0)));
    let e = p.run(&input(13), &lookup, "main").unwrap_err();
    assert_eq!(e.message(), "etl error: etl step 'twice': etl processing error: unlucky");
}

#[test]
fn a_longer_pipeline_is_its_last_step_after_the_rest() {
    let conns = manager(Vec::new());
    let lookup = AppLookup::new(&conns);
    let keep = |e: &str| Step::Filter(FilterProcessor { filter: FilterConfig { keep: Some(e.into()), drop: None } });
    let input = EtlRow {
        source_connection: "src".into(),
        source_table: "t".into(),
        target_connections: Vec::new(),
        row: user(3),
        source_schema: None,
        target_schema: None,
    };
    let run = |steps: Vec<Step<Twice>>| EtlPipeline { steps }.run(&input, &lookup, "main");
    assert_eq!(run(vec![Step::Plugin(Twice)]).unwrap().len(), 2);
    assert_eq!(run(vec![Step::Plugin(Twice), Step::Plugin(Twice)]).unwrap().len(), 4);
    assert_eq!(run(vec![Step::Plugin(Twice), keep("id gt 3")]).unwrap().len(), 0);
    // an error of the rest stays as it is
    let e = run(vec![keep("id"), Step::Plugin(Twice)]).unwrap_err().message();
    assert_eq!(e, run(vec![keep("id")]).unwrap_err().message());
}

#[test]
fn pipelines_are_built_step_by_step() {
    let step = |name: &str, kind: EtlStepKind| EtlStep { name: name.into(), kind };
    let make = |plan: StepPlan, s: &EtlStep, _c: &Json| match plan {
        StepPlan::Plugin if s.name == "twice" => StepReply::Built(Step::Plugin(Twice)),
        StepPlan::Plugin if s.name == "bad" => StepReply::Refused(EtlError::config("no")),
        StepPlan::Plugin => StepReply::NoPlugin(EtlError::config("unknown")),
        _ => StepReply::BadConfig("missing field".into()),
    };
    let build = |steps: Vec<EtlStep>| {
        let configs = steps.iter().map(|_| Json::Null).collect::<Vec<Json>>();
        EtlPipeline::build("j", &steps, &configs, &make)
    };
    assert_eq!(build(vec![step("twice", EtlStepKind::Plugin)]).ok().unwrap().steps.len(), 1);
    let error = |steps: Vec<EtlStep>| build(steps).err().unwrap().message();
    assert_eq!(error(vec![step("rename", EtlStepKind::Builtin)]), "config error: job 'j' rename: missing field");
    assert_eq!(
        error(vec![step("twice", EtlStepKind::Plugin), step("x", EtlStepKind::Plugin)]),
        "config error: job 'j': etl configuration error: unknown"
    );
    assert_eq!(error(vec![step("bad", EtlStepKind::Plugin)]), "etl error: job 'j': etl configuration error: no");
    assert_eq!(
        error(vec![step("zap", EtlStepKind::Builtin)]),
        "config error: job 'j': unknown builtin etl step 'zap'"
    );
    assert!(matches!(plan_step("j", &step("cast", EtlStepKind::Builtin)), Ok(StepPlan::Cast)));
}

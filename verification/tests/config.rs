use datatransfer::config::{read_document, resolve_relative, scalar_str, unreadable, AppConfig};
use datatransfer::job::{claim_name, parse_step, split_csv, EtlStepKind, JobConfig};
use datatransfer::json::{yaml_to_json, Json};
use datatransfer::model::SyncMode;
use datatransfer::strmap::StrMap;
use datatransfer::tokens::expand_env;
use datatransfer::yaml::Node;

fn document(text: &str) -> Node {
    read_document("t.yaml", text).unwrap()
}

#[test]
fn parse_etl_steps() {
    let doc = document(
        "etl:\n  - rename:\n      column:\n        - {from: a, to: b}\n  - plugin: xyz\n    config: {k: v}\n  - filter: {keep: \"a gt 0\"}\n",
    );
    let steps = doc.index("etl").as_vec().unwrap();
    let (s1, _c1) = parse_step(&steps[0]).unwrap();
    assert_eq!(s1.name, "rename");
    assert_eq!(s1.kind, EtlStepKind::Builtin);
    let (s2, c2) = parse_step(&steps[1]).unwrap();
    assert_eq!(s2.name, "xyz");
    assert_eq!(s2.kind, EtlStepKind::Plugin);
    assert_eq!(c2.index("k").as_str(), Some("v"));
    let (s3, _) = parse_step(&steps[2]).unwrap();
    assert_eq!(s3.name, "filter");
    assert_eq!(s3.kind, EtlStepKind::Builtin);
}

fn env_with(name: &str, value: &str) -> StrMap<String> {
    let mut env = StrMap::new();
    env.insert(name.to_string(), value.to_string());
    env
}

#[test]
fn config_expand_env_works() {
    let env = env_with("DT_CFG_PW", "sekret");
    assert_eq!(expand_env("${DT_CFG_PW}", &env), "sekret");
    assert_eq!(expand_env("${env.DT_CFG_PW}", &env), "sekret");
    // unknown vars are left untouched
    assert_eq!(expand_env("x${NOT_SET_ANYWHERE}", &env), "x${NOT_SET_ANYWHERE}");
}

#[test]
fn mod_expand_env_works() {
    let env = env_with("DT_CFG_PW", "sekret");
    assert_eq!(expand_env("${DT_CFG_PW}", &env), "sekret");
    assert_eq!(expand_env("${env.DT_CFG_PW}", &env), "sekret");
    // unknown vars are left untouched
    assert_eq!(expand_env("x${NOT_SET_ANYWHERE}", &env), "x${NOT_SET_ANYWHERE}");
}

#[test]
fn env_tokens_in_the_middle_and_unclosed() {
    let env = env_with("A", "1");
    assert_eq!(expand_env("p${A}q${A}r", &env), "p1q1r");
    assert_eq!(expand_env("p${A}q${A", &env), "p1q${A");
    assert_eq!(expand_env("no tokens } {", &env), "no tokens } {");
    assert_eq!(expand_env("", &env), "");
    assert_eq!(expand_env("${env.env.A}", &env), "${env.env.A}");
}

#[test]
fn csv_split() {
    assert_eq!(split_csv(Some(" id , name ,")), vec!["id", "name"]);
    assert_eq!(split_csv(None), Vec::<String>::new());
}

#[test]
fn csv_split_of_blanks_is_empty() {
    assert_eq!(split_csv(Some(" , ,,")), Vec::<String>::new());
    assert_eq!(split_csv(Some("a b")), vec!["a b"]);
}

#[test]
fn paths_resolve_against_a_directory() {
    assert_eq!(resolve_relative("conf", "a.yaml"), "conf/a.yaml");
    assert_eq!(resolve_relative("conf/", "a.yaml"), "conf/a.yaml");
    assert_eq!(resolve_relative("", "a.yaml"), "a.yaml");
    assert_eq!(resolve_relative("conf", "/etc/a.yaml"), "/etc/a.yaml");
    assert_eq!(resolve_relative("b", &resolve_relative("a", "/x")), "/x");
}

const CONFIG: &str = "
datasource:
  mysql: plugins/mysql.so
  oracle: /opt/oracle.so
  empty: ''
etl: [plugins/a.so, 5, b.so]
jobs:
  - jobs/one.yaml
logging:
  file: logs/app.log
runtime:
  workers: 0
  retry: -2
state_dir: st
";

#[test]
fn main_configuration_is_read() {
    let c = AppConfig::load_main("conf/config.yaml", "conf", CONFIG).unwrap();
    assert_eq!(c.datasource_plugins.keys(), vec!["mysql", "oracle"]);
    assert_eq!(c.datasource_plugins.get("mysql").unwrap(), "conf/plugins/mysql.so");
    assert_eq!(c.datasource_plugins.get("oracle").unwrap(), "/opt/oracle.so");
    assert_eq!(c.etl_plugin_paths, vec!["conf/plugins/a.so", "conf/b.so"]);
    assert_eq!(c.job_files, vec!["conf/jobs/one.yaml"]);
    assert_eq!(c.log_level, "info");
    assert_eq!(c.log_file.as_deref(), Some("conf/logs/app.log"));
    assert_eq!(c.workers, 1);
    assert_eq!(c.retry, 0);
    assert_eq!(c.page_size, 500);
    assert_eq!(c.datasource_file, "datasource.yaml");
    assert_eq!(c.state_dir, "st");
    assert_eq!(c.base_dir, "conf");
}

#[test]
fn main_configuration_defaults() {
    let c = AppConfig::load_main("c", "", "{}").unwrap();
    assert_eq!((c.workers, c.retry, c.page_size), (4, 3, 500));
    assert_eq!(c.state_dir, "state");
    assert!(c.log_file.is_none());
}

#[test]
fn bad_yaml_is_a_config_error() {
    let e = AppConfig::load_main("c.yaml", "", "a: [1").unwrap_err();
    assert!(e.message().starts_with("config error: invalid yaml in c.yaml: "), "{}", e.message());
    // a text without a document is one too
    let none = StrMap::new();
    let empty = "config error: c.yaml: no document";
    assert_eq!(AppConfig::load_main("c.yaml", "", "").unwrap_err().message(), empty);
    assert_eq!(AppConfig::load("c.yaml", "", "# nothing\n", CONNECTIONS, &none).unwrap_err().message(), empty);
    assert_eq!(
        AppConfig::load("c.yaml", "conf", "{}", "", &none).unwrap_err().message(),
        "config error: conf/datasource.yaml: no document"
    );
    assert_eq!(JobConfig::load("c.yaml", "").unwrap_err().message(), empty);
    assert_eq!(read_document("c.yaml", "").unwrap_err().message(), empty);
    assert_eq!(unreadable("c.yaml", "gone").message(), "config error: cannot read c.yaml: gone");
}

const CONNECTIONS: &str = "
connections:
  erp:
    type: mysql
    host: db
    port: 3306
    database: erp
    username: sync
    password: 123456
    params:
      charset: utf8mb4
      retries: 5
  hr:
    type: oracle
    schema: HR
    password: 1.5
    port: 65537
";

#[test]
fn connections_are_read() {
    let mut c = AppConfig::load_main("c", "conf", "{}").unwrap();
    c.load_datasources("ds.yaml", CONNECTIONS, &StrMap::new()).unwrap();
    assert_eq!(c.connections.keys(), vec!["erp", "hr"]);
    let erp = c.connections.get("erp").unwrap();
    assert_eq!(erp.password, "123456");
    assert_eq!(erp.port, 3306);
    assert_eq!(erp.params.get("charset").unwrap(), "utf8mb4");
    assert_eq!(erp.params.get("retries").unwrap(), "");
    assert_eq!((erp.max_pool_size, erp.connect_timeout_secs), (4, 15));
    let hr = c.connections.get("hr").unwrap();
    assert_eq!(hr.host, "localhost");
    assert_eq!(hr.password, "1.5");
    assert_eq!(hr.port, 1);
    assert_eq!(hr.schema.as_deref(), Some("HR"));
    let cfg = erp.to_connection_config();
    assert_eq!(cfg.name, "erp");
    assert_eq!(cfg.param("charset"), Some("utf8mb4"));
    assert_eq!(cfg.param("none"), None);
}

#[test]
fn everything_is_loaded_at_once() {
    let text = CONNECTIONS.replace("123456", "'pw-${DT_PW}'").replace("utf8mb4", "${env.DT_CS}");
    let mut env = env_with("DT_PW", "sekret");
    env.insert("DT_CS".to_string(), "latin1".to_string());
    let c = AppConfig::load("conf/config.yaml", "conf", CONFIG, &text, &env).unwrap();
    assert_eq!(c.job_files, vec!["conf/jobs/one.yaml"]);
    assert_eq!(c.connections.keys(), vec!["erp", "hr"]);
    // secrets are filled in when they are loaded
    let erp = c.connections.get("erp").unwrap();
    assert_eq!(erp.password, "pw-sekret");
    assert_eq!(erp.params.get("charset").unwrap(), "latin1");
    assert_eq!(erp.to_connection_config().password, "pw-sekret");
    // an unknown variable stays
    let c = AppConfig::load("conf/config.yaml", "conf", CONFIG, &text, &StrMap::new()).unwrap();
    assert_eq!(c.connections.get("erp").unwrap().password, "pw-${DT_PW}");
    let e = AppConfig::load("c", "conf", CONFIG, "connections: {a: {host: h}}", &env).unwrap_err();
    assert_eq!(e.message(), "config error: connection 'a': missing type");
}

#[test]
fn two_documents_make_up_the_configuration() {
    let env = env_with("DT_PW", "sekret");
    let datasources = document("connections: {c1: {type: mysql, password: \"${DT_PW}\"}}");
    let c = AppConfig::from_documents(&document("{state_dir: st}"), "conf", &datasources, &env).unwrap();
    assert_eq!(c.state_dir, "st");
    assert_eq!(c.connections.get("c1").unwrap().password, "sekret");
    let e = AppConfig::from_documents(&document("{}"), "conf", &document("a: 1"), &env).unwrap_err();
    assert_eq!(e.message(), "config error: conf/datasource.yaml: missing 'connections' section");
}

#[test]
fn connections_stop_at_the_first_fault() {
    let mut c = AppConfig::load_main("c", "conf", "{}").unwrap();
    let text = "connections:\n  a: {type: mysql}\n  b: {host: x}\n  c: {type: mysql}\n";
    let e = c.load_datasources("ds.yaml", text, &StrMap::new()).unwrap_err();
    assert_eq!(e.message(), "config error: connection 'b': missing type");
    assert_eq!(c.connections.keys(), vec!["a"]);
    let e = c.load_datasources("ds.yaml", "connections:\n  a: {type: t, host: ''}\n", &StrMap::new()).unwrap_err();
    assert_eq!(e.message(), "config error: connection 'a': missing host");
    let e = c.load_datasources("ds.yaml", "connections:\n  5: {type: t}\n", &StrMap::new()).unwrap_err();
    assert_eq!(e.message(), "config error: connection name must be a string");
    let e = c.load_datasources("ds.yaml", "other: 1\n", &StrMap::new()).unwrap_err();
    assert_eq!(e.message(), "config error: conf/ds.yaml: missing 'connections' section");
    // what was there stays
    assert_eq!(c.connections.keys(), vec!["a"]);
}

#[test]
fn scalars_keep_their_value() {
    let d = document("a: 5\nb: 1.50\nc: true\nd: text\ne: [1]\n");
    assert_eq!(scalar_str(d.index("a")), "5");
    assert_eq!(scalar_str(d.index("b")), "1.5");
    assert_eq!(scalar_str(d.index("c")), "true");
    assert_eq!(scalar_str(d.index("d")), "text");
    assert_eq!(scalar_str(d.index("e")), "");
    assert_eq!(scalar_str(d.index("none")), "");
}

const JOB: &str = "
name: user_sync
source:
  connection: mysql_prod
  table: t_user
  primary_key: [id, ' tenant ']
  columns: id,name,age
  where: id > ${state.max_id}
  batch_limit: 100
target:
  connection: pg_test
  table: sys_user
  primary_key: id , tenant
  columns: id,userName,age
sync:
  mode: Append
  state:
    max_id: { type: max, column: id }
    other: {}
etl:
  - cast:
      column: [{ name: amount, type: decimal }]
  - my_step
schedule:
  cron: \"0 */5 * * * *\"
";

#[test]
fn job_is_read() {
    let j = JobConfig::load("j.yaml", JOB).unwrap();
    assert_eq!(j.name, "user_sync");
    assert!(j.enabled);
    assert_eq!(j.source.primary_key, vec!["id", "tenant"]);
    assert_eq!(j.target.primary_key, vec!["id", "tenant"]);
    assert_eq!(j.source.columns, vec!["id", "name", "age"]);
    assert_eq!(j.source.where_clause.as_deref(), Some("id > ${state.max_id}"));
    assert_eq!(j.source.batch_limit, Some(100));
    assert_eq!(j.mode, SyncMode::Append);
    assert_eq!(j.state.get("max_id").unwrap().column, "id");
    assert_eq!(j.state.get("other").unwrap().kind, "max");
    assert_eq!(j.state.get("other").unwrap().column, "");
    assert_eq!(j.cron, "0 */5 * * * *");
    assert_eq!(j.writers, 1);
    assert_eq!(j.etl.len(), 2);
    assert_eq!(j.etl_configs.len(), 2);
    assert_eq!(j.etl[1].kind, EtlStepKind::Plugin);
    match &j.etl_configs[0] {
        Json::Object(o) => assert_eq!(o[0].0, "column"),
        other => panic!("{other:?}"),
    }
    assert!(matches!(j.etl_configs[1], Json::Null));
}

#[test]
fn a_single_step_needs_no_list() {
    let head = "name: n\nsource: {connection: c, table: t}\ntarget: {connection: d, table: u}\nschedule: {cron: x}\n";
    let load = |etl: &str| JobConfig::load("j.yaml", &format!("{head}{etl}")).unwrap();
    let j = load("etl: {builtin: rename, config: {column: []}}\n");
    assert_eq!((j.etl.len(), j.etl[0].name.as_str()), (1, "rename"));
    assert_eq!(j.etl[0].kind, EtlStepKind::Builtin);
    match &j.etl_configs[0] {
        Json::Object(o) => assert_eq!(o[0].0, "column"),
        other => panic!("{other:?}"),
    }
    let j = load("etl: {plugin: xyz}\n");
    assert_eq!((j.etl[0].name.as_str(), j.etl[0].kind), ("xyz", EtlStepKind::Plugin));
    assert_eq!(load("").etl.len(), 0);
}

#[test]
fn joined_names_come_back() {
    for v in [vec![], vec!["id"], vec!["a b", "c.d", "é"]] {
        assert_eq!(split_csv(Some(&v.join(","))), v);
    }
}

#[test]
fn texts_expand_from_the_left() {
    let mut env = env_with("A", "${B}");
    env.insert("B".to_string(), "2".to_string());
    // what is filled in is not looked at again
    assert_eq!(expand_env("x${A}y${B}", &env), "x${B}y2");
    assert_eq!(expand_env("$${B}", &env), "$2");
    assert_eq!(expand_env("${${B}}", &env), "${${B}}");
}

fn job_error(text: &str) -> String {
    JobConfig::load("j.yaml", text).unwrap_err().message()
}

#[test]
fn job_faults_come_in_order() {
    assert_eq!(job_error("x: 1"), "config error: j.yaml: missing name");
    assert_eq!(job_error("name: n"), "config error: job 'n': source.connection");
    assert_eq!(
        job_error("name: n\nsource: {connection: c, select: ' '}"),
        "config error: job 'n': source needs a 'table' or a non-empty 'select'"
    );
    assert_eq!(
        job_error("name: n\nsource: {connection: c, select: 'select 1'}"),
        "config error: job 'n': target.connection"
    );
    let head = "name: n\nsource: {connection: c, table: t}\n";
    assert_eq!(job_error(&format!("{head}target: {{connection: d}}")), "config error: job 'n': target.table");
    let head = format!("{head}target: {{connection: d, table: u}}\n");
    assert_eq!(
        job_error(&format!("{head}sync: {{mode: SWAP}}")),
        "config error: job 'n': invalid arguments: unknown sync mode: swap"
    );
    assert_eq!(job_error(&head), "config error: job 'n': schedule.cron");
    let head = format!("{head}schedule: {{cron: x}}\n");
    assert_eq!(job_error(&format!("{head}etl: [{{plugin: ''}}]")), "config error: etl step: plugin name empty");
    assert_eq!(
        job_error(&format!("{head}etl: [rename, {{5: a}}]")),
        "config error: etl step must be {builtin|plugin|name: ...}, got Hash({Integer(5): String(\"a\")})"
    );
    assert_eq!(
        job_error(&format!("{head}etl: [[1, true]]")),
        "config error: invalid etl step: Array([Integer(1), Boolean(true)])"
    );
    assert!(JobConfig::load("j.yaml", &head).is_ok());
}

#[test]
fn job_names_are_claimed_once() {
    let mut seen = StrMap::new();
    assert!(claim_name(&mut seen, "a", "a.yaml").is_ok());
    assert!(claim_name(&mut seen, "b", "b.yaml").is_ok());
    let e = claim_name(&mut seen, "a", "c.yaml").unwrap_err();
    assert_eq!(e.message(), "config error: duplicate job name 'a' (from c.yaml)");
}

#[test]
fn yaml_becomes_json() {
    let d = document("b: 1.5\na: [1, x, .inf, ~]\n3: true\n");
    match yaml_to_json(&d) {
        Some(Json::Object(o)) => {
            let keys: Vec<&str> = o.iter().map(|e| e.0.as_str()).collect();
            assert_eq!(keys, vec!["", "a", "b"]);
            match &o[1].1 {
                Json::Array(v) => {
                    // infinity has no JSON form
                    assert_eq!(v.len(), 3);
                    assert!(matches!(v[0], Json::Int(1)));
                    assert!(matches!(v[2], Json::Null));
                }
                other => panic!("{other:?}"),
            }
            match &o[2].1 {
                Json::Float(f) => assert_eq!(f.bits, 1.5f64.to_bits()),
                other => panic!("{other:?}"),
            }
        }
        other => panic!("{other:?}"),
    }
}

#[test]
fn copies_of_nodes_are_equal() {
    let d = document("a: [1, {b: x}]\nc: 2.5\n");
    assert_eq!(d.clone().show(), d.show());
    assert_eq!(
        d.show(),
        "Hash({String(\"a\"): Array([Integer(1), Hash({String(\"b\"): String(\"x\")})]), String(\"c\"): Real(\"2.5\")})"
    );
}

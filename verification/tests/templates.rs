use chrono::{Local, TimeZone};

use datatransfer::clock::Moment;
use datatransfer::error::AppError;
use datatransfer::strmap::StrMap;
use datatransfer::templates::{parse_offset, settle_time, state_to_literal, strftime_to_chrono, Template};
use datatransfer::model::Value;

fn moment(t: chrono::DateTime<Local>) -> Moment {
    Moment { secs: t.timestamp(), nanos: t.timestamp_subsec_nanos(), offset: t.offset().local_minus_utc() }
}

fn env() -> StrMap<String> {
    let mut e = StrMap::new();
    e.insert("DT_TEST_VAR".to_string(), "hello".to_string());
    e
}

fn expand(input: &str) -> Result<String, AppError> {
    let fixed = Local.with_ymd_and_hms(2024, 1, 1, 12, 0, 0).unwrap();
    let resolve = |k: &str| {
        if k == "max_id" {
            Ok(Some("42".to_string()))
        } else if k == "broken" {
            Err(AppError::State("gone".to_string()))
        } else {
            Ok(None)
        }
    };
    let now = move |d: i64| {
        chrono::Duration::try_seconds(d).and_then(|d| fixed.checked_add_signed(d)).map(moment)
    };
    let env = env();
    let t = Template { resolve_state: &resolve, now: &now, env: &env };
    t.expand(input)
}

#[test]
fn env_and_state() {
    let out = expand("id > ${state.max_id} and x = '${env.DT_TEST_VAR}'").unwrap();
    assert_eq!(out, "id > 42 and x = 'hello'");
}

#[test]
fn sys_now_offsets() {
    let out = expand("${sys.now('%Y-%m-%d %H:%M:%S')}").unwrap();
    assert_eq!(out, "'2024-01-01 12:00:00'");
    let out = expand("${sys.now('%Y-%m-%d') -1D}").unwrap();
    assert_eq!(out, "'2023-12-31'");
    let out = expand("${sys.now('%H:%M:%S') -30S}").unwrap();
    assert_eq!(out, "'11:59:30'");
}

#[test]
fn more_formats_and_offsets() {
    assert_eq!(expand("${sys.now('%F %T') +90M}").unwrap(), "'2024-01-01 13:30:00'");
    assert_eq!(expand("${ sys. now('%y/%m/%d') 2H }").unwrap(), "'24/01/01'");
    assert_eq!(expand("${sys.now('o''clock')}").unwrap(), "'o''''clock'");
}

#[test]
fn unknown_tokens_are_left_verbatim() {
    assert_eq!(expand("a ${ what } b").unwrap(), "a ${ what } b");
    assert_eq!(expand("no token at all").unwrap(), "no token at all");
    assert_eq!(expand("open ${state.max_id").unwrap(), "open ${state.max_id");
}

fn error(input: &str) -> String {
    expand(input).unwrap_err().message()
}

#[test]
fn template_errors() {
    assert_eq!(error("${state.none}"), "template error: state 'none' has no value");
    assert_eq!(error("${state.broken}"), "state error: gone");
    assert_eq!(error("${env.NONE}"), "template error: environment variable 'NONE' not set");
    assert_eq!(error("${sys.now(%Y)}"), "template error: bad sys.now format: 'now(%Y)'");
    assert_eq!(error("${sys.now('%Q')}"), "template error: unsupported strftime specifier '%Q'");
    assert_eq!(error("${sys.now('%')}"), "template error: trailing '%' in format");
    assert_eq!(error("${sys.now('%Y') x}"), "template error: bad offset: 'x'");
    assert_eq!(error("${sys.now('%Y') 5}"), "template error: bad offset unit: '5'");
    assert_eq!(error("${sys.now('%Y') 5w}"), "template error: bad offset unit 'w' (expected S/M/H/D): '5w'");
    assert_eq!(
        error("${sys.now('%Y') 99999999999999999999S}"),
        "template error: bad offset number: '99999999999999999999S'"
    );
    assert_eq!(
        error("${sys.now('%Y') 9223372036854775807D}"),
        "template error: sys.now offset overflow: '9223372036854775807D'"
    );
    assert_eq!(
        error("${sys.now('%Y') 9223372036854775807S}"),
        "template error: sys.now offset overflow: '9223372036854775807S'"
    );
    let bad = settle_time("now('%Q')", "", "%Q", Some(Moment { secs: 0, nanos: 0, offset: 0 })).unwrap_err();
    assert_eq!(bad.message(), "template error: bad sys.now format: 'now('%Q')'");
}

#[test]
fn offsets_and_formats_are_parsed() {
    assert!(matches!(parse_offset("-30S"), Ok(('-', 30, 'S'))));
    assert!(matches!(parse_offset("+10M"), Ok(('+', 10, 'M'))));
    assert!(matches!(parse_offset("2Days"), Ok(('+', 2, 'D'))));
    assert_eq!(strftime_to_chrono("%F %T %z %Z %%").unwrap(), "%Y-%m-%d %H:%M:%S %z %z %%");
    // a doubled percent sign is a literal one
    assert_eq!(expand("${sys.now('%%')}").unwrap(), "'%'");
    assert_eq!(expand("${sys.now('100%% %%d %d')}").unwrap(), "'100% %d 01'");
}

#[test]
fn state_values_become_literals() {
    assert_eq!(state_to_literal(&Value::Null), "NULL");
    assert_eq!(state_to_literal(&Value::Bool(true)), "1");
    assert_eq!(state_to_literal(&Value::Int(-5)), "-5");
    assert_eq!(state_to_literal(&Value::String("it's".into())), "'it''s'");
    assert_eq!(state_to_literal(&Value::Bytes(vec![0, 171])), "X'00AB'");
}

#[test]
fn templates_expand_from_the_left() {
    assert_eq!(expand("a ${state.max_id} b ${env.DT_TEST_VAR}").unwrap(), "a 42 b hello");
    // the first fault is that of the whole
    let e = expand("${state.none} ${state.broken}").unwrap_err().message();
    assert_eq!(e, expand("${state.none}").unwrap_err().message());
    assert_eq!(expand("x ${state.broken} ${state.none}").unwrap_err().message(), "state error: gone");
}

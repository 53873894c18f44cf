use datatransfer::builtin::{
    cast_value, equal, eval_condition, parse_bool, parse_float, parse_int, parse_numeric, resolve_literal, CastConfig, CastItem,
    CastProcessor, FilterConfig, FilterProcessor, RenameConfig, RenameItem, RenameProcessor, SetConfig, SetProcessor,
};
use datatransfer::error::EtlError;
use datatransfer::etl::{EtlContext, EtlInput, EtlOutputRow, EtlProcessor, EtlRow, Named, TableLookup};
use datatransfer::float::Float;
use datatransfer::model::{Row, TableSchema, Value};
use datatransfer::strmap::StrMap;

struct NoLookup;

impl TableLookup for NoLookup {
    fn lookup(
        &self,
        _connection: &str,
        _table: &str,
        _columns: Option<&Vec<String>>,
        _where_clause: Option<&str>,
        _params: &Vec<Value>,
        _limit: u64,
    ) -> Result<Vec<Row>, EtlError> {
        Ok(Vec::new())
    }
}

fn row(pairs: &[(&str, Value)]) -> Row {
    let mut r = Row::new();
    for (k, v) in pairs {
        r.insert(k.to_string(), v.clone());
    }
    r
}

fn float(f: f64) -> Value {
    Value::Float(Float { bits: f.to_bits(), text: f.to_string() })
}

fn text(s: &str) -> Value {
    Value::String(s.to_string())
}

fn run<P: EtlProcessor<NoLookup>>(p: &P, row: Row) -> Result<Vec<EtlOutputRow>, EtlError> {
    let input = EtlRow {
        source_connection: "c".into(),
        source_table: "t".into(),
        target_connections: Vec::new(),
        row,
        source_schema: None,
        target_schema: Some(TableSchema { table: "target".into(), columns: Vec::new() }),
    };
    let input = EtlInput::from_etl_row(input).to_etl_row();
    let mut ctx = EtlContext::from_row(&input, &NoLookup);
    p.process(&mut ctx, &input)
}

#[test]
fn rename_moves_columns_one_after_the_other() {
    let item = |from: &str, to: &str| RenameItem { from: from.into(), to: to.into() };
    let p = RenameProcessor {
        rename: RenameConfig { column: Some(vec![item("a", "b"), item("b", "c"), item("none", "x")]) },
    };
    assert_eq!(p.name(), "rename");
    let out = run(&p, row(&[("a", Value::Int(1)), ("b", Value::Int(2)), ("z", Value::Int(3))])).unwrap();
    assert_eq!(out.len(), 1);
    assert_eq!(out[0].table, "target");
    assert_eq!(out[0].row.columns(), vec!["c", "z"]);
    assert_eq!(out[0].row.get("c"), Some(&Value::Int(1)));
    let p = RenameProcessor { rename: RenameConfig { column: None } };
    assert_eq!(run(&p, row(&[("a", Value::Null)])).unwrap()[0].row.columns(), vec!["a"]);
}

#[test]
fn set_adds_and_overrides() {
    let mut constant = StrMap::new();
    constant.insert("app".to_string(), text("erp"));
    constant.insert("a".to_string(), Value::Int(9));
    let p = SetProcessor { set: SetConfig { constant: Some(constant) } };
    assert_eq!(p.name(), "set");
    let out = run(&p, row(&[("a", Value::Int(1)), ("b", Value::Int(2))])).unwrap();
    assert_eq!(out[0].row.get("a"), Some(&Value::Int(9)));
    assert_eq!(out[0].row.get("b"), Some(&Value::Int(2)));
    assert_eq!(out[0].row.get("app"), Some(&text("erp")));
}

fn holds(expr: &str) -> bool {
    let r = row(&[
        ("i", Value::Int(5)),
        ("s", text("abc")),
        ("d", Value::Decimal(" 5.0 ".into())),
        ("n", Value::Null),
        ("nan", float(f64::NAN)),
        ("t", Value::Date("2024-01-01".into())),
    ]);
    eval_condition(expr, &r).unwrap()
}

#[test]
fn filter_operators() {
    for e in [
        "i eq 5", "i eq 5.0", "i eq $d", "i ne 6", "i gt 4", "i gte 5", "i lt 5.5", "i lte 5", "s eq abc", "s eq 'abc'",
        "s gt abb", "s lt abd", "n is null", "i not NULL", "x is null", "n null x", "i not_null x", "n ne null",
        "t gt 2023-12-31", "nan gte 1", "nan lte 1",
    ] {
        assert!(holds(e), "{e}");
    }
    for e in ["i eq 6", "i ne 5", "i gt 5", "i lt 5", "n eq null", "nan eq 1", "nan gt 1", "i gt $n", "s null x"] {
        assert!(!holds(e), "{e}");
    }
}

#[test]
fn filter_faults() {
    let r = Row::new();
    let e = eval_condition("  a eq ", &r).unwrap_err();
    assert_eq!(
        e.message(),
        "etl expression error: invalid filter expression: 'a eq' (expected '<column> <op> <value>')"
    );
    let e = eval_condition("a like b", &r).unwrap_err();
    assert_eq!(e.message(), "etl expression error: unsupported operator 'like' in 'a like b'");
    let e = eval_condition("a is 5", &r).unwrap_err();
    assert_eq!(e.message(), "etl expression error: unsupported operator 'is' in 'a is 5'");
}

#[test]
fn filter_keeps_and_drops() {
    let filter = |keep: Option<&str>, drop: Option<&str>| FilterProcessor {
        filter: FilterConfig { keep: keep.map(|s| s.to_string()), drop: drop.map(|s| s.to_string()) },
    };
    let r = || row(&[("a", Value::Int(1))]);
    assert_eq!(run(&filter(None, None), r()).unwrap().len(), 1);
    assert_eq!(run(&filter(Some("a eq 1"), None), r()).unwrap()[0].row.get("a"), Some(&Value::Int(1)));
    assert!(run(&filter(Some("a eq 2"), Some("bad")), r()).unwrap().is_empty());
    assert!(run(&filter(Some("a eq 1"), Some("a eq 1")), r()).unwrap().is_empty());
    assert!(run(&filter(Some("a eq 1"), Some("bad")), r()).is_err());
    assert_eq!(filter(None, None).name(), "filter");
}

#[test]
fn operands() {
    let r = row(&[("a", Value::Int(1))]);
    assert_eq!(resolve_literal("$a", &r), Value::Int(1));
    assert_eq!(resolve_literal("$b", &r), Value::Null);
    assert_eq!(resolve_literal("null", &r), Value::Null);
    assert_eq!(resolve_literal("TRUE", &r), Value::Bool(true));
    assert_eq!(resolve_literal("false", &r), Value::Bool(false));
    assert_eq!(resolve_literal("-3", &r), Value::Int(-3));
    assert_eq!(resolve_literal("2.5", &r), float(2.5));
    assert_eq!(resolve_literal("''x'", &r), text("x"));
    assert!(!equal(&Value::Null, &Value::Null));
    assert!(equal(&Value::Bool(true), &Value::Bool(true)));
    assert!(!equal(&text("5"), &Value::Int(5)));
}

#[test]
fn casts() {
    let as_type = |v: Value, ty: &str| cast_value(&v, ty).unwrap();
    assert_eq!(as_type(text(" 42 "), "INT"), Value::Int(42));
    assert_eq!(as_type(Value::UInt(u64::MAX), "bigint"), Value::Int(-1));
    assert_eq!(as_type(float(-2.9), "integer"), Value::Int(-2));
    assert_eq!(as_type(Value::Int(3), "double"), float(3.0));
    assert_eq!(as_type(Value::Decimal("1e3".into()), "float"), float(1000.0));
    assert_eq!(as_type(text(" Yes "), "bool"), Value::Bool(true));
    assert_eq!(as_type(Value::Int(0), "boolean"), Value::Bool(false));
    assert_eq!(as_type(Value::Bytes(vec![10]), "text"), text("0x0A"));
    assert_eq!(as_type(Value::Date("2024".into()), "varchar"), text("2024"));
    assert_eq!(as_type(Value::Int(5), "decimal"), Value::Decimal("5".into()));
    assert_eq!(as_type(float(1.0), "numeric"), Value::Decimal("1".into()));
    assert_eq!(as_type(Value::Null, "whatever"), Value::Null);
    let e = |v: Value, ty: &str| cast_value(&v, ty).unwrap_err().message();
    assert_eq!(e(Value::Int(1), "Blob"), "etl configuration error: unsupported cast type 'blob'");
    assert_eq!(e(text("x1"), "int"), "etl expression error: cannot cast 'x1' to int: invalid digit found in string");
    assert_eq!(e(text(" "), "int"), "etl expression error: cannot cast ' ' to int: cannot parse integer from empty string");
    assert_eq!(e(text("x"), "float"), "etl expression error: cannot cast 'x' to float: invalid float literal");
    assert_eq!(e(text(""), "float"), "etl expression error: cannot cast '' to float: cannot parse float from empty string");
    assert_eq!(e(text("maybe"), "bool"), "etl expression error: cannot cast 'maybe' to bool");
}

#[test]
fn casts_show_what_they_refuse() {
    let show = |r: Result<bool, EtlError>| r.unwrap_err().message();
    assert_eq!(show(parse_bool(&float(1.0))), "etl expression error: cannot cast Float(1.0) to bool");
    assert_eq!(show(parse_bool(&float(1e100))), "etl expression error: cannot cast Float(1e100) to bool");
    assert_eq!(show(parse_bool(&Value::UInt(3))), "etl expression error: cannot cast UInt(3) to bool");
    assert_eq!(
        show(parse_bool(&Value::Decimal("a\"b\n".into()))),
        "etl expression error: cannot cast Decimal(\"a\\\"b\\n\") to bool"
    );
    assert_eq!(
        parse_int(&Value::Bytes(vec![1, 200])).unwrap_err().message(),
        "etl expression error: cannot cast Bytes([1, 200]) to int"
    );
    assert_eq!(
        parse_float(&Value::Bool(true)).unwrap_err().message(),
        "etl expression error: cannot cast Bool(true) to float"
    );
    assert_eq!(
        parse_numeric(&Value::Date("d".into())).unwrap_err().message(),
        "etl expression error: cannot cast Date(\"d\") to decimal"
    );
    for v in [Value::Int(7), text("x"), Value::Decimal("1.0".into()), float(2.5)] {
        assert!(!format!("{v:?}").is_empty());
    }
}

#[test]
fn cast_processor_stops_at_the_first_fault() {
    let item = |name: &str, ty: &str| CastItem { name: name.into(), target_type: ty.into() };
    let p = CastProcessor {
        cast: CastConfig { column: Some(vec![item("a", "int"), item("none", "int"), item("b", "string")]) },
    };
    assert_eq!(p.name(), "cast");
    let out = run(&p, row(&[("a", text("1")), ("b", Value::Int(2)), ("c", text("x"))])).unwrap();
    assert_eq!(out[0].row.get("a"), Some(&Value::Int(1)));
    assert_eq!(out[0].row.get("b"), Some(&text("2")));
    assert_eq!(out[0].row.get("c"), Some(&text("x")));
    assert!(run(&p, row(&[("a", text("x"))])).is_err());
}

#[test]
fn operators_come_in_opposites() {
    for value in [Value::Int(1), Value::Int(2), Value::Int(3), Value::Null, text("x"), float(2.0)] {
        let r = row(&[("a", value)]);
        let says = |op: &str| eval_condition(&format!("a {op} 2"), &r).unwrap();
        assert_eq!(says("eq"), !says("ne"));
        assert_eq!(says("gt"), !says("lte"));
        assert_eq!(says("lt"), !says("gte"));
        assert_eq!(says("null"), !says("not_null"));
        assert!(!(says("gt") && says("lt")));
        assert!(!says("gt") || says("gte"));
        assert!(!says("lt") || says("lte"));
    }
}

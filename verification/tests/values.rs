use datatransfer::error::{AppError, DatasourceError, EtlError};
use datatransfer::float::{
    bits_of_signed, bits_of_unsigned, float_of_signed, is_below, is_level, is_near, read_float, truncate, Float,
};
use datatransfer::json::{json_to_value, plain_value, value_to_json, Cell};
use datatransfer::model::{default_max_pool, default_timeout, Row, SyncMode, Value};
use datatransfer::strmap::StrMap;

fn doubles() -> Vec<f64> {
    vec![
        0.0,
        -0.0,
        1.0,
        -1.0,
        1.5,
        0.1,
        0.30000000000000004,
        0.3,
        1e-7,
        5e-324,
        -5e-324,
        2.220446049250313e-16,
        1e-300,
        1e16,
        9007199254740993.0,
        9223372036854775807.0,
        -9223372036854775808.0,
        1e19,
        1e308,
        f64::MAX,
        f64::MIN,
        f64::MIN_POSITIVE,
        f64::EPSILON,
        f64::INFINITY,
        f64::NEG_INFINITY,
        f64::NAN,
        1.0 + f64::EPSILON,
        1.0 - f64::EPSILON / 2.0,
        123456.789,
        -0.5,
    ]
}

#[test]
fn doubles_compare_as_the_machine_does() {
    for a in doubles() {
        for b in doubles() {
            assert_eq!(is_below(a.to_bits(), b.to_bits()), a < b, "{a} < {b}");
            assert_eq!(is_level(a.to_bits(), b.to_bits()), a == b, "{a} == {b}");
            assert_eq!(is_near(a.to_bits(), b.to_bits()), (a - b).abs() < f64::EPSILON, "{a} ~ {b}");
        }
    }
}

#[test]
fn closeness_near_the_limit() {
    let e = f64::EPSILON;
    let near_e = f64::from_bits(e.to_bits() - 1);
    for a in [e, near_e, e / 2.0, 1e-200, 5e-324, 1.0, 0.75] {
        for b in [0.0, 5e-324, -5e-324, 1e-200, e / 4.0, -e / 4.0, 1.0 - e / 2.0, 1.0 + e] {
            assert_eq!(is_near(a.to_bits(), b.to_bits()), (a - b).abs() < e, "{a} ~ {b}");
        }
    }
}

#[test]
fn doubles_truncate_as_the_machine_does() {
    for a in doubles() {
        assert_eq!(truncate(a.to_bits()), a as i64, "{a}");
    }
    for a in [4503599627370497.5f64, 0.999, -0.999, 2.9, -2.9, 1e15 + 0.5] {
        assert_eq!(truncate(a.to_bits()), a as i64, "{a}");
    }
}

#[test]
fn whole_numbers_become_doubles_as_on_the_machine() {
    for i in [0i64, 1, -1, 2, 1 << 53, (1 << 53) + 1, (1 << 53) + 3, i64::MAX, i64::MIN, 1234567890123456789, -7] {
        assert_eq!(bits_of_signed(i), (i as f64).to_bits(), "{i}");
        let f = float_of_signed(i);
        assert_eq!(f.bits, (i as f64).to_bits());
        assert_eq!(f.text, (i as f64).to_string());
    }
    for u in [0u64, u64::MAX, u64::MAX - 1024, 1 << 63, (1 << 54) + 2, (1 << 54) + 6] {
        assert_eq!(bits_of_unsigned(u), (u as f64).to_bits(), "{u}");
    }
}

#[test]
fn numerals_read_as_the_machine_does() {
    for s in [
        "1", "1.5", "-2", "+3", ".5", "5.", "1e3", "1E-3", "0x10", "", "abc", "1a", ".", "e5", "inf", "-inf", "+Infinity", "nan",
        "-NaN", ".inf", "-.inf", ".nan", "infin", "1_000", " 1", "1e400", "-0",
    ] {
        let want: Option<f64> = s.parse().ok();
        let got = read_float(s);
        assert_eq!(got.as_ref().map(|f| f.bits), want.map(|f| f.to_bits()), "{s}");
        assert_eq!(got.map(|f| f.text), want.map(|f| f.to_string()), "{s}");
    }
}

#[test]
fn values_as_text() {
    let f = Value::Float(Float { bits: 1.5f64.to_bits(), text: "1.5".into() });
    let all = [
        (Value::Null, "NULL", "NULL"),
        (Value::Bool(true), "1", "true"),
        (Value::Int(i64::MIN), "-9223372036854775808", "-9223372036854775808"),
        (Value::UInt(u64::MAX), "18446744073709551615", "18446744073709551615"),
        (f, "1.5", "1.5"),
        (Value::Decimal("1.50".into()), "'1.50'", "1.50"),
        (Value::String("it's".into()), "'it''s'", "it's"),
        (Value::Bytes(vec![0, 255]), "X'00FF'", "0x00FF"),
        (Value::Date("2024-01-01".into()), "'2024-01-01'", "2024-01-01"),
    ];
    for (v, literal, text) in all {
        assert_eq!(v.sql_literal().unwrap(), literal);
        assert_eq!(v.display(), text);
        assert_eq!(v.clone(), v);
    }
    assert!(Value::Null.is_null());
    assert_eq!(Value::Decimal("1".into()).as_str(), Some("1"));
    assert_eq!(Value::Int(1).as_str(), None);
    assert_ne!(Value::String("1".into()), Value::Decimal("1".into()));
}

#[test]
fn rows_extract_and_project() {
    let mut r = Row::new();
    r.insert("b".into(), Value::Int(2));
    r.insert("a".into(), Value::Int(1));
    assert_eq!(r.columns(), vec!["a", "b"]);
    let cols: Vec<String> = vec!["b".into(), "x".into()];
    assert_eq!(r.extract(&cols), vec![Value::Int(2), Value::Null]);
    let p = r.project(&cols);
    assert_eq!(p.columns(), vec!["b", "x"]);
    assert_eq!(p.get("x"), Some(&Value::Null));
    assert_eq!(p.get("a"), None);
    assert!(Row::default().columns().is_empty());
}

#[test]
fn maps_keep_their_keys_in_order() {
    let mut m: StrMap<String> = StrMap::new();
    for k in ["b", "é", "a", "B", "ab", ""] {
        m.insert(k.to_string(), format!("v{k}"));
    }
    m.insert("a".to_string(), "new".to_string());
    assert_eq!(m.keys(), vec!["", "B", "a", "ab", "b", "é"]);
    assert_eq!(m.len(), 6);
    assert_eq!(m.get("a").unwrap(), "new");
    assert_eq!(m.remove("ab").unwrap(), "vab");
    assert!(m.remove("ab").is_none());
    assert!(!m.contains_key("ab"));
    assert_eq!(m.clone().keys(), m.keys());
}

#[test]
fn modes_read_back() {
    for m in [SyncMode::Full, SyncMode::Upsert, SyncMode::Append] {
        assert_eq!(SyncMode::from_str(m.as_str()).unwrap(), m);
        assert_eq!(SyncMode::from_str(&m.as_str().to_uppercase()).unwrap(), m);
    }
    assert_eq!(SyncMode::from_str("Swap").unwrap_err().message(), "invalid arguments: unknown sync mode: swap");
    assert_eq!((default_max_pool(), default_timeout()), (4, 15));
}

#[test]
fn errors_in_words() {
    assert_eq!(DatasourceError::db("x").message(), "database error: x");
    assert_eq!(DatasourceError::conn("x").message(), "connection error: x");
    assert_eq!(DatasourceError::conversion("x").message(), "value conversion error: x");
    assert_eq!(DatasourceError::Other("x".into()).message(), "x");
    assert_eq!(DatasourceError::Io("x".into()).message(), "io error: x");
    assert_eq!(EtlError::proc("x").message(), "etl processing error: x");
    assert_eq!(EtlError::config("x").message(), "etl configuration error: x");
    let e = EtlError::from_datasource(&DatasourceError::db("x"));
    assert_eq!(e.message(), "lookup error: database error: x");
    assert_eq!(AppError::from_etl(&e).message(), "etl error: lookup error: database error: x");
    assert_eq!(
        AppError::from_datasource(&DatasourceError::Schema("x".into())).message(),
        "datasource error: schema error: x"
    );
    assert_eq!(AppError::Io("x".into()).message(), "io error: x");
}

#[test]
fn json_literals_become_values() {
    assert_eq!(json_to_value(Cell::Float("1.5".into())).display(), "1.5");
    assert_eq!(json_to_value(Cell::Nested("[1]".into())), Value::String("[1]".into()));
    assert_eq!(plain_value(Cell::Int(3)).unwrap(), Value::Int(3));
    assert_eq!(plain_value(Cell::Nested("[1]".into())).unwrap_err(), "cannot convert JSON value to Value: [1]");
    assert!(matches!(value_to_json(&Value::UInt(5)), Cell::Int(5)));
    assert!(matches!(value_to_json(&Value::UInt(u64::MAX)), Cell::UInt(u64::MAX)));
}

#[test]
fn whole_numbers_up_to_two_to_the_53rd_compare_by_value() {
    let top: i64 = 1 << 53;
    for i in [-top, -top + 1, -1, 0, 1, top - 1, top] {
        assert_eq!(bits_of_signed(i), (i as f64).to_bits());
        for j in [-top, 0, top - 1, top] {
            assert_eq!(is_below(bits_of_signed(i), bits_of_signed(j)), i < j);
            assert_eq!(is_level(bits_of_signed(i), bits_of_signed(j)), i == j);
        }
    }
    // the next one is not told apart
    assert!(is_level(bits_of_signed(top), bits_of_signed(top + 1)));
}

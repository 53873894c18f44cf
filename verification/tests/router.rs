use std::collections::HashSet;
use std::hash::Hasher;

use datatransfer::model::{Row, Value};
use datatransfer::router::{hash_row, Router};

fn row(v: i64) -> Row {
    let mut r = Row::new();
    r.insert("id".to_string(), Value::Int(v));
    r
}

#[test]
fn single_writer_always_zero() {
    let mut r = Router::new(1, "t".into(), vec!["id".into()]);
    for v in [1, 2, 3, 99] {
        assert_eq!(r.route("t", &row(v)), 0);
    }
}

#[test]
fn pk_hash_is_deterministic() {
    let mut r1 = Router::new(4, "t".into(), vec!["id".into()]);
    let mut r2 = Router::new(4, "t".into(), vec!["id".into()]);
    for v in (0..100).step_by(7) {
        let row = row(v);
        assert_eq!(r1.route("t", &row), r2.route("t", &row));
    }
}

#[test]
fn no_pk_round_robins() {
    let mut r = Router::new(3, "t".into(), Vec::new());
    let mut seen = HashSet::new();
    for v in 0..9 {
        seen.insert(r.route("t", &row(v)));
    }
    assert_eq!(seen.len(), 3);
    assert!(seen.iter().all(|i| (0..3).contains(i)));
}

#[test]
fn same_key_goes_to_the_same_writer() {
    let mut r = Router::new(5, "t".into(), vec!["id".into()]);
    let first = r.route("t", &row(42));
    for v in 0..7 {
        r.route("other", &row(v));
    }
    let mut wide = row(42);
    wide.insert("name".to_string(), Value::String("x".into()));
    assert_eq!(r.route("t", &wide), first);
    assert!(first < 5);
}

#[test]
fn other_tables_take_turns() {
    let mut r = Router::new(3, "t".into(), vec!["id".into()]);
    let got: Vec<usize> = (0..6).map(|v| r.route("detail", &row(v))).collect();
    assert_eq!(got, vec![0, 1, 2, 0, 1, 2]);
    assert_eq!(Router::new(0, "t".into(), Vec::new()).route("t", &row(1)), 0);
}

#[test]
fn hash_is_that_of_the_default_hasher() {
    let mut h = std::collections::hash_map::DefaultHasher::new();
    h.write(b"id");
    h.write_u8(0xFF);
    h.write_i64(-7);
    h.write_u8(0xFE);
    assert_eq!(hash_row(&row(-7), &vec!["id".to_string()]), h.finish());
    let mut h = std::collections::hash_map::DefaultHasher::new();
    h.write(b"no");
    h.write_u8(0xFF);
    h.write_u8(0x00);
    h.write_u8(0xFE);
    assert_eq!(hash_row(&row(1), &vec!["no".to_string()]), h.finish());
}

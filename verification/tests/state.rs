use datatransfer::float::Float;
use datatransfer::model::Value;
use datatransfer::state::{no_state_dir, safe_file_name, unmovable_state, unreadable_state, unwritable_state, StateStore};

#[test]
fn state_comes_back_as_it_was_saved() {
    let mut s = StateStore::load("state", "user sync", None).unwrap();
    assert_eq!(s.path(), "state/user_sync.json");
    s.set("max_id".into(), Value::Int(42));
    s.set("big".into(), Value::UInt(u64::MAX));
    s.set("small".into(), Value::UInt(7));
    s.set("when".into(), Value::Date("2026-01-01 10:00:00".into()));
    s.set("raw".into(), Value::Bytes(vec![1, 255]));
    s.set("quote".into(), Value::String("a\"b\\\n€".into()));
    s.set("none".into(), Value::Null);
    s.set("yes".into(), Value::Bool(true));
    let file = s.save().unwrap();
    assert_eq!(file.path, "state/user_sync.json");
    assert_eq!(file.temp, "state/user_sync.json.tmp");
    assert_eq!(file.dir, "state");
    let t = StateStore::load("state", "user sync", Some(&file.text)).unwrap();
    assert_eq!(t.get("max_id"), Some(&Value::Int(42)));
    assert_eq!(t.get("big"), Some(&Value::UInt(u64::MAX)));
    assert_eq!(t.get("small"), Some(&Value::Int(7)));
    assert_eq!(t.get("when"), Some(&Value::String("2026-01-01 10:00:00".into())));
    assert_eq!(t.get("raw"), Some(&Value::String("01FF".into())));
    assert_eq!(t.get("quote"), Some(&Value::String("a\"b\\\n€".into())));
    assert_eq!(t.get("none"), Some(&Value::Null));
    assert_eq!(t.get("yes"), Some(&Value::Bool(true)));
    assert_eq!(t.get("other"), None);
    assert_eq!(t.save().unwrap().text, file.text);
}

#[test]
fn doubles_are_kept_as_doubles() {
    let mut s = StateStore::load("state", "j", None).unwrap();
    s.set("f".into(), Value::Float(Float { bits: 1f64.to_bits(), text: "1".into() }));
    s.set("n".into(), Value::Float(Float { bits: f64::NAN.to_bits(), text: "NaN".into() }));
    let text = s.save().unwrap().text;
    assert_eq!(text, "{\n  \"f\": 1.0,\n  \"n\": null\n}");
    let t = StateStore::load("state", "j", Some(&text)).unwrap();
    assert_eq!(t.get("f").unwrap().display(), "1");
    assert_eq!(t.get("n"), Some(&Value::Null));
}

#[test]
fn nested_state_is_text_and_bad_state_an_error() {
    let s = StateStore::load("d", "j", Some("{\"a\": [1, 2], \"b\": 1.25}")).unwrap();
    assert_eq!(s.get("a"), Some(&Value::String("[1,2]".into())));
    assert_eq!(s.get("b").unwrap().display(), "1.25");
    let e = StateStore::load("d", "j", Some("[1]")).unwrap_err();
    assert!(e.message().starts_with("state error: invalid state d/j.json: "), "{}", e.message());
}

#[test]
fn file_names_are_harmless() {
    assert_eq!(safe_file_name("a/b.c-d_é 1"), "a_b_c-d_é_1.json");
    assert_eq!(safe_file_name("../../etc"), "______etc.json");
    assert_eq!(safe_file_name("user_sync"), "user_sync.json");
    assert_eq!(safe_file_name("Job-7"), "Job-7.json");
    assert_eq!(safe_file_name("a\\b:c d"), "a_b_c_d.json");
    let s = StateStore::load("d", "", None).unwrap();
    assert_eq!(s.save().unwrap().temp, "d/.json.json.tmp");
}

#[test]
fn file_errors_in_words() {
    assert_eq!(no_state_dir("d", "x").message(), "state error: cannot create state dir d: x");
    assert_eq!(unreadable_state("f", "x").message(), "state error: cannot read f: x");
    assert_eq!(unwritable_state("f", "x").message(), "state error: cannot write f: x");
    assert_eq!(unmovable_state("t", "f", "x").message(), "state error: cannot rename t -> f: x");
}

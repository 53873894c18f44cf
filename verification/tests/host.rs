use datatransfer::json::Json;
use datatransfer::plugins::{
    check_abi, check_etl_abi, check_reply, columns_text, configure_reply, connect_reply, decode_names, encode_names,
    etl_plugin_load_error, is_etl_plugin_file, is_plugin_file, lookup_reply, lookup_request, needs_configuring, no_instance, plugin_load_error, process_reply, read_reply,
    resolve_etl_path, resolve_plugin_path, settle_columns, settle_names, text_or_null, EtlRegistry, LoadFault, PluginRegistry,
};
use datatransfer::scheduler::{next_run, settle_next, wait_until, WorkerGate};

#[test]
fn plugin_files_by_name() {
    for n in ["libmysql.so", "x.dylib", "x.dll"] {
        assert!(is_plugin_file(n), "{n}");
    }
    for n in ["mysql.so", "lib.txt", ""] {
        assert!(!is_plugin_file(n), "{n}");
    }
    assert!(is_etl_plugin_file("liba.dll"));
    assert!(!is_etl_plugin_file("a.dll"));
}

#[test]
fn plugin_paths_are_tried_in_order() {
    let only = |want: &'static str| move |p: &str| p == want;
    let resolve = |want: &'static str| resolve_plugin_path("p/mysql", "p", Some("mysql"), &only(want));
    for p in ["p/mysql", "p/mysql.so", "p/libmysql.so", "p/mysql.dylib", "p/libmysql.dylib", "p/mysql.dll", "p/libmysql.dll"] {
        assert_eq!(resolve(p).as_deref(), Some(p));
    }
    assert_eq!(resolve("other"), None);
    assert_eq!(resolve_plugin_path("p/x", "p", Some("x"), &|p: &str| p.ends_with(".so")).as_deref(), Some("p/x.so"));
    assert_eq!(resolve_plugin_path("/", "", None, &only("x")), None);
    let etl = |want: &'static str| resolve_etl_path("p/libliba", "p", Some("libliba"), &only(want));
    assert_eq!(etl("p/liba.so").as_deref(), Some("p/liba.so"));
    assert_eq!(etl("p/liba.dll").as_deref(), Some("p/liba.dll"));
    assert_eq!(etl("p/a.so"), None);
}

#[test]
fn registries_keep_the_first() {
    let mut r = PluginRegistry::new();
    assert!(r.register("mysql", 1));
    assert!(!r.register("mysql", 2));
    assert!(r.register("a\"b", 3));
    assert_eq!(r.get("mysql").ok(), Some(&1));
    let e = r.get("oracle").unwrap_err();
    assert_eq!(
        e.message(),
        "connection error: no datasource plugin registered for type 'oracle' (loaded: [\"a\\\"b\", \"mysql\"])"
    );
    let mut r = EtlRegistry::new();
    assert!(r.register("x", 1));
    assert!(!r.register("x", 2));
    assert_eq!(r.get("x").ok(), Some(&1));
    assert_eq!(r.get("y").unwrap_err().message(), "etl configuration error: no etl plugin named 'y' loaded");
    assert_eq!(r.names(), vec!["x"]);
}

#[test]
fn interfaces_are_checked() {
    assert!(check_abi("p", Some(1)).is_ok());
    assert_eq!(check_abi("p", None).unwrap_err().message(), "connection error: p: ds_get_api returned NULL");
    assert_eq!(
        check_abi("p", Some(2)).unwrap_err().message(),
        "connection error: p: ABI version mismatch (plugin 2, host 1)"
    );
    assert!(check_etl_abi("p", Some(2)).is_ok());
    assert_eq!(check_etl_abi("p", None).unwrap_err().message(), "etl configuration error: p: etl_get_api NULL");
    assert_eq!(check_etl_abi("p", Some(1)).unwrap_err().message(), "etl configuration error: p: etl ABI mismatch (1 vs 2)");
    assert_eq!(
        plugin_load_error("p", &LoadFault::NotFound).message(),
        "connection error: datasource plugin not found: p"
    );
    assert_eq!(
        plugin_load_error("p", &LoadFault::CannotOpen("x".into())).message(),
        "connection error: cannot open plugin p: x"
    );
    assert_eq!(
        plugin_load_error("p", &LoadFault::NoEntryPoint("x".into())).message(),
        "connection error: p is not a datasource plugin (missing ds_get_api): x"
    );
    assert_eq!(
        etl_plugin_load_error("p", &LoadFault::NoEntryPoint("x".into())).message(),
        "etl configuration error: p is not an etl plugin: x"
    );
}

#[test]
fn replies_are_read() {
    let some = |s: &str| Some(s.to_string());
    assert!(check_reply(0, &some("x")).is_ok());
    assert_eq!(check_reply(1, &some("x")).unwrap_err().message(), "database error: x");
    assert_eq!(check_reply(1, &some("")).unwrap_err().message(), "database error: unknown error");
    assert_eq!(check_reply(7, &None).unwrap_err().message(), "database error: unknown error");
    assert_eq!(read_reply(0, some("[]")).unwrap(), "[]");
    assert_eq!(read_reply(0, None).unwrap_err().message(), "serialization error: NULL result");
    assert_eq!(read_reply(1, None).unwrap_err().message(), "database error: unknown error");
    assert_eq!(
        connect_reply("erp", 1, &some("down")).unwrap_err().message(),
        "connection error: connect to 'erp' failed: down"
    );
    assert!(connect_reply("erp", 0, &None).is_ok());
    assert_eq!(no_instance("mysql").message(), "connection error: plugin 'mysql' failed to create instance");
    assert_eq!(process_reply("p", 0, some("[]")).unwrap(), "[]");
    assert_eq!(
        process_reply("p", 1, some("bad")).unwrap_err().message(),
        "etl processing error: etl plugin 'p' failed: bad"
    );
    assert_eq!(
        process_reply("p", 0, None).unwrap_err().message(),
        "etl processing error: etl plugin returned NULL result"
    );
    assert_eq!(
        configure_reply("p", 1, &None).unwrap_err().message(),
        "etl configuration error: etl plugin 'p' configure failed: unknown error"
    );
    assert!(!needs_configuring(&Json::Null));
    assert!(needs_configuring(&Json::Bool(false)));
}

#[test]
fn lookups_cross_the_boundary() {
    let some = |s: &str| Some(s.to_string());
    let r = lookup_request(some("c"), some("t"), some("null"), some("null"), None).unwrap();
    assert_eq!((r.connection.as_str(), r.table.as_str(), r.params.as_str()), ("c", "t", "[]"));
    assert!(r.columns.is_none());
    // no condition means a full read
    assert!(r.condition.is_none());
    let r = lookup_request(some("c"), some("t"), some("[\"a\"]"), some("x = 1"), some("[1]")).unwrap();
    assert_eq!(r.columns, Some(vec!["a".to_string()]));
    assert_eq!(r.condition.as_deref(), Some("x = 1"));
    assert_eq!(r.params, "[1]");
    // only the columns may be left out in upper case
    let r = lookup_request(some("c"), some("t"), some("NULL"), some("NULL"), None).unwrap();
    assert!(r.columns.is_none());
    assert_eq!(r.condition.as_deref(), Some("NULL"));
    assert_eq!(lookup_request(None, None, None, None, None).unwrap_err().message(), "lookup error: NULL conn");
    assert_eq!(lookup_request(some("c"), None, None, None, None).unwrap_err().message(), "lookup error: NULL table");
    let e = lookup_request(some("c"), some("t"), some("[1]"), None, None).unwrap_err().message();
    assert!(e.starts_with("lookup error: bad columns: "), "{e}");
    assert_eq!(settle_columns(Err("x".into())).unwrap_err().message(), "lookup error: bad columns: x");
    assert_eq!(lookup_reply(0, some("[]")).unwrap(), "[]");
    assert_eq!(lookup_reply(0, None).unwrap_err().message(), "lookup error: host returned NULL result");
    assert_eq!(lookup_reply(1, some("")).unwrap_err().message(), "lookup error: unknown lookup error");
}

#[test]
fn lookup_arguments_come_back() {
    let list = |v: &[&str]| Some(v.iter().map(|s| s.to_string()).collect::<Vec<String>>());
    for (columns, condition) in
        [(None, None), (list(&["a", "b\"\\\n€"]), Some("x = 1")), (list(&[]), Some("")), (None, Some("NULL"))]
    {
        let sent = |s: Option<&str>| Some(text_or_null(s).to_string());
        let text = columns_text(columns.as_ref()).unwrap();
        let r = lookup_request(sent(Some("c")), sent(Some("t")), Some(text), sent(condition), None).unwrap();
        assert_eq!((r.columns, r.condition.as_deref()), (columns, condition));
    }
    assert_eq!(text_or_null(None), "null");
    assert_eq!(columns_text(None).unwrap(), "null");
    assert_eq!(columns_text(list(&["a", "b"]).as_ref()).unwrap(), "[\"a\",\"b\"]");
}

#[test]
fn lists_of_names_come_back() {
    for v in [vec![], vec!["id".to_string()], vec!["a,b".to_string(), "\"".to_string(), String::new()]] {
        assert_eq!(decode_names(&encode_names(&v).unwrap()).unwrap(), v);
    }
    assert_eq!(decode_names(" [ \"x\" , \"y\" ] ").unwrap(), vec!["x", "y"]);
    let e = decode_names("{}").unwrap_err().message();
    assert!(e.starts_with("serialization error: "), "{e}");
    assert_eq!(settle_names(Err("x".into())).unwrap_err().message(), "serialization error: x");
}

#[test]
fn schedules_give_the_next_time() {
    // 2024-01-01 00:00:00 UTC
    let t = 1_704_067_200;
    assert_eq!(next_run("0 */5 * * * *", t, 0).ok(), Some(t + 300));
    assert_eq!(next_run("0 */5 * * * *", t + 299, 500_000_000).ok(), Some(t + 300));
    assert_eq!(next_run("30 0 12 * * *", t, 0).ok(), Some(t + 12 * 3600 + 30));
    let e = next_run("every day", t, 0).unwrap_err().message();
    assert!(e.starts_with("schedule error: invalid cron 'every day': "), "{e}");
    let e = next_run("0 0 0 1 1 * 2020", t, 0).unwrap_err().message();
    assert_eq!(e, "schedule error: cron '0 0 0 1 1 * 2020' produced no future occurrences");
    assert_eq!(settle_next("x", Ok(Some(5))).ok(), Some(5));
}

#[test]
fn waiting_ends_at_the_time() {
    assert_eq!(wait_until(10, 7, 0), (3, 0));
    assert_eq!(wait_until(10, 7, 250_000_000), (2, 750_000_000));
    assert_eq!(wait_until(7, 7, 1), (0, 0));
    assert_eq!(wait_until(1, 7, 0), (0, 0));
}

#[test]
fn worker_slots_are_limited() {
    let mut g = WorkerGate::new(2);
    let a = g.acquire().unwrap();
    let b = g.acquire().unwrap();
    assert!(g.acquire().is_none());
    g.release(a);
    assert_eq!(g.free(), 1);
    let c = g.acquire().unwrap();
    g.release(b);
    g.release(c);
    assert_eq!(g.free(), 2);
    assert_eq!(WorkerGate::new(0).free(), 1);
}

#[test]
fn guards_are_as_many_as_runs() {
    let mut g = WorkerGate::new(3);
    let mut guards = Vec::new();
    for n in 1..=3 {
        guards.push(g.acquire().unwrap());
        assert_eq!((guards.len(), g.free()), (n, 3 - n));
    }
    assert!(g.acquire().is_none());
    while let Some(guard) = guards.pop() {
        g.release(guard);
        assert_eq!(g.free(), 3 - guards.len());
    }
}

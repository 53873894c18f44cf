use datatransfer::clock::Moment;
use datatransfer::float::Float;
use datatransfer::model::{ConnectionConfig, Row, SyncMode, Value};
use datatransfer::mysql::{format_date, value_from_mysql, value_to_mysql, MysqlCell, MysqlColumnRow, MysqlDatasource};
use datatransfer::oracle::{
    oracle_read, oracle_retry, oracle_value, OracleColumnRow, OracleDatasource, OracleKind, OracleRead, OracleReply,
};
use datatransfer::postgres::{pg_read, pg_value, PgColumnRow, PgKind, PgRead, PgReply, PostgresDatasource};
use datatransfer::sql::{bind, row_of, trim_sql, Bind};
use datatransfer::strmap::StrMap;

fn cfg(conn_type: &str) -> ConnectionConfig {
    ConnectionConfig {
        name: "erp".into(),
        conn_type: conn_type.into(),
        host: "db".into(),
        port: 1521,
        database: "orcl".into(),
        schema: Some("s\"x".into()),
        username: "u".into(),
        password: "p".into(),
        params: StrMap::new(),
        max_pool_size: 0,
        connect_timeout_secs: 0,
    }
}

fn names(v: &[&str]) -> Vec<String> {
    v.iter().map(|s| s.to_string()).collect()
}

fn two_rows() -> Vec<Vec<Value>> {
    vec![
        vec![Value::Int(1), Value::String("a".into())],
        vec![Value::Int(2), Value::Null],
    ]
}

fn mysql() -> MysqlDatasource {
    MysqlDatasource { cfg: Some(cfg("mysql")) }
}

fn postgres() -> PostgresDatasource {
    PostgresDatasource { cfg: Some(cfg("postgresql")) }
}

fn oracle() -> OracleDatasource {
    OracleDatasource { cfg: Some(cfg("oracle")) }
}

#[test]
fn mysql_batch() {
    let cols = names(&["id", "na`me"]);
    let st = mysql().batch_insert("t", &cols, &two_rows(), SyncMode::Upsert, &names(&["id"])).unwrap().unwrap();
    assert_eq!(
        st.sql,
        "INSERT INTO `t` (`id`, `na``me`) VALUES (?,?),(?,?) ON DUPLICATE KEY UPDATE `na``me` = VALUES(`na``me`)"
    );
    assert_eq!(st.params.len(), 4);
    assert!(matches!(st.params[0], MysqlCell::Int(1)));
    match &st.params[1] {
        MysqlCell::Bytes(b) => assert_eq!(b, b"a"),
        other => panic!("{other:?}"),
    }
    assert!(matches!(st.params[2], MysqlCell::Int(2)));
    assert!(matches!(st.params[3], MysqlCell::Null));
    let st = mysql().batch_insert("t", &cols, &two_rows(), SyncMode::Append, &names(&["id"])).unwrap().unwrap();
    assert_eq!(st.sql, "INSERT INTO `t` (`id`, `na``me`) VALUES (?,?),(?,?)");
    // every column is part of the key: nothing to update
    let st = mysql().batch_insert("t", &cols, &two_rows(), SyncMode::Upsert, &cols).unwrap().unwrap();
    assert_eq!(st.sql, "INSERT INTO `t` (`id`, `na``me`) VALUES (?,?),(?,?)");
}

#[test]
fn postgres_batch() {
    let cols = names(&["id", "name"]);
    let pk = names(&["id"]);
    let st = postgres().batch_insert("t", &cols, &two_rows(), SyncMode::Upsert, &pk).unwrap().unwrap();
    assert_eq!(
        st.sql,
        "INSERT INTO \"t\" (\"id\", \"name\") VALUES ($1,$2),($3,$4) ON CONFLICT (\"id\") DO UPDATE SET \"name\" = EXCLUDED.\"name\""
    );
    assert_eq!(st.params.len(), 4);
    assert!(matches!(st.params[2], Bind::Int(2)));
    let st = postgres().batch_insert("t", &pk, &vec![vec![Value::Int(1)]], SyncMode::Upsert, &pk).unwrap().unwrap();
    assert_eq!(st.sql, "INSERT INTO \"t\" (\"id\") VALUES ($1) ON CONFLICT (\"id\") DO NOTHING");
    let st = postgres().batch_insert("t", &cols, &two_rows(), SyncMode::Upsert, &Vec::new()).unwrap().unwrap();
    assert_eq!(st.sql, "INSERT INTO \"t\" (\"id\", \"name\") VALUES ($1,$2),($3,$4)");
}

#[test]
fn oracle_batch() {
    let cols = names(&["ID", "NAME"]);
    let pk = names(&["ID"]);
    let st = oracle().batch_insert("T", &cols, &two_rows(), SyncMode::Upsert, &pk).unwrap().unwrap();
    assert_eq!(
        st.sql,
        "MERGE INTO \"T\" tgt USING (SELECT :1 AS \"ID\",:2 AS \"NAME\" FROM DUAL UNION ALL SELECT :3 AS \"ID\",:4 AS \"NAME\" FROM DUAL) src ON (tgt.\"ID\" = src.\"ID\") WHEN MATCHED THEN UPDATE SET tgt.\"NAME\" = src.\"NAME\" WHEN NOT MATCHED THEN INSERT (\"ID\", \"NAME\") VALUES (src.\"ID\", src.\"NAME\")"
    );
    let st = oracle().batch_insert("T", &pk, &vec![vec![Value::Bool(true)]], SyncMode::Upsert, &pk).unwrap().unwrap();
    assert_eq!(
        st.sql,
        "MERGE INTO \"T\" tgt USING (SELECT :1 AS \"ID\" FROM DUAL) src ON (tgt.\"ID\" = src.\"ID\") WHEN NOT MATCHED THEN INSERT (\"ID\") VALUES (src.\"ID\")"
    );
    assert!(matches!(st.params[0], Bind::Int(1)));
    let st = oracle().batch_insert("T", &cols, &two_rows(), SyncMode::Full, &pk).unwrap().unwrap();
    assert_eq!(
        st.sql,
        "INSERT ALL INTO \"T\" (\"ID\", \"NAME\") VALUES (:1,:2) INTO \"T\" (\"ID\", \"NAME\") VALUES (:3,:4) SELECT 1 FROM DUAL"
    );
    assert_eq!(oracle().inserted(1, 2), 2);
    assert_eq!(oracle().inserted(3, 2), 3);
}

#[test]
fn batch_faults() {
    let cols = names(&["a", "b"]);
    let ragged = vec![vec![Value::Int(1), Value::Int(2)], vec![Value::Int(3)]];
    assert!(mysql().batch_insert("t", &cols, &Vec::new(), SyncMode::Append, &cols).unwrap().is_none());
    assert!(MysqlDatasource::default().batch_insert("t", &cols, &Vec::new(), SyncMode::Append, &cols).unwrap().is_none());
    let e = mysql().batch_insert("t", &cols, &ragged, SyncMode::Append, &cols).unwrap_err();
    assert_eq!(e.message(), "invalid arguments: row 1 has 1 values, expected 2");
    let e = postgres().batch_insert("t", &cols, &ragged, SyncMode::Append, &cols).unwrap_err();
    assert_eq!(e.message(), "invalid arguments: row 1 has 1 values, expected 2");
    let e = oracle().batch_insert("t", &cols, &ragged, SyncMode::Append, &cols).unwrap_err();
    assert_eq!(e.message(), "invalid arguments: row has 1 values, expected 2");
    let e = oracle().batch_insert("t", &Vec::new(), &ragged, SyncMode::Append, &cols).unwrap_err();
    assert_eq!(e.message(), "invalid arguments: batch_insert requires at least one column");
    // the Oracle dialect looks at the connection before the widths
    let e = OracleDatasource::default().batch_insert("t", &cols, &ragged, SyncMode::Append, &cols).unwrap_err();
    assert_eq!(e.message(), "connection error: oracle datasource not connected");
    let e = PostgresDatasource::default().batch_insert("t", &cols, &two_rows(), SyncMode::Append, &cols).unwrap_err();
    assert_eq!(e.message(), "connection error: postgres datasource not connected");
    let e = MysqlDatasource::default().batch_insert("t", &cols, &ragged, SyncMode::Append, &cols).unwrap_err();
    assert_eq!(e.message(), "invalid arguments: row 1 has 1 values, expected 2");
    assert_eq!(MysqlDatasource::default().pool().unwrap_err().message(), "connection error: mysql datasource not connected");
}

#[test]
fn pages_and_truncation() {
    assert_eq!(trim_sql("  SELECT 1 ;; "), "SELECT 1 ");
    assert_eq!(mysql().query_page(" SELECT 1;", 20, 10), "SELECT 1 LIMIT 10 OFFSET 20");
    assert_eq!(postgres().query_page("SELECT 1", 0, 5), "SELECT 1 LIMIT 5 OFFSET 0");
    assert_eq!(oracle().query_page("SELECT 1", 20, 10), "SELECT 1 OFFSET 20 ROWS FETCH NEXT 10 ROWS ONLY");
    assert_eq!(mysql().truncate("a`b"), "TRUNCATE TABLE `a``b`");
    assert_eq!(postgres().truncate("a\"b"), "TRUNCATE TABLE \"a\"\"b\"");
    assert_eq!(oracle().truncate("T"), "TRUNCATE TABLE \"T\"");
    assert_eq!((mysql().ping(), oracle().ping()), ("SELECT 1", "SELECT 1 FROM DUAL"));
    assert_eq!((mysql().name(), postgres().name(), oracle().name()), ("mysql", "postgresql", "oracle"));
}

#[test]
fn mysql_connects() {
    let p = MysqlDatasource::connect(&cfg("mysql")).unwrap();
    assert_eq!((p.host.as_str(), p.port, p.pool_min, p.pool_max), ("db", 1521, 0, 1));
    assert_eq!((p.connect_timeout_secs, p.io_timeout_secs, p.tls), (1, 600, false));
    assert!(p.init.is_empty());
    let mut c = cfg("mysql");
    c.params.insert("charset".into(), "UTF8".into());
    c.params.insert("ssl_mode".into(), "Required".into());
    let p = MysqlDatasource::connect(&c).unwrap();
    assert_eq!(p.init, vec!["SET NAMES utf8mb4"]);
    assert!(p.tls);
    c.params.insert("charset".into(), "utf8; DROP".into());
    let e = MysqlDatasource::connect(&c).unwrap_err();
    assert_eq!(e.message(), "invalid arguments: unsupported mysql charset 'utf8; drop'");
    let e = MysqlDatasource::connect(&cfg("oracle")).unwrap_err();
    assert_eq!(e.message(), "connection error: plugin 'mysql' cannot open connection type 'oracle'");
}

#[test]
fn postgres_connects() {
    let p = PostgresDatasource::connect(&cfg("postgresql")).unwrap();
    assert_eq!(p.application_name, "DataTransfer/erp");
    assert_eq!(p.options.as_deref(), Some("-csearch_path=s\"\"x"));
    let mut c = cfg("postgresql");
    c.params.insert("ssl_mode".into(), "Prefer".into());
    assert!(PostgresDatasource::connect(&c).is_ok());
    c.params.insert("ssl_mode".into(), "Require".into());
    let e = PostgresDatasource::connect(&c).unwrap_err();
    assert_eq!(
        e.message(),
        "unsupported: postgres ssl_mode 'require' requires a TLS connector which is not compiled into this plugin; use 'disable'/'prefer'"
    );
    assert!(PostgresDatasource::connect(&cfg("mysql")).is_err());
}

#[test]
fn oracle_connects() {
    let p = OracleDatasource::connect(&cfg("oracle")).unwrap();
    assert_eq!(p.connect_string, "//db:1521/orcl");
    assert_eq!(p.set_schema.as_deref(), Some("ALTER SESSION SET CURRENT_SCHEMA = \"s\"\"x\""));
    assert_eq!(
        OracleDatasource::connect_failed(&p, "down").message(),
        "connection error: oracle connect to //db:1521/orcl failed: down"
    );
    assert!(OracleDatasource::connect(&cfg("mysql")).is_err());
}

#[test]
fn schemas_are_read() {
    let rows = vec![
        MysqlColumnRow {
            name: Some("id".into()),
            data_type: Some("bigint".into()),
            nullable: Some("NO".into()),
            key: Some("PRI".into()),
            ordinal: Some(1),
        },
        MysqlColumnRow { name: Some("n".into()), data_type: None, nullable: Some("YES".into()), key: None, ordinal: None },
    ];
    let s = mysql().get_schema("t", &rows).unwrap();
    assert_eq!(s.column_names(), vec!["id", "n"]);
    assert_eq!(s.primary_keys(), vec!["id"]);
    assert!(s.get("n").unwrap().nullable);
    assert!(s.get("x").is_none());
    let e = mysql().get_schema("t", &Vec::new()).unwrap_err();
    assert_eq!(e.message(), "schema error: table 't' not found in database");

    let rows = vec![PgColumnRow {
        name: "id".into(),
        data_type: "integer".into(),
        nullable: "NO".into(),
        ordinal: 3,
        is_primary: true,
    }];
    let s = postgres().get_schema("t", &rows).unwrap();
    assert_eq!((s.columns[0].ordinal, s.columns[0].nullable, s.columns[0].is_primary), (3, false, true));
    let e = postgres().get_schema("t", &Vec::new()).unwrap_err();
    assert_eq!(e.message(), "schema error: table 't' not found in schema 's\"x'");
    let e = PostgresDatasource::default().get_schema("t", &Vec::new()).unwrap_err();
    assert_eq!(e.message(), "schema error: table 't' not found in schema 'default'");

    let rows = vec![
        OracleColumnRow { name: "ID".into(), data_type: "NUMBER".into(), nullable: "N".into() },
        OracleColumnRow { name: "X".into(), data_type: "DATE".into(), nullable: "Y".into() },
    ];
    let s = oracle().get_schema("T", &rows, &names(&["ID"])).unwrap();
    assert_eq!(s.primary_keys(), vec!["ID"]);
    assert_eq!((s.columns[1].ordinal, s.columns[1].nullable), (1, true));
    let e = oracle().get_schema("T", &Vec::new(), &Vec::new()).unwrap_err();
    assert_eq!(e.message(), "schema error: table 'T' not found in schema");
}

#[test]
fn mysql_values() {
    assert_eq!(format_date(2024, 1, 2, 0, 0, 0, 0), "2024-01-02");
    assert_eq!(format_date(2024, 1, 2, 3, 4, 5, 0), "2024-01-02 03:04:05");
    assert_eq!(format_date(24, 1, 2, 3, 4, 5, 60), "0024-01-02 03:04:05.000060");
    assert_eq!(value_from_mysql(MysqlCell::Time(true, 2, 3, 4, 5, 6)), Value::String("51:04:05".into()));
    assert_eq!(value_from_mysql(MysqlCell::UInt(u64::MAX)), Value::UInt(u64::MAX));
    assert_eq!(value_from_mysql(MysqlCell::Bytes(vec![1])), Value::Bytes(vec![1]));
    match value_to_mysql(&Value::Date("2024".into())) {
        MysqlCell::Bytes(b) => assert_eq!(b, b"2024"),
        other => panic!("{other:?}"),
    }
    assert!(matches!(value_to_mysql(&Value::Bool(true)), MysqlCell::Int(1)));
}

fn moment(secs: i64, nanos: u32) -> Moment {
    Moment { secs, nanos, offset: 0 }
}

#[test]
fn postgres_values() {
    assert_eq!(pg_read(PgKind::Int), PgRead::Int32);
    assert_eq!(pg_read(PgKind::Numeric), PgRead::Text);
    assert_eq!(pg_value(true, PgKind::Bool, PgReply::Bool(true)), Value::Null);
    assert_eq!(pg_value(false, PgKind::Bool, PgReply::Nothing), Value::Null);
    assert_eq!(pg_value(false, PgKind::Numeric, PgReply::Text("1.50".into())), Value::Decimal("1.50".into()));
    assert_eq!(pg_value(false, PgKind::Uuid, PgReply::Text("u".into())), Value::String("u".into()));
    assert_eq!(pg_value(false, PgKind::Date, PgReply::Time(moment(86400, 0))), Value::Date("1970-01-02".into()));
    assert_eq!(
        pg_value(false, PgKind::Timestamp, PgReply::Time(moment(1_700_000_000, 123_456_789))),
        Value::Date("2023-11-14 22:13:20.123456".into())
    );
    assert_eq!(pg_value(false, PgKind::Timestamp, PgReply::Time(moment(i64::MAX, 0))), Value::Null);
}

#[test]
fn oracle_values() {
    let small = OracleKind::Number(10, 0);
    assert_eq!(oracle_read(small), OracleRead::Int64);
    assert_eq!(oracle_read(OracleKind::Number(19, 0)), OracleRead::Text);
    assert_eq!(oracle_read(OracleKind::Number(0, 0)), OracleRead::Text);
    assert_eq!(oracle_read(OracleKind::Number(10, 2)), OracleRead::Text);
    assert_eq!(oracle_retry(small, &OracleReply::Nothing), Some(OracleRead::Text));
    assert_eq!(oracle_retry(small, &OracleReply::Int(1)), None);
    assert_eq!(oracle_value(false, small, OracleReply::Int(5)), Value::Int(5));
    assert_eq!(oracle_value(false, small, OracleReply::Text("5".into())), Value::Decimal("5".into()));
    assert_eq!(oracle_value(true, small, OracleReply::Int(5)), Value::Null);
    assert_eq!(
        oracle_value(false, OracleKind::Date, OracleReply::Time(moment(0, 0))),
        Value::Date("1970-01-01 00:00:00.000000".into())
    );
    assert_eq!(oracle_value(false, OracleKind::TimestampTz, OracleReply::Text("x".into())), Value::Date("x".into()));
    assert_eq!(oracle_value(false, OracleKind::Clob, OracleReply::Text("x".into())), Value::String("x".into()));
}

#[test]
fn binding_wraps_unsigned_numbers() {
    assert!(matches!(bind(&Value::UInt(u64::MAX), true), Bind::Int(-1)));
    assert!(matches!(bind(&Value::UInt(7), true), Bind::Int(7)));
    assert!(matches!(bind(&Value::Bool(true), true), Bind::Bool(true)));
    assert!(matches!(bind(&Value::Bool(false), false), Bind::Int(0)));
    match bind(&Value::Float(Float { bits: 0, text: "0".into() }), true) {
        Bind::Float(f) => assert_eq!(f.bits, 0),
        other => panic!("{other:?}"),
    }
}

#[test]
fn later_cells_of_one_name_stay() {
    let cells = vec![("b".to_string(), Value::Int(1)), ("a".to_string(), Value::Int(2)), ("b".to_string(), Value::Int(3))];
    let r: Row = row_of(&cells);
    assert_eq!(r.columns(), vec!["a", "b"]);
    assert_eq!(r.get("b"), Some(&Value::Int(3)));
}

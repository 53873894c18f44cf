use std::cell::Cell;

use datatransfer::error::EtlError;
use datatransfer::etl::{EtlConfigure, EtlContext, EtlOutputRow, EtlProcessor, EtlRow, Named, TableLookup};
use datatransfer::model::{Row, Value};
use datatransfer::order_split::{default_limit, OrderSplit, SplitConfig};

/// A lookup that just returns the pre-built detail rows.
struct FakeLookup(Vec<Row>);

impl TableLookup for FakeLookup {
    fn lookup(
        &self,
        _connection: &str,
        _table: &str,
        _columns: Option<&Vec<String>>,
        _where_clause: Option<&str>,
        _params: &Vec<Value>,
        _limit: u64,
    ) -> Result<Vec<Row>, EtlError> {
        Ok(self.0.clone())
    }
}

/// A lookup that answers with what it was asked.
struct EchoLookup;

impl TableLookup for EchoLookup {
    fn lookup(
        &self,
        connection: &str,
        table: &str,
        columns: Option<&Vec<String>>,
        where_clause: Option<&str>,
        params: &Vec<Value>,
        limit: u64,
    ) -> Result<Vec<Row>, EtlError> {
        let asked = format!(
            "{connection}|{table}|{}|{}|{}|{limit}",
            columns.map(|c| c.join(",")).unwrap_or("*".to_string()),
            where_clause.unwrap_or(""),
            params[0].display()
        );
        Err(EtlError::Lookup(asked))
    }
}

fn config(detail_table: &str, parent_key: &str) -> SplitConfig {
    SplitConfig {
        detail_table: detail_table.to_string(),
        source_detail_table: None,
        detail_columns: Vec::new(),
        parent_key: parent_key.to_string(),
        child_key: None,
        keep: Vec::new(),
        limit: default_limit(),
    }
}

fn input(row: Row) -> EtlRow {
    EtlRow {
        source_connection: "mysql_prod".into(),
        source_table: "t_order".into(),
        target_connections: vec!["pg_test".into()],
        row,
        source_schema: None,
        target_schema: None,
    }
}

fn run(config: SplitConfig, row: Row, lookup: FakeLookup) -> Vec<EtlOutputRow> {
    let mut plugin = OrderSplit::default();
    plugin.configure(config).unwrap();
    let input = input(row);
    let mut ctx = EtlContext::from_row(&input, &lookup);
    plugin.process(&mut ctx, &input).unwrap()
}

fn row(pairs: &[(&str, Value)]) -> Row {
    let mut r = Row::new();
    for (k, v) in pairs {
        r.insert(k.to_string(), v.clone());
    }
    r
}

#[test]
fn splits_header_and_details() {
    let config = SplitConfig {
        source_detail_table: Some("t_order_item".into()),
        detail_columns: vec!["item_id".into(), "qty".into()],
        child_key: Some("order_id".into()),
        keep: vec!["order_id".into(), "user_id".into()],
        ..config("order_item", "order_id")
    };
    let header = row(&[
        ("order_id", Value::Int(7)),
        ("user_id", Value::Int(42)),
        ("amount", Value::Decimal("12.50".into())),
    ]);
    let details = vec![
        row(&[("item_id", Value::Int(1)), ("qty", Value::Int(2))]),
        row(&[("item_id", Value::Int(2)), ("qty", Value::Int(1))]),
    ];

    let out = run(config, header, FakeLookup(details));

    assert_eq!(out.len(), 3);
    assert_eq!(out[0].table, ""); // header -> job default target
    assert_eq!(out[0].row.get("order_id"), Some(&Value::Int(7)));
    assert_eq!(out[0].row.get("user_id"), Some(&Value::Int(42)));
    assert_eq!(out[0].row.get("amount"), None); // dropped by keep
    assert_eq!(out[1].table, "order_item");
    assert_eq!(out[1].row.get("item_id"), Some(&Value::Int(1)));
    assert_eq!(out[2].table, "order_item");
    assert_eq!(out[2].row.get("qty"), Some(&Value::Int(1)));
}

#[test]
fn missing_parent_key_emits_header_only() {
    let out = run(
        config("order_item", "order_id"),
        row(&[("order_id", Value::Null), ("user_id", Value::Int(1))]),
        FakeLookup(vec![]),
    );
    assert_eq!(out.len(), 1);
    assert_eq!(out[0].table, "");
    assert_eq!(out[0].row.get("user_id"), Some(&Value::Int(1)));
}

#[test]
fn unconfigured_plugin_is_an_error() {
    let plugin = OrderSplit::default();
    let input = input(row(&[("order_id", Value::Int(1))]));
    let lookup = FakeLookup(vec![]);
    let mut ctx = EtlContext::from_row(&input, &lookup);
    assert!(plugin.process(&mut ctx, &input).is_err());
}

#[test]
fn lookup_asks_for_the_parents_details() {
    let mut plugin = OrderSplit::default();
    assert_eq!(plugin.name(), "order_split");
    plugin.configure(config("order_item", "order_id")).unwrap();
    let input = input(row(&[("order_id", Value::Int(7))]));
    let mut ctx = EtlContext::from_row(&input, &EchoLookup);
    assert_eq!(ctx.current_table(), "t_order");
    assert_eq!(ctx.target_connections().len(), 1);
    let e = plugin.process(&mut ctx, &input).unwrap_err();
    assert_eq!(e.message(), "lookup error: mysql_prod|order_item|*|order_id = ?|7|1000");
}

#[test]
fn configuration_is_checked_and_the_first_stays() {
    let mut plugin = OrderSplit::default();
    let e = plugin.configure(config(" ", "k")).unwrap_err();
    assert_eq!(e.message(), "etl configuration error: order_split: config.detail_table is required");
    let e = plugin.configure(config("t", "")).unwrap_err();
    assert_eq!(e.message(), "etl configuration error: order_split: config.parent_key is required");
    plugin.configure(config("t", "k")).unwrap();
    plugin.configure(config("u", "k")).unwrap();
    assert_eq!(plugin.config.unwrap().detail_table, "t");
}

/// A lookup that counts.
struct CountingLookup(Cell<u32>);

impl TableLookup for CountingLookup {
    fn lookup(
        &self,
        _connection: &str,
        _table: &str,
        _columns: Option<&Vec<String>>,
        _where_clause: Option<&str>,
        _params: &Vec<Value>,
        _limit: u64,
    ) -> Result<Vec<Row>, EtlError> {
        self.0.set(self.0.get() + 1);
        Ok(Vec::new())
    }
}

#[test]
fn one_lookup_for_a_parent_and_none_without() {
    let count = |configured: bool, key: Value| {
        let lookup = CountingLookup(Cell::new(0));
        let mut plugin = OrderSplit::default();
        if configured {
            plugin.configure(config("order_item", "order_id")).unwrap();
        }
        let input = input(row(&[("order_id", key)]));
        let mut ctx = EtlContext::from_row(&input, &lookup);
        let _ = plugin.process(&mut ctx, &input);
        lookup.0.get()
    };
    assert_eq!(count(true, Value::Int(7)), 1);
    assert_eq!(count(true, Value::Null), 0);
    assert_eq!(count(false, Value::Int(7)), 0);
}

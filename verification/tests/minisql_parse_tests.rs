use minidist_rs::minisql_parse::parse_sql;
use minidist_rs::rpc::{AggregateFn, Predicate};

#[test]
fn parses_example_query() {
    let sql = "SELECT region, SUM(amount)\nFROM sales\nWHERE amount > 100\nGROUP BY region;";
    let req = parse_sql(sql).expect("should parse");
    assert_eq!(req.table, "sales");
    assert_eq!(req.projections, vec!["region"]);
    assert_eq!(req.group_by, vec!["region"]);
    assert_eq!(req.aggregates.len(), 1);
    let agg = &req.aggregates[0];
    assert!(matches!(agg.func, AggregateFn::Sum));
    assert_eq!(agg.column.as_deref(), Some("amount"));
    assert_eq!(req.filters.len(), 1);
    let filt = &req.filters[0];
    assert_eq!(filt.column, "amount");
    assert!(matches!(filt.pred, Predicate::Gt));
}

#[test]
fn parse_rejects_missing_table() {
    assert!(parse_sql("SELECT a FROM ;").is_err());
    assert!(parse_sql("SELECT a;").is_err());
}

#[test]
fn parse_rejects_unknown_aggregate() {
    let e = parse_sql("SELECT MEDIAN(x) FROM t;").unwrap_err();
    assert_eq!(e, "Unsupported aggregate");
}

#[test]
fn parse_between_and_comma_separator() {
    let req = parse_sql("SELECT SUM(amount) FROM sales WHERE amount BETWEEN 400 AND 500, id >= 2;")
        .expect("parse");
    assert_eq!(req.filters.len(), 2);
    assert!(matches!(req.filters[0].pred, Predicate::Between));
    assert!(req.filters[0].value_hi.is_some());
    assert!(matches!(req.filters[1].pred, Predicate::Ge));
}

#[test]
fn parse_string_literal_and_count_star() {
    let req = parse_sql("SELECT COUNT(*) FROM t WHERE region = 'EU';").expect("parse");
    assert_eq!(req.aggregates[0].output_name, "COUNT(*)");
    match &req.filters[0].value {
        minidist_rs::rpc::ScalarValue::Str(s) => assert_eq!(s, "EU"),
        _ => panic!("expected a string literal"),
    }
}

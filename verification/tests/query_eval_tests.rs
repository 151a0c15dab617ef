use minidist_rs::coordinator_merge::merge_partials;
use minidist_rs::minisql_parse::parse_sql;
use minidist_rs::rpc::{AggregateState, GroupMap, PartialAggregate, QueryRequest};
use minidist_rs::storage_load::load_table;
use minidist_rs::storage_schema::parse_schema_file;
use minidist_rs::worker_exec::{execute_query, WorkerContext};

const SALES_SSF: &str = "id: int64 key\nregion: string\namount: float64\n";

const SALES_CSV: &str = "id,region,amount\n1,EU,100\n2,US,200\n3,EU,50\n4,APAC,300\n";

fn build_segments() -> Vec<Vec<(String, Vec<u8>)>> {
    let schema = parse_schema_file(SALES_SSF).unwrap();
    load_table(SALES_CSV, &"id".to_string(), 2, &schema).expect("load")
}

fn run_on_all_segments(segments: &[Vec<(String, Vec<u8>)>], req: &QueryRequest) -> Vec<PartialAggregate> {
    let mut partials = Vec::new();
    for (i, seg) in segments.iter().enumerate() {
        let ctx = WorkerContext { port: 0, table: "sales".to_string(), segment: i as u32 };
        let files: Vec<(String, Option<Vec<u8>>)> =
            seg.iter().map(|(n, b)| (n.clone(), Some(b.clone()))).collect();
        partials.push(execute_query(&ctx, req, SALES_SSF, &files, 0));
    }
    partials
}

fn group<'a>(gm: &'a GroupMap, key: &str) -> &'a minidist_rs::rpc::GroupAggregate {
    let i = gm
        .entries
        .iter()
        .position(|(k, _)| k == key)
        .unwrap_or_else(|| panic!("missing group {key}"));
    &gm.entries[i].1
}

fn agg(g: &minidist_rs::rpc::GroupAggregate, name: &str) -> AggregateState {
    let i = g
        .entries
        .iter()
        .position(|(k, _)| k == name)
        .unwrap_or_else(|| panic!("missing aggregate {name}"));
    g.entries[i].1
}

#[test]
fn query_group_by_region() {
    let segs = build_segments();
    let req = parse_sql("SELECT region, SUM(amount) FROM sales GROUP BY region;").expect("parse");

    let partials = run_on_all_segments(&segs, &req);
    let (merged, _, _, _) = merge_partials(&partials);

    let eu = group(&merged, "EU");
    let us = group(&merged, "US");
    let apac = group(&merged, "APAC");

    assert_eq!(agg(eu, "SUM(amount)").sum, 150.0f64.to_bits());
    assert_eq!(agg(eu, "SUM(amount)").count, 2);
    assert_eq!(agg(us, "SUM(amount)").sum, 200.0f64.to_bits());
    assert_eq!(agg(apac, "SUM(amount)").sum, 300.0f64.to_bits());
}

#[test]
fn query_filter_and_count() {
    let segs = build_segments();
    let req =
        parse_sql("SELECT COUNT(*), SUM(amount) FROM sales WHERE amount > 100;").expect("parse");

    let partials = run_on_all_segments(&segs, &req);
    let (merged, _, _, _) = merge_partials(&partials);
    let all = group(&merged, "all");

    let count = agg(all, "COUNT(*)");
    let sum = agg(all, "SUM(amount)");
    assert_eq!(count.count, 2);
    assert_eq!(sum.sum, 500.0f64.to_bits());
}

#[test]
fn query_select_star_yields_group() {
    let segs = build_segments();
    let req = parse_sql("SELECT * FROM sales;").expect("parse");

    let partials = run_on_all_segments(&segs, &req);
    let (merged, _, _, _) = merge_partials(&partials);
    assert!(
        merged.entries.iter().any(|(k, _)| k == "all"),
        "expected default group 'all' even without aggregates"
    );
    let state = agg(group(&merged, "all"), "COUNT(*)");
    assert_eq!(state.count, 4);
}

#[test]
fn query_between_prunes_both_segments() {
    let segs = build_segments();
    let req = parse_sql("SELECT SUM(amount) FROM sales WHERE amount BETWEEN 400 AND 500;")
        .expect("parse");

    let partials = run_on_all_segments(&segs, &req);
    for p in &partials {
        assert_eq!(p.rows_scanned, 0);
        assert_eq!(p.segments_skipped, 1);
    }
    let (merged, rows, skipped, ms) = merge_partials(&partials);
    let gb = minidist_rs::coordinator_route::effective_group_by(&req);
    let body = minidist_rs::minisql_print::format_results(&merged, rows, skipped, ms, &gb);
    assert!(body.contains("empty result"));
    assert!(body.contains("Segments skipped:   2"));
}

#[test]
fn query_missing_schema_skips_segment() {
    let segs = build_segments();
    let req = parse_sql("SELECT COUNT(*) FROM sales;").expect("parse");
    let ctx = WorkerContext { port: 0, table: "sales".to_string(), segment: 0 };
    let files: Vec<(String, Option<Vec<u8>>)> =
        segs[0].iter().map(|(n, b)| (n.clone(), Some(b.clone()))).collect();
    let p = execute_query(&ctx, &req, "", &files, 7);
    assert_eq!(p.segments_skipped, 1);
    assert_eq!(p.rows_scanned, 0);
    assert_eq!(p.exec_ms, 7);
}

#[test]
fn query_missing_column_file_skips_segment() {
    let req = parse_sql("SELECT SUM(amount) FROM sales;").expect("parse");
    let ctx = WorkerContext { port: 0, table: "sales".to_string(), segment: 0 };
    let files: Vec<(String, Option<Vec<u8>>)> = vec![("amount".to_string(), None)];
    let p = execute_query(&ctx, &req, SALES_SSF, &files, 0);
    assert_eq!(p.segments_skipped, 1);
}

#[test]
fn formatted_group_by_output() {
    let segs = build_segments();
    let req = parse_sql("SELECT region, SUM(amount) FROM sales GROUP BY region;").expect("parse");
    let partials = run_on_all_segments(&segs, &req);
    let (merged, rows, skipped, ms) = merge_partials(&partials);
    let gb = minidist_rs::coordinator_route::effective_group_by(&req);
    let body = minidist_rs::minisql_print::format_results(&merged, rows, skipped, ms, &gb);
    assert!(body.contains("region"));
    assert!(body.contains("sum_amount"));
    assert!(body.contains("150.000"));
    assert!(body.contains("APAC"));
    assert!(body.contains("Rows scanned:       4"));
}

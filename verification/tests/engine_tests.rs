use minidist_rs::coordinator_merge::{merge_partials, merge_state};
use minidist_rs::minisql_eval::format_scalar;
use minidist_rs::coordinator_route::{fallback_partial, is_ping, pong};
use minidist_rs::fbits::Rel;
use minidist_rs::minisql_eval::{cmp_order, eval_filter, init_reader, read_value, ReadError};
use minidist_rs::minisql_print::{format_row, normalize_header, render_f64_3dp, render_state_value};
use minidist_rs::rpc::{frame_message, parse_frame_len, AggregateState, FilterExpr, Predicate, ScalarValue, ValueType};
use minidist_rs::storage_load::write_value;
use minidist_rs::storage_schema::{parse_schema_line, ColumnDef, ColumnType};

fn col(name: &str, t: ColumnType, nullable: bool) -> ColumnDef {
    ColumnDef { name: name.to_string(), col_type: t, nullable, is_key: false }
}

fn roundtrip(field: &str, t: ColumnType) -> Option<ScalarValue> {
    let c = col("c", t, true);
    let mut buf: Vec<u8> = Vec::new();
    write_value(&mut buf, field, &c).expect("write");
    let mut reader = init_reader(buf);
    read_value(&mut reader, &c).expect("read")
}

#[test]
fn cell_round_trip_every_type() {
    match roundtrip("123", ColumnType::Int32) {
        Some(ScalarValue::Int(v)) => assert_eq!(v, 123),
        _ => panic!("int32"),
    }
    match roundtrip("-9223372036854775808", ColumnType::Int64) {
        Some(ScalarValue::Int(v)) => assert_eq!(v, i64::MIN),
        _ => panic!("int64"),
    }
    match roundtrip("2.5", ColumnType::Float64) {
        Some(ScalarValue::Float(b)) => assert_eq!(b, 2.5f64.to_bits()),
        _ => panic!("float64"),
    }
    match roundtrip("TRUE", ColumnType::Bool) {
        Some(ScalarValue::Bool(v)) => assert!(v),
        _ => panic!("bool"),
    }
    match roundtrip("hello", ColumnType::Str) {
        Some(ScalarValue::Str(s)) => assert_eq!(s, "hello"),
        _ => panic!("string"),
    }
    match roundtrip("2000-01-01", ColumnType::Date) {
        Some(ScalarValue::Int(d)) => assert_eq!(d, 10957),
        _ => panic!("date"),
    }
    match roundtrip("1700000000000", ColumnType::TimestampMs) {
        Some(ScalarValue::Int(v)) => assert_eq!(v, 1_700_000_000_000),
        _ => panic!("timestamp"),
    }
    // a null cell
    let c = col("c", ColumnType::Int32, true);
    let mut buf: Vec<u8> = Vec::new();
    write_value(&mut buf, "", &c).expect("write null");
    let mut reader = init_reader(buf);
    assert!(read_value(&mut reader, &c).expect("read null").is_none());
}

#[test]
fn rle_stream_reads_repeated_values() {
    // "RLE1", then one run: count 3, present, int32 7; then count 0 end
    let mut data: Vec<u8> = b"RLE1".to_vec();
    data.extend_from_slice(&3u32.to_le_bytes());
    data.push(1);
    data.extend_from_slice(&7i32.to_le_bytes());
    let c = col("c", ColumnType::Int32, false);
    let mut reader = init_reader(data);
    for _ in 0..3 {
        match read_value(&mut reader, &c).expect("value") {
            Some(ScalarValue::Int(v)) => assert_eq!(v, 7),
            _ => panic!("expected int"),
        }
    }
    assert!(read_value(&mut reader, &c).is_err());
}

#[test]
fn render_matches_std_fixed_point() {
    for x in [
        0.0f64, -0.0, 1.0, 2.5, 0.125, 150.0, 500.0, -3.75, 0.0005, 1234.5678, 1e-12,
        9007199254740991.0,
    ] {
        assert_eq!(render_f64_3dp(x.to_bits()), format!("{:.3}", x), "for {x}");
    }
    assert_eq!(render_f64_3dp(f64::NAN.to_bits()), "NaN");
    assert_eq!(render_f64_3dp(f64::INFINITY.to_bits()), "inf");
}

#[test]
fn float_display_matches_std() {
    for x in [
        0.5f64, 2.0, 100.0, -3.25, 0.1, 1.0 / 3.0, 1e300, 5e-324, 0.00001, 123456.789,
        9007199254740993.0, -0.0,
    ] {
        let shown = format_scalar(&Some(ScalarValue::Float(x.to_bits())));
        assert_eq!(shown, format!("{}", x), "display of {x:?}");
        let back: f64 = shown.parse().expect("parses back");
        assert_eq!(back.to_bits(), x.to_bits(), "round trip of {x:?}");
    }
}

#[test]
fn header_normalization() {
    assert_eq!(normalize_header("SUM(amount)"), "sum_amount");
    assert_eq!(normalize_header("COUNT(*)"), "count_star");
    assert_eq!(normalize_header("Region"), "region");
}

#[test]
fn row_formatting_pads_columns() {
    let cols = vec!["a".to_string(), "bb".to_string()];
    let widths = vec![3usize, 2usize];
    assert_eq!(format_row(&cols, &widths), "a   | bb\n");
}

#[test]
fn merge_state_combines_fields() {
    let mut a = AggregateState {
        sum: 1.5f64.to_bits(),
        count: 2,
        min: Some(1.0f64.to_bits()),
        max: None,
        value_type: ValueType::Int,
    };
    let b = AggregateState {
        sum: 2.5f64.to_bits(),
        count: 3,
        min: Some(0.5f64.to_bits()),
        max: Some(9.0f64.to_bits()),
        value_type: ValueType::Float,
    };
    merge_state(&mut a, &b);
    assert_eq!(a.sum, 4.0f64.to_bits());
    assert_eq!(a.count, 5);
    assert_eq!(a.min, Some(0.5f64.to_bits()));
    assert_eq!(a.max, Some(9.0f64.to_bits()));
    assert!(matches!(a.value_type, ValueType::Float));
}

#[test]
fn merge_of_fallbacks_is_empty() {
    let ps = vec![fallback_partial(7001, 0), fallback_partial(7002, 1)];
    let (gm, rows, skipped, ms) = merge_partials(&ps);
    assert_eq!(gm.entries.len(), 0);
    assert_eq!((rows, skipped, ms), (0, 2, 0));
}

#[test]
fn ping_detection() {
    assert!(is_ping("PING"));
    assert!(is_ping("  ping \n"));
    assert!(!is_ping("SELECT * FROM t;"));
    assert_eq!(pong(), "PONG");
}

#[test]
fn framing_round_trip() {
    let payload: Vec<u8> = vec![9, 8, 7, 6, 5];
    let framed = frame_message(&payload).expect("frame");
    assert_eq!(framed.len(), 4 + payload.len());
    let n = parse_frame_len(&framed[0..4]);
    assert_eq!(n as usize, payload.len());
    assert_eq!(&framed[4..], &payload[..]);
}

#[test]
fn resolve_ports_range_and_list() {
    let r = minidist_rs::coordinator_cluster::resolve_worker_ports(&vec![7001], 3).unwrap();
    assert_eq!(r, vec![7001, 7002, 7003]);
    let r = minidist_rs::coordinator_cluster::resolve_worker_ports(&vec![1, 2], 2).unwrap();
    assert_eq!(r, vec![1, 2]);
    assert!(minidist_rs::coordinator_cluster::resolve_worker_ports(&vec![1, 2], 3).is_err());
    assert!(minidist_rs::coordinator_cluster::resolve_worker_ports(&vec![65535], 2).is_err());
}

#[test]
fn magic_prefix_detection() {
    // a short raw file that merely starts like text is still raw
    let data = vec![1u8, 42, 0, 0, 0, 0];
    let c = col("c", ColumnType::Int32, false);
    let mut reader = init_reader(data);
    match read_value(&mut reader, &c).expect("value") {
        Some(ScalarValue::Int(v)) => assert_eq!(v, 42),
        _ => panic!("expected int"),
    }
}

#[test]
fn metadata_parsing() {
    let text = "version=1\nblock_rows=65536\nsegment_target_rows=1000000\nendianness=little\n";
    let out = minidist_rs::storage_inspect::inspect_metadata(text).unwrap();
    assert_eq!(
        out,
        "version: 1\nblock_rows: 65536\nsegment_target_rows: 1000000\nendianness: little\n"
    );
    let e = minidist_rs::storage_inspect::inspect_metadata("version=1\nversion=2\n").unwrap_err();
    assert_eq!(e, "Line 2: duplicate key 'version'");
    let e = minidist_rs::storage_inspect::inspect_metadata("nope\n").unwrap_err();
    assert_eq!(e, "Line 1: expected key=value");
    let e = minidist_rs::storage_inspect::inspect_metadata(
        "version=1\nblock_rows=0\nsegment_target_rows=5\nendianness=little\n",
    )
    .unwrap_err();
    assert_eq!(e, "block_rows must be > 0");
    let e = minidist_rs::storage_inspect::inspect_metadata(
        "version=1\nblock_rows=2\nsegment_target_rows=5\nendianness=middle\n",
    )
    .unwrap_err();
    assert_eq!(e, "endianness must be 'little' or 'big'");
}

#[test]
fn render_aggregate_values() {
    let st = AggregateState {
        sum: 500.0f64.to_bits(),
        count: 2,
        min: Some(1.5f64.to_bits()),
        max: None,
        value_type: ValueType::Float,
    };
    assert_eq!(render_state_value("COUNT(*)", &st), "2");
    assert_eq!(render_state_value("SUM(amount)", &st), "500.000");
    assert_eq!(render_state_value("AVG(amount)", &st), "250.000");
    assert_eq!(render_state_value("MIN(amount)", &st), "1.500");
    assert_eq!(render_state_value("MAX(amount)", &st), "NULL");
    let empty = AggregateState {
        sum: 0,
        count: 0,
        min: None,
        max: None,
        value_type: ValueType::Float,
    };
    assert_eq!(render_state_value("AVG(amount)", &empty), "NULL");
}

#[test]
fn date_day_numbers() {
    match roundtrip("1970-01-01", ColumnType::Date) {
        Some(ScalarValue::Int(d)) => assert_eq!(d, 0),
        _ => panic!("date"),
    }
    match roundtrip("1969-12-31", ColumnType::Date) {
        Some(ScalarValue::Int(d)) => assert_eq!(d, -1),
        _ => panic!("date"),
    }
    match roundtrip("2024-02-29", ColumnType::Date) {
        Some(ScalarValue::Int(d)) => assert_eq!(d, 19782),
        _ => panic!("date"),
    }
    // not a leap year
    let c = col("c", ColumnType::Date, true);
    let mut buf: Vec<u8> = Vec::new();
    assert!(write_value(&mut buf, "2023-02-29", &c).is_err());
}

#[test]
fn bool_columns_order_false_below_true() {
    assert!(matches!(
        cmp_order(&ScalarValue::Bool(false), &ScalarValue::Bool(true)),
        Some(Rel::Lt)
    ));
    let f = FilterExpr {
        column: "b".to_string(),
        pred: Predicate::Lt,
        value: ScalarValue::Bool(true),
        value_hi: None,
    };
    assert!(eval_filter(&Some(ScalarValue::Bool(false)), &f));
    assert!(!eval_filter(&Some(ScalarValue::Bool(true)), &f));
}

#[test]
fn nan_satisfies_no_predicate() {
    let nan = ScalarValue::Float(f64::NAN.to_bits());
    for pred in [Predicate::Eq, Predicate::Lt, Predicate::Gt, Predicate::Le, Predicate::Ge] {
        let f = FilterExpr {
            column: "x".to_string(),
            pred,
            value: ScalarValue::Float(5.0f64.to_bits()),
            value_hi: None,
        };
        assert!(!eval_filter(&Some(nan.clone()), &f), "{pred:?} on NaN");
        let g = FilterExpr {
            column: "x".to_string(),
            pred,
            value: nan.clone(),
            value_hi: None,
        };
        assert!(!eval_filter(&Some(ScalarValue::Float(5.0f64.to_bits())), &g), "{pred:?} vs NaN");
    }
    let between = FilterExpr {
        column: "x".to_string(),
        pred: Predicate::Between,
        value: ScalarValue::Float(0.0f64.to_bits()),
        value_hi: Some(ScalarValue::Float(9.0f64.to_bits())),
    };
    assert!(!eval_filter(&Some(nan), &between));
}

#[test]
fn duplicate_flags_are_rejected() {
    let e = parse_schema_line("a: date nullable nullable").unwrap_err();
    assert_eq!(e, "Duplicate 'nullable' flag");
    let e = parse_schema_line("a: date key key").unwrap_err();
    assert_eq!(e, "Duplicate 'key' flag");
    assert!(parse_schema_line("a: date nullable key").is_ok());
}

#[test]
fn metadata_version_must_be_positive() {
    let e = minidist_rs::storage_inspect::inspect_metadata(
        "version=0\nblock_rows=2\nsegment_target_rows=5\nendianness=little\n",
    )
    .unwrap_err();
    assert_eq!(e, "version must be > 0");
}

#[test]
fn reader_errors_tell_truncation_from_clean_end() {
    let c = col("c", ColumnType::Int32, false);

    // raw: clean end at a cell boundary
    let mut r = init_reader(vec![1u8, 7, 0, 0, 0]);
    assert!(read_value(&mut r, &c).is_ok());
    assert!(matches!(read_value(&mut r, &c), Err(ReadError::Eof)));
    // raw: truncated payload
    let mut r = init_reader(vec![1u8, 7, 0]);
    assert!(matches!(read_value(&mut r, &c), Err(ReadError::Io)));

    // rle: clean end at a run boundary
    let mut data: Vec<u8> = b"RLE1".to_vec();
    data.extend_from_slice(&1u32.to_le_bytes());
    data.push(1);
    data.extend_from_slice(&7i32.to_le_bytes());
    let mut r = init_reader(data.clone());
    assert!(read_value(&mut r, &c).is_ok());
    assert!(matches!(read_value(&mut r, &c), Err(ReadError::Eof)));
    // rle: header read but flag byte missing is a truncation
    let mut data: Vec<u8> = b"RLE1".to_vec();
    data.extend_from_slice(&1u32.to_le_bytes());
    let mut r = init_reader(data);
    assert!(matches!(read_value(&mut r, &c), Err(ReadError::Io)));
    // rle: partial run header is a truncation
    let mut data: Vec<u8> = b"RLE1".to_vec();
    data.push(3);
    let mut r = init_reader(data);
    assert!(matches!(read_value(&mut r, &c), Err(ReadError::Io)));
}

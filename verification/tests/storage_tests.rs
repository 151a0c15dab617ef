use minidist_rs::storage_load::load_table;
use minidist_rs::storage_schema::{parse_schema_file, ColumnType};

const SALES_SSF: &str = "id: int64 key\nregion: string\namount: float64\n";

const SALES_CSV: &str = "id,region,amount\n1,EU,100\n2,US,200\n3,EU,50\n4,APAC,300\n";

#[test]
fn parses_sales_schema_file() {
    let contents = SALES_SSF;
    let cols = parse_schema_file(&contents).expect("schema should parse");
    assert_eq!(cols.len(), 3);
    assert!(cols[0].is_key);
    assert_eq!(cols[0].name, "id");
    assert!(matches!(cols[0].col_type, ColumnType::Int64));
    assert_eq!(cols[1].name, "region");
    assert!(matches!(cols[1].col_type, ColumnType::Str));
    assert_eq!(cols[2].name, "amount");
    assert!(matches!(cols[2].col_type, ColumnType::Float64));
}

#[test]
fn schema_canonical_round_trip() {
    let cols = parse_schema_file(SALES_SSF).unwrap();
    let text = minidist_rs::storage_schema::schema_to_string(&cols);
    assert_eq!(text, SALES_SSF);
    let cols2 = parse_schema_file(&text).unwrap();
    assert_eq!(cols2.len(), cols.len());
    for (a, b) in cols.iter().zip(cols2.iter()) {
        assert_eq!(a.name, b.name);
        assert!(a.col_type == b.col_type);
        assert_eq!((a.nullable, a.is_key), (b.nullable, b.is_key));
    }
}

#[test]
fn schema_errors_are_line_tagged() {
    assert!(parse_schema_file("id: int64\n").unwrap_err().contains("exactly one 'key'"));
    assert!(parse_schema_file("a: int64 key\nb: int32 key\n")
        .unwrap_err()
        .contains("more than one 'key'"));
    let e = parse_schema_file("id: int64 key key\n").unwrap_err();
    assert_eq!(e, "Line 1: Duplicate 'key' flag");
    let e = parse_schema_file("id: int64 key\nx: floof\n").unwrap_err();
    assert_eq!(e, "Line 2: Unknown type: floof");
    let e = parse_schema_file("id: int64 key\nx: int32 shiny\n").unwrap_err();
    assert_eq!(e, "Line 2: Unknown flag: shiny");
}

fn seg_col<'a>(seg: &'a [(String, Vec<u8>)], name: &str) -> &'a [u8] {
    &seg.iter().find(|(n, _)| n == name).expect("column file").1
}

fn read_int64s(buf: &[u8]) -> Vec<i64> {
    let mut res = Vec::new();
    let mut i = 0;
    while i + 9 <= buf.len() {
        if buf[i] == 0 {
            i += 1;
            continue;
        }
        let mut bytes = [0u8; 8];
        bytes.copy_from_slice(&buf[i + 1..i + 9]);
        res.push(i64::from_le_bytes(bytes));
        i += 9;
    }
    res
}

fn read_f64s(buf: &[u8]) -> Vec<f64> {
    let mut res = Vec::new();
    let mut i = 0;
    while i + 9 <= buf.len() {
        if buf[i] == 0 {
            i += 1;
            continue;
        }
        let mut bytes = [0u8; 8];
        bytes.copy_from_slice(&buf[i + 1..i + 9]);
        res.push(f64::from_le_bytes(bytes));
        i += 9;
    }
    res
}

fn read_strings(buf: &[u8]) -> Vec<String> {
    let mut res = Vec::new();
    let mut i = 0;
    while i < buf.len() {
        if buf[i] == 0 {
            i += 1;
            continue;
        }
        let mut len_bytes = [0u8; 4];
        len_bytes.copy_from_slice(&buf[i + 1..i + 5]);
        let len = u32::from_le_bytes(len_bytes) as usize;
        let start = i + 5;
        let end = start + len;
        let s = std::str::from_utf8(&buf[start..end]).unwrap().to_string();
        res.push(s);
        i = end;
    }
    res
}

#[test]
fn storage_load_writes_segments() {
    let schema = parse_schema_file(SALES_SSF).unwrap();
    let segs = load_table(SALES_CSV, &"id".to_string(), 2, &schema).expect("load succeeds");
    assert_eq!(segs.len(), 2);

    let ids0 = read_int64s(seg_col(&segs[0], "id"));
    let ids1 = read_int64s(seg_col(&segs[1], "id"));
    assert_eq!(ids0, vec![1, 2]);
    assert_eq!(ids1, vec![3, 4]);

    let regions0 = read_strings(seg_col(&segs[0], "region"));
    let regions1 = read_strings(seg_col(&segs[1], "region"));
    assert_eq!(regions0, vec!["EU".to_string(), "US".to_string()]);
    assert_eq!(regions1, vec!["EU".to_string(), "APAC".to_string()]);

    let amounts0 = read_f64s(seg_col(&segs[0], "amount"));
    let amounts1 = read_f64s(seg_col(&segs[1], "amount"));
    assert_eq!(amounts0, vec![100.0, 200.0]);
    assert_eq!(amounts1, vec![50.0, 300.0]);
}

#[test]
fn load_rejects_wrong_sort_key_and_nan() {
    let schema = parse_schema_file(SALES_SSF).unwrap();
    let e = load_table(SALES_CSV, &"region".to_string(), 2, &schema).unwrap_err();
    assert!(e.contains("does not match schema key"));

    let fschema = parse_schema_file("amount: float64 key\n").unwrap();
    let e = load_table("amount\nNaN\n", &"amount".to_string(), 1, &fschema).unwrap_err();
    assert_eq!(e, "Sort key column contains NaN");
}

#[test]
fn load_rejects_null_in_non_nullable() {
    let schema = parse_schema_file("id: int64 key\nv: int32\n").unwrap();
    let e = load_table("id,v\n1,\n", &"id".to_string(), 1, &schema).unwrap_err();
    assert!(e.contains("NOT NULL"));
    let ok = load_table("id,v\n1,7\n", &"id".to_string(), 1, &schema);
    assert!(ok.is_ok());
}

//! The storage writer: parse a header-bearing CSV, sort its rows by the
//! key column, split them into contiguous segments and encode one
//! binary file per column and segment.
use vstd::prelude::*;

verus! {

use vstd::seq_lib::group_seq_properties;
use vstd::multiset::Multiset;

use crate::codec::{enc_cell, push_le};
use crate::fbits::{f64_is_nan, f64_nan_bits, parse_f64_bits, spec_parse_f64, Rel};
use crate::fieldparse::{
    parse_bool_value, parse_date_range, parse_i64_range, spec_parse_bool, spec_parse_date,
    spec_parse_i32, spec_parse_i64,
};
use crate::minisql_eval::{compare_scalar, same_variant, scalar_nan, spec_compare_scalar};
use crate::rpc::{ScalarV, ScalarValue};
use crate::storage_schema::{ColumnDef, ColumnDefV, ColumnType};
use crate::textscan::{str_chars, string_range, trim_bounds, trim_chars, split_char_in, split_char,
    lines_of};

/// What the writer emits for one cell of a column, or why it cannot.
pub open spec fn spec_write_cell(col: ColumnDefV, field: Seq<char>) -> Result<Seq<u8>, Seq<char>> {
    if field.len() == 0 {
        if col.nullable {
            Ok(seq![0u8])
        } else {
            Err("Column '"@ + col.name + "' is NOT NULL, but encountered empty value"@)
        }
    } else {
        match col.col_type {
            ColumnType::Int32 => match spec_parse_i32(field) {
                Some(x) => Ok(enc_cell(ColumnType::Int32, Some(ScalarV::Int(x)))),
                None => Err("invalid int32 value"@),
            },
            ColumnType::Int64 => match spec_parse_i64(field) {
                Some(x) => Ok(enc_cell(ColumnType::Int64, Some(ScalarV::Int(x)))),
                None => Err("invalid int64 value"@),
            },
            ColumnType::TimestampMs => match spec_parse_i64(field) {
                Some(x) => Ok(enc_cell(ColumnType::TimestampMs, Some(ScalarV::Int(x)))),
                None => Err("invalid timestamp value"@),
            },
            ColumnType::Float64 => match spec_parse_f64(field) {
                Some(b) => Ok(enc_cell(ColumnType::Float64, Some(ScalarV::Float(b)))),
                None => Err("invalid float64 value"@),
            },
            ColumnType::Bool => match spec_parse_bool(field) {
                Some(b) => Ok(enc_cell(ColumnType::Bool, Some(ScalarV::Bool(b)))),
                None => Err(
                    "Invalid boolean value '"@ + field + "' for column '"@ + col.name + "'"@,
                ),
            },
            ColumnType::Str => if vstd::utf8::encode_utf8(field).len() < 0x1_0000_0000 {
                Ok(enc_cell(ColumnType::Str, Some(ScalarV::Str(field))))
            } else {
                Err("string value too long"@)
            },
            ColumnType::Date => match spec_parse_date(field) {
                Some(x) => Ok(enc_cell(ColumnType::Date, Some(ScalarV::Int(x)))),
                None => Err("invalid date value"@),
            },
        }
    }
}

/// Append one encoded cell for a field text; on an error nothing is
/// appended.
#[verifier::loop_isolation(false)]
#[verifier::rlimit(100)]
pub fn write_value(out: &mut Vec<u8>, field: &str, col: &ColumnDef) -> (r: Result<(), String>)
    ensures
        match r {
            Ok(_) => spec_write_cell(col@, field@) matches Ok(bytes) && final(out)@ == old(out)@
                + bytes,
            Err(e) => spec_write_cell(col@, field@) matches Err(em) && em == e@ && final(out)@
                == old(out)@,
        },
{
    let v = str_chars(field);
    let n = v.len();
    proof {
        assert(v@.subrange(0, n as int) =~= field@);
    }
    if n == 0 {
        if col.nullable {
            out.push(0u8);
            proof {
                assert(out@ =~= old(out)@ + seq![0u8]);
            }
            return Ok(());
        }
        let mut m = str_chars("Column '");
        let mut nm = str_chars(col.name.as_str());
        m.append(&mut nm);
        let mut tail = str_chars("' is NOT NULL, but encountered empty value");
        m.append(&mut tail);
        return Err(crate::strutil::chars_to_string(m));
    }
    match col.col_type {
        ColumnType::Int32 | ColumnType::Date => {
            let x: i64 = if matches!(col.col_type, ColumnType::Int32) {
                match parse_i64_range(&v, 0, n) {
                    Some(x) => {
                        if x < -0x8000_0000 || x > 0x7FFF_FFFF {
                            return Err(crate::strutil::chars_to_string(str_chars(
                                "invalid int32 value",
                            )));
                        }
                        x
                    },
                    None => {
                        return Err(crate::strutil::chars_to_string(str_chars(
                            "invalid int32 value",
                        )));
                    },
                }
            } else {
                match parse_date_range(&v, 0, n) {
                    Some(d) => d as i64,
                    None => {
                        return Err(crate::strutil::chars_to_string(str_chars(
                            "invalid date value",
                        )));
                    },
                }
            };
            out.push(1u8);
            let b: u64 = (x as u32) as u64;
            proof {
                assert(b == (x as int) % 0x1_0000_0000) by (bit_vector)
                    requires
                        -0x8000_0000 <= x <= 0x7FFF_FFFF,
                        b == (x as u32) as u64,
                ;
            }
            push_le(out, b, 4);
            proof {
                assert(out@ =~= old(out)@ + (seq![1u8] + crate::rpc::le_bytes(b, 4)));
            }
            Ok(())
        },
        ColumnType::Int64 | ColumnType::TimestampMs => {
            let x: i64 = match parse_i64_range(&v, 0, n) {
                Some(x) => x,
                None => {
                    if matches!(col.col_type, ColumnType::Int64) {
                        return Err(crate::strutil::chars_to_string(str_chars(
                            "invalid int64 value",
                        )));
                    }
                    return Err(crate::strutil::chars_to_string(str_chars(
                        "invalid timestamp value",
                    )));
                },
            };
            out.push(1u8);
            let b: u64 = x as u64;
            proof {
                assert(b == (x as int) % 0x1_0000_0000_0000_0000) by (bit_vector)
                    requires
                        b == x as u64,
                ;
            }
            push_le(out, b, 8);
            proof {
                assert(out@ =~= old(out)@ + (seq![1u8] + crate::rpc::le_bytes(b, 8)));
            }
            Ok(())
        },
        ColumnType::Float64 => {
            let b: u64 = match parse_f64_bits(field) {
                Some(b) => b,
                None => {
                    return Err(crate::strutil::chars_to_string(str_chars(
                        "invalid float64 value",
                    )));
                },
            };
            out.push(1u8);
            push_le(out, b, 8);
            proof {
                assert(out@ =~= old(out)@ + (seq![1u8] + crate::rpc::le_bytes(b, 8)));
            }
            Ok(())
        },
        ColumnType::Bool => {
            let b: bool = match parse_bool_value(field, col.name.as_str()) {
                Ok(b) => b,
                Err(e) => {
                    return Err(e);
                },
            };
            out.push(1u8);
            out.push(
                if b {
                    1u8
                } else {
                    0u8
                },
            );
            proof {
                assert(out@ =~= old(out)@ + (seq![1u8] + seq![
                    if b {
                        1u8
                    } else {
                        0u8
                    },
                ]));
            }
            Ok(())
        },
        ColumnType::Str => {
            let bytes = field.as_bytes();
            if bytes.len() as u64 >= 0x1_0000_0000u64 {
                return Err(crate::strutil::chars_to_string(str_chars(
                    "string value too long",
                )));
            }
            out.push(1u8);
            push_le(out, bytes.len() as u64, 4);
            let mut bi: usize = 0;
            let ghost mid = out@;
            while bi < bytes.len()
                invariant
                    bi <= bytes@.len(),
                    out@ == mid + bytes@.take(bi as int),
                decreases bytes@.len() - bi,
            {
                out.push(bytes[bi]);
                bi += 1;
                proof {
                    assert(out@ =~= mid + bytes@.take(bi as int));
                }
            }
            proof {
                assert(bytes@.take(bytes@.len() as int) =~= bytes@);
                assert(bytes@ == vstd::utf8::encode_utf8(field@));
                assert(out@ =~= old(out)@ + (seq![1u8] + (crate::rpc::le_bytes(
                    bytes@.len() as u64,
                    4,
                ) + bytes@)));
            }
            Ok(())
        },
    }
}

/// The sort key a field denotes for a key column, or the load error.
pub open spec fn spec_parse_sort_key(raw: Seq<char>, kc: ColumnDefV) -> Result<ScalarV, Seq<char>> {
    let field = trim_chars(raw);
    if field.len() == 0 {
        Err("Sort key column '"@ + kc.name + "' contains empty value"@)
    } else {
        match kc.col_type {
            ColumnType::Int32 => match spec_parse_i64(field) {
                Some(x) => Ok(ScalarV::Int(x)),
                None => Err("invalid integer sort key"@),
            },
            ColumnType::Int64 => match spec_parse_i64(field) {
                Some(x) => Ok(ScalarV::Int(x)),
                None => Err("invalid integer sort key"@),
            },
            ColumnType::TimestampMs => match spec_parse_i64(field) {
                Some(x) => Ok(ScalarV::Int(x)),
                None => Err("invalid integer sort key"@),
            },
            ColumnType::Float64 => match spec_parse_f64(field) {
                Some(b) => if f64_is_nan(b) {
                    Err("Sort key column contains NaN"@)
                } else {
                    Ok(ScalarV::Float(b))
                },
                None => Err("invalid float sort key"@),
            },
            ColumnType::Bool => match spec_parse_bool(field) {
                Some(b) => Ok(ScalarV::Bool(b)),
                None => Err(
                    "Invalid boolean value '"@ + field + "' for column '"@ + kc.name + "'"@,
                ),
            },
            ColumnType::Str => Ok(ScalarV::Str(field)),
            ColumnType::Date => match spec_parse_date(field) {
                Some(x) => Ok(ScalarV::Int(x)),
                None => Err("invalid date sort key"@),
            },
        }
    }
}

/// Parse the sort-key field of one record.
#[verifier::loop_isolation(false)]
pub fn parse_sort_key(raw: &str, kc: &ColumnDef) -> (r: Result<ScalarValue, String>)
    ensures
        match r {
            Ok(v) => spec_parse_sort_key(raw@, kc@) == Ok::<ScalarV, Seq<char>>(v@),
            Err(e) => spec_parse_sort_key(raw@, kc@) == Err::<ScalarV, Seq<char>>(e@),
        },
{
    let v = str_chars(raw);
    let n = v.len();
    proof {
        assert(v@.subrange(0, n as int) =~= raw@);
    }
    let (a, b) = trim_bounds(&v, 0, n);
    let ghost field = trim_chars(raw@);
    if a == b {
        let mut m = str_chars("Sort key column '");
        let mut nm = str_chars(kc.name.as_str());
        m.append(&mut nm);
        let mut tail = str_chars("' contains empty value");
        m.append(&mut tail);
        return Err(crate::strutil::chars_to_string(m));
    }
    match kc.col_type {
        ColumnType::Int32 | ColumnType::Int64 | ColumnType::TimestampMs => {
            match parse_i64_range(&v, a, b) {
                Some(x) => Ok(ScalarValue::Int(x)),
                None => Err(crate::strutil::chars_to_string(str_chars(
                    "invalid integer sort key",
                ))),
            }
        },
        ColumnType::Float64 => {
            let fstr = string_range(&v, a, b);
            match parse_f64_bits(fstr.as_str()) {
                Some(bits) => {
                    if f64_nan_bits(bits) {
                        Err(crate::strutil::chars_to_string(str_chars(
                            "Sort key column contains NaN",
                        )))
                    } else {
                        Ok(ScalarValue::Float(bits))
                    }
                },
                None => Err(crate::strutil::chars_to_string(str_chars(
                    "invalid float sort key",
                ))),
            }
        },
        ColumnType::Bool => {
            let fstr = string_range(&v, a, b);
            match parse_bool_value(fstr.as_str(), kc.name.as_str()) {
                Ok(x) => Ok(ScalarValue::Bool(x)),
                Err(e) => Err(e),
            }
        },
        ColumnType::Str => Ok(ScalarValue::Str(string_range(&v, a, b))),
        ColumnType::Date => {
            match parse_date_range(&v, a, b) {
                Some(d) => Ok(ScalarValue::Int(d as i64)),
                None => Err(crate::strutil::chars_to_string(str_chars(
                    "invalid date sort key",
                ))),
            }
        },
    }
}

/// A parsed sort key is never a NaN and has its column's variant, so any
/// two keys of one column compare.
pub proof fn lemma_sort_key_clean(raw1: Seq<char>, raw2: Seq<char>, kc: ColumnDefV)
    requires
        spec_parse_sort_key(raw1, kc) matches Ok(v1),
        spec_parse_sort_key(raw2, kc) matches Ok(v2),
    ensures
        spec_parse_sort_key(raw1, kc) matches Ok(v1) && spec_parse_sort_key(raw2, kc) matches Ok(
            v2,
        ) && same_variant(v1, v2) && !scalar_nan(v1) && !scalar_nan(v2) && spec_compare_scalar(
            v1,
            v2,
        ) is Some,
{
    let v1 = spec_parse_sort_key(raw1, kc)->Ok_0;
    let v2 = spec_parse_sort_key(raw2, kc)->Ok_0;
    crate::minisql_eval::lemma_cs_total(v1, v2);
}


/// The views of keyed rows: the key and the record fields.
pub open spec fn row_views(rs: Seq<(ScalarValue, Vec<String>)>) -> Seq<(ScalarV, Seq<Seq<char>>)> {
    rs.map_values(
        |e: (ScalarValue, Vec<String>)| (e.0@, e.1@.map_values(|f: String| f@)),
    )
}

/// One row placed into an already sorted run: before the first strictly
/// larger suffix, after any equal keys, which keeps the order stable.
pub open spec fn spec_insert_row(
    sorted: Seq<(ScalarV, Seq<Seq<char>>)>,
    row: (ScalarV, Seq<Seq<char>>),
) -> Seq<(ScalarV, Seq<Seq<char>>)>
    decreases sorted.len(),
{
    if sorted.len() == 0 {
        seq![row]
    } else if spec_compare_scalar(row.0, sorted.last().0) == Some(Rel::Lt) {
        spec_insert_row(sorted.drop_last(), row).push(sorted.last())
    } else {
        sorted.push(row)
    }
}

/// Stable sort of the rows by key, row by row.
pub open spec fn spec_sort_rows(rows: Seq<(ScalarV, Seq<Seq<char>>)>) -> Seq<
    (ScalarV, Seq<Seq<char>>),
>
    decreases rows.len(),
{
    if rows.len() == 0 {
        Seq::empty()
    } else {
        spec_insert_row(spec_sort_rows(rows.drop_last()), rows.last())
    }
}

/// Inserting at the scanned position is the specified insertion.
proof fn lemma_insert_at(
    sorted: Seq<(ScalarV, Seq<Seq<char>>)>,
    row: (ScalarV, Seq<Seq<char>>),
    j: int,
)
    requires
        0 <= j <= sorted.len(),
        forall|t: int|
            j <= t < sorted.len() ==> spec_compare_scalar(row.0, (#[trigger] sorted[t]).0) == Some(
                Rel::Lt,
            ),
        j > 0 ==> spec_compare_scalar(row.0, sorted[j - 1].0) != Some(Rel::Lt),
    ensures
        spec_insert_row(sorted, row) == sorted.take(j) + seq![row] + sorted.skip(j),
    decreases sorted.len(),
{
    if sorted.len() == 0 {
        assert(sorted.take(j) + seq![row] + sorted.skip(j) =~= seq![row]);
    } else if j == sorted.len() {
        assert(spec_insert_row(sorted, row) == sorted.push(row));
        assert(sorted.take(j) + seq![row] + sorted.skip(j) =~= sorted.push(row));
    } else {
        assert(spec_compare_scalar(row.0, sorted.last().0) == Some(Rel::Lt));
        lemma_insert_at(sorted.drop_last(), row, j);
        assert(sorted.drop_last().take(j) =~= sorted.take(j));
        assert(sorted.drop_last().skip(j) =~= sorted.skip(j).drop_last());
        assert((sorted.take(j) + seq![row] + sorted.skip(j).drop_last()).push(sorted.last())
            =~= sorted.take(j) + seq![row] + sorted.skip(j));
    }
}

#[verifier::loop_isolation(false)]
fn dup_fields(v: &Vec<String>) -> (r: Vec<String>)
    ensures
        r@.map_values(|f: String| f@) == v@.map_values(|f: String| f@),
{
    let mut out: Vec<String> = Vec::new();
    let mut i: usize = 0;
    while i < v.len()
        invariant
            i <= v@.len(),
            out@.map_values(|f: String| f@) == v@.map_values(|f: String| f@).take(i as int),
        decreases v@.len() - i,
    {
        let f = v[i].clone();
        proof {
            assert(f@ == v@[i as int]@);
            assert(v@.map_values(|f2: String| f2@)[i as int] == v@[i as int]@);
        }
        out.push(f);
        i += 1;
        proof {
            assert(out@.map_values(|f2: String| f2@) =~= v@.map_values(|f2: String| f2@).take(
                i as int,
            ));
        }
    }
    proof {
        assert(v@.map_values(|f: String| f@).take(v@.len() as int) =~= v@.map_values(
            |f: String| f@,
        ));
    }
    out
}

/// Sort keyed rows by key, equal keys keeping their order.
#[verifier::loop_isolation(false)]
#[verifier::rlimit(100)]
pub fn sort_rows(rows: &Vec<(ScalarValue, Vec<String>)>) -> (r: Vec<(ScalarValue, Vec<String>)>)
    ensures
        row_views(r@) == spec_sort_rows(row_views(rows@)),
{
    let mut out: Vec<(ScalarValue, Vec<String>)> = Vec::new();
    let mut k: usize = 0;
    proof {
        assert(row_views(out@) =~= Seq::empty());
        assert(row_views(rows@).take(0) =~= Seq::empty());
    }
    while k < rows.len()
        invariant
            k <= rows@.len(),
            row_views(out@) == spec_sort_rows(row_views(rows@).take(k as int)),
        decreases rows@.len() - k,
    {
        let key = rows[k].0.dup();
        let fields = dup_fields(&rows[k].1);
        let ghost rv = (rows@[k as int].0@, rows@[k as int].1@.map_values(|f: String| f@));
        proof {
            assert((key@, fields@.map_values(|f: String| f@)) == rv);
        }
        let mut j: usize = out.len();
        while j > 0 && matches!(compare_scalar(&key, &out[j - 1].0), Some(Rel::Lt))
            invariant
                j <= out@.len(),
                forall|t: int|
                    j <= t < out@.len() ==> spec_compare_scalar(
                        key@,
                        (#[trigger] row_views(out@)[t]).0,
                    ) == Some(Rel::Lt),
            decreases j,
        {
            proof {
                assert(row_views(out@)[j - 1].0 == out@[j - 1].0@);
            }
            j -= 1;
        }
        proof {
            if j > 0 {
                assert(row_views(out@)[j - 1].0 == out@[j - 1].0@);
            }
        }
        let ghost preout = row_views(out@);
        out.insert(j, (key, fields));
        proof {
            lemma_insert_at(preout, rv, j as int);
            assert(row_views(out@) =~= preout.take(j as int) + seq![rv] + preout.skip(j as int));
            assert(row_views(rows@).take(k as int + 1) =~= row_views(rows@).take(k as int).push(
                row_views(rows@)[k as int],
            ));
            assert(row_views(rows@)[k as int] == rv);
            assert(row_views(rows@).take(k as int + 1).drop_last() =~= row_views(rows@).take(
                k as int,
            ));
        }
        k += 1;
    }
    proof {
        assert(row_views(rows@).take(rows@.len() as int) =~= row_views(rows@));
    }
    out
}

/// The records of a CSV text: its non-empty lines, each split at the
/// commas. This dialect has no quoting: a comma is always a field
/// separator, and quote characters belong to the field text.
pub open spec fn csv_records(s: Seq<char>) -> Seq<Seq<Seq<char>>> {
    lines_of(s).filter(|l: Seq<char>| l.len() != 0).map_values(
        |l: Seq<char>| split_char(l, ','),
    )
}

/// The views of parsed records.
pub open spec fn records_views(rs: Seq<Vec<String>>) -> Seq<Seq<Seq<char>>> {
    rs.map_values(|r: Vec<String>| r@.map_values(|f: String| f@))
}

/// The fields of one record line.
#[verifier::loop_isolation(false)]
fn fields_of_range(v: &Vec<char>, lo: usize, hi: usize) -> (r: Vec<String>)
    requires
        lo <= hi <= v@.len(),
    ensures
        r@.map_values(|f: String| f@) == split_char(v@.subrange(lo as int, hi as int), ','),
{
    let bounds = split_char_in(v, lo, hi, ',');
    let mut fields: Vec<String> = Vec::new();
    let mut fi: usize = 0;
    while fi < bounds.len()
        invariant
            fi <= bounds@.len(),
            fields@.map_values(|f: String| f@) == crate::textscan::bounds_views(v@, bounds@).take(
                fi as int,
            ),
        decreases bounds@.len() - fi,
    {
        fields.push(string_range(v, bounds[fi].0, bounds[fi].1));
        fi += 1;
        proof {
            assert(fields@.map_values(|f: String| f@) =~= crate::textscan::bounds_views(
                v@,
                bounds@,
            ).take(fi as int));
        }
    }
    proof {
        assert(crate::textscan::bounds_views(v@, bounds@).take(bounds@.len() as int)
            =~= crate::textscan::bounds_views(v@, bounds@));
    }
    fields
}

/// Parse a CSV text into its records.
#[verifier::rlimit(100)]
pub fn parse_csv_records(contents: &str) -> (r: Vec<Vec<String>>)
    ensures
        records_views(r@) == csv_records(contents@),
{
    broadcast use vstd::seq_lib::group_seq_properties;

    let v = str_chars(contents);
    let n = v.len();
    let mut out: Vec<Vec<String>> = Vec::new();
    let ghost mut done: Seq<Seq<char>> = Seq::empty();
    let mut pos: usize = 0;
    proof {
        reveal_with_fuel(Seq::filter, 3);
        assert(v@.subrange(0, n as int) =~= contents@);
        assert(done + lines_of(v@.subrange(0, n as int)) =~= lines_of(contents@));
        assert(done.filter(|l: Seq<char>| l.len() != 0) =~= Seq::<Seq<char>>::empty());
        assert(records_views(out@) =~= Seq::empty());
    }
    while pos < n
        invariant
            pos <= n,
            n == v@.len(),
            v@.subrange(0, n as int) == contents@,
            lines_of(contents@) == done + lines_of(v@.subrange(pos as int, n as int)),
            records_views(out@) == done.filter(|l: Seq<char>| l.len() != 0).map_values(
                |l: Seq<char>| split_char(l, ','),
            ),
        decreases n - pos,
    {
        let ghost restchars = v@.subrange(pos as int, n as int);
        let ghost rest = lines_of(restchars);
        let (line_lo, line_hi, next_pos): (usize, usize, usize) = match crate::textscan::find_char_in(
            &v,
            pos,
            n,
            '\n',
        ) {
            Some(kk) => {
                let hi: usize = if kk > pos && v[kk - 1] == '\r' {
                    kk - 1
                } else {
                    kk
                };
                proof {
                    assert(restchars.take(kk - pos) =~= v@.subrange(pos as int, kk as int));
                    assert(crate::textscan::strip_cr(restchars.take(kk - pos)) =~= v@.subrange(
                        pos as int,
                        hi as int,
                    ));
                    assert(restchars.skip(kk - pos + 1) =~= v@.subrange(kk + 1, n as int));
                    assert(rest == seq![v@.subrange(pos as int, hi as int)] + lines_of(
                        v@.subrange(kk + 1, n as int),
                    ));
                }
                (pos, hi, kk + 1)
            },
            None => {
                proof {
                    assert(rest =~= seq![restchars]);
                    assert(lines_of(v@.subrange(n as int, n as int)) =~= Seq::<Seq<char>>::empty());
                }
                (pos, n, n)
            },
        };
        let ghost line = v@.subrange(line_lo as int, line_hi as int);
        proof {
            assert(rest.drop_first() =~= lines_of(v@.subrange(next_pos as int, n as int)));
            assert(rest[0] == line);
            assert(done.push(line) + lines_of(v@.subrange(next_pos as int, n as int))
                =~= done + rest);
            Seq::filter_distributes_over_add(done, seq![line], |l: Seq<char>| l.len() != 0);
            assert(done.push(line) =~= done + seq![line]);
        }
        if line_lo < line_hi {
            let fields = fields_of_range(&v, line_lo, line_hi);
            let ghost preout = out@;
            out.push(fields);
            proof {
                reveal_with_fuel(Seq::filter, 3);
                assert(seq![line].drop_last() =~= Seq::<Seq<char>>::empty());
                assert(Seq::<Seq<char>>::empty().filter(|l: Seq<char>| l.len() != 0) =~= Seq::<
                    Seq<char>,
                >::empty());
                assert(seq![line].last() == line);
                assert(seq![line].filter(|l: Seq<char>| l.len() != 0) =~= seq![line]);
                assert(records_views(out@) =~= records_views(preout).push(split_char(line, ',')));
                assert((done + seq![line]).filter(|l: Seq<char>| l.len() != 0).map_values(
                    |l: Seq<char>| split_char(l, ','),
                ) =~= records_views(out@));
            }
        } else {
            proof {
                reveal_with_fuel(Seq::filter, 3);
                assert(line.len() == 0);
                assert(seq![line].drop_last() =~= Seq::<Seq<char>>::empty());
                assert(Seq::<Seq<char>>::empty().filter(|l: Seq<char>| l.len() != 0) =~= Seq::<
                    Seq<char>,
                >::empty());
                assert(seq![line].last() == line);
                assert(seq![line].filter(|l: Seq<char>| l.len() != 0) =~= Seq::<Seq<char>>::empty());
                assert((done + seq![line]).filter(|l: Seq<char>| l.len() != 0).map_values(
                    |l: Seq<char>| split_char(l, ','),
                ) =~= records_views(out@));
            }
        }
        proof {
            done = done.push(line);
        }
        pos = next_pos;
    }
    proof {
        assert(lines_of(v@.subrange(pos as int, n as int)) =~= Seq::<Seq<char>>::empty());
        assert(done =~= lines_of(contents@));
    }
    out
}


/// First position of a name among the headers.
pub open spec fn spec_find_name(hs: Seq<Seq<char>>, c: Seq<char>) -> Option<int>
    decreases hs.len(),
{
    if hs.len() == 0 {
        None
    } else if hs[0] == c {
        Some(0)
    } else {
        match spec_find_name(hs.drop_first(), c) {
            Some(i) => Some(i + 1),
            None => None,
        }
    }
}

/// The header position of every schema column, or the first missing
/// column's name.
pub open spec fn spec_col_indices(schema: Seq<ColumnDefV>, hs: Seq<Seq<char>>) -> Result<
    Seq<int>,
    Seq<char>,
> 
    decreases schema.len(),
{
    if schema.len() == 0 {
        Ok(Seq::empty())
    } else {
        match spec_find_name(hs, schema[0].name) {
            None => Err(schema[0].name),
            Some(i) => match spec_col_indices(schema.drop_first(), hs) {
                Ok(rest) => Ok(seq![i] + rest),
                Err(e) => Err(e),
            },
        }
    }
}

/// The first key-flagged column.
pub open spec fn spec_first_key(schema: Seq<ColumnDefV>) -> Option<ColumnDefV>
    decreases schema.len(),
{
    if schema.len() == 0 {
        None
    } else if schema[0].is_key {
        Some(schema[0])
    } else {
        spec_first_key(schema.drop_first())
    }
}

/// Records annotated with their parsed sort keys, or the first error.
pub open spec fn spec_keyed_rows(
    data: Seq<Seq<Seq<char>>>,
    hlen: int,
    kidx: int,
    kc: ColumnDefV,
) -> Result<Seq<(ScalarV, Seq<Seq<char>>)>, Seq<char>>
    decreases data.len(),
{
    if data.len() == 0 {
        Ok(Seq::empty())
    } else if data[0].len() != hlen {
        Err("CSV read error: record length mismatch"@)
    } else {
        match spec_parse_sort_key(data[0][kidx], kc) {
            Err(e) => Err(e),
            Ok(k) => match spec_keyed_rows(data.drop_first(), hlen, kidx, kc) {
                Err(e) => Err(e),
                Ok(rest) => Ok(seq![(k, data[0])] + rest),
            },
        }
    }
}

/// The segment a sorted row lands in.
pub open spec fn seg_of(i: int, rps: int, nseg: int) -> int {
    let s = i / rps;
    if s < nseg - 1 {
        s
    } else {
        nseg - 1
    }
}

/// The first write error over the sorted rows, scanned row-major in
/// schema order.
pub open spec fn spec_row_err(schema: Seq<ColumnDefV>, idxs: Seq<int>, fields: Seq<Seq<char>>, c: int) -> Option<
    Seq<char>,
>
    decreases schema.len() - c,
{
    if c < 0 || c >= schema.len() {
        None
    } else {
        match spec_write_cell(schema[c], trim_chars(fields[idxs[c]])) {
            Err(e) => Some(e),
            Ok(_) => spec_row_err(schema, idxs, fields, c + 1),
        }
    }
}

pub open spec fn spec_rows_err(
    schema: Seq<ColumnDefV>,
    idxs: Seq<int>,
    rows: Seq<(ScalarV, Seq<Seq<char>>)>,
    i: int,
) -> Option<Seq<char>>
    decreases rows.len() - i,
{
    if i < 0 || i >= rows.len() {
        None
    } else {
        match spec_row_err(schema, idxs, rows[i].1, 0) {
            Some(e) => Some(e),
            None => spec_rows_err(schema, idxs, rows, i + 1),
        }
    }
}

/// The bytes of one column file of one segment, from row `i` on.
pub open spec fn seg_col_bytes(
    rows: Seq<(ScalarV, Seq<Seq<char>>)>,
    col: ColumnDefV,
    idx: int,
    sg: int,
    rps: int,
    nseg: int,
    i: int,
) -> Seq<u8>
    decreases rows.len() - i,
{
    if i < 0 || i >= rows.len() {
        Seq::empty()
    } else {
        (if seg_of(i, rps, nseg) == sg {
            match spec_write_cell(col, trim_chars(rows[i].1[idx])) {
                Ok(b) => b,
                Err(_) => Seq::empty(),
            }
        } else {
            Seq::empty()
        }) + seg_col_bytes(rows, col, idx, sg, rps, nseg, i + 1)
    }
}

/// Every column file of every segment.
pub open spec fn spec_segments(
    rows: Seq<(ScalarV, Seq<Seq<char>>)>,
    schema: Seq<ColumnDefV>,
    idxs: Seq<int>,
    nseg: int,
    rps: int,
) -> Seq<Seq<(Seq<char>, Seq<u8>)>> {
    Seq::new(
        nseg as nat,
        |sg: int|
            Seq::new(
                schema.len(),
                |c: int| (schema[c].name, seg_col_bytes(rows, schema[c], idxs[c], sg, rps, nseg, 0)),
            ),
    )
}

/// What loading a CSV into segments yields: the per-segment per-column
/// files, or the first error in load order.
pub open spec fn spec_load_table(
    csv: Seq<char>,
    sk: Seq<char>,
    nseg: int,
    schema: Seq<ColumnDefV>,
) -> Result<Seq<Seq<(Seq<char>, Seq<u8>)>>, Seq<char>> {
    match spec_first_key(schema) {
        None => Err("Schema has no column marked as `key`"@),
        Some(kc) => if sk != kc.name {
            Err("Sort key '"@ + sk + "' does not match schema key '"@ + kc.name + "'"@)
        } else {
            let recs = csv_records(csv);
            let hs = if recs.len() == 0 {
                Seq::empty()
            } else {
                recs[0]
            };
            match spec_col_indices(schema, hs) {
                Err(name) => Err("CSV missing required column: '"@ + name + "'"@),
                Ok(idxs) => match spec_find_name(hs, kc.name) {
                    None => Err("CSV missing key column '"@ + kc.name + "'"@),
                    Some(kidx) => match spec_keyed_rows(recs.drop_first(), hs.len() as int, kidx, kc) {
                        Err(e) => Err(e),
                        Ok(keyed) => if keyed.len() == 0 {
                            Err("CSV contains no data rows"@)
                        } else {
                            let sorted = spec_sort_rows(keyed);
                            let rps = (keyed.len() + nseg - 1) / nseg;
                            match spec_rows_err(schema, idxs, sorted, 0) {
                                Some(e) => Err(e),
                                None => Ok(spec_segments(sorted, schema, idxs, nseg, rps)),
                            }
                        },
                    },
                },
            }
        },
    }
}

/// The views of the produced segment files.
pub open spec fn segs_views(r: Seq<Vec<(String, Vec<u8>)>>) -> Seq<Seq<(Seq<char>, Seq<u8>)>> {
    r.map_values(
        |sv: Vec<(String, Vec<u8>)>| sv@.map_values(|e: (String, Vec<u8>)| (e.0@, e.1@)),
    )
}

fn find_name(hs: &Vec<String>, c: &str) -> (r: Option<usize>)
    ensures
        match r {
            Some(i) => spec_find_name(hs@.map_values(|s: String| s@), c@) == Some(i as int) && i
                < hs@.len(),
            None => spec_find_name(hs@.map_values(|s: String| s@), c@) == None::<int>,
        },
{
    let ghost hv = hs@.map_values(|s: String| s@);
    proof {
        assert(hv.skip(0) =~= hv);
    }
    let mut i: usize = 0;
    while i < hs.len()
        invariant
            i <= hs@.len(),
            hv == hs@.map_values(|s: String| s@),
            spec_find_name(hv, c@) == (match spec_find_name(hv.skip(i as int), c@) {
                Some(t) => Some(t + i),
                None => None::<int>,
            }),
        decreases hs@.len() - i,
    {
        proof {
            assert(hv.skip(i as int)[0] == hv[i as int]);
            assert(hv.skip(i as int).drop_first() =~= hv.skip(i as int + 1));
        }
        if crate::strutil::eq_str(hs[i].as_str(), c) {
            return Some(i);
        }
        i += 1;
    }
    proof {
        assert(hv.skip(hs@.len() as int) =~= Seq::<Seq<char>>::empty());
    }
    None
}

/// Load a CSV into `segments` contiguous segments, sorted by the key
/// column; each segment holds one byte buffer per schema column.
#[verifier::loop_isolation(false)]
#[verifier::rlimit(100)]
pub fn load_table(
    csv: &str,
    sort_key: &String,
    segments: usize,
    schema: &Vec<ColumnDef>,
) -> (r: Result<Vec<Vec<(String, Vec<u8>)>>, String>)
    requires
        1 <= segments,
    ensures
        ({
            let sv = schema@.map_values(|x: ColumnDef| x@);
            match r {
                Ok(segs) => spec_load_table(csv@, sort_key@, segments as int, sv) == Ok::<
                    Seq<Seq<(Seq<char>, Seq<u8>)>>,
                    Seq<char>,
                >(segs_views(segs@)),
                Err(e) => spec_load_table(csv@, sort_key@, segments as int, sv) == Err::<
                    Seq<Seq<(Seq<char>, Seq<u8>)>>,
                    Seq<char>,
                >(e@),
            }
        }),
{
    let ghost sv = schema@.map_values(|x: ColumnDef| x@);
    proof {
        assert(sv.skip(0) =~= sv);
    }
    // the key column
    let mut kci: usize = 0;
    let mut key_found = false;
    while kci < schema.len() && !key_found
        invariant
            kci <= schema@.len(),
            !key_found ==> forall|j: int| 0 <= j < kci ==> !(#[trigger] sv[j]).is_key,
            spec_first_key(sv) == spec_first_key(sv.skip(kci as int)),
            key_found ==> kci < schema@.len() && spec_first_key(sv.skip(kci as int)) == Some(
                sv[kci as int],
            ),
        decreases schema@.len() - kci + (if key_found { 0int } else { 1int }),
    {
        proof {
            assert(sv.skip(kci as int)[0] == sv[kci as int]);
            assert(sv.skip(kci as int).drop_first() =~= sv.skip(kci as int + 1));
        }
        if schema[kci].is_key {
            key_found = true;
        } else {
            kci += 1;
        }
    }
    if !key_found {
        proof {
            assert(sv.skip(schema@.len() as int) =~= Seq::<ColumnDefV>::empty());
        }
        return Err(crate::strutil::chars_to_string(str_chars(
            "Schema has no column marked as `key`",
        )));
    }
    let kc: ColumnDef = ColumnDef {
        name: schema[kci].name.clone(),
        col_type: schema[kci].col_type,
        nullable: schema[kci].nullable,
        is_key: schema[kci].is_key,
    };
    proof {
        assert(spec_first_key(sv) == Some(kc@));
    }
    if !crate::strutil::eq_str(sort_key.as_str(), kc.name.as_str()) {
        let mut m = str_chars("Sort key '");
        let mut a = str_chars(sort_key.as_str());
        m.append(&mut a);
        let mut mid = str_chars("' does not match schema key '");
        m.append(&mut mid);
        let mut b = str_chars(kc.name.as_str());
        m.append(&mut b);
        let mut tail = str_chars("'");
        m.append(&mut tail);
        return Err(crate::strutil::chars_to_string(m));
    }
    // records
    let recs = parse_csv_records(csv);
    let headers: Vec<String> = if recs.len() == 0 {
        Vec::new()
    } else {
        dup_fields(&recs[0])
    };
    let ghost hs = headers@.map_values(|s: String| s@);
    proof {
        if recs@.len() == 0 {
            assert(hs =~= Seq::<Seq<char>>::empty());
        } else {
            assert(hs == records_views(recs@)[0]);
        }
    }
    // schema column positions among the headers
    let mut idxs: Vec<usize> = Vec::new();
    let mut c: usize = 0;
    proof {
        assert(sv.skip(0) =~= sv);
    }
    while c < schema.len()
        invariant
            c <= schema@.len(),
            idxs@.len() == c,
            forall|j: int| 0 <= j < c ==> #[trigger] idxs@[j] < hs.len(),
            spec_col_indices(sv, hs) == (match spec_col_indices(sv.skip(c as int), hs) {
                Ok(rest) => Ok(idxs@.map_values(|u: usize| u as int) + rest),
                Err(e) => Err::<Seq<int>, Seq<char>>(e),
            }),
        decreases schema@.len() - c,
    {
        proof {
            assert(sv.skip(c as int)[0] == sv[c as int]);
            assert(sv.skip(c as int).drop_first() =~= sv.skip(c as int + 1));
        }
        match find_name(&headers, schema[c].name.as_str()) {
            Some(i) => {
                let ghost preidx = idxs@.map_values(|u: usize| u as int);
                idxs.push(i);
                proof {
                    assert(idxs@.map_values(|u: usize| u as int) =~= preidx.push(i as int));
                    match spec_col_indices(sv.skip(c as int + 1), hs) {
                        Ok(rest) => {
                            assert(preidx + (seq![i as int] + rest) =~= preidx.push(i as int)
                                + rest);
                        },
                        Err(_) => {
                        },
                    }
                }
            },
            None => {
                let mut m = str_chars("CSV missing required column: '");
                let mut a = str_chars(schema[c].name.as_str());
                m.append(&mut a);
                let mut tail = str_chars("'");
                m.append(&mut tail);
                return Err(crate::strutil::chars_to_string(m));
            },
        }
        c += 1;
    }
    proof {
        assert(sv.skip(schema@.len() as int) =~= Seq::<ColumnDefV>::empty());
        assert(idxs@.map_values(|u: usize| u as int) + Seq::<int>::empty() =~= idxs@.map_values(
            |u: usize| u as int,
        ));
    }
    let kidx: usize = match find_name(&headers, kc.name.as_str()) {
        Some(i) => i,
        None => {
            let mut m = str_chars("CSV missing key column '");
            let mut a = str_chars(kc.name.as_str());
            m.append(&mut a);
            let mut tail = str_chars("'");
            m.append(&mut tail);
            return Err(crate::strutil::chars_to_string(m));
        },
    };
    // keyed rows
    let ghost data = records_views(recs@).drop_first();
    let mut keyed: Vec<(ScalarValue, Vec<String>)> = Vec::new();
    let mut ri: usize = 1;
    proof {
        if recs@.len() > 0 {
            assert(data.skip(0) =~= data);
        }
        assert(row_views(keyed@) =~= Seq::empty());
    }
    if recs.len() == 0 {
        // no header at all: the empty header already failed above unless
        // the schema is empty, which the key check rules out
        proof {
            assert(false);
        }
    }
    while ri < recs.len()
        invariant
            1 <= ri <= recs@.len(),
            kidx < hs.len(),
            data == records_views(recs@).drop_first(),
            forall|j: int|
                0 <= j < row_views(keyed@).len() ==> (#[trigger] row_views(keyed@)[j]).1.len()
                    == hs.len(),
            spec_keyed_rows(data, hs.len() as int, kidx as int, kc@) == (match spec_keyed_rows(
                data.skip(ri - 1),
                hs.len() as int,
                kidx as int,
                kc@,
            ) {
                Ok(rest) => Ok(row_views(keyed@) + rest),
                Err(e) => Err::<Seq<(ScalarV, Seq<Seq<char>>)>, Seq<char>>(e),
            }),
        decreases recs@.len() - ri,
    {
        proof {
            assert(data.skip(ri - 1)[0] == data[ri - 1]);
            assert(data[ri - 1] == records_views(recs@)[ri as int]);
            assert(data.skip(ri - 1).drop_first() =~= data.skip(ri as int));
        }
        if recs[ri].len() != headers.len() {
            return Err(crate::strutil::chars_to_string(str_chars(
                "CSV read error: record length mismatch",
            )));
        }
        let key = match parse_sort_key(recs[ri][kidx].as_str(), &kc) {
            Ok(k) => k,
            Err(e) => {
                return Err(e);
            },
        };
        let fields = dup_fields(&recs[ri]);
        let ghost prekeyed = row_views(keyed@);
        keyed.push((key, fields));
        proof {
            assert(row_views(keyed@) =~= prekeyed.push((key@, data[ri - 1])));
            match spec_keyed_rows(data.skip(ri as int), hs.len() as int, kidx as int, kc@) {
                Ok(rest) => {
                    assert(prekeyed.push((key@, data[ri - 1])) + rest =~= prekeyed + (seq![
                        (key@, data[ri - 1]),
                    ] + rest));
                },
                Err(_) => {
                },
            }
        }
        ri += 1;
    }
    proof {
        assert(data.skip(recs@.len() - 1) =~= Seq::<Seq<Seq<char>>>::empty());
        assert(row_views(keyed@) + Seq::<(ScalarV, Seq<Seq<char>>)>::empty() =~= row_views(
            keyed@,
        ));
        assert(spec_keyed_rows(data, hs.len() as int, kidx as int, kc@) == Ok::<
            Seq<(ScalarV, Seq<Seq<char>>)>,
            Seq<char>,
        >(row_views(keyed@)));
    }
    if keyed.len() == 0 {
        return Err(crate::strutil::chars_to_string(str_chars("CSV contains no data rows")));
    }
    // sort and encode
    let sorted = sort_rows(&keyed);
    let ghost sortedv = spec_sort_rows(row_views(keyed@));
    let total: usize = sorted.len();
    proof {
        assert(sorted@.len() == row_views(sorted@).len());
        lemma_sort_len(row_views(keyed@));
    }
    let q0: usize = total / segments;
    let r0: usize = total % segments;
    proof {
        let t = total as int;
        let s2 = segments as int;
        vstd::arithmetic::div_mod::lemma_fundamental_div_mod(t, s2);
        if r0 != 0 {
            if segments == 1 {
                vstd::arithmetic::div_mod::lemma_fundamental_div_mod(t, 1);
                assert(false);
            }
            assert(t == s2 * (q0 as int) + r0);
            assert(q0 + 1 <= t) by (nonlinear_arith)
                requires
                    s2 >= 2,
                    q0 >= 0,
                    r0 >= 1,
                    t == s2 * (q0 as int) + r0,
            ;
        }
    }
    let rps: usize = if r0 == 0 {
        q0
    } else {
        q0 + 1
    };
    proof {
        let t = total as int;
        let s2 = segments as int;
        vstd::arithmetic::div_mod::lemma_fundamental_div_mod(t, s2);
        assert(t == s2 * (q0 as int) + r0);
        if r0 == 0 {
            assert((t + s2 - 1) == (q0 as int) * s2 + (s2 - 1)) by (nonlinear_arith)
                requires
                    t == s2 * (q0 as int) + r0,
                    r0 == 0,
            ;
            vstd::arithmetic::div_mod::lemma_fundamental_div_mod_converse(
                t + s2 - 1,
                s2,
                q0 as int,
                s2 - 1,
            );
        } else {
            assert((t + s2 - 1) == (q0 as int + 1) * s2 + (r0 as int - 1)) by (nonlinear_arith)
                requires
                    t == s2 * (q0 as int) + r0,
            ;
            vstd::arithmetic::div_mod::lemma_fundamental_div_mod_converse(
                t + s2 - 1,
                s2,
                q0 as int + 1,
                r0 as int - 1,
            );
        }
        assert(rps == (t + s2 - 1) / s2);
        assert(rps == (row_views(keyed@).len() + segments - 1) as int / segments as int);
        vstd::arithmetic::div_mod::lemma_div_non_zero(t + s2 - 1, s2);
        assert(rps >= 1);
    }
    proof {
        lemma_sort_multiset(row_views(keyed@));
        lemma_sorted_field_lens(row_views(keyed@), hs.len() as int);
        assert(forall|j: int|
            0 <= j < sortedv.len() ==> (#[trigger] sortedv[j]).1.len() == hs.len());
    }
    proof {
        assert(idxs@.len() == schema@.len());
        assert forall|j: int|
            0 <= j < row_views(sorted@).len() implies forall|c2: int|
            0 <= c2 < idxs@.len() ==> #[trigger] idxs@[c2] < (#[trigger] row_views(
            sorted@,
        )[j]).1.len() by {
            assert(row_views(sorted@)[j].1.len() == hs.len());
        }
    }
    // first pass: surface the first write error in row order
    match check_rows(&sorted, schema, &idxs) {
        Ok(_) => {
        },
        Err(e) => {
            return Err(e);
        },
    }
    // second pass: build each segment's files
    let out = encode_segments(&sorted, schema, &idxs, segments, rps);
    Ok(out)
}

/// Sorting keeps the number of rows.
pub proof fn lemma_sort_len(rows: Seq<(ScalarV, Seq<Seq<char>>)>)
    ensures
        spec_sort_rows(rows).len() == rows.len(),
    decreases rows.len(),
{
    if rows.len() > 0 {
        lemma_sort_len(rows.drop_last());
        lemma_insert_len(spec_sort_rows(rows.drop_last()), rows.last());
    }
}

proof fn lemma_insert_len(sorted: Seq<(ScalarV, Seq<Seq<char>>)>, row: (ScalarV, Seq<Seq<char>>))
    ensures
        spec_insert_row(sorted, row).len() == sorted.len() + 1,
    decreases sorted.len(),
{
    if sorted.len() > 0 && spec_compare_scalar(row.0, sorted.last().0) == Some(Rel::Lt) {
        lemma_insert_len(sorted.drop_last(), row);
    }
}

/// When the whole scan found no error, each cell write succeeds.
proof fn lemma_rows_err_ok(
    schema: Seq<ColumnDefV>,
    idxs: Seq<int>,
    rows: Seq<(ScalarV, Seq<Seq<char>>)>,
    i: int,
    c: int,
)
    requires
        spec_rows_err(schema, idxs, rows, 0) is None,
        0 <= i < rows.len(),
        0 <= c < schema.len(),
    ensures
        spec_write_cell(schema[c], trim_chars(rows[i].1[idxs[c]])) is Ok,
{
    lemma_rows_err_step(schema, idxs, rows, 0, i);
    lemma_row_err_step(schema, idxs, rows[i].1, 0, c);
}

proof fn lemma_rows_err_step(
    schema: Seq<ColumnDefV>,
    idxs: Seq<int>,
    rows: Seq<(ScalarV, Seq<Seq<char>>)>,
    j: int,
    i: int,
)
    requires
        spec_rows_err(schema, idxs, rows, j) is None,
        0 <= j <= i < rows.len(),
    ensures
        spec_row_err(schema, idxs, rows[i].1, 0) is None,
    decreases i - j,
{
    if j < i {
        lemma_rows_err_step(schema, idxs, rows, j + 1, i);
    }
}

proof fn lemma_row_err_step(
    schema: Seq<ColumnDefV>,
    idxs: Seq<int>,
    fields: Seq<Seq<char>>,
    j: int,
    c: int,
)
    requires
        spec_row_err(schema, idxs, fields, j) is None,
        0 <= j <= c < schema.len(),
    ensures
        spec_write_cell(schema[c], trim_chars(fields[idxs[c]])) is Ok,
    decreases c - j,
{
    if j < c {
        lemma_row_err_step(schema, idxs, fields, j + 1, c);
    }
}


/// Inserting keeps the rows as a multiset.
proof fn lemma_insert_multiset(
    sorted: Seq<(ScalarV, Seq<Seq<char>>)>,
    row: (ScalarV, Seq<Seq<char>>),
)
    ensures
        spec_insert_row(sorted, row).to_multiset() == sorted.to_multiset().insert(row),
    decreases sorted.len(),
{
    broadcast use vstd::seq_lib::group_to_multiset_ensures;

    if sorted.len() == 0 {
        assert(seq![row] =~= Seq::<(ScalarV, Seq<Seq<char>>)>::empty().push(row));
        assert(Seq::<(ScalarV, Seq<Seq<char>>)>::empty().push(row).to_multiset()
            =~= Seq::<(ScalarV, Seq<Seq<char>>)>::empty().to_multiset().insert(row));
        assert(sorted.to_multiset() =~= Multiset::empty());
    } else if spec_compare_scalar(row.0, sorted.last().0) == Some(Rel::Lt) {
        lemma_insert_multiset(sorted.drop_last(), row);
        assert(sorted =~= sorted.drop_last().push(sorted.last()));
        assert(spec_insert_row(sorted.drop_last(), row).push(sorted.last()).to_multiset()
            =~= spec_insert_row(sorted.drop_last(), row).to_multiset().insert(sorted.last()));
        assert(sorted.drop_last().push(sorted.last()).to_multiset() =~= sorted.drop_last(
        ).to_multiset().insert(sorted.last()));
        assert(sorted.drop_last().to_multiset().insert(row).insert(sorted.last())
            =~= sorted.drop_last().to_multiset().insert(sorted.last()).insert(row));
    } else {
        assert(sorted.push(row).to_multiset() =~= sorted.to_multiset().insert(row));
    }
}

/// Sorting keeps the rows as a multiset.
pub proof fn lemma_sort_multiset(rows: Seq<(ScalarV, Seq<Seq<char>>)>)
    ensures
        spec_sort_rows(rows).to_multiset() == rows.to_multiset(),
    decreases rows.len(),
{
    broadcast use vstd::seq_lib::group_to_multiset_ensures;

    if rows.len() > 0 {
        lemma_sort_multiset(rows.drop_last());
        lemma_insert_multiset(spec_sort_rows(rows.drop_last()), rows.last());
        assert(rows =~= rows.drop_last().push(rows.last()));
        assert(rows.drop_last().push(rows.last()).to_multiset() =~= rows.drop_last(
        ).to_multiset().insert(rows.last()));
        assert(spec_sort_rows(rows).to_multiset() =~= rows.to_multiset());
    }
}

/// Every sorted row keeps its record's field count.
proof fn lemma_sorted_field_lens(rows: Seq<(ScalarV, Seq<Seq<char>>)>, hlen: int)
    requires
        forall|j: int| 0 <= j < rows.len() ==> (#[trigger] rows[j]).1.len() == hlen,
    ensures
        forall|j: int|
            0 <= j < spec_sort_rows(rows).len() ==> (#[trigger] spec_sort_rows(rows)[j]).1.len()
                == hlen,
{
    broadcast use vstd::seq_lib::group_to_multiset_ensures;

    lemma_sort_multiset(rows);
    let sorted = spec_sort_rows(rows);
    assert forall|j: int| 0 <= j < sorted.len() implies (#[trigger] sorted[j]).1.len() == hlen by {
        let e = sorted[j];
        assert(sorted.contains(e));
        assert(sorted.to_multiset().count(e) > 0);
        assert(rows.to_multiset().count(e) > 0);
        assert(rows.contains(e));
        let t = choose|t: int| 0 <= t < rows.len() && rows[t] == e;
        assert(rows[t].1.len() == hlen);
    }
}


/// Check every cell of every row, row-major, surfacing the first error.
#[verifier::loop_isolation(false)]
#[verifier::rlimit(100)]
fn check_rows(sorted: &Vec<(ScalarValue, Vec<String>)>, schema: &Vec<ColumnDef>, idxs: &Vec<usize>) -> (r: Result<(), String>)
    requires
        idxs@.len() == schema@.len(),
        forall|j: int|
            0 <= j < row_views(sorted@).len() ==> forall|c: int|
                0 <= c < idxs@.len() ==> #[trigger] idxs@[c] < (#[trigger] row_views(
                    sorted@,
                )[j]).1.len(),
    ensures
        ({
            let sv = schema@.map_values(|x: ColumnDef| x@);
            let iv = idxs@.map_values(|u: usize| u as int);
            match r {
                Ok(_) => spec_rows_err(sv, iv, row_views(sorted@), 0) is None,
                Err(e) => spec_rows_err(sv, iv, row_views(sorted@), 0) == Some(e@),
            }
        }),
{
    let ghost sv = schema@.map_values(|x: ColumnDef| x@);
    let ghost iv = idxs@.map_values(|u: usize| u as int);
    let ghost rows = row_views(sorted@);
    let mut vi: usize = 0;
    while vi < sorted.len()
        invariant
            vi <= sorted@.len(),
            spec_rows_err(sv, iv, rows, 0) == spec_rows_err(sv, iv, rows, vi as int),
        decreases sorted@.len() - vi,
    {
        let mut ci: usize = 0;
        while ci < schema.len()
            invariant
                vi < sorted@.len(),
                ci <= schema@.len(),
                spec_row_err(sv, iv, rows[vi as int].1, 0) == spec_row_err(
                    sv,
                    iv,
                    rows[vi as int].1,
                    ci as int,
                ),
            decreases schema@.len() - ci,
        {
            let fv2 = &sorted[vi].1;
            let fchars = str_chars(fv2[idxs[ci]].as_str());
            let (ta, tb) = trim_bounds(&fchars, 0, fchars.len());
            let tf = string_range(&fchars, ta, tb);
            proof {
                assert(fchars@.subrange(0, fchars@.len() as int) =~= fchars@);
                assert(fchars@ == rows[vi as int].1[iv[ci as int]]);
            }
            let mut scratch: Vec<u8> = Vec::new();
            match write_value(&mut scratch, tf.as_str(), &schema[ci]) {
                Ok(_) => {
                },
                Err(e) => {
                    return Err(e);
                },
            }
            ci += 1;
        }
        vi += 1;
    }
    Ok(())
}

/// Encode every column file of every segment, after a clean check pass.
#[verifier::loop_isolation(false)]
#[verifier::rlimit(100)]
fn encode_segments(
    sorted: &Vec<(ScalarValue, Vec<String>)>,
    schema: &Vec<ColumnDef>,
    idxs: &Vec<usize>,
    segments: usize,
    rps: usize,
) -> (r: Vec<Vec<(String, Vec<u8>)>>)
    requires
        1 <= segments,
        1 <= rps,
        idxs@.len() == schema@.len(),
        forall|j: int|
            0 <= j < row_views(sorted@).len() ==> forall|c: int|
                0 <= c < idxs@.len() ==> #[trigger] idxs@[c] < (#[trigger] row_views(
                    sorted@,
                )[j]).1.len(),
        spec_rows_err(
            schema@.map_values(|x: ColumnDef| x@),
            idxs@.map_values(|u: usize| u as int),
            row_views(sorted@),
            0,
        ) is None,
    ensures
        segs_views(r@) == spec_segments(
            row_views(sorted@),
            schema@.map_values(|x: ColumnDef| x@),
            idxs@.map_values(|u: usize| u as int),
            segments as int,
            rps as int,
        ),
{
    let ghost sv = schema@.map_values(|x: ColumnDef| x@);
    let ghost iv = idxs@.map_values(|u: usize| u as int);
    let ghost rows = row_views(sorted@);
    let mut out: Vec<Vec<(String, Vec<u8>)>> = Vec::new();
    let mut sg: usize = 0;
    proof {
        assert(segs_views(out@) =~= spec_segments(
            rows,
            sv,
            iv,
            segments as int,
            rps as int,
        ).take(0));
    }
    while sg < segments
        invariant
            sg <= segments,
            segs_views(out@) == spec_segments(rows, sv, iv, segments as int, rps as int).take(
                sg as int,
            ),
        decreases segments - sg,
    {
        let segcols = encode_one_segment(sorted, schema, idxs, segments, rps, sg);
        out.push(segcols);
        sg += 1;
        proof {
            assert(segs_views(out@) =~= spec_segments(rows, sv, iv, segments as int, rps as int).take(
                sg as int,
            ));
        }
    }
    proof {
        assert(spec_segments(rows, sv, iv, segments as int, rps as int).take(segments as int)
            =~= spec_segments(rows, sv, iv, segments as int, rps as int));
    }
    out
}

/// Encode the column files of one segment.
#[verifier::loop_isolation(false)]
#[verifier::rlimit(100)]
fn encode_one_segment(
    sorted: &Vec<(ScalarValue, Vec<String>)>,
    schema: &Vec<ColumnDef>,
    idxs: &Vec<usize>,
    segments: usize,
    rps: usize,
    sg: usize,
) -> (r: Vec<(String, Vec<u8>)>)
    requires
        1 <= segments,
        1 <= rps,
        sg < segments,
        idxs@.len() == schema@.len(),
        forall|j: int|
            0 <= j < row_views(sorted@).len() ==> forall|c: int|
                0 <= c < idxs@.len() ==> #[trigger] idxs@[c] < (#[trigger] row_views(
                    sorted@,
                )[j]).1.len(),
        spec_rows_err(
            schema@.map_values(|x: ColumnDef| x@),
            idxs@.map_values(|u: usize| u as int),
            row_views(sorted@),
            0,
        ) is None,
    ensures
        r@.map_values(|e: (String, Vec<u8>)| (e.0@, e.1@)) == Seq::new(
            schema@.len(),
            |c2: int| (
                schema@.map_values(|x: ColumnDef| x@)[c2].name,
                seg_col_bytes(
                    row_views(sorted@),
                    schema@.map_values(|x: ColumnDef| x@)[c2],
                    idxs@.map_values(|u: usize| u as int)[c2],
                    sg as int,
                    rps as int,
                    segments as int,
                    0,
                ),
            ),
        ),
{
    let ghost sv = schema@.map_values(|x: ColumnDef| x@);
    let ghost iv = idxs@.map_values(|u: usize| u as int);
    let ghost rows = row_views(sorted@);
    let mut segcols: Vec<(String, Vec<u8>)> = Vec::new();
    let mut ci: usize = 0;
    proof {
        assert(segcols@.map_values(|e: (String, Vec<u8>)| (e.0@, e.1@)) =~= Seq::new(
            0,
            |c2: int| (
                sv[c2].name,
                seg_col_bytes(rows, sv[c2], iv[c2], sg as int, rps as int, segments as int, 0),
            ),
        ));
    }
    while ci < schema.len()
        invariant
            ci <= schema@.len(),
            segcols@.map_values(|e: (String, Vec<u8>)| (e.0@, e.1@)) == Seq::new(
                ci as nat,
                |c2: int| (
                    sv[c2].name,
                    seg_col_bytes(rows, sv[c2], iv[c2], sg as int, rps as int, segments as int, 0),
                ),
            ),
        decreases schema@.len() - ci,
    {
        let mut buf: Vec<u8> = Vec::new();
        let mut rowi: usize = 0;
        while rowi < sorted.len()
            invariant
                ci < schema@.len(),
                rowi <= sorted@.len(),
                seg_col_bytes(rows, sv[ci as int], iv[ci as int], sg as int, rps as int, segments as int, 0)
                    == buf@ + seg_col_bytes(
                    rows,
                    sv[ci as int],
                    iv[ci as int],
                    sg as int,
                    rps as int,
                    segments as int,
                    rowi as int,
                ),
            decreases sorted@.len() - rowi,
        {
            let rowseg: usize = {
                let q = rowi / rps;
                if q < segments - 1 {
                    q
                } else {
                    segments - 1
                }
            };
            proof {
                assert(rowseg as int == seg_of(rowi as int, rps as int, segments as int));
            }
            if rowseg == sg {
                let fv2 = &sorted[rowi].1;
                let fchars = str_chars(fv2[idxs[ci]].as_str());
                let (ta, tb) = trim_bounds(&fchars, 0, fchars.len());
                let tf = string_range(&fchars, ta, tb);
                proof {
                    assert(fchars@.subrange(0, fchars@.len() as int) =~= fchars@);
                    assert(fchars@ == rows[rowi as int].1[iv[ci as int]]);
                    lemma_rows_err_ok(sv, iv, rows, rowi as int, ci as int);
                }
                match write_value(&mut buf, tf.as_str(), &schema[ci]) {
                    Ok(_) => {
                    },
                    Err(_) => {
                        proof {
                            assert(false);
                        }
                    },
                }
            }
            rowi += 1;
        }
        proof {
            assert(seg_col_bytes(
                rows,
                sv[ci as int],
                iv[ci as int],
                sg as int,
                rps as int,
                segments as int,
                sorted@.len() as int,
            ) =~= Seq::<u8>::empty());
            assert(buf@ + Seq::<u8>::empty() =~= buf@);
        }
        let cname = schema[ci].name.clone();
        proof {
            assert(cname@ == sv[ci as int].name);
            assert(buf@ == seg_col_bytes(
                rows,
                sv[ci as int],
                iv[ci as int],
                sg as int,
                rps as int,
                segments as int,
                0,
            ));
        }
        let ghost precols = segcols@.map_values(|e: (String, Vec<u8>)| (e.0@, e.1@));
        segcols.push((cname, buf));
        ci += 1;
        proof {
            assert(segcols@.map_values(|e: (String, Vec<u8>)| (e.0@, e.1@)) =~= precols.push(
                (
                    sv[ci - 1].name,
                    seg_col_bytes(
                        rows,
                        sv[ci - 1],
                        iv[ci - 1],
                        sg as int,
                        rps as int,
                        segments as int,
                        0,
                    ),
                ),
            ));
            assert(segcols@.map_values(|e: (String, Vec<u8>)| (e.0@, e.1@)) =~= Seq::new(
                ci as nat,
                |c2: int| (
                    sv[c2].name,
                    seg_col_bytes(rows, sv[c2], iv[c2], sg as int, rps as int, segments as int, 0),
                ),
            ));
        }
    }
    proof {
        assert(segcols@.map_values(|e: (String, Vec<u8>)| (e.0@, e.1@)) =~= Seq::new(
            schema@.len(),
            |c2: int| (
                sv[c2].name,
                seg_col_bytes(rows, sv[c2], iv[c2], sg as int, rps as int, segments as int, 0),
            ),
        ));
    }
    segcols
}


/// All keys of one column: one constructor, no NaN.
pub open spec fn keys_uniform(rows: Seq<(ScalarV, Seq<Seq<char>>)>) -> bool {
    forall|i: int, j: int|
        0 <= i < rows.len() && 0 <= j < rows.len() ==> same_variant(
            (#[trigger] rows[i]).0,
            (#[trigger] rows[j]).0,
        ) && !scalar_nan(rows[i].0)
}

/// Keys never decrease along the rows.
pub open spec fn sorted_rows(rows: Seq<(ScalarV, Seq<Seq<char>>)>) -> bool {
    forall|i: int, j: int|
        0 <= i < j < rows.len() ==> (spec_compare_scalar(
            (#[trigger] rows[i]).0,
            (#[trigger] rows[j]).0,
        ) matches Some(r) && r != Rel::Gt)
}

proof fn lemma_insert_contains(
    sorted: Seq<(ScalarV, Seq<Seq<char>>)>,
    row: (ScalarV, Seq<Seq<char>>),
    e: (ScalarV, Seq<Seq<char>>),
)
    requires
        spec_insert_row(sorted, row).contains(e),
    ensures
        e == row || sorted.contains(e),
{
    broadcast use vstd::seq_lib::group_to_multiset_ensures;

    lemma_insert_multiset(sorted, row);
    let ins = spec_insert_row(sorted, row);
    assert(ins.to_multiset().count(e) > 0);
    if e != row {
        assert(sorted.to_multiset().insert(row).count(e) == sorted.to_multiset().count(e));
        assert(sorted.to_multiset().count(e) > 0);
    }
}

proof fn lemma_insert_sorted(
    sorted: Seq<(ScalarV, Seq<Seq<char>>)>,
    row: (ScalarV, Seq<Seq<char>>),
)
    requires
        sorted_rows(sorted),
        forall|i: int|
            0 <= i < sorted.len() ==> same_variant((#[trigger] sorted[i]).0, row.0) && !scalar_nan(
                sorted[i].0,
            ),
        !scalar_nan(row.0),
    ensures
        sorted_rows(spec_insert_row(sorted, row)),
    decreases sorted.len(),
{
    let ins = spec_insert_row(sorted, row);
    if sorted.len() == 0 {
    } else if spec_compare_scalar(row.0, sorted.last().0) == Some(Rel::Lt) {
        assert(sorted_rows(sorted.drop_last())) by {
            assert(forall|i: int|
                0 <= i < sorted.len() - 1 ==> sorted.drop_last()[i] == sorted[i]);
        }
        lemma_insert_sorted(sorted.drop_last(), row);
        let inner = spec_insert_row(sorted.drop_last(), row);
        assert(ins == inner.push(sorted.last()));
        assert forall|i: int, j: int|
            0 <= i < j < ins.len() implies spec_compare_scalar((#[trigger] ins[i]).0, (
        #[trigger] ins[j]).0) matches Some(r) && r != Rel::Gt by {
            if j < ins.len() - 1 {
                assert(ins[i] == inner[i] && ins[j] == inner[j]);
            } else {
                assert(ins[j] == sorted.last());
                assert(inner.contains(inner[i])) by {
                    assert(ins[i] == inner[i]);
                }
                lemma_insert_contains(sorted.drop_last(), row, inner[i]);
                if inner[i] == row {
                    crate::minisql_eval::lemma_cs_antisym(row.0, sorted.last().0);
                } else {
                    let t = choose|t: int|
                        0 <= t < sorted.drop_last().len() && sorted.drop_last()[t] == inner[i];
                    assert(sorted[t] == inner[i]);
                    assert(spec_compare_scalar(sorted[t].0, sorted.last().0) matches Some(r2)
                        && r2 != Rel::Gt);
                }
            }
        }
    } else {
        assert(ins == sorted.push(row));
        crate::minisql_eval::lemma_cs_total(row.0, sorted.last().0);
        crate::minisql_eval::lemma_cs_antisym(row.0, sorted.last().0);
        assert(spec_compare_scalar(sorted.last().0, row.0) matches Some(r) && r != Rel::Gt);
        assert forall|i: int, j: int|
            0 <= i < j < ins.len() implies spec_compare_scalar((#[trigger] ins[i]).0, (
        #[trigger] ins[j]).0) matches Some(r) && r != Rel::Gt by {
            if j < ins.len() - 1 {
                assert(ins[i] == sorted[i] && ins[j] == sorted[j]);
            } else {
                assert(ins[j] == row);
                assert(ins[i] == sorted[i]);
                if i < sorted.len() - 1 {
                    assert(spec_compare_scalar(sorted[i].0, sorted.last().0) matches Some(r2)
                        && r2 != Rel::Gt);
                    crate::minisql_eval::lemma_cs_trans(sorted[i].0, sorted.last().0, row.0);
                }
            }
        }
    }
}

/// Sorting the rows leaves their keys non-decreasing.
pub proof fn lemma_sort_sorted(rows: Seq<(ScalarV, Seq<Seq<char>>)>)
    requires
        keys_uniform(rows),
    ensures
        sorted_rows(spec_sort_rows(rows)),
    decreases rows.len(),
{
    broadcast use vstd::seq_lib::group_to_multiset_ensures;

    if rows.len() > 0 {
        assert(keys_uniform(rows.drop_last())) by {
            assert(forall|i: int|
                0 <= i < rows.len() - 1 ==> rows.drop_last()[i] == rows[i]);
        }
        lemma_sort_sorted(rows.drop_last());
        lemma_sort_multiset(rows.drop_last());
        let sorted = spec_sort_rows(rows.drop_last());
        assert forall|i: int|
            0 <= i < sorted.len() implies same_variant((#[trigger] sorted[i]).0, rows.last().0)
                && !scalar_nan(sorted[i].0) by {
            assert(sorted.contains(sorted[i]));
            assert(sorted.to_multiset().count(sorted[i]) > 0);
            assert(rows.drop_last().to_multiset().count(sorted[i]) > 0);
            assert(rows.drop_last().contains(sorted[i]));
            let t = choose|t: int|
                0 <= t < rows.drop_last().len() && rows.drop_last()[t] == sorted[i];
            assert(rows[t] == sorted[i]);
        }
        lemma_insert_sorted(sorted, rows.last());
    }
}


/// The cell value a field text writes for a column: null for an empty
/// field, else the field parsed at the column's type.
pub open spec fn spec_cell_of(col: ColumnDefV, field: Seq<char>) -> Option<ScalarV> {
    if field.len() == 0 {
        None
    } else {
        match col.col_type {
            ColumnType::Int32 => match spec_parse_i32(field) {
                Some(x) => Some(ScalarV::Int(x)),
                None => None,
            },
            ColumnType::Int64 => match spec_parse_i64(field) {
                Some(x) => Some(ScalarV::Int(x)),
                None => None,
            },
            ColumnType::TimestampMs => match spec_parse_i64(field) {
                Some(x) => Some(ScalarV::Int(x)),
                None => None,
            },
            ColumnType::Float64 => match spec_parse_f64(field) {
                Some(b) => Some(ScalarV::Float(b)),
                None => None,
            },
            ColumnType::Bool => match spec_parse_bool(field) {
                Some(b) => Some(ScalarV::Bool(b)),
                None => None,
            },
            ColumnType::Str => Some(ScalarV::Str(field)),
            ColumnType::Date => match spec_parse_date(field) {
                Some(x) => Some(ScalarV::Int(x)),
                None => None,
            },
        }
    }
}

/// A cell that writes without error holds the encoding of its parsed
/// value, and that value is storable at the column's type.
pub proof fn lemma_write_cell_value(col: ColumnDefV, field: Seq<char>)
    requires
        spec_write_cell(col, field) is Ok,
    ensures
        spec_write_cell(col, field) == Ok::<Seq<u8>, Seq<char>>(
            enc_cell(col.col_type, spec_cell_of(col, field)),
        ),
        crate::codec::cell_ok(col.col_type, spec_cell_of(col, field)),
{
    if field.len() != 0 && col.col_type is Date {
        crate::fieldparse::lemma_date_fits(field);
    }
}

/// The cell values one segment's rows put into one column file, from
/// row `i` on.
pub open spec fn seg_vals(
    rows: Seq<(ScalarV, Seq<Seq<char>>)>,
    col: ColumnDefV,
    idx: int,
    sg: int,
    rps: int,
    nseg: int,
    i: int,
) -> Seq<Option<ScalarV>>
    decreases rows.len() - i,
{
    if i < 0 || i >= rows.len() {
        Seq::empty()
    } else {
        (if seg_of(i, rps, nseg) == sg {
            seq![spec_cell_of(col, trim_chars(rows[i].1[idx]))]
        } else {
            Seq::empty()
        }) + seg_vals(rows, col, idx, sg, rps, nseg, i + 1)
    }
}

/// A written column file is the cell-after-cell encoding of its
/// segment's values, and those values are all storable.
proof fn lemma_seg_col_enc(
    rows: Seq<(ScalarV, Seq<Seq<char>>)>,
    col: ColumnDefV,
    idx: int,
    sg: int,
    rps: int,
    nseg: int,
    i: int,
)
    requires
        0 <= i <= rows.len(),
        forall|j: int|
            i <= j < rows.len() && seg_of(j, rps, nseg) == sg ==> (#[trigger] spec_write_cell(
                col,
                trim_chars(rows[j].1[idx]),
            ) is Ok),
    ensures
        seg_col_bytes(rows, col, idx, sg, rps, nseg, i) == crate::codec::enc_cells(
            col.col_type,
            seg_vals(rows, col, idx, sg, rps, nseg, i),
        ),
        crate::codec::cells_ok(col.col_type, seg_vals(rows, col, idx, sg, rps, nseg, i)),
    decreases rows.len() - i,
{
    if i < rows.len() {
        lemma_seg_col_enc(rows, col, idx, sg, rps, nseg, i + 1);
        let tail = seg_vals(rows, col, idx, sg, rps, nseg, i + 1);
        if seg_of(i, rps, nseg) == sg {
            lemma_write_cell_value(col, trim_chars(rows[i].1[idx]));
            let v = spec_cell_of(col, trim_chars(rows[i].1[idx]));
            let vs = seg_vals(rows, col, idx, sg, rps, nseg, i);
            assert(vs == seq![v] + tail);
            assert(vs[0] == v);
            assert(vs.drop_first() =~= tail);
            assert(crate::codec::enc_cells(col.col_type, vs) == enc_cell(col.col_type, v)
                + crate::codec::enc_cells(col.col_type, tail));
            assert forall|k: int| 0 <= k < vs.len() implies crate::codec::cell_ok(
                col.col_type,
                #[trigger] vs[k],
            ) by {
                if k > 0 {
                    assert(vs[k] == tail[k - 1]);
                }
            }
        } else {
            let vs = seg_vals(rows, col, idx, sg, rps, nseg, i);
            assert(vs =~= tail);
            assert(seg_col_bytes(rows, col, idx, sg, rps, nseg, i) =~= seg_col_bytes(
                rows,
                col,
                idx,
                sg,
                rps,
                nseg,
                i + 1,
            ));
        }
    } else {
        assert(seg_vals(rows, col, idx, sg, rps, nseg, i) =~= Seq::<Option<ScalarV>>::empty());
    }
}

/// Round trip of the store: a column file a load writes for a segment
/// decodes back to exactly that segment's cell values, in row order.
pub proof fn lemma_segment_file_round_trip(
    rows: Seq<(ScalarV, Seq<Seq<char>>)>,
    col: ColumnDefV,
    idx: int,
    sg: int,
    rps: int,
    nseg: int,
)
    requires
        forall|j: int|
            0 <= j < rows.len() && seg_of(j, rps, nseg) == sg ==> (#[trigger] spec_write_cell(
                col,
                trim_chars(rows[j].1[idx]),
            ) is Ok),
    ensures
        crate::codec::column_values(
            col.col_type,
            seg_col_bytes(rows, col, idx, sg, rps, nseg, 0),
        ) == seg_vals(rows, col, idx, sg, rps, nseg, 0),
{
    lemma_seg_col_enc(rows, col, idx, sg, rps, nseg, 0);
    let vs = seg_vals(rows, col, idx, sg, rps, nseg, 0);
    let b = crate::codec::enc_cells(col.col_type, vs);
    crate::codec::lemma_column_round_trip(col.col_type, vs);
    if b.len() >= 4 && b.subrange(0, 4) == crate::codec::rle_magic() {
        assert(vs.len() > 0);
        let e = enc_cell(col.col_type, vs[0]);
        assert(e.len() >= 1 && (e[0] == 0u8 || e[0] == 1u8));
        assert(b == e + crate::codec::enc_cells(col.col_type, vs.drop_first()));
        assert(b[0] == e[0]);
        assert(b.subrange(0, 4)[0] == 82u8);
        assert(false);
    }
}


/// A field that yields both a sort key and a written cell yields the
/// same value for both readings.
proof fn lemma_key_cell(raw: Seq<char>, kc: ColumnDefV)
    requires
        spec_parse_sort_key(raw, kc) is Ok,
        spec_write_cell(kc, trim_chars(raw)) is Ok,
    ensures
        spec_cell_of(kc, trim_chars(raw)) == Some(spec_parse_sort_key(raw, kc)->Ok_0),
{
}

/// The sort keys one segment's rows carry, from row `i` on, in the
/// shape a decoded key column holds them.
pub open spec fn seg_keys(
    rows: Seq<(ScalarV, Seq<Seq<char>>)>,
    sg: int,
    rps: int,
    nseg: int,
    i: int,
) -> Seq<Option<ScalarV>>
    decreases rows.len() - i,
{
    if i < 0 || i >= rows.len() {
        Seq::empty()
    } else {
        (if seg_of(i, rps, nseg) == sg {
            seq![Some(rows[i].0)]
        } else {
            Seq::empty()
        }) + seg_keys(rows, sg, rps, nseg, i + 1)
    }
}

proof fn lemma_seg_key_vals(
    rows: Seq<(ScalarV, Seq<Seq<char>>)>,
    kc: ColumnDefV,
    kidx: int,
    sg: int,
    rps: int,
    nseg: int,
    i: int,
)
    requires
        0 <= i <= rows.len(),
        forall|j: int|
            0 <= j < rows.len() ==> #[trigger] spec_parse_sort_key(rows[j].1[kidx], kc)
                == Ok::<ScalarV, Seq<char>>(rows[j].0),
        forall|j: int|
            0 <= j < rows.len() && seg_of(j, rps, nseg) == sg ==> (#[trigger] spec_write_cell(
                kc,
                trim_chars(rows[j].1[kidx]),
            ) is Ok),
    ensures
        seg_vals(rows, kc, kidx, sg, rps, nseg, i) == seg_keys(rows, sg, rps, nseg, i),
    decreases rows.len() - i,
{
    if i < rows.len() {
        lemma_seg_key_vals(rows, kc, kidx, sg, rps, nseg, i + 1);
        if seg_of(i, rps, nseg) == sg {
            lemma_key_cell(rows[i].1[kidx], kc);
        }
        assert(seg_vals(rows, kc, kidx, sg, rps, nseg, i) =~= seg_keys(rows, sg, rps, nseg, i));
    } else {
        assert(seg_vals(rows, kc, kidx, sg, rps, nseg, i) =~= seg_keys(rows, sg, rps, nseg, i));
    }
}

/// Round trip of the keys: the key column file a load writes for a
/// segment decodes back to exactly that segment's sort keys, in the
/// order the sorted rows gave them.
pub proof fn lemma_segment_keys_round_trip(
    rows: Seq<(ScalarV, Seq<Seq<char>>)>,
    kc: ColumnDefV,
    kidx: int,
    sg: int,
    rps: int,
    nseg: int,
)
    requires
        forall|j: int|
            0 <= j < rows.len() ==> #[trigger] spec_parse_sort_key(rows[j].1[kidx], kc)
                == Ok::<ScalarV, Seq<char>>(rows[j].0),
        forall|j: int|
            0 <= j < rows.len() && seg_of(j, rps, nseg) == sg ==> (#[trigger] spec_write_cell(
                kc,
                trim_chars(rows[j].1[kidx]),
            ) is Ok),
    ensures
        crate::codec::column_values(
            kc.col_type,
            seg_col_bytes(rows, kc, kidx, sg, rps, nseg, 0),
        ) == seg_keys(rows, sg, rps, nseg, 0),
{
    lemma_segment_file_round_trip(rows, kc, kidx, sg, rps, nseg);
    lemma_seg_key_vals(rows, kc, kidx, sg, rps, nseg, 0);
}


/// Every key a segment lists from row `i` on is the key of some row at
/// or after `i` that the segment holds.
proof fn lemma_seg_keys_elem(
    rows: Seq<(ScalarV, Seq<Seq<char>>)>,
    sg: int,
    rps: int,
    nseg: int,
    i: int,
    k: int,
)
    requires
        0 <= i <= rows.len(),
        0 <= k < seg_keys(rows, sg, rps, nseg, i).len(),
    ensures
        exists|j: int|
            i <= j < rows.len() && #[trigger] seg_of(j, rps, nseg) == sg && seg_keys(
                rows,
                sg,
                rps,
                nseg,
                i,
            )[k] == Some(rows[j].0),
    decreases rows.len() - i,
{
    let ks = seg_keys(rows, sg, rps, nseg, i);
    let tail = seg_keys(rows, sg, rps, nseg, i + 1);
    if seg_of(i, rps, nseg) == sg {
        if k == 0 {
            assert(ks[0] == Some(rows[i].0));
            assert(i <= i < rows.len() && seg_of(i, rps, nseg) == sg && ks[0] == Some(
                rows[i].0,
            ));
        } else {
            lemma_seg_keys_elem(rows, sg, rps, nseg, i + 1, k - 1);
            let j = choose|j: int|
                i + 1 <= j < rows.len() && #[trigger] seg_of(j, rps, nseg) == sg && tail[k - 1]
                    == Some(rows[j].0);
            assert(ks[k] == tail[k - 1]);
            assert(i <= j < rows.len() && seg_of(j, rps, nseg) == sg && ks[k] == Some(
                rows[j].0,
            ));
        }
    } else {
        lemma_seg_keys_elem(rows, sg, rps, nseg, i + 1, k);
        let j = choose|j: int|
            i + 1 <= j < rows.len() && #[trigger] seg_of(j, rps, nseg) == sg && tail[k] == Some(
                rows[j].0,
            );
        assert(ks[k] == tail[k]);
        assert(i <= j < rows.len() && seg_of(j, rps, nseg) == sg && ks[k] == Some(rows[j].0));
    }
}

/// Keys never decrease along a segment's key column either: a segment
/// lists a subsequence of the sorted rows, in their order.
pub proof fn lemma_seg_keys_sorted(
    rows: Seq<(ScalarV, Seq<Seq<char>>)>,
    sg: int,
    rps: int,
    nseg: int,
    i: int,
)
    requires
        sorted_rows(rows),
        0 <= i <= rows.len(),
    ensures
        forall|k: int|
            0 <= k < seg_keys(rows, sg, rps, nseg, i).len() ==> (#[trigger] seg_keys(
                rows,
                sg,
                rps,
                nseg,
                i,
            )[k]) is Some,
        forall|a: int, b: int|
            0 <= a < b < seg_keys(rows, sg, rps, nseg, i).len() ==> ((
            #[trigger] seg_keys(rows, sg, rps, nseg, i)[a],
            #[trigger] seg_keys(rows, sg, rps, nseg, i)[b],
            ) matches (Some(x), Some(y)) && (spec_compare_scalar(x, y) matches Some(r) && r
                != Rel::Gt)),
    decreases rows.len() - i,
{
    let ks = seg_keys(rows, sg, rps, nseg, i);
    if i < rows.len() {
        lemma_seg_keys_sorted(rows, sg, rps, nseg, i + 1);
        let tail = seg_keys(rows, sg, rps, nseg, i + 1);
        assert forall|k: int| 0 <= k < ks.len() implies (#[trigger] ks[k]) is Some by {
            if seg_of(i, rps, nseg) == sg {
                if k > 0 {
                    assert(ks[k] == tail[k - 1]);
                }
            } else {
                assert(ks[k] == tail[k]);
            }
        }
        assert forall|a: int, b: int| 0 <= a < b < ks.len() implies ((
        #[trigger] ks[a],
        #[trigger] ks[b],
        ) matches (Some(x), Some(y)) && (spec_compare_scalar(x, y) matches Some(r) && r
            != Rel::Gt)) by {
            if seg_of(i, rps, nseg) == sg {
                if a == 0 {
                    assert(ks[0] == Some(rows[i].0));
                    assert(ks[b] == tail[b - 1]);
                    lemma_seg_keys_elem(rows, sg, rps, nseg, i + 1, b - 1);
                    let j = choose|j: int|
                        i + 1 <= j < rows.len() && #[trigger] seg_of(j, rps, nseg) == sg
                            && tail[b - 1] == Some(rows[j].0);
                    assert(spec_compare_scalar(rows[i].0, rows[j].0) matches Some(r) && r
                        != Rel::Gt);
                } else {
                    assert(ks[a] == tail[a - 1]);
                    assert(ks[b] == tail[b - 1]);
                }
            } else {
                assert(ks[a] == tail[a]);
                assert(ks[b] == tail[b]);
            }
        }
    }
}


/// A row index lands in a real segment.
proof fn lemma_seg_of_range(i: int, rps: int, nseg: int)
    requires
        0 <= i,
        rps >= 1,
        nseg >= 1,
    ensures
        0 <= seg_of(i, rps, nseg) < nseg,
{
    vstd::arithmetic::div_mod::lemma_fundamental_div_mod(i, rps);
}

/// The keys of all segments from `sg` on, over the rows from `i` on,
/// as one multiset.
pub open spec fn seg_keys_sum(
    rows: Seq<(ScalarV, Seq<Seq<char>>)>,
    rps: int,
    nseg: int,
    sg: int,
    i: int,
) -> Multiset<Option<ScalarV>>
    decreases nseg - sg,
{
    if sg < 0 || sg >= nseg {
        Multiset::empty()
    } else {
        seg_keys(rows, sg, rps, nseg, i).to_multiset().add(
            seg_keys_sum(rows, rps, nseg, sg + 1, i),
        )
    }
}

/// Row `i` contributes its key to exactly one segment of the tally.
proof fn lemma_sum_step(
    rows: Seq<(ScalarV, Seq<Seq<char>>)>,
    rps: int,
    nseg: int,
    sg: int,
    i: int,
)
    requires
        0 <= i < rows.len(),
        rps >= 1,
        nseg >= 1,
        0 <= sg <= nseg,
    ensures
        seg_keys_sum(rows, rps, nseg, sg, i) == (if sg <= seg_of(i, rps, nseg) {
            seg_keys_sum(rows, rps, nseg, sg, i + 1).insert(Some(rows[i].0))
        } else {
            seg_keys_sum(rows, rps, nseg, sg, i + 1)
        }),
    decreases nseg - sg,
{
    broadcast use vstd::seq_lib::group_to_multiset_ensures;

    lemma_seg_of_range(i, rps, nseg);
    if sg < nseg {
        lemma_sum_step(rows, rps, nseg, sg + 1, i);
        let x = Some(rows[i].0);
        let head: Seq<Option<ScalarV>> = if seg_of(i, rps, nseg) == sg {
            seq![x]
        } else {
            Seq::empty()
        };
        let tl = seg_keys(rows, sg, rps, nseg, i + 1);
        assert(seg_keys(rows, sg, rps, nseg, i) == head + tl);
        vstd::seq_lib::lemma_multiset_commutative(head, tl);
        let rest = seg_keys_sum(rows, rps, nseg, sg + 1, i + 1);
        if seg_of(i, rps, nseg) == sg {
            assert(head =~= Seq::<Option<ScalarV>>::empty().push(x));
            assert(head.to_multiset() =~= Multiset::<Option<ScalarV>>::empty().insert(x));
            assert(seg_keys_sum(rows, rps, nseg, sg + 1, i) == rest);
            assert(seg_keys_sum(rows, rps, nseg, sg, i) =~= (tl.to_multiset().add(
                rest,
            )).insert(x));
        } else if sg < seg_of(i, rps, nseg) {
            assert(head + tl =~= tl);
            assert(seg_keys_sum(rows, rps, nseg, sg + 1, i) == rest.insert(x));
            assert(seg_keys_sum(rows, rps, nseg, sg, i) =~= (tl.to_multiset().add(
                rest,
            )).insert(x));
        } else {
            assert(head + tl =~= tl);
            assert(seg_keys_sum(rows, rps, nseg, sg + 1, i) == rest);
        }
    }
}

/// The rows\' keys, in the shape a decoded key column holds them.
pub open spec fn key_cells(rows: Seq<(ScalarV, Seq<Seq<char>>)>) -> Seq<Option<ScalarV>> {
    rows.map_values(|r: (ScalarV, Seq<Seq<char>>)| Some(r.0))
}

proof fn lemma_sum_empty(
    rows: Seq<(ScalarV, Seq<Seq<char>>)>,
    rps: int,
    nseg: int,
    sg: int,
    i: int,
)
    requires
        i >= rows.len(),
    ensures
        seg_keys_sum(rows, rps, nseg, sg, i) == Multiset::<Option<ScalarV>>::empty(),
    decreases nseg - sg,
{
    broadcast use vstd::seq_lib::group_to_multiset_ensures;

    if 0 <= sg < nseg {
        lemma_sum_empty(rows, rps, nseg, sg + 1, i);
        assert(seg_keys(rows, sg, rps, nseg, i) =~= Seq::<Option<ScalarV>>::empty());
        assert(Seq::<Option<ScalarV>>::empty().to_multiset() =~= Multiset::<
            Option<ScalarV>,
        >::empty());
        assert(seg_keys_sum(rows, rps, nseg, sg, i) =~= Multiset::<Option<ScalarV>>::empty());
    }
}

proof fn lemma_keys_partition_from(
    rows: Seq<(ScalarV, Seq<Seq<char>>)>,
    rps: int,
    nseg: int,
    i: int,
)
    requires
        rps >= 1,
        nseg >= 1,
        0 <= i <= rows.len(),
    ensures
        seg_keys_sum(rows, rps, nseg, 0, i) == key_cells(rows.skip(i)).to_multiset(),
    decreases rows.len() - i,
{
    broadcast use vstd::seq_lib::group_to_multiset_ensures;

    if i < rows.len() {
        lemma_keys_partition_from(rows, rps, nseg, i + 1);
        lemma_seg_of_range(i, rps, nseg);
        lemma_sum_step(rows, rps, nseg, 0, i);
        let x = Some(rows[i].0);
        assert(key_cells(rows.skip(i)) =~= seq![x] + key_cells(rows.skip(i + 1)));
        vstd::seq_lib::lemma_multiset_commutative(seq![x], key_cells(rows.skip(i + 1)));
        assert(seq![x] =~= Seq::<Option<ScalarV>>::empty().push(x));
        assert(seq![x].to_multiset() =~= Multiset::<Option<ScalarV>>::empty().insert(x));
        assert(key_cells(rows.skip(i)).to_multiset() =~= key_cells(
            rows.skip(i + 1),
        ).to_multiset().insert(x));
    } else {
        lemma_sum_empty(rows, rps, nseg, 0, i);
        assert(key_cells(rows.skip(i)) =~= Seq::<Option<ScalarV>>::empty());
        assert(Seq::<Option<ScalarV>>::empty().to_multiset() =~= Multiset::<
            Option<ScalarV>,
        >::empty());
    }
}

/// Splitting the sorted rows into segments loses and duplicates no key:
/// the segments\' key cells together are exactly the rows\' keys.
pub proof fn lemma_segment_keys_partition(
    rows: Seq<(ScalarV, Seq<Seq<char>>)>,
    rps: int,
    nseg: int,
)
    requires
        rps >= 1,
        nseg >= 1,
    ensures
        seg_keys_sum(rows, rps, nseg, 0, 0) == key_cells(rows).to_multiset(),
{
    lemma_keys_partition_from(rows, rps, nseg, 0);
    assert(rows.skip(0) =~= rows);
}


/// Every keyed row carries the parse of its own key field.
proof fn lemma_keyed_rows_parse(data: Seq<Seq<Seq<char>>>, hlen: int, kidx: int, kc: ColumnDefV)
    requires
        spec_keyed_rows(data, hlen, kidx, kc) is Ok,
    ensures
        forall|j: int|
            0 <= j < spec_keyed_rows(data, hlen, kidx, kc)->Ok_0.len()
                ==> #[trigger] spec_parse_sort_key(
                spec_keyed_rows(data, hlen, kidx, kc)->Ok_0[j].1[kidx],
                kc,
            ) == Ok::<ScalarV, Seq<char>>(spec_keyed_rows(data, hlen, kidx, kc)->Ok_0[j].0),
    decreases data.len(),
{
    if data.len() > 0 {
        lemma_keyed_rows_parse(data.drop_first(), hlen, kidx, kc);
        let ks = spec_keyed_rows(data, hlen, kidx, kc)->Ok_0;
        let rest = spec_keyed_rows(data.drop_first(), hlen, kidx, kc)->Ok_0;
        assert(ks == seq![(spec_parse_sort_key(data[0][kidx], kc)->Ok_0, data[0])] + rest);
        assert forall|j: int| 0 <= j < ks.len() implies #[trigger] spec_parse_sort_key(
            ks[j].1[kidx],
            kc,
        ) == Ok::<ScalarV, Seq<char>>(ks[j].0) by {
            if j > 0 {
                assert(ks[j] == rest[j - 1]);
            }
        }
    }
}

/// A sorted row satisfies whatever each keyed row satisfied: sorting
/// only rearranges them.
proof fn lemma_sorted_rows_parse(keyed: Seq<(ScalarV, Seq<Seq<char>>)>, kc: ColumnDefV, kidx: int)
    requires
        forall|j: int|
            0 <= j < keyed.len() ==> #[trigger] spec_parse_sort_key(keyed[j].1[kidx], kc)
                == Ok::<ScalarV, Seq<char>>(keyed[j].0),
    ensures
        forall|j: int|
            0 <= j < spec_sort_rows(keyed).len() ==> #[trigger] spec_parse_sort_key(
                spec_sort_rows(keyed)[j].1[kidx],
                kc,
            ) == Ok::<ScalarV, Seq<char>>(spec_sort_rows(keyed)[j].0),
{
    broadcast use vstd::seq_lib::group_to_multiset_ensures;

    lemma_sort_multiset(keyed);
    let sorted = spec_sort_rows(keyed);
    assert forall|j: int| 0 <= j < sorted.len() implies #[trigger] spec_parse_sort_key(
        sorted[j].1[kidx],
        kc,
    ) == Ok::<ScalarV, Seq<char>>(sorted[j].0) by {
        let r = sorted[j];
        assert(sorted.contains(r));
        assert(sorted.to_multiset().count(r) > 0);
        assert(keyed.to_multiset().count(r) > 0);
        assert(keyed.contains(r));
        let j2 = choose|j2: int| 0 <= j2 < keyed.len() && keyed[j2] == r;
        assert(spec_parse_sort_key(keyed[j2].1[kidx], kc) == Ok::<ScalarV, Seq<char>>(
            keyed[j2].0,
        ));
    }
}

/// A row whose scan reports no error writes every cell without error.
proof fn lemma_row_err_none(schema: Seq<ColumnDefV>, idxs: Seq<int>, fields: Seq<Seq<char>>, c: int)
    requires
        0 <= c <= schema.len(),
        spec_row_err(schema, idxs, fields, c) is None,
    ensures
        forall|c2: int|
            c <= c2 < schema.len() ==> (#[trigger] spec_write_cell(
                schema[c2],
                trim_chars(fields[idxs[c2]]),
            ) is Ok),
    decreases schema.len() - c,
{
    if c < schema.len() {
        lemma_row_err_none(schema, idxs, fields, c + 1);
    }
}

/// Rows whose scan reports no error write every cell without error.
proof fn lemma_rows_err_none(
    schema: Seq<ColumnDefV>,
    idxs: Seq<int>,
    rows: Seq<(ScalarV, Seq<Seq<char>>)>,
    i: int,
)
    requires
        0 <= i <= rows.len(),
        spec_rows_err(schema, idxs, rows, i) is None,
    ensures
        forall|j: int, c: int|
            i <= j < rows.len() && 0 <= c < schema.len() ==> (#[trigger] spec_write_cell(
                schema[c],
                trim_chars(rows[j].1[idxs[c]]),
            ) is Ok),
    decreases rows.len() - i,
{
    if i < rows.len() {
        lemma_rows_err_none(schema, idxs, rows, i + 1);
        lemma_row_err_none(schema, idxs, rows[i].1, 0);
    }
}

/// End to end over a successful load: the key column file of every
/// segment decodes to exactly that segment\'s sort keys, and over all
/// segments those keys are exactly the sorted rows\' keys, each once.
pub proof fn lemma_load_keys_end_to_end(
    data: Seq<Seq<Seq<char>>>,
    hlen: int,
    schema: Seq<ColumnDefV>,
    idxs: Seq<int>,
    kc: ColumnDefV,
    c: int,
    kidx: int,
    rps: int,
    nseg: int,
)
    requires
        spec_keyed_rows(data, hlen, kidx, kc) is Ok,
        0 <= c < schema.len(),
        schema[c] == kc,
        idxs[c] == kidx,
        spec_rows_err(
            schema,
            idxs,
            spec_sort_rows(spec_keyed_rows(data, hlen, kidx, kc)->Ok_0),
            0,
        ) is None,
        rps >= 1,
        nseg >= 1,
    ensures
        forall|sg: int|
            0 <= sg < nseg ==> crate::codec::column_values(
                kc.col_type,
                seg_col_bytes(
                    spec_sort_rows(spec_keyed_rows(data, hlen, kidx, kc)->Ok_0),
                    kc,
                    kidx,
                    sg,
                    rps,
                    nseg,
                    0,
                ),
            ) == #[trigger] seg_keys(
                spec_sort_rows(spec_keyed_rows(data, hlen, kidx, kc)->Ok_0),
                sg,
                rps,
                nseg,
                0,
            ),
        seg_keys_sum(
            spec_sort_rows(spec_keyed_rows(data, hlen, kidx, kc)->Ok_0),
            rps,
            nseg,
            0,
            0,
        ) == key_cells(spec_sort_rows(spec_keyed_rows(data, hlen, kidx, kc)->Ok_0)).to_multiset(),
{
    let keyed = spec_keyed_rows(data, hlen, kidx, kc)->Ok_0;
    let sorted = spec_sort_rows(keyed);
    lemma_keyed_rows_parse(data, hlen, kidx, kc);
    lemma_sorted_rows_parse(keyed, kc, kidx);
    lemma_rows_err_none(schema, idxs, sorted, 0);
    assert forall|sg: int| 0 <= sg < nseg implies crate::codec::column_values(
        kc.col_type,
        seg_col_bytes(sorted, kc, kidx, sg, rps, nseg, 0),
    ) == #[trigger] seg_keys(sorted, sg, rps, nseg, 0) by {
        assert(forall|j: int|
            0 <= j < sorted.len() && seg_of(j, rps, nseg) == sg ==> (#[trigger] spec_write_cell(
                kc,
                trim_chars(sorted[j].1[kidx]),
            ) is Ok));
        lemma_segment_keys_round_trip(sorted, kc, kidx, sg, rps, nseg);
    }
    lemma_segment_keys_partition(sorted, rps, nseg);
}

} // verus!

//! The per-segment executor: open the needed columns, prune by zone
//! map, then scan row by row, filter, group and aggregate.
//!
//! The whole scan is specified by `spec_scan`, a fold of the decoded
//! column values; `execute_query` is proved to produce exactly that
//! fold, with the exact rules for skipped segments.
use vstd::prelude::*;

verus! {

use crate::codec::column_values;
use crate::minisql_eval::{
    apply_agg, compare_scalar, dup_opt, format_scalar, init_reader, read_value, row_matches,
    spec_apply_agg, spec_compare_scalar, spec_eval_filter, spec_format_scalar, spec_row_matches,
    inc64, row_lookup, same_variant, scalar_nan, spec_cmp_eq, ReaderState, Row,
};
use crate::fbits::Rel;
use crate::rpc::{
    AggregateExprV, AggregateState, FilterExpr, FilterV, GroupAggregate, GroupMap,
    PartialAggregate, QueryRequest, ScalarV, ScalarValue, assoc_map, assoc_unique, opt_view,
};
use crate::storage_schema::{spec_parse_schema_file, ColumnDef, ColumnDefV};
use crate::strutil::zero_pad;
use crate::textscan::str_chars;

/// Where a worker runs: its port, its table directory and its segment.
#[derive(Debug, Clone)]
pub struct WorkerContext {
    pub port: u16,
    pub table: String,
    pub segment: u32,
}

/// The directory of one segment under a table directory.
pub fn segment_path(table_dir: &str, segment: u32) -> (r: String)
    ensures
        r@ == table_dir@ + "/seg-"@ + zero_pad(segment as nat, 6),
{
    let mut v = str_chars(table_dir);
    let mut sep = str_chars("/seg-");
    v.append(&mut sep);
    crate::strutil::push_zero_pad(segment as u64, 6, &mut v);
    crate::strutil::chars_to_string(v)
}

/// The schema a text denotes for the executor: empty when it does not
/// parse.
pub open spec fn spec_schema_of(text: Seq<char>) -> Seq<ColumnDefV> {
    match spec_parse_schema_file(text) {
        Ok(s) => s,
        Err(_) => Seq::empty(),
    }
}

/// The first schema column of a name.
pub open spec fn spec_find_col(schema: Seq<ColumnDefV>, c: Seq<char>) -> Option<ColumnDefV>
    decreases schema.len(),
{
    if schema.len() == 0 {
        None
    } else if schema[0].name == c {
        Some(schema[0])
    } else {
        spec_find_col(schema.drop_first(), c)
    }
}

pub fn find_col<'a>(schema: &'a Vec<ColumnDef>, c: &str) -> (r: Option<&'a ColumnDef>)
    ensures
        match r {
            Some(d) => spec_find_col(schema@.map_values(|x: ColumnDef| x@), c@) == Some(d@),
            None => spec_find_col(schema@.map_values(|x: ColumnDef| x@), c@) == None::<
                ColumnDefV,
            >,
        },
{
    let ghost sv = schema@.map_values(|x: ColumnDef| x@);
    proof {
        assert(sv.skip(0) =~= sv);
    }
    let mut i: usize = 0;
    while i < schema.len()
        invariant
            i <= schema@.len(),
            sv == schema@.map_values(|x: ColumnDef| x@),
            spec_find_col(sv, c@) == spec_find_col(sv.skip(i as int), c@),
        decreases schema@.len() - i,
    {
        proof {
            assert(sv.skip(i as int)[0] == sv[i as int]);
            assert(sv.skip(i as int).drop_first() =~= sv.skip(i as int + 1));
        }
        if crate::strutil::eq_str(schema[i].name.as_str(), c) {
            return Some(&schema[i]);
        }
        i += 1;
    }
    proof {
        assert(sv.skip(schema@.len() as int) =~= Seq::<ColumnDefV>::empty());
    }
    None
}

/// Whether a name occurs in a list of names.
pub open spec fn contains_name(s: Seq<Seq<char>>, c: Seq<char>) -> bool {
    exists|i: int| 0 <= i < s.len() && s[i] == c
}

/// No name occurs twice.
pub open spec fn names_unique(s: Seq<Seq<char>>) -> bool {
    forall|i: int, j: int| 0 <= i < j < s.len() ==> s[i] != s[j]
}

fn vec_contains_name(v: &Vec<String>, c: &str) -> (r: bool)
    ensures
        r == contains_name(v@.map_values(|s: String| s@), c@),
{
    let ghost sv = v@.map_values(|s: String| s@);
    let mut i: usize = 0;
    while i < v.len()
        invariant
            i <= v@.len(),
            sv == v@.map_values(|s: String| s@),
            forall|j: int| 0 <= j < i ==> sv[j] != c@,
        decreases v@.len() - i,
    {
        if crate::strutil::eq_str(v[i].as_str(), c) {
            assert(sv[i as int] == c@);
            return true;
        }
        i += 1;
    }
    false
}

/// The column names a query needs, first occurrences first: group-by
/// columns, then aggregate inputs, then filter columns.
pub open spec fn spec_needed(
    gb: Seq<Seq<char>>,
    aggs: Seq<AggregateExprV>,
    fs: Seq<FilterV>,
) -> Seq<Seq<char>> {
    dedup_names(gb + agg_cols(aggs) + fs.map_values(|f: FilterV| f.column))
}

pub open spec fn agg_cols(aggs: Seq<AggregateExprV>) -> Seq<Seq<char>>
    decreases aggs.len(),
{
    if aggs.len() == 0 {
        Seq::empty()
    } else {
        match aggs[0].column {
            Some(c) => seq![c] + agg_cols(aggs.drop_first()),
            None => agg_cols(aggs.drop_first()),
        }
    }
}

pub open spec fn dedup_names(s: Seq<Seq<char>>) -> Seq<Seq<char>>
    decreases s.len(),
{
    dedup_from(Seq::empty(), s)
}

pub open spec fn dedup_from(acc: Seq<Seq<char>>, s: Seq<Seq<char>>) -> Seq<Seq<char>>
    decreases s.len(),
{
    if s.len() == 0 {
        acc
    } else if contains_name(acc, s[0]) {
        dedup_from(acc, s.drop_first())
    } else {
        dedup_from(acc.push(s[0]), s.drop_first())
    }
}

proof fn lemma_dedup_unique(acc: Seq<Seq<char>>, s: Seq<Seq<char>>)
    requires
        names_unique(acc),
    ensures
        names_unique(dedup_from(acc, s)),
    decreases s.len(),
{
    if s.len() > 0 {
        if contains_name(acc, s[0]) {
            lemma_dedup_unique(acc, s.drop_first());
        } else {
            assert forall|i: int, j: int|
                0 <= i < j < acc.push(s[0]).len() implies acc.push(s[0])[i] != acc.push(
                s[0],
            )[j] by {
                if j < acc.len() {
                } else {
                    assert(!(acc[i] == s[0]));
                }
            }
            lemma_dedup_unique(acc.push(s[0]), s.drop_first());
        }
    }
}

/// Processing the first name of a list is one step of the fold.
proof fn lemma_dedup_step(acc: Seq<Seq<char>>, s: Seq<Seq<char>>)
    requires
        s.len() > 0,
    ensures
        dedup_from(acc, s) == dedup_from(dedup_from(acc, seq![s[0]]), s.drop_first()),
{
    assert(seq![s[0]].drop_first() =~= Seq::<Seq<char>>::empty());
    assert(seq![s[0]][0] == s[0]);
    if contains_name(acc, s[0]) {
        assert(dedup_from(acc, seq![s[0]]) == dedup_from(acc, Seq::<Seq<char>>::empty()));
        assert(dedup_from(acc, Seq::<Seq<char>>::empty()) == acc);
    } else {
        assert(dedup_from(acc, seq![s[0]]) == dedup_from(
            acc.push(s[0]),
            Seq::<Seq<char>>::empty(),
        ));
        assert(dedup_from(acc.push(s[0]), Seq::<Seq<char>>::empty()) == acc.push(s[0]));
    }
}

/// The suffix form of the aggregate-input columns.
proof fn lemma_agg_cols_suffix(aggs: Seq<AggregateExprV>, k: int)
    requires
        0 <= k <= aggs.len(),
    ensures
        agg_cols_suffix(aggs, k) == agg_cols(aggs.skip(k)),
    decreases aggs.len() - k,
{
    if k < aggs.len() {
        lemma_agg_cols_suffix(aggs, k + 1);
        assert(aggs.skip(k).drop_first() =~= aggs.skip(k + 1));
        assert(aggs.skip(k)[0] == aggs[k]);
    } else {
        assert(aggs.skip(k) =~= Seq::<AggregateExprV>::empty());
    }
}

/// The needed columns of a query, in order, without repeats.
pub fn needed_columns(req: &QueryRequest) -> (r: Vec<String>)
    ensures
        r@.map_values(|s: String| s@) == spec_needed(
            req.group_by@.map_values(|s: String| s@),
            req.aggregates@.map_values(|a: crate::rpc::AggregateExpr| a@),
            req.filters@.map_values(|f: FilterExpr| f@),
        ),
        names_unique(r@.map_values(|s: String| s@)),
{
    let ghost gb = req.group_by@.map_values(|s: String| s@);
    let ghost aggs = req.aggregates@.map_values(|a: crate::rpc::AggregateExpr| a@);
    let ghost fs = req.filters@.map_values(|f: FilterExpr| f@);
    let ghost full = gb + agg_cols(aggs) + fs.map_values(|f: FilterV| f.column);
    let mut out: Vec<String> = Vec::new();
    let mut i: usize = 0;
    proof {
        assert(full.skip(0) =~= full);
        assert(out@.map_values(|s: String| s@) =~= Seq::<Seq<char>>::empty());
    }
    while i < req.group_by.len()
        invariant
            i <= req.group_by@.len(),
            gb == req.group_by@.map_values(|s: String| s@),
            aggs == req.aggregates@.map_values(|a: crate::rpc::AggregateExpr| a@),
            fs == req.filters@.map_values(|f: FilterExpr| f@),
            full == gb + agg_cols(aggs) + fs.map_values(|f: FilterV| f.column),
            dedup_names(full) == dedup_from(out@.map_values(|s: String| s@), full.skip(i as int)),
        decreases req.group_by@.len() - i,
    {
        proof {
            assert(full.skip(i as int)[0] == full[i as int]);
            assert(full[i as int] == gb[i as int]);
            assert(full.skip(i as int).drop_first() =~= full.skip(i as int + 1));
        }
        let ghost acc0 = out@.map_values(|s: String| s@);
        push_unless_present(&mut out, &req.group_by[i]);
        proof {
            lemma_dedup_step(acc0, full.skip(i as int));
        }
        i += 1;
    }
    let mut a: usize = 0;
    proof {
        lemma_agg_cols_suffix(aggs, 0);
        assert(aggs.skip(0) =~= aggs);
        assert(full.skip(req.group_by@.len() as int) =~= agg_cols(aggs) + fs.map_values(
            |f: FilterV| f.column,
        ));
    }
    while a < req.aggregates.len()
        invariant
            a <= req.aggregates@.len(),
            gb == req.group_by@.map_values(|s: String| s@),
            aggs == req.aggregates@.map_values(|a2: crate::rpc::AggregateExpr| a2@),
            fs == req.filters@.map_values(|f: FilterExpr| f@),
            full == gb + agg_cols(aggs) + fs.map_values(|f: FilterV| f.column),
            dedup_names(full) == dedup_from(
                out@.map_values(|s: String| s@),
                agg_cols_suffix(aggs, a as int) + fs.map_values(|f: FilterV| f.column),
            ),
        decreases req.aggregates@.len() - a,
    {
        proof {
            assert(aggs[a as int].column == (match req.aggregates@[a as int].column {
                Some(ref c) => Some(c@),
                None => None::<Seq<char>>,
            }));
            assert(agg_cols_suffix(aggs, a as int) == (match aggs[a as int].column {
                Some(c) => seq![c] + agg_cols_suffix(aggs, a as int + 1),
                None => agg_cols_suffix(aggs, a as int + 1),
            }));
        }
        match &req.aggregates[a].column {
            Some(c) => {
                proof {
                    assert((seq![c@] + agg_cols_suffix(aggs, a as int + 1) + fs.map_values(
                        |f: FilterV| f.column,
                    )).drop_first() =~= agg_cols_suffix(aggs, a as int + 1) + fs.map_values(
                        |f: FilterV| f.column,
                    ));
                    assert((seq![c@] + agg_cols_suffix(aggs, a as int + 1) + fs.map_values(
                        |f: FilterV| f.column,
                    ))[0] == c@);
                }
                let ghost acc0 = out@.map_values(|s: String| s@);
                push_unless_present(&mut out, c);
                proof {
                    lemma_dedup_step(
                        acc0,
                        agg_cols_suffix(aggs, a as int) + fs.map_values(|f: FilterV| f.column),
                    );
                }
            },
            None => {
            },
        }
        a += 1;
    }
    let mut fi: usize = 0;
    proof {
        assert(agg_cols_suffix(aggs, req.aggregates@.len() as int) =~= Seq::<Seq<char>>::empty());
        assert(Seq::<Seq<char>>::empty() + fs.map_values(|f: FilterV| f.column) =~= fs.map_values(
            |f: FilterV| f.column,
        ));
        assert(fs.map_values(|f: FilterV| f.column).skip(0) =~= fs.map_values(
            |f: FilterV| f.column,
        ));
    }
    while fi < req.filters.len()
        invariant
            fi <= req.filters@.len(),
            fs == req.filters@.map_values(|f: FilterExpr| f@),
            full == gb + agg_cols(aggs) + fs.map_values(|f: FilterV| f.column),
            dedup_names(full) == dedup_from(
                out@.map_values(|s: String| s@),
                fs.map_values(|f: FilterV| f.column).skip(fi as int),
            ),
        decreases req.filters@.len() - fi,
    {
        proof {
            assert(fs.map_values(|f: FilterV| f.column).skip(fi as int)[0] == fs.map_values(
                |f: FilterV| f.column,
            )[fi as int]);
            assert(fs.map_values(|f: FilterV| f.column).skip(fi as int).drop_first()
                =~= fs.map_values(|f: FilterV| f.column).skip(fi as int + 1));
        }
        let ghost acc0 = out@.map_values(|s: String| s@);
        push_unless_present(&mut out, &req.filters[fi].column);
        proof {
            lemma_dedup_step(acc0, fs.map_values(|f: FilterV| f.column).skip(fi as int));
        }
        fi += 1;
    }
    proof {
        assert(fs.map_values(|f: FilterV| f.column).skip(req.filters@.len() as int) =~= Seq::<
            Seq<char>,
        >::empty());
        assert(names_unique(Seq::<Seq<char>>::empty()));
        lemma_dedup_unique(Seq::<Seq<char>>::empty(), full);
    }
    out
}

/// The aggregate input columns from an index on.
pub open spec fn agg_cols_suffix(aggs: Seq<AggregateExprV>, a: int) -> Seq<Seq<char>>
    decreases aggs.len() - a,
{
    if a < 0 || a >= aggs.len() {
        Seq::empty()
    } else {
        match aggs[a].column {
            Some(c) => seq![c] + agg_cols_suffix(aggs, a + 1),
            None => agg_cols_suffix(aggs, a + 1),
        }
    }
}

fn push_unless_present(out: &mut Vec<String>, c: &String)
    ensures
        final(out)@.map_values(|s: String| s@) == dedup_from(
            old(out)@.map_values(|s: String| s@),
            seq![c@],
        ),
{
    let ghost pre = old(out)@.map_values(|s: String| s@);
    proof {
        assert(seq![c@].drop_first() =~= Seq::<Seq<char>>::empty());
        assert(seq![c@][0] == c@);
        assert(dedup_from(pre, Seq::<Seq<char>>::empty()) == pre);
        assert(dedup_from(pre.push(c@), Seq::<Seq<char>>::empty()) == pre.push(c@));
    }
    if !vec_contains_name(out, c.as_str()) {
        out.push(c.clone());
        proof {
            assert(out@.map_values(|s: String| s@) =~= pre.push(c@));
        }
    }
}

/// One needed column as the scan sees it: its name and its decoded
/// values.
pub open spec fn spec_file_lookup(
    files: Seq<(Seq<char>, Option<Seq<u8>>)>,
    c: Seq<char>,
) -> Option<Option<Seq<u8>>>
    decreases files.len(),
{
    if files.len() == 0 {
        None
    } else if files[0].0 == c {
        Some(files[0].1)
    } else {
        spec_file_lookup(files.drop_first(), c)
    }
}

/// The views of the handed-in column files.
pub open spec fn file_views(files: Seq<(String, Option<Vec<u8>>)>) -> Seq<
    (Seq<char>, Option<Seq<u8>>),
> {
    files.map_values(
        |e: (String, Option<Vec<u8>>)| (
            e.0@,
            match e.1 {
                Some(b) => Some(b@),
                None => None,
            },
        ),
    )
}

/// The columns the scan runs over: each needed name that the schema
/// knows, with the values its file decodes to; None when such a file is
/// missing.
pub open spec fn spec_open_cols(
    schema: Seq<ColumnDefV>,
    files: Seq<(Seq<char>, Option<Seq<u8>>)>,
    needed: Seq<Seq<char>>,
) -> Option<Seq<(Seq<char>, Seq<Option<ScalarV>>)>>
    decreases needed.len(),
{
    if needed.len() == 0 {
        Some(Seq::empty())
    } else {
        match spec_find_col(schema, needed[0]) {
            None => spec_open_cols(schema, files, needed.drop_first()),
            Some(d) => match spec_file_lookup(files, needed[0]) {
                Some(Some(bytes)) => match spec_open_cols(schema, files, needed.drop_first()) {
                    Some(cols) => Some(
                        seq![(needed[0], column_values(d.col_type, bytes))] + cols,
                    ),
                    None => None,
                },
                _ => None,
            },
        }
    }
}

/// The shortest column length: the number of complete rows.
pub open spec fn min_len(cols: Seq<(Seq<char>, Seq<Option<ScalarV>>)>) -> nat
    decreases cols.len(),
{
    if cols.len() == 0 {
        0
    } else if cols.len() == 1 {
        cols[0].1.len()
    } else {
        let m = min_len(cols.drop_first());
        if cols[0].1.len() < m {
            cols[0].1.len()
        } else {
            m
        }
    }
}

pub proof fn lemma_min_len(cols: Seq<(Seq<char>, Seq<Option<ScalarV>>)>)
    requires
        cols.len() > 0,
    ensures
        forall|j: int| 0 <= j < cols.len() ==> min_len(cols) <= #[trigger] cols[j].1.len(),
        exists|j: int| 0 <= j < cols.len() && min_len(cols) == #[trigger] cols[j].1.len(),
    decreases cols.len(),
{
    if cols.len() == 1 {
        assert(min_len(cols) == cols[0].1.len());
    } else {
        lemma_min_len(cols.drop_first());
        assert forall|j: int| 0 <= j < cols.len() implies min_len(cols) <= #[trigger] cols[j].1.len() by {
            if j > 0 {
                assert(cols.drop_first()[j - 1] == cols[j]);
            }
        }
        if min_len(cols) == cols[0].1.len() {
            assert(exists|j: int|
                0 <= j < cols.len() && min_len(cols) == #[trigger] cols[j].1.len());
        } else {
            let j = choose|j: int|
                0 <= j < cols.drop_first().len() && min_len(cols.drop_first())
                    == #[trigger] cols.drop_first()[j].1.len();
            assert(cols[j + 1].1.len() == min_len(cols));
        }
    }
}

/// The row at an index: each column's value there.
pub open spec fn spec_row_at(
    cols: Seq<(Seq<char>, Seq<Option<ScalarV>>)>,
    i: int,
) -> Map<Seq<char>, Option<ScalarV>> {
    assoc_map(cols.map_values(|c: (Seq<char>, Seq<Option<ScalarV>>)| (c.0, c.1[i])))
}

/// The group key of a row: `all` without grouping, else the formatted
/// group values joined with `|`.
pub open spec fn spec_group_key(gb: Seq<Seq<char>>, row: Map<Seq<char>, Option<ScalarV>>) -> Seq<
    char,
> {
    if gb.len() == 0 {
        "all"@
    } else {
        spec_format_scalar(row_lookup(row, gb[0])) + key_tail_from(gb, row, 1)
    }
}

/// One row folded into the accumulators of one group.
pub open spec fn spec_agg_fold(
    m: Map<Seq<char>, AggregateState>,
    aggs: Seq<AggregateExprV>,
    row: Map<Seq<char>, Option<ScalarV>>,
) -> Map<Seq<char>, AggregateState>
    decreases aggs.len(),
{
    if aggs.len() == 0 {
        m
    } else {
        let e = aggs[0];
        let st = if m.contains_key(e.output_name) {
            m[e.output_name]
        } else {
            AggregateState::init()
        };
        spec_agg_fold(m.insert(e.output_name, spec_apply_agg(st, e, row)), aggs.drop_first(), row)
    }
}

/// One passing row folded into the group map; without aggregates an
/// implicit `COUNT(*)` is kept.
pub open spec fn spec_apply_row(
    gm: Map<Seq<char>, Map<Seq<char>, AggregateState>>,
    aggs: Seq<AggregateExprV>,
    gb: Seq<Seq<char>>,
    row: Map<Seq<char>, Option<ScalarV>>,
) -> Map<Seq<char>, Map<Seq<char>, AggregateState>> {
    let k = spec_group_key(gb, row);
    let am = if gm.contains_key(k) {
        gm[k]
    } else {
        Map::empty()
    };
    let am2 = if aggs.len() == 0 {
        let st = if am.contains_key("COUNT(*)"@) {
            am["COUNT(*)"@]
        } else {
            AggregateState::init()
        };
        am.insert("COUNT(*)"@, AggregateState { count: inc64(st.count), ..st })
    } else {
        spec_agg_fold(am, aggs, row)
    };
    gm.insert(k, am2)
}

/// The group map after the first `i` rows.
pub open spec fn spec_scan(
    cols: Seq<(Seq<char>, Seq<Option<ScalarV>>)>,
    fs: Seq<FilterV>,
    aggs: Seq<AggregateExprV>,
    gb: Seq<Seq<char>>,
    i: nat,
) -> Map<Seq<char>, Map<Seq<char>, AggregateState>>
    decreases i,
{
    if i == 0 {
        Map::empty()
    } else {
        let prev = spec_scan(cols, fs, aggs, gb, (i - 1) as nat);
        let row = spec_row_at(cols, i - 1);
        if spec_row_matches(fs, row) {
            spec_apply_row(prev, aggs, gb, row)
        } else {
            prev
        }
    }
}

/// The number of rows that pass the filters among the first `i`.
pub open spec fn spec_passing(
    cols: Seq<(Seq<char>, Seq<Option<ScalarV>>)>,
    fs: Seq<FilterV>,
    i: nat,
) -> nat
    decreases i,
{
    if i == 0 {
        0
    } else {
        spec_passing(cols, fs, (i - 1) as nat) + (if spec_row_matches(fs, spec_row_at(cols, i - 1)) {
            1nat
        } else {
            0nat
        })
    }
}

/// Minimum and maximum of a column's present values under the zone-map
/// ordering, in scan order.
pub open spec fn spec_mm_from(
    vals: Seq<Option<ScalarV>>,
    i: int,
    mn: Option<ScalarV>,
    mx: Option<ScalarV>,
) -> (Option<ScalarV>, Option<ScalarV>)
    decreases vals.len() - i,
{
    if i < 0 || i >= vals.len() {
        (mn, mx)
    } else {
        match vals[i] {
            None => spec_mm_from(vals, i + 1, mn, mx),
            Some(v) => spec_mm_from(vals, i + 1, mm_min(mn, v), mm_max(mx, v)),
        }
    }
}

pub open spec fn mm_min(mn: Option<ScalarV>, v: ScalarV) -> Option<ScalarV> {
    match mn {
        None => Some(v),
        Some(cur) => Some(
            if spec_compare_scalar(v, cur) == Some(Rel::Lt) {
                v
            } else {
                cur
            },
        ),
    }
}

pub open spec fn mm_max(mx: Option<ScalarV>, v: ScalarV) -> Option<ScalarV> {
    match mx {
        None => Some(v),
        Some(cur) => Some(
            if spec_compare_scalar(v, cur) == Some(Rel::Gt) {
                v
            } else {
                cur
            },
        ),
    }
}

/// The zone-map statistics for the filter columns, built in filter
/// order, one entry per distinct column; None when a filter column is
/// missing from the schema or its file is absent, in which case no
/// pruning happens.
pub open spec fn spec_stats(
    schema: Seq<ColumnDefV>,
    files: Seq<(Seq<char>, Option<Seq<u8>>)>,
    fs: Seq<FilterV>,
    acc: Map<Seq<char>, (Option<ScalarV>, Option<ScalarV>)>,
) -> Option<Map<Seq<char>, (Option<ScalarV>, Option<ScalarV>)>>
    decreases fs.len(),
{
    if fs.len() == 0 {
        Some(acc)
    } else if acc.contains_key(fs[0].column) {
        spec_stats(schema, files, fs.drop_first(), acc)
    } else {
        match spec_find_col(schema, fs[0].column) {
            None => None,
            Some(d) => match spec_file_lookup(files, fs[0].column) {
                Some(Some(bytes)) => spec_stats(
                    schema,
                    files,
                    fs.drop_first(),
                    acc.insert(
                        fs[0].column,
                        spec_mm_from(column_values(d.col_type, bytes), 0, None, None),
                    ),
                ),
                _ => None,
            },
        }
    }
}

/// Whether one filter's statistics rule the whole segment out.
pub open spec fn spec_skip_one(
    f: FilterV,
    stats: Map<Seq<char>, (Option<ScalarV>, Option<ScalarV>)>,
) -> bool {
    if !stats.contains_key(f.column) {
        false
    } else {
        let mn = stats[f.column].0;
        let mx = stats[f.column].1;
        match f.pred {
            crate::rpc::Predicate::Eq => (mn matches Some(mnv) && mx matches Some(mxv) && (
            spec_compare_scalar(f.value, mnv) == Some(Rel::Lt) || spec_compare_scalar(f.value, mxv)
                == Some(Rel::Gt))),
            crate::rpc::Predicate::Lt => (mn matches Some(mnv) && (spec_compare_scalar(mnv, f.value)
                matches Some(r) && r != Rel::Lt)),
            crate::rpc::Predicate::Le => (mn matches Some(mnv) && spec_compare_scalar(mnv, f.value)
                == Some(Rel::Gt)),
            crate::rpc::Predicate::Gt => (mx matches Some(mxv) && (spec_compare_scalar(mxv, f.value)
                matches Some(r) && r != Rel::Gt)),
            crate::rpc::Predicate::Ge => (mx matches Some(mxv) && spec_compare_scalar(mxv, f.value)
                == Some(Rel::Lt)),
            crate::rpc::Predicate::Between => (f.value_hi matches Some(hi) && mn matches Some(mnv)
                && mx matches Some(mxv) && (spec_compare_scalar(mxv, f.value) == Some(Rel::Lt)
                || spec_compare_scalar(mnv, hi) == Some(Rel::Gt))),
        }
    }
}

/// Whether any filter rules the segment out.
pub open spec fn spec_should_skip(
    fs: Seq<FilterV>,
    stats: Map<Seq<char>, (Option<ScalarV>, Option<ScalarV>)>,
) -> bool
    decreases fs.len(),
{
    if fs.len() == 0 {
        false
    } else {
        spec_skip_one(fs[0], stats) || spec_should_skip(fs.drop_first(), stats)
    }
}

/// Compute the per-filter-column (min, max) statistics from the column
/// files, one scan per distinct filter column.
pub fn compute_min_max(
    schema: &Vec<ColumnDef>,
    files: &Vec<(String, Option<Vec<u8>>)>,
    filters: &Vec<FilterExpr>,
) -> (r: Option<Vec<(String, (Option<ScalarValue>, Option<ScalarValue>))>>)
    ensures
        ({
            let sv = schema@.map_values(|x: ColumnDef| x@);
            let fv = file_views(files@);
            let fsv = filters@.map_values(|f: FilterExpr| f@);
            match r {
                Some(stats) => assoc_unique(stats_views(stats@)) && spec_stats(
                    sv,
                    fv,
                    fsv,
                    Map::empty(),
                ) == Some(assoc_map(stats_views(stats@))),
                None => spec_stats(sv, fv, fsv, Map::empty()) == None::<
                    Map<Seq<char>, (Option<ScalarV>, Option<ScalarV>)>,
                >,
            }
        }),
{
    let ghost sv = schema@.map_values(|x: ColumnDef| x@);
    let ghost fv = file_views(files@);
    let ghost fsv = filters@.map_values(|f: FilterExpr| f@);
    let mut stats: Vec<(String, (Option<ScalarValue>, Option<ScalarValue>))> = Vec::new();
    let mut i: usize = 0;
    proof {
        assert(stats_views(stats@) =~= Seq::empty());
        assert(fsv.skip(0) =~= fsv);
    }
    while i < filters.len()
        invariant
            i <= filters@.len(),
            sv == schema@.map_values(|x: ColumnDef| x@),
            fv == file_views(files@),
            fsv == filters@.map_values(|f: FilterExpr| f@),
            assoc_unique(stats_views(stats@)),
            spec_stats(sv, fv, fsv, Map::empty()) == spec_stats(
                sv,
                fv,
                fsv.skip(i as int),
                assoc_map(stats_views(stats@)),
            ),
        decreases filters@.len() - i,
    {
        proof {
            assert(fsv.skip(i as int)[0] == fsv[i as int]);
            assert(fsv.skip(i as int).drop_first() =~= fsv.skip(i as int + 1));
        }
        let col = &filters[i].column;
        if stats_contains(&stats, col.as_str()) {
            i += 1;
            continue;
        }
        proof {
            crate::rpc::lemma_assoc_map_absent(stats_views(stats@), col@);
        }
        match find_col(schema, col.as_str()) {
            None => {
                return None;
            },
            Some(def) => {
                match files_find(files, col.as_str()) {
                    Some(bytes) => {
                        let data = crate::codec::bytes_range(bytes, 0, bytes.len());
                        proof {
                            assert(data@ =~= bytes@);
                        }
                        let mm = scan_min_max(data, def);
                        let ghost pre = stats_views(stats@);
                        stats.push((col.clone(), mm));
                        proof {
                            assert(stats_views(stats@) =~= pre.push(
                                (col@, (opt_view(mm.0), opt_view(mm.1))),
                            ));
                            assert(stats_views(stats@).drop_last() =~= pre);
                        }
                    },
                    None => {
                        return None;
                    },
                }
            },
        }
        i += 1;
    }
    proof {
        assert(fsv.skip(filters@.len() as int) =~= Seq::<FilterV>::empty());
    }
    Some(stats)
}

/// The views of computed statistics.
pub open spec fn stats_views(
    s: Seq<(String, (Option<ScalarValue>, Option<ScalarValue>))>,
) -> Seq<(Seq<char>, (Option<ScalarV>, Option<ScalarV>))> {
    s.map_values(
        |e: (String, (Option<ScalarValue>, Option<ScalarValue>))| (
            e.0@,
            (opt_view(e.1.0), opt_view(e.1.1)),
        ),
    )
}

fn stats_contains(
    stats: &Vec<(String, (Option<ScalarValue>, Option<ScalarValue>))>,
    c: &str,
) -> (r: bool)
    requires
        assoc_unique(stats_views(stats@)),
    ensures
        r == assoc_map(stats_views(stats@)).contains_key(c@),
        r ==> (exists|j: int| 0 <= j < stats@.len() && stats_views(stats@)[j].0 == c@),
        !r ==> (forall|j: int| 0 <= j < stats@.len() ==> stats_views(stats@)[j].0 != c@),
{
    let mut i: usize = 0;
    while i < stats.len()
        invariant
            i <= stats@.len(),
            assoc_unique(stats_views(stats@)),
            forall|j: int| 0 <= j < i ==> stats_views(stats@)[j].0 != c@,
        decreases stats@.len() - i,
    {
        if crate::strutil::eq_str(stats[i].0.as_str(), c) {
            proof {
                assert(stats_views(stats@)[i as int].0 == c@);
                crate::rpc::lemma_assoc_map_index(stats_views(stats@), i as int);
            }
            return true;
        }
        i += 1;
    }
    proof {
        crate::rpc::lemma_assoc_map_absent(stats_views(stats@), c@);
    }
    false
}

fn files_find<'a>(files: &'a Vec<(String, Option<Vec<u8>>)>, c: &str) -> (r: Option<&'a Vec<u8>>)
    ensures
        match r {
            Some(b) => spec_file_lookup(file_views(files@), c@) == Some(Some(b@)),
            None => !(spec_file_lookup(file_views(files@), c@) matches Some(Some(_))),
        },
{
    let ghost fv = file_views(files@);
    proof {
        assert(fv.skip(0) =~= fv);
    }
    let mut i: usize = 0;
    while i < files.len()
        invariant
            i <= files@.len(),
            fv == file_views(files@),
            spec_file_lookup(fv, c@) == spec_file_lookup(fv.skip(i as int), c@),
        decreases files@.len() - i,
    {
        proof {
            assert(fv.skip(i as int)[0] == fv[i as int]);
            assert(fv.skip(i as int).drop_first() =~= fv.skip(i as int + 1));
        }
        if crate::strutil::eq_str(files[i].0.as_str(), c) {
            match &files[i].1 {
                Some(b) => {
                    return Some(b);
                },
                None => {
                    return None;
                },
            }
        }
        i += 1;
    }
    proof {
        assert(fv.skip(files@.len() as int) =~= Seq::<(Seq<char>, Option<Seq<u8>>)>::empty());
    }
    None
}

/// One full pass over a column, folding (min, max) over the present
/// values.
fn scan_min_max(data: Vec<u8>, def: &ColumnDef) -> (r: (
    Option<ScalarValue>,
    Option<ScalarValue>,
))
    ensures
        (opt_view(r.0), opt_view(r.1)) == spec_mm_from(
            column_values(def@.col_type, data@),
            0,
            None,
            None,
        ),
{
    let ghost vals = column_values(def@.col_type, data@);
    let mut reader = init_reader(data);
    let mut mn: Option<ScalarValue> = None;
    let mut mx: Option<ScalarValue> = None;
    let ghost mut i: int = 0;
    proof {
        assert(reader.vals(def@.col_type) == vals);
        assert(vals.skip(0) =~= vals);
    }
    loop
        invariant
            vals == column_values(def@.col_type, data@),
            reader.pos <= reader.data@.len(),
            0 <= i <= vals.len(),
            reader.vals(def@.col_type) == vals.skip(i),
            spec_mm_from(vals, 0, None, None) == spec_mm_from(vals, i, opt_view(mn), opt_view(mx)),
        decreases vals.len() - i,
    {
        proof {
            if i < vals.len() {
                assert(vals.skip(i)[0] == vals[i]);
                assert(vals.skip(i).drop_first() =~= vals.skip(i + 1));
            }
        }
        match read_value(&mut reader, def) {
            Ok(v) => {
                match v {
                    Some(val) => {
                        let new_mn: Option<ScalarValue> = match &mn {
                            None => Some(val.dup()),
                            Some(cur) => {
                                if matches!(compare_scalar(&val, cur), Some(Rel::Lt)) {
                                    Some(val.dup())
                                } else {
                                    Some(cur.dup())
                                }
                            },
                        };
                        let new_mx: Option<ScalarValue> = match &mx {
                            None => Some(val.dup()),
                            Some(cur) => {
                                if matches!(compare_scalar(&val, cur), Some(Rel::Gt)) {
                                    Some(val.dup())
                                } else {
                                    Some(cur.dup())
                                }
                            },
                        };
                        mn = new_mn;
                        mx = new_mx;
                    },
                    None => {
                    },
                }
                proof {
                    i = i + 1;
                }
            },
            Err(_) => {
                proof {
                    assert(vals.skip(i).len() == 0);
                    assert(i == vals.len());
                    assert(spec_mm_from(vals, i, opt_view(mn), opt_view(mx)) == (
                        opt_view(mn),
                        opt_view(mx),
                    ));
                    assert((opt_view(mn), opt_view(mx)) == spec_mm_from(vals, 0, None, None));
                }
                return (mn, mx);
            },
        }
    }
}

/// Decide pruning from the computed statistics, filter by filter.
pub fn should_skip(
    filters: &Vec<FilterExpr>,
    stats: &Vec<(String, (Option<ScalarValue>, Option<ScalarValue>))>,
) -> (r: bool)
    requires
        assoc_unique(stats_views(stats@)),
    ensures
        r == spec_should_skip(
            filters@.map_values(|f: FilterExpr| f@),
            assoc_map(stats_views(stats@)),
        ),
{
    let ghost fsv = filters@.map_values(|f: FilterExpr| f@);
    let ghost sm = assoc_map(stats_views(stats@));
    let mut i: usize = 0;
    proof {
        assert(fsv.skip(0) =~= fsv);
    }
    while i < filters.len()
        invariant
            i <= filters@.len(),
            fsv == filters@.map_values(|f: FilterExpr| f@),
            sm == assoc_map(stats_views(stats@)),
            assoc_unique(stats_views(stats@)),
            spec_should_skip(fsv, sm) == spec_should_skip(fsv.skip(i as int), sm),
        decreases filters@.len() - i,
    {
        proof {
            assert(fsv.skip(i as int)[0] == fsv[i as int]);
            assert(fsv.skip(i as int).drop_first() =~= fsv.skip(i as int + 1));
        }
        let f = &filters[i];
        let entry = stats_get(stats, f.column.as_str());
        match entry {
            None => {
            },
            Some(idx) => {
                let mn = &stats[idx].1.0;
                let mx = &stats[idx].1.1;
                let hit: bool = match f.pred {
                    crate::rpc::Predicate::Eq => {
                        match (mn, mx) {
                            (Some(mnv), Some(mxv)) => {
                                matches!(compare_scalar(&f.value, mnv), Some(Rel::Lt)) || matches!(
                                    compare_scalar(&f.value, mxv),
                                    Some(Rel::Gt),
                                )
                            },
                            _ => false,
                        }
                    },
                    crate::rpc::Predicate::Lt => {
                        match mn {
                            Some(mnv) => matches!(
                                compare_scalar(mnv, &f.value),
                                Some(Rel::Gt) | Some(Rel::Eq),
                            ),
                            None => false,
                        }
                    },
                    crate::rpc::Predicate::Le => {
                        match mn {
                            Some(mnv) => matches!(compare_scalar(mnv, &f.value), Some(Rel::Gt)),
                            None => false,
                        }
                    },
                    crate::rpc::Predicate::Gt => {
                        match mx {
                            Some(mxv) => matches!(
                                compare_scalar(mxv, &f.value),
                                Some(Rel::Lt) | Some(Rel::Eq),
                            ),
                            None => false,
                        }
                    },
                    crate::rpc::Predicate::Ge => {
                        match mx {
                            Some(mxv) => matches!(compare_scalar(mxv, &f.value), Some(Rel::Lt)),
                            None => false,
                        }
                    },
                    crate::rpc::Predicate::Between => {
                        match (&f.value_hi, mn, mx) {
                            (Some(hi), Some(mnv), Some(mxv)) => {
                                matches!(compare_scalar(mxv, &f.value), Some(Rel::Lt)) || matches!(
                                    compare_scalar(mnv, hi),
                                    Some(Rel::Gt),
                                )
                            },
                            _ => false,
                        }
                    },
                };
                if hit {
                    return true;
                }
            },
        }
        i += 1;
    }
    proof {
        assert(fsv.skip(filters@.len() as int) =~= Seq::<FilterV>::empty());
    }
    false
}

fn stats_get(
    stats: &Vec<(String, (Option<ScalarValue>, Option<ScalarValue>))>,
    c: &str,
) -> (r: Option<usize>)
    requires
        assoc_unique(stats_views(stats@)),
    ensures
        match r {
            Some(i) => i < stats@.len() && stats_views(stats@)[i as int].0 == c@ && assoc_map(
                stats_views(stats@),
            ).contains_key(c@) && assoc_map(stats_views(stats@))[c@] == stats_views(
                stats@,
            )[i as int].1,
            None => !assoc_map(stats_views(stats@)).contains_key(c@),
        },
{
    let mut i: usize = 0;
    while i < stats.len()
        invariant
            i <= stats@.len(),
            assoc_unique(stats_views(stats@)),
            forall|j: int| 0 <= j < i ==> stats_views(stats@)[j].0 != c@,
        decreases stats@.len() - i,
    {
        if crate::strutil::eq_str(stats[i].0.as_str(), c) {
            proof {
                crate::rpc::lemma_assoc_map_index(stats_views(stats@), i as int);
            }
            return Some(i);
        }
        i += 1;
    }
    proof {
        crate::rpc::lemma_assoc_map_absent(stats_views(stats@), c@);
    }
    None
}


/// Saturating view of a row count.
pub open spec fn sat64(n: nat) -> u64 {
    if n > u64::MAX {
        u64::MAX
    } else {
        n as u64
    }
}

/// A skipped segment's contribution: nothing scanned, one segment
/// counted as skipped, no groups.
pub open spec fn spec_skipped(r: PartialAggregate) -> bool {
    r.rows_scanned == 0 && r.segments_skipped == 1 && r.groups@ == Map::<
        Seq<char>,
        Map<Seq<char>, AggregateState>,
    >::empty()
}

/// The group-key tail from an index on: a separator and a formatted
/// value per remaining group column.
pub open spec fn key_tail_from(
    gb: Seq<Seq<char>>,
    row: Map<Seq<char>, Option<ScalarV>>,
    k: int,
) -> Seq<char>
    decreases gb.len() - k,
{
    if k < 0 || k >= gb.len() {
        Seq::empty()
    } else {
        seq!['|'] + spec_format_scalar(row_lookup(row, gb[k])) + key_tail_from(gb, row, k + 1)
    }
}

/// The columns the scan actually holds: name and decoded values of each
/// opened reader.
pub open spec fn built_views(defs: Seq<ColumnDef>, states: Seq<ReaderState>) -> Seq<
    (Seq<char>, Seq<Option<ScalarV>>),
> {
    Seq::new(defs.len(), |i: int| (defs[i].name@, column_values(defs[i]@.col_type, states[i].data@)))
}

/// Prepend already-opened columns to the rest, absorbing failure.
pub open spec fn opt_prepend(
    a: Seq<(Seq<char>, Seq<Option<ScalarV>>)>,
    o: Option<Seq<(Seq<char>, Seq<Option<ScalarV>>)>>,
) -> Option<Seq<(Seq<char>, Seq<Option<ScalarV>>)>> {
    match o {
        Some(c) => Some(a + c),
        None => None,
    }
}

#[verifier::loop_isolation(false)]
fn dup_group(g: &GroupAggregate) -> (r: GroupAggregate)
    requires
        g.wf(),
    ensures
        r.wf(),
        r@ == g@,
        r.entry_views() == g.entry_views(),
{
    let mut entries: Vec<(String, AggregateState)> = Vec::new();
    let mut i: usize = 0;
    while i < g.entries.len()
        invariant
            i <= g.entries@.len(),
            entries@.map_values(|e: (String, AggregateState)| (e.0@, e.1)) == g.entry_views().take(
                i as int,
            ),
        decreases g.entries@.len() - i,
    {
        proof {
            assert(g.entry_views()[i as int] == (g.entries@[i as int].0@, g.entries@[i as int].1));
        }
        entries.push((g.entries[i].0.clone(), g.entries[i].1));
        i += 1;
        proof {
            assert(entries@.map_values(|e: (String, AggregateState)| (e.0@, e.1))
                =~= g.entry_views().take(i as int));
        }
    }
    let r = GroupAggregate { entries };
    proof {
        assert(g.entry_views().take(g.entries@.len() as int) =~= g.entry_views());
    }
    r
}

/// Fold one passing row into its group.
#[verifier::loop_isolation(false)]
fn apply_row(gm: &mut GroupMap, req: &QueryRequest, row: &Row)
    requires
        old(gm).wf(),
        row.wf(),
    ensures
        final(gm).wf(),
        final(gm)@ == spec_apply_row(
            old(gm)@,
            req.aggregates@.map_values(|a: crate::rpc::AggregateExpr| a@),
            req.group_by@.map_values(|s: String| s@),
            row@,
        ),
{
    let ghost gb = req.group_by@.map_values(|s: String| s@);
    let ghost aggsv = req.aggregates@.map_values(|a: crate::rpc::AggregateExpr| a@);
    let ghost row_map = row@;
    let gkey: String = if req.group_by.len() == 0 {
        crate::strutil::chars_to_string(str_chars("all"))
    } else {
        let mut kv: Vec<char> = Vec::new();
        let first_val: Option<ScalarValue> = match row.get(req.group_by[0].as_str()) {
            Some(v) => dup_opt(v),
            None => None,
        };
        proof {
            assert(opt_view(first_val) == row_lookup(row_map, gb[0]));
        }
        let fs0 = format_scalar(&first_val);
        let mut fchars = str_chars(fs0.as_str());
        kv.append(&mut fchars);
        proof {
            assert(kv@ =~= spec_format_scalar(row_lookup(row_map, gb[0])));
        }
        let mut g: usize = 1;
        while g < req.group_by.len()
            invariant
                1 <= g <= req.group_by@.len(),
                spec_group_key(gb, row_map) == kv@ + key_tail_from(gb, row_map, g as int),
            decreases req.group_by@.len() - g,
        {
            let ghost kpre = kv@;
            let ghost g0 = g as int;
            kv.push('|');
            let val: Option<ScalarValue> = match row.get(req.group_by[g].as_str()) {
                Some(v) => dup_opt(v),
                None => None,
            };
            proof {
                assert(opt_view(val) == row_lookup(row_map, gb[g as int]));
            }
            let fsg = format_scalar(&val);
            let mut gchars = str_chars(fsg.as_str());
            kv.append(&mut gchars);
            g += 1;
            proof {
                assert(kv@ =~= kpre + seq!['|'] + spec_format_scalar(
                    row_lookup(row_map, gb[g0]),
                ));
                assert(kpre + key_tail_from(gb, row_map, g0) =~= (kpre + seq!['|']
                    + spec_format_scalar(row_lookup(row_map, gb[g0]))) + key_tail_from(
                    gb,
                    row_map,
                    g0 + 1,
                ));
            }
        }
        proof {
            assert(key_tail_from(gb, row_map, req.group_by@.len() as int) =~= Seq::<
                char,
            >::empty());
            assert(kv@ + Seq::<char>::empty() =~= kv@);
        }
        crate::strutil::chars_to_string(kv)
    };
    proof {
        assert(gkey@ == spec_group_key(gb, row_map));
    }
    let mut am: GroupAggregate = match gm.get_index(gkey.as_str()) {
        Some(gi) => dup_group(&gm.entries[gi].1),
        None => GroupAggregate::new(),
    };
    let ghost am0 = am@;
    if req.aggregates.len() == 0 {
        let st: AggregateState = match am.get("COUNT(*)") {
            Some(s) => s,
            None => AggregateState {
                sum: 0,
                count: 0,
                min: None,
                max: None,
                value_type: crate::rpc::ValueType::Float,
            },
        };
        let st2 = AggregateState {
            count: if st.count < u64::MAX {
                st.count + 1
            } else {
                st.count
            },
            ..st
        };
        am.set(crate::strutil::chars_to_string(str_chars("COUNT(*)")), st2);
    } else {
        let mut ai: usize = 0;
        proof {
            assert(aggsv.skip(0) =~= aggsv);
        }
        while ai < req.aggregates.len()
            invariant
                ai <= req.aggregates@.len(),
                am.wf(),
                spec_agg_fold(am0, aggsv, row_map) == spec_agg_fold(
                    am@,
                    aggsv.skip(ai as int),
                    row_map,
                ),
            decreases req.aggregates@.len() - ai,
        {
            proof {
                assert(aggsv.skip(ai as int)[0] == aggsv[ai as int]);
                assert(aggsv.skip(ai as int).drop_first() =~= aggsv.skip(ai as int + 1));
            }
            let e = &req.aggregates[ai];
            let mut st: AggregateState = match am.get(e.output_name.as_str()) {
                Some(s) => s,
                None => AggregateState {
                    sum: 0,
                    count: 0,
                    min: None,
                    max: None,
                    value_type: crate::rpc::ValueType::Float,
                },
            };
            apply_agg(&mut st, e, row);
            am.set(e.output_name.clone(), st);
            ai += 1;
        }
        proof {
            assert(aggsv.skip(req.aggregates@.len() as int) =~= Seq::<AggregateExprV>::empty());
        }
    }
    gm.set(gkey, am);
}

/// Read one value from every column, in order: the assembled row, or
/// None when some column is exhausted, which ends the scan.
#[verifier::loop_isolation(false)]
#[verifier::rlimit(100)]
fn read_row(
    defs: &Vec<ColumnDef>,
    states: &mut Vec<ReaderState>,
    Ghost(cols): Ghost<Seq<(Seq<char>, Seq<Option<ScalarV>>)>>,
    Ghost(i): Ghost<nat>,
) -> (r: Option<Row>)
    requires
        old(states)@.len() == defs@.len(),
        old(states)@.len() > 0,
        cols == built_views(defs@, old(states)@),
        names_unique(cols.map_values(|c: (Seq<char>, Seq<Option<ScalarV>>)| c.0)),
        i <= min_len(cols),
        forall|idx: int|
            0 <= idx < old(states)@.len() ==> (#[trigger] old(states)@[idx]).pos <= old(
                states,
            )@[idx].data@.len(),
        forall|idx: int|
            0 <= idx < old(states)@.len() ==> (#[trigger] old(states)@[idx]).vals(
                defs@[idx]@.col_type,
            ) == cols[idx].1.skip(i as int),
    ensures
        final(states)@.len() == defs@.len(),
        cols == built_views(defs@, final(states)@),
        forall|idx: int|
            0 <= idx < final(states)@.len() ==> (#[trigger] final(states)@[idx]).pos
                <= final(states)@[idx].data@.len(),
        match r {
            Some(row) => i + 1 <= min_len(cols) && row.wf() && row@ == spec_row_at(cols, i as int)
                && (forall|idx: int|
                0 <= idx < final(states)@.len() ==> (#[trigger] final(states)@[idx]).vals(
                    defs@[idx]@.col_type,
                ) == cols[idx].1.skip(i as int + 1)),
            None => min_len(cols) == i,
        },
{
    let mut row = Row::new();
    let mut j: usize = 0;
    while j < states.len()
        invariant
            states@.len() == defs@.len(),
            cols == built_views(defs@, states@),
            j <= states@.len(),
            forall|idx: int|
                0 <= idx < states@.len() ==> (#[trigger] states@[idx]).pos
                    <= states@[idx].data@.len(),
            forall|idx: int|
                j <= idx < states@.len() ==> (#[trigger] states@[idx]).vals(
                    defs@[idx]@.col_type,
                ) == cols[idx].1.skip(i as int),
            forall|idx: int|
                0 <= idx < j ==> (#[trigger] states@[idx]).vals(defs@[idx]@.col_type)
                    == cols[idx].1.skip(i as int + 1),
            forall|idx: int| 0 <= idx < j ==> i < (#[trigger] cols[idx].1).len(),
            row.wf(),
            row.entry_views() == cols.take(j as int).map_values(
                |c: (Seq<char>, Seq<Option<ScalarV>>)| (c.0, c.1[i as int]),
            ),
        decreases states@.len() - j,
    {
        let ghost prerow = row.entry_views();
        let ghost prevals = states@[j as int].vals(defs@[j as int]@.col_type);
        proof {
            assert(prevals == cols[j as int].1.skip(i as int));
        }
        match read_value(&mut states[j], &defs[j]) {
            Ok(v) => {
                proof {
                    lemma_min_len(cols);
                    assert(i <= cols[j as int].1.len());
                    assert(prevals.len() > 0);
                    assert(cols[j as int].1.skip(i as int).len() > 0);
                    assert(cols[j as int].1.skip(i as int)[0] == cols[j as int].1[i as int]);
                    assert(cols[j as int].1.skip(i as int).drop_first() =~= cols[
                    j as int].1.skip(i as int + 1));
                    assert(cols[j as int].0 == defs@[j as int].name@);
                    assert forall|jj: int| 0 <= jj < j implies prerow[jj].0 != defs@[
                    j as int].name@ by {
                        assert(cols.map_values(
                            |c: (Seq<char>, Seq<Option<ScalarV>>)| c.0,
                        )[jj] != cols.map_values(
                            |c: (Seq<char>, Seq<Option<ScalarV>>)| c.0,
                        )[j as int]);
                        assert(prerow[jj].0 == cols.take(j as int)[jj].0);
                    }
                    if row@.contains_key(defs@[j as int].name@) {
                        crate::rpc::lemma_assoc_map_domain(prerow, defs@[j as int].name@);
                    }
                }
                proof {
                    assert(opt_view(v) == cols[j as int].1[i as int]);
                }
                row.put(defs[j].name.clone(), v);
                proof {
                    assert(cols.take(j as int + 1) =~= cols.take(j as int).push(cols[j as int]));
                    assert(row.entry_views() =~= cols.take(j as int + 1).map_values(
                        |c: (Seq<char>, Seq<Option<ScalarV>>)| (c.0, c.1[i as int]),
                    ));
                }
            },
            Err(_) => {
                proof {
                    lemma_min_len(cols);
                    assert(prevals.len() == 0);
                    assert(cols[j as int].1.skip(i as int).len() == 0);
                    assert(cols[j as int].1.len() == i);
                }
                return None;
            },
        }
        j += 1;
    }
    proof {
        assert(cols.take(cols.len() as int) =~= cols);
        assert(cols.take(cols.len() as int).map_values(
            |c: (Seq<char>, Seq<Option<ScalarV>>)| (c.0, c.1[i as int]),
        ) =~= cols.map_values(|c: (Seq<char>, Seq<Option<ScalarV>>)| (c.0, c.1[i as int])));
        assert(row@ == spec_row_at(cols, i as int));
        lemma_min_len(cols);
    }
    Some(row)
}

/// Scan every complete row, filtering and aggregating each: the number
/// of rows scanned and the resulting groups.
#[verifier::loop_isolation(false)]
#[verifier::rlimit(100)]
fn scan_rows(defs: &Vec<ColumnDef>, states: &mut Vec<ReaderState>, req: &QueryRequest) -> (r: (
    u64,
    GroupMap,
))
    requires
        old(states)@.len() == defs@.len(),
        old(states)@.len() > 0,
        names_unique(
            built_views(defs@, old(states)@).map_values(
                |c: (Seq<char>, Seq<Option<ScalarV>>)| c.0,
            ),
        ),
        forall|idx: int|
            0 <= idx < old(states)@.len() ==> (#[trigger] old(states)@[idx]).pos <= old(
                states,
            )@[idx].data@.len(),
        forall|idx: int|
            0 <= idx < old(states)@.len() ==> (#[trigger] old(states)@[idx]).vals(
                defs@[idx]@.col_type,
            ) == built_views(defs@, old(states)@)[idx].1,
    ensures
        ({
            let cols = built_views(defs@, old(states)@);
            let fsv = req.filters@.map_values(|f: FilterExpr| f@);
            let aggsv = req.aggregates@.map_values(|a: crate::rpc::AggregateExpr| a@);
            let gb = req.group_by@.map_values(|s: String| s@);
            r.0 == sat64(min_len(cols)) && r.1.wf() && r.1@ == spec_scan(
                cols,
                fsv,
                aggsv,
                gb,
                min_len(cols),
            )
        }),
{
    let ghost cols = built_views(defs@, old(states)@);
    let ghost fsv = req.filters@.map_values(|f: FilterExpr| f@);
    let ghost aggsv = req.aggregates@.map_values(|a: crate::rpc::AggregateExpr| a@);
    let ghost gb = req.group_by@.map_values(|s: String| s@);
    let mut gm = GroupMap::new();
    let mut rows: u64 = 0;
    let ghost mut i: nat = 0;
    proof {
        assert(forall|idx: int|
            0 <= idx < cols.len() ==> (#[trigger] cols[idx].1).skip(0) =~= cols[idx].1);
    }
    loop
        invariant
            states@.len() == defs@.len(),
            cols == built_views(defs@, states@),
            forall|idx: int|
                0 <= idx < states@.len() ==> (#[trigger] states@[idx]).pos
                    <= states@[idx].data@.len(),
            forall|idx: int|
                0 <= idx < states@.len() ==> (#[trigger] states@[idx]).vals(defs@[idx]@.col_type)
                    == cols[idx].1.skip(i as int),
            i <= min_len(cols),
            rows == sat64(i),
            gm.wf(),
            gm@ == spec_scan(cols, fsv, aggsv, gb, i),
        decreases min_len(cols) - i,
    {
        match read_row(defs, states, Ghost(cols), Ghost(i)) {
            None => {
                return (rows, gm);
            },
            Some(row) => {
                rows = if rows < u64::MAX {
                    rows + 1
                } else {
                    rows
                };
                if row_matches(&req.filters, &row) {
                    apply_row(&mut gm, req, &row);
                }
                proof {
                    i = i + 1;
                    assert(gm@ == spec_scan(cols, fsv, aggsv, gb, i));
                }
            },
        }
    }
}

/// Open one reader per needed column the schema knows; None when a
/// known column's file is missing.
#[verifier::loop_isolation(false)]
#[verifier::rlimit(100)]
fn open_columns(
    schema: &Vec<ColumnDef>,
    files: &Vec<(String, Option<Vec<u8>>)>,
    needed: &Vec<String>,
) -> (r: Option<(Vec<ColumnDef>, Vec<ReaderState>)>)
    requires
        names_unique(needed@.map_values(|s: String| s@)),
    ensures
        ({
            let sv = schema@.map_values(|x: ColumnDef| x@);
            let fv = file_views(files@);
            let neededv = needed@.map_values(|s: String| s@);
            match r {
                Some(ds) => ds.0@.len() == ds.1@.len() && spec_open_cols(sv, fv, neededv) == Some(
                    built_views(ds.0@, ds.1@),
                ) && names_unique(
                    built_views(ds.0@, ds.1@).map_values(
                        |c: (Seq<char>, Seq<Option<ScalarV>>)| c.0,
                    ),
                ) && (forall|idx: int|
                    0 <= idx < ds.1@.len() ==> (#[trigger] ds.1@[idx]).pos
                        <= ds.1@[idx].data@.len()) && (forall|idx: int|
                    0 <= idx < ds.1@.len() ==> (#[trigger] ds.1@[idx]).vals(ds.0@[idx]@.col_type)
                        == built_views(ds.0@, ds.1@)[idx].1),
                None => spec_open_cols(sv, fv, neededv) == None::<
                    Seq<(Seq<char>, Seq<Option<ScalarV>>)>,
                >,
            }
        }),
{
    let ghost schemav = schema@.map_values(|x: ColumnDef| x@);
    let ghost fv = file_views(files@);
    let ghost neededv = needed@.map_values(|s: String| s@);
    let mut defs: Vec<ColumnDef> = Vec::new();
    let mut states: Vec<ReaderState> = Vec::new();
    let mut k: usize = 0;
    proof {
        assert(neededv.skip(0) =~= neededv);
        assert(built_views(defs@, states@) =~= Seq::empty());
    }
    while k < needed.len()
        invariant
            k <= needed@.len(),
            defs@.len() == states@.len(),
            forall|idx: int|
                0 <= idx < states@.len() ==> (#[trigger] states@[idx]).pos
                    <= states@[idx].data@.len(),
            forall|idx: int|
                0 <= idx < states@.len() ==> (#[trigger] states@[idx]).vals(defs@[idx]@.col_type)
                    == built_views(defs@, states@)[idx].1,
            forall|idx: int|
                0 <= idx < defs@.len() ==> contains_name(neededv.take(k as int), (
                #[trigger] defs@[idx]).name@),
            forall|i1: int, j1: int|
                0 <= i1 < j1 < defs@.len() ==> (#[trigger] defs@[i1]).name@ != (
                #[trigger] defs@[j1]).name@,
            spec_open_cols(schemav, fv, neededv) == opt_prepend(
                built_views(defs@, states@),
                spec_open_cols(schemav, fv, neededv.skip(k as int)),
            ),
        decreases needed@.len() - k,
    {
        proof {
            assert(neededv.skip(k as int)[0] == neededv[k as int]);
            assert(neededv.skip(k as int).drop_first() =~= neededv.skip(k as int + 1));
        }
        match find_col(schema, needed[k].as_str()) {
            None => {
            },
            Some(def) => {
                let d = ColumnDef {
                    name: needed[k].clone(),
                    col_type: def.col_type,
                    nullable: def.nullable,
                    is_key: def.is_key,
                };
                proof {
                    assert(d@ == (ColumnDefV {
                        name: neededv[k as int],
                        ..spec_find_col(schemav, neededv[k as int])->Some_0
                    }));
                }
                match files_find(files, needed[k].as_str()) {
                    Some(bytes) => {
                        let data = crate::codec::bytes_range(bytes, 0, bytes.len());
                        proof {
                            assert(data@ =~= bytes@);
                        }
                        let rd = init_reader(data);
                        let ghost pre = built_views(defs@, states@);
                        defs.push(d);
                        states.push(rd);
                        proof {
                            assert(built_views(defs@, states@) =~= pre.push(
                                (
                                    neededv[k as int],
                                    column_values(
                                        spec_find_col(schemav, neededv[k as int])->Some_0.col_type,
                                        bytes@,
                                    ),
                                ),
                            ));
                            match spec_open_cols(schemav, fv, neededv.skip(k as int + 1)) {
                                Some(c) => {
                                    assert(pre.push(built_views(defs@, states@).last()) + c
                                        =~= pre + (seq![built_views(defs@, states@).last()] + c));
                                },
                                None => {
                                },
                            }
                        }
                    },
                    None => {
                        proof {
                            assert(spec_open_cols(schemav, fv, neededv) == None::<
                                Seq<(Seq<char>, Seq<Option<ScalarV>>)>,
                            >);
                        }
                        return None;
                    },
                }
            },
        }
        proof {
            assert(neededv.take(k as int + 1) =~= neededv.take(k as int).push(neededv[k as int]));
            assert forall|idx: int|
                0 <= idx < defs@.len() implies contains_name(neededv.take(k as int + 1), (
            #[trigger] defs@[idx]).name@) by {
                if contains_name(neededv.take(k as int), defs@[idx].name@) {
                    let t = choose|t: int|
                        0 <= t < neededv.take(k as int).len() && neededv.take(k as int)[t]
                            == defs@[idx].name@;
                    assert(neededv.take(k as int + 1)[t] == defs@[idx].name@);
                } else {
                    assert(defs@[idx].name@ == neededv[k as int]);
                    assert(neededv.take(k as int + 1)[k as int] == neededv[k as int]);
                }
            }
            assert forall|i1: int, j1: int|
                0 <= i1 < j1 < defs@.len() implies (#[trigger] defs@[i1]).name@ != (
            #[trigger] defs@[j1]).name@ by {
                if j1 == defs@.len() - 1 && defs@[j1].name@ == neededv[k as int] {
                    if contains_name(neededv.take(k as int), defs@[i1].name@) {
                        let t = choose|t: int|
                            0 <= t < neededv.take(k as int).len() && neededv.take(k as int)[t]
                                == defs@[i1].name@;
                        assert(neededv[t] == defs@[i1].name@);
                        assert(neededv[t] != neededv[k as int]);
                    }
                }
            }
        }
        k += 1;
    }
    proof {
        assert(neededv.skip(needed@.len() as int) =~= Seq::<Seq<char>>::empty());
        assert(built_views(defs@, states@) + Seq::<(Seq<char>, Seq<Option<ScalarV>>)>::empty()
            =~= built_views(defs@, states@));
        let cols = built_views(defs@, states@);
        assert(spec_open_cols(schemav, fv, neededv) == Some(cols));
        let names = cols.map_values(|c: (Seq<char>, Seq<Option<ScalarV>>)| c.0);
        assert forall|i1: int, j1: int|
            0 <= i1 < j1 < names.len() implies #[trigger] names[i1] != #[trigger] names[j1] by {
            assert(cols[i1].0 == defs@[i1].name@);
            assert(cols[j1].0 == defs@[j1].name@);
        }
        assert(names_unique(names));
    }
    Some((defs, states))
}

/// Execute a query over one segment's column files.
///
/// The schema text and the needed column files are handed in; the
/// elapsed-time field is taken as given, since only the caller can
/// measure time. The result is the `spec_scan` fold of the decoded
/// columns, or a skipped segment exactly when the schema is unusable, a
/// needed file is missing, the zone map rules every row out, or no
/// needed column exists.
#[verifier::loop_isolation(false)]
#[verifier::rlimit(100)]
pub fn execute_query(
    ctx: &WorkerContext,
    req: &QueryRequest,
    schema_text: &str,
    files: &Vec<(String, Option<Vec<u8>>)>,
    exec_ms: u64,
) -> (r: PartialAggregate)
    ensures
        r.worker_port == ctx.port && r.segment == ctx.segment && r.exec_ms == exec_ms
            && r.groups.wf(),
        ({
            let schema = spec_schema_of(schema_text@);
            let gb = req.group_by@.map_values(|s: String| s@);
            let aggs = req.aggregates@.map_values(|a: crate::rpc::AggregateExpr| a@);
            let fsv = req.filters@.map_values(|f: FilterExpr| f@);
            let needed0 = spec_needed(gb, aggs, fsv);
            let needed = if needed0.len() == 0 && schema.len() > 0 {
                seq![schema[0].name]
            } else {
                needed0
            };
            let fv = file_views(files@);
            if schema.len() == 0 {
                spec_skipped(r)
            } else {
                match spec_open_cols(schema, fv, needed) {
                    None => spec_skipped(r),
                    Some(cols) => {
                        if (spec_stats(schema, fv, fsv, Map::empty()) matches Some(st)
                            && spec_should_skip(fsv, st)) {
                            spec_skipped(r)
                        } else if cols.len() == 0 {
                            spec_skipped(r)
                        } else {
                            r.segments_skipped == 0 && r.rows_scanned == sat64(min_len(cols))
                                && r.groups@ == spec_scan(cols, fsv, aggs, gb, min_len(cols))
                        }
                    },
                }
            }
        }),
{
    let ghost schemav = spec_schema_of(schema_text@);
    let schema: Vec<ColumnDef> = match crate::storage_schema::parse_schema_file(schema_text) {
        Ok(s) => s,
        Err(_) => Vec::new(),
    };
    proof {
        if schema@.len() == 0 {
            assert(schema@.map_values(|x: ColumnDef| x@) =~= Seq::<ColumnDefV>::empty());
        }
    }
    if schema.len() == 0 {
        proof {
            assert(schemav.len() == 0);
        }
        return PartialAggregate {
            worker_port: ctx.port,
            segment: ctx.segment,
            rows_scanned: 0,
            segments_skipped: 1,
            exec_ms,
            groups: GroupMap::new(),
        };
    }
    proof {
        assert(schemav == schema@.map_values(|x: ColumnDef| x@));
        assert(schemav[0] == schema@[0]@);
    }
    let needed0 = needed_columns(req);
    let needed: Vec<String> = if needed0.len() == 0 {
        let mut v: Vec<String> = Vec::new();
        v.push(schema[0].name.clone());
        proof {
            assert(v@.map_values(|s: String| s@) =~= seq![schemav[0].name]);
            assert(names_unique(v@.map_values(|s: String| s@)));
        }
        v
    } else {
        needed0
    };
    let opened = open_columns(&schema, files, &needed);
    let (defs, mut states): (Vec<ColumnDef>, Vec<ReaderState>) = match opened {
        Some(ds) => ds,
        None => {
            return PartialAggregate {
                worker_port: ctx.port,
                segment: ctx.segment,
                rows_scanned: 0,
                segments_skipped: 1,
                exec_ms,
                groups: GroupMap::new(),
            };
        },
    };
    let ghost cols = built_views(defs@, states@);
    // zone-map pruning
    match compute_min_max(&schema, files, &req.filters) {
        Some(stats) => {
            if should_skip(&req.filters, &stats) {
                return PartialAggregate {
                    worker_port: ctx.port,
                    segment: ctx.segment,
                    rows_scanned: 0,
                    segments_skipped: 1,
                    exec_ms,
                    groups: GroupMap::new(),
                };
            }
        },
        None => {
        },
    }
    if states.len() == 0 {
        return PartialAggregate {
            worker_port: ctx.port,
            segment: ctx.segment,
            rows_scanned: 0,
            segments_skipped: 1,
            exec_ms,
            groups: GroupMap::new(),
        };
    }
    let (rows, gm) = scan_rows(&defs, &mut states, req);
    PartialAggregate {
        worker_port: ctx.port,
        segment: ctx.segment,
        rows_scanned: rows,
        segments_skipped: 0,
        exec_ms,
        groups: gm,
    }
}


/// A projection-only scan keeps one implicit COUNT(*): ungrouped, its
/// count is exactly the number of rows that pass the filters, up to the
/// counter's range.
pub proof fn lemma_count_star(
    cols: Seq<(Seq<char>, Seq<Option<ScalarV>>)>,
    fs: Seq<FilterV>,
    n: nat,
)
    ensures
        ({
            let gm = spec_scan(cols, fs, Seq::empty(), Seq::empty(), n);
            let passing = spec_passing(cols, fs, n);
            &&& (passing == 0 ==> gm == Map::<Seq<char>, Map<Seq<char>, AggregateState>>::empty())
            &&& (passing > 0 ==> gm.contains_key("all"@) && gm["all"@].contains_key("COUNT(*)"@)
                && gm["all"@]["COUNT(*)"@].count == sat64(passing))
        }),
    decreases n,
{
    if n > 0 {
        lemma_count_star(cols, fs, (n - 1) as nat);
        let prev = spec_scan(cols, fs, Seq::empty(), Seq::empty(), (n - 1) as nat);
        let row = spec_row_at(cols, n - 1);
        if spec_row_matches(fs, row) {
            assert(spec_group_key(Seq::empty(), row) == "all"@);
            let p0 = spec_passing(cols, fs, (n - 1) as nat);
            if p0 == 0 {
                assert(!prev.contains_key("all"@));
            } else {
                assert(inc64(sat64(p0)) == sat64(p0 + 1));
            }
        }
    }
}


/// Whether an optional statistic is clean for a column whose values
/// look like `w`.
/// An optional statistic of a column whose values look like `w`.
pub open spec fn stat_variant(o: Option<ScalarV>, w: ScalarV) -> bool {
    match o {
        None => true,
        Some(m) => same_variant(m, w),
    }
}

/// All present values share `w`'s constructor; float NaN cells allowed.
pub open spec fn vals_variant(vals: Seq<Option<ScalarV>>, w: ScalarV) -> bool {
    forall|i: int|
        0 <= i < vals.len() ==> (match #[trigger] vals[i] {
            Some(v) => same_variant(v, w),
            None => true,
        })
}

/// The running minimum and maximum bound every present non-NaN value
/// they have folded: a NaN accumulator never turns back into a number,
/// and a numeric accumulator never becomes NaN.
#[verifier::rlimit(100)]
#[verifier::spinoff_prover]
proof fn lemma_mm_bounds(
    vals: Seq<Option<ScalarV>>,
    i: int,
    mn0: Option<ScalarV>,
    mx0: Option<ScalarV>,
    w: ScalarV,
)
    requires
        vals_variant(vals, w),
        stat_variant(mn0, w),
        stat_variant(mx0, w),
        0 <= i <= vals.len(),
    ensures
        ({
            let (mn, mx) = spec_mm_from(vals, i, mn0, mx0);
            &&& stat_variant(mn, w)
            &&& stat_variant(mx, w)
            &&& (forall|j: int|
                i <= j < vals.len() ==> (match #[trigger] vals[j] {
                    Some(v) => !scalar_nan(v) ==> ((mn matches Some(m) && (scalar_nan(m) || (
                    spec_compare_scalar(m, v) matches Some(r) && r != Rel::Gt))) && (mx
                        matches Some(x) && (scalar_nan(x) || (spec_compare_scalar(v, x)
                        matches Some(r2) && r2 != Rel::Gt)))),
                    None => true,
                }))
            &&& (mn0 matches Some(m0) ==> mn matches Some(m) && (scalar_nan(m0) ==> m == m0) && (
            !scalar_nan(m0) ==> !scalar_nan(m) && (spec_compare_scalar(m, m0) matches Some(r)
                && r != Rel::Gt)))
            &&& (mx0 matches Some(x0) ==> mx matches Some(x) && (scalar_nan(x0) ==> x == x0) && (
            !scalar_nan(x0) ==> !scalar_nan(x) && (spec_compare_scalar(x0, x) matches Some(r)
                && r != Rel::Gt)))
        }),
    decreases vals.len() - i,
{
    if i < vals.len() {
        match vals[i] {
            None => {
                lemma_mm_bounds(vals, i + 1, mn0, mx0, w);
            },
            Some(v) => {
                let mn1 = mm_min(mn0, v);
                let mx1 = mm_max(mx0, v);
                assert(stat_variant(mn1, w) && stat_variant(mx1, w));
                lemma_mm_bounds(vals, i + 1, mn1, mx1, w);
                let (mn, mx) = spec_mm_from(vals, i, mn0, mx0);
                // the step value's bound, when the step value is a number
                if !scalar_nan(v) {
                    assert(mn1 matches Some(m1) && (scalar_nan(m1) || (spec_compare_scalar(m1, v)
                        matches Some(r) && r != Rel::Gt))) by {
                        match mn0 {
                            None => {
                                crate::minisql_eval::lemma_cs_total(v, v);
                                crate::minisql_eval::lemma_eq_iff(v, v);
                            },
                            Some(m0) => {
                                if !scalar_nan(m0) {
                                    crate::minisql_eval::lemma_cs_total(m0, v);
                                    crate::minisql_eval::lemma_cs_antisym(m0, v);
                                    crate::minisql_eval::lemma_cs_total(v, v);
                                    crate::minisql_eval::lemma_eq_iff(v, v);
                                }
                            },
                        }
                    }
                    assert(mx1 matches Some(x1) && (scalar_nan(x1) || (spec_compare_scalar(v, x1)
                        matches Some(r2) && r2 != Rel::Gt))) by {
                        match mx0 {
                            None => {
                                crate::minisql_eval::lemma_cs_total(v, v);
                                crate::minisql_eval::lemma_eq_iff(v, v);
                            },
                            Some(x0) => {
                                if !scalar_nan(x0) {
                                    crate::minisql_eval::lemma_cs_total(v, x0);
                                    crate::minisql_eval::lemma_cs_antisym(v, x0);
                                    crate::minisql_eval::lemma_cs_total(v, v);
                                    crate::minisql_eval::lemma_eq_iff(v, v);
                                }
                            },
                        }
                    }
                    // chain through the suffix result
                    assert(mn matches Some(m) && (scalar_nan(m) || (spec_compare_scalar(m, v)
                        matches Some(r) && r != Rel::Gt))) by {
                        let m1 = mn1->Some_0;
                        let m = mn->Some_0;
                        if !scalar_nan(m1) && !scalar_nan(m) {
                            crate::minisql_eval::lemma_cs_trans(m, m1, v);
                        }
                    }
                    assert(mx matches Some(x) && (scalar_nan(x) || (spec_compare_scalar(v, x)
                        matches Some(r2) && r2 != Rel::Gt))) by {
                        let x1 = mx1->Some_0;
                        let x = mx->Some_0;
                        if !scalar_nan(x1) && !scalar_nan(x) {
                            crate::minisql_eval::lemma_cs_trans(v, x1, x);
                        }
                    }
                }
                match mn0 {
                    Some(m0) => {
                        assert(mn1 matches Some(m1) && (scalar_nan(m0) ==> m1 == m0) && (
                        !scalar_nan(m0) ==> !scalar_nan(m1) && (spec_compare_scalar(m1, m0)
                            matches Some(r) && r != Rel::Gt))) by {
                            if !scalar_nan(m0) {
                                if !scalar_nan(v) {
                                    crate::minisql_eval::lemma_cs_total(m0, v);
                                }
                                crate::minisql_eval::lemma_cs_antisym(m0, v);
                                crate::minisql_eval::lemma_cs_total(m0, m0);
                                crate::minisql_eval::lemma_eq_iff(m0, m0);
                            }
                        }
                        assert(mn matches Some(m) && (scalar_nan(m0) ==> m == m0) && (
                        !scalar_nan(m0) ==> !scalar_nan(m) && (spec_compare_scalar(m, m0)
                            matches Some(r) && r != Rel::Gt))) by {
                            let m1 = mn1->Some_0;
                            let m = mn->Some_0;
                            if !scalar_nan(m0) {
                                crate::minisql_eval::lemma_cs_trans(m, m1, m0);
                            }
                        }
                    },
                    None => {
                    },
                }
                match mx0 {
                    Some(x0) => {
                        assert(mx1 matches Some(x1) && (scalar_nan(x0) ==> x1 == x0) && (
                        !scalar_nan(x0) ==> !scalar_nan(x1) && (spec_compare_scalar(x0, x1)
                            matches Some(r) && r != Rel::Gt))) by {
                            if !scalar_nan(x0) {
                                if !scalar_nan(v) {
                                    crate::minisql_eval::lemma_cs_total(v, x0);
                                }
                                crate::minisql_eval::lemma_cs_antisym(v, x0);
                                crate::minisql_eval::lemma_cs_total(x0, x0);
                                crate::minisql_eval::lemma_eq_iff(x0, x0);
                            }
                        }
                        assert(mx matches Some(x) && (scalar_nan(x0) ==> x == x0) && (
                        !scalar_nan(x0) ==> !scalar_nan(x) && (spec_compare_scalar(x0, x)
                            matches Some(r) && r != Rel::Gt))) by {
                            let x1 = mx1->Some_0;
                            let x = mx->Some_0;
                            if !scalar_nan(x0) {
                                crate::minisql_eval::lemma_cs_trans(x0, x1, x);
                            }
                        }
                    },
                    None => {
                    },
                }
                assert forall|j: int|
                    i <= j < vals.len() implies (match #[trigger] vals[j] {
                    Some(v2) => !scalar_nan(v2) ==> ((mn matches Some(m) && (scalar_nan(m) || (
                    spec_compare_scalar(m, v2) matches Some(r) && r != Rel::Gt))) && (mx
                        matches Some(x) && (scalar_nan(x) || (spec_compare_scalar(v2, x)
                        matches Some(r2) && r2 != Rel::Gt)))),
                    None => true,
                }) by {
                    if j > i {
                        assert(i + 1 <= j < vals.len());
                    }
                }
            },
        }
    } else {
        match mn0 {
            Some(m0) => {
                if !scalar_nan(m0) {
                    crate::minisql_eval::lemma_cs_total(m0, m0);
                    crate::minisql_eval::lemma_eq_iff(m0, m0);
                }
            },
            None => {
            },
        }
        match mx0 {
            Some(x0) => {
                if !scalar_nan(x0) {
                    crate::minisql_eval::lemma_cs_total(x0, x0);
                    crate::minisql_eval::lemma_eq_iff(x0, x0);
                }
            },
            None => {
            },
        }
    }
}

/// A literal a column can be checked against: the column's own
/// constructor, or an integer bound on a float column.
pub open spec fn lit_compat(w: ScalarV, t: ScalarV) -> bool {
    same_variant(t, w) || (w matches ScalarV::Float(_) && t matches ScalarV::Int(_))
}

/// Zone-map pruning is sound for one filter: when its statistics force
/// a skip, no value of the column satisfies the predicate.
pub proof fn lemma_skip_one_sound(f: FilterV, vals: Seq<Option<ScalarV>>, w: ScalarV)
    requires
        vals_variant(vals, w),
        lit_compat(w, f.value),
        f.value_hi matches Some(hi) ==> lit_compat(w, hi),
        spec_skip_one(
            f,
            Map::empty().insert(f.column, spec_mm_from(vals, 0, None, None)),
        ),
    ensures
        forall|j: int| 0 <= j < vals.len() ==> !spec_eval_filter(#[trigger] vals[j], f),
    decreases 0int,
{
    let st = spec_mm_from(vals, 0, None, None);
    let mn = st.0;
    let mx = st.1;
    lemma_mm_bounds(vals, 0, None, None, w);
    assert forall|j: int| 0 <= j < vals.len() implies !spec_eval_filter(#[trigger] vals[j], f) by {
        match vals[j] {
            None => {
            },
            Some(v) => {
                if spec_eval_filter(Some(v), f) && scalar_nan(v) {
                    assert(false);
                }
                if spec_eval_filter(Some(v), f) {
                    let t = f.value;
                    match f.pred {
                        crate::rpc::Predicate::Eq => {
                            let m = mn->Some_0;
                            let x = mx->Some_0;
                            crate::minisql_eval::lemma_eq_iff(v, t);
                            crate::minisql_eval::lemma_cs_antisym(t, m);
                            crate::minisql_eval::lemma_cs_antisym(t, x);
                            if spec_compare_scalar(t, m) == Some(Rel::Lt) {
                                crate::minisql_eval::lemma_cs_trans(m, v, t);
                            } else {
                                crate::minisql_eval::lemma_cs_trans(v, x, t);
                                crate::minisql_eval::lemma_cs_antisym(v, t);
                            }
                            assert(false);
                        },
                        crate::rpc::Predicate::Lt => {
                            let m = mn->Some_0;
                            crate::minisql_eval::lemma_cs_trans(m, v, t);
                            assert(false);
                        },
                        crate::rpc::Predicate::Le => {
                            let m = mn->Some_0;
                            crate::minisql_eval::lemma_cs_trans(m, v, t);
                            assert(false);
                        },
                        crate::rpc::Predicate::Gt => {
                            let x = mx->Some_0;
                            crate::minisql_eval::lemma_cs_trans(v, x, t);
                            assert(false);
                        },
                        crate::rpc::Predicate::Ge => {
                            let x = mx->Some_0;
                            crate::minisql_eval::lemma_cs_trans(v, x, t);
                            assert(false);
                        },
                        crate::rpc::Predicate::Between => {
                            let hi = f.value_hi->Some_0;
                            let m = mn->Some_0;
                            let x = mx->Some_0;
                            if spec_compare_scalar(x, t) == Some(Rel::Lt) {
                                crate::minisql_eval::lemma_cs_trans(v, x, t);
                            } else {
                                crate::minisql_eval::lemma_cs_trans(m, v, hi);
                            }
                            assert(false);
                        },
                    }
                }
            },
        }
    }
}

} // verus!

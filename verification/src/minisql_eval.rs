//! Row-level evaluation: scalar comparison and coercion, streaming column
//! reads, predicate evaluation and per-row aggregate updates.
use vstd::prelude::*;

verus! {

use vstd::utf8::encode_utf8;

use crate::codec::{column_values, dec_cell, raw_vals, rle_vals, rle_magic};
use crate::fbits::{
    spec_f64_cmp, spec_f64_min, spec_f64_max, spec_f64_add, spec_f64_of_i64, f64_cmp_bits,
    f64_min_bits, f64_max_bits, f64_add_bits, f64_of_i64, Rel,
};
use crate::minisql_print::{display_f64, spec_display_f64};
use crate::rpc::{AggregateExpr, AggregateExprV, AggregateFn, AggregateState, FilterExpr, FilterV,
    Predicate, ScalarV, ScalarValue, ValueType, assoc_map, assoc_unique, lemma_assoc_map_index,
    lemma_assoc_map_absent, opt_view};
use crate::storage_schema::{ColumnDef, ColumnType};
use crate::strutil::{cmp_str, dec_int, eq_str, i64_to_string, lex_bytes};

/// A copy of a scalar with the same view.
impl ScalarValue {
    pub fn dup(&self) -> (r: ScalarValue)
        ensures
            r@ == self@,
    {
        match self {
            ScalarValue::Int(i) => ScalarValue::Int(*i),
            ScalarValue::Float(b) => ScalarValue::Float(*b),
            ScalarValue::Str(s) => ScalarValue::Str(s.clone()),
            ScalarValue::Bool(b) => ScalarValue::Bool(*b),
        }
    }
}

/// A copy of an optional scalar with the same view.
pub fn dup_opt(v: &Option<ScalarValue>) -> (r: Option<ScalarValue>)
    ensures
        opt_view(r) == opt_view(*v),
{
    match v {
        Some(s) => Some(s.dup()),
        None => None,
    }
}

pub open spec fn rel_of_int(x: int, y: int) -> Rel {
    if x < y {
        Rel::Lt
    } else if x == y {
        Rel::Eq
    } else {
        Rel::Gt
    }
}

pub open spec fn rel_of_bool(x: bool, y: bool) -> Rel {
    if x == y {
        Rel::Eq
    } else if !x {
        Rel::Lt
    } else {
        Rel::Gt
    }
}

/// Ordering used by predicate evaluation: the same order the zone map
/// uses, so numbers promote to float, strings compare on bytes, booleans
/// put false below true, and a comparison that touches a NaN or mixes
/// other types is undefined, which makes every predicate on it false.
pub open spec fn spec_cmp_order(a: ScalarV, b: ScalarV) -> Option<Rel> {
    spec_compare_scalar(a, b)
}

/// Equality used by predicate evaluation.
pub open spec fn spec_cmp_eq(a: ScalarV, b: ScalarV) -> bool {
    match (a, b) {
        (ScalarV::Int(x), ScalarV::Int(y)) => x == y,
        (ScalarV::Float(x), ScalarV::Float(y)) => spec_f64_cmp(x, y) == Some(Rel::Eq),
        (ScalarV::Int(x), ScalarV::Float(y)) => spec_f64_cmp(spec_f64_of_i64(x as i64), y)
            == Some(Rel::Eq),
        (ScalarV::Float(x), ScalarV::Int(y)) => spec_f64_cmp(x, spec_f64_of_i64(y as i64))
            == Some(Rel::Eq),
        (ScalarV::Str(x), ScalarV::Str(y)) => x == y,
        (ScalarV::Bool(x), ScalarV::Bool(y)) => x == y,
        _ => false,
    }
}

/// The one scalar ordering, used by predicate evaluation and the zone
/// map alike: numeric types promote to float, strings compare on their
/// bytes, booleans put false below true; a NaN or a mismatched pair is
/// incomparable.
pub open spec fn spec_compare_scalar(a: ScalarV, b: ScalarV) -> Option<Rel> {
    match (a, b) {
        (ScalarV::Int(x), ScalarV::Int(y)) => Some(rel_of_int(x, y)),
        (ScalarV::Float(x), ScalarV::Float(y)) => spec_f64_cmp(x, y),
        (ScalarV::Int(x), ScalarV::Float(y)) => spec_f64_cmp(spec_f64_of_i64(x as i64), y),
        (ScalarV::Float(x), ScalarV::Int(y)) => spec_f64_cmp(x, spec_f64_of_i64(y as i64)),
        (ScalarV::Str(x), ScalarV::Str(y)) => Some(lex_bytes(encode_utf8(x), encode_utf8(y))),
        (ScalarV::Bool(x), ScalarV::Bool(y)) => Some(rel_of_bool(x, y)),
        _ => None,
    }
}

pub fn cmp_order(a: &ScalarValue, b: &ScalarValue) -> (r: Option<Rel>)
    ensures
        r == spec_cmp_order(a@, b@),
{
    compare_scalar(a, b)
}

pub fn cmp_eq(a: &ScalarValue, b: &ScalarValue) -> (r: bool)
    ensures
        r == spec_cmp_eq(a@, b@),
{
    match (a, b) {
        (ScalarValue::Int(x), ScalarValue::Int(y)) => *x == *y,
        (ScalarValue::Float(x), ScalarValue::Float(y)) => {
            matches!(f64_cmp_bits(*x, *y), Some(Rel::Eq))
        },
        (ScalarValue::Int(x), ScalarValue::Float(y)) => {
            matches!(f64_cmp_bits(f64_of_i64(*x), *y), Some(Rel::Eq))
        },
        (ScalarValue::Float(x), ScalarValue::Int(y)) => {
            matches!(f64_cmp_bits(*x, f64_of_i64(*y)), Some(Rel::Eq))
        },
        (ScalarValue::Str(x), ScalarValue::Str(y)) => eq_str(x.as_str(), y.as_str()),
        (ScalarValue::Bool(x), ScalarValue::Bool(y)) => *x == *y,
        _ => false,
    }
}

pub fn compare_scalar(a: &ScalarValue, b: &ScalarValue) -> (r: Option<Rel>)
    ensures
        r == spec_compare_scalar(a@, b@),
{
    match (a, b) {
        (ScalarValue::Int(x), ScalarValue::Int(y)) => {
            if *x < *y {
                Some(Rel::Lt)
            } else if *x == *y {
                Some(Rel::Eq)
            } else {
                Some(Rel::Gt)
            }
        },
        (ScalarValue::Float(x), ScalarValue::Float(y)) => f64_cmp_bits(*x, *y),
        (ScalarValue::Int(x), ScalarValue::Float(y)) => f64_cmp_bits(f64_of_i64(*x), *y),
        (ScalarValue::Float(x), ScalarValue::Int(y)) => f64_cmp_bits(*x, f64_of_i64(*y)),
        (ScalarValue::Str(x), ScalarValue::Str(y)) => Some(cmp_str(x.as_str(), y.as_str())),
        (ScalarValue::Bool(x), ScalarValue::Bool(y)) => {
            if *x == *y {
                Some(Rel::Eq)
            } else if !*x {
                Some(Rel::Lt)
            } else {
                Some(Rel::Gt)
            }
        },
        _ => None,
    }
}

/// The numeric coercion of a scalar, as IEEE 754 bits.
pub open spec fn spec_as_f64(v: ScalarV) -> Option<u64> {
    match v {
        ScalarV::Int(i) => Some(spec_f64_of_i64(i as i64)),
        ScalarV::Float(b) => Some(b),
        ScalarV::Bool(b) => Some(
            spec_f64_of_i64(
                if b {
                    1
                } else {
                    0
                },
            ),
        ),
        ScalarV::Str(_) => None,
    }
}

pub fn as_f64(v: &ScalarValue) -> (r: Option<u64>)
    ensures
        r == spec_as_f64(v@),
{
    match v {
        ScalarValue::Int(i) => Some(f64_of_i64(*i)),
        ScalarValue::Float(b) => Some(*b),
        ScalarValue::Bool(b) => Some(
            f64_of_i64(
                if *b {
                    1
                } else {
                    0
                },
            ),
        ),
        ScalarValue::Str(_) => None,
    }
}

/// How a scalar renders in group keys and projections.
pub open spec fn spec_format_scalar(v: Option<ScalarV>) -> Seq<char> {
    match v {
        Some(ScalarV::Int(i)) => dec_int(i),
        Some(ScalarV::Float(b)) => spec_display_f64(b),
        Some(ScalarV::Str(s)) => s,
        Some(ScalarV::Bool(b)) => if b {
            "true"@
        } else {
            "false"@
        },
        None => "NULL"@,
    }
}

pub fn format_scalar(v: &Option<ScalarValue>) -> (r: String)
    ensures
        r@ == spec_format_scalar(opt_view(*v)),
{
    match v {
        Some(ScalarValue::Int(i)) => i64_to_string(*i),
        Some(ScalarValue::Float(b)) => display_f64(*b),
        Some(ScalarValue::Str(s)) => s.clone(),
        Some(ScalarValue::Bool(b)) => {
            if *b {
                crate::strutil::chars_to_string(crate::textscan::str_chars("true"))
            } else {
                crate::strutil::chars_to_string(crate::textscan::str_chars("false"))
            }
        },
        None => crate::strutil::chars_to_string(crate::textscan::str_chars("NULL")),
    }
}

/// One row under evaluation: the needed columns by name.
pub struct Row {
    pub entries: Vec<(String, Option<ScalarValue>)>,
}

impl Row {
    pub open spec fn entry_views(&self) -> Seq<(Seq<char>, Option<ScalarV>)> {
        self.entries@.map_values(
            |e: (String, Option<ScalarValue>)| (e.0@, opt_view(e.1)),
        )
    }

    pub open spec fn wf(&self) -> bool {
        assoc_unique(self.entry_views())
    }

    pub open spec fn spec_view(&self) -> Map<Seq<char>, Option<ScalarV>> {
        assoc_map(self.entry_views())
    }

    pub fn new() -> (r: Row)
        ensures
            r.wf(),
            r@ == Map::<Seq<char>, Option<ScalarV>>::empty(),
            r.entries@.len() == 0,
    {
        let r = Row { entries: Vec::new() };
        proof {
            assert(r.entry_views() =~= Seq::empty());
        }
        r
    }

    /// Add a column that the row does not hold yet.
    pub fn put(&mut self, k: String, v: Option<ScalarValue>)
        requires
            old(self).wf(),
            !old(self)@.contains_key(k@),
        ensures
            final(self).wf(),
            final(self)@ == old(self)@.insert(k@, opt_view(v)),
            final(self).entries@.len() == old(self).entries@.len() + 1,
            final(self).entry_views() == old(self).entry_views().push((k@, opt_view(v))),
    {
        proof {
            if exists|j: int| 0 <= j < self.entry_views().len() && self.entry_views()[j].0 == k@ {
                let j = choose|j: int|
                    0 <= j < self.entry_views().len() && self.entry_views()[j].0 == k@;
                lemma_assoc_map_index(self.entry_views(), j);
                assert(false);
            }
        }
        let ghost pre = self.entry_views();
        self.entries.push((k, v));
        proof {
            assert(self.entry_views() =~= pre.push((k@, opt_view(v))));
            assert(self.entry_views().drop_last() =~= pre);
        }
    }

    pub fn get(&self, k: &str) -> (r: Option<&Option<ScalarValue>>)
        requires
            self.wf(),
        ensures
            match r {
                Some(v) => self@.contains_key(k@) && opt_view(*v) == self@[k@],
                None => !self@.contains_key(k@),
            },
    {
        let mut i: usize = 0;
        while i < self.entries.len()
            invariant
                self.wf(),
                i <= self.entries@.len(),
                forall|j: int| 0 <= j < i ==> self.entry_views()[j].0 != k@,
            decreases self.entries@.len() - i,
        {
            if eq_str(self.entries[i].0.as_str(), k) {
                proof {
                    lemma_assoc_map_index(self.entry_views(), i as int);
                }
                return Some(&self.entries[i].1);
            }
            i += 1;
        }
        proof {
            lemma_assoc_map_absent(self.entry_views(), k@);
        }
        None
    }
}

impl View for Row {
    type V = Map<Seq<char>, Option<ScalarV>>;

    open spec fn view(&self) -> Map<Seq<char>, Option<ScalarV>> {
        self.spec_view()
    }
}

/// The value a row holds for a column: absent columns read as null.
pub open spec fn row_lookup(row: Map<Seq<char>, Option<ScalarV>>, c: Seq<char>) -> Option<
    ScalarV,
> {
    if row.contains_key(c) {
        row[c]
    } else {
        None
    }
}

/// Whether a predicate holds of a value: null never satisfies one.
pub open spec fn spec_eval_filter(val: Option<ScalarV>, f: FilterV) -> bool {
    match val {
        None => false,
        Some(v) => match f.pred {
            Predicate::Eq => spec_cmp_eq(v, f.value),
            Predicate::Lt => spec_cmp_order(v, f.value) == Some(Rel::Lt),
            Predicate::Gt => spec_cmp_order(v, f.value) == Some(Rel::Gt),
            Predicate::Le => spec_cmp_order(v, f.value) matches Some(r) && r != Rel::Gt,
            Predicate::Ge => spec_cmp_order(v, f.value) matches Some(r) && r != Rel::Lt,
            Predicate::Between => match f.value_hi {
                Some(hi) => (spec_cmp_order(v, f.value) matches Some(r) && r != Rel::Lt) && (
                spec_cmp_order(v, hi) matches Some(r2) && r2 != Rel::Gt),
                None => false,
            },
        },
    }
}

pub fn eval_filter(val: &Option<ScalarValue>, f: &FilterExpr) -> (r: bool)
    ensures
        r == spec_eval_filter(opt_view(*val), f@),
{
    let v = match val {
        None => {
            return false;
        },
        Some(v) => v,
    };
    match f.pred {
        Predicate::Eq => cmp_eq(v, &f.value),
        Predicate::Lt => matches!(cmp_order(v, &f.value), Some(Rel::Lt)),
        Predicate::Gt => matches!(cmp_order(v, &f.value), Some(Rel::Gt)),
        Predicate::Le => matches!(cmp_order(v, &f.value), Some(Rel::Lt) | Some(Rel::Eq)),
        Predicate::Ge => matches!(cmp_order(v, &f.value), Some(Rel::Gt) | Some(Rel::Eq)),
        Predicate::Between => {
            match &f.value_hi {
                Some(hi) => {
                    matches!(cmp_order(v, &f.value), Some(Rel::Gt) | Some(Rel::Eq)) && matches!(
                        cmp_order(v, hi),
                        Some(Rel::Lt) | Some(Rel::Eq),
                    )
                },
                None => false,
            }
        },
    }
}

/// Whether a row passes every filter.
pub open spec fn spec_row_matches(fs: Seq<FilterV>, row: Map<Seq<char>, Option<ScalarV>>) -> bool
    decreases fs.len(),
{
    if fs.len() == 0 {
        true
    } else {
        spec_eval_filter(row_lookup(row, fs[0].column), fs[0]) && spec_row_matches(
            fs.drop_first(),
            row,
        )
    }
}

pub fn row_matches(filters: &Vec<FilterExpr>, row: &Row) -> (r: bool)
    requires
        row.wf(),
    ensures
        r == spec_row_matches(filters@.map_values(|f: FilterExpr| f@), row@),
{
    let ghost fs = filters@.map_values(|f: FilterExpr| f@);
    proof {
        assert(fs.skip(0) =~= fs);
    }
    let mut i: usize = 0;
    while i < filters.len()
        invariant
            row.wf(),
            i <= filters@.len(),
            fs == filters@.map_values(|f: FilterExpr| f@),
            spec_row_matches(fs, row@) == spec_row_matches(fs.skip(i as int), row@),
        decreases filters@.len() - i,
    {
        proof {
            assert(fs.skip(i as int)[0] == fs[i as int]);
            assert(fs.skip(i as int).drop_first() =~= fs.skip(i as int + 1));
        }
        let f = &filters[i];
        let val = match row.get(f.column.as_str()) {
            Some(v) => dup_opt(v),
            None => None,
        };
        proof {
            assert(opt_view(val) == row_lookup(row@, f@.column));
        }
        if !eval_filter(&val, f) {
            return false;
        }
        i += 1;
    }
    proof {
        assert(fs.skip(filters@.len() as int) =~= Seq::<FilterV>::empty());
    }
    true
}

/// A count bumped by one, stopping at the top of the range.
pub open spec fn inc64(n: u64) -> u64 {
    if n == u64::MAX {
        n
    } else {
        (n + 1) as u64
    }
}

/// The promoted display type after a value contributed.
pub open spec fn spec_set_value_type(t: ValueType, v: ScalarV) -> ValueType {
    match v {
        ScalarV::Int(_) => ValueType::Int,
        ScalarV::Bool(_) => ValueType::Int,
        ScalarV::Float(_) => ValueType::Float,
        ScalarV::Str(_) => t,
    }
}

fn set_value_type(state: &mut AggregateState, val: &ScalarValue)
    ensures
        *final(state) == (AggregateState {
            value_type: spec_set_value_type(old(state).value_type, val@),
            ..*old(state)
        }),
{
    match val {
        ScalarValue::Int(_) => state.value_type = ValueType::Int,
        ScalarValue::Bool(_) => state.value_type = ValueType::Int,
        ScalarValue::Float(_) => state.value_type = ValueType::Float,
        ScalarValue::Str(_) => (),
    }
}

/// A numeric value folded into sum and count; strings contribute nothing.
pub open spec fn spec_accumulate(st: AggregateState, v: ScalarV) -> AggregateState {
    match spec_as_f64(v) {
        Some(b) => AggregateState {
            sum: spec_f64_add(st.sum, b),
            count: inc64(st.count),
            ..st
        },
        None => st,
    }
}

fn accumulate_numeric(state: &mut AggregateState, val: &ScalarValue)
    ensures
        *final(state) == spec_accumulate(*old(state), val@),
{
    match as_f64(val) {
        Some(b) => {
            state.sum = f64_add_bits(state.sum, b);
            if state.count < u64::MAX {
                state.count = state.count + 1;
            }
        },
        None => (),
    }
}

/// One row's contribution to one aggregate.
pub open spec fn spec_apply_agg(
    st: AggregateState,
    e: AggregateExprV,
    row: Map<Seq<char>, Option<ScalarV>>,
) -> AggregateState {
    match e.func {
        AggregateFn::Count => AggregateState { count: inc64(st.count), ..st },
        AggregateFn::Sum => spec_apply_numeric(st, e, row),
        AggregateFn::Avg => spec_apply_numeric(st, e, row),
        AggregateFn::Min => match agg_input(e, row) {
            Some(v) => {
                let st1 = AggregateState {
                    value_type: spec_set_value_type(st.value_type, v),
                    ..st
                };
                match spec_as_f64(v) {
                    Some(f) => AggregateState {
                        min: Some(
                            match st1.min {
                                Some(m) => spec_f64_min(m, f),
                                None => f,
                            },
                        ),
                        ..st1
                    },
                    None => st1,
                }
            },
            None => st,
        },
        AggregateFn::Max => match agg_input(e, row) {
            Some(v) => {
                let st1 = AggregateState {
                    value_type: spec_set_value_type(st.value_type, v),
                    ..st
                };
                match spec_as_f64(v) {
                    Some(f) => AggregateState {
                        max: Some(
                            match st1.max {
                                Some(m) => spec_f64_max(m, f),
                                None => f,
                            },
                        ),
                        ..st1
                    },
                    None => st1,
                }
            },
            None => st,
        },
    }
}

/// The value an aggregate reads from a row, when its column is present
/// and non-null there.
pub open spec fn agg_input(e: AggregateExprV, row: Map<Seq<char>, Option<ScalarV>>) -> Option<
    ScalarV,
> {
    match e.column {
        Some(c) => row_lookup(row, c),
        None => None,
    }
}

pub open spec fn spec_apply_numeric(
    st: AggregateState,
    e: AggregateExprV,
    row: Map<Seq<char>, Option<ScalarV>>,
) -> AggregateState {
    match agg_input(e, row) {
        Some(v) => spec_accumulate(
            AggregateState { value_type: spec_set_value_type(st.value_type, v), ..st },
            v,
        ),
        None => st,
    }
}

pub fn apply_agg(state: &mut AggregateState, expr: &AggregateExpr, row: &Row)
    requires
        row.wf(),
    ensures
        *final(state) == spec_apply_agg(*old(state), expr@, row@),
{
    match expr.func {
        AggregateFn::Count => {
            if state.count < u64::MAX {
                state.count = state.count + 1;
            }
        },
        AggregateFn::Sum | AggregateFn::Avg | AggregateFn::Min | AggregateFn::Max => {
            let val: Option<ScalarValue> = match &expr.column {
                Some(c) => match row.get(c.as_str()) {
                    Some(v) => dup_opt(v),
                    None => None,
                },
                None => None,
            };
            proof {
                assert(opt_view(val) == agg_input(expr@, row@));
            }
            match val {
                Some(v) => {
                    set_value_type(state, &v);
                    match expr.func {
                        AggregateFn::Sum | AggregateFn::Avg => {
                            accumulate_numeric(state, &v);
                        },
                        AggregateFn::Min => {
                            match as_f64(&v) {
                                Some(f) => {
                                    state.min = Some(
                                        match state.min {
                                            Some(m) => f64_min_bits(m, f),
                                            None => f,
                                        },
                                    );
                                },
                                None => (),
                            }
                        },
                        AggregateFn::Max => {
                            match as_f64(&v) {
                                Some(f) => {
                                    state.max = Some(
                                        match state.max {
                                            Some(m) => f64_max_bits(m, f),
                                            None => f,
                                        },
                                    );
                                },
                                None => (),
                            }
                        },
                        AggregateFn::Count => (),
                    }
                },
                None => (),
            }
        },
    }
}

/// A streaming reader over one column file's bytes.
pub struct ReaderState {
    pub data: Vec<u8>,
    pub pos: usize,
    pub rle: bool,
    pub remaining: u32,
    pub current: Option<ScalarValue>,
}

#[derive(Debug, PartialEq, Eq, Structural)]
pub enum ReadError {
    Eof,
    Io,
}

impl ReaderState {
    /// The values this reader will still yield for a column type.
    pub open spec fn vals(&self, t: ColumnType) -> Seq<Option<ScalarV>> {
        if self.rle {
            Seq::new(self.remaining as nat, |i: int| opt_view(self.current)) + rle_vals(
                t,
                self.data@,
                self.pos as int,
            )
        } else {
            raw_vals(t, self.data@, self.pos as int)
        }
    }
}

/// Open a reader over a column file's bytes, sniffing the run-length
/// magic.
pub fn init_reader(data: Vec<u8>) -> (r: ReaderState)
    ensures
        forall|t: ColumnType| #[trigger] r.vals(t) == column_values(t, data@),
        r.pos <= r.data@.len(),
        r.data@ == data@,
{
    let is_rle: bool = data.len() >= 4 && data[0] == 82 && data[1] == 76 && data[2] == 69
        && data[3] == 49;
    proof {
        if data@.len() >= 4 {
            assert(data@.subrange(0, 4) =~= seq![data@[0], data@[1], data@[2], data@[3]]);
            assert(rle_magic() == seq![82u8, 76u8, 69u8, 49u8]);
            assert(seq![data@[0], data@[1], data@[2], data@[3]] == rle_magic() <==> (data@[0]
                == 82 && data@[1] == 76 && data@[2] == 69 && data@[3] == 49));
        }
    }
    if is_rle {
        let r = ReaderState { data, pos: 4, rle: true, remaining: 0, current: None };
        proof {
            assert forall|t: ColumnType| #[trigger] r.vals(t) == column_values(t, r.data@) by {
                assert(r.vals(t) =~= rle_vals(t, r.data@, 4));
            }
        }
        r
    } else {
        let r = ReaderState { data, pos: 0, rle: false, remaining: 0, current: None };
        r
    }
}

/// Read the next cell of a raw stream: the decoded value and the
/// position after it.
fn read_cell(data: &Vec<u8>, pos: usize, t: ColumnType) -> (r: Option<(Option<ScalarValue>, usize)>)
    requires
        pos <= data@.len(),
    ensures
        match r {
            Some(vq) => dec_cell(t, data@, pos as int) == Some((opt_view(vq.0), vq.1 as int))
                && pos < vq.1 <= data@.len(),
            None => dec_cell(t, data@, pos as int) is None,
        },
{
    let n = data.len();
    if pos >= n {
        return None;
    }
    let flag = data[pos];
    if flag == 0 {
        return Some((None, pos + 1));
    }
    let p = pos + 1;
    match t {
        ColumnType::Int32 | ColumnType::Date => {
            if n - p < 4 {
                return None;
            }
            let raw = crate::codec::read_le(data, p, 4);
            proof {
                crate::codec::lemma_le_val_bound(data@.subrange(p as int, p as int + 4));
                vstd::arithmetic::power2::lemma2_to64();
            }
            let v: i64 = if raw >= 0x8000_0000 {
                (raw as i64) - 0x1_0000_0000
            } else {
                raw as i64
            };
            proof {
                assert(v == crate::codec::i32_val(le_val_at(data@, p as int, 4)));
            }
            Some((Some(ScalarValue::Int(v)), p + 4))
        },
        ColumnType::Int64 | ColumnType::TimestampMs => {
            if n - p < 8 {
                return None;
            }
            let raw = crate::codec::read_le(data, p, 8);
            let v: i64 = if raw >= 0x8000_0000_0000_0000 {
                -((0xFFFF_FFFF_FFFF_FFFFu64 - raw) as i64) - 1
            } else {
                raw as i64
            };
            proof {
                crate::codec::lemma_le_val_bound(data@.subrange(p as int, p as int + 8));
                vstd::arithmetic::power2::lemma2_to64();
                assert(v == crate::codec::i64_val(le_val_at(data@, p as int, 8)));
            }
            Some((Some(ScalarValue::Int(v)), p + 8))
        },
        ColumnType::Float64 => {
            if n - p < 8 {
                return None;
            }
            let raw = crate::codec::read_le(data, p, 8);
            Some((Some(ScalarValue::Float(raw)), p + 8))
        },
        ColumnType::Bool => {
            if n - p < 1 {
                return None;
            }
            Some((Some(ScalarValue::Bool(data[p] != 0)), p + 1))
        },
        ColumnType::Str => {
            if n - p < 4 {
                return None;
            }
            let l64 = crate::codec::read_le(data, p, 4);
            proof {
                crate::codec::lemma_le_val_bound(data@.subrange(p as int, p as int + 4));
                vstd::arithmetic::power2::lemma2_to64();
            }
            if l64 > (n - (p + 4)) as u64 {
                return None;
            }
            let l = l64 as usize;
            let bytes = crate::codec::bytes_range(data, p + 4, p + 4 + l);
            let s = crate::codec::bytes_to_string(&bytes);
            Some((Some(ScalarValue::Str(s)), p + 4 + l))
        },
    }
}

/// The little-endian value of `w` bytes at a position.
pub open spec fn le_val_at(b: Seq<u8>, p: int, w: int) -> nat {
    crate::rpc::le_val(b.subrange(p, p + w))
}

/// Which error ends an exhausted stream: a clean end exactly at a cell
/// or run boundary reads as Eof; a truncated run header, missing cell
/// flag or short payload reads as Io; a zero-length run marks a clean
/// end.
pub open spec fn spec_read_err(state: ReaderState, t: ColumnType) -> ReadError {
    if state.rle {
        if state.pos == state.data@.len() {
            ReadError::Eof
        } else if state.pos + 4 > state.data@.len() {
            ReadError::Io
        } else if dec_cell(t, state.data@, state.pos + 4) is None {
            ReadError::Io
        } else {
            ReadError::Eof
        }
    } else {
        if state.pos >= state.data@.len() {
            ReadError::Eof
        } else {
            ReadError::Io
        }
    }
}

/// Read the next value of the column: its cell in a raw stream, or the
/// next repetition of the current run in a run-length stream. An error
/// means the stream holds no further value, and says whether the end
/// was clean (Eof) or a truncation (Io).
pub fn read_value(state: &mut ReaderState, col: &ColumnDef) -> (r: Result<
    Option<ScalarValue>,
    ReadError,
>)
    requires
        old(state).pos <= old(state).data@.len(),
    ensures
        final(state).pos <= final(state).data@.len(),
        final(state).data@ == old(state).data@,
        final(state).rle == old(state).rle,
        match r {
            Ok(v) => old(state).vals(col@.col_type).len() > 0 && opt_view(v) == old(state).vals(
                col@.col_type,
            )[0] && final(state).vals(col@.col_type) == old(state).vals(
                col@.col_type,
            ).drop_first(),
            Err(e) => old(state).vals(col@.col_type).len() == 0 && *final(state) == *old(state)
                && e == spec_read_err(*old(state), col@.col_type),
        },
{
    let t = col.col_type;
    if !state.rle {
        if state.pos >= state.data.len() {
            return Err(ReadError::Eof);
        }
        match read_cell(&state.data, state.pos, t) {
            Some((v, q)) => {
                let ghost oldvals = old(state).vals(t);
                state.pos = q;
                proof {
                    assert(oldvals == seq![opt_view(v)] + raw_vals(t, state.data@, q as int));
                    assert(state.vals(t) =~= oldvals.drop_first());
                }
                Ok(v)
            },
            None => Err(ReadError::Io),
        }
    } else {
        if state.remaining == 0 {
            let n = state.data.len();
            if state.pos == n {
                return Err(ReadError::Eof);
            }
            if n - state.pos < 4 {
                return Err(ReadError::Io);
            }
            let cnt64 = crate::codec::read_le(&state.data, state.pos, 4);
            proof {
                crate::codec::lemma_le_val_bound(
                    state.data@.subrange(state.pos as int, state.pos as int + 4),
                );
                vstd::arithmetic::power2::lemma2_to64();
            }
            let cnt = cnt64 as u32;
            match read_cell(&state.data, state.pos + 4, t) {
                None => Err(ReadError::Io),
                Some((v, q)) => {
                    if cnt == 0 {
                        return Err(ReadError::Eof);
                    }
                    let ghost oldvals = old(state).vals(t);
                    state.current = v;
                    state.remaining = cnt - 1;
                    state.pos = q;
                    proof {
                        assert(oldvals =~= Seq::new(cnt as nat, |i: int| opt_view(
                            state.current,
                        )) + rle_vals(t, state.data@, q as int));
                        assert(state.vals(t) =~= oldvals.drop_first());
                    }
                    Ok(dup_opt(&state.current))
                },
            }
        } else {
            let ghost oldvals = old(state).vals(t);
            state.remaining = state.remaining - 1;
            proof {
                assert(oldvals.len() > 0);
                assert(oldvals[0] == opt_view(state.current));
                assert(state.vals(t) =~= oldvals.drop_first());
            }
            Ok(dup_opt(&state.current))
        }
    }
}


/// Whether a scalar is a float NaN.
pub open spec fn scalar_nan(v: ScalarV) -> bool {
    match v {
        ScalarV::Float(b) => crate::fbits::f64_is_nan(b),
        _ => false,
    }
}

/// Same constructor.
pub open spec fn same_variant(a: ScalarV, b: ScalarV) -> bool {
    match (a, b) {
        (ScalarV::Int(_), ScalarV::Int(_)) => true,
        (ScalarV::Float(_), ScalarV::Float(_)) => true,
        (ScalarV::Str(_), ScalarV::Str(_)) => true,
        (ScalarV::Bool(_), ScalarV::Bool(_)) => true,
        _ => false,
    }
}

/// Values of one variant, neither a NaN, always compare.
pub proof fn lemma_cs_total(a: ScalarV, b: ScalarV)
    requires
        same_variant(a, b),
        !scalar_nan(a),
        !scalar_nan(b),
    ensures
        spec_compare_scalar(a, b) is Some,
{
}

/// Exchanging the operands exchanges Lt and Gt and keeps Eq.
pub proof fn lemma_cs_antisym(a: ScalarV, b: ScalarV)
    ensures
        (spec_compare_scalar(a, b) == Some(Rel::Lt)) <==> (spec_compare_scalar(b, a) == Some(
            Rel::Gt,
        )),
        (spec_compare_scalar(a, b) == Some(Rel::Eq)) <==> (spec_compare_scalar(b, a) == Some(
            Rel::Eq,
        )),
{
    match (a, b) {
        (ScalarV::Str(x), ScalarV::Str(y)) => {
            crate::strutil::lemma_lex_flip(encode_utf8(x), encode_utf8(y));
            crate::strutil::lemma_lex_flip(encode_utf8(y), encode_utf8(x));
            crate::strutil::lemma_lex_eq(encode_utf8(x), encode_utf8(y));
            crate::strutil::lemma_lex_eq(encode_utf8(y), encode_utf8(x));
        },
        _ => {
        },
    }
}

/// The ordering is transitive along a column: the first two values share
/// a variant, and an integer column is never chained into a float bound.
pub proof fn lemma_cs_trans(a: ScalarV, b: ScalarV, c: ScalarV)
    requires
        spec_compare_scalar(a, b) matches Some(r1) && r1 != Rel::Gt,
        spec_compare_scalar(b, c) matches Some(r2) && r2 != Rel::Gt,
        same_variant(a, b),
        !(a matches ScalarV::Int(_) && c matches ScalarV::Float(_)),
    ensures
        spec_compare_scalar(a, c) matches Some(r) && r != Rel::Gt,
        (spec_compare_scalar(a, b) == Some(Rel::Lt) || spec_compare_scalar(b, c) == Some(Rel::Lt))
            ==> spec_compare_scalar(a, c) == Some(Rel::Lt),
{
    match (a, b, c) {
        (ScalarV::Str(x), ScalarV::Str(y), ScalarV::Str(z)) => {
            crate::strutil::lemma_lex_trans(encode_utf8(x), encode_utf8(y), encode_utf8(z));
        },
        _ => {
        },
    }
}

/// Scalar equality is comparison yielding Eq.
pub proof fn lemma_eq_iff(a: ScalarV, b: ScalarV)
    ensures
        spec_cmp_eq(a, b) <==> spec_compare_scalar(a, b) == Some(Rel::Eq),
{
    match (a, b) {
        (ScalarV::Str(x), ScalarV::Str(y)) => {
            broadcast use vstd::utf8::encode_utf8_decode_utf8;

            crate::strutil::lemma_lex_eq(encode_utf8(x), encode_utf8(y));
            if encode_utf8(x) == encode_utf8(y) {
                assert(vstd::utf8::decode_utf8(encode_utf8(x)) == x);
                assert(vstd::utf8::decode_utf8(encode_utf8(y)) == y);
            }
        },
        _ => {
        },
    }
}

} // verus!

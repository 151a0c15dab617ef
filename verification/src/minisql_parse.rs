//! The query dialect: one SELECT statement with projections or
//! aggregate calls, an optional WHERE with comparison or BETWEEN
//! predicates joined by AND or comma, an optional GROUP BY, and a
//! closing semicolon. Tokenizing and parsing are specified by
//! recursive mirrors over the characters and tokens.
use vstd::prelude::*;

verus! {

use crate::fbits::{parse_f64_bits, spec_parse_f64};
use crate::fieldparse::{eq_icase, eq_icase_range, is_digit, spec_parse_i64, parse_i64_range};
use crate::rpc::{AggregateExpr, AggregateExprV, AggregateFn, FilterExpr, FilterV, Predicate,
    QueryRequest, ScalarV, ScalarValue};
use crate::textscan::{is_ws, str_chars, string_range, ws_char};

/// One token of the dialect.
pub ghost enum Tok {
    Id(Seq<char>),
    Num(Seq<char>),
    Text(Seq<char>),
    Comma,
    Star,
    LP,
    RP,
    Semi,
    OpEq,
    OpLt,
    OpGt,
    OpLe,
    OpGe,
}

/// Executable token.
pub enum TokE {
    Id(String),
    Num(String),
    Text(String),
    Comma,
    Star,
    LP,
    RP,
    Semi,
    OpEq,
    OpLt,
    OpGt,
    OpLe,
    OpGe,
}

impl View for TokE {
    type V = Tok;

    open spec fn view(&self) -> Tok {
        match self {
            TokE::Id(s) => Tok::Id(s@),
            TokE::Num(s) => Tok::Num(s@),
            TokE::Text(s) => Tok::Text(s@),
            TokE::Comma => Tok::Comma,
            TokE::Star => Tok::Star,
            TokE::LP => Tok::LP,
            TokE::RP => Tok::RP,
            TokE::Semi => Tok::Semi,
            TokE::OpEq => Tok::OpEq,
            TokE::OpLt => Tok::OpLt,
            TokE::OpGt => Tok::OpGt,
            TokE::OpLe => Tok::OpLe,
            TokE::OpGe => Tok::OpGe,
        }
    }
}

pub open spec fn is_ident_start(c: char) -> bool {
    ('a' <= c && c <= 'z') || ('A' <= c && c <= 'Z') || c == '_'
}

pub open spec fn is_ident_char(c: char) -> bool {
    is_ident_start(c) || is_digit(c)
}

pub open spec fn is_num_char(c: char) -> bool {
    is_digit(c) || c == '.'
}

/// Length of the leading run satisfying a character class.
pub open spec fn run_while(s: Seq<char>, i: int, cls: spec_fn(char) -> bool) -> int
    decreases s.len() - i,
{
    if i < 0 || i >= s.len() || !cls(s[i]) {
        0
    } else {
        1 + run_while(s, i + 1, cls)
    }
}

pub proof fn lemma_run_while_bounds(s: Seq<char>, i: int, cls: spec_fn(char) -> bool)
    requires
        0 <= i <= s.len(),
    ensures
        0 <= run_while(s, i, cls),
        i + run_while(s, i, cls) <= s.len(),
    decreases s.len() - i,
{
    if i < s.len() && cls(s[i]) {
        lemma_run_while_bounds(s, i + 1, cls);
    }
}

pub proof fn lemma_run_while_at(s: Seq<char>, i: int, cls: spec_fn(char) -> bool, k: int)
    requires
        0 <= i <= s.len(),
        i <= k <= s.len(),
        forall|j: int| i <= j < k ==> cls(s[j]),
        k == s.len() || !cls(s[k]),
    ensures
        run_while(s, i, cls) == k - i,
    decreases k - i,
{
    if i < k {
        lemma_run_while_at(s, i + 1, cls, k);
    }
}

/// The tokens of the text from a position, or None on a character the
/// dialect does not know or an unterminated quote.
pub open spec fn spec_toks(s: Seq<char>, i: int) -> Option<Seq<Tok>>
    decreases s.len() - i, 0int,
    via spec_toks_dec
{
    if i < 0 || i >= s.len() {
        Some(Seq::empty())
    } else if is_ws(s[i]) {
        spec_toks(s, i + 1)
    } else if s[i] == ',' {
        cons_tok(Tok::Comma, s, i + 1)
    } else if s[i] == '*' {
        cons_tok(Tok::Star, s, i + 1)
    } else if s[i] == '(' {
        cons_tok(Tok::LP, s, i + 1)
    } else if s[i] == ')' {
        cons_tok(Tok::RP, s, i + 1)
    } else if s[i] == ';' {
        cons_tok(Tok::Semi, s, i + 1)
    } else if s[i] == '=' {
        cons_tok(Tok::OpEq, s, i + 1)
    } else if s[i] == '<' {
        if i + 1 < s.len() && s[i + 1] == '=' {
            cons_tok(Tok::OpLe, s, i + 2)
        } else {
            cons_tok(Tok::OpLt, s, i + 1)
        }
    } else if s[i] == '>' {
        if i + 1 < s.len() && s[i + 1] == '=' {
            cons_tok(Tok::OpGe, s, i + 2)
        } else {
            cons_tok(Tok::OpGt, s, i + 1)
        }
    } else if s[i] == '\'' {
        match crate::textscan::find_char(s.skip(i + 1), '\'') {
            None => None,
            Some(k) => cons_tok(Tok::Text(s.subrange(i + 1, i + 1 + k)), s, i + 1 + k + 1),
        }
    } else if is_ident_start(s[i]) {
        let k = run_while(s, i, |c: char| is_ident_char(c));
        cons_tok(Tok::Id(s.subrange(i, i + k)), s, i + k)
    } else if is_digit(s[i]) || (s[i] == '-' && i + 1 < s.len() && is_digit(s[i + 1])) {
        let k = run_while(s, i + 1, |c: char| is_num_char(c));
        cons_tok(Tok::Num(s.subrange(i, i + 1 + k)), s, i + 1 + k)
    } else {
        None
    }
}

#[via_fn]
proof fn spec_toks_dec(s: Seq<char>, i: int) {
    if 0 <= i < s.len() {
        if s[i] == '\'' {
            crate::textscan::lemma_find_char_bounds(s.skip(i + 1), '\'');
        }
        if is_ident_start(s[i]) {
            lemma_run_while_bounds(s, i + 1, |c: char| is_ident_char(c));
            assert(run_while(s, i, |c: char| is_ident_char(c)) == 1 + run_while(
                s,
                i + 1,
                |c: char| is_ident_char(c),
            ));
        }
        if i + 1 <= s.len() {
            lemma_run_while_bounds(s, i + 1, |c: char| is_num_char(c));
        }
    }
}

/// One token followed by the rest.
pub open spec fn cons_tok(t: Tok, s: Seq<char>, j: int) -> Option<Seq<Tok>>
    decreases s.len() - j, 1int,
{
    match spec_toks(s, j) {
        Some(rest) => Some(seq![t] + rest),
        None => None,
    }
}


/// Prepend already-built tokens to the rest, absorbing failure.
pub open spec fn opt_toks_prepend(a: Seq<Tok>, o: Option<Seq<Tok>>) -> Option<Seq<Tok>> {
    match o {
        Some(rest) => Some(a + rest),
        None => None,
    }
}

/// Tokenize a query text.
#[verifier::loop_isolation(false)]
#[verifier::rlimit(100)]
pub fn tokenize(s: &str) -> (r: Option<Vec<TokE>>)
    ensures
        match r {
            Some(ts) => spec_toks(s@, 0) == Some(ts@.map_values(|t: TokE| t@)),
            None => spec_toks(s@, 0) == None::<Seq<Tok>>,
        },
{
    let v = str_chars(s);
    let n = v.len();
    let mut out: Vec<TokE> = Vec::new();
    let mut i: usize = 0;
    while i < n
        invariant
            i <= n,
            n == v@.len(),
            v@ == s@,
            spec_toks(s@, 0) == opt_toks_prepend(
                out@.map_values(|t: TokE| t@),
                spec_toks(s@, i as int),
            ),
        decreases n - i,
    {
        let c = v[i];
        let ghost pretoks = out@.map_values(|t: TokE| t@);
        if ws_char(c) {
            i += 1;
            continue;
        }
        let (tok, next): (TokE, usize) = if c == ',' {
            (TokE::Comma, i + 1)
        } else if c == '*' {
            (TokE::Star, i + 1)
        } else if c == '(' {
            (TokE::LP, i + 1)
        } else if c == ')' {
            (TokE::RP, i + 1)
        } else if c == ';' {
            (TokE::Semi, i + 1)
        } else if c == '=' {
            (TokE::OpEq, i + 1)
        } else if c == '<' {
            if i + 1 < n && v[i + 1] == '=' {
                (TokE::OpLe, i + 2)
            } else {
                (TokE::OpLt, i + 1)
            }
        } else if c == '>' {
            if i + 1 < n && v[i + 1] == '=' {
                (TokE::OpGe, i + 2)
            } else {
                (TokE::OpGt, i + 1)
            }
        } else if c == '\'' {
            match crate::textscan::find_char_in(&v, i + 1, n, '\'') {
                None => {
                    proof {
                        assert(s@.skip(i + 1) =~= v@.subrange(i + 1, n as int));
                    }
                    return None;
                },
                Some(k) => {
                    proof {
                        assert(s@.skip(i + 1) =~= v@.subrange(i + 1, n as int));
                        assert(s@.subrange(i + 1, k as int) =~= v@.subrange(i + 1, n as int).take(
                            k - i - 1,
                        ));
                        assert(s@.subrange(i + 1, i + 1 + (k - i - 1)) == s@.subrange(
                            i + 1,
                            k as int,
                        ));
                    }
                    (TokE::Text(string_range(&v, i + 1, k)), k + 1)
                },
            }
        } else if (c >= 'a' && c <= 'z') || (c >= 'A' && c <= 'Z') || c == '_' {
            let mut j = i + 1;
            while j < n && ((v[j] >= 'a' && v[j] <= 'z') || (v[j] >= 'A' && v[j] <= 'Z') || v[j]
                == '_' || (v[j] >= '0' && v[j] <= '9'))
                invariant
                    i < j <= n,
                    forall|t: int| i <= t < j ==> is_ident_char(s@[t]),
                decreases n - j,
            {
                j += 1;
            }
            proof {
                lemma_run_while_at(s@, i as int, |c2: char| is_ident_char(c2), j as int);
            }
            (TokE::Id(string_range(&v, i, j)), j)
        } else if (c >= '0' && c <= '9') || (c == '-' && i + 1 < n && v[i + 1] >= '0' && v[i + 1]
            <= '9') {
            let mut j = i + 1;
            while j < n && ((v[j] >= '0' && v[j] <= '9') || v[j] == '.')
                invariant
                    i < j <= n,
                    forall|t: int| i + 1 <= t < j ==> is_num_char(s@[t]),
                decreases n - j,
            {
                j += 1;
            }
            proof {
                lemma_run_while_at(s@, i as int + 1, |c2: char| is_num_char(c2), j as int);
            }
            (TokE::Num(string_range(&v, i, j)), j)
        } else {
            return None;
        };
        proof {
            assert(spec_toks(s@, i as int) == cons_tok(tok@, s@, next as int));
        }
        out.push(tok);
        i = next;
        proof {
            match spec_toks(s@, i as int) {
                Some(rest) => {
                    assert(out@.map_values(|t: TokE| t@) =~= pretoks.push(tok@));
                    assert(pretoks + (seq![tok@] + rest) =~= pretoks.push(tok@) + rest);
                },
                None => {
                },
            }
        }
    }
    proof {
        assert(spec_toks(s@, n as int) == Some(Seq::<Tok>::empty()));
        assert(out@.map_values(|t: TokE| t@) + Seq::<Tok>::empty() =~= out@.map_values(
            |t: TokE| t@,
        ));
    }
    Some(out)
}

/// The parsed request, mathematically.
pub ghost struct ReqV {
    pub projections: Seq<Seq<char>>,
    pub aggregates: Seq<AggregateExprV>,
    pub table: Seq<char>,
    pub filters: Seq<FilterV>,
    pub group_by: Seq<Seq<char>>,
}

/// A keyword: an identifier equal to a word, letters in any case.
pub open spec fn is_kw(t: Tok, w: Seq<char>) -> bool {
    t matches Tok::Id(x) && eq_icase(x, w)
}

/// The display name of an aggregate function.
pub open spec fn agg_fn_name(f: AggregateFn) -> Seq<char> {
    match f {
        AggregateFn::Count => "COUNT"@,
        AggregateFn::Sum => "SUM"@,
        AggregateFn::Avg => "AVG"@,
        AggregateFn::Min => "MIN"@,
        AggregateFn::Max => "MAX"@,
    }
}

/// The aggregate an identifier names.
pub open spec fn spec_agg_fn(x: Seq<char>) -> Option<AggregateFn> {
    if eq_icase(x, "count"@) {
        Some(AggregateFn::Count)
    } else if eq_icase(x, "sum"@) {
        Some(AggregateFn::Sum)
    } else if eq_icase(x, "avg"@) {
        Some(AggregateFn::Avg)
    } else if eq_icase(x, "min"@) {
        Some(AggregateFn::Min)
    } else if eq_icase(x, "max"@) {
        Some(AggregateFn::Max)
    } else {
        None
    }
}

/// The output name of an aggregate projection.
pub open spec fn agg_name(f: AggregateFn, col: Option<Seq<char>>) -> Seq<char> {
    match col {
        Some(c) => agg_fn_name(f) + "("@ + c + ")"@,
        None => agg_fn_name(f) + "(*)"@,
    }
}

/// A literal's value.
pub open spec fn spec_lit(t: Tok) -> Result<ScalarV, Seq<char>> {
    match t {
        Tok::Num(x) => match spec_parse_i64(x) {
            Some(v) => Ok(ScalarV::Int(v)),
            None => match spec_parse_f64(x) {
                Some(b) => Ok(ScalarV::Float(b)),
                None => Err("Invalid number"@),
            },
        },
        Tok::Text(x) => Ok(ScalarV::Str(x)),
        _ => Err("malformed query"@),
    }
}

/// One projection item: a star, a plain column, or an aggregate call.
pub open spec fn spec_item(ts: Seq<Tok>, i: int) -> Result<
    (Option<Seq<char>>, Option<AggregateExprV>, int),
    Seq<char>,
> {
    if !(0 <= i < ts.len()) {
        Err("malformed query"@)
    } else {
        match ts[i] {
            Tok::Star => Ok((Some("*"@), None, i + 1)),
            Tok::Id(x) => if i + 1 < ts.len() && ts[i + 1] == Tok::LP {
                match spec_agg_fn(x) {
                    None => Err("Unsupported aggregate"@),
                    Some(f) => if i + 3 < ts.len() && ts[i + 3] == Tok::RP {
                        match ts[i + 2] {
                            Tok::Star => Ok(
                                (
                                    None,
                                    Some(
                                        AggregateExprV {
                                            func: f,
                                            column: None,
                                            output_name: agg_name(f, None),
                                        },
                                    ),
                                    i + 4,
                                ),
                            ),
                            Tok::Id(c) => Ok(
                                (
                                    None,
                                    Some(
                                        AggregateExprV {
                                            func: f,
                                            column: Some(c),
                                            output_name: agg_name(f, Some(c)),
                                        },
                                    ),
                                    i + 4,
                                ),
                            ),
                            _ => Err("malformed query"@),
                        }
                    } else {
                        Err("malformed query"@)
                    },
                }
            } else {
                Ok((Some(x), None, i + 1))
            },
            _ => Err("malformed query"@),
        }
    }
}

pub proof fn lemma_item_bounds(ts: Seq<Tok>, i: int)
    ensures
        spec_item(ts, i) matches Ok(t3) ==> i < t3.2 <= ts.len(),
{
}

/// The projection list: items separated by commas.
pub open spec fn spec_items(
    ts: Seq<Tok>,
    i: int,
    projs: Seq<Seq<char>>,
    aggs: Seq<AggregateExprV>,
) -> Result<(Seq<Seq<char>>, Seq<AggregateExprV>, int), Seq<char>>
    decreases ts.len() - i,
    via spec_items_dec
{
    match spec_item(ts, i) {
        Err(e) => Err(e),
        Ok((p, a, next)) => {
            let projs2 = match p {
                Some(x) => projs.push(x),
                None => projs,
            };
            let aggs2 = match a {
                Some(x) => aggs.push(x),
                None => aggs,
            };
            if next < ts.len() && ts[next] == Tok::Comma {
                spec_items(ts, next + 1, projs2, aggs2)
            } else {
                Ok((projs2, aggs2, next))
            }
        },
    }
}

#[via_fn]
proof fn spec_items_dec(ts: Seq<Tok>, i: int, projs: Seq<Seq<char>>, aggs: Seq<AggregateExprV>) {
    lemma_item_bounds(ts, i);
}

/// One predicate: a comparison or a BETWEEN, and where it ends.
pub open spec fn spec_pred(ts: Seq<Tok>, i: int) -> Result<(FilterV, int), Seq<char>> {
    if !(0 <= i && i + 1 < ts.len()) {
        Err("malformed query"@)
    } else {
        match ts[i] {
            Tok::Id(col) => {
                if is_kw(ts[i + 1], "between"@) {
                    if i + 4 < ts.len() && is_kw(ts[i + 3], "and"@) {
                        match spec_lit(ts[i + 2]) {
                            Err(e) => Err(e),
                            Ok(lo) => match spec_lit(ts[i + 4]) {
                                Err(e) => Err(e),
                                Ok(hi) => Ok(
                                    (
                                        FilterV {
                                            column: col,
                                            pred: Predicate::Between,
                                            value: lo,
                                            value_hi: Some(hi),
                                        },
                                        i + 5,
                                    ),
                                ),
                            },
                        }
                    } else {
                        Err("malformed query"@)
                    }
                } else {
                    let p = match ts[i + 1] {
                        Tok::OpEq => Some(Predicate::Eq),
                        Tok::OpLt => Some(Predicate::Lt),
                        Tok::OpGt => Some(Predicate::Gt),
                        Tok::OpLe => Some(Predicate::Le),
                        Tok::OpGe => Some(Predicate::Ge),
                        _ => None,
                    };
                    match p {
                        None => Err("malformed query"@),
                        Some(pr) => if i + 2 < ts.len() {
                            match spec_lit(ts[i + 2]) {
                                Err(e) => Err(e),
                                Ok(v) => Ok(
                                    (
                                        FilterV {
                                            column: col,
                                            pred: pr,
                                            value: v,
                                            value_hi: None,
                                        },
                                        i + 3,
                                    ),
                                ),
                            }
                        } else {
                            Err("malformed query"@)
                        },
                    }
                }
            },
            _ => Err("malformed query"@),
        }
    }
}

pub proof fn lemma_pred_bounds(ts: Seq<Tok>, i: int)
    ensures
        spec_pred(ts, i) matches Ok(t2) ==> i < t2.1 <= ts.len(),
{
}

/// The predicate list: predicates separated by AND or comma.
pub open spec fn spec_preds(ts: Seq<Tok>, i: int, acc: Seq<FilterV>) -> Result<
    (Seq<FilterV>, int),
    Seq<char>,
>
    decreases ts.len() - i,
    via spec_preds_dec
{
    match spec_pred(ts, i) {
        Err(e) => Err(e),
        Ok((f, next)) => {
            let acc2 = acc.push(f);
            if next < ts.len() && (ts[next] == Tok::Comma || is_kw(ts[next], "and"@)) {
                spec_preds(ts, next + 1, acc2)
            } else {
                Ok((acc2, next))
            }
        },
    }
}

#[via_fn]
proof fn spec_preds_dec(ts: Seq<Tok>, i: int, acc: Seq<FilterV>) {
    lemma_pred_bounds(ts, i);
}

/// The group-by list: identifiers separated by commas.
pub open spec fn spec_group(ts: Seq<Tok>, i: int, acc: Seq<Seq<char>>) -> Result<
    (Seq<Seq<char>>, int),
    Seq<char>,
>
    decreases ts.len() - i,
{
    if !(0 <= i < ts.len()) {
        Err("malformed query"@)
    } else {
        match ts[i] {
            Tok::Id(g) => {
                let acc2 = acc.push(g);
                if i + 2 < ts.len() && ts[i + 1] == Tok::Comma {
                    spec_group(ts, i + 2, acc2)
                } else {
                    Ok((acc2, i + 1))
                }
            },
            _ => Err("malformed query"@),
        }
    }
}

/// What parsing a token list yields.
pub open spec fn spec_parse_query(ts: Seq<Tok>) -> Result<ReqV, Seq<char>> {
    if !(ts.len() > 0 && is_kw(ts[0], "select"@)) {
        Err("Expected SELECT statement"@)
    } else {
        match spec_items(ts, 1, Seq::empty(), Seq::empty()) {
            Err(e) => Err(e),
            Ok((projs, aggs, i)) => if !(i < ts.len() && is_kw(ts[i], "from"@)) {
                Err("malformed query"@)
            } else if !(i + 1 < ts.len() && ts[i + 1] matches Tok::Id(_)) {
                Err("Table name missing"@)
            } else {
                let table = ts[i + 1]->Id_0;
                let i2 = i + 2;
                let wres: Result<(Seq<FilterV>, int), Seq<char>> = if i2 < ts.len() && is_kw(
                    ts[i2],
                    "where"@,
                ) {
                    spec_preds(ts, i2 + 1, Seq::empty())
                } else {
                    Ok((Seq::empty(), i2))
                };
                match wres {
                    Err(e) => Err(e),
                    Ok((filters, i3)) => {
                        let gres: Result<(Seq<Seq<char>>, int), Seq<char>> = if i3 + 1 < ts.len()
                            && is_kw(ts[i3], "group"@) && is_kw(ts[i3 + 1], "by"@) {
                            spec_group(ts, i3 + 2, Seq::empty())
                        } else {
                            Ok((Seq::empty(), i3))
                        };
                        match gres {
                            Err(e) => Err(e),
                            Ok((gb, i4)) => if i4 + 1 == ts.len() && ts[i4] == Tok::Semi {
                                Ok(
                                    ReqV {
                                        projections: projs,
                                        aggregates: aggs,
                                        table: table,
                                        filters: filters,
                                        group_by: gb,
                                    },
                                )
                            } else {
                                Err("malformed query"@)
                            },
                        }
                    },
                }
            },
        }
    }
}

/// The request a parsed query denotes.
pub open spec fn req_view(req: QueryRequest) -> ReqV {
    ReqV {
        projections: req.projections@.map_values(|s: String| s@),
        aggregates: req.aggregates@.map_values(|a: AggregateExpr| a@),
        table: req.table@,
        filters: req.filters@.map_values(|f: FilterExpr| f@),
        group_by: req.group_by@.map_values(|s: String| s@),
    }
}


fn kw_tok(t: &TokE, w: &str) -> (r: bool)
    ensures
        r == is_kw(t@, w@),
{
    match t {
        TokE::Id(x) => {
            let v = str_chars(x.as_str());
            let n = v.len();
            proof {
                assert(v@.subrange(0, n as int) =~= x@);
            }
            eq_icase_range(&v, 0, n, w)
        },
        _ => false,
    }
}

fn agg_fn_of(x: &String) -> (r: Option<AggregateFn>)
    ensures
        r == spec_agg_fn(x@),
{
    let v = str_chars(x.as_str());
    let n = v.len();
    proof {
        assert(v@.subrange(0, n as int) =~= x@);
    }
    if eq_icase_range(&v, 0, n, "count") {
        Some(AggregateFn::Count)
    } else if eq_icase_range(&v, 0, n, "sum") {
        Some(AggregateFn::Sum)
    } else if eq_icase_range(&v, 0, n, "avg") {
        Some(AggregateFn::Avg)
    } else if eq_icase_range(&v, 0, n, "min") {
        Some(AggregateFn::Min)
    } else if eq_icase_range(&v, 0, n, "max") {
        Some(AggregateFn::Max)
    } else {
        None
    }
}

fn lit_of(t: &TokE) -> (r: Result<ScalarValue, String>)
    ensures
        match r {
            Ok(v) => spec_lit(t@) == Ok::<ScalarV, Seq<char>>(v@),
            Err(e) => spec_lit(t@) == Err::<ScalarV, Seq<char>>(e@),
        },
{
    match t {
        TokE::Num(x) => {
            let v = str_chars(x.as_str());
            let n = v.len();
            proof {
                assert(v@.subrange(0, n as int) =~= x@);
            }
            match parse_i64_range(&v, 0, n) {
                Some(i) => Ok(ScalarValue::Int(i)),
                None => {
                    match parse_f64_bits(x.as_str()) {
                        Some(b) => Ok(ScalarValue::Float(b)),
                        None => Err(crate::strutil::chars_to_string(str_chars("Invalid number"))),
                    }
                },
            }
        },
        TokE::Text(x) => Ok(ScalarValue::Str(x.clone())),
        _ => Err(crate::strutil::chars_to_string(str_chars("malformed query"))),
    }
}

/// The exact display name of an aggregate function.
fn agg_fn_name_e(f: AggregateFn) -> (r: Vec<char>)
    ensures
        r@ == agg_fn_name(f),
{
    match f {
        AggregateFn::Count => str_chars("COUNT"),
        AggregateFn::Sum => str_chars("SUM"),
        AggregateFn::Avg => str_chars("AVG"),
        AggregateFn::Min => str_chars("MIN"),
        AggregateFn::Max => str_chars("MAX"),
    }
}

#[verifier::loop_isolation(false)]
fn parse_item_e(ts: &Vec<TokE>, i: usize) -> (r: Result<
    (Option<String>, Option<AggregateExpr>, usize),
    String,
>)
    ensures
        ({
            let tv = ts@.map_values(|t: TokE| t@);
            match r {
                Ok(t3) => spec_item(tv, i as int) == Ok::<
                    (Option<Seq<char>>, Option<AggregateExprV>, int),
                    Seq<char>,
                >(
                    (
                        match t3.0 {
                            Some(ref p) => Some(p@),
                            None => None,
                        },
                        match t3.1 {
                            Some(ref a) => Some(a@),
                            None => None,
                        },
                        t3.2 as int,
                    ),
                ) && i < t3.2 <= ts@.len(),
                Err(e) => spec_item(tv, i as int) matches Err(em) && em == e@,
            }
        }),
{
    let ghost tv = ts@.map_values(|t: TokE| t@);
    if i >= ts.len() {
        return Err(crate::strutil::chars_to_string(str_chars("malformed query")));
    }
    match &ts[i] {
        TokE::Star => Ok((Some(crate::strutil::chars_to_string(str_chars("*"))), None, i + 1)),
        TokE::Id(x) => {
            if i + 1 < ts.len() && matches!(&ts[i + 1], TokE::LP) {
                match agg_fn_of(x) {
                    None => Err(crate::strutil::chars_to_string(str_chars(
                        "Unsupported aggregate",
                    ))),
                    Some(f) => {
                        if ts.len() - i > 3 && matches!(&ts[i + 3], TokE::RP) {
                            let col: Option<String> = match &ts[i + 2] {
                                TokE::Star => None,
                                TokE::Id(c) => Some(c.clone()),
                                _ => {
                                    return Err(crate::strutil::chars_to_string(str_chars(
                                        "malformed query",
                                    )));
                                },
                            };
                            let mut name = agg_fn_name_e(f);
                            match &col {
                                Some(c) => {
                                    let mut lp = str_chars("(");
                                    name.append(&mut lp);
                                    let mut cc = str_chars(c.as_str());
                                    name.append(&mut cc);
                                    let mut rp = str_chars(")");
                                    name.append(&mut rp);
                                },
                                None => {
                                    let mut star = str_chars("(*)");
                                    name.append(&mut star);
                                },
                            }
                            let oname = crate::strutil::chars_to_string(name);
                            proof {
                                match col {
                                    Some(ref c) => {
                                        assert(oname@ == agg_name(f, Some(c@)));
                                    },
                                    None => {
                                        assert(oname@ == agg_name(f, None));
                                    },
                                }
                            }
                            Ok(
                                (
                                    None,
                                    Some(AggregateExpr { func: f, column: col, output_name: oname }),
                                    i + 4,
                                ),
                            )
                        } else {
                            Err(crate::strutil::chars_to_string(str_chars("malformed query")))
                        }
                    },
                }
            } else {
                Ok((Some(x.clone()), None, i + 1))
            }
        },
        _ => Err(crate::strutil::chars_to_string(str_chars("malformed query"))),
    }
}

/// Parse one statement of the dialect into a request.
#[verifier::loop_isolation(false)]
#[verifier::rlimit(100)]
pub fn parse_sql(sql: &str) -> (r: Result<QueryRequest, String>)
    ensures
        match r {
            Ok(req) => (spec_toks(sql@, 0) matches Some(ts) && spec_parse_query(ts) == Ok::<
                ReqV,
                Seq<char>,
            >(req_view(req))) && req.query@ == sql@,
            Err(e) => (spec_toks(sql@, 0) matches Some(ts) && spec_parse_query(ts) == Err::<
                ReqV,
                Seq<char>,
            >(e@)) || (spec_toks(sql@, 0) is None && e@ == "malformed query"@),
        },
{
    let toks: Vec<TokE> = match tokenize(sql) {
        Some(ts) => ts,
        None => {
            return Err(crate::strutil::chars_to_string(str_chars("malformed query")));
        },
    };
    let ghost tv = toks@.map_values(|t: TokE| t@);
    if toks.len() == 0 || !kw_tok(&toks[0], "select") {
        return Err(crate::strutil::chars_to_string(str_chars("Expected SELECT statement")));
    }
    // projection items
    let mut projections: Vec<String> = Vec::new();
    let mut aggregates: Vec<AggregateExpr> = Vec::new();
    let mut i: usize = 1;
    proof {
        assert(projections@.map_values(|s: String| s@) =~= Seq::<Seq<char>>::empty());
        assert(aggregates@.map_values(|a: AggregateExpr| a@) =~= Seq::<AggregateExprV>::empty());
    }
    let mut items_end: usize = 0;
    let mut items_done = false;
    while !items_done
        invariant
            1 <= i <= toks@.len() + 1,
            !items_done ==> spec_items(tv, 1, Seq::empty(), Seq::empty()) == spec_items(
                tv,
                i as int,
                projections@.map_values(|s: String| s@),
                aggregates@.map_values(|a: AggregateExpr| a@),
            ),
            items_done ==> spec_items(tv, 1, Seq::empty(), Seq::empty()) == Ok::<
                (Seq<Seq<char>>, Seq<AggregateExprV>, int),
                Seq<char>,
            >(
                (
                    projections@.map_values(|s: String| s@),
                    aggregates@.map_values(|a: AggregateExpr| a@),
                    items_end as int,
                ),
            ),
        decreases (if items_done { 0int } else { toks@.len() + 1 - i }),
    {
        let ghost preprojs = projections@.map_values(|s: String| s@);
        let ghost preaggs = aggregates@.map_values(|a: AggregateExpr| a@);
        let (p, a, next) = match parse_item_e(&toks, i) {
            Ok(t3) => t3,
            Err(e) => {
                return Err(e);
            },
        };
        match p {
            Some(x) => {
                projections.push(x);
                proof {
                    assert(projections@.map_values(|s: String| s@) =~= preprojs.push(
                        projections@.last()@,
                    ));
                }
            },
            None => {
            },
        }
        match a {
            Some(x) => {
                aggregates.push(x);
                proof {
                    assert(aggregates@.map_values(|a2: AggregateExpr| a2@) =~= preaggs.push(
                        aggregates@.last()@,
                    ));
                }
            },
            None => {
            },
        }
        if next < toks.len() && matches!(&toks[next], TokE::Comma) {
            i = next + 1;
        } else {
            items_end = next;
            items_done = true;
        }
    }
    // FROM and the table name
    if !(items_end < toks.len() && kw_tok(&toks[items_end], "from")) {
        return Err(crate::strutil::chars_to_string(str_chars("malformed query")));
    }
    let table: String = if items_end + 1 < toks.len() {
        match &toks[items_end + 1] {
            TokE::Id(t) => t.clone(),
            _ => {
                return Err(crate::strutil::chars_to_string(str_chars("Table name missing")));
            },
        }
    } else {
        return Err(crate::strutil::chars_to_string(str_chars("Table name missing")));
    };
    let mut i2: usize = items_end + 2;
    // WHERE
    let mut filters: Vec<FilterExpr> = Vec::new();
    proof {
        assert(filters@.map_values(|f: FilterExpr| f@) =~= Seq::<FilterV>::empty());
    }
    if i2 < toks.len() && kw_tok(&toks[i2], "where") {
        let mut pi: usize = i2 + 1;
        let mut preds_end: usize = 0;
        let mut preds_done = false;
        while !preds_done
            invariant
                i2 + 1 <= pi <= toks@.len() + 1,
                !preds_done ==> spec_preds(tv, i2 as int + 1, Seq::empty()) == spec_preds(
                    tv,
                    pi as int,
                    filters@.map_values(|f: FilterExpr| f@),
                ),
                preds_done ==> spec_preds(tv, i2 as int + 1, Seq::empty()) == Ok::<
                    (Seq<FilterV>, int),
                    Seq<char>,
                >((filters@.map_values(|f: FilterExpr| f@), preds_end as int)),
            decreases (if preds_done { 0int } else { toks@.len() + 1 - pi }),
        {
            let ghost prefs = filters@.map_values(|f: FilterExpr| f@);
            if !(pi < toks.len() && pi + 1 < toks.len()) {
                return Err(crate::strutil::chars_to_string(str_chars("malformed query")));
            }
            let col: String = match &toks[pi] {
                TokE::Id(c) => c.clone(),
                _ => {
                    return Err(crate::strutil::chars_to_string(str_chars("malformed query")));
                },
            };
            let (f, next): (FilterExpr, usize) = if kw_tok(&toks[pi + 1], "between") {
                if toks.len() - pi > 4 && kw_tok(&toks[pi + 3], "and") {
                    let lo = match lit_of(&toks[pi + 2]) {
                        Ok(v) => v,
                        Err(e) => {
                            return Err(e);
                        },
                    };
                    let hi = match lit_of(&toks[pi + 4]) {
                        Ok(v) => v,
                        Err(e) => {
                            return Err(e);
                        },
                    };
                    (
                        FilterExpr {
                            column: col,
                            pred: Predicate::Between,
                            value: lo,
                            value_hi: Some(hi),
                        },
                        pi + 5,
                    )
                } else {
                    return Err(crate::strutil::chars_to_string(str_chars("malformed query")));
                }
            } else {
                let pr: Predicate = match &toks[pi + 1] {
                    TokE::OpEq => Predicate::Eq,
                    TokE::OpLt => Predicate::Lt,
                    TokE::OpGt => Predicate::Gt,
                    TokE::OpLe => Predicate::Le,
                    TokE::OpGe => Predicate::Ge,
                    _ => {
                        return Err(crate::strutil::chars_to_string(str_chars(
                            "malformed query",
                        )));
                    },
                };
                if pi + 2 < toks.len() {
                    let v = match lit_of(&toks[pi + 2]) {
                        Ok(v) => v,
                        Err(e) => {
                            return Err(e);
                        },
                    };
                    (FilterExpr { column: col, pred: pr, value: v, value_hi: None }, pi + 3)
                } else {
                    return Err(crate::strutil::chars_to_string(str_chars("malformed query")));
                }
            };
            filters.push(f);
            proof {
                assert(filters@.map_values(|f2: FilterExpr| f2@) =~= prefs.push(
                    filters@.last()@,
                ));
            }
            if next < toks.len() && (matches!(&toks[next], TokE::Comma) || kw_tok(
                &toks[next],
                "and",
            )) {
                pi = next + 1;
            } else {
                preds_end = next;
                preds_done = true;
            }
        }
        i2 = preds_end;
    }
    let i3 = i2;
    // GROUP BY
    let mut group_by: Vec<String> = Vec::new();
    proof {
        assert(group_by@.map_values(|s: String| s@) =~= Seq::<Seq<char>>::empty());
    }
    let mut i4: usize = i3;
    if i3 < toks.len() && toks.len() - i3 > 1 && kw_tok(&toks[i3], "group") && kw_tok(&toks[i3 + 1], "by") {
        let mut gi: usize = i3 + 2;
        let mut group_end: usize = 0;
        let mut group_done = false;
        while !group_done
            invariant
                i3 + 2 <= gi <= toks@.len() + 1,
                !group_done ==> spec_group(tv, i3 as int + 2, Seq::empty()) == spec_group(
                    tv,
                    gi as int,
                    group_by@.map_values(|s: String| s@),
                ),
                group_done ==> spec_group(tv, i3 as int + 2, Seq::empty()) == Ok::<
                    (Seq<Seq<char>>, int),
                    Seq<char>,
                >((group_by@.map_values(|s: String| s@), group_end as int)),
            decreases (if group_done { 0int } else { toks@.len() + 1 - gi }),
        {
            let ghost pregb = group_by@.map_values(|s: String| s@);
            if gi >= toks.len() {
                return Err(crate::strutil::chars_to_string(str_chars("malformed query")));
            }
            match &toks[gi] {
                TokE::Id(g) => {
                    group_by.push(g.clone());
                    proof {
                        assert(group_by@.map_values(|s: String| s@) =~= pregb.push(
                            group_by@.last()@,
                        ));
                    }
                },
                _ => {
                    return Err(crate::strutil::chars_to_string(str_chars("malformed query")));
                },
            }
            if toks.len() - gi > 2 && matches!(&toks[gi + 1], TokE::Comma) {
                gi = gi + 2;
            } else {
                group_end = gi + 1;
                group_done = true;
            }
        }
        i4 = group_end;
    }
    if !(i4 < toks.len() && toks.len() - i4 == 1 && matches!(&toks[i4], TokE::Semi)) {
        return Err(crate::strutil::chars_to_string(str_chars("malformed query")));
    }
    let req = QueryRequest {
        query: crate::strutil::chars_to_string(str_chars(sql)),
        projections,
        aggregates,
        table,
        filters,
        group_by,
    };
    Ok(req)
}

} // verus!

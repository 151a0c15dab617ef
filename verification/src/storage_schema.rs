//! The textual schema: one column per non-empty line,
//! `name ":" type (flag)*`, with exactly one column flagged as key.
//! Parsing is specified by a recursive mirror over character sequences,
//! and a canonical serializer renders exactly the form it reads back.
use vstd::prelude::*;

verus! {

use crate::strutil::dec_digits;
use crate::textscan::{
    find_char, find_char_in, lines_of, str_chars, string_range, token_bounds, tokens_of,
    trim_bounds, trim_chars,
};

#[derive(Debug, Clone, Copy, PartialEq, Eq, Structural)]
pub enum ColumnType {
    Int32,
    Int64,
    Float64,
    Bool,
    Str,
    Date,
    TimestampMs,
}

/// The column type a type token denotes.
pub open spec fn spec_col_type(s: Seq<char>) -> Option<ColumnType> {
    if s == "int32"@ {
        Some(ColumnType::Int32)
    } else if s == "int64"@ {
        Some(ColumnType::Int64)
    } else if s == "float64"@ {
        Some(ColumnType::Float64)
    } else if s == "bool"@ {
        Some(ColumnType::Bool)
    } else if s == "string"@ {
        Some(ColumnType::Str)
    } else if s == "date"@ {
        Some(ColumnType::Date)
    } else if s == "timestamp(ms)"@ {
        Some(ColumnType::TimestampMs)
    } else {
        None
    }
}

impl ColumnType {
    pub fn from_str(s: &str) -> (r: Result<ColumnType, String>)
        ensures
            match r {
                Ok(t) => spec_col_type(s@) == Some(t),
                Err(e) => spec_col_type(s@) == None::<ColumnType> && e@ == "Unknown type: "@
                    + s@,
            },
    {
        if crate::strutil::eq_str(s, "int32") {
            Ok(ColumnType::Int32)
        } else if crate::strutil::eq_str(s, "int64") {
            Ok(ColumnType::Int64)
        } else if crate::strutil::eq_str(s, "float64") {
            Ok(ColumnType::Float64)
        } else if crate::strutil::eq_str(s, "bool") {
            Ok(ColumnType::Bool)
        } else if crate::strutil::eq_str(s, "string") {
            Ok(ColumnType::Str)
        } else if crate::strutil::eq_str(s, "date") {
            Ok(ColumnType::Date)
        } else if crate::strutil::eq_str(s, "timestamp(ms)") {
            Ok(ColumnType::TimestampMs)
        } else {
            let mut m = str_chars("Unknown type: ");
            let mut rest = str_chars(s);
            m.append(&mut rest);
            Err(crate::strutil::chars_to_string(m))
        }
    }
}

#[derive(Debug, Clone)]
pub struct ColumnDef {
    pub name: String,
    pub col_type: ColumnType,
    pub nullable: bool,
    pub is_key: bool,
}

pub ghost struct ColumnDefV {
    pub name: Seq<char>,
    pub col_type: ColumnType,
    pub nullable: bool,
    pub is_key: bool,
}

impl View for ColumnDef {
    type V = ColumnDefV;

    open spec fn view(&self) -> ColumnDefV {
        ColumnDefV {
            name: self.name@,
            col_type: self.col_type,
            nullable: self.nullable,
            is_key: self.is_key,
        }
    }
}

/// Flag tokens folded into a column definition.
pub open spec fn spec_flags(d: ColumnDefV, toks: Seq<Seq<char>>) -> Result<ColumnDefV, Seq<char>>
    decreases toks.len(),
{
    if toks.len() == 0 {
        Ok(d)
    } else if toks[0] == "nullable"@ {
        if d.nullable {
            Err("Duplicate 'nullable' flag"@)
        } else {
            spec_flags(ColumnDefV { nullable: true, ..d }, toks.drop_first())
        }
    } else if toks[0] == "key"@ {
        if d.is_key {
            Err("Duplicate 'key' flag"@)
        } else {
            spec_flags(ColumnDefV { is_key: true, ..d }, toks.drop_first())
        }
    } else {
        Err("Unknown flag: "@ + toks[0])
    }
}

/// What parsing one schema line yields: the column, or the error text.
pub open spec fn spec_parse_schema_line(raw: Seq<char>) -> Result<ColumnDefV, Seq<char>> {
    let line = trim_chars(raw);
    if line.len() == 0 {
        Err("Empty schema line"@)
    } else {
        match find_char(line, ':') {
            None => Err("Missing ':' in schema line"@),
            Some(ci) => {
                let name = trim_chars(line.take(ci));
                let rest = line.skip(ci + 1);
                if name.len() == 0 {
                    Err("Column name is empty"@)
                } else {
                    let toks = tokens_of(rest);
                    if toks.len() == 0 {
                        Err("Missing column type"@)
                    } else {
                        match spec_col_type(toks[0]) {
                            None => Err("Unknown type: "@ + toks[0]),
                            Some(t) => spec_flags(
                                ColumnDefV { name, col_type: t, nullable: false, is_key: false },
                                toks.drop_first(),
                            ),
                        }
                    }
                }
            },
        }
    }
}

/// Parse one schema line held in `v[from..to]`.
#[verifier::rlimit(100)]
#[verifier::spinoff_prover]
pub fn parse_schema_line_chars(v: &Vec<char>, from: usize, to: usize) -> (r: Result<
    ColumnDef,
    String,
>)
    requires
        from <= to <= v@.len(),
    ensures
        match r {
            Ok(d) => spec_parse_schema_line(v@.subrange(from as int, to as int))
                == Ok::<ColumnDefV, Seq<char>>(d@),
            Err(e) => spec_parse_schema_line(v@.subrange(from as int, to as int))
                == Err::<ColumnDefV, Seq<char>>(e@),
        },
{
    let ghost raw = v@.subrange(from as int, to as int);
    let (a, b) = trim_bounds(v, from, to);
    let ghost line = trim_chars(raw);
    if a == b {
        return Err(crate::strutil::chars_to_string(str_chars("Empty schema line")));
    }
    match find_char_in(v, a, b, ':') {
        None => Err(crate::strutil::chars_to_string(str_chars("Missing ':' in schema line"))),
        Some(colon) => {
            proof {
                assert(line.take(colon - a) =~= v@.subrange(a as int, colon as int));
                assert(line.skip(colon - a + 1) =~= v@.subrange(colon + 1, b as int));
            }
            let (na, nb) = trim_bounds(v, a, colon);
            if na == nb {
                return Err(crate::strutil::chars_to_string(str_chars("Column name is empty")));
            }
            let name = string_range(v, na, nb);
            let toks = token_bounds(v, colon + 1, b);
            let ghost tokviews = tokens_of(line.skip(colon - a + 1));
            if toks.len() == 0 {
                return Err(crate::strutil::chars_to_string(str_chars("Missing column type")));
            }
            proof {
                assert(tokviews == crate::textscan::bounds_views(v@, toks@));
                assert(tokviews[0] == v@.subrange(toks@[0].0 as int, toks@[0].1 as int)) by {
                    assert(tokviews[0] == crate::textscan::bounds_views(v@, toks@)[0]);
                };
                assert forall|t2: int|
                    0 <= t2 < toks@.len() implies ((#[trigger] toks@[t2]).0 <= toks@[t2].1
                        <= v@.len()) by {
                    assert(toks@[t2].0 < toks@[t2].1);
                }
            }
            parse_type_and_flags(v, &toks, Ghost(tokviews), name, Ghost(raw))
        },
    }
}

/// Parse the type token and fold the flag tokens into the column.
#[verifier::loop_isolation(false)]
#[verifier::rlimit(100)]
fn parse_type_and_flags(
    v: &Vec<char>,
    toks: &Vec<(usize, usize)>,
    Ghost(tokviews): Ghost<Seq<Seq<char>>>,
    name: String,
    Ghost(raw): Ghost<Seq<char>>,
) -> (r: Result<ColumnDef, String>)
    requires
        tokviews == crate::textscan::bounds_views(v@, toks@),
        toks@.len() >= 1,
        forall|t2: int|
            0 <= t2 < toks@.len() ==> ((#[trigger] toks@[t2]).0 <= toks@[t2].1 <= v@.len()),
        ({
            let first = spec_parse_schema_line(raw);
            &&& (spec_col_type(tokviews[0]) matches Some(t) ==> first == spec_flags(
                ColumnDefV { name: name@, col_type: t, nullable: false, is_key: false },
                tokviews.skip(1),
            ))
            &&& (spec_col_type(tokviews[0]) is None ==> first == Err::<ColumnDefV, Seq<char>>(
                "Unknown type: "@ + tokviews[0],
            ))
        }),
    ensures
        match r {
            Ok(d) => spec_parse_schema_line(raw) == Ok::<ColumnDefV, Seq<char>>(d@),
            Err(e) => spec_parse_schema_line(raw) == Err::<ColumnDefV, Seq<char>>(e@),
        },
{
    proof {
        assert(tokviews[0] == crate::textscan::bounds_views(v@, toks@)[0]);
    }
    let type_tok = string_range(v, toks[0].0, toks[0].1);
    match ColumnType::from_str(type_tok.as_str()) {
        Err(e) => Err(e),
        Ok(t) => {
            let d0e = ColumnDef { name, col_type: t, nullable: false, is_key: false };
            proof {
                assert(tokviews.drop_first() =~= tokviews.skip(1));
            }
            fold_flags(v, toks, Ghost(tokviews), d0e, Ghost(raw))
        },
    }
}

/// Fold the flag tokens after the type token into the column.
#[verifier::loop_isolation(false)]
#[verifier::rlimit(100)]
fn fold_flags(
    v: &Vec<char>,
    toks: &Vec<(usize, usize)>,
    Ghost(tokviews): Ghost<Seq<Seq<char>>>,
    d0e: ColumnDef,
    Ghost(raw): Ghost<Seq<char>>,
) -> (r: Result<ColumnDef, String>)
    requires
        tokviews == crate::textscan::bounds_views(v@, toks@),
        toks@.len() >= 1,
        forall|t2: int|
            0 <= t2 < toks@.len() ==> ((#[trigger] toks@[t2]).0 <= toks@[t2].1 <= v@.len()),
        !d0e@.nullable && !d0e@.is_key,
        spec_parse_schema_line(raw) == spec_flags(d0e@, tokviews.skip(1)),
    ensures
        match r {
            Ok(d) => spec_parse_schema_line(raw) == Ok::<ColumnDefV, Seq<char>>(d@),
            Err(e) => spec_parse_schema_line(raw) == Err::<ColumnDefV, Seq<char>>(e@),
        },
{
    let ghost d0 = d0e@;
    proof {
        assert(toks@.len() == tokviews.len());
    }
    let mut d = d0e;
    let mut i: usize = 1;
    while i < toks.len()
        invariant
            1 <= i <= toks@.len(),
            d@.name == d0.name && d@.col_type == d0.col_type,
            spec_flags(d@, tokviews.skip(i as int)) == spec_flags(d0, tokviews.skip(1)),
        decreases toks@.len() - i,
    {
        proof {
            assert(tokviews[i as int] == crate::textscan::bounds_views(v@, toks@)[i as int]);
            assert(tokviews.skip(i as int)[0] == tokviews[i as int]);
            assert(tokviews.skip(i as int).drop_first() =~= tokviews.skip(i as int + 1));
        }
        let tok = string_range(v, toks[i].0, toks[i].1);
        if crate::strutil::eq_str(tok.as_str(), "nullable") {
            if d.nullable {
                proof {
                    assert(spec_flags(d@, tokviews.skip(i as int)) == Err::<
                        ColumnDefV,
                        Seq<char>,
                    >("Duplicate 'nullable' flag"@));
                }
                return Err(crate::strutil::chars_to_string(str_chars(
                    "Duplicate 'nullable' flag",
                )));
            }
            d.nullable = true;
        } else if crate::strutil::eq_str(tok.as_str(), "key") {
            if d.is_key {
                proof {
                    assert(spec_flags(d@, tokviews.skip(i as int)) == Err::<
                        ColumnDefV,
                        Seq<char>,
                    >("Duplicate 'key' flag"@));
                }
                return Err(crate::strutil::chars_to_string(str_chars("Duplicate 'key' flag")));
            }
            d.is_key = true;
        } else {
            proof {
                assert(spec_flags(d@, tokviews.skip(i as int)) == Err::<ColumnDefV, Seq<char>>(
                    "Unknown flag: "@ + tokviews[i as int],
                ));
            }
            let mut m = str_chars("Unknown flag: ");
            let mut rest = str_chars(tok.as_str());
            m.append(&mut rest);
            return Err(crate::strutil::chars_to_string(m));
        }
        i += 1;
    }
    proof {
        assert(tokviews.skip(toks@.len() as int) =~= Seq::<Seq<char>>::empty());
    }
    Ok(d)
}

/// Parse one schema line.
pub fn parse_schema_line(line: &str) -> (r: Result<ColumnDef, String>)
    ensures
        match r {
            Ok(d) => spec_parse_schema_line(line@) == Ok::<ColumnDefV, Seq<char>>(d@),
            Err(e) => spec_parse_schema_line(line@) == Err::<ColumnDefV, Seq<char>>(e@),
        },
{
    let v = str_chars(line);
    let n = v.len();
    proof {
        assert(v@.subrange(0, n as int) =~= line@);
    }
    parse_schema_line_chars(&v, 0, n)
}

/// Lines folded into a schema, with line-tagged errors and the key count
/// checked at the end.
pub open spec fn spec_parse_lines(
    ls: Seq<Seq<char>>,
    num: nat,
    acc: Seq<ColumnDefV>,
    keys: nat,
) -> Result<Seq<ColumnDefV>, Seq<char>>
    decreases ls.len(),
{
    if ls.len() == 0 {
        if keys == 0 {
            Err("Schema must contain exactly one 'key' column"@)
        } else if keys > 1 {
            Err("Schema contains more than one 'key' column"@)
        } else {
            Ok(acc)
        }
    } else if trim_chars(ls[0]).len() == 0 {
        spec_parse_lines(ls.drop_first(), num + 1, acc, keys)
    } else {
        match spec_parse_schema_line(ls[0]) {
            Ok(d) => spec_parse_lines(
                ls.drop_first(),
                num + 1,
                acc.push(d),
                keys + (if d.is_key {
                    1nat
                } else {
                    0nat
                }),
            ),
            Err(e) => Err("Line "@ + dec_digits(num) + ": "@ + e),
        }
    }
}

/// What parsing a schema text yields.
pub open spec fn spec_parse_schema_file(s: Seq<char>) -> Result<Seq<ColumnDefV>, Seq<char>> {
    spec_parse_lines(lines_of(s), 1, Seq::empty(), 0)
}

/// Parse a whole schema text.
pub fn parse_schema_file(contents: &str) -> (r: Result<Vec<ColumnDef>, String>)
    ensures
        match r {
            Ok(cols) => spec_parse_schema_file(contents@) == Ok::<Seq<ColumnDefV>, Seq<char>>(
                cols@.map_values(|c: ColumnDef| c@),
            ),
            Err(e) => spec_parse_schema_file(contents@) == Err::<Seq<ColumnDefV>, Seq<char>>(e@),
        },
{
    let v = str_chars(contents);
    let n = v.len();
    let mut acc: Vec<ColumnDef> = Vec::new();
    let mut keys: u128 = 0;
    let mut num: u128 = 1;
    let mut pos: usize = 0;
    proof {
        assert(v@.subrange(0, n as int) =~= contents@);
        assert(acc@.map_values(|c: ColumnDef| c@) =~= Seq::<ColumnDefV>::empty());
    }
    while pos < n
        invariant
            pos <= n,
            n == v@.len(),
            num <= pos + 1,
            keys + 1 <= num,
            spec_parse_lines(
                lines_of(v@.subrange(pos as int, n as int)),
                num as nat,
                acc@.map_values(|c: ColumnDef| c@),
                keys as nat,
            ) == spec_parse_schema_file(contents@),
        decreases n - pos,
    {
        let ghost restchars = v@.subrange(pos as int, n as int);
        let ghost rest = lines_of(restchars);
        let (line_lo, line_hi, next_pos): (usize, usize, usize) = match find_char_in(
            &v,
            pos,
            n,
            '\n',
        ) {
            Some(k) => {
                let hi: usize = if k > pos && v[k - 1] == '\r' {
                    k - 1
                } else {
                    k
                };
                proof {
                    assert(restchars.take(k - pos) =~= v@.subrange(pos as int, k as int));
                    assert(crate::textscan::strip_cr(restchars.take(k - pos)) =~= v@.subrange(
                        pos as int,
                        hi as int,
                    ));
                    assert(restchars.skip(k - pos + 1) =~= v@.subrange(k + 1, n as int));
                    assert(rest == seq![v@.subrange(pos as int, hi as int)] + lines_of(
                        v@.subrange(k + 1, n as int),
                    ));
                }
                (pos, hi, k + 1)
            },
            None => {
                proof {
                    assert(rest =~= seq![restchars]);
                    assert(lines_of(v@.subrange(n as int, n as int)) =~= Seq::<Seq<char>>::empty());
                }
                (pos, n, n)
            },
        };
        proof {
            assert(rest.drop_first() =~= lines_of(v@.subrange(next_pos as int, n as int)));
            assert(rest[0] == v@.subrange(line_lo as int, line_hi as int));
        }
        let (ta, tb) = trim_bounds(&v, line_lo, line_hi);
        if ta == tb {
            // blank line: skipped
        } else {
            match parse_schema_line_chars(&v, line_lo, line_hi) {
                Ok(d) => {
                    let ghost accpre = acc@.map_values(|c: ColumnDef| c@);
                    if d.is_key {
                        keys += 1;
                    }
                    acc.push(d);
                    proof {
                        assert(acc@.map_values(|c: ColumnDef| c@) =~= accpre.push(d@));
                    }
                },
                Err(e) => {
                    let mut m = str_chars("Line ");
                    crate::strutil::push_dec_u128(num, &mut m);
                    let mut sep = str_chars(": ");
                    m.append(&mut sep);
                    let mut etail = str_chars(e.as_str());
                    m.append(&mut etail);
                    return Err(crate::strutil::chars_to_string(m));
                },
            }
        }
        num += 1;
        pos = next_pos;
    }
    proof {
        assert(v@.subrange(pos as int, n as int).len() == 0);
        assert(lines_of(v@.subrange(pos as int, n as int)) =~= Seq::<Seq<char>>::empty());
    }
    if keys == 0 {
        Err(crate::strutil::chars_to_string(str_chars(
            "Schema must contain exactly one 'key' column",
        )))
    } else if keys > 1 {
        Err(crate::strutil::chars_to_string(str_chars(
            "Schema contains more than one 'key' column",
        )))
    } else {
        Ok(acc)
    }
}


/// The token of a column type.
pub open spec fn type_token(t: ColumnType) -> Seq<char> {
    match t {
        ColumnType::Int32 => "int32"@,
        ColumnType::Int64 => "int64"@,
        ColumnType::Float64 => "float64"@,
        ColumnType::Bool => "bool"@,
        ColumnType::Str => "string"@,
        ColumnType::Date => "date"@,
        ColumnType::TimestampMs => "timestamp(ms)"@,
    }
}

/// The canonical line of one column.
pub open spec fn spec_render_column(d: ColumnDefV) -> Seq<char> {
    d.name + ": "@ + type_token(d.col_type) + (if d.nullable {
        " nullable"@
    } else {
        Seq::<char>::empty()
    }) + (if d.is_key {
        " key"@
    } else {
        Seq::<char>::empty()
    }) + "\n"@
}

/// The canonical text of a schema, one line per column.
pub open spec fn spec_render_schema(cols: Seq<ColumnDefV>, i: int) -> Seq<char>
    decreases cols.len() - i,
{
    if i < 0 || i >= cols.len() {
        Seq::empty()
    } else {
        spec_render_column(cols[i]) + spec_render_schema(cols, i + 1)
    }
}

fn type_token_e(t: ColumnType) -> (r: Vec<char>)
    ensures
        r@ == type_token(t),
{
    match t {
        ColumnType::Int32 => str_chars("int32"),
        ColumnType::Int64 => str_chars("int64"),
        ColumnType::Float64 => str_chars("float64"),
        ColumnType::Bool => str_chars("bool"),
        ColumnType::Str => str_chars("string"),
        ColumnType::Date => str_chars("date"),
        ColumnType::TimestampMs => str_chars("timestamp(ms)"),
    }
}

/// Render a schema in the canonical form the parser reads back.
#[verifier::loop_isolation(false)]
pub fn schema_to_string(cols: &Vec<ColumnDef>) -> (r: String)
    ensures
        r@ == spec_render_schema(cols@.map_values(|c: ColumnDef| c@), 0),
{
    let ghost cv = cols@.map_values(|c: ColumnDef| c@);
    let mut out: Vec<char> = Vec::new();
    let mut i: usize = 0;
    proof {
        assert(spec_render_schema(cv, 0) == out@ + spec_render_schema(cv, 0));
    }
    while i < cols.len()
        invariant
            i <= cols@.len(),
            spec_render_schema(cv, 0) == out@ + spec_render_schema(cv, i as int),
        decreases cols@.len() - i,
    {
        let ghost preout = out@;
        let mut nm = str_chars(cols[i].name.as_str());
        out.append(&mut nm);
        let mut sep = str_chars(": ");
        out.append(&mut sep);
        let mut tok = type_token_e(cols[i].col_type);
        out.append(&mut tok);
        if cols[i].nullable {
            let mut fl = str_chars(" nullable");
            out.append(&mut fl);
        }
        if cols[i].is_key {
            let mut fl = str_chars(" key");
            out.append(&mut fl);
        }
        let mut nl = str_chars("\n");
        out.append(&mut nl);
        i += 1;
        proof {
            assert(out@ =~= preout + spec_render_column(cv[i - 1]));
            assert(spec_render_schema(cv, i - 1) == spec_render_column(cv[i - 1])
                + spec_render_schema(cv, i as int));
            assert(preout + (spec_render_column(cv[i - 1]) + spec_render_schema(cv, i as int))
                =~= (preout + spec_render_column(cv[i - 1])) + spec_render_schema(cv, i as int));
        }
    }
    proof {
        assert(out@ + Seq::<char>::empty() =~= out@);
    }
    crate::strutil::chars_to_string(out)
}


/// A column the canonical form can carry faithfully: a non-empty name
/// without whitespace or a colon.
pub open spec fn renderable_col(d: ColumnDefV) -> bool {
    d.name.len() > 0 && (forall|i: int|
        0 <= i < d.name.len() ==> !crate::textscan::is_ws(#[trigger] d.name[i]) && d.name[i]
            != ':')
}

/// The canonical line of a column, without its newline.
pub open spec fn col_line(d: ColumnDefV) -> Seq<char> {
    d.name + ": "@ + type_token(d.col_type) + (if d.nullable {
        " nullable"@
    } else {
        Seq::<char>::empty()
    }) + (if d.is_key {
        " key"@
    } else {
        Seq::<char>::empty()
    })
}

/// The flag tokens the canonical line carries.
pub open spec fn flag_tokens(d: ColumnDefV) -> Seq<Seq<char>> {
    (if d.nullable {
        seq!["nullable"@]
    } else {
        Seq::<Seq<char>>::empty()
    }) + (if d.is_key {
        seq!["key"@]
    } else {
        Seq::<Seq<char>>::empty()
    })
}

/// Every type token is plain text the tokenizer keeps whole, and reads
/// back as its own type.
proof fn lemma_type_token_facts(t: ColumnType)
    ensures
        type_token(t).len() > 0,
        forall|i: int|
            0 <= i < type_token(t).len() ==> !crate::textscan::is_ws(
                #[trigger] type_token(t)[i],
            ) && type_token(t)[i] != ':',
        spec_col_type(type_token(t)) == Some(t),
{
    reveal_strlit("int32");
    reveal_strlit("int64");
    reveal_strlit("float64");
    reveal_strlit("bool");
    reveal_strlit("string");
    reveal_strlit("date");
    reveal_strlit("timestamp(ms)");
    match t {
        ColumnType::Int32 => {
            assert("int32"@ =~= seq!['i', 'n', 't', '3', '2']);
        },
        ColumnType::Int64 => {
            assert("int64"@ =~= seq!['i', 'n', 't', '6', '4']);
            assert("int64"@ != "int32"@);
        },
        ColumnType::Float64 => {
            assert("float64"@ =~= seq!['f', 'l', 'o', 'a', 't', '6', '4']);
        },
        ColumnType::Bool => {
            assert("bool"@ =~= seq!['b', 'o', 'o', 'l']);
        },
        ColumnType::Str => {
            assert("string"@ =~= seq!['s', 't', 'r', 'i', 'n', 'g']);
        },
        ColumnType::Date => {
            assert("date"@ =~= seq!['d', 'a', 't', 'e']);
        },
        ColumnType::TimestampMs => {
            assert("timestamp(ms)"@ =~= seq![
                't', 'i', 'm', 'e', 's', 't', 'a', 'm', 'p', '(', 'm', 's', ')',
            ]);
        },
    }
}

/// The flag words are plain text the tokenizer keeps whole, and differ.
proof fn lemma_flag_facts()
    ensures
        "nullable"@.len() > 0,
        "key"@.len() > 0,
        forall|i: int|
            0 <= i < "nullable"@.len() ==> !crate::textscan::is_ws(#[trigger] "nullable"@[i])
                && "nullable"@[i] != ':',
        forall|i: int|
            0 <= i < "key"@.len() ==> !crate::textscan::is_ws(#[trigger] "key"@[i]) && "key"@[i]
                != ':',
        "nullable"@ != "key"@,
{
    reveal_strlit("nullable");
    reveal_strlit("key");
    assert("nullable"@ =~= seq!['n', 'u', 'l', 'l', 'a', 'b', 'l', 'e']);
    assert("key"@ =~= seq!['k', 'e', 'y']);
}

/// Splitting off a newline-terminated first line.
proof fn lemma_lines_cons(line: Seq<char>, rest: Seq<char>)
    requires
        forall|i: int| 0 <= i < line.len() ==> #[trigger] line[i] != '\n',
        line.len() == 0 || line.last() != '\r',
    ensures
        lines_of(line + seq!['\n'] + rest) == seq![line] + lines_of(rest),
{
    let cat = line + seq!['\n'] + rest;
    assert(cat[line.len() as int] == '\n');
    crate::textscan::lemma_find_char_at(cat, '\n', line.len() as int);
    assert(cat.take(line.len() as int) =~= line);
    assert(crate::textscan::strip_cr(line) == line);
    assert(cat.skip(line.len() as int + 1) =~= rest);
}


/// The canonical line of a renderable column parses back to it, is free
/// of newlines, and survives trimming unchanged.
#[verifier::rlimit(100)]
#[verifier::spinoff_prover]
proof fn lemma_render_line(d: ColumnDefV)
    requires
        renderable_col(d),
    ensures
        spec_parse_schema_line(col_line(d)) == Ok::<ColumnDefV, Seq<char>>(d),
        forall|i: int| 0 <= i < col_line(d).len() ==> #[trigger] col_line(d)[i] != '\n',
        col_line(d).len() > 0 && col_line(d).last() != '\r',
        trim_chars(col_line(d)) == col_line(d),
{
    let name = d.name;
    let tok = type_token(d.col_type);
    let fla: Seq<char> = if d.nullable {
        " nullable"@
    } else {
        Seq::<char>::empty()
    };
    let flb: Seq<char> = if d.is_key {
        " key"@
    } else {
        Seq::<char>::empty()
    };
    let line = col_line(d);
    reveal_strlit(": ");
    reveal_strlit(" nullable");
    reveal_strlit(" key");
    reveal_strlit("nullable");
    reveal_strlit("key");
    assert(": "@ =~= seq![':', ' ']);
    assert(" nullable"@ =~= seq![' ', 'n', 'u', 'l', 'l', 'a', 'b', 'l', 'e']);
    assert(" key"@ =~= seq![' ', 'k', 'e', 'y']);
    assert("nullable"@ =~= seq!['n', 'u', 'l', 'l', 'a', 'b', 'l', 'e']);
    assert("key"@ =~= seq!['k', 'e', 'y']);
    lemma_type_token_facts(d.col_type);
    let n0 = name.len() as int;
    let tk = tok.len() as int;
    assert(line =~= name + seq![':', ' '] + tok + fla + flb);
    // Each region of the line, by index.
    assert(forall|i: int| 0 <= i < n0 ==> #[trigger] line[i] == name[i]);
    assert(line[n0] == ':');
    assert(line[n0 + 1] == ' ');
    assert(forall|i: int| 0 <= i < tk ==> #[trigger] line[n0 + 2 + i] == tok[i]);
    assert(forall|i: int|
        0 <= i < fla.len() ==> #[trigger] line[n0 + 2 + tk + i] == fla[i]);
    assert(forall|i: int|
        0 <= i < flb.len() ==> #[trigger] line[n0 + 2 + tk + fla.len() + i] == flb[i]);
    // No newline anywhere, and no trailing carriage return.
    assert forall|i: int| 0 <= i < line.len() implies #[trigger] line[i] != '\n' by {
        if i < n0 {
            assert(!crate::textscan::is_ws(name[i]));
        } else if i < n0 + 2 {
        } else if i < n0 + 2 + tk {
            assert(!crate::textscan::is_ws(tok[i - n0 - 2]));
        }
    }
    assert(line.last() != '\r') by {
        if d.is_key {
            assert(line.last() == 'y');
        } else if d.nullable {
            assert(line.last() == 'e');
        } else {
            assert(line.last() == tok[tk - 1]);
            assert(!crate::textscan::is_ws(tok[tk - 1]));
        }
    }
    // Trimming leaves the line alone: both edges are not whitespace.
    assert(!crate::textscan::is_ws(line[0]));
    assert(!crate::textscan::is_ws(line.last())) by {
        if d.is_key {
            assert(line.last() == 'y');
        } else if d.nullable {
            assert(line.last() == 'e');
        }
    }
    crate::textscan::lemma_trim_range(line, 0, line.len() as int);
    assert(line.subrange(0, line.len() as int) =~= line);
    // The colon ends the name.
    crate::textscan::lemma_find_char_at(line, ':', n0);
    assert(line.take(n0) =~= name);
    crate::textscan::lemma_trim_range(name, 0, n0);
    assert(name.subrange(0, n0) =~= name);
    // The remainder tokenizes as the type token and the flag words.
    let rest = line.skip(n0 + 1);
    assert(rest =~= seq![' '] + tok + fla + flb);
    assert(rest.drop_first() =~= tok + fla + flb);
    let s1 = tok + fla + flb;
    assert(tokens_of(rest) == tokens_of(s1));
    assert(forall|j: int| 0 <= j < tk ==> !crate::textscan::is_ws(#[trigger] s1[j]));
    assert(tk == s1.len() || crate::textscan::is_ws(s1[tk]));
    crate::textscan::lemma_run_len_at(s1, tk);
    assert(s1.take(tk) =~= tok);
    assert(s1.skip(tk) =~= fla + flb);
    assert(tokens_of(s1) == seq![tok] + tokens_of(fla + flb));
    assert(tokens_of(fla + flb) == flag_tokens(d)) by {
        if d.nullable {
            let s2 = fla + flb;
            assert(s2.drop_first() =~= "nullable"@ + flb);
            let s3 = "nullable"@ + flb;
            assert(forall|j: int| 0 <= j < 8 ==> !crate::textscan::is_ws(#[trigger] s3[j]));
            assert(8 == s3.len() || crate::textscan::is_ws(s3[8]));
            crate::textscan::lemma_run_len_at(s3, 8);
            assert(s3.take(8) =~= "nullable"@);
            assert(s3.skip(8) =~= flb);
            assert(crate::textscan::is_ws(s2[0]));
            assert(tokens_of(s2) == tokens_of(s3));
            assert(tokens_of(s3) == seq![s3.take(8)] + tokens_of(s3.skip(8)));
            assert(tokens_of(s2) == seq!["nullable"@] + tokens_of(flb));
        }
        if d.is_key {
            assert(flb.drop_first() =~= "key"@);
            assert(forall|j: int| 0 <= j < 3 ==> !crate::textscan::is_ws(#[trigger] "key"@[j]));
            crate::textscan::lemma_run_len_at("key"@, 3);
            assert("key"@.take(3) =~= "key"@);
            assert("key"@.skip(3) =~= Seq::<char>::empty());
            assert(crate::textscan::is_ws(flb[0]));
            assert(tokens_of(flb) == tokens_of("key"@));
            assert(tokens_of("key"@) == seq!["key"@.take(3)] + tokens_of("key"@.skip(3)));
            assert(tokens_of(Seq::<char>::empty()) =~= Seq::<Seq<char>>::empty());
            assert(tokens_of(flb) =~= seq!["key"@]);
        } else {
            assert(tokens_of(flb) =~= Seq::<Seq<char>>::empty());
        }
        if d.nullable {
            assert(tokens_of(fla + flb) =~= seq!["nullable"@] + tokens_of(flb));
        } else {
            assert(fla + flb =~= flb);
        }
        assert(tokens_of(fla + flb) =~= flag_tokens(d));
    }
    // The parse now unfolds: type token first, then the flags.
    let toks = tokens_of(rest);
    assert(toks =~= seq![tok] + flag_tokens(d));
    assert(toks[0] == tok);
    assert(spec_col_type(tok) == Some(d.col_type));
    assert(toks.drop_first() =~= flag_tokens(d));
    let d0 = ColumnDefV { name, col_type: d.col_type, nullable: false, is_key: false };
    assert(spec_flags(d0, flag_tokens(d)) == Ok::<ColumnDefV, Seq<char>>(d)) by {
        assert("nullable"@ != "key"@);
        let ts = flag_tokens(d);
        if d.nullable && d.is_key {
            assert(ts =~= seq!["nullable"@, "key"@]);
            let d1 = ColumnDefV { nullable: true, ..d0 };
            let d2 = ColumnDefV { is_key: true, ..d1 };
            assert(ts.drop_first() =~= seq!["key"@]);
            assert(seq!["key"@].drop_first() =~= Seq::<Seq<char>>::empty());
            assert(spec_flags(d0, ts) == spec_flags(d1, seq!["key"@]));
            assert(spec_flags(d1, seq!["key"@]) == spec_flags(d2, Seq::<Seq<char>>::empty()));
            assert(spec_flags(d2, Seq::<Seq<char>>::empty()) == Ok::<ColumnDefV, Seq<char>>(d2));
            assert(d2 == d);
        } else if d.nullable {
            assert(ts =~= seq!["nullable"@]);
            let d1 = ColumnDefV { nullable: true, ..d0 };
            assert(ts.drop_first() =~= Seq::<Seq<char>>::empty());
            assert(spec_flags(d0, ts) == spec_flags(d1, Seq::<Seq<char>>::empty()));
            assert(spec_flags(d1, Seq::<Seq<char>>::empty()) == Ok::<ColumnDefV, Seq<char>>(d1));
            assert(d1 == d);
        } else if d.is_key {
            assert(ts =~= seq!["key"@]);
            let d1 = ColumnDefV { is_key: true, ..d0 };
            assert(ts.drop_first() =~= Seq::<Seq<char>>::empty());
            assert(spec_flags(d0, ts) == spec_flags(d1, Seq::<Seq<char>>::empty()));
            assert(spec_flags(d1, Seq::<Seq<char>>::empty()) == Ok::<ColumnDefV, Seq<char>>(d1));
            assert(d1 == d);
        } else {
            assert(ts =~= Seq::<Seq<char>>::empty());
            assert(spec_flags(d0, ts) == Ok::<ColumnDefV, Seq<char>>(d0));
            assert(d0 == d);
        }
    }
}


/// How many columns of a schema carry the key flag.
pub open spec fn key_count(cols: Seq<ColumnDefV>) -> nat
    decreases cols.len(),
{
    if cols.len() == 0 {
        0
    } else {
        (if cols[0].is_key {
            1nat
        } else {
            0nat
        }) + key_count(cols.drop_first())
    }
}

/// The line fold over a rendered suffix appends exactly that suffix.
proof fn lemma_parse_render_lines(
    cols: Seq<ColumnDefV>,
    i: int,
    num: nat,
    acc: Seq<ColumnDefV>,
    keys: nat,
)
    requires
        0 <= i <= cols.len(),
        forall|j: int| 0 <= j < cols.len() ==> renderable_col(#[trigger] cols[j]),
        keys + key_count(cols.skip(i)) == 1,
    ensures
        spec_parse_lines(lines_of(spec_render_schema(cols, i)), num, acc, keys)
            == Ok::<Seq<ColumnDefV>, Seq<char>>(acc + cols.skip(i)),
    decreases cols.len() - i,
{
    reveal_strlit("\n");
    assert("\n"@ =~= seq!['\n']);
    if i == cols.len() {
        assert(cols.skip(i) =~= Seq::<ColumnDefV>::empty());
        assert(key_count(cols.skip(i)) == 0);
        assert(lines_of(spec_render_schema(cols, i)) =~= Seq::<Seq<char>>::empty());
        assert(keys == 1);
        assert(acc + cols.skip(i) =~= acc);
    } else {
        let d = cols[i];
        lemma_render_line(d);
        let line = col_line(d);
        let rest = spec_render_schema(cols, i + 1);
        assert(spec_render_column(d) =~= line + seq!['\n']);
        assert(spec_render_schema(cols, i) =~= line + seq!['\n'] + rest);
        lemma_lines_cons(line, rest);
        let ls = lines_of(spec_render_schema(cols, i));
        assert(ls == seq![line] + lines_of(rest));
        assert(ls[0] == line);
        assert(ls.drop_first() =~= lines_of(rest));
        assert(trim_chars(ls[0]).len() > 0);
        assert(spec_parse_schema_line(ls[0]) == Ok::<ColumnDefV, Seq<char>>(d));
        let dk: nat = if d.is_key {
            1nat
        } else {
            0nat
        };
        assert(cols.skip(i)[0] == d);
        assert(cols.skip(i).drop_first() =~= cols.skip(i + 1));
        assert(key_count(cols.skip(i)) == dk + key_count(cols.skip(i + 1)));
        lemma_parse_render_lines(cols, i + 1, num + 1, acc.push(d), keys + dk);
        assert(spec_parse_lines(ls, num, acc, keys) == spec_parse_lines(
            ls.drop_first(),
            num + 1,
            acc.push(d),
            keys + dk,
        ));
        assert(acc.push(d) + cols.skip(i + 1) =~= acc + cols.skip(i));
    }
}

/// Round trip: the canonical text of a schema of renderable columns, with
/// exactly one key column, parses back to the very same columns.
pub proof fn lemma_schema_round_trip(cols: Seq<ColumnDefV>)
    requires
        forall|j: int| 0 <= j < cols.len() ==> renderable_col(#[trigger] cols[j]),
        key_count(cols) == 1,
    ensures
        spec_parse_schema_file(spec_render_schema(cols, 0)) == Ok::<Seq<ColumnDefV>, Seq<char>>(
            cols,
        ),
{
    assert(cols.skip(0) =~= cols);
    lemma_parse_render_lines(cols, 0, 1, Seq::empty(), 0);
    assert(Seq::<ColumnDefV>::empty() + cols =~= cols);
}


} // verus!

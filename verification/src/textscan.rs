//! Character-level scanning: whitespace trimming, token splitting and
//! line splitting, each specified by a recursive function over `Seq<char>`
//! and implemented by index scans proved equal to it.
use vstd::prelude::*;

verus! {

use vstd::std_specs::iter::IteratorSpec;

/// Whitespace, as the schema and query grammars use it.
pub open spec fn is_ws(c: char) -> bool {
    c == ' ' || c == '\t' || c == '\r' || c == '\n'
}

pub fn ws_char(c: char) -> (r: bool)
    ensures
        r == is_ws(c),
{
    c == ' ' || c == '\t' || c == '\r' || c == '\n'
}

/// The characters of a string, in order.
pub fn str_chars(s: &str) -> (r: Vec<char>)
    ensures
        r@ == s@,
{
    broadcast use vstd::string::axiom_spec_iter;
    broadcast use vstd::string::next_postcondition;

    let mut it = s.chars();
    let mut out: Vec<char> = Vec::new();
    loop
        invariant
            it.obeys_prophetic_iter_laws(),
            it.decrease() is Some,
            out@ + it.remaining() == s@,
        decreases it.decrease()->0,
    {
        match it.next() {
            Some(c) => {
                out.push(c);
                proof {
                    assert(out@ + it.remaining() =~= s@);
                }
            },
            None => {
                proof {
                    assert(it.remaining().len() == 0);
                    assert(out@ + it.remaining() == s@);
                    assert(out@ =~= s@);
                }
                return out;
            },
        }
    }
}

/// Copy a range of characters.
pub fn chars_range(v: &Vec<char>, a: usize, b: usize) -> (r: Vec<char>)
    requires
        a <= b <= v@.len(),
    ensures
        r@ == v@.subrange(a as int, b as int),
{
    let mut out: Vec<char> = Vec::new();
    let mut i: usize = a;
    while i < b
        invariant
            a <= i <= b <= v@.len(),
            out@ == v@.subrange(a as int, i as int),
        decreases b - i,
    {
        out.push(v[i]);
        i += 1;
        proof {
            assert(out@ =~= v@.subrange(a as int, i as int));
        }
    }
    out
}

/// A range of characters as a fresh string.
pub fn string_range(v: &Vec<char>, a: usize, b: usize) -> (r: String)
    requires
        a <= b <= v@.len(),
    ensures
        r@ == v@.subrange(a as int, b as int),
{
    crate::strutil::chars_to_string(chars_range(v, a, b))
}

/// The sequence without its leading whitespace.
pub open spec fn trim_front(s: Seq<char>) -> Seq<char>
    decreases s.len(),
{
    if s.len() > 0 && is_ws(s[0]) {
        trim_front(s.drop_first())
    } else {
        s
    }
}

/// The sequence without its trailing whitespace.
pub open spec fn trim_back(s: Seq<char>) -> Seq<char>
    decreases s.len(),
{
    if s.len() > 0 && is_ws(s.last()) {
        trim_back(s.drop_last())
    } else {
        s
    }
}

/// The sequence without leading and trailing whitespace.
pub open spec fn trim_chars(s: Seq<char>) -> Seq<char> {
    trim_back(trim_front(s))
}

proof fn lemma_trim_front_skip(s: Seq<char>, a: int)
    requires
        0 <= a <= s.len(),
        forall|j: int| 0 <= j < a ==> is_ws(s[j]),
    ensures
        trim_front(s) == trim_front(s.skip(a)),
    decreases a,
{
    if a > 0 {
        lemma_trim_front_skip(s.drop_first(), a - 1);
        assert(s.drop_first().skip(a - 1) =~= s.skip(a));
    } else {
        assert(s.skip(0) =~= s);
    }
}

proof fn lemma_trim_back_take(s: Seq<char>, b: int)
    requires
        0 <= b <= s.len(),
        forall|j: int| b <= j < s.len() ==> is_ws(s[j]),
    ensures
        trim_back(s) == trim_back(s.take(b)),
    decreases s.len() - b,
{
    if b < s.len() {
        assert(is_ws(s.last()));
        lemma_trim_back_take(s.drop_last(), b);
        assert(s.drop_last().take(b) =~= s.take(b));
    } else {
        assert(s.take(b) =~= s);
    }
}

/// A subrange whose outside is whitespace and whose edges are not is the
/// trimmed sequence.
pub proof fn lemma_trim_range(s: Seq<char>, a: int, b: int)
    requires
        0 <= a <= b <= s.len(),
        forall|j: int| 0 <= j < a ==> is_ws(s[j]),
        forall|j: int| b <= j < s.len() ==> is_ws(s[j]),
        a == b || (!is_ws(s[a]) && !is_ws(s[b - 1])),
    ensures
        trim_chars(s) == s.subrange(a, b),
{
    if a == b {
        lemma_trim_front_skip(s, s.len() as int);
        assert(s.skip(s.len() as int) =~= Seq::<char>::empty());
        assert(trim_chars(s) =~= Seq::<char>::empty());
        assert(s.subrange(a, b) =~= Seq::<char>::empty());
    } else {
        lemma_trim_front_skip(s, a);
        assert(!is_ws(s.skip(a)[0]));
        assert(trim_front(s.skip(a)) == s.skip(a));
        lemma_trim_back_take(s.skip(a), b - a);
        assert(s.skip(a).take(b - a) =~= s.subrange(a, b));
        assert(s.subrange(a, b).last() == s[b - 1]);
        assert(trim_back(s.subrange(a, b)) == s.subrange(a, b));
    }
}

/// Bounds of the trimmed part of `v[from..to]`.
pub fn trim_bounds(v: &Vec<char>, from: usize, to: usize) -> (r: (usize, usize))
    requires
        from <= to <= v@.len(),
    ensures
        from <= r.0 <= r.1 <= to,
        v@.subrange(r.0 as int, r.1 as int) == trim_chars(v@.subrange(from as int, to as int)),
{
    let ghost s = v@.subrange(from as int, to as int);
    let mut a: usize = from;
    while a < to && ws_char(v[a])
        invariant
            from <= a <= to <= v@.len(),
            s == v@.subrange(from as int, to as int),
            forall|j: int| 0 <= j < a - from ==> is_ws(s[j]),
        decreases to - a,
    {
        proof {
            assert(s[a - from] == v@[a as int]);
        }
        a += 1;
    }
    let mut b: usize = to;
    while b > a && ws_char(v[b - 1])
        invariant
            from <= a <= b <= to <= v@.len(),
            s == v@.subrange(from as int, to as int),
            forall|j: int| b - from <= j < to - from ==> is_ws(s[j]),
        decreases b,
    {
        proof {
            assert(s[b - 1 - from] == v@[b - 1]);
        }
        b -= 1;
    }
    proof {
        if a < b {
            assert(s[a - from] == v@[a as int]);
            assert(s[b - 1 - from] == v@[b - 1]);
        }
    }
    proof {
        lemma_trim_range(s, a - from, b - from);
        assert(s.subrange(a - from, b - from) =~= v@.subrange(a as int, b as int));
    }
    (a, b)
}

/// First position of a character.
pub open spec fn find_char(s: Seq<char>, c: char) -> Option<int>
    decreases s.len(),
{
    if s.len() == 0 {
        None
    } else if s[0] == c {
        Some(0)
    } else {
        match find_char(s.drop_first(), c) {
            Some(i) => Some(i + 1),
            None => None,
        }
    }
}

pub proof fn lemma_find_char_at(s: Seq<char>, c: char, i: int)
    requires
        0 <= i < s.len(),
        s[i] == c,
        forall|j: int| 0 <= j < i ==> s[j] != c,
    ensures
        find_char(s, c) == Some(i),
    decreases i,
{
    if i > 0 {
        lemma_find_char_at(s.drop_first(), c, i - 1);
    }
}

pub proof fn lemma_find_char_none(s: Seq<char>, c: char)
    requires
        forall|j: int| 0 <= j < s.len() ==> s[j] != c,
    ensures
        find_char(s, c) == None::<int>,
    decreases s.len(),
{
    if s.len() > 0 {
        lemma_find_char_none(s.drop_first(), c);
    }
}

/// Scan for a character in `v[from..to]`.
pub fn find_char_in(v: &Vec<char>, from: usize, to: usize, c: char) -> (r: Option<usize>)
    requires
        from <= to <= v@.len(),
    ensures
        match r {
            Some(i) => from <= i < to && v@[i as int] == c && find_char(
                v@.subrange(from as int, to as int),
                c,
            ) == Some(i - from),
            None => find_char(v@.subrange(from as int, to as int), c) == None::<int>,
        },
{
    let ghost s = v@.subrange(from as int, to as int);
    let mut i: usize = from;
    while i < to
        invariant
            from <= i <= to <= v@.len(),
            s == v@.subrange(from as int, to as int),
            forall|j: int| 0 <= j < i - from ==> s[j] != c,
        decreases to - i,
    {
        proof {
            assert(s[i - from] == v@[i as int]);
        }
        if v[i] == c {
            proof {
                lemma_find_char_at(s, c, i - from);
            }
            return Some(i);
        }
        i += 1;
    }
    proof {
        lemma_find_char_none(s, c);
    }
    None
}

/// Length of the leading run of non-whitespace characters.
pub open spec fn run_len(s: Seq<char>) -> int
    decreases s.len(),
{
    if s.len() == 0 || is_ws(s[0]) {
        0
    } else {
        1 + run_len(s.drop_first())
    }
}

pub proof fn lemma_run_len_bounds(s: Seq<char>)
    ensures
        0 <= run_len(s) <= s.len(),
    decreases s.len(),
{
    if s.len() > 0 && !is_ws(s[0]) {
        lemma_run_len_bounds(s.drop_first());
    }
}

pub proof fn lemma_find_char_bounds(s: Seq<char>, c: char)
    ensures
        find_char(s, c) matches Some(k) ==> 0 <= k < s.len(),
    decreases s.len(),
{
    if s.len() > 0 {
        lemma_find_char_bounds(s.drop_first(), c);
    }
}

pub proof fn lemma_run_len_at(s: Seq<char>, k: int)
    requires
        0 <= k <= s.len(),
        forall|j: int| 0 <= j < k ==> !is_ws(s[j]),
        k == s.len() || is_ws(s[k]),
    ensures
        run_len(s) == k,
    decreases k,
{
    if k > 0 {
        lemma_run_len_at(s.drop_first(), k - 1);
    }
}

/// The whitespace-separated tokens of a sequence.
pub open spec fn tokens_of(s: Seq<char>) -> Seq<Seq<char>>
    decreases s.len(),
    via tokens_of_dec
{
    if s.len() == 0 {
        Seq::empty()
    } else if is_ws(s[0]) {
        tokens_of(s.drop_first())
    } else {
        seq![s.take(run_len(s))] + tokens_of(s.skip(run_len(s)))
    }
}

#[via_fn]
proof fn tokens_of_dec(s: Seq<char>) {
    if s.len() > 0 && !is_ws(s[0]) {
        lemma_run_len_bounds(s.drop_first());
        assert(run_len(s) == 1 + run_len(s.drop_first()));
    }
}

proof fn lemma_tokens_skip_ws(s: Seq<char>)
    requires
        s.len() > 0,
        is_ws(s[0]),
    ensures
        tokens_of(s) == tokens_of(s.skip(1)),
{
    assert(s.drop_first() =~= s.skip(1));
}

/// The character ranges that a list of bounds denotes.
pub open spec fn bounds_views(v: Seq<char>, r: Seq<(usize, usize)>) -> Seq<Seq<char>> {
    r.map_values(|p: (usize, usize)| v.subrange(p.0 as int, p.1 as int))
}

/// Token bounds of `v[from..to]`, in order.
pub fn token_bounds(v: &Vec<char>, from: usize, to: usize) -> (r: Vec<(usize, usize)>)
    requires
        from <= to <= v@.len(),
    ensures
        bounds_views(v@, r@) == tokens_of(v@.subrange(from as int, to as int)),
        forall|t: int| 0 <= t < r@.len() ==> from <= #[trigger] r@[t].0 < r@[t].1 <= to,
{
    let ghost s = v@.subrange(from as int, to as int);
    let mut out: Vec<(usize, usize)> = Vec::new();
    let mut i: usize = from;
    while i < to
        invariant
            from <= i <= to <= v@.len(),
            s == v@.subrange(from as int, to as int),
            tokens_of(s) == bounds_views(v@, out@) + tokens_of(v@.subrange(i as int, to as int)),
            forall|t: int| 0 <= t < out@.len() ==> from <= #[trigger] out@[t].0 < out@[t].1 <= to,
        decreases to - i,
    {
        if ws_char(v[i]) {
            proof {
                let cur = v@.subrange(i as int, to as int);
                assert(cur[0] == v@[i as int]);
                lemma_tokens_skip_ws(cur);
                assert(cur.skip(1) =~= v@.subrange(i + 1, to as int));
            }
            i += 1;
        } else {
            let start: usize = i;
            let mut j: usize = i;
            while j < to && !ws_char(v[j])
                invariant
                    from <= start <= j <= to <= v@.len(),
                    start == i,
                    forall|t: int| start <= t < j ==> !is_ws(v@[t]),
                decreases to - j,
            {
                j += 1;
            }
            let ghost prev = out@;
            out.push((start, j));
            proof {
                let cur = v@.subrange(start as int, to as int);
                assert(cur[0] == v@[start as int]);
                assert forall|t: int| 0 <= t < j - start implies !is_ws(cur[t]) by {
                    assert(cur[t] == v@[start + t]);
                }
                if j < to {
                    assert(cur[j - start] == v@[j as int]);
                }
                lemma_run_len_at(cur, j - start);
                assert(tokens_of(cur) == seq![cur.take(j - start)] + tokens_of(
                    cur.skip(j - start),
                ));
                assert(cur.take(j - start) =~= v@.subrange(start as int, j as int));
                assert(cur.skip(j - start) =~= v@.subrange(j as int, to as int));
                assert(bounds_views(v@, out@) =~= bounds_views(v@, prev).push(
                    v@.subrange(start as int, j as int),
                ));
                assert(bounds_views(v@, prev).push(v@.subrange(start as int, j as int))
                    + tokens_of(v@.subrange(j as int, to as int)) =~= bounds_views(v@, prev) + (
                seq![v@.subrange(start as int, j as int)] + tokens_of(
                    v@.subrange(j as int, to as int),
                )));
            }
            i = j;
        }
    }
    proof {
        assert(v@.subrange(i as int, to as int).len() == 0);
        assert(tokens_of(v@.subrange(i as int, to as int)) =~= Seq::<Seq<char>>::empty());
        assert(tokens_of(s) =~= bounds_views(v@, out@));
    }
    out
}

/// One trailing carriage return removed.
pub open spec fn strip_cr(s: Seq<char>) -> Seq<char> {
    if s.len() > 0 && s.last() == '\r' {
        s.drop_last()
    } else {
        s
    }
}

/// The lines of a text, split at newlines, one trailing carriage return
/// removed from each line that a newline ends.
pub open spec fn lines_of(s: Seq<char>) -> Seq<Seq<char>>
    decreases s.len(),
    via lines_of_dec
{
    if s.len() == 0 {
        Seq::empty()
    } else {
        match find_char(s, '\n') {
            Some(k) => seq![strip_cr(s.take(k))] + lines_of(s.skip(k + 1)),
            None => seq![s],
        }
    }
}

#[via_fn]
proof fn lines_of_dec(s: Seq<char>) {
    lemma_find_char_bounds(s, '\n');
}

/// Fields of a record: the text split at every separator character.
pub open spec fn split_char(s: Seq<char>, c: char) -> Seq<Seq<char>>
    decreases s.len(),
    via split_char_dec
{
    match find_char(s, c) {
        Some(k) => seq![s.take(k)] + split_char(s.skip(k + 1), c),
        None => seq![s],
    }
}

#[via_fn]
proof fn split_char_dec(s: Seq<char>, c: char) {
    lemma_find_char_bounds(s, c);
}

/// Split `v[from..to]` at a separator.
pub fn split_char_in(v: &Vec<char>, from: usize, to: usize, c: char) -> (r: Vec<(usize, usize)>)
    requires
        from <= to <= v@.len(),
    ensures
        bounds_views(v@, r@) == split_char(v@.subrange(from as int, to as int), c),
        forall|t: int| 0 <= t < r@.len() ==> from <= #[trigger] r@[t].0 <= r@[t].1 <= to,
{
    let ghost s = v@.subrange(from as int, to as int);
    let mut out: Vec<(usize, usize)> = Vec::new();
    let mut pos: usize = from;
    proof {
        assert(s.skip(0) =~= s);
    }
    loop
        invariant
            from <= pos <= to <= v@.len(),
            s == v@.subrange(from as int, to as int),
            split_char(s, c) == bounds_views(v@, out@) + split_char(
                v@.subrange(pos as int, to as int),
                c,
            ),
            forall|t: int| 0 <= t < out@.len() ==> from <= #[trigger] out@[t].0 <= out@[t].1 <= to,
        decreases to - pos,
    {
        let ghost cur = v@.subrange(pos as int, to as int);
        match find_char_in(v, pos, to, c) {
            Some(k) => {
                proof {
                    assert(cur.take(k - pos) =~= v@.subrange(pos as int, k as int));
                    assert(cur.skip(k - pos + 1) =~= v@.subrange(k + 1, to as int));
                }
                let ghost pre = out@;
                out.push((pos, k));
                proof {
                    assert(bounds_views(v@, out@) =~= bounds_views(v@, pre).push(
                        v@.subrange(pos as int, k as int),
                    ));
                    assert(bounds_views(v@, pre).push(v@.subrange(pos as int, k as int))
                        + split_char(v@.subrange(k + 1, to as int), c) =~= bounds_views(v@, pre) + (
                    seq![v@.subrange(pos as int, k as int)] + split_char(
                        v@.subrange(k + 1, to as int),
                        c,
                    )));
                }
                pos = k + 1;
            },
            None => {
                let ghost pre = out@;
                out.push((pos, to));
                proof {
                    assert(cur =~= v@.subrange(pos as int, to as int));
                    assert(split_char(cur, c) == seq![cur]);
                    assert(bounds_views(v@, out@) =~= bounds_views(v@, pre).push(cur));
                    assert(bounds_views(v@, pre).push(cur) =~= bounds_views(v@, pre) + seq![cur]);
                }
                return out;
            },
        }
    }
}

} // verus!

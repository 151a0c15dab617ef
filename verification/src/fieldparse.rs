//! Parsing of field texts: decimal integers, booleans in any letter
//! case, and calendar dates as day numbers.
use vstd::prelude::*;

verus! {

use crate::textscan::{find_char, str_chars};

/// A decimal digit.
pub open spec fn is_digit(c: char) -> bool {
    '0' <= c && c <= '9'
}

pub open spec fn all_digits(s: Seq<char>) -> bool {
    forall|j: int| 0 <= j < s.len() ==> is_digit(s[j])
}

/// The value of a digit string, most significant first.
pub open spec fn digits_val(s: Seq<char>) -> int
    decreases s.len(),
{
    if s.len() == 0 {
        0
    } else {
        digits_val(s.drop_last()) * 10 + (s.last() as int - 48)
    }
}

/// An optionally signed decimal integer, as `str::parse` reads one:
/// an optional sign, then at least one digit.
pub open spec fn spec_parse_int(s: Seq<char>) -> Option<int> {
    let neg = s.len() > 0 && s[0] == '-';
    let ds = if s.len() > 0 && (s[0] == '-' || s[0] == '+') {
        s.drop_first()
    } else {
        s
    };
    if ds.len() == 0 || !all_digits(ds) {
        None
    } else if neg {
        Some(-digits_val(ds))
    } else {
        Some(digits_val(ds))
    }
}

/// As `spec_parse_int`, rejecting values outside the 64-bit signed range.
pub open spec fn spec_parse_i64(s: Seq<char>) -> Option<int> {
    match spec_parse_int(s) {
        Some(v) => if i64::MIN <= v <= i64::MAX {
            Some(v)
        } else {
            None
        },
        None => None,
    }
}

/// As `spec_parse_int`, rejecting values outside the 32-bit signed range.
pub open spec fn spec_parse_i32(s: Seq<char>) -> Option<int> {
    match spec_parse_int(s) {
        Some(v) => if i32::MIN <= v <= i32::MAX {
            Some(v)
        } else {
            None
        },
        None => None,
    }
}

pub proof fn lemma_digits_val_bounds(s: Seq<char>)
    requires
        all_digits(s),
    ensures
        0 <= digits_val(s),
    decreases s.len(),
{
    if s.len() > 0 {
        assert(all_digits(s.drop_last())) by {
            assert(forall|j: int| 0 <= j < s.len() - 1 ==> s.drop_last()[j] == s[j]);
        }
        lemma_digits_val_bounds(s.drop_last());
    }
}

proof fn lemma_digits_val_prefix(s: Seq<char>, k: int)
    requires
        all_digits(s),
        0 <= k <= s.len(),
    ensures
        digits_val(s) >= digits_val(s.take(k)),
    decreases s.len() - k,
{
    if k < s.len() {
        lemma_digits_val_prefix(s, k + 1);
        assert(s.take(k + 1).drop_last() =~= s.take(k));
        assert(s.take(k + 1).last() == s[k]);
        assert(digits_val(s.take(k + 1)) == digits_val(s.take(k)) * 10 + (s[k] as int - 48));
        assert(all_digits(s.take(k))) by {
            assert(forall|j: int| 0 <= j < k ==> s.take(k)[j] == s[j]);
        }
        lemma_digits_val_bounds(s.take(k));
    } else {
        assert(s.take(k) =~= s);
    }
}

/// Parse a signed decimal integer from a character range.
#[verifier::loop_isolation(false)]
pub fn parse_i64_range(v: &Vec<char>, from: usize, to: usize) -> (r: Option<i64>)
    requires
        from <= to <= v@.len(),
    ensures
        match r {
            Some(x) => spec_parse_i64(v@.subrange(from as int, to as int)) == Some(x as int),
            None => spec_parse_i64(v@.subrange(from as int, to as int)) == None::<int>,
        },
{
    let ghost s = v@.subrange(from as int, to as int);
    let mut p: usize = from;
    let mut neg = false;
    if p < to && (v[p] == '-' || v[p] == '+') {
        neg = v[p] == '-';
        p += 1;
    }
    let ghost ds = if s.len() > 0 && (s[0] == '-' || s[0] == '+') {
        s.drop_first()
    } else {
        s
    };
    proof {
        assert(ds =~= v@.subrange(p as int, to as int));
    }
    if p == to {
        return None;
    }
    let mut acc: u128 = 0;
    let mut i: usize = p;
    while i < to
        invariant
            p <= i <= to,
            all_digits(ds.take(i - p)),
            acc == digits_val(ds.take(i - p)),
            acc <= 0x8000_0000_0000_0000,
        decreases to - i,
    {
        let c = v[i];
        if c < '0' || c > '9' {
            proof {
                assert(ds[i - p] == v@[i as int]);
                assert(!all_digits(ds));
            }
            return None;
        }
        let d: u32 = (c as u32) - 48;
        proof {
            assert(ds[i - p] == v@[i as int]);
            assert(ds.take(i - p + 1).drop_last() =~= ds.take(i - p));
            assert(ds.take(i - p + 1).last() == ds[i - p]);
        }
        acc = acc * 10 + (d as u128);
        i += 1;
        proof {
            assert(all_digits(ds.take(i - p))) by {
                assert(forall|j: int|
                    0 <= j < i - p ==> ds.take((i - p) as int)[j] == ds[j]);
            }
        }
        if acc > 0x8000_0000_0000_0000 {
            // out of range whatever follows: either a later character is
            // not a digit, or the full value only grows
            let mut j2: usize = i;
            while j2 < to
                invariant
                    i <= j2 <= to,
                    all_digits(ds.take(j2 - p)),
                decreases to - j2,
            {
                let c2 = v[j2];
                if c2 < '0' || c2 > '9' {
                    proof {
                        assert(ds[j2 - p] == v@[j2 as int]);
                        assert(!all_digits(ds));
                    }
                    return None;
                }
                proof {
                    assert(ds[j2 - p] == v@[j2 as int]);
                }
                j2 += 1;
                proof {
                    assert(all_digits(ds.take(j2 - p))) by {
                        assert(forall|j: int|
                            0 <= j < j2 - p ==> ds.take((j2 - p) as int)[j] == ds[j]);
                    }
                }
            }
            proof {
                assert(ds.take(to - p) =~= ds);
                assert(all_digits(ds));
                lemma_digits_val_prefix(ds, i - p);
                assert(digits_val(ds) > 0x8000_0000_0000_0000 - 1);
            }
            return None;
        }
    }
    proof {
        assert(ds.take(to - p) =~= ds);
    }
    if neg {
        if acc > 0x8000_0000_0000_0000 {
            return None;
        }
        if acc == 0x8000_0000_0000_0000 {
            return Some(i64::MIN);
        }
        let m: i64 = acc as i64;
        Some(-m)
    } else {
        if acc > 0x7FFF_FFFF_FFFF_FFFF {
            return None;
        }
        Some(acc as i64)
    }
}

/// Lower-casing of an ASCII letter.
pub open spec fn ascii_lower(c: char) -> char {
    if 'A' <= c && c <= 'Z' {
        (((c as u32) + 32) as u8) as char
    } else {
        c
    }
}

/// Case-insensitive ASCII equality of two texts.
pub open spec fn eq_icase(a: Seq<char>, b: Seq<char>) -> bool {
    a.map_values(|c: char| ascii_lower(c)) == b.map_values(|c: char| ascii_lower(c))
}

/// Case-insensitive comparison of a range against a literal.
#[verifier::loop_isolation(false)]
pub fn eq_icase_range(v: &Vec<char>, from: usize, to: usize, lit: &str) -> (r: bool)
    requires
        from <= to <= v@.len(),
    ensures
        r == eq_icase(v@.subrange(from as int, to as int), lit@),
{
    let ghost s = v@.subrange(from as int, to as int);
    let l = str_chars(lit);
    if to - from != l.len() {
        proof {
            assert(s.map_values(|c: char| ascii_lower(c)).len() == s.len());
            assert(lit@.map_values(|c: char| ascii_lower(c)).len() == lit@.len());
        }
        return false;
    }
    let mut i: usize = 0;
    while i < l.len()
        invariant
            i <= l@.len(),
            forall|j: int|
                0 <= j < i ==> ascii_lower(s[j]) == ascii_lower(lit@[j]),
        decreases l@.len() - i,
    {
        let a = v[from + i];
        let b = l[i];
        let la: char = if a >= 'A' && a <= 'Z' {
            (((a as u32) + 32) as u8) as char
        } else {
            a
        };
        let lb: char = if b >= 'A' && b <= 'Z' {
            (((b as u32) + 32) as u8) as char
        } else {
            b
        };
        proof {
            assert(s[i as int] == v@[from + i]);
            assert(la == ascii_lower(s[i as int]));
            assert(lb == ascii_lower(lit@[i as int]));
        }
        if la != lb {
            proof {
                assert(s.map_values(|c: char| ascii_lower(c))[i as int] != lit@.map_values(
                    |c: char| ascii_lower(c),
                )[i as int]);
            }
            return false;
        }
        i += 1;
    }
    proof {
        assert(s.map_values(|c: char| ascii_lower(c)) =~= lit@.map_values(
            |c: char| ascii_lower(c),
        ));
    }
    true
}

/// A boolean field: `true`, `false`, `1` or `0`, letters in any case.
pub open spec fn spec_parse_bool(s: Seq<char>) -> Option<bool> {
    if eq_icase(s, "true"@) || s == "1"@ {
        Some(true)
    } else if eq_icase(s, "false"@) || s == "0"@ {
        Some(false)
    } else {
        None
    }
}

/// Parse a boolean field, the error naming the offending column.
pub fn parse_bool_value(field: &str, column: &str) -> (r: Result<bool, String>)
    ensures
        match r {
            Ok(b) => spec_parse_bool(field@) == Some(b),
            Err(e) => spec_parse_bool(field@) == None::<bool> && e@ == "Invalid boolean value '"@
                + field@ + "' for column '"@ + column@ + "'"@,
        },
{
    let v = str_chars(field);
    let n = v.len();
    proof {
        assert(v@.subrange(0, n as int) =~= field@);
    }
    if eq_icase_range(&v, 0, n, "true") || crate::strutil::eq_str(field, "1") {
        Ok(true)
    } else if eq_icase_range(&v, 0, n, "false") || crate::strutil::eq_str(field, "0") {
        Ok(false)
    } else {
        let mut m = str_chars("Invalid boolean value '");
        let mut f = str_chars(field);
        m.append(&mut f);
        let mut mid = str_chars("' for column '");
        m.append(&mut mid);
        let mut c = str_chars(column);
        m.append(&mut c);
        let mut tail = str_chars("'");
        m.append(&mut tail);
        Err(crate::strutil::chars_to_string(m))
    }
}

/// Whether a year is a leap year.
pub open spec fn is_leap(y: int) -> bool {
    y % 4 == 0 && (y % 100 != 0 || y % 400 == 0)
}

/// The days of a month.
pub open spec fn days_in_month(y: int, m: int) -> int {
    if m == 2 {
        if is_leap(y) {
            29
        } else {
            28
        }
    } else if m == 4 || m == 6 || m == 9 || m == 11 {
        30
    } else {
        31
    }
}

/// Days since 1970-01-01 of a proleptic Gregorian date.
pub open spec fn days_from_civil(y: int, m: int, d: int) -> int {
    let yy = if m <= 2 {
        y - 1
    } else {
        y
    };
    let era = yy / 400;
    let yoe = yy - era * 400;
    let mp = if m > 2 {
        m - 3
    } else {
        m + 9
    };
    let doy = (153 * mp + 2) / 5 + d - 1;
    let doe = yoe * 365 + yoe / 4 - yoe / 100 + doy;
    era * 146097 + doe - 719468
}

/// A date field `YYYY-MM-DD`: a four-digit year, then one- or two-digit
/// month and day, checked against the calendar; its value is the day
/// number since 1970-01-01.
pub open spec fn spec_parse_date(s: Seq<char>) -> Option<int> {
    match find_char(s, '-') {
        None => None,
        Some(k1) => {
            let ys = s.take(k1);
            let rest = s.skip(k1 + 1);
            match find_char(rest, '-') {
                None => None,
                Some(k2) => {
                    let ms = rest.take(k2);
                    let ds = rest.skip(k2 + 1);
                    if ys.len() == 4 && all_digits(ys) && 1 <= ms.len() <= 2 && all_digits(ms)
                        && 1 <= ds.len() <= 2 && all_digits(ds) {
                        let y = digits_val(ys);
                        let m = digits_val(ms);
                        let d = digits_val(ds);
                        if 1 <= m <= 12 && 1 <= d <= days_in_month(y, m) {
                            Some(days_from_civil(y, m, d))
                        } else {
                            None
                        }
                    } else {
                        None
                    }
                },
            }
        },
    }
}

pub open spec fn pow10n(n: nat) -> int
    decreases n,
{
    if n == 0 {
        1
    } else {
        10 * pow10n((n - 1) as nat)
    }
}

proof fn lemma_digits_val_small(s: Seq<char>)
    requires
        all_digits(s),
    ensures
        0 <= digits_val(s) < pow10n(s.len()),
    decreases s.len(),
{
    if s.len() > 0 {
        assert(all_digits(s.drop_last())) by {
            assert(forall|j: int| 0 <= j < s.len() - 1 ==> s.drop_last()[j] == s[j]);
        }
        lemma_digits_val_small(s.drop_last());
    }
}

proof fn lemma_pow10n_4()
    ensures
        pow10n(0) == 1 && pow10n(1) == 10 && pow10n(2) == 100 && pow10n(3) == 1000 && pow10n(4)
            == 10000,
{
    reveal_with_fuel(pow10n, 6);
}

/// Parse a date field from a character range; the day number fits a
/// 32-bit signed value.
#[verifier::loop_isolation(false)]
#[verifier::rlimit(100)]
pub fn parse_date_range(v: &Vec<char>, from: usize, to: usize) -> (r: Option<i32>)
    requires
        from <= to <= v@.len(),
    ensures
        match r {
            Some(x) => spec_parse_date(v@.subrange(from as int, to as int)) == Some(x as int),
            None => spec_parse_date(v@.subrange(from as int, to as int)) == None::<int>,
        },
{
    let ghost s = v@.subrange(from as int, to as int);
    let k1 = match crate::textscan::find_char_in(v, from, to, '-') {
        Some(k) => k,
        None => {
            return None;
        },
    };
    let ghost rest = s.skip(k1 - from + 1);
    proof {
        assert(rest =~= v@.subrange(k1 + 1, to as int));
    }
    let k2 = match crate::textscan::find_char_in(v, k1 + 1, to, '-') {
        Some(k) => k,
        None => {
            return None;
        },
    };
    proof {
        assert(s.take(k1 - from) =~= v@.subrange(from as int, k1 as int));
        assert(rest.take(k2 - k1 - 1) =~= v@.subrange(k1 + 1, k2 as int));
        assert(rest.skip(k2 - k1) =~= v@.subrange(k2 + 1, to as int));
    }
    let y = match parse_digits_range(v, from, k1, 4, 4) {
        Some(x) => x,
        None => {
            return None;
        },
    };
    let m = match parse_digits_range(v, k1 + 1, k2, 1, 2) {
        Some(x) => x,
        None => {
            return None;
        },
    };
    let d = match parse_digits_range(v, k2 + 1, to, 1, 2) {
        Some(x) => x,
        None => {
            return None;
        },
    };
    if m < 1 || m > 12 {
        return None;
    }
    let dim: u64 = if m == 2 {
        if (y % 4 == 0 && (y % 100 != 0 || y % 400 == 0)) {
            29
        } else {
            28
        }
    } else if m == 4 || m == 6 || m == 9 || m == 11 {
        30
    } else {
        31
    };
    if d < 1 || d > dim {
        return None;
    }
    // day count by the era formula, in plain integer arithmetic
    let yi: i64 = y as i64;
    let mi: i64 = m as i64;
    let di: i64 = d as i64;
    let yy: i64 = if mi <= 2 {
        yi - 1
    } else {
        yi
    };
    let era: i64 = if yy >= 0 {
        yy / 400
    } else {
        -1
    };
    proof {
        assert(era == (yy as int) / 400) by {
            if yy < 0 {
                assert(-400 <= yy < 0);
            }
        };
    }
    let yoe: i64 = yy - era * 400;
    let mp: i64 = if mi > 2 {
        mi - 3
    } else {
        mi + 9
    };
    let doy: i64 = (153 * mp + 2) / 5 + di - 1;
    let doe: i64 = yoe * 365 + yoe / 4 - yoe / 100 + doy;
    let days: i64 = era * 146097 + doe - 719468;
    proof {
        assert(days == days_from_civil(y as int, m as int, d as int));
        assert(-0x8000_0000 <= days < 0x8000_0000);
    }
    Some(days as i32)
}

/// Parse an unsigned digit run of a bounded width.
#[verifier::loop_isolation(false)]
fn parse_digits_range(v: &Vec<char>, from: usize, to: usize, minw: usize, maxw: usize) -> (r:
    Option<u64>)
    requires
        from <= to <= v@.len(),
        maxw <= 4,
    ensures
        match r {
            Some(x) => minw <= to - from <= maxw && all_digits(
                v@.subrange(from as int, to as int),
            ) && x == digits_val(v@.subrange(from as int, to as int)) && x <= 9999,
            None => !(minw <= to - from <= maxw && all_digits(
                v@.subrange(from as int, to as int),
            )),
        },
{
    let ghost s = v@.subrange(from as int, to as int);
    if to - from < minw || to - from > maxw {
        return None;
    }
    let mut acc: u64 = 0;
    let mut i: usize = from;
    while i < to
        invariant
            from <= i <= to,
            all_digits(s.take(i - from)),
            acc == digits_val(s.take(i - from)),
            acc <= 9999,
        decreases to - i,
    {
        let c = v[i];
        if c < '0' || c > '9' {
            proof {
                assert(s[i - from] == v@[i as int]);
                assert(!all_digits(s));
            }
            return None;
        }
        proof {
            assert(s[i - from] == v@[i as int]);
            assert(s.take(i - from + 1).drop_last() =~= s.take(i - from));
            assert(s.take(i - from + 1).last() == s[i - from]);
            assert(s.take(i - from).len() < 4);
            lemma_pow10n_4();
            lemma_digits_val_small(s.take(i - from));
            assert(digits_val(s.take(i - from)) <= 999);
        }
        acc = acc * 10 + ((c as u32) - 48) as u64;
        i += 1;
        proof {
            assert(all_digits(s.take(i - from))) by {
                assert(forall|j: int|
                    0 <= j < i - from ==> s.take((i - from) as int)[j] == s[j]);
            }
            lemma_pow10n_4();
            lemma_digits_val_small(s.take(i - from));
        }
    }
    proof {
        assert(s.take(to - from) =~= s);
    }
    Some(acc)
}


/// The era formula stays within 32-bit day numbers for four-digit years.
proof fn lemma_civil_range(y: int, m: int, d: int)
    requires
        0 <= y <= 9999,
        1 <= m <= 12,
        1 <= d <= 31,
    ensures
        -0x8000_0000 <= days_from_civil(y, m, d) < 0x8000_0000,
{
    let yy = if m <= 2 {
        y - 1
    } else {
        y
    };
    assert(-1 <= yy <= 9999);
    let era = yy / 400;
    vstd::arithmetic::div_mod::lemma_fundamental_div_mod(yy, 400);
    assert(-1 <= era <= 24);
    let yoe = yy - era * 400;
    assert(0 <= yoe <= 399);
    let mp = if m > 2 {
        m - 3
    } else {
        m + 9
    };
    assert(0 <= mp <= 11);
    vstd::arithmetic::div_mod::lemma_fundamental_div_mod(153 * mp + 2, 5);
    let doy = (153 * mp + 2) / 5 + d - 1;
    assert(0 <= doy <= 367);
    vstd::arithmetic::div_mod::lemma_fundamental_div_mod(yoe, 4);
    vstd::arithmetic::div_mod::lemma_fundamental_div_mod(yoe, 100);
    let doe = yoe * 365 + yoe / 4 - yoe / 100 + doy;
    assert(0 <= doe <= 146463);
    assert(-0x8000_0000 <= era * 146097 + doe - 719468 < 0x8000_0000);
}

/// A parsed date's day number fits a 32-bit signed value.
pub proof fn lemma_date_fits(s: Seq<char>)
    ensures
        spec_parse_date(s) matches Some(x) ==> -0x8000_0000 <= x < 0x8000_0000,
{
    match find_char(s, '-') {
        None => {},
        Some(k1) => {
            let ys = s.take(k1);
            let rest = s.skip(k1 + 1);
            match find_char(rest, '-') {
                None => {},
                Some(k2) => {
                    let ms = rest.take(k2);
                    let ds = rest.skip(k2 + 1);
                    if ys.len() == 4 && all_digits(ys) && 1 <= ms.len() <= 2 && all_digits(ms)
                        && 1 <= ds.len() <= 2 && all_digits(ds) {
                        let y = digits_val(ys);
                        let m = digits_val(ms);
                        let d = digits_val(ds);
                        lemma_pow10n_4();
                        lemma_digits_val_small(ys);
                        lemma_digits_val_bounds(ms);
                        lemma_digits_val_bounds(ds);
                        if 1 <= m <= 12 && 1 <= d <= days_in_month(y, m) {
                            lemma_civil_range(y, m, d);
                        }
                    }
                },
            }
        },
    }
}

} // verus!

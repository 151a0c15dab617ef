//! Rendering of the merged result: fixed three-decimal rendering of
//! IEEE 754 values in exact integer arithmetic, header normalization,
//! column padding and the final table text.
use vstd::prelude::*;

verus! {

use vstd::arithmetic::power2::pow2;

use crate::fbits::{f64_is_nan, f64_mag, f64_is_neg, f64_div_bits, f64_of_u64, Rel};
use crate::rpc::{AggregateState, GroupAggregate, GroupMap};
use crate::strutil::{char_repeat, dec_digits, digit_char, zero_pad, cmp_str, push_dec_u64};
use crate::textscan::str_chars;

/// The mantissa of a finite pattern: the value is `m * 2^k`, sign apart.
pub open spec fn f64_mantissa(b: u64) -> nat {
    if (b >> 52) & 0x7ff == 0 {
        (b & 0xf_ffff_ffff_ffff) as nat
    } else {
        (b & 0xf_ffff_ffff_ffff) as nat + 0x10_0000_0000_0000
    }
}

/// The binary exponent of a finite pattern.
pub open spec fn f64_exp(b: u64) -> int {
    if (b >> 52) & 0x7ff == 0 {
        -1074
    } else {
        ((b >> 52) & 0x7ff) - 1075
    }
}

/// The value times a thousand, rounded to the nearest integer, ties to
/// even; only exponents below zero round at all.
pub open spec fn scaled_thousandths(m: nat, k: int) -> nat {
    let d = pow2((-k) as nat);
    let p = m * 1000;
    let q = p / d;
    let r = p % d;
    if 2 * r > d || (2 * r == d && q % 2 == 1) {
        q + 1
    } else {
        q
    }
}

/// Little-endian decimal digits of a number.
pub open spec fn le_digits_of(x: nat) -> Seq<u8>
    decreases x,
{
    if x == 0 {
        Seq::empty()
    } else {
        seq![(x % 10) as u8] + le_digits_of(x / 10)
    }
}

/// Little-endian decimal digits doubled, with a carry in.
pub open spec fn dbl_digits(ds: Seq<u8>, c: nat) -> Seq<u8>
    decreases ds.len(),
{
    if ds.len() == 0 {
        if c == 0 {
            Seq::empty()
        } else {
            seq![c as u8]
        }
    } else {
        seq![((2 * ds[0] + c) % 10) as u8] + dbl_digits(
            ds.drop_first(),
            ((2 * ds[0] + c) / 10) as nat,
        )
    }
}

/// The digits after doubling a number of times.
pub open spec fn dbl_n(ds: Seq<u8>, n: nat) -> Seq<u8>
    decreases n,
{
    if n == 0 {
        ds
    } else {
        dbl_digits(dbl_n(ds, (n - 1) as nat), 0)
    }
}

/// The big-endian text of little-endian digits; an empty list reads as
/// zero.
pub open spec fn chars_of_le(ds: Seq<u8>) -> Seq<char> {
    if ds.len() == 0 {
        seq!['0']
    } else {
        Seq::new(ds.len(), |i: int| digit_char(ds[ds.len() - 1 - i] as nat))
    }
}

/// The fixed three-decimal text of a pattern: exact decimal arithmetic
/// for values below one, decimal doubling for the integral giants.
pub open spec fn spec_render_3dp(b: u64) -> Seq<char> {
    if f64_is_nan(b) {
        "NaN"@
    } else if f64_mag(b) == 0x7ff0_0000_0000_0000 {
        if f64_is_neg(b) {
            "-inf"@
        } else {
            "inf"@
        }
    } else {
        let m = f64_mantissa(b);
        let k = f64_exp(b);
        let body = if k < 0 {
            let n = scaled_thousandths(m, k);
            dec_digits(n / 1000) + seq!['.'] + zero_pad(n % 1000, 3)
        } else {
            chars_of_le(dbl_n(le_digits_of(m), k as nat)) + seq!['.'] + zero_pad(0, 3)
        };
        if f64_is_neg(b) {
            seq!['-'] + body
        } else {
            body
        }
    }
}

/// All digits below ten.
pub open spec fn digits_wf(ds: Seq<u8>) -> bool {
    forall|i: int| 0 <= i < ds.len() ==> ds[i] < 10
}

proof fn lemma_le_digits_wf(x: nat)
    ensures
        digits_wf(le_digits_of(x)),
    decreases x,
{
    if x > 0 {
        lemma_le_digits_wf(x / 10);
        assert(forall|i: int|
            1 <= i < le_digits_of(x).len() ==> le_digits_of(x)[i] == le_digits_of(x / 10)[i - 1]);
    }
}

/// One decimal doubling pass.
#[verifier::loop_isolation(false)]
fn dbl_exec(big: &Vec<u8>) -> (r: Vec<u8>)
    requires
        digits_wf(big@),
    ensures
        r@ == dbl_digits(big@, 0),
        digits_wf(r@),
{
    let mut out: Vec<u8> = Vec::new();
    let mut carry: u8 = 0;
    let mut bi: usize = 0;
    proof {
        assert(big@.skip(0) =~= big@);
        assert(out@ + dbl_digits(big@.skip(0), 0) =~= dbl_digits(big@, 0));
    }
    while bi < big.len()
        invariant
            bi <= big@.len(),
            carry <= 2,
            digits_wf(out@),
            out@ + dbl_digits(big@.skip(bi as int), carry as nat) == dbl_digits(big@, 0),
        decreases big@.len() - bi,
    {
        proof {
            assert(big@.skip(bi as int)[0] == big@[bi as int]);
            assert(big@.skip(bi as int).drop_first() =~= big@.skip(bi as int + 1));
        }
        let d2: u16 = 2 * (big[bi] as u16) + (carry as u16);
        let ghost predbl = dbl_digits(big@.skip(bi as int), carry as nat);
        out.push((d2 % 10) as u8);
        carry = (d2 / 10) as u8;
        bi += 1;
        proof {
            assert(predbl == seq![((2 * big@[bi - 1] + (d2 as nat - 2 * big@[bi - 1]) as nat)
                % 10) as u8] + dbl_digits(big@.skip(bi as int), ((2 * big@[bi - 1] + (d2 as nat - 2
                * big@[bi - 1]) as nat) / 10) as nat));
            assert(out@ + dbl_digits(big@.skip(bi as int), carry as nat) =~= out@.drop_last()
                + predbl);
        }
    }
    if carry > 0 {
        out.push(carry);
    }
    proof {
        assert(big@.skip(big@.len() as int) =~= Seq::<u8>::empty());
        if carry > 0 {
            assert(dbl_digits(Seq::<u8>::empty(), carry as nat) =~= seq![carry]);
            assert(out@ =~= out@.drop_last().push(carry));
        } else {
            assert(out@ + dbl_digits(Seq::<u8>::empty(), 0) =~= out@);
        }
    }
    out
}

/// Little-endian digits of a 128-bit value.
fn le_digits_of_u128(x: u128) -> (r: Vec<u8>)
    ensures
        r@ == le_digits_of(x as nat),
    decreases x,
{
    if x == 0 {
        Vec::new()
    } else {
        let d: u8 = (x % 10) as u8;
        let mut rest = le_digits_of_u128(x / 10);
        let mut out: Vec<u8> = Vec::new();
        out.push(d);
        let ghost restv = rest@;
        out.append(&mut rest);
        proof {
            assert(out@ =~= seq![d] + restv);
        }
        out
    }
}

proof fn lemma_shift_pow2(s: u32)
    requires
        s < 128,
    ensures
        (1u128 << s) == pow2(s as nat),
    decreases s,
{
    vstd::arithmetic::power2::lemma2_to64();
    vstd::arithmetic::power2::lemma2_to64_rest();
    if s == 0 {
        assert(1u128 << 0u32 == 1) by (bit_vector);
    } else {
        lemma_shift_pow2((s - 1) as u32);
        assert(1u128 << s == 2 * (1u128 << ((s - 1) as u32))) by (bit_vector)
            requires
                0 < s < 128,
        ;
        vstd::arithmetic::power2::lemma_pow2_unfold(s as nat);
    }
}

/// The fixed three-decimal text of a pattern, as `spec_render_3dp`
/// states it.
#[verifier::loop_isolation(false)]
#[verifier::rlimit(100)]
pub fn render_f64_3dp(b: u64) -> (r: String)
    ensures
        r@ == spec_render_3dp(b),
{
    let mag: u64 = b & 0x7fff_ffff_ffff_ffff;
    if mag > 0x7ff0_0000_0000_0000 {
        return crate::strutil::chars_to_string(str_chars("NaN"));
    }
    if mag == 0x7ff0_0000_0000_0000 {
        if b >= 0x8000_0000_0000_0000 {
            return crate::strutil::chars_to_string(str_chars("-inf"));
        }
        return crate::strutil::chars_to_string(str_chars("inf"));
    }
    let e: u64 = (b >> 52) & 0x7ff;
    let f: u64 = b & 0xf_ffff_ffff_ffff;
    proof {
        assert(e <= 0x7ff) by (bit_vector)
            requires
                e == (b >> 52) & 0x7ff,
        ;
        assert(f < 0x10_0000_0000_0000) by (bit_vector)
            requires
                f == b & 0xf_ffff_ffff_ffff,
        ;
    }
    let m: u64 = if e == 0 {
        f
    } else {
        f + 0x10_0000_0000_0000
    };
    let k: i64 = if e == 0 {
        -1074
    } else {
        (e as i64) - 1075
    };
    proof {
        assert(m == f64_mantissa(b));
        assert(k == f64_exp(b));
        assert(m < 0x20_0000_0000_0000);
    }
    let mut body: Vec<char> = Vec::new();
    if k < 0 {
        let p: u128 = (m as u128) * 1000;
        let s: u32 = (-k) as u32;
        proof {
            vstd::arithmetic::power2::lemma2_to64();
            vstd::arithmetic::power2::lemma2_to64_rest();
            assert(p < 0x8000_0000_0000_0000);
        }
        let n: u128 = if s >= 128 {
            proof {
                vstd::arithmetic::power2::lemma_pow2_strictly_increases(64, s as nat);
                let d = pow2(s as nat);
                assert(pow2(64) == 0x1_0000_0000_0000_0000);
                assert(2 * (p as nat) < d);
                assert((p as nat) / d == 0 && (p as nat) % d == p as nat) by {
                    vstd::arithmetic::div_mod::lemma_fundamental_div_mod_converse(
                        p as int,
                        d as int,
                        0,
                        p as int,
                    );
                }
            }
            0
        } else {
            let d: u128 = 1u128 << s;
            proof {
                lemma_shift_pow2(s);
                vstd::arithmetic::power2::lemma_pow2_pos(s as nat);
            }
            let q = p / d;
            let r2 = p % d;
            proof {
                assert(q <= p) by (nonlinear_arith)
                    requires
                        d >= 1,
                        q == p / d,
                        p >= 0,
                ;
            }
            if r2 > d - r2 {
                q + 1
            } else if r2 == d - r2 && q % 2 == 1 {
                q + 1
            } else {
                q
            }
        };
        proof {
            assert(n == scaled_thousandths(m as nat, k as int));
            assert(n <= p + 1);
        }
        let intpart: u64 = (n / 1000) as u64;
        let fracpart: u64 = (n % 1000) as u64;
        push_dec_u64(intpart, &mut body);
        body.push('.');
        crate::strutil::push_zero_pad(fracpart, 3, &mut body);
        proof {
            let nn = scaled_thousandths(m as nat, k as int);
            assert(body@ =~= dec_digits(nn / 1000) + seq!['.'] + zero_pad(nn % 1000, 3));
        }
    } else {
        let mut big = le_digits_of_u128(m as u128);
        proof {
            lemma_le_digits_wf(m as nat);
        }
        let mut t: i64 = 0;
        while t < k
            invariant
                0 <= t <= k,
                digits_wf(big@),
                big@ == dbl_n(le_digits_of(m as nat), t as nat),
            decreases k - t,
        {
            big = dbl_exec(&big);
            t = t + 1;
        }
        if big.len() == 0 {
            body.push('0');
            proof {
                assert(body@ =~= chars_of_le(big@));
            }
        } else {
            let mut ci: usize = big.len();
            while ci > 0
                invariant
                    ci <= big@.len(),
                    big@.len() > 0,
                    body@ == Seq::new(
                        (big@.len() - ci) as nat,
                        |i: int| digit_char(big@[big@.len() - 1 - i] as nat),
                    ),
                decreases ci,
            {
                ci -= 1;
                let d: u8 = 48 + big[ci];
                body.push(d as char);
                proof {
                    assert(body@ =~= Seq::new(
                        (big@.len() - ci) as nat,
                        |i: int| digit_char(big@[big@.len() - 1 - i] as nat),
                    ));
                }
            }
            proof {
                assert(body@ =~= chars_of_le(big@));
            }
        }
        body.push('.');
        body.push('0');
        body.push('0');
        body.push('0');
        proof {
            assert(zero_pad(0, 3) =~= seq!['0', '0', '0']) by {
                assert(dec_digits(0) =~= seq![digit_char(0)]);
                assert(char_repeat('0', 2) =~= seq!['0', '0']);
                assert(digit_char(0) == '0');
            }
            assert(body@ =~= chars_of_le(dbl_n(le_digits_of(m as nat), k as nat)) + seq![
                '.',
            ] + zero_pad(0, 3));
        }
    }
    if b >= 0x8000_0000_0000_0000 {
        let mut signed: Vec<char> = Vec::new();
        signed.push('-');
        let ghost bodyv = body@;
        signed.append(&mut body);
        proof {
            assert(signed@ =~= seq!['-'] + bodyv);
        }
        crate::strutil::chars_to_string(signed)
    } else {
        crate::strutil::chars_to_string(body)
    }
}


/// Upper-casing of an ASCII letter.
pub open spec fn ascii_upper(c: char) -> char {
    if 'a' <= c && c <= 'z' {
        (((c as u32) - 32) as u8) as char
    } else {
        c
    }
}

pub open spec fn upper_seq(s: Seq<char>) -> Seq<char> {
    s.map_values(|c: char| ascii_upper(c))
}

pub open spec fn lower_seq(s: Seq<char>) -> Seq<char> {
    s.map_values(|c: char| crate::fieldparse::ascii_lower(c))
}

pub open spec fn starts_with(s: Seq<char>, p: Seq<char>) -> bool {
    s.len() >= p.len() && s.take(p.len() as int) == p
}

/// How one aggregate value prints: counts as integers, the rest to
/// three decimals, an absent value as NULL.
pub open spec fn spec_render_state(name: Seq<char>, st: AggregateState) -> Seq<char> {
    let u = upper_seq(name);
    if starts_with(u, "COUNT"@) {
        dec_digits(st.count as nat)
    } else if starts_with(u, "SUM"@) {
        spec_render_3dp(st.sum)
    } else if starts_with(u, "AVG"@) {
        if st.count == 0 {
            "NULL"@
        } else {
            spec_render_3dp(
                crate::fbits::spec_f64_div(st.sum, crate::fbits::spec_f64_of_u64(st.count)),
            )
        }
    } else if starts_with(u, "MIN"@) {
        match st.min {
            Some(v) => spec_render_3dp(v),
            None => "NULL"@,
        }
    } else if starts_with(u, "MAX"@) {
        match st.max {
            Some(v) => spec_render_3dp(v),
            None => "NULL"@,
        }
    } else {
        dec_digits(st.count as nat)
    }
}

fn upper_chars(s: &str) -> (r: Vec<char>)
    ensures
        r@ == upper_seq(s@),
{
    let v = str_chars(s);
    let mut out: Vec<char> = Vec::new();
    let mut i: usize = 0;
    while i < v.len()
        invariant
            i <= v@.len(),
            v@ == s@,
            out@ == upper_seq(s@).take(i as int),
        decreases v@.len() - i,
    {
        let c = v[i];
        let u: char = if c >= 'a' && c <= 'z' {
            (((c as u32) - 32) as u8) as char
        } else {
            c
        };
        proof {
            assert(u == ascii_upper(s@[i as int]));
        }
        out.push(u);
        i += 1;
        proof {
            assert(out@ =~= upper_seq(s@).take(i as int));
        }
    }
    proof {
        assert(upper_seq(s@).take(s@.len() as int) =~= upper_seq(s@));
    }
    out
}

fn has_prefix(v: &Vec<char>, lit: &str) -> (r: bool)
    ensures
        r == starts_with(v@, lit@),
{
    let l = str_chars(lit);
    if v.len() < l.len() {
        return false;
    }
    let mut i: usize = 0;
    while i < l.len()
        invariant
            i <= l@.len() <= v@.len(),
            l@ == lit@,
            forall|j: int| 0 <= j < i ==> v@[j] == lit@[j],
        decreases l@.len() - i,
    {
        if v[i] != l[i] {
            proof {
                assert(v@.take(lit@.len() as int)[i as int] != lit@[i as int]);
            }
            return false;
        }
        i += 1;
    }
    proof {
        assert(v@.take(lit@.len() as int) =~= lit@);
    }
    true
}

/// Render one aggregate value.
pub fn render_state_value(name: &str, state: &AggregateState) -> (r: String)
    ensures
        r@ == spec_render_state(name@, *state),
{
    let u = upper_chars(name);
    if has_prefix(&u, "COUNT") {
        crate::strutil::u64_to_string(state.count)
    } else if has_prefix(&u, "SUM") {
        render_f64_3dp(state.sum)
    } else if has_prefix(&u, "AVG") {
        if state.count == 0 {
            crate::strutil::chars_to_string(str_chars("NULL"))
        } else {
            render_f64_3dp(f64_div_bits(state.sum, f64_of_u64(state.count)))
        }
    } else if has_prefix(&u, "MIN") {
        match state.min {
            Some(v) => render_f64_3dp(v),
            None => crate::strutil::chars_to_string(str_chars("NULL")),
        }
    } else if has_prefix(&u, "MAX") {
        match state.max {
            Some(v) => render_f64_3dp(v),
            None => crate::strutil::chars_to_string(str_chars("NULL")),
        }
    } else {
        crate::strutil::u64_to_string(state.count)
    }
}

/// The replacement tail of a lower-cased header: `(` becomes `_`, `)`
/// disappears, `*` becomes `star`.
pub open spec fn header_repl(s: Seq<char>) -> Seq<char>
    decreases s.len(),
{
    if s.len() == 0 {
        Seq::empty()
    } else {
        (if s[0] == '(' {
            seq!['_']
        } else if s[0] == ')' {
            Seq::empty()
        } else if s[0] == '*' {
            "star"@
        } else {
            seq![s[0]]
        }) + header_repl(s.drop_first())
    }
}

/// A header lower-cased; when it holds a call shape the punctuation is
/// rewritten.
pub open spec fn spec_normalize_header(s: Seq<char>) -> Seq<char> {
    let low = lower_seq(s);
    if crate::textscan::find_char(low, '(') is Some {
        header_repl(low)
    } else {
        low
    }
}

/// Normalize one aggregate header for display.
#[verifier::loop_isolation(false)]
pub fn normalize_header(raw: &str) -> (r: String)
    ensures
        r@ == spec_normalize_header(raw@),
{
    let v = str_chars(raw);
    let mut low: Vec<char> = Vec::new();
    let mut i: usize = 0;
    while i < v.len()
        invariant
            i <= v@.len(),
            v@ == raw@,
            low@ == lower_seq(raw@).take(i as int),
        decreases v@.len() - i,
    {
        let c = v[i];
        let u: char = if c >= 'A' && c <= 'Z' {
            (((c as u32) + 32) as u8) as char
        } else {
            c
        };
        proof {
            assert(u == crate::fieldparse::ascii_lower(raw@[i as int]));
        }
        low.push(u);
        i += 1;
        proof {
            assert(low@ =~= lower_seq(raw@).take(i as int));
        }
    }
    proof {
        assert(lower_seq(raw@).take(raw@.len() as int) =~= lower_seq(raw@));
    }
    let n = low.len();
    match crate::textscan::find_char_in(&low, 0, n, '(') {
        None => {
            proof {
                assert(low@.subrange(0, n as int) =~= low@);
            }
            crate::strutil::chars_to_string(low)
        },
        Some(_) => {
            proof {
                assert(low@.subrange(0, n as int) =~= low@);
            }
            let mut out: Vec<char> = Vec::new();
            let mut j: usize = 0;
            proof {
                assert(low@.skip(0) =~= low@);
            }
            while j < low.len()
                invariant
                    j <= low@.len(),
                    header_repl(low@) == out@ + header_repl(low@.skip(j as int)),
                decreases low@.len() - j,
            {
                proof {
                    assert(low@.skip(j as int)[0] == low@[j as int]);
                    assert(low@.skip(j as int).drop_first() =~= low@.skip(j as int + 1));
                }
                let c = low[j];
                let ghost preout = out@;
                if c == '(' {
                    out.push('_');
                    proof {
                        assert(out@ =~= preout + seq!['_']);
                    }
                } else if c == ')' {
                    proof {
                        assert(out@ =~= preout + Seq::<char>::empty());
                    }
                } else if c == '*' {
                    let mut star = str_chars("star");
                    out.append(&mut star);
                    proof {
                        assert(out@ =~= preout + "star"@);
                    }
                } else {
                    out.push(c);
                    proof {
                        assert(out@ =~= preout + seq![low@[j as int]]);
                    }
                }
                j += 1;
                proof {
                    assert(header_repl(low@) == out@ + header_repl(low@.skip(j as int)));
                }
            }
            proof {
                assert(header_repl(low@.skip(low@.len() as int)) =~= Seq::<char>::empty());
                assert(out@ + Seq::<char>::empty() =~= out@);
            }
            crate::strutil::chars_to_string(out)
        },
    }
}

/// A cell left-padded with spaces to a width.
pub open spec fn pad_to(s: Seq<char>, w: int) -> Seq<char> {
    if s.len() >= w {
        s
    } else {
        s + char_repeat(' ', (w - s.len()) as nat)
    }
}

/// One padded row, cells joined by a column separator, newline
/// terminated.
pub open spec fn row_cells(cols: Seq<Seq<char>>, widths: Seq<int>, i: int) -> Seq<char>
    decreases cols.len() - i,
{
    if i < 0 || i >= cols.len() {
        Seq::empty()
    } else if i == cols.len() - 1 {
        pad_to(cols[i], widths[i])
    } else {
        pad_to(cols[i], widths[i]) + " | "@ + row_cells(cols, widths, i + 1)
    }
}

pub open spec fn spec_format_row(cols: Seq<Seq<char>>, widths: Seq<int>) -> Seq<char> {
    row_cells(cols, widths, 0) + seq!['\n']
}

/// Format one output row, each cell padded to its column width.
#[verifier::loop_isolation(false)]
pub fn format_row(cols: &Vec<String>, widths: &Vec<usize>) -> (r: String)
    requires
        widths@.len() == cols@.len(),
    ensures
        r@ == spec_format_row(
            cols@.map_values(|s: String| s@),
            widths@.map_values(|w: usize| w as int),
        ),
{
    let ghost cv = cols@.map_values(|s: String| s@);
    let ghost wv = widths@.map_values(|w: usize| w as int);
    let mut out: Vec<char> = Vec::new();
    let mut i: usize = 0;
    proof {
        if cols@.len() == 0 {
            assert(row_cells(cv, wv, 0) =~= Seq::<char>::empty());
        }
    }
    while i < cols.len()
        invariant
            i <= cols@.len(),
            row_cells(cv, wv, 0) == out@ + row_cells(cv, wv, i as int),
        decreases cols@.len() - i,
    {
        let ghost preout = out@;
        let mut cell = str_chars(cols[i].as_str());
        out.append(&mut cell);
        let clen = cols[i].as_str().unicode_len();
        let mut padn: usize = 0;
        while clen + padn < widths[i]
            invariant
                out@ == preout + cv[i as int] + char_repeat(' ', padn as nat),
                clen == cv[i as int].len(),
                padn == 0 || clen + padn <= wv[i as int],
            decreases widths@[i as int] - clen - padn,
        {
            out.push(' ');
            padn += 1;
            proof {
                assert(out@ =~= preout + cv[i as int] + char_repeat(' ', padn as nat));
            }
        }
        proof {
            assert(out@ =~= preout + pad_to(cv[i as int], wv[i as int])) by {
                if cv[i as int].len() >= wv[i as int] {
                    assert(char_repeat(' ', 0) =~= Seq::<char>::empty());
                    assert(preout + cv[i as int] + char_repeat(' ', 0) =~= preout + cv[
                    i as int]);
                } else {
                    assert(clen as int + padn == wv[i as int]);
                    assert(preout + cv[i as int] + char_repeat(' ', padn as nat) =~= preout + (cv[
                    i as int] + char_repeat(' ', (wv[i as int] - cv[i as int].len()) as nat)));
                }
            }
        }
        if i + 1 < cols.len() {
            let mut sep = str_chars(" | ");
            out.append(&mut sep);
            proof {
                assert(out@ =~= preout + (pad_to(cv[i as int], wv[i as int]) + " | "@));
            }
        }
        i += 1;
        proof {
            assert(row_cells(cv, wv, 0) == out@ + row_cells(cv, wv, i as int));
        }
    }
    out.push('\n');
    proof {
        assert(row_cells(cv, wv, cols@.len() as int) =~= Seq::<char>::empty());
        assert(out@ =~= row_cells(cv, wv, 0) + seq!['\n']);
    }
    crate::strutil::chars_to_string(out)
}


/// A name placed into a sorted run, after any equal names.
pub open spec fn insert_name(sorted: Seq<Seq<char>>, x: Seq<char>) -> Seq<Seq<char>>
    decreases sorted.len(),
{
    if sorted.len() == 0 {
        seq![x]
    } else if crate::strutil::lex_bytes(
        vstd::utf8::encode_utf8(x),
        vstd::utf8::encode_utf8(sorted.last()),
    ) == Rel::Lt {
        insert_name(sorted.drop_last(), x).push(sorted.last())
    } else {
        sorted.push(x)
    }
}

/// Names sorted by their byte order.
pub open spec fn sort_names(s: Seq<Seq<char>>) -> Seq<Seq<char>>
    decreases s.len(),
{
    if s.len() == 0 {
        Seq::empty()
    } else {
        insert_name(sort_names(s.drop_last()), s.last())
    }
}

proof fn lemma_insert_name_at(sorted: Seq<Seq<char>>, x: Seq<char>, j: int)
    requires
        0 <= j <= sorted.len(),
        forall|t: int|
            j <= t < sorted.len() ==> crate::strutil::lex_bytes(
                vstd::utf8::encode_utf8(x),
                vstd::utf8::encode_utf8(#[trigger] sorted[t]),
            ) == Rel::Lt,
        j > 0 ==> crate::strutil::lex_bytes(
            vstd::utf8::encode_utf8(x),
            vstd::utf8::encode_utf8(sorted[j - 1]),
        ) != Rel::Lt,
    ensures
        insert_name(sorted, x) == sorted.take(j) + seq![x] + sorted.skip(j),
    decreases sorted.len(),
{
    if sorted.len() == 0 {
        assert(sorted.take(j) + seq![x] + sorted.skip(j) =~= seq![x]);
    } else if j == sorted.len() {
        assert(insert_name(sorted, x) == sorted.push(x));
        assert(sorted.take(j) + seq![x] + sorted.skip(j) =~= sorted.push(x));
    } else {
        lemma_insert_name_at(sorted.drop_last(), x, j);
        assert(sorted.drop_last().take(j) =~= sorted.take(j));
        assert(sorted.drop_last().skip(j) =~= sorted.skip(j).drop_last());
        assert((sorted.take(j) + seq![x] + sorted.skip(j).drop_last()).push(sorted.last())
            =~= sorted.take(j) + seq![x] + sorted.skip(j));
    }
}

/// Sort names by their byte order, equal names keeping their order.
#[verifier::loop_isolation(false)]
#[verifier::rlimit(100)]
pub fn sort_strings(names: &Vec<String>) -> (r: Vec<String>)
    ensures
        r@.map_values(|s: String| s@) == sort_names(names@.map_values(|s: String| s@)),
{
    let ghost nv = names@.map_values(|s: String| s@);
    let mut out: Vec<String> = Vec::new();
    let mut k: usize = 0;
    proof {
        assert(out@.map_values(|s: String| s@) =~= Seq::<Seq<char>>::empty());
        assert(nv.take(0) =~= Seq::<Seq<char>>::empty());
    }
    while k < names.len()
        invariant
            k <= names@.len(),
            nv == names@.map_values(|s: String| s@),
            out@.map_values(|s: String| s@) == sort_names(nv.take(k as int)),
        decreases names@.len() - k,
    {
        let x = names[k].clone();
        proof {
            assert(x@ == nv[k as int]);
        }
        let mut j: usize = out.len();
        while j > 0 && matches!(cmp_str(x.as_str(), out[j - 1].as_str()), Rel::Lt)
            invariant
                j <= out@.len(),
                forall|t: int|
                    j <= t < out@.len() ==> crate::strutil::lex_bytes(
                        vstd::utf8::encode_utf8(x@),
                        vstd::utf8::encode_utf8((#[trigger] out@[t])@),
                    ) == Rel::Lt,
            decreases j,
        {
            proof {
                assert(out@.map_values(|s: String| s@)[j - 1] == out@[j - 1]@);
            }
            j -= 1;
        }
        proof {
            if j > 0 {
                assert(out@.map_values(|s: String| s@)[j - 1] == out@[j - 1]@);
            }
        }
        let ghost preout = out@.map_values(|s: String| s@);
        out.insert(j, x);
        proof {
            lemma_insert_name_at(preout, nv[k as int], j as int);
            assert(out@.map_values(|s: String| s@) =~= preout.take(j as int) + seq![nv[k as int]]
                + preout.skip(j as int));
            assert(nv.take(k as int + 1) =~= nv.take(k as int).push(nv[k as int]));
            assert(nv.take(k as int + 1).drop_last() =~= nv.take(k as int));
        }
        k += 1;
    }
    proof {
        assert(nv.take(names@.len() as int) =~= nv);
    }
    out
}

/// The widest cell of one column over all rows.
pub open spec fn col_width(rows: Seq<Seq<Seq<char>>>, i: int) -> int
    decreases rows.len(),
{
    if rows.len() == 0 {
        0
    } else {
        let rest = col_width(rows.drop_first(), i);
        let cur = if 0 <= i < rows[0].len() {
            rows[0][i].len() as int
        } else {
            0
        };
        if cur >= rest {
            cur
        } else {
            rest
        }
    }
}

/// The separator line under the headers.
pub open spec fn sep_cells(widths: Seq<int>, i: int) -> Seq<char>
    decreases widths.len() - i,
{
    if i < 0 || i >= widths.len() {
        Seq::empty()
    } else {
        let w = if widths[i] >= 3 {
            widths[i]
        } else {
            3
        };
        (if i == widths.len() - 1 {
            char_repeat('-', w as nat)
        } else {
            char_repeat('-', w as nat) + "-+-"@
        }) + sep_cells(widths, i + 1)
    }
}

/// Group-by column names joined with commas.
pub open spec fn join_commas(names: Seq<Seq<char>>, i: int) -> Seq<char>
    decreases names.len() - i,
{
    if i < 0 || i >= names.len() {
        Seq::empty()
    } else if i == names.len() - 1 {
        names[i]
    } else {
        names[i] + seq![','] + join_commas(names, i + 1)
    }
}

/// The footer with the scan counters.
pub open spec fn spec_footer(rows: u64, skipped: u64, ms: u64) -> Seq<char> {
    "Execution Details:\nRows scanned:       "@ + dec_digits(rows as nat)
        + "\nSegments skipped:   "@ + dec_digits(skipped as nat) + "\nExecution time:     "@
        + dec_digits(ms as nat) + " ms"@
}

/// The names of the first group's accumulators, in entry order.
pub open spec fn first_group_names(gm: GroupMap, gk: Seq<char>) -> Seq<Seq<char>>
    decreases gm.entries@.len(),
{
    first_names_from(gm.entries@, gk)
}

pub open spec fn first_names_from(
    entries: Seq<(String, GroupAggregate)>,
    gk: Seq<char>,
) -> Seq<Seq<char>>
    decreases entries.len(),
{
    if entries.len() == 0 {
        Seq::empty()
    } else if entries[0].0@ == gk {
        entries[0].1.entry_views().map_values(|e: (Seq<char>, AggregateState)| e.0)
    } else {
        first_names_from(entries.drop_first(), gk)
    }
}

/// One result row: the group key when grouping shows, then each
/// aggregate value.
pub open spec fn spec_result_cells(
    gm: GroupMap,
    gk: Seq<char>,
    agg_headers: Seq<Seq<char>>,
    include_group: bool,
) -> Seq<Seq<char>> {
    let vals = agg_headers.map_values(
        |name: Seq<char>|
            if gm@.contains_key(gk) && gm@[gk].contains_key(name) {
                spec_render_state(name, gm@[gk][name])
            } else {
                Seq::<char>::empty()
            },
    );
    if include_group {
        seq![gk] + vals
    } else {
        vals
    }
}

pub open spec fn spec_keys(gm: GroupMap) -> Seq<Seq<char>> {
    sort_names(gm.entries@.map_values(|e: (String, GroupAggregate)| e.0@))
}

pub open spec fn spec_agg_headers(gm: GroupMap) -> Seq<Seq<char>> {
    sort_names(first_group_names(gm, spec_keys(gm)[0]))
}

pub open spec fn spec_include_group(gm: GroupMap) -> bool {
    !(spec_keys(gm).len() == 1 && spec_keys(gm)[0] == "all"@)
}

pub open spec fn spec_label(gb: Seq<Seq<char>>) -> Seq<char> {
    if gb.len() == 0 {
        "group"@
    } else {
        join_commas(gb, 0)
    }
}

pub open spec fn spec_headers(gm: GroupMap, gb: Seq<Seq<char>>) -> Seq<Seq<char>> {
    (if spec_include_group(gm) {
        seq![spec_label(gb)]
    } else {
        Seq::<Seq<char>>::empty()
    }) + spec_agg_headers(gm).map_values(|h: Seq<char>| spec_normalize_header(h))
}

pub open spec fn spec_body_rows(gm: GroupMap) -> Seq<Seq<Seq<char>>> {
    spec_keys(gm).map_values(
        |gk: Seq<char>| spec_result_cells(gm, gk, spec_agg_headers(gm), spec_include_group(gm)),
    )
}

/// The whole response text.
pub open spec fn spec_format_results(
    gm: GroupMap,
    rows_scanned: u64,
    segments_skipped: u64,
    exec_ms: u64,
    gb: Seq<Seq<char>>,
) -> Seq<char> {
    let footer = seq!['\n'] + spec_footer(rows_scanned, segments_skipped, exec_ms);
    if gm.entries@.len() == 0 {
        "empty result\n"@ + footer
    } else {
        let headers = spec_headers(gm, gb);
        let body_rows = spec_body_rows(gm);
        let all_rows = seq![headers] + body_rows;
        let widths = Seq::new(headers.len(), |i: int| col_width(all_rows, i));
        let rendered = body_rows.map_values(|rw: Seq<Seq<char>>| spec_format_row(rw, widths));
        spec_format_row(headers, widths) + sep_cells(widths, 0) + seq!['\n'] + flatten_rows(
            rendered,
            0,
        ) + footer
    }
}

pub open spec fn flatten_rows(rows: Seq<Seq<char>>, i: int) -> Seq<char>
    decreases rows.len() - i,
{
    if i < 0 || i >= rows.len() {
        Seq::empty()
    } else {
        rows[i] + flatten_rows(rows, i + 1)
    }
}


/// The sorted header cells and data rows of the table.
#[verifier::loop_isolation(false)]
#[verifier::rlimit(100)]
fn build_table(cuml: &GroupMap, group_by: &Vec<String>) -> (r: (Vec<String>, Vec<Vec<String>>))
    requires
        cuml.wf(),
        cuml.entries@.len() > 0,
        forall|j: int|
            0 <= j < cuml.entries@.len() ==> (#[trigger] cuml.entries@[j]).1.wf(),
    ensures
        r.0@.map_values(|s: String| s@) == spec_headers(
            *cuml,
            group_by@.map_values(|s: String| s@),
        ),
        r.1@.map_values(|rw: Vec<String>| rw@.map_values(|s: String| s@)) == spec_body_rows(
            *cuml,
        ),
{
    let ghost gbv = group_by@.map_values(|s: String| s@);
    // sorted group keys
    let mut key_list: Vec<String> = Vec::new();
    let mut ki: usize = 0;
    proof {
        assert(key_list@.map_values(|s: String| s@) =~= cuml.entries@.map_values(
            |e: (String, GroupAggregate)| e.0@,
        ).take(0));
    }
    while ki < cuml.entries.len()
        invariant
            ki <= cuml.entries@.len(),
            key_list@.map_values(|s: String| s@) == cuml.entries@.map_values(
                |e: (String, GroupAggregate)| e.0@,
            ).take(ki as int),
        decreases cuml.entries@.len() - ki,
    {
        let nm = cuml.entries[ki].0.clone();
        proof {
            assert(nm@ == cuml.entries@[ki as int].0@);
        }
        key_list.push(nm);
        ki += 1;
        proof {
            assert(key_list@.map_values(|s: String| s@) =~= cuml.entries@.map_values(
                |e: (String, GroupAggregate)| e.0@,
            ).take(ki as int));
        }
    }
    proof {
        assert(cuml.entries@.map_values(|e: (String, GroupAggregate)| e.0@).take(
            cuml.entries@.len() as int,
        ) =~= cuml.entries@.map_values(|e: (String, GroupAggregate)| e.0@));
    }
    let group_keys = sort_strings(&key_list);
    let ghost keys = sort_names(cuml.entries@.map_values(|e: (String, GroupAggregate)| e.0@));
    proof {
        lemma_sort_names_len(cuml.entries@.map_values(|e: (String, GroupAggregate)| e.0@));
        assert(group_keys@.map_values(|s: String| s@) == keys);
        assert(group_keys@.len() == keys.len());
        assert(keys.len() == cuml.entries@.len());
    }
    // aggregate headers from the first group's names
    let first_key: &String = &group_keys[0];
    let mut name_list: Vec<String> = Vec::new();
    let mut fi2: usize = 0;
    let mut found = false;
    proof {
        assert(cuml.entries@.skip(0) =~= cuml.entries@);
    }
    while fi2 < cuml.entries.len() && !found
        invariant
            fi2 <= cuml.entries@.len(),
            !found ==> first_names_from(cuml.entries@, first_key@) == first_names_from(
                cuml.entries@.skip(fi2 as int),
                first_key@,
            ) && name_list@.len() == 0,
            found ==> name_list@.map_values(|s: String| s@) == first_names_from(
                cuml.entries@,
                first_key@,
            ),
        decreases cuml.entries@.len() - fi2 + (if found { 0int } else { 1int }),
    {
        proof {
            assert(cuml.entries@.skip(fi2 as int)[0] == cuml.entries@[fi2 as int]);
            assert(cuml.entries@.skip(fi2 as int).drop_first() =~= cuml.entries@.skip(
                fi2 as int + 1,
            ));
        }
        if crate::strutil::eq_str(cuml.entries[fi2].0.as_str(), first_key.as_str()) {
            let grp = &cuml.entries[fi2].1;
            let mut ni: usize = 0;
            while ni < grp.entries.len()
                invariant
                    ni <= grp.entries@.len(),
                    grp == &cuml.entries@[fi2 as int].1,
                    name_list@.map_values(|s: String| s@) == grp.entry_views().map_values(
                        |e: (Seq<char>, AggregateState)| e.0,
                    ).take(ni as int),
                decreases grp.entries@.len() - ni,
            {
                let nm = grp.entries[ni].0.clone();
                proof {
                    assert(nm@ == grp.entries@[ni as int].0@);
                    assert(grp.entry_views().map_values(
                        |e: (Seq<char>, AggregateState)| e.0,
                    )[ni as int] == grp.entries@[ni as int].0@);
                }
                name_list.push(nm);
                ni += 1;
                proof {
                    assert(name_list@.map_values(|s: String| s@) =~= grp.entry_views().map_values(
                        |e: (Seq<char>, AggregateState)| e.0,
                    ).take(ni as int));
                }
            }
            proof {
                assert(grp.entry_views().map_values(|e: (Seq<char>, AggregateState)| e.0).take(
                    grp.entries@.len() as int,
                ) =~= grp.entry_views().map_values(|e: (Seq<char>, AggregateState)| e.0));
            }
            found = true;
        } else {
            fi2 += 1;
        }
    }
    proof {
        if !found {
            assert(cuml.entries@.skip(cuml.entries@.len() as int) =~= Seq::<
                (String, GroupAggregate),
            >::empty());
        }
    }
    let agg_header_list = sort_strings(&name_list);
    let ghost agg_headers = sort_names(first_group_names(*cuml, keys[0]));
    proof {
        assert(first_key@ == keys[0]);
        assert(agg_header_list@.map_values(|s: String| s@) == agg_headers);
        lemma_sort_names_len(first_names_from(cuml.entries@, keys[0]));
    }
    // headers
    let include_group: bool = !(group_keys.len() == 1 && crate::strutil::eq_str(
        group_keys[0].as_str(),
        "all",
    ));
    let mut headers: Vec<String> = Vec::new();
    if include_group {
        if group_by.len() == 0 {
            headers.push(crate::strutil::chars_to_string(str_chars("group")));
        } else {
            let mut lab: Vec<char> = Vec::new();
            let mut gi: usize = 0;
            while gi < group_by.len()
                invariant
                    gi <= group_by@.len(),
                    gbv == group_by@.map_values(|s: String| s@),
                    gbv.len() > 0,
                    join_commas(gbv, 0) == lab@ + (if gi < gbv.len() {
                        join_commas(gbv, gi as int)
                    } else {
                        Seq::<char>::empty()
                    }),
                decreases group_by@.len() - gi,
            {
                let mut part = str_chars(group_by[gi].as_str());
                lab.append(&mut part);
                if gi + 1 < group_by.len() {
                    lab.push(',');
                }
                gi += 1;
                proof {
                    if gi < gbv.len() {
                        assert(join_commas(gbv, 0) =~= lab@ + join_commas(gbv, gi as int));
                    } else {
                        assert(join_commas(gbv, 0) =~= lab@ + Seq::<char>::empty());
                    }
                }
            }
            proof {
                assert(lab@ =~= join_commas(gbv, 0));
            }
            headers.push(crate::strutil::chars_to_string(lab));
        }
    }
    let ghost label = if gbv.len() == 0 {
        "group"@
    } else {
        join_commas(gbv, 0)
    };
    let mut hi: usize = 0;
    proof {
        if include_group {
            assert(headers@.map_values(|s: String| s@) =~= seq![label]);
        } else {
            assert(headers@.map_values(|s: String| s@) =~= Seq::<Seq<char>>::empty());
        }
    }
    let ghost hdr_base = headers@.map_values(|s: String| s@);
    while hi < agg_header_list.len()
        invariant
            hi <= agg_header_list@.len(),
            agg_header_list@.map_values(|s: String| s@) == agg_headers,
            headers@.map_values(|s: String| s@) == hdr_base + agg_headers.map_values(
                |h: Seq<char>| spec_normalize_header(h),
            ).take(hi as int),
        decreases agg_header_list@.len() - hi,
    {
        let nh = normalize_header(agg_header_list[hi].as_str());
        proof {
            assert(agg_header_list@[hi as int]@ == agg_headers[hi as int]);
            assert(agg_headers.map_values(|h: Seq<char>| spec_normalize_header(h))[hi as int]
                == spec_normalize_header(agg_headers[hi as int]));
        }
        let ghost premap = headers@.map_values(|s: String| s@);
        let ghost nhv = nh@;
        headers.push(nh);
        hi += 1;
        proof {
            assert(headers@.map_values(|s: String| s@) =~= premap.push(nhv));
            assert(agg_headers.map_values(|h: Seq<char>| spec_normalize_header(h)).take(hi as int)
                =~= agg_headers.map_values(|h: Seq<char>| spec_normalize_header(h)).take(
                hi - 1,
            ).push(spec_normalize_header(agg_headers[hi - 1])));
            assert(hdr_base + agg_headers.map_values(|h: Seq<char>| spec_normalize_header(h)).take(
                hi - 1,
            ).push(spec_normalize_header(agg_headers[hi - 1])) =~= (hdr_base
                + agg_headers.map_values(|h: Seq<char>| spec_normalize_header(h)).take(hi - 1)).push(
                spec_normalize_header(agg_headers[hi - 1]),
            ));
        }
    }
    proof {
        assert(agg_headers.map_values(|h: Seq<char>| spec_normalize_header(h)).take(
            agg_headers.len() as int,
        ) =~= agg_headers.map_values(|h: Seq<char>| spec_normalize_header(h)));
    }
    let ghost headersv = hdr_base + agg_headers.map_values(|h: Seq<char>| spec_normalize_header(h));
    // data rows
    let mut rows: Vec<Vec<String>> = Vec::new();
    let mut ri: usize = 0;
    proof {
        assert(rows@.map_values(
            |rw: Vec<String>| rw@.map_values(|s: String| s@),
        ) =~= keys.map_values(
            |gk: Seq<char>| spec_result_cells(*cuml, gk, agg_headers, include_group),
        ).take(0));
    }
    while ri < group_keys.len()
        invariant
            ri <= group_keys@.len(),
            group_keys@.map_values(|s: String| s@) == keys,
            agg_header_list@.map_values(|s: String| s@) == agg_headers,
            cuml.wf(),
            forall|j: int|
                0 <= j < cuml.entries@.len() ==> (#[trigger] cuml.entries@[j]).1.wf(),
            rows@.map_values(|rw: Vec<String>| rw@.map_values(|s: String| s@))
                == keys.map_values(
                |gk: Seq<char>| spec_result_cells(*cuml, gk, agg_headers, include_group),
            ).take(ri as int),
        decreases group_keys@.len() - ri,
    {
        let gk = &group_keys[ri];
        let mut cells: Vec<String> = Vec::new();
        if include_group {
            cells.push(gk.clone());
        }
        let ghost cell_base = cells@.map_values(|s: String| s@);
        proof {
            if include_group {
                assert(cell_base =~= seq![keys[ri as int]]);
            } else {
                assert(cell_base =~= Seq::<Seq<char>>::empty());
            }
        }
        let ghost vals = agg_headers.map_values(
            |name: Seq<char>|
                if cuml@.contains_key(keys[ri as int]) && cuml@[keys[ri as int]].contains_key(
                    name,
                ) {
                    spec_render_state(name, cuml@[keys[ri as int]][name])
                } else {
                    Seq::<char>::empty()
                },
        );
        let mut ai: usize = 0;
        while ai < agg_header_list.len()
            invariant
                ai <= agg_header_list@.len(),
                agg_header_list@.map_values(|s: String| s@) == agg_headers,
                group_keys@.map_values(|s: String| s@) == keys,
                ri < group_keys@.len(),
                cuml.wf(),
                forall|j: int|
                    0 <= j < cuml.entries@.len() ==> (#[trigger] cuml.entries@[j]).1.wf(),
                vals == agg_headers.map_values(
                    |name: Seq<char>|
                        if cuml@.contains_key(keys[ri as int]) && cuml@[keys[
                        ri as int]].contains_key(name) {
                            spec_render_state(name, cuml@[keys[ri as int]][name])
                        } else {
                            Seq::<char>::empty()
                        },
                ),
                cells@.map_values(|s: String| s@) == cell_base + vals.take(ai as int),
            decreases agg_header_list@.len() - ai,
        {
            let raw = &agg_header_list[ai];
            let cell: String = match cuml.get_index(group_keys[ri].as_str()) {
                Some(idx) => {
                    match cuml.entries[idx].1.get(raw.as_str()) {
                        Some(st) => render_state_value(raw.as_str(), &st),
                        None => crate::strutil::chars_to_string(Vec::new()),
                    }
                },
                None => crate::strutil::chars_to_string(Vec::new()),
            };
            proof {
                assert(vals[ai as int] == (if cuml@.contains_key(keys[ri as int])
                    && cuml@[keys[ri as int]].contains_key(agg_headers[ai as int]) {
                    spec_render_state(
                        agg_headers[ai as int],
                        cuml@[keys[ri as int]][agg_headers[ai as int]],
                    )
                } else {
                    Seq::<char>::empty()
                }));
                assert(cell@ == vals[ai as int]);
            }
            let ghost precells = cells@.map_values(|s: String| s@);
            let ghost cellv = cell@;
            cells.push(cell);
            ai += 1;
            proof {
                assert(cells@.map_values(|s: String| s@) =~= precells.push(cellv));
                assert(vals.take(ai as int) =~= vals.take(ai - 1).push(vals[ai - 1]));
                assert(cell_base + vals.take(ai - 1).push(vals[ai - 1]) =~= (cell_base + vals.take(
                    ai - 1,
                )).push(vals[ai - 1]));
            }
        }
        proof {
            assert(vals.take(agg_headers.len() as int) =~= vals);
            assert(cells@.map_values(|s: String| s@) =~= spec_result_cells(
                *cuml,
                keys[ri as int],
                agg_headers,
                include_group,
            ));
        }
        rows.push(cells);
        ri += 1;
        proof {
            assert(rows@.map_values(|rw: Vec<String>| rw@.map_values(|s: String| s@))
                =~= keys.map_values(
                |gk2: Seq<char>| spec_result_cells(*cuml, gk2, agg_headers, include_group),
            ).take(ri as int));
        }
    }
    let ghost body_rows = keys.map_values(
        |gk2: Seq<char>| spec_result_cells(*cuml, gk2, agg_headers, include_group),
    );
    proof {
        assert(body_rows.take(keys.len() as int) =~= body_rows);
        assert(keys == spec_keys(*cuml));
        assert(agg_headers == spec_agg_headers(*cuml));
        assert(include_group == spec_include_group(*cuml));
        assert(hdr_base + agg_headers.map_values(|h: Seq<char>| spec_normalize_header(h))
            =~= spec_headers(*cuml, gbv));
        assert(body_rows =~= spec_body_rows(*cuml));
    }
    (headers, rows)
}

/// Render the merged result as the pipe-delimited table with its
/// footer; an empty merge renders as `empty result`.
#[verifier::loop_isolation(false)]
#[verifier::rlimit(100)]
pub fn format_results(
    cuml: &GroupMap,
    rows_scanned: u64,
    segments_skipped: u64,
    exec_ms: u64,
    group_by: &Vec<String>,
) -> (r: String)
    requires
        cuml.wf(),
        forall|j: int|
            0 <= j < cuml.entries@.len() ==> (#[trigger] cuml.entries@[j]).1.wf(),
    ensures
        r@ == spec_format_results(
            *cuml,
            rows_scanned,
            segments_skipped,
            exec_ms,
            group_by@.map_values(|s: String| s@),
        ),
{
    let ghost gbv = group_by@.map_values(|s: String| s@);
    // footer
    let mut footer: Vec<char> = Vec::new();
    footer.push('\n');
    let mut f1 = str_chars("Execution Details:\nRows scanned:       ");
    footer.append(&mut f1);
    push_dec_u64(rows_scanned, &mut footer);
    let mut f2 = str_chars("\nSegments skipped:   ");
    footer.append(&mut f2);
    push_dec_u64(segments_skipped, &mut footer);
    let mut f3 = str_chars("\nExecution time:     ");
    footer.append(&mut f3);
    push_dec_u64(exec_ms, &mut footer);
    let mut f4 = str_chars(" ms");
    footer.append(&mut f4);
    proof {
        assert(footer@ =~= seq!['\n'] + spec_footer(rows_scanned, segments_skipped, exec_ms));
    }
    if cuml.entries.len() == 0 {
        let mut out = str_chars("empty result\n");
        out.append(&mut footer);
        proof {
            assert(out@ =~= spec_format_results(
                *cuml,
                rows_scanned,
                segments_skipped,
                exec_ms,
                gbv,
            ));
        }
        return crate::strutil::chars_to_string(out);
    }
    let (headers, rows) = build_table(cuml, group_by);
    let ghost headersv = spec_headers(*cuml, gbv);
    let ghost body_rows = spec_body_rows(*cuml);
    // column widths
    let ghost all_rows = seq![headersv] + body_rows;
    let mut widths: Vec<usize> = Vec::new();
    let mut wi: usize = 0;
    while wi < headers.len()
        invariant
            wi <= headers@.len(),
            headers@.map_values(|s: String| s@) == headersv,
            rows@.map_values(|rw: Vec<String>| rw@.map_values(|s: String| s@)) == body_rows,
            all_rows == seq![headersv] + body_rows,
            widths@.len() == wi,
            forall|t: int|
                0 <= t < wi ==> #[trigger] widths@[t] == col_width(all_rows, t),
        decreases headers@.len() - wi,
    {
        let mut w: usize = headers[wi].as_str().unicode_len();
        let mut rj: usize = 0;
        proof {
            assert(seq![headersv] + body_rows.take(0) =~= seq![headersv]);
            assert(seq![headersv].drop_first() =~= Seq::<Seq<Seq<char>>>::empty());
            assert(col_width(Seq::<Seq<Seq<char>>>::empty(), wi as int) == 0);
            assert(headers@[wi as int]@ == headersv[wi as int]);
        }
        while rj < rows.len()
            invariant
                rj <= rows@.len(),
                wi < headers@.len(),
                headers@.map_values(|s: String| s@) == headersv,
                rows@.map_values(|rw: Vec<String>| rw@.map_values(|s: String| s@)) == body_rows,
                all_rows == seq![headersv] + body_rows,
                w as int == col_width(seq![headersv] + body_rows.take(rj as int), wi as int),
            decreases rows@.len() - rj,
        {
            let rcells = &rows[rj];
            let cw: usize = if wi < rcells.len() {
                rcells[wi].as_str().unicode_len()
            } else {
                0
            };
            if cw > w {
                w = cw;
            }
            rj += 1;
            proof {
                assert(body_rows[rj - 1] == rows@[rj - 1]@.map_values(|s: String| s@));
                lemma_col_width_push(
                    seq![headersv] + body_rows.take(rj - 1),
                    body_rows[rj - 1],
                    wi as int,
                );
                assert((seq![headersv] + body_rows.take(rj - 1)).push(body_rows[rj - 1])
                    =~= seq![headersv] + body_rows.take(rj as int));
            }
        }
        proof {
            assert(body_rows.take(rows@.len() as int) =~= body_rows);
        }
        widths.push(w);
        wi += 1;
    }
    proof {
        assert(widths@.map_values(|w2: usize| w2 as int) =~= Seq::new(
            headersv.len(),
            |i: int| col_width(all_rows, i),
        ));
    }
    // assemble
    let mut out: Vec<char> = Vec::new();
    let mut hrow = str_chars(format_row(&headers, &widths).as_str());
    out.append(&mut hrow);
    let mut si: usize = 0;
    let ghost widthsv = Seq::new(headersv.len(), |i: int| col_width(all_rows, i));
    proof {
        assert(out@ =~= spec_format_row(headersv, widthsv) + sep_cells(widthsv, 0).take(0));
    }
    while si < widths.len()
        invariant
            si <= widths@.len(),
            widths@.len() == headersv.len(),
            widths@.map_values(|w2: usize| w2 as int) == widthsv,
            out@ == spec_format_row(headersv, widthsv) + sep_cells_prefix(widthsv, si as int),
        decreases widths@.len() - si,
    {
        let w0 = widths[si];
        let w = if w0 >= 3 {
            w0
        } else {
            3
        };
        let mut di: usize = 0;
        let ghost preout = out@;
        while di < w
            invariant
                di <= w,
                out@ == preout + char_repeat('-', di as nat),
            decreases w - di,
        {
            out.push('-');
            di += 1;
            proof {
                assert(out@ =~= preout + char_repeat('-', di as nat));
            }
        }
        if si + 1 < widths.len() {
            let mut sep = str_chars("-+-");
            out.append(&mut sep);
        }
        si += 1;
        proof {
            assert(out@ =~= spec_format_row(headersv, widthsv) + sep_cells_prefix(
                widthsv,
                si as int,
            ));
        }
    }
    proof {
        lemma_sep_split(widthsv, widths@.len() as int);
        assert(sep_cells(widthsv, widths@.len() as int) =~= Seq::<char>::empty());
        assert(sep_cells_prefix(widthsv, widths@.len() as int) + Seq::<char>::empty()
            =~= sep_cells_prefix(widthsv, widths@.len() as int));
    }
    out.push('\n');
    let mut bi2: usize = 0;
    let ghost rendered = body_rows.map_values(|rw: Seq<Seq<char>>| spec_format_row(rw, widthsv));
    proof {
        assert(out@ =~= spec_format_row(headersv, widthsv) + sep_cells(widthsv, 0) + seq!['\n']
            + flatten_rows(rendered, 0).take(0));
    }
    proof {
        assert forall|j: int|
            0 <= j < rows@.len() implies (#[trigger] rows@[j])@.len() == widths@.len() by {
            assert(rows@.map_values(|rw: Vec<String>| rw@.map_values(|s: String| s@))[j]
                == body_rows[j]);
            assert(body_rows[j] == spec_result_cells(
                *cuml,
                spec_keys(*cuml)[j],
                spec_agg_headers(*cuml),
                spec_include_group(*cuml),
            ));
            assert(rows@[j]@.map_values(|s: String| s@).len() == rows@[j]@.len());
        }
    }
    while bi2 < rows.len()
        invariant
            bi2 <= rows@.len(),
            rows@.map_values(|rw: Vec<String>| rw@.map_values(|s: String| s@)) == body_rows,
            widths@.len() == headersv.len(),
            widths@.map_values(|w2: usize| w2 as int) == widthsv,
            rendered == body_rows.map_values(
                |rw: Seq<Seq<char>>| spec_format_row(rw, widthsv),
            ),
            rows_match_widths(rows@, widths@),
            out@ == spec_format_row(headersv, widthsv) + sep_cells(widthsv, 0) + seq!['\n']
                + flatten_prefix(rendered, bi2 as int),
        decreases rows@.len() - bi2,
    {
        let mut rrow = str_chars(format_row(&rows[bi2], &widths).as_str());
        out.append(&mut rrow);
        bi2 += 1;
        proof {
            assert(out@ =~= spec_format_row(headersv, widthsv) + sep_cells(widthsv, 0) + seq![
                '\n',
            ] + flatten_prefix(rendered, bi2 as int));
        }
    }
    proof {
        lemma_flatten_split(rendered, rows@.len() as int);
        assert(flatten_rows(rendered, rendered.len() as int) =~= Seq::<char>::empty());
        assert(flatten_prefix(rendered, rows@.len() as int) + Seq::<char>::empty()
            =~= flatten_prefix(rendered, rows@.len() as int));
    }
    out.append(&mut footer);
    proof {
        assert(out@ =~= spec_format_results(
            *cuml,
            rows_scanned,
            segments_skipped,
            exec_ms,
            gbv,
        ));
    }
    crate::strutil::chars_to_string(out)
}

/// Rows all as long as the width list.
pub open spec fn rows_match_widths(rows: Seq<Vec<String>>, widths: Seq<usize>) -> bool {
    forall|j: int| 0 <= j < rows.len() ==> (#[trigger] rows[j])@.len() == widths.len()
}

pub open spec fn sep_cells_prefix(widths: Seq<int>, i: int) -> Seq<char>
    decreases i,
{
    if i <= 0 {
        Seq::empty()
    } else {
        sep_cells_prefix(widths, i - 1) + one_sep_cell(widths, i - 1)
    }
}

pub open spec fn one_sep_cell(widths: Seq<int>, i: int) -> Seq<char> {
    let w = if widths[i] >= 3 {
        widths[i]
    } else {
        3
    };
    if i == widths.len() - 1 {
        char_repeat('-', w as nat)
    } else {
        char_repeat('-', w as nat) + "-+-"@
    }
}

pub open spec fn flatten_prefix(rows: Seq<Seq<char>>, i: int) -> Seq<char>
    decreases i,
{
    if i <= 0 {
        Seq::empty()
    } else {
        flatten_prefix(rows, i - 1) + rows[i - 1]
    }
}

proof fn lemma_flatten_split(rows: Seq<Seq<char>>, i: int)
    requires
        0 <= i <= rows.len(),
    ensures
        flatten_prefix(rows, i) + flatten_rows(rows, i) == flatten_rows(rows, 0),
    decreases i,
{
    if i > 0 {
        lemma_flatten_split(rows, i - 1);
        assert(flatten_rows(rows, i - 1) == rows[i - 1] + flatten_rows(rows, i));
        assert(flatten_prefix(rows, i - 1) + (rows[i - 1] + flatten_rows(rows, i)) =~= (
        flatten_prefix(rows, i - 1) + rows[i - 1]) + flatten_rows(rows, i));
    } else {
        assert(flatten_prefix(rows, 0) + flatten_rows(rows, 0) =~= flatten_rows(rows, 0));
    }
}

proof fn lemma_sep_split(widths: Seq<int>, i: int)
    requires
        0 <= i <= widths.len(),
    ensures
        sep_cells_prefix(widths, i) + sep_cells(widths, i) == sep_cells(widths, 0),
    decreases i,
{
    if i > 0 {
        lemma_sep_split(widths, i - 1);
        assert(sep_cells(widths, i - 1) == one_sep_cell(widths, i - 1) + sep_cells(widths, i));
        assert(sep_cells_prefix(widths, i - 1) + (one_sep_cell(widths, i - 1) + sep_cells(
            widths,
            i,
        )) =~= (sep_cells_prefix(widths, i - 1) + one_sep_cell(widths, i - 1)) + sep_cells(
            widths,
            i,
        ));
    } else {
        assert(sep_cells_prefix(widths, 0) + sep_cells(widths, 0) =~= sep_cells(widths, 0));
    }
}

proof fn lemma_col_width_push(rows: Seq<Seq<Seq<char>>>, row: Seq<Seq<char>>, i: int)
    ensures
        col_width(rows.push(row), i) == ({
            let cur = if 0 <= i < row.len() {
                row[i].len() as int
            } else {
                0
            };
            if cur >= col_width(rows, i) {
                cur
            } else {
                col_width(rows, i)
            }
        }),
    decreases rows.len(),
{
    if rows.len() == 0 {
        assert(rows.push(row)[0] == row);
        assert(rows.push(row).drop_first() =~= Seq::<Seq<Seq<char>>>::empty());
        assert(col_width(rows, i) == 0);
        assert(col_width(Seq::<Seq<Seq<char>>>::empty(), i) == 0);
    } else {
        assert(rows.push(row)[0] == rows[0]);
        assert(rows.push(row).drop_first() =~= rows.drop_first().push(row));
        lemma_col_width_push(rows.drop_first(), row, i);
    }
}

proof fn lemma_sort_names_len(s: Seq<Seq<char>>)
    ensures
        sort_names(s).len() == s.len(),
    decreases s.len(),
{
    if s.len() > 0 {
        lemma_sort_names_len(s.drop_last());
        lemma_insert_name_len(sort_names(s.drop_last()), s.last());
    }
}

proof fn lemma_insert_name_len(sorted: Seq<Seq<char>>, x: Seq<char>)
    ensures
        insert_name(sorted, x).len() == sorted.len() + 1,
    decreases sorted.len(),
{
    if sorted.len() > 0 && crate::strutil::lex_bytes(
        vstd::utf8::encode_utf8(x),
        vstd::utf8::encode_utf8(sorted.last()),
    ) == Rel::Lt {
        lemma_insert_name_len(sorted.drop_last(), x);
    }
}


/// Little-endian decimal digits quintupled, with a carry in.
pub open spec fn quint_digits(ds: Seq<u8>, c: nat) -> Seq<u8>
    decreases ds.len(),
{
    if ds.len() == 0 {
        if c == 0 {
            Seq::empty()
        } else {
            seq![c as u8]
        }
    } else {
        seq![((5 * ds[0] + c) % 10) as u8] + quint_digits(
            ds.drop_first(),
            ((5 * ds[0] + c) / 10) as nat,
        )
    }
}

/// The digits after quintupling a number of times.
pub open spec fn quint_n(ds: Seq<u8>, n: nat) -> Seq<u8>
    decreases n,
{
    if n == 0 {
        ds
    } else {
        quint_digits(quint_n(ds, (n - 1) as nat), 0)
    }
}

/// One decimal quintupling pass.
#[verifier::loop_isolation(false)]
fn quint_exec(big: &Vec<u8>) -> (r: Vec<u8>)
    requires
        digits_wf(big@),
    ensures
        r@ == quint_digits(big@, 0),
        digits_wf(r@),
{
    let mut out: Vec<u8> = Vec::new();
    let mut carry: u8 = 0;
    let mut bi: usize = 0;
    proof {
        assert(big@.skip(0) =~= big@);
        assert(out@ + quint_digits(big@.skip(0), 0) =~= quint_digits(big@, 0));
    }
    while bi < big.len()
        invariant
            bi <= big@.len(),
            carry <= 4,
            digits_wf(out@),
            out@ + quint_digits(big@.skip(bi as int), carry as nat) == quint_digits(big@, 0),
        decreases big@.len() - bi,
    {
        proof {
            assert(big@.skip(bi as int)[0] == big@[bi as int]);
            assert(big@.skip(bi as int).drop_first() =~= big@.skip(bi as int + 1));
        }
        let d2: u16 = 5 * (big[bi] as u16) + (carry as u16);
        let ghost prequint = quint_digits(big@.skip(bi as int), carry as nat);
        out.push((d2 % 10) as u8);
        carry = (d2 / 10) as u8;
        bi += 1;
        proof {
            assert(prequint == seq![((5 * big@[bi - 1] + (d2 as nat - 5 * big@[bi - 1]) as nat)
                % 10) as u8] + quint_digits(big@.skip(bi as int), ((5 * big@[bi - 1] + (d2 as nat
                - 5 * big@[bi - 1]) as nat) / 10) as nat));
            assert(out@ + quint_digits(big@.skip(bi as int), carry as nat) =~= out@.drop_last()
                + prequint);
        }
    }
    if carry > 0 {
        out.push(carry);
    }
    proof {
        assert(big@.skip(big@.len() as int) =~= Seq::<u8>::empty());
        if carry > 0 {
            assert(quint_digits(Seq::<u8>::empty(), carry as nat) =~= seq![carry]);
            assert(out@ =~= out@.drop_last().push(carry));
        } else {
            assert(out@ + quint_digits(Seq::<u8>::empty(), 0) =~= out@);
        }
    }
    out
}

/// The exact decimal significand of a nonzero finite pattern, least
/// significant digit first.
pub open spec fn exact_digits(b: u64) -> Seq<u8> {
    let m = f64_mantissa(b);
    let k = f64_exp(b);
    if k >= 0 {
        dbl_n(le_digits_of(m), k as nat)
    } else {
        quint_n(le_digits_of(m), (-k) as nat)
    }
}

/// The power of ten of the exact significand's least significant digit.
pub open spec fn exact_scale(b: u64) -> int {
    if f64_exp(b) >= 0 {
        0
    } else {
        f64_exp(b)
    }
}

/// A digit string plus one, least significant digit first.
pub open spec fn inc_digits(ds: Seq<u8>) -> Seq<u8>
    decreases ds.len(),
{
    if ds.len() == 0 {
        seq![1u8]
    } else if ds[0] == 9 {
        seq![0u8] + inc_digits(ds.drop_first())
    } else {
        ds.update(0, (ds[0] + 1) as u8)
    }
}

/// The top `d` digits of an exact significand, rounded to nearest with
/// ties to even; a carried overflow lengthens the result by one digit.
pub open spec fn round_sig(ds: Seq<u8>, d: int) -> Seq<u8> {
    if ds.len() <= d {
        ds
    } else {
        let kept = ds.skip(ds.len() - d);
        let nxt = ds[ds.len() - d - 1];
        let rest_nonzero = exists|i: int| 0 <= i < ds.len() - d - 1 && ds[i] != 0;
        if nxt > 5 || (nxt == 5 && (rest_nonzero || kept[0] % 2 == 1)) {
            inc_digits(kept)
        } else {
            kept
        }
    }
}

/// The round-trip probe text of the `d`-digit candidate: its digits and
/// the power of ten of their last place, in exponent form.
pub open spec fn cand_text(b: u64, d: int) -> Seq<char> {
    let ds = round_sig(exact_digits(b), d);
    let scale = exact_scale(b) + (if exact_digits(b).len() <= d {
        0int
    } else {
        exact_digits(b).len() - d
    });
    (if crate::fbits::f64_is_neg(b) {
        seq!['-']
    } else {
        Seq::<char>::empty()
    }) + chars_of_le(ds) + seq!['e'] + crate::strutil::dec_int(scale)
}

/// The fewest significand digits whose nearest decimal reads back as
/// the same pattern, probing from `d` up to seventeen, which always
/// suffices for a double.
pub open spec fn chosen_digits(b: u64, d: int) -> int
    decreases 17 - d,
{
    if d >= 17 {
        17
    } else if crate::fbits::spec_parse_f64(cand_text(b, d)) == Some(b) {
        d
    } else {
        chosen_digits(b, d + 1)
    }
}

/// Decimal expansion of a digit string (most significant first) whose
/// leading digit sits at the given power of ten, the way plain decimal
/// display writes it: no exponent, zeros filled in as needed.
pub open spec fn expand_decimal(digits: Seq<char>, e_msd: int) -> Seq<char> {
    if e_msd >= digits.len() - 1 {
        digits + char_repeat('0', (e_msd - (digits.len() - 1)) as nat)
    } else if e_msd >= 0 {
        digits.take(e_msd + 1) + seq!['.'] + digits.skip(e_msd + 1)
    } else {
        "0."@ + char_repeat('0', (-e_msd - 1) as nat) + digits
    }
}

/// The shortest decimal text that reads back as the same pattern,
/// written in plain decimal form.
pub open spec fn spec_display_f64(b: u64) -> Seq<char> {
    if f64_is_nan(b) {
        "NaN"@
    } else if f64_mag(b) == 0x7ff0_0000_0000_0000 {
        if f64_is_neg(b) {
            "-inf"@
        } else {
            "inf"@
        }
    } else if f64_mag(b) == 0 {
        if f64_is_neg(b) {
            "-0"@
        } else {
            "0"@
        }
    } else {
        let d = chosen_digits(b, 1);
        let ds = round_sig(exact_digits(b), d);
        let scale = exact_scale(b) + (if exact_digits(b).len() <= d {
            0int
        } else {
            exact_digits(b).len() - d
        });
        let digits = chars_of_le(ds);
        let e_msd = scale + ds.len() - 1;
        (if f64_is_neg(b) {
            seq!['-']
        } else {
            Seq::<char>::empty()
        }) + expand_decimal(digits, e_msd)
    }
}


/// The big-endian digit characters of a non-empty digit string.
#[verifier::loop_isolation(false)]
fn le_chars(ds: &Vec<u8>) -> (r: Vec<char>)
    requires
        digits_wf(ds@),
        ds@.len() > 0,
    ensures
        r@ == chars_of_le(ds@),
{
    let mut out: Vec<char> = Vec::new();
    let mut ci: usize = ds.len();
    while ci > 0
        invariant
            ci <= ds@.len(),
            out@ == Seq::new(
                (ds@.len() - ci) as nat,
                |i: int| digit_char(ds@[ds@.len() - 1 - i] as nat),
            ),
        decreases ci,
    {
        ci -= 1;
        let d: u8 = 48 + ds[ci];
        out.push(d as char);
        proof {
            assert(out@ =~= Seq::new(
                (ds@.len() - ci) as nat,
                |i: int| digit_char(ds@[ds@.len() - 1 - i] as nat),
            ));
        }
    }
    proof {
        assert(out@ =~= chars_of_le(ds@));
    }
    out
}

/// Round a significand to its top `d` digits, ties to even.
#[verifier::loop_isolation(false)]
#[verifier::rlimit(100)]
fn round_sig_exec(ds: &Vec<u8>, d: usize) -> (r: Vec<u8>)
    requires
        digits_wf(ds@),
        1 <= d,
    ensures
        r@ == round_sig(ds@, d as int),
        digits_wf(r@),
        ds@.len() > 0 ==> r@.len() > 0,
{
    let n = ds.len();
    if n <= d {
        let r = crate::codec::bytes_range(ds, 0, n);
        proof {
            assert(r@ =~= ds@);
        }
        return r;
    }
    let mut kept = crate::codec::bytes_range(ds, n - d, n);
    proof {
        assert(kept@ =~= ds@.skip(n - d));
    }
    let nxt = ds[n - d - 1];
    let mut rest_nonzero = false;
    let mut i: usize = 0;
    while i < n - d - 1
        invariant
            i <= n - d - 1,
            n == ds@.len(),
            d < n,
            rest_nonzero == (exists|j: int| 0 <= j < i && ds@[j] != 0),
        decreases n - d - 1 - i,
    {
        if ds[i] != 0 {
            rest_nonzero = true;
        }
        i += 1;
    }
    let up = nxt > 5 || (nxt == 5 && (rest_nonzero || kept[0] % 2 == 1));
    proof {
        assert(rest_nonzero == (exists|j: int| 0 <= j < n - d - 1 && ds@[j] != 0));
    }
    if !up {
        return kept;
    }
    // add one to the kept digits, carrying through nines
    let ghost orig = kept@;
    let mut ki: usize = 0;
    proof {
        assert(orig.skip(0) =~= orig);
        assert(kept@.take(0) + inc_digits(orig) =~= inc_digits(orig));
    }
    loop
        invariant
            ki <= kept@.len(),
            kept@.len() == orig.len(),
            digits_wf(kept@),
            forall|j: int| 0 <= j < ki ==> #[trigger] kept@[j] == 0,
            forall|j: int| ki <= j < orig.len() ==> #[trigger] kept@[j] == orig[j],
            forall|j: int| 0 <= j < ki ==> #[trigger] orig[j] == 9,
            inc_digits(orig) == char_zeros_then(kept@, ki as int, inc_digits(orig.skip(ki as int))),
        decreases kept@.len() - ki,
    {
        proof {
            if ki < orig.len() {
                assert(orig.skip(ki as int)[0] == orig[ki as int]);
                assert(orig.skip(ki as int).drop_first() =~= orig.skip(ki as int + 1));
            }
        }
        if ki == kept.len() {
            kept.push(1);
            proof {
                assert(orig.skip(orig.len() as int) =~= Seq::<u8>::empty());
                assert(inc_digits(Seq::<u8>::empty()) =~= seq![1u8]);
                assert(kept@ =~= inc_digits(orig));
            }
            break;
        }
        if kept[ki] == 9 {
            kept.set(ki, 0);
            ki += 1;
            proof {
                assert(inc_digits(orig) == char_zeros_then(
                    kept@,
                    ki as int,
                    inc_digits(orig.skip(ki as int)),
                ));
            }
        } else {
            let v = kept[ki];
            kept.set(ki, v + 1);
            proof {
                assert(inc_digits(orig.skip(ki as int)) =~= orig.skip(ki as int).update(
                    0,
                    (orig[ki as int] + 1) as u8,
                ));
                assert(kept@ =~= inc_digits(orig));
            }
            break;
        }
    }
    kept
}

/// The first `k` entries, then the given tail: how an increment's carry
/// chain decomposes.
pub open spec fn char_zeros_then(cur: Seq<u8>, k: int, tail: Seq<u8>) -> Seq<u8> {
    cur.take(k) + tail
}


/// The exact significand digits of a nonzero finite pattern.
#[verifier::loop_isolation(false)]
fn exact_digits_exec(b: u64, m: u64, k: i64) -> (r: Vec<u8>)
    requires
        m == f64_mantissa(b),
        k == f64_exp(b),
        -1074 <= k <= 972,
        m > 0,
    ensures
        r@ == exact_digits(b),
        digits_wf(r@),
        r@.len() > 0,
{
    let mut big = le_digits_of_u128(m as u128);
    proof {
        lemma_le_digits_wf(m as nat);
        assert(le_digits_of(m as nat).len() > 0);
    }
    if k >= 0 {
        let mut t: i64 = 0;
        while t < k
            invariant
                0 <= t <= k,
                digits_wf(big@),
                big@.len() > 0,
                big@ == dbl_n(le_digits_of(m as nat), t as nat),
            decreases k - t,
        {
            let nxt = dbl_exec(&big);
            proof {
                lemma_dbl_keeps_some(big@);
            }
            big = nxt;
            t = t + 1;
        }
    } else {
        let s2: i64 = -k;
        let mut t: i64 = 0;
        while t < s2
            invariant
                0 <= t <= s2,
                digits_wf(big@),
                big@.len() > 0,
                big@ == quint_n(le_digits_of(m as nat), t as nat),
            decreases s2 - t,
        {
            let nxt = quint_exec(&big);
            proof {
                lemma_quint_keeps_some(big@);
            }
            big = nxt;
            t = t + 1;
        }
    }
    big
}

proof fn lemma_dbl_keeps_some(ds: Seq<u8>)
    requires
        ds.len() > 0,
    ensures
        dbl_digits(ds, 0).len() > 0,
{
}

proof fn lemma_quint_keeps_some(ds: Seq<u8>)
    requires
        ds.len() > 0,
    ensures
        quint_digits(ds, 0).len() > 0,
{
}

/// Probe one candidate: whether its digits, rounded to `d` places,
/// read back as the same pattern.
#[verifier::loop_isolation(false)]
#[verifier::rlimit(100)]
fn probe_digits(b: u64, exact: &Vec<u8>, scale0: i64, d: usize, neg: bool) -> (r: bool)
    requires
        exact@ == exact_digits(b),
        digits_wf(exact@),
        exact@.len() > 0,
        exact@.len() <= 1200,
        scale0 == exact_scale(b),
        -1074 <= scale0 <= 0,
        neg == crate::fbits::f64_is_neg(b),
        1 <= d <= 17,
    ensures
        r == (crate::fbits::spec_parse_f64(cand_text(b, d as int)) == Some(b)),
{
    let ds = round_sig_exec(exact, d);
    let scale_d: i64 = scale0 + (if exact.len() <= d {
        0
    } else {
        (exact.len() - d) as i64
    });
    let mut cand: Vec<char> = Vec::new();
    if neg {
        cand.push('-');
    }
    let mut digs = le_chars(&ds);
    cand.append(&mut digs);
    cand.push('e');
    crate::strutil::push_dec_i64(scale_d, &mut cand);
    proof {
        assert(cand@ =~= cand_text(b, d as int));
    }
    let text = crate::strutil::chars_to_string(cand);
    match crate::fbits::parse_f64_bits(text.as_str()) {
        Some(x) => x == b,
        None => false,
    }
}

/// Write the plain decimal form of signed digits whose leading digit
/// sits at the given power of ten.
#[verifier::loop_isolation(false)]
#[verifier::rlimit(100)]
fn expand_exec(digits: &Vec<char>, e_msd: i64, neg: bool) -> (r: Vec<char>)
    requires
        1 <= digits@.len() <= 1300,
        -1100 <= e_msd <= 1300,
    ensures
        r@ == (if neg {
            seq!['-']
        } else {
            Seq::<char>::empty()
        }) + expand_decimal(digits@, e_msd as int),
{
    let dlen = digits.len();
    let mut out: Vec<char> = Vec::new();
    if neg {
        out.push('-');
    }
    let ghost signseq: Seq<char> = if neg {
        seq!['-']
    } else {
        Seq::<char>::empty()
    };
    if e_msd >= (dlen as i64) - 1 {
        let mut dd = crate::textscan::chars_range(digits, 0, dlen);
        out.append(&mut dd);
        let zeros: usize = (e_msd - (dlen as i64) + 1) as usize;
        let mut zi: usize = 0;
        let ghost pre = out@;
        while zi < zeros
            invariant
                zi <= zeros,
                out@ == pre + char_repeat('0', zi as nat),
            decreases zeros - zi,
        {
            out.push('0');
            zi += 1;
            proof {
                assert(out@ =~= pre + char_repeat('0', zi as nat));
            }
        }
        proof {
            assert(digits@ =~= digits@.subrange(0, dlen as int));
            assert(out@ =~= signseq + (digits@ + char_repeat(
                '0',
                (e_msd - (dlen as int - 1)) as nat,
            )));
        }
    } else if e_msd >= 0 {
        let cut: usize = (e_msd + 1) as usize;
        let mut head = crate::textscan::chars_range(digits, 0, cut);
        out.append(&mut head);
        out.push('.');
        let mut tail = crate::textscan::chars_range(digits, cut, dlen);
        out.append(&mut tail);
        proof {
            assert(digits@.subrange(cut as int, dlen as int) =~= digits@.skip(cut as int));
            assert(digits@.subrange(0, cut as int) =~= digits@.take(cut as int));
            assert(out@ =~= signseq + (digits@.take(e_msd + 1) + seq!['.'] + digits@.skip(
                e_msd + 1,
            )));
        }
    } else {
        let mut zp = str_chars("0.");
        out.append(&mut zp);
        let zeros: usize = (-e_msd - 1) as usize;
        let mut zi: usize = 0;
        let ghost pre = out@;
        while zi < zeros
            invariant
                zi <= zeros,
                out@ == pre + char_repeat('0', zi as nat),
            decreases zeros - zi,
        {
            out.push('0');
            zi += 1;
            proof {
                assert(out@ =~= pre + char_repeat('0', zi as nat));
            }
        }
        let mut dd = crate::textscan::chars_range(digits, 0, dlen);
        out.append(&mut dd);
        proof {
            assert(digits@ =~= digits@.subrange(0, dlen as int));
            assert(out@ =~= signseq + ("0."@ + char_repeat('0', (-e_msd - 1) as nat) + digits@));
        }
    }
    out
}

/// The shortest plain decimal text that reads back as the same bit
/// pattern: digits are found by exact decimal expansion of the value,
/// each candidate checked through the decimal parser.
#[verifier::loop_isolation(false)]
#[verifier::rlimit(100)]
pub fn display_f64(b: u64) -> (r: String)
    ensures
        r@ == spec_display_f64(b),
{
    let mag: u64 = b & 0x7fff_ffff_ffff_ffff;
    let neg: bool = b >= 0x8000_0000_0000_0000;
    if mag > 0x7ff0_0000_0000_0000 {
        return crate::strutil::chars_to_string(str_chars("NaN"));
    }
    if mag == 0x7ff0_0000_0000_0000 {
        if neg {
            return crate::strutil::chars_to_string(str_chars("-inf"));
        }
        return crate::strutil::chars_to_string(str_chars("inf"));
    }
    if mag == 0 {
        if neg {
            return crate::strutil::chars_to_string(str_chars("-0"));
        }
        return crate::strutil::chars_to_string(str_chars("0"));
    }
    let e: u64 = (b >> 52) & 0x7ff;
    let f: u64 = b & 0xf_ffff_ffff_ffff;
    proof {
        assert(e <= 0x7ff) by (bit_vector)
            requires
                e == (b >> 52) & 0x7ff,
        ;
        assert(f < 0x10_0000_0000_0000) by (bit_vector)
            requires
                f == b & 0xf_ffff_ffff_ffff,
        ;
        assert(e == 0 ==> f == mag || mag >= 0x8000_0000_0000_0000) by (bit_vector)
            requires
                e == (b >> 52) & 0x7ff,
                f == b & 0xf_ffff_ffff_ffff,
                mag == b & 0x7fff_ffff_ffff_ffff,
        ;
        assert(mag < 0x8000_0000_0000_0000) by (bit_vector)
            requires
                mag == b & 0x7fff_ffff_ffff_ffff,
        ;
    }
    let m: u64 = if e == 0 {
        f
    } else {
        f + 0x10_0000_0000_0000
    };
    let k: i64 = if e == 0 {
        -1074
    } else {
        (e as i64) - 1075
    };
    proof {
        assert(m == f64_mantissa(b));
        assert(k == f64_exp(b));
    }
    let exact = exact_digits_exec(b, m, k);
    let scale0: i64 = if k >= 0 {
        0
    } else {
        k
    };
    proof {
        assert(scale0 == exact_scale(b));
        assert(exact@.len() <= 1200) by {
            lemma_exact_digits_len(b);
        };
    }
    let mut d: usize = 1;
    let mut chosen: usize = 17;
    let mut found = false;
    while d < 17 && !found
        invariant
            1 <= d <= 17,
            exact@ == exact_digits(b),
            digits_wf(exact@),
            exact@.len() > 0,
            exact@.len() <= 1200,
            scale0 == exact_scale(b),
            -1074 <= scale0 <= 0,
            neg == crate::fbits::f64_is_neg(b),
            !found ==> chosen_digits(b, 1) == chosen_digits(b, d as int) && chosen == 17,
            found ==> chosen == chosen_digits(b, 1) && 1 <= chosen <= 17,
        decreases (if found { 0int } else { 17 - d }),
    {
        if probe_digits(b, &exact, scale0, d, neg) {
            chosen = d;
            found = true;
        } else {
            d += 1;
        }
    }
    proof {
        if !found {
            assert(chosen_digits(b, 17) == 17);
            assert(chosen == chosen_digits(b, 1));
        }
    }
    // assemble the plain decimal form
    let ds = round_sig_exec(&exact, chosen);
    let scale: i64 = scale0 + (if exact.len() <= chosen {
        0
    } else {
        (exact.len() - chosen) as i64
    });
    proof {
        lemma_round_len(exact@, chosen as int);
        assert(ds@.len() <= 18);
    }
    let digits = le_chars(&ds);
    let e_msd: i64 = scale + (ds.len() as i64) - 1;
    let out = expand_exec(&digits, e_msd, neg);
    proof {
        assert(out@ =~= spec_display_f64(b));
    }
    crate::strutil::chars_to_string(out)
}

/// Rounding keeps at most one extra digit.
proof fn lemma_round_len(ds: Seq<u8>, d: int)
    requires
        0 <= d,
    ensures
        round_sig(ds, d).len() <= (if ds.len() <= d {
            ds.len() as int
        } else {
            d + 1
        }),
{
    if ds.len() > d {
        lemma_inc_len(ds.skip(ds.len() - d));
    }
}

proof fn lemma_inc_len(ds: Seq<u8>)
    ensures
        inc_digits(ds).len() <= ds.len() + 1,
    decreases ds.len(),
{
    if ds.len() > 0 && ds[0] == 9 {
        lemma_inc_len(ds.drop_first());
    }
}

/// The exact significand never outgrows the doublings and quintuplings
/// that build it: one digit per pass at most, on a seventeen-digit start.
proof fn lemma_exact_digits_len(b: u64)
    ensures
        exact_digits(b).len() <= 1200,
{
    let m = f64_mantissa(b);
    let k = f64_exp(b);
    assert(crate::fieldparse::pow10n(17) == 100000000000000000) by {
        reveal_with_fuel(crate::fieldparse::pow10n, 19);
    }
    assert((b & 0xf_ffff_ffff_ffff) < 0x10_0000_0000_0000) by (bit_vector);
    assert(((b >> 52) & 0x7ff) <= 0x7ff) by (bit_vector);
    assert(m < 0x20_0000_0000_0000);
    assert(-1074 <= k <= 972);
    lemma_le_digits_len(m as nat, 17);
    if k >= 0 {
        lemma_dbl_n_len(le_digits_of(m as nat), k as nat);
    } else {
        lemma_quint_n_len(le_digits_of(m as nat), (-k) as nat);
    }
}

proof fn lemma_le_digits_len(x: nat, n: nat)
    requires
        x < crate::fieldparse::pow10n(n),
    ensures
        le_digits_of(x).len() <= n,
    decreases x,
{
    if x > 0 {
        assert(n >= 1) by {
            if n == 0 {
                assert(crate::fieldparse::pow10n(0) == 1);
            }
        }
        assert(x / 10 < crate::fieldparse::pow10n((n - 1) as nat)) by (nonlinear_arith)
            requires
                x < 10 * crate::fieldparse::pow10n((n - 1) as nat),
                x >= 0,
                crate::fieldparse::pow10n((n - 1) as nat) >= 0,
        ;
        lemma_le_digits_len(x / 10, (n - 1) as nat);
    }
}

proof fn lemma_dbl_len(ds: Seq<u8>, c: nat)
    ensures
        dbl_digits(ds, c).len() <= ds.len() + 1,
    decreases ds.len(),
{
    if ds.len() > 0 {
        lemma_dbl_len(ds.drop_first(), ((2 * ds[0] + c) / 10) as nat);
    }
}

proof fn lemma_dbl_n_len(ds: Seq<u8>, n: nat)
    ensures
        dbl_n(ds, n).len() <= ds.len() + n,
    decreases n,
{
    if n > 0 {
        lemma_dbl_n_len(ds, (n - 1) as nat);
        lemma_dbl_len(dbl_n(ds, (n - 1) as nat), 0);
    }
}

proof fn lemma_quint_len(ds: Seq<u8>, c: nat)
    ensures
        quint_digits(ds, c).len() <= ds.len() + 1,
    decreases ds.len(),
{
    if ds.len() > 0 {
        lemma_quint_len(ds.drop_first(), ((5 * ds[0] + c) / 10) as nat);
    }
}

proof fn lemma_quint_n_len(ds: Seq<u8>, n: nat)
    ensures
        quint_n(ds, n).len() <= ds.len() + n,
    decreases n,
{
    if n > 0 {
        lemma_quint_n_len(ds, (n - 1) as nat);
        lemma_quint_len(quint_n(ds, (n - 1) as nat), 0);
    }
}

} // verus!

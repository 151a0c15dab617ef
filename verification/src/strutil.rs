//! Decimal rendering of integers, zero padding, and byte-wise string
//! comparison, all specified over character and byte sequences.
use vstd::prelude::*;

verus! {

use vstd::string::StringSliceAdditionalSpecFns;

use crate::fbits::Rel;

/// The digit character for a value below ten.
pub open spec fn digit_char(d: nat) -> char {
    (((48 + d) % 256) as u8) as char
}

/// Decimal digits of a natural number, most significant first.
pub open spec fn dec_digits(n: nat) -> Seq<char>
    decreases n,
{
    if n < 10 {
        seq![digit_char(n)]
    } else {
        dec_digits((n / 10) as nat).push(digit_char(n % 10))
    }
}

/// Decimal text of an integer, with a leading minus sign when negative.
pub open spec fn dec_int(i: int) -> Seq<char> {
    if i < 0 {
        seq!['-'] + dec_digits((-i) as nat)
    } else {
        dec_digits(i as nat)
    }
}

/// A run of identical characters.
pub open spec fn char_repeat(c: char, n: nat) -> Seq<char> {
    Seq::new(n, |i: int| c)
}

/// Decimal text left-padded with zeros to the given width.
pub open spec fn zero_pad(n: nat, w: nat) -> Seq<char> {
    if dec_digits(n).len() >= w {
        dec_digits(n)
    } else {
        char_repeat('0', (w - dec_digits(n).len()) as nat) + dec_digits(n)
    }
}

/// Relies on String::from_iter: collecting characters yields the string
/// of exactly those characters.
#[verifier::external_body]
pub fn chars_to_string(v: Vec<char>) -> (r: String)
    ensures
        r@ == v@,
{
    String::from_iter(v)
}

pub fn push_dec_u64(n: u64, out: &mut Vec<char>)
    ensures
        final(out)@ == old(out)@ + dec_digits(n as nat),
    decreases n,
{
    if n >= 10 {
        push_dec_u64(n / 10, out);
    }
    let d: u8 = 48 + (n % 10) as u8;
    out.push(d as char);
    assert(out@ =~= old(out)@ + dec_digits(n as nat));
}

pub fn push_dec_u128(n: u128, out: &mut Vec<char>)
    ensures
        final(out)@ == old(out)@ + dec_digits(n as nat),
    decreases n,
{
    if n >= 10 {
        push_dec_u128(n / 10, out);
    }
    let d: u8 = 48 + (n % 10) as u8;
    out.push(d as char);
    assert(out@ =~= old(out)@ + dec_digits(n as nat));
}

pub fn push_dec_i64(i: i64, out: &mut Vec<char>)
    ensures
        final(out)@ == old(out)@ + dec_int(i as int),
{
    if i < 0 {
        out.push('-');
        let m: u64 = (-(i as i128)) as u64;
        assert(m == -(i as int));
        push_dec_u64(m, out);
        assert(out@ =~= old(out)@ + dec_int(i as int));
    } else {
        push_dec_u64(i as u64, out);
    }
}

pub fn push_zero_pad(n: u64, w: usize, out: &mut Vec<char>)
    ensures
        final(out)@ == old(out)@ + zero_pad(n as nat, w as nat),
{
    let mut digits: Vec<char> = Vec::new();
    push_dec_u64(n, &mut digits);
    let mut pad: usize = 0;
    let need: usize = if digits.len() >= w {
        0
    } else {
        w - digits.len()
    };
    while pad < need
        invariant
            pad <= need,
            digits@ == dec_digits(n as nat),
            out@ == old(out)@ + char_repeat('0', pad as nat),
        decreases need - pad,
    {
        out.push('0');
        pad += 1;
        assert(out@ =~= old(out)@ + char_repeat('0', pad as nat));
    }
    let mut i: usize = 0;
    while i < digits.len()
        invariant
            i <= digits.len(),
            digits@ == dec_digits(n as nat),
            out@ == old(out)@ + char_repeat('0', need as nat) + digits@.take(i as int),
        decreases digits@.len() - i,
    {
        out.push(digits[i]);
        i += 1;
        assert(out@ =~= old(out)@ + char_repeat('0', need as nat) + digits@.take(i as int));
    }
    assert(digits@.take(digits@.len() as int) =~= digits@);
    assert(out@ =~= old(out)@ + zero_pad(n as nat, w as nat));
}

pub fn u64_to_string(n: u64) -> (r: String)
    ensures
        r@ == dec_digits(n as nat),
{
    let mut v: Vec<char> = Vec::new();
    push_dec_u64(n, &mut v);
    chars_to_string(v)
}

pub fn i64_to_string(i: i64) -> (r: String)
    ensures
        r@ == dec_int(i as int),
{
    let mut v: Vec<char> = Vec::new();
    push_dec_i64(i, &mut v);
    chars_to_string(v)
}

/// Byte-wise lexicographic order.
pub open spec fn lex_bytes(x: Seq<u8>, y: Seq<u8>) -> Rel
    decreases x.len(),
{
    if x.len() == 0 && y.len() == 0 {
        Rel::Eq
    } else if x.len() == 0 {
        Rel::Lt
    } else if y.len() == 0 {
        Rel::Gt
    } else if x[0] < y[0] {
        Rel::Lt
    } else if x[0] > y[0] {
        Rel::Gt
    } else {
        lex_bytes(x.drop_first(), y.drop_first())
    }
}

/// Dropping an equal prefix does not change the ordering.
proof fn lemma_lex_skip(x: Seq<u8>, y: Seq<u8>, i: int)
    requires
        0 <= i <= x.len(),
        i <= y.len(),
        forall|j: int| 0 <= j < i ==> x[j] == y[j],
    ensures
        lex_bytes(x, y) == lex_bytes(x.skip(i), y.skip(i)),
    decreases i,
{
    if i > 0 {
        assert(x.len() > 0 && y.len() > 0);
        assert(x[0] == y[0]);
        lemma_lex_skip(x.drop_first(), y.drop_first(), i - 1);
        assert(x.drop_first().skip(i - 1) =~= x.skip(i));
        assert(y.drop_first().skip(i - 1) =~= y.skip(i));
    } else {
        assert(x.skip(0) =~= x);
        assert(y.skip(0) =~= y);
    }
}

/// The ordering is equality exactly on equal sequences.
pub proof fn lemma_lex_eq(x: Seq<u8>, y: Seq<u8>)
    ensures
        lex_bytes(x, y) == Rel::Eq <==> x == y,
    decreases x.len(),
{
    if x.len() == 0 && y.len() == 0 {
        assert(x =~= y);
    } else if x.len() > 0 && y.len() > 0 && x[0] == y[0] {
        lemma_lex_eq(x.drop_first(), y.drop_first());
        if x.drop_first() == y.drop_first() {
            assert(x.len() == y.len());
            assert forall|k: int| 0 <= k < x.len() implies x[k] == y[k] by {
                if k > 0 {
                    assert(x[k] == x.drop_first()[k - 1]);
                    assert(y[k] == y.drop_first()[k - 1]);
                }
            }
            assert(x =~= y);
        }
        if x == y {
            assert(x.drop_first() =~= y.drop_first());
        }
    } else {
        if x == y {
            assert(x.len() == y.len());
            if x.len() > 0 {
                assert(x[0] == y[0]);
            }
        }
    }
}

/// Exchanging the arguments exchanges Lt and Gt.
pub proof fn lemma_lex_flip(x: Seq<u8>, y: Seq<u8>)
    ensures
        lex_bytes(x, y) == Rel::Lt <==> lex_bytes(y, x) == Rel::Gt,
    decreases x.len(),
{
    if x.len() > 0 && y.len() > 0 && x[0] == y[0] {
        lemma_lex_flip(x.drop_first(), y.drop_first());
    }
}

/// Strictly-below is transitive, also through an equality on either side.
pub proof fn lemma_lex_trans(x: Seq<u8>, y: Seq<u8>, z: Seq<u8>)
    requires
        lex_bytes(x, y) != Rel::Gt,
        lex_bytes(y, z) != Rel::Gt,
    ensures
        lex_bytes(x, z) != Rel::Gt,
        lex_bytes(x, y) == Rel::Lt || lex_bytes(y, z) == Rel::Lt ==> lex_bytes(x, z) == Rel::Lt,
    decreases x.len() + y.len() + z.len(),
{
    if x.len() > 0 && y.len() > 0 && z.len() > 0 {
        if x[0] == y[0] && y[0] == z[0] {
            lemma_lex_trans(x.drop_first(), y.drop_first(), z.drop_first());
        }
    }
}

/// String equality decided on the UTF-8 bytes.
pub fn eq_str(a: &str, b: &str) -> (r: bool)
    ensures
        r == (a@ == b@),
{
    broadcast use vstd::utf8::encode_utf8_decode_utf8;

    let ab = a.as_bytes();
    let bb = b.as_bytes();
    if ab.len() != bb.len() {
        assert(a@ != b@) by {
            if a@ == b@ {
                assert(a.spec_bytes() == b.spec_bytes());
            }
        };
        return false;
    }
    let n = ab.len();
    let mut i: usize = 0;
    while i < n
        invariant
            i <= n,
            n == ab@.len() && n == bb@.len(),
            ab@ == a.spec_bytes() && bb@ == b.spec_bytes(),
            forall|j: int| 0 <= j < i ==> ab@[j] == bb@[j],
        decreases n - i,
    {
        if ab[i] != bb[i] {
            assert(a@ != b@) by {
                if a@ == b@ {
                    assert(a.spec_bytes() == b.spec_bytes());
                }
            };
            return false;
        }
        i += 1;
    }
    proof {
        assert(a.spec_bytes() =~= b.spec_bytes());
        assert(vstd::utf8::decode_utf8(vstd::utf8::encode_utf8(a@)) == a@);
        assert(vstd::utf8::decode_utf8(vstd::utf8::encode_utf8(b@)) == b@);
    }
    true
}

/// Byte-wise lexicographic comparison of two strings.
pub fn cmp_str(a: &str, b: &str) -> (r: Rel)
    ensures
        r == lex_bytes(a.spec_bytes(), b.spec_bytes()),
{
    let ab = a.as_bytes();
    let bb = b.as_bytes();
    let na = ab.len();
    let nb = bb.len();
    let mut i: usize = 0;
    loop
        invariant
            i <= na && i <= nb,
            na == ab@.len() && nb == bb@.len(),
            ab@ == a.spec_bytes() && bb@ == b.spec_bytes(),
            forall|j: int| 0 <= j < i ==> ab@[j] == bb@[j],
        decreases na - i,
    {
        proof {
            lemma_lex_skip(ab@, bb@, i as int);
        }
        if i >= na || i >= nb {
            if na == nb {
                return Rel::Eq;
            } else if na < nb {
                return Rel::Lt;
            } else {
                return Rel::Gt;
            }
        }
        if ab[i] < bb[i] {
            return Rel::Lt;
        }
        if ab[i] > bb[i] {
            return Rel::Gt;
        }
        i += 1;
    }
}

} // verus!

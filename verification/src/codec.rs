//! The per-column binary cell format: a null prefix byte, then a
//! type-specific little-endian payload; and the two stream layouts,
//! raw (one tagged cell per value) and run-length encoded.
use vstd::prelude::*;

verus! {

use vstd::arithmetic::power2::pow2;
use vstd::utf8::encode_utf8;

use crate::rpc::{le_bytes, le_val, ScalarV};
use crate::storage_schema::ColumnType;

/// Two's-complement reading of a 4-byte value.
pub open spec fn i32_val(n: nat) -> int {
    if n >= 0x8000_0000 {
        n - 0x1_0000_0000
    } else {
        n as int
    }
}

/// Two's-complement reading of an 8-byte value.
pub open spec fn i64_val(n: nat) -> int {
    if n >= 0x8000_0000_0000_0000 {
        n - 0x1_0000_0000_0000_0000
    } else {
        n as int
    }
}

/// The text a string cell's bytes denote: exact for valid UTF-8.
pub open spec fn str_of_bytes(b: Seq<u8>) -> Seq<char> {
    if vstd::utf8::valid_utf8(b) {
        vstd::utf8::decode_utf8(b)
    } else {
        spec_utf8_lossy(b)
    }
}

/// The text that lossy UTF-8 decoding yields on invalid bytes.
pub uninterp spec fn spec_utf8_lossy(b: Seq<u8>) -> Seq<char>;

/// Relies on String::from_utf8_lossy: valid UTF-8 decodes to exactly the
/// characters it encodes; invalid bytes give a replacement text that
/// depends on the bytes alone.
#[verifier::external_body]
pub fn bytes_to_string(b: &Vec<u8>) -> (r: String)
    ensures
        vstd::utf8::valid_utf8(b@) ==> r@ == vstd::utf8::decode_utf8(b@),
        !vstd::utf8::valid_utf8(b@) ==> r@ == spec_utf8_lossy(b@),
        r@ == str_of_bytes(b@),
{
    String::from_utf8_lossy(b).into_owned()
}

/// Whether a value can be stored in a column of the given type.
pub open spec fn cell_fits(t: ColumnType, v: ScalarV) -> bool {
    match (t, v) {
        (ColumnType::Int32, ScalarV::Int(i)) => -0x8000_0000 <= i < 0x8000_0000,
        (ColumnType::Date, ScalarV::Int(i)) => -0x8000_0000 <= i < 0x8000_0000,
        (ColumnType::Int64, ScalarV::Int(i)) => -0x8000_0000_0000_0000 <= i
            < 0x8000_0000_0000_0000,
        (ColumnType::TimestampMs, ScalarV::Int(i)) => -0x8000_0000_0000_0000 <= i
            < 0x8000_0000_0000_0000,
        (ColumnType::Float64, ScalarV::Float(_)) => true,
        (ColumnType::Bool, ScalarV::Bool(_)) => true,
        (ColumnType::Str, ScalarV::Str(s)) => encode_utf8(s).len() < 0x1_0000_0000,
        _ => false,
    }
}

/// The payload bytes of a present value.
pub open spec fn enc_payload(t: ColumnType, v: ScalarV) -> Seq<u8> {
    match (t, v) {
        (ColumnType::Int32, ScalarV::Int(i)) => le_bytes((i % 0x1_0000_0000) as u64, 4),
        (ColumnType::Date, ScalarV::Int(i)) => le_bytes((i % 0x1_0000_0000) as u64, 4),
        (ColumnType::Int64, ScalarV::Int(i)) => le_bytes(
            (i % 0x1_0000_0000_0000_0000) as u64,
            8,
        ),
        (ColumnType::TimestampMs, ScalarV::Int(i)) => le_bytes(
            (i % 0x1_0000_0000_0000_0000) as u64,
            8,
        ),
        (ColumnType::Float64, ScalarV::Float(b)) => le_bytes(b, 8),
        (ColumnType::Bool, ScalarV::Bool(b)) => seq![
            if b {
                1u8
            } else {
                0u8
            },
        ],
        (ColumnType::Str, ScalarV::Str(s)) => le_bytes(encode_utf8(s).len() as u64, 4)
            + encode_utf8(s),
        _ => Seq::empty(),
    }
}

/// One encoded cell: 0x00 for null, else 0x01 and the payload.
pub open spec fn enc_cell(t: ColumnType, ov: Option<ScalarV>) -> Seq<u8> {
    match ov {
        None => seq![0u8],
        Some(v) => seq![1u8] + enc_payload(t, v),
    }
}

/// Decode a payload at a position: the value and the next position, or
/// None when the bytes end too early.
pub open spec fn dec_payload(t: ColumnType, b: Seq<u8>, p: int) -> Option<(ScalarV, int)> {
    match t {
        ColumnType::Int32 => if p + 4 <= b.len() {
            Some((ScalarV::Int(i32_val(le_val(b.subrange(p, p + 4)))), p + 4))
        } else {
            None
        },
        ColumnType::Date => if p + 4 <= b.len() {
            Some((ScalarV::Int(i32_val(le_val(b.subrange(p, p + 4)))), p + 4))
        } else {
            None
        },
        ColumnType::Int64 => if p + 8 <= b.len() {
            Some((ScalarV::Int(i64_val(le_val(b.subrange(p, p + 8)))), p + 8))
        } else {
            None
        },
        ColumnType::TimestampMs => if p + 8 <= b.len() {
            Some((ScalarV::Int(i64_val(le_val(b.subrange(p, p + 8)))), p + 8))
        } else {
            None
        },
        ColumnType::Float64 => if p + 8 <= b.len() {
            Some((ScalarV::Float(le_val(b.subrange(p, p + 8)) as u64), p + 8))
        } else {
            None
        },
        ColumnType::Bool => if p + 1 <= b.len() {
            Some((ScalarV::Bool(b[p] != 0), p + 1))
        } else {
            None
        },
        ColumnType::Str => if p + 4 <= b.len() {
            {
                let l = le_val(b.subrange(p, p + 4));
                if p + 4 + l <= b.len() {
                    Some((ScalarV::Str(str_of_bytes(b.subrange(p + 4, p + 4 + l))), p + 4 + l))
                } else {
                    None
                }
            }
        } else {
            None
        },
    }
}

/// Decode one tagged cell at a position.
pub open spec fn dec_cell(t: ColumnType, b: Seq<u8>, p: int) -> Option<(Option<ScalarV>, int)> {
    if p + 1 > b.len() {
        None
    } else if b[p] == 0 {
        Some((None, p + 1))
    } else {
        match dec_payload(t, b, p + 1) {
            Some((v, q)) => Some((Some(v), q)),
            None => None,
        }
    }
}

pub proof fn lemma_dec_cell_bounds(t: ColumnType, b: Seq<u8>, p: int)
    requires
        0 <= p <= b.len(),
    ensures
        dec_cell(t, b, p) matches Some(vq) ==> p < vq.1 <= b.len(),
{
}

/// The values a raw tagged-cell stream yields from a position: the
/// longest decodable prefix.
pub open spec fn raw_vals(t: ColumnType, b: Seq<u8>, p: int) -> Seq<Option<ScalarV>>
    decreases b.len() - p,
    via raw_vals_dec
{
    if p < 0 || p > b.len() {
        Seq::empty()
    } else {
        match dec_cell(t, b, p) {
            None => Seq::empty(),
            Some((v, q)) => seq![v] + raw_vals(t, b, q),
        }
    }
}

#[via_fn]
proof fn raw_vals_dec(t: ColumnType, b: Seq<u8>, p: int) {
    if 0 <= p <= b.len() {
        lemma_dec_cell_bounds(t, b, p);
    }
}

/// The values a run-length encoded stream yields from a position:
/// each run is a count, then one tagged cell, repeated count times.
/// A zero count ends the stream.
pub open spec fn rle_vals(t: ColumnType, b: Seq<u8>, p: int) -> Seq<Option<ScalarV>>
    decreases b.len() - p,
    via rle_vals_dec
{
    if p < 0 || p + 4 > b.len() {
        Seq::empty()
    } else {
        let cnt = le_val(b.subrange(p, p + 4));
        match dec_cell(t, b, p + 4) {
            None => Seq::empty(),
            Some((v, q)) => if cnt == 0 {
                Seq::empty()
            } else {
                Seq::new(cnt, |i: int| v) + rle_vals(t, b, q)
            },
        }
    }
}

#[via_fn]
proof fn rle_vals_dec(t: ColumnType, b: Seq<u8>, p: int) {
    if 0 <= p && p + 4 <= b.len() {
        lemma_dec_cell_bounds(t, b, p + 4);
    }
}

/// The run-length file magic, the bytes of "RLE1".
pub open spec fn rle_magic() -> Seq<u8> {
    seq![82u8, 76u8, 69u8, 49u8]
}

/// All values a column file holds, in order.
pub open spec fn column_values(t: ColumnType, b: Seq<u8>) -> Seq<Option<ScalarV>> {
    if b.len() >= 4 && b.subrange(0, 4) == rle_magic() {
        rle_vals(t, b, 4)
    } else {
        raw_vals(t, b, 0)
    }
}

pub proof fn lemma_le_val_bound(s: Seq<u8>)
    ensures
        le_val(s) < pow2(8 * s.len()),
    decreases s.len(),
{
    vstd::arithmetic::power2::lemma_pow2_pos(8 * s.len());
    if s.len() == 0 {
    } else {
        lemma_le_val_bound(s.drop_first());
        vstd::arithmetic::power2::lemma_pow2_adds(8, (8 * (s.len() - 1)) as nat);
        vstd::arithmetic::power2::lemma2_to64();
        assert(le_val(s) == s[0] + 256 * le_val(s.drop_first()));
        assert(le_val(s.drop_first()) < pow2((8 * (s.len() - 1)) as nat));
        assert(s[0] < 256);
        assert(256 * le_val(s.drop_first()) <= 256 * (pow2((8 * (s.len() - 1)) as nat) - 1))
            by (nonlinear_arith)
            requires
                le_val(s.drop_first()) <= pow2((8 * (s.len() - 1)) as nat) - 1,
        ;
    }
}

/// Read a `w`-byte little-endian value, `w` at most 8.
pub fn read_le(data: &Vec<u8>, p: usize, w: usize) -> (r: u64)
    requires
        w <= 8,
        p + w <= data@.len(),
    ensures
        r == le_val(data@.subrange(p as int, (p + w) as int)),
{
    proof {
        vstd::arithmetic::power2::lemma2_to64();
    }
    let n: usize = data.len();
    let mut i: usize = w;
    let mut r: u64 = 0;
    while i > 0
        invariant
            i <= w <= 8,
            n == data@.len(),
            p + w <= n,
            r == le_val(data@.subrange((p + i) as int, (p + w) as int)),
            r < pow2(8 * ((w - i) as nat)),
        decreases i,
    {
        i -= 1;
        let ghost pre = r;
        let ghost sub = data@.subrange((p + i) as int, (p + w) as int);
        proof {
            vstd::arithmetic::power2::lemma2_to64();
            vstd::arithmetic::power2::lemma2_to64_rest();
            if 8 * ((w - i - 1) as nat) < 56 {
                vstd::arithmetic::power2::lemma_pow2_strictly_increases(
                    8 * ((w - i - 1) as nat),
                    56,
                );
            }
            assert(pre < pow2(56));
            assert(pow2(56) == 0x100_0000_0000_0000);
            assert(pre * 256 + 255 < 0x1_0000_0000_0000_0000) by (nonlinear_arith)
                requires
                    pre < 0x100_0000_0000_0000,
            ;
        }
        r = r * 256 + (data[p + i] as u64);
        proof {
            assert(sub.len() > 0);
            assert(sub[0] == data@[(p + i) as int]);
            assert(sub.drop_first() =~= data@.subrange((p + i + 1) as int, (p + w) as int));
            assert(le_val(sub) == sub[0] + 256 * le_val(sub.drop_first()));
            assert(r == pre * 256 + data@[(p + i) as int]);
            assert(r < pow2(8 * ((w - i) as nat))) by {
                vstd::arithmetic::power2::lemma_pow2_adds(8, 8 * ((w - i - 1) as nat));
                assert(pre * 256 <= (pow2(8 * ((w - i - 1) as nat)) - 1) * 256)
                    by (nonlinear_arith)
                    requires
                        pre <= pow2(8 * ((w - i - 1) as nat)) - 1,
                ;
            };
        }
    }
    r
}

/// Append the low `w` little-endian bytes of a value.
pub fn push_le(out: &mut Vec<u8>, n: u64, w: usize)
    requires
        w <= 8,
    ensures
        final(out)@ == old(out)@ + le_bytes(n, w as nat),
{
    let mut i: usize = 0;
    while i < w
        invariant
            i <= w <= 8,
            out@ == old(out)@ + le_bytes(n, i as nat),
        decreases w - i,
    {
        proof {
            assert((8 * i) < 64);
        }
        out.push(#[verifier::truncate] ((n >> ((8 * i) as u64)) as u8));
        i += 1;
        proof {
            assert(out@ =~= old(out)@ + le_bytes(n, i as nat));
        }
    }
}

/// Copy a byte range.
pub fn bytes_range(v: &Vec<u8>, a: usize, b: usize) -> (r: Vec<u8>)
    requires
        a <= b <= v@.len(),
    ensures
        r@ == v@.subrange(a as int, b as int),
{
    let mut out: Vec<u8> = Vec::new();
    let mut i: usize = a;
    while i < b
        invariant
            a <= i <= b <= v@.len(),
            out@ == v@.subrange(a as int, i as int),
        decreases b - i,
    {
        out.push(v[i]);
        i += 1;
        proof {
            assert(out@ =~= v@.subrange(a as int, i as int));
        }
    }
    out
}


/// A value a cell can hold: nulls always, present values within their
/// column type.
pub open spec fn cell_ok(t: ColumnType, ov: Option<ScalarV>) -> bool {
    match ov {
        None => true,
        Some(v) => cell_fits(t, v),
    }
}

proof fn lemma_le_rt4(n: u64)
    ensures
        le_val(le_bytes(n, 4)) == n % 0x1_0000_0000,
{
    reveal_with_fuel(le_val, 6);
    let b = le_bytes(n, 4);
    let x0 = b[0];
    let x1 = b[1];
    let x2 = b[2];
    let x3 = b[3];
    assert(b =~= seq![x0, x1, x2, x3]);
    assert(seq![x0, x1, x2, x3].drop_first() =~= seq![x1, x2, x3]);
    assert(seq![x1, x2, x3].drop_first() =~= seq![x2, x3]);
    assert(seq![x2, x3].drop_first() =~= seq![x3]);
    assert(seq![x3].drop_first() =~= Seq::<u8>::empty());
    assert(le_val(b) == x0 + 0x100 * x1 + 0x10000 * x2 + 0x1000000 * x3);
    assert(((n >> 0) as u8) + 0x100 * (((n >> 8) as u8) as u64) + 0x10000 * (((n >> 16) as u8)
        as u64) + 0x1000000 * (((n >> 24) as u8) as u64) == n % 0x1_0000_0000) by (bit_vector);
    assert(8 * 0 == 0 && 8 * 1 == 8 && 8 * 2 == 16 && 8 * 3 == 24);
}

proof fn lemma_le_rt8(n: u64)
    ensures
        le_val(le_bytes(n, 8)) == n,
{
    reveal_with_fuel(le_val, 10);
    let b = le_bytes(n, 8);
    assert(b =~= seq![b[0], b[1], b[2], b[3], b[4], b[5], b[6], b[7]]);
    assert(seq![b[0], b[1], b[2], b[3], b[4], b[5], b[6], b[7]].drop_first() =~= seq![
        b[1], b[2], b[3], b[4], b[5], b[6], b[7],
    ]);
    assert(seq![b[1], b[2], b[3], b[4], b[5], b[6], b[7]].drop_first() =~= seq![
        b[2], b[3], b[4], b[5], b[6], b[7],
    ]);
    assert(seq![b[2], b[3], b[4], b[5], b[6], b[7]].drop_first() =~= seq![
        b[3], b[4], b[5], b[6], b[7],
    ]);
    assert(seq![b[3], b[4], b[5], b[6], b[7]].drop_first() =~= seq![b[4], b[5], b[6], b[7]]);
    assert(seq![b[4], b[5], b[6], b[7]].drop_first() =~= seq![b[5], b[6], b[7]]);
    assert(seq![b[5], b[6], b[7]].drop_first() =~= seq![b[6], b[7]]);
    assert(seq![b[6], b[7]].drop_first() =~= seq![b[7]]);
    assert(seq![b[7]].drop_first() =~= Seq::<u8>::empty());
    assert(le_val(b) == b[0] + 0x100 * b[1] + 0x10000 * b[2] + 0x100_0000 * b[3] + 0x1_0000_0000
        * b[4] + 0x100_0000_0000 * b[5] + 0x1_0000_0000_0000 * b[6] + 0x100_0000_0000_0000 * b[7]);
    assert(((n >> 0) as u8) + 0x100 * (((n >> 8) as u8) as u64) + 0x10000 * (((n >> 16) as u8)
        as u64) + 0x100_0000 * (((n >> 24) as u8) as u64) + 0x1_0000_0000 * (((n >> 32) as u8)
        as u64) + 0x100_0000_0000 * (((n >> 40) as u8) as u64) + 0x1_0000_0000_0000 * (((n >> 48)
        as u8) as u64) + 0x100_0000_0000_0000 * (((n >> 56) as u8) as u64) == n) by (bit_vector);
    assert(8 * 0 == 0 && 8 * 1 == 8 && 8 * 2 == 16 && 8 * 3 == 24 && 8 * 4 == 32 && 8 * 5 == 40
        && 8 * 6 == 48 && 8 * 7 == 56);
}

/// Writing one cell and decoding at its position yields the same value
/// and lands exactly past the cell.
pub proof fn lemma_cell_round_trip(t: ColumnType, ov: Option<ScalarV>, b: Seq<u8>, p: int)
    requires
        cell_ok(t, ov),
        0 <= p,
        p + enc_cell(t, ov).len() <= b.len(),
        b.subrange(p, p + enc_cell(t, ov).len() as int) == enc_cell(t, ov),
    ensures
        dec_cell(t, b, p) == Some((ov, p + enc_cell(t, ov).len() as int)),
{
    broadcast use vstd::utf8::encode_utf8_valid_utf8;
    broadcast use vstd::utf8::encode_utf8_decode_utf8;

    let e = enc_cell(t, ov);
    let w = e.len() as int;
    assert(b[p] == e[0]) by {
        assert(b.subrange(p, p + w)[0] == b[p]);
    }
    match ov {
        None => {
            assert(e =~= seq![0u8]);
            assert(b[p] == 0);
        },
        Some(v) => {
            let pay = enc_payload(t, v);
            assert(e[0] == 1);
            assert(b[p] == 1);
            assert(b.subrange(p + 1, p + w) =~= pay) by {
                assert forall|j: int| 0 <= j < pay.len() implies b.subrange(p + 1, p + w)[j]
                    == pay[j] by {
                    assert(b.subrange(p, p + w)[j + 1] == e[j + 1]);
                }
            }
            match (t, v) {
                (ColumnType::Int32, ScalarV::Int(i)) => {
                    let n = (i % 0x1_0000_0000) as u64;
                    assert(b.subrange(p + 1, p + 5) =~= le_bytes(n, 4));
                    lemma_le_rt4(n);
                    assert(n < 0x1_0000_0000);
                    assert(i32_val(n as nat) == i);
                },
                (ColumnType::Date, ScalarV::Int(i)) => {
                    let n = (i % 0x1_0000_0000) as u64;
                    assert(b.subrange(p + 1, p + 5) =~= le_bytes(n, 4));
                    lemma_le_rt4(n);
                    assert(i32_val(n as nat) == i);
                },
                (ColumnType::Int64, ScalarV::Int(i)) => {
                    let n = (i % 0x1_0000_0000_0000_0000) as u64;
                    assert(b.subrange(p + 1, p + 9) =~= le_bytes(n, 8));
                    lemma_le_rt8(n);
                    assert(i64_val(n as nat) == i);
                },
                (ColumnType::TimestampMs, ScalarV::Int(i)) => {
                    let n = (i % 0x1_0000_0000_0000_0000) as u64;
                    assert(b.subrange(p + 1, p + 9) =~= le_bytes(n, 8));
                    lemma_le_rt8(n);
                    assert(i64_val(n as nat) == i);
                },
                (ColumnType::Float64, ScalarV::Float(bits)) => {
                    assert(b.subrange(p + 1, p + 9) =~= le_bytes(bits, 8));
                    lemma_le_rt8(bits);
                },
                (ColumnType::Bool, ScalarV::Bool(x)) => {
                    assert(pay =~= seq![
                        if x {
                            1u8
                        } else {
                            0u8
                        },
                    ]);
                    assert(b[p + 1] == pay[0]) by {
                        assert(b.subrange(p + 1, p + 2)[0] == b[p + 1]);
                    }
                },
                (ColumnType::Str, ScalarV::Str(sv)) => {
                    let bytes = encode_utf8(sv);
                    let l = bytes.len() as u64;
                    assert(b.subrange(p + 1, p + 5) =~= le_bytes(l, 4));
                    lemma_le_rt4(l);
                    assert(le_val(b.subrange(p + 1, p + 5)) == l);
                    assert(b.subrange(p + 5, p + 5 + l) =~= bytes) by {
                        assert forall|j: int| 0 <= j < bytes.len() implies b.subrange(
                            p + 5,
                            p + 5 + l,
                        )[j] == bytes[j] by {
                            assert(pay[j + 4] == bytes[j]);
                            assert(b.subrange(p + 1, p + w)[j + 4] == pay[j + 4]);
                        }
                    }
                    assert(vstd::utf8::valid_utf8(bytes));
                    assert(str_of_bytes(bytes) == sv);
                },
                _ => {
                    assert(false);
                },
            }
        },
    }
}

/// The bytes of a whole column written cell after cell.
pub open spec fn enc_cells(t: ColumnType, vs: Seq<Option<ScalarV>>) -> Seq<u8>
    decreases vs.len(),
{
    if vs.len() == 0 {
        Seq::empty()
    } else {
        enc_cell(t, vs[0]) + enc_cells(t, vs.drop_first())
    }
}

pub open spec fn cells_ok(t: ColumnType, vs: Seq<Option<ScalarV>>) -> bool {
    forall|i: int| 0 <= i < vs.len() ==> cell_ok(t, #[trigger] vs[i])
}

/// A raw column file written cell after cell reads back as exactly
/// those values.
pub proof fn lemma_column_round_trip(t: ColumnType, vs: Seq<Option<ScalarV>>)
    requires
        cells_ok(t, vs),
    ensures
        raw_vals(t, enc_cells(t, vs), 0) == vs,
{
    assert(enc_cells(t, vs).subrange(0, enc_cells(t, vs).len() as int) =~= enc_cells(t, vs));
    lemma_raw_prefix(t, vs, enc_cells(t, vs), 0);
}

proof fn lemma_raw_prefix(t: ColumnType, vs: Seq<Option<ScalarV>>, b: Seq<u8>, p: int)
    requires
        cells_ok(t, vs),
        0 <= p,
        p + enc_cells(t, vs).len() == b.len(),
        b.subrange(p, b.len() as int) == enc_cells(t, vs),
    ensures
        raw_vals(t, b, p) == vs,
    decreases vs.len(),
{
    if vs.len() == 0 {
        assert(raw_vals(t, b, p) =~= Seq::<Option<ScalarV>>::empty());
    } else {
        let e = enc_cell(t, vs[0]);
        assert(b.subrange(p, p + e.len() as int) =~= e) by {
            assert forall|j: int| 0 <= j < e.len() implies b.subrange(p, p + e.len() as int)[j]
                == e[j] by {
                assert(b.subrange(p, b.len() as int)[j] == enc_cells(t, vs)[j]);
                assert(enc_cells(t, vs)[j] == e[j]);
            }
        }
        lemma_cell_round_trip(t, vs[0], b, p);
        let q = p + e.len() as int;
        assert(b.subrange(q, b.len() as int) =~= enc_cells(t, vs.drop_first())) by {
            assert forall|j: int|
                0 <= j < enc_cells(t, vs.drop_first()).len() implies b.subrange(
                q,
                b.len() as int,
            )[j] == enc_cells(t, vs.drop_first())[j] by {
                assert(b.subrange(p, b.len() as int)[e.len() + j] == enc_cells(t, vs)[e.len()
                    + j]);
                assert(enc_cells(t, vs)[e.len() + j] == enc_cells(t, vs.drop_first())[j]);
            }
        }
        assert(cells_ok(t, vs.drop_first())) by {
            assert(forall|i: int|
                0 <= i < vs.len() - 1 ==> vs.drop_first()[i] == vs[i + 1]);
        }
        lemma_raw_prefix(t, vs.drop_first(), b, q);
        assert(raw_vals(t, b, p) =~= seq![vs[0]] + vs.drop_first());
        assert(seq![vs[0]] + vs.drop_first() =~= vs);
    }
}

} // verus!

//! Ternary quantisation of weight rows, and its packed form.
//!
//! A row becomes codes in `{-1, 0, 1}` and one scale, the mean magnitude of its
//! weights; a weight is rounded to its sign where its magnitude is more than half
//! the scale, else to zero. Packed, four codes take one byte.

use vstd::prelude::*;
use vstd::slice::slice_subrange;
use crate::scalar::{sum_of, Scalar};
use crate::tensor::{lemma_row_index, row_of, Matrix};

verus! {

/// The two bits that stand for a ternary value: 1 for values above zero, 2 for
/// values below, 0 for zero.
pub open spec fn code_of(v: i8) -> nat {
    if v > 0 {
        1
    } else if v < 0 {
        2
    } else {
        0
    }
}

/// The bits of value `i`, or 0 behind the last value.
pub open spec fn code_at(values: Seq<i8>, i: int) -> nat {
    if i < values.len() {
        code_of(values[i])
    } else {
        0
    }
}

/// Byte `b` of the packed values: value `4 * b` in its lowest two bits.
pub open spec fn packed_byte(values: Seq<i8>, b: int) -> u8 {
    (code_at(values, 4 * b) + 4 * code_at(values, 4 * b + 1) + 16 * code_at(values, 4 * b + 2) + 64
        * code_at(values, 4 * b + 3)) as u8
}

/// The packed values: four to a byte.
pub open spec fn packed(values: Seq<i8>) -> Seq<u8> {
    Seq::new((values.len() + 3) / 4, |b: int| packed_byte(values, b))
}

/// The two bits of a byte that stand for its value `s`.
pub open spec fn bits_at(byte: u8, s: int) -> int {
    if s == 0 {
        byte as int % 4
    } else if s == 1 {
        byte as int / 4 % 4
    } else if s == 2 {
        byte as int / 16 % 4
    } else {
        byte as int / 64 % 4
    }
}

/// The ternary value that two bits stand for.
pub open spec fn value_of(bits: int) -> i8 {
    if bits == 1 {
        1
    } else if bits == 2 {
        -1i8
    } else {
        0
    }
}

/// The first `count` values of packed bytes.
pub open spec fn unpacked(packed: Seq<u8>, count: nat) -> Seq<i8> {
    Seq::new(count, |i: int| value_of(bits_at(packed[i / 4], i % 4)))
}

fn code_bits(values: &[i8], i: usize) -> (r: u8)
    ensures
        r == code_at(values@, i as int),
        r <= 2,
{
    if i >= values.len() {
        0
    } else if values[i] > 0 {
        1
    } else if values[i] < 0 {
        2
    } else {
        0
    }
}

/// Packs ternary values, four to a byte. Values outside `{-1, 0, 1}` are clamped.
pub fn encode_ternary(values: &[i8]) -> (r: Vec<u8>)
    ensures
        r@ == packed(values@),
{
    let whole: usize = values.len() / 4;
    let rest: usize = values.len() % 4;
    let mut out: Vec<u8> = Vec::new();
    for b in 0..whole
        invariant
            whole == values@.len() / 4,
            values@.len() <= usize::MAX,
            out@.len() == b,
            forall|k: int| 0 <= k < b ==> out@[k] == packed_byte(values@, k),
    {
        let i: usize = 4 * b;
        let byte: u8 = code_bits(values, i) + 4 * code_bits(values, i + 1) + 16 * code_bits(
            values,
            i + 2,
        ) + 64 * code_bits(values, i + 3);
        out.push(byte);
    }
    if rest > 0 {
        let i: usize = 4 * whole;
        let second: u8 = if rest > 1 {
            code_bits(values, i + 1)
        } else {
            0
        };
        let third: u8 = if rest > 2 {
            code_bits(values, i + 2)
        } else {
            0
        };
        out.push(code_bits(values, i) + 4 * second + 16 * third);
    }
    assert(out@ =~= packed(values@));
    out
}

/// Unpacks the first `count` ternary values.
pub fn decode_ternary(packed: &[u8], count: usize) -> (r: Vec<i8>)
    requires
        count <= 4 * packed@.len(),
    ensures
        r@ == unpacked(packed@, count as nat),
{
    let mut out: Vec<i8> = Vec::with_capacity(count);
    for i in 0..count
        invariant
            count <= 4 * packed@.len(),
            out@ == unpacked(packed@, i as nat),
    {
        let byte: u8 = packed[i / 4];
        let s: usize = i % 4;
        let bits: u8 = if s == 0 {
            byte % 4
        } else if s == 1 {
            byte / 4 % 4
        } else if s == 2 {
            byte / 16 % 4
        } else {
            byte / 64 % 4
        };
        let v: i8 = if bits == 1 {
            1
        } else if bits == 2 {
            -1
        } else {
            0
        };
        out.push(v);
        assert(out@ =~= unpacked(packed@, (i + 1) as nat));
    }
    out
}

/// The sign of a value as a ternary value.
pub open spec fn clamped(v: i8) -> i8 {
    if v > 0 {
        1
    } else if v < 0 {
        -1i8
    } else {
        0
    }
}

/// Packing and unpacking gives the values back, clamped to `{-1, 0, 1}`; values in
/// that range come back as they were. Unpacking fewer values gives the first of them.
pub proof fn law_pack_roundtrip(values: Seq<i8>)
    ensures
        values.len() <= 4 * packed(values).len(),
        unpacked(packed(values), values.len()) == values.map_values(|v: i8| clamped(v)),
        (forall|i: int| 0 <= i < values.len() ==> -1 <= #[trigger] values[i] <= 1) ==> unpacked(
            packed(values),
            values.len(),
        ) == values,
        forall|k: nat|
            k <= values.len() ==> #[trigger] unpacked(packed(values), k) == unpacked(
                packed(values),
                values.len(),
            ).take(k as int),
{
    let u = unpacked(packed(values), values.len());
    assert forall|i: int| 0 <= i < values.len() implies u[i] == clamped(values[i]) by {
        let b = i / 4;
        let s = i % 4;
        assert(i == 4 * b + s);
        let c0 = code_at(values, 4 * b);
        let c1 = code_at(values, 4 * b + 1);
        let c2 = code_at(values, 4 * b + 2);
        let c3 = code_at(values, 4 * b + 3);
        let byte = packed(values)[b];
        assert(byte == c0 + 4 * c1 + 16 * c2 + 64 * c3);
        assert(byte as int % 4 == c0);
        assert(byte as int / 4 % 4 == c1);
        assert(byte as int / 16 % 4 == c2);
        assert(byte as int / 64 % 4 == c3);
    }
    assert(u =~= values.map_values(|v: i8| clamped(v)));
    assert forall|k: nat| k <= values.len() implies #[trigger] unpacked(packed(values), k) == u.take(
        k as int,
    ) by {
        assert(unpacked(packed(values), k) =~= u.take(k as int));
    }
    if forall|i: int| 0 <= i < values.len() ==> -1 <= #[trigger] values[i] <= 1 {
        assert(u =~= values);
    }
}

/// The magnitudes of a row.
pub open spec fn magnitudes<T: Scalar>(row: Seq<T>) -> Seq<T> {
    row.map_values(|v: T| v.magnitude_spec())
}

/// The scale of a row: the mean magnitude of its weights.
pub open spec fn row_scale<T: Scalar>(row: Seq<T>) -> T {
    sum_of(magnitudes(row), row.len()).over_spec(
        T::spec_count(
            if row.len() == 0 {
                1
            } else {
                row.len() as usize
            },
        ),
    )
}

/// The magnitude above which a weight keeps its sign: half the scale.
pub open spec fn row_threshold<T: Scalar>(row: Seq<T>) -> T {
    T::spec_count(1).over_spec(T::spec_count(2)).times_spec(row_scale(row))
}

/// The code of a weight.
pub open spec fn ternary_code<T: Scalar>(v: T, threshold: T) -> i8 {
    if threshold.below_spec(v.magnitude_spec()) {
        if T::spec_zero().at_most_spec(v) {
            1
        } else {
            -1i8
        }
    } else {
        0
    }
}

/// The codes of a row.
pub open spec fn row_codes<T: Scalar>(row: Seq<T>) -> Seq<i8> {
    row.map_values(|v: T| ternary_code(v, row_threshold(row)))
}

/// The mean magnitude of a row.
pub fn mean_magnitude<T: Scalar>(row: &[T]) -> (r: T)
    ensures
        r == row_scale(row@),
{
    let mut acc = T::zero();
    let ghost m = magnitudes(row@);
    for i in 0..row.len()
        invariant
            m == magnitudes(row@),
            acc == sum_of(m, i as nat),
    {
        acc = acc.plus(row[i].magnitude());
    }
    let n: usize = if row.len() == 0 {
        1
    } else {
        row.len()
    };
    acc.over(T::from_count(n))
}

/// The ternary codes and the scale of a row.
pub fn quantize_row<T: Scalar>(row: &[T]) -> (r: (Vec<i8>, T))
    ensures
        r.0@ == row_codes(row@),
        r.1 == row_scale(row@),
{
    let scale = mean_magnitude(row);
    let threshold = T::from_count(1).over(T::from_count(2)).times(scale);
    let zero = T::zero();
    let mut codes: Vec<i8> = Vec::with_capacity(row.len());
    for i in 0..row.len()
        invariant
            threshold == row_threshold(row@),
            zero == T::spec_zero(),
            codes@ == row_codes(row@).take(i as int),
    {
        let v = row[i];
        let c: i8 = if threshold.below(v.magnitude()) {
            if zero.at_most(v) {
                1
            } else {
                -1
            }
        } else {
            0
        };
        codes.push(c);
        assert(codes@ =~= row_codes(row@).take(i + 1));
    }
    assert(codes@ =~= row_codes(row@));
    (codes, scale)
}

/// Quantises a matrix row by row. Returns the codes, row by row, and the scales.
pub fn quantize_matrix<T: Scalar>(m: &Matrix<T>) -> (r: (Vec<i8>, Vec<T>))
    requires
        m.wf(),
    ensures
        r.0@.len() == m.rows * m.cols,
        r.1@.len() == m.rows,
        forall|i: int|
            0 <= i < m.rows ==> #[trigger] row_of(r.0@, m.cols as int, i) == row_codes(
                m.row_seq(i),
            ),
        forall|i: int| 0 <= i < m.rows ==> #[trigger] r.1@[i] == row_scale(m.row_seq(i)),
{
    let in_dim: usize = m.cols;
    let mut ternary: Vec<i8> = Vec::with_capacity(m.data.len());
    let mut scales: Vec<T> = Vec::with_capacity(m.rows);
    assert(0 * in_dim == 0) by (nonlinear_arith);
    for r in 0..m.rows
        invariant
            m.wf(),
            in_dim == m.cols,
            ternary@.len() == r * in_dim,
            scales@.len() == r,
            forall|i: int|
                0 <= i < r ==> #[trigger] row_of(ternary@, in_dim as int, i) == row_codes(
                    m.row_seq(i),
                ),
            forall|i: int| 0 <= i < r ==> #[trigger] scales@[i] == row_scale(m.row_seq(i)),
    {
        proof {
            lemma_row_index(m.rows as int, in_dim as int, r as int);
            assert(m.data.len() == m.data@.len());
        }
        let row = slice_subrange(m.data.as_slice(), r * in_dim, (r + 1) * in_dim);
        let (codes, scale) = quantize_row(row);
        let ghost before = ternary@;
        let ghost added = codes@;
        let mut codes = codes;
        ternary.append(&mut codes);
        scales.push(scale);
        assert forall|i: int| 0 <= i < r + 1 implies #[trigger] row_of(ternary@, in_dim as int, i)
            == row_codes(m.row_seq(i)) by {
            if i < r {
                lemma_row_index(r as int, in_dim as int, i);
                assert(row_of(ternary@, in_dim as int, i) =~= row_of(before, in_dim as int, i));
            } else {
                assert(row_of(ternary@, in_dim as int, i) =~= added);
            }
        }
    }
    (ternary, scales)
}

/// The weights that codes and a scale stand for.
pub open spec fn reconstructed<T: Scalar>(codes: Seq<i8>, scale: T) -> Seq<T> {
    codes.map_values(|c: i8| scale.times_spec(T::spec_code(c)))
}

/// The weights that codes and a scale stand for.
pub fn reconstruct_row<T: Scalar>(ternary: &[i8], scale: T) -> (r: Vec<T>)
    ensures
        r@ == reconstructed(ternary@, scale),
{
    let mut out: Vec<T> = Vec::with_capacity(ternary.len());
    for i in 0..ternary.len()
        invariant
            out@ == reconstructed(ternary@, scale).take(i as int),
    {
        out.push(scale.times(T::from_code(ternary[i])));
        assert(out@ =~= reconstructed(ternary@, scale).take(i + 1));
    }
    assert(out@ =~= reconstructed(ternary@, scale));
    out
}

} // verus!

use crate::error::QvdError;
use crate::header::FieldHeader;
use vstd::arithmetic::div_mod::lemma_fundamental_div_mod_converse;
use vstd::arithmetic::power2::{lemma2_to64, lemma2_to64_rest, lemma_pow2_strictly_increases, pow2};
use vstd::prelude::*;

verus! {

/// Bit `q` of a record, counted from the least significant bit of its first
/// byte: bit `q` is bit `q % 8` of byte `q / 8`.
pub open spec fn record_bit(rec: Seq<u8>, q: int) -> int {
    (rec[q / 8] as int / pow2((q % 8) as nat) as int) % 2
}

/// The unsigned value of the `width` bits of `rec` that start at bit `off`,
/// bit `off` being the least significant of the extracted value.
pub open spec fn extracted_bits(rec: Seq<u8>, off: int, width: nat) -> int
    decreases width,
{
    if width == 0 {
        0
    } else {
        record_bit(rec, off) + 2 * extracted_bits(rec, off + 1, (width - 1) as nat)
    }
}

/// Row record `k` of the buffer: the bytes `[k * rs, (k + 1) * rs)`.
pub open spec fn record_at(buf: Seq<u8>, k: int, rs: int) -> Seq<u8> {
    buf.subrange(k * rs, (k + 1) * rs)
}

/// The decoded row index of record `k` for `field`: the field's packed bits,
/// plus its bias.
pub open spec fn row_index_spec(buf: Seq<u8>, field: FieldHeader, rs: int, k: int) -> int {
    field.bias + extracted_bits(
        record_at(buf, k, rs),
        field.bit_offset as int,
        field.bit_width as nat,
    )
}

/// Each extracted bit is 0 or 1.
proof fn lemma_record_bit_is_bit(rec: Seq<u8>, q: int)
    requires
        0 <= q / 8 < rec.len(),
    ensures
        0 <= record_bit(rec, q) <= 1,
{
    vstd::arithmetic::power2::lemma_pow2_pos((q % 8) as nat);
}

/// The extracted value of `width` bits lies below `pow2(width)`.
pub proof fn lemma_extracted_bits_bounds(rec: Seq<u8>, off: int, width: nat)
    requires
        0 <= off,
        off + width <= 8 * rec.len(),
    ensures
        0 <= extracted_bits(rec, off, width) < pow2(width),
    decreases width,
{
    if width == 0 {
        lemma2_to64();
    } else {
        lemma_record_bit_is_bit(rec, off);
        lemma_extracted_bits_bounds(rec, off + 1, (width - 1) as nat);
        vstd::arithmetic::power2::lemma_pow2_unfold(width);
    }
}

/// A record whose bits in `[off, off + width)` are all zero extracts to the
/// raw value zero.
pub proof fn lemma_zero_bits_extract_zero(rec: Seq<u8>, off: int, width: nat)
    requires
        forall|q: int| off <= q < off + width ==> record_bit(rec, q) == 0,
    ensures
        extracted_bits(rec, off, width) == 0,
    decreases width,
{
    if width > 0 {
        lemma_zero_bits_extract_zero(rec, off + 1, (width - 1) as nat);
    }
}

/// A raw value of zero decodes to a row index equal to the field's bias.
pub proof fn lemma_zero_raw_row_index(buf: Seq<u8>, field: FieldHeader, rs: int, k: int)
    requires
        forall|q: int|
            field.bit_offset <= q < field.bit_offset + field.bit_width ==> record_bit(
                record_at(buf, k, rs),
                q,
            ) == 0,
    ensures
        row_index_spec(buf, field, rs, k) == field.bias,
{
    lemma_zero_bits_extract_zero(
        record_at(buf, k, rs),
        field.bit_offset as int,
        field.bit_width as nat,
    );
}

/// `pow2(k)` for one bit position within a byte.
fn pow2_u8(k: usize) -> (p: u8)
    requires
        k < 8,
    ensures
        p as nat == pow2(k as nat),
        p >= 1,
{
    proof {
        lemma2_to64();
    }
    if k == 0 {
        1
    } else if k == 1 {
        2
    } else if k == 2 {
        4
    } else if k == 3 {
        8
    } else if k == 4 {
        16
    } else if k == 5 {
        32
    } else if k == 6 {
        64
    } else {
        128
    }
}

/// Extracts the `width` bits that start at bit `off` of the record of `rs`
/// bytes beginning at `base`, bit `off` least significant.
fn extract_bits(buf: &[u8], base: usize, off: usize, width: usize, rs: usize) -> (v: u64)
    requires
        width <= 62,
        off + width <= 8 * rs,
        base + rs <= buf@.len(),
    ensures
        v as int == extracted_bits(
            buf@.subrange(base as int, base as int + rs as int),
            off as int,
            width as nat,
        ),
        v < pow2(width as nat),
{
    let ghost rec = buf@.subrange(base as int, base as int + rs as int);
    let total = buf.len();
    let mut acc: u64 = 0;
    let mut j: usize = 0;
    proof {
        lemma2_to64();
    }
    while j < width
        invariant
            width <= 62,
            off + width <= 8 * rs,
            base + rs <= buf@.len(),
            total == buf@.len(),
            rec == buf@.subrange(base as int, base as int + rs as int),
            j <= width,
            acc as int == extracted_bits(rec, off + width - j, j as nat),
            acc < pow2(j as nat),
        decreases width - j,
    {
        let q: u128 = off as u128 + (width - 1 - j) as u128;
        proof {
            vstd::arithmetic::div_mod::lemma_multiply_divide_lt(q as int, 8, rs as int);
        }
        let byte_ix: usize = base + (q / 8) as usize;
        let byte = buf[byte_ix];
        let bit = (byte / pow2_u8((q % 8) as usize)) % 2;
        proof {
            assert(rec[q as int / 8] == buf@[base + q as int / 8]);
            lemma_record_bit_is_bit(rec, q as int);
            lemma2_to64();
            lemma2_to64_rest();
            if (j as nat) + 1 < 62 {
                lemma_pow2_strictly_increases((j as nat) + 1, 62);
            }
            vstd::arithmetic::power2::lemma_pow2_unfold((j + 1) as nat);
            assert(bit as int == record_bit(rec, q as int));
        }
        acc = 2 * acc + bit as u64;
        j = j + 1;
    }
    proof {
        lemma_extracted_bits_bounds(rec, off as int, width as nat);
    }
    acc
}

/// Decodes the row-index table: one biased symbol-table index per complete
/// row record of `record_byte_size` bytes. A trailing partial record is
/// ignored. The field's bit range must fit inside one record, else the call
/// reports `BitRangeConfig` once, before any extraction.
///
/// The two preconditions are machine limits: records cannot be empty, and a
/// raw value of at most 62 bits keeps the biased index inside `i64`.
pub fn decode_row_indexes(buf: &[u8], field: &FieldHeader, record_byte_size: usize) -> (r: Result<
    Vec<i64>,
    QvdError,
>)
    requires
        record_byte_size >= 1,
        field.bit_width <= 62,
    ensures
        match r {
            Ok(idx) => field.bits_in_record(record_byte_size as nat) && idx@.len() == buf@.len()
                as int / record_byte_size as int && forall|k: int|
                0 <= k < idx@.len() ==> idx@[k] == row_index_spec(
                    buf@,
                    *field,
                    record_byte_size as int,
                    k,
                ),
            Err(e) => e == QvdError::BitRangeConfig && !field.bits_in_record(
                record_byte_size as nat,
            ),
        },
{
    if (field.bit_offset as u128) + (field.bit_width as u128) > 8u128 * (record_byte_size as u128) {
        return Err(QvdError::BitRangeConfig);
    }
    let n = buf.len();
    let mut out: Vec<i64> = Vec::new();
    let mut base: usize = 0;
    let mut k: usize = 0;
    while n - base >= record_byte_size
        invariant
            record_byte_size >= 1,
            field.bit_width <= 62,
            field.bit_offset + field.bit_width <= 8 * record_byte_size,
            n == buf@.len(),
            base == k * record_byte_size,
            base <= n,
            out@.len() == k,
            forall|j: int|
                0 <= j < k ==> out@[j] == row_index_spec(buf@, *field, record_byte_size as int, j),
        decreases n - base,
    {
        let raw = extract_bits(buf, base, field.bit_offset, field.bit_width, record_byte_size);
        proof {
            assert((k + 1) * record_byte_size == k * record_byte_size + record_byte_size)
                by (nonlinear_arith);
            lemma2_to64();
            lemma2_to64_rest();
            if (field.bit_width as nat) < 62 {
                lemma_pow2_strictly_increases(field.bit_width as nat, 62);
            }
            assert(record_at(buf@, k as int, record_byte_size as int) == buf@.subrange(
                base as int,
                base as int + record_byte_size as int,
            ));
        }
        let idx: i64 = (field.bias as i64) + (raw as i64);
        out.push(idx);
        proof {
            assert(k as int <= k as int * record_byte_size as int) by (nonlinear_arith)
                requires
                    record_byte_size >= 1,
                    k >= 0,
            ;
        }
        base = base + record_byte_size;
        k = k + 1;
    }
    proof {
        lemma_fundamental_div_mod_converse(
            n as int,
            record_byte_size as int,
            k as int,
            n as int - base as int,
        );
    }
    Ok(out)
}

} // verus!

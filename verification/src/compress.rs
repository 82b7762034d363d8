//! The executable transform, one entry point per unsigned width, each proved
//! to return exactly the compressed representative of the model.

use vstd::prelude::*;
use vstd::arithmetic::power2::{pow2, lemma_pow2_strictly_increases, lemma2_to64, lemma2_to64_rest};
use vstd::bits::{lemma_u64_shr_is_div, lemma_u64_shl_is_mul, lemma_u64_pow2_no_overflow};
use vstd::std_specs::bits::u64_leading_zeros;

use crate::model::{
    high_bit_index,
    compresses,
    discard_count,
    prefix_of,
    selector_of,
    suffix_of,
    compress_spec,
    lemma_high_bit_index_le,
    lemma_compress_parts,
};

verus! {

/// The one failure of the transform: a prefix budget of zero bits.
#[derive(Clone, Copy, Debug, PartialEq, Eq, Structural)]
pub enum CompressError {
    InvalidBitCount,
}

/// The high-bit index is the complement of the count of leading zeros:
/// both recurse on halving, in opposite directions from 64.
proof fn lemma_high_bit_index_complements_leading_zeros(i: u64)
    ensures
        0 <= u64_leading_zeros(i) <= 64,
        high_bit_index(i as nat) == 64 - u64_leading_zeros(i),
    decreases i,
{
    reveal(u64_leading_zeros);
    if i == 0 {
        assert(high_bit_index(0) == 0);
    } else {
        lemma_high_bit_index_complements_leading_zeros(i / 2);
        lemma2_to64_rest();
        lemma_high_bit_index_le((i / 2) as nat, 63);
    }
}

/// Compress `value`, keeping its top `bit_count` bits exactly and replacing
/// the discarded low bits with one of two fixed patterns chosen by the
/// prefix's parity (or the shift's parity when `bit_count` is 1), so that
/// the rounding direction alternates between adjacent buckets.
///
/// Values that already fit in `bit_count` bits pass through unchanged.
pub fn compress_int(value: u64, bit_count: u32) -> (result: u64)
    requires
        bit_count >= 1,
    ensures
        result == compress_spec(value, bit_count),
        high_bit_index(value as nat) <= bit_count ==> result == value,
{
    proof {
        lemma_high_bit_index_complements_leading_zeros(value);
    }
    // find-last-set, as POSIX fls(): 0 for value 0, else the 1-indexed
    // position of the most significant set bit
    let high_index: u32 = 64 - value.leading_zeros();
    if high_index <= bit_count {
        return value;
    }
    proof {
        lemma_compress_parts(value, bit_count);
    }
    let shift: u64 = (high_index - bit_count) as u64;
    let prefix: u64 = value >> shift;
    proof {
        lemma_u64_shr_is_div(value, shift);
        assert(prefix == prefix_of(value, bit_count));
    }
    // the two suffix schemes: 0b100... and its complement 0b011...
    let mut suffix: u64 = 1u64 << (shift - 1);
    proof {
        lemma_u64_pow2_no_overflow((shift - 1) as nat);
        lemma_u64_shl_is_mul(1u64, (shift - 1) as u64);
        assert(suffix == pow2((discard_count(value, bit_count) - 1) as nat));
    }
    let selector: u64 = if bit_count == 1 {
        shift
    } else {
        prefix
    };
    proof {
        assert(selector & 1 == selector % 2) by (bit_vector);
    }
    if selector & 1 == 1 {
        suffix = suffix - 1;
    }
    proof {
        assert(suffix == suffix_of(value, bit_count));
    }
    let shifted: u64 = prefix << shift;
    proof {
        lemma_u64_shl_is_mul(prefix, shift);
        assert(shifted == prefix_of(value, bit_count) * pow2(discard_count(value, bit_count)));
        if high_bit_index(value as nat) < 64 {
            lemma_pow2_strictly_increases(high_bit_index(value as nat), 64);
        }
        lemma2_to64();
        assert(shifted + suffix <= u64::MAX);
        lemma_u64_pow2_no_overflow(shift as nat);
        lemma_u64_shl_is_mul(1u64, shift);
        lemma_pow2_strictly_increases((shift - 1) as nat, shift as nat);
        assert((prefix << shift) | suffix == (prefix << shift) + suffix) by (bit_vector)
            requires
                1 <= shift < 64,
                suffix < (1u64 << shift),
                (prefix << shift) + suffix <= u64::MAX,
        ;
    }
    shifted | suffix
}

/// `compress_int` behind an explicit argument check: rejects a zero
/// `bit_count` with `InvalidBitCount` instead of requiring it away.
pub fn try_compress_int(value: u64, bit_count: u32) -> (result: Result<u64, CompressError>)
    ensures
        bit_count == 0 <==> result is Err,
        result matches Ok(compressed) ==> compressed == compress_spec(value, bit_count),
        result matches Err(e) ==> e == CompressError::InvalidBitCount,
{
    if bit_count == 0 {
        Err(CompressError::InvalidBitCount)
    } else {
        Ok(compress_int(value, bit_count))
    }
}

/// `compress_int` for 32-bit values: the transform never needs more bits
/// than the input has, so the wide result fits the narrow width.
pub fn compress_u32(value: u32, bit_count: u32) -> (result: u32)
    requires
        bit_count >= 1,
    ensures
        result == compress_spec(value as u64, bit_count),
{
    let wide: u64 = value as u64;
    let compressed: u64 = compress_int(wide, bit_count);
    proof {
        lemma2_to64();
        lemma_high_bit_index_le(wide as nat, 32);
        if compresses(wide, bit_count) {
            lemma_compress_parts(wide, bit_count);
            if high_bit_index(wide as nat) < 32 {
                lemma_pow2_strictly_increases(high_bit_index(wide as nat), 32);
            }
        }
    }
    compressed as u32
}

/// `compress_int` for 16-bit values.
pub fn compress_u16(value: u16, bit_count: u32) -> (result: u16)
    requires
        bit_count >= 1,
    ensures
        result == compress_spec(value as u64, bit_count),
{
    let wide: u64 = value as u64;
    let compressed: u64 = compress_int(wide, bit_count);
    proof {
        lemma2_to64();
        lemma_high_bit_index_le(wide as nat, 16);
        if compresses(wide, bit_count) {
            lemma_compress_parts(wide, bit_count);
            if high_bit_index(wide as nat) < 16 {
                lemma_pow2_strictly_increases(high_bit_index(wide as nat), 16);
            }
        }
    }
    compressed as u16
}

/// `compress_int` for 8-bit values.
pub fn compress_u8(value: u8, bit_count: u32) -> (result: u8)
    requires
        bit_count >= 1,
    ensures
        result == compress_spec(value as u64, bit_count),
{
    let wide: u64 = value as u64;
    let compressed: u64 = compress_int(wide, bit_count);
    proof {
        lemma2_to64();
        lemma_high_bit_index_le(wide as nat, 8);
        if compresses(wide, bit_count) {
            lemma_compress_parts(wide, bit_count);
            if high_bit_index(wide as nat) < 8 {
                lemma_pow2_strictly_increases(high_bit_index(wide as nat), 8);
            }
        }
    }
    compressed as u8
}

} // verus!

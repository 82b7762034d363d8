//! The guarantees of the transform, stated and proved over the model.

use vstd::prelude::*;
use vstd::arithmetic::power2::{pow2, lemma_pow2_pos};
use vstd::arithmetic::div_mod::lemma_fundamental_div_mod_converse_div;

use crate::model::{
    high_bit_index,
    compresses,
    discard_count,
    prefix_of,
    selector_of,
    suffix_of,
    compress_spec,
    lemma_compress_parts,
};

verus! {

/// Prefix preservation: whenever compression applies, the result needs
/// exactly as many bits as the input, and its top `bit_count` bits — the
/// bits above the discarded ones — equal those of the input.
pub proof fn lemma_prefix_preserved(value: u64, bit_count: u32)
    requires
        bit_count >= 1,
        compresses(value, bit_count),
    ensures
        high_bit_index(compress_spec(value, bit_count)) == high_bit_index(value as nat),
        compress_spec(value, bit_count) / pow2(discard_count(value, bit_count)) == prefix_of(
            value,
            bit_count,
        ),
{
    lemma_compress_parts(value, bit_count);
    let d = discard_count(value, bit_count);
    lemma_pow2_pos(d);
    lemma_fundamental_div_mod_converse_div(
        compress_spec(value, bit_count) as int,
        pow2(d) as int,
        prefix_of(value, bit_count) as int,
        suffix_of(value, bit_count) as int,
    );
}

/// Bucket collapse: two values that need the same number of bits and share
/// their top `bit_count` bits compress to the same representative.
pub proof fn lemma_bucket_collapse(value1: u64, value2: u64, bit_count: u32)
    requires
        bit_count >= 1,
        compresses(value1, bit_count),
        compresses(value2, bit_count),
        high_bit_index(value1 as nat) == high_bit_index(value2 as nat),
        prefix_of(value1, bit_count) == prefix_of(value2, bit_count),
    ensures
        compress_spec(value1, bit_count) == compress_spec(value2, bit_count),
{
    assert(discard_count(value1, bit_count) == discard_count(value2, bit_count));
    assert(selector_of(value1, bit_count) == selector_of(value2, bit_count));
}

/// Two-valued range: whenever compression applies, the result is one of
/// exactly two candidates — the preserved prefix followed by `100...0`, or
/// by its complement `011...1` — and the two differ by exactly 1.
pub proof fn lemma_two_valued_range(value: u64, bit_count: u32)
    requires
        bit_count >= 1,
        compresses(value, bit_count),
    ensures
        ({
            let top = prefix_of(value, bit_count) * pow2(discard_count(value, bit_count)) + pow2(
                (discard_count(value, bit_count) - 1) as nat,
            );
            &&& selector_of(value, bit_count) == 0 ==> compress_spec(value, bit_count) == top
            &&& selector_of(value, bit_count) == 1 ==> compress_spec(value, bit_count) == top - 1
            &&& compress_spec(value, bit_count) == top || compress_spec(value, bit_count) == top
                - 1
        }),
{
    lemma_compress_parts(value, bit_count);
    lemma_pow2_pos((discard_count(value, bit_count) - 1) as nat);
}

} // verus!

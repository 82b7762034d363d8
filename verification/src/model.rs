//! The mathematical model of the transform: the high-bit index of a value
//! and the compressed representative, stated over `nat` and powers of two.

use vstd::prelude::*;
use vstd::arithmetic::power2::{
    pow2,
    lemma_pow2_unfold,
    lemma_pow2_strictly_increases,
    lemma_pow2_adds,
    lemma_pow2_pos,
};
use vstd::arithmetic::div_mod::{
    lemma_fundamental_div_mod,
    lemma_multiply_divide_lt,
    lemma_div_is_ordered,
    lemma_div_by_multiple,
};
use vstd::arithmetic::mul::lemma_mul_inequality;

verus! {

/// The 1-indexed position of the most significant set bit of `v`, or 0 for
/// `v == 0`; equivalently, the number of bits needed to represent `v`.
/// This matches the POSIX `fls` convention.
pub open spec fn high_bit_index(v: nat) -> nat
    decreases v,
{
    if v == 0 {
        0
    } else {
        (1 + high_bit_index(v / 2)) as nat
    }
}

/// `high_bit_index` characterized by a sandwich of powers of two: a positive
/// value lies between the two powers of two around its high-bit index.
pub proof fn lemma_high_bit_index_range(v: nat)
    requires
        v > 0,
    ensures
        high_bit_index(v) >= 1,
        pow2((high_bit_index(v) - 1) as nat) <= v < pow2(high_bit_index(v)),
    decreases v,
{
    let h = high_bit_index(v);
    if v / 2 == 0 {
        assert(v == 1);
        assert(high_bit_index(0) == 0);
        assert(h == 1);
        vstd::arithmetic::power2::lemma2_to64();
    } else {
        lemma_high_bit_index_range(v / 2);
        let h2 = high_bit_index(v / 2);
        assert(h == h2 + 1);
        lemma_pow2_unfold(h);
        assert(pow2(h) == 2 * pow2(h2));
        lemma_pow2_unfold((h - 1) as nat);
        assert(h2 >= 1 ==> pow2((h - 1) as nat) == 2 * pow2((h2 - 1) as nat));
        assert(2 * (v / 2) <= v < 2 * (v / 2) + 2);
    }
}

/// A value below `pow2(k)` needs at most `k` bits.
pub proof fn lemma_high_bit_index_le(v: nat, k: nat)
    requires
        v < pow2(k),
    ensures
        high_bit_index(v) <= k,
{
    if v > 0 {
        lemma_high_bit_index_range(v);
        let h = high_bit_index(v);
        if h > k {
            if k < h - 1 {
                lemma_pow2_strictly_increases(k, (h - 1) as nat);
            }
            assert(pow2(k) <= pow2((h - 1) as nat));
            assert(false);
        }
    }
}

/// Conversely, the sandwich determines the high-bit index uniquely.
pub proof fn lemma_high_bit_index_unique(v: nat, k: nat)
    requires
        k >= 1,
        pow2((k - 1) as nat) <= v < pow2(k),
    ensures
        high_bit_index(v) == k,
{
    vstd::arithmetic::power2::lemma_pow2_pos((k - 1) as nat);
    assert(v > 0);
    lemma_high_bit_index_range(v);
    let h = high_bit_index(v);
    if h < k {
        if h < k - 1 {
            lemma_pow2_strictly_increases(h, (k - 1) as nat);
        }
        assert(pow2(h) <= pow2((k - 1) as nat));
        assert(false);
    }
    if h > k {
        if k < h - 1 {
            lemma_pow2_strictly_increases(k, (h - 1) as nat);
        }
        assert(pow2(k) <= pow2((h - 1) as nat));
        assert(false);
    }
}

/// Whether the transform actually discards bits of `value`: it does exactly
/// when the value needs more than `bit_count` bits.
pub open spec fn compresses(value: u64, bit_count: u32) -> bool {
    high_bit_index(value as nat) > bit_count
}

/// How many low bits are discarded when compression applies.
pub open spec fn discard_count(value: u64, bit_count: u32) -> nat {
    (high_bit_index(value as nat) - bit_count) as nat
}

/// The preserved prefix: the top `bit_count` bits of `value`, right-aligned.
pub open spec fn prefix_of(value: u64, bit_count: u32) -> nat {
    value as nat / pow2(discard_count(value, bit_count))
}

/// The bit that picks the suffix pattern: the parity of the prefix, except
/// for `bit_count == 1`, where a one-bit prefix is always 1 and carries no
/// parity information, so the parity of the discard count serves instead.
pub open spec fn selector_of(value: u64, bit_count: u32) -> nat {
    if bit_count == 1 {
        discard_count(value, bit_count) % 2
    } else {
        prefix_of(value, bit_count) % 2
    }
}

/// The suffix replacing the discarded bits: either only the top suffix bit
/// set (`100...0`) or its complement within the suffix width (`011...1`),
/// chosen by the selector.
pub open spec fn suffix_of(value: u64, bit_count: u32) -> nat {
    let half = pow2((discard_count(value, bit_count) - 1) as nat);
    if selector_of(value, bit_count) == 1 {
        (half - 1) as nat
    } else {
        half
    }
}

/// The compressed representative of `value` with `bit_count` preserved bits:
/// `value` itself when it already fits the budget, otherwise the preserved
/// prefix followed by the chosen suffix pattern.
pub open spec fn compress_spec(value: u64, bit_count: u32) -> nat {
    if compresses(value, bit_count) {
        prefix_of(value, bit_count) * pow2(discard_count(value, bit_count)) + suffix_of(
            value,
            bit_count,
        )
    } else {
        value as nat
    }
}

/// Bounds on every piece of the compressed form when compression applies:
/// the prefix occupies exactly `bit_count` bits, the suffix fits in the
/// discarded width, and the result stays inside the value's original
/// power-of-two bracket.
pub proof fn lemma_compress_parts(value: u64, bit_count: u32)
    requires
        1 <= bit_count,
        compresses(value, bit_count),
    ensures
        value > 0,
        1 <= discard_count(value, bit_count) <= 63,
        pow2((bit_count - 1) as nat) <= prefix_of(value, bit_count) < pow2(bit_count as nat),
        suffix_of(value, bit_count) < pow2(discard_count(value, bit_count)),
        prefix_of(value, bit_count) * pow2(discard_count(value, bit_count)) <= value,
        pow2((high_bit_index(value as nat) - 1) as nat) <= compress_spec(value, bit_count) < pow2(
            high_bit_index(value as nat),
        ),
        high_bit_index(compress_spec(value, bit_count)) == high_bit_index(value as nat),
{
    let h = high_bit_index(value as nat);
    let d = discard_count(value, bit_count);
    let p = prefix_of(value, bit_count);
    let s = suffix_of(value, bit_count);
    assert(value > 0) by {
        if value == 0 {
            assert(high_bit_index(0) == 0);
        }
    }
    lemma_high_bit_index_range(value as nat);
    assert(h == bit_count + d);
    lemma_pow2_pos(d);
    lemma_pow2_pos((d - 1) as nat);
    assert(h <= 64) by {
        vstd::arithmetic::power2::lemma2_to64();
        lemma_high_bit_index_le(value as nat, 64);
    }
    // The suffix fits in d bits: pow2(d - 1) < pow2(d).
    lemma_pow2_strictly_increases((d - 1) as nat, d);
    // p * pow2(d) <= value, from the fundamental division identity.
    lemma_fundamental_div_mod(value as int, pow2(d) as int);
    vstd::arithmetic::mul::lemma_mul_is_commutative(pow2(d) as int, p as int);
    // p < pow2(bit_count), since value < pow2(h) == pow2(d) * pow2(bit_count).
    lemma_pow2_adds(d, bit_count as nat);
    assert(pow2(h) == pow2(d) * pow2(bit_count as nat));
    lemma_multiply_divide_lt(value as int, pow2(d) as int, pow2(bit_count as nat) as int);
    // p >= pow2(bit_count - 1), since value >= pow2(h - 1) == pow2(bit_count - 1) * pow2(d).
    lemma_pow2_adds((bit_count - 1) as nat, d);
    assert(pow2((h - 1) as nat) == pow2((bit_count - 1) as nat) * pow2(d));
    lemma_div_is_ordered(pow2((h - 1) as nat) as int, value as int, pow2(d) as int);
    lemma_div_by_multiple(pow2((bit_count - 1) as nat) as int, pow2(d) as int);
    assert(pow2((h - 1) as nat) as int / pow2(d) as int == pow2((bit_count - 1) as nat));
    // Lower bound on the result: p * pow2(d) >= pow2(bit_count - 1) * pow2(d).
    lemma_mul_inequality(pow2((bit_count - 1) as nat) as int, p as int, pow2(d) as int);
    // Upper bound on the result: (p + 1) * pow2(d) <= pow2(bit_count) * pow2(d).
    lemma_mul_inequality(p as int + 1, pow2(bit_count as nat) as int, pow2(d) as int);
    vstd::arithmetic::mul::lemma_mul_is_distributive_add_other_way(
        pow2(d) as int,
        p as int,
        1int,
    );
    assert(p * pow2(d) + s < (p + 1) * pow2(d));
    vstd::arithmetic::mul::lemma_mul_is_commutative(pow2(bit_count as nat) as int, pow2(d) as int);
    assert(p * pow2(d) + s < pow2(h));
    assert(pow2((h - 1) as nat) <= p * pow2(d) + s);
    // The result keeps the high-bit index of the input.
    lemma_high_bit_index_unique(compress_spec(value, bit_count), h);
}

} // verus!

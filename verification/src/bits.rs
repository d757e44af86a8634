//! Nine-bit digit masks: bit `d - 1` stands for digit `d`.

use vstd::prelude::*;
use vstd::std_specs::bits::u16_trailing_zeros;
use vstd::std_specs::bits::axiom_u16_trailing_zeros;

verus! {

/// The mask in which every digit from 1 to 9 is present.
pub const ALL_BITS_SET: u16 = 0b1_1111_1111;

/// The mask that holds digit `d` alone.
pub open spec fn digit_bit(d: u8) -> u16 {
    1u16 << ((d - 1) as u16)
}

/// Whether `d` is one of the digits 1 to 9.
pub open spec fn is_digit(d: u8) -> bool {
    1 <= d <= 9
}

/// Whether mask `m` holds digit `d`.
pub open spec fn has_digit(m: u16, d: u8) -> bool {
    m & digit_bit(d) != 0
}

/// Whether `m` uses the nine digit bits only.
pub open spec fn is_mask(m: u16) -> bool {
    m <= ALL_BITS_SET
}

/// Whether `low` is the lowest bit that is set in `value`: a single bit of
/// `value` below which `value` has no bit. Of zero it is zero.
pub open spec fn is_lowest_bit(value: u16, low: u16) -> bool {
    if value == 0 {
        low == 0
    } else {
        &&& low != 0
        &&& low & value == low
        &&& low & ((low - 1) as u16) == 0
        &&& value & ((low - 1) as u16) == 0
    }
}

/// The smallest digit that mask `m` holds, and 0 where it holds none.
pub open spec fn lowest_digit(m: u16) -> u8 {
    if m & 0x001 != 0 {
        1
    } else if m & 0x002 != 0 {
        2
    } else if m & 0x004 != 0 {
        3
    } else if m & 0x008 != 0 {
        4
    } else if m & 0x010 != 0 {
        5
    } else if m & 0x020 != 0 {
        6
    } else if m & 0x040 != 0 {
        7
    } else if m & 0x080 != 0 {
        8
    } else if m & 0x100 != 0 {
        9
    } else {
        0
    }
}

/// The number of bits that are set in `m`.
pub open spec fn popcount(m: u16) -> nat
    decreases m,
{
    if m == 0 {
        0
    } else {
        (m % 2) as nat + popcount(m / 2)
    }
}

/// Every digit is in the full mask.
pub proof fn lemma_all_bits(d: u8)
    requires
        is_digit(d),
    ensures
        has_digit(ALL_BITS_SET, d),
{
    assert(1 <= d <= 9 ==> 0x1ffu16 & (1u16 << ((d - 1) as u16)) != 0) by (bit_vector);
}

/// Flipping the bit of `d` changes whether the mask holds `d`, and nothing
/// else about the digits it holds.
pub proof fn lemma_toggle(m: u16, d: u8, e: u8)
    requires
        is_digit(d),
        is_digit(e),
    ensures
        has_digit(m ^ digit_bit(d), e) == (if e == d {
            !has_digit(m, d)
        } else {
            has_digit(m, e)
        }),
        is_mask(m) ==> is_mask(m ^ digit_bit(d)),
{
    assert(1 <= d <= 9 && 1 <= e <= 9 ==> ((m ^ (1u16 << ((d - 1) as u16))) & (1u16 << ((e - 1) as u16)) != 0)
        == (if e == d {
        !(m & (1u16 << ((d - 1) as u16)) != 0)
    } else {
        m & (1u16 << ((e - 1) as u16)) != 0
    })) by (bit_vector);
    assert(1 <= d <= 9 && m <= 0x1ffu16 ==> (m ^ (1u16 << ((d - 1) as u16))) <= 0x1ffu16)
        by (bit_vector);
}

/// Flipping a bit twice gives the mask back.
pub proof fn lemma_restore(m: u16, bit: u16)
    ensures
        (m ^ bit) ^ bit == m,
{
    assert((m ^ bit) ^ bit == m) by (bit_vector);
}

/// The intersection of three masks holds the digits that all three hold.
pub proof fn lemma_intersection(a: u16, b: u16, c: u16, d: u8)
    requires
        is_digit(d),
    ensures
        has_digit(a & b & c, d) == (has_digit(a, d) && has_digit(b, d) && has_digit(c, d)),
        is_mask(a) ==> is_mask(a & b & c),
{
    assert(1 <= d <= 9 ==> ((a & b & c) & (1u16 << ((d - 1) as u16)) != 0) == ((a & (1u16 << ((d
        - 1) as u16)) != 0) && (b & (1u16 << ((d - 1) as u16)) != 0) && (c & (1u16 << ((d
        - 1) as u16)) != 0))) by (bit_vector);
    assert(a <= 0x1ffu16 ==> (a & b & c) <= 0x1ffu16) by (bit_vector);
}

/// The lowest bit of a mask that is not empty is the bit of its smallest
/// digit, and the mask without that bit is smaller.
pub proof fn lemma_lowest_digit(m: u16, low: u16)
    requires
        is_mask(m),
        m != 0,
        is_lowest_bit(m, low),
    ensures
        is_digit(lowest_digit(m)),
        has_digit(m, lowest_digit(m)),
        low == digit_bit(lowest_digit(m)),
        m ^ low < m,
        is_mask(m ^ low),
        forall|e: u8| is_digit(e) && e < lowest_digit(m) ==> !has_digit(m, e),
{
    assert(m <= 0x1ffu16 && m != 0 ==> 1 <= lowest_digit(m) <= 9) by (bit_vector);
    assert(m <= 0x1ffu16 && m != 0 ==> m & (1u16 << ((lowest_digit(m) - 1) as u16)) != 0)
        by (bit_vector);
    assert(m <= 0x1ffu16 && m != 0 && low != 0 && low & m == low && low & ((low - 1) as u16) == 0
        && m & ((low - 1) as u16) == 0 ==> low == (1u16 << ((lowest_digit(m) - 1) as u16)) && m
        ^ low < m && (m ^ low) <= 0x1ffu16) by (bit_vector);
    assert forall|e: u8| is_digit(e) && e < lowest_digit(m) implies !has_digit(m, e) by {
        assert(m <= 0x1ffu16 && m != 0 && 1 <= e <= 9 && e < lowest_digit(m) ==> m & (1u16 << ((e
            - 1) as u16)) == 0) by (bit_vector);
    }
}

/// No digit is in the empty mask.
pub proof fn lemma_empty_mask(d: u8)
    requires
        is_digit(d),
    ensures
        !has_digit(0u16, d),
{
    assert(0u16 & (1u16 << ((d - 1) as u16)) == 0) by (bit_vector);
}

/// Two masks that hold the same digits are the same mask.
pub proof fn lemma_same_digits(a: u16, b: u16)
    requires
        is_mask(a),
        is_mask(b),
        forall|d: u8| is_digit(d) ==> #[trigger] has_digit(a, d) == has_digit(b, d),
    ensures
        a == b,
{
    assert(has_digit(a, 1) == has_digit(b, 1));
    assert(has_digit(a, 2) == has_digit(b, 2));
    assert(has_digit(a, 3) == has_digit(b, 3));
    assert(has_digit(a, 4) == has_digit(b, 4));
    assert(has_digit(a, 5) == has_digit(b, 5));
    assert(has_digit(a, 6) == has_digit(b, 6));
    assert(has_digit(a, 7) == has_digit(b, 7));
    assert(has_digit(a, 8) == has_digit(b, 8));
    assert(has_digit(a, 9) == has_digit(b, 9));
    assert(a <= 0x1ffu16 && b <= 0x1ffu16 && (a & (1u16 << 0u16) != 0) == (b & (1u16 << 0u16)
        != 0) && (a & (1u16 << 1u16) != 0) == (b & (1u16 << 1u16) != 0) && (a & (1u16 << 2u16)
        != 0) == (b & (1u16 << 2u16) != 0) && (a & (1u16 << 3u16) != 0) == (b & (1u16 << 3u16)
        != 0) && (a & (1u16 << 4u16) != 0) == (b & (1u16 << 4u16) != 0) && (a & (1u16 << 5u16)
        != 0) == (b & (1u16 << 5u16) != 0) && (a & (1u16 << 6u16) != 0) == (b & (1u16 << 6u16)
        != 0) && (a & (1u16 << 7u16) != 0) == (b & (1u16 << 7u16) != 0) && (a & (1u16 << 8u16)
        != 0) == (b & (1u16 << 8u16) != 0) ==> a == b) by (bit_vector);
}

/// Get the lowest set bit of a `u16`.
pub fn get_low_bit(value: u16) -> (low: u16)
    ensures
        is_lowest_bit(value, low),
{
    let low = value & 0u16.wrapping_sub(value);
    proof {
        let neg = vstd::wrapping::u16_specs::wrapping_sub(0, value);
        assert(neg == (if value == 0 { 0u16 } else { (0x10000 - value) as u16 }));
        assert(value != 0 && neg == (0x10000 - value) as u16 && low == value & neg ==> low != 0
            && low & value == low && low & ((low - 1) as u16) == 0 && value & ((low - 1) as u16)
            == 0) by (bit_vector);
        assert(value == 0 && low == value & neg ==> low == 0) by (bit_vector);
    }
    low
}

/// Clear the lowest set bit of a `u16`; zero stays zero.
pub fn clear_low_bit(value: u16) -> (rest: u16)
    ensures
        forall|low: u16| is_lowest_bit(value, low) ==> rest == value ^ low,
{
    let rest = value & value.wrapping_sub(1);
    proof {
        let prev = vstd::wrapping::u16_specs::wrapping_sub(value, 1);
        assert forall|low: u16| is_lowest_bit(value, low) implies rest == value ^ low by {
            assert(value == 0 && low == 0 && rest == value & prev ==> rest == value ^ low)
                by (bit_vector);
            assert(value != 0 && prev == (value - 1) as u16 && rest == value & prev && low != 0
                && low & value == low && low & ((low - 1) as u16) == 0 && value & ((low
                - 1) as u16) == 0 ==> rest == value ^ low) by (bit_vector);
        }
    }
    rest
}

/// Convert a `u16` with a single bit set into the digit that the bit stands
/// for: one more than the bit's position.
pub fn pos_to_value(pos: u16) -> (value: u8)
    ensures
        value == u16_trailing_zeros(pos) + 1,
        forall|d: u8| is_digit(d) && pos == digit_bit(d) ==> value == d,
{
    proof {
        axiom_u16_trailing_zeros(pos);
        let t = u16_trailing_zeros(pos) as u16;
        assert forall|d: u8| is_digit(d) && pos == digit_bit(d) implies t + 1 == d by {
            assert(1 <= d <= 9 ==> (1u16 << ((d - 1) as u16)) != 0) by (bit_vector);
            assert(1 <= d <= 9 && pos == (1u16 << ((d - 1) as u16)) && t < 16 && (pos >> t) & 1u16
                == 1u16 ==> t + 1 == d) by (bit_vector);
        }
    }
    (pos.trailing_zeros() + 1) as u8
}

/// Count the bits that are set in a `u16`, by `u16::count_ones`: the number
/// of ones in the binary representation of `value`.
#[verifier::external_body]
pub(crate) fn count_ones(value: u16) -> (count: u16)
    ensures
        count == popcount(value),
{
    value.count_ones() as u16
}

} // verus!

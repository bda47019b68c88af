//! Keys: the integers by which real numbers are compared.
//!
//! A number comes as the 32 bits of its single-precision form: the
//! highest bit is its sign and the other 31, read as an integer, grow
//! with its size. The key of a number is that size, with the sign of the
//! number. Both zeros have the key zero. What is no number has the key
//! [`NO_HIT`], and so has what is beyond all numbers; what is below all
//! numbers has the key `-INFINITE`.

use vstd::prelude::*;
use crate::intersections::NO_HIT;

verus! {

/// The key of one.
pub const ONE: i64 = 0x3f80_0000;

/// The key of the least difference between one and a greater number: two
/// to the power of minus twenty-three.
pub const EPSILON: i64 = 0x3400_0000;

/// The size that stands for what is beyond all numbers; every greater
/// size stands for no number.
pub const INFINITE: i64 = 0x7f80_0000;

/// The bit that holds the sign.
pub const SIGN: u32 = 0x8000_0000;

/// The size of the number with these bits: the bits without the sign.
pub open spec fn size_of(bits: u32) -> int {
    if bits >= SIGN {
        bits - SIGN
    } else {
        bits as int
    }
}

/// Whether the bits are those of a number, which may be below all
/// numbers, but not beyond them.
pub open spec fn is_number(bits: u32) -> bool {
    size_of(bits) < INFINITE || bits == SIGN + INFINITE
}

/// The key of the number with these bits.
pub open spec fn spec_key(bits: u32) -> i64 {
    if !is_number(bits) {
        NO_HIT
    } else if bits >= SIGN {
        (-size_of(bits)) as i64
    } else {
        size_of(bits) as i64
    }
}

/// Bits with this key: see [`bits`].
pub open spec fn spec_bits(k: i64) -> u32 {
    if k >= INFINITE {
        INFINITE as u32
    } else if k <= -INFINITE {
        (SIGN + INFINITE) as u32
    } else if k < 0 {
        (SIGN - k) as u32
    } else {
        k as u32
    }
}

/// The key of the number with these bits.
pub fn key(bits: u32) -> (k: i64)
    ensures
        k == spec_key(bits),
        k == NO_HIT || -INFINITE <= k < INFINITE,
{
    let negative = bits >= SIGN;
    let size: u32 = if negative {
        bits - SIGN
    } else {
        bits
    };
    if size > INFINITE as u32 || (size == INFINITE as u32 && !negative) {
        return NO_HIT;
    }
    if negative {
        -(size as i64)
    } else {
        size as i64
    }
}

/// The bits of a number with this key. Of the two zeros the positive one
/// is given, and for every key beyond all numbers the bits of what is
/// beyond all numbers.
pub fn bits(k: i64) -> (b: u32)
    ensures
        b == spec_bits(k),
{
    if k >= INFINITE {
        INFINITE as u32
    } else if k <= -INFINITE {
        SIGN + INFINITE as u32
    } else if k < 0 {
        SIGN + ((-k) as u32)
    } else {
        k as u32
    }
}

/// Keys are ordered as the numbers are: a negative number lies below
/// every number that is not negative, except that the two zeros are
/// equal; of two numbers that are not negative the one of greater size
/// is greater, and of two negative numbers the one of greater size is
/// less.
pub proof fn lemma_key_order(a: u32, b: u32)
    requires
        is_number(a),
        is_number(b),
    ensures
        spec_key(a) < spec_key(b) <==> if a >= SIGN && b >= SIGN {
            size_of(a) > size_of(b)
        } else if a >= SIGN {
            size_of(a) > 0 || size_of(b) > 0
        } else if b >= SIGN {
            false
        } else {
            size_of(a) < size_of(b)
        },
        spec_key(a) == spec_key(b) <==> a == b || (size_of(a) == 0 && size_of(b) == 0),
{
}

/// The key of a number is negative, zero or positive as the number is,
/// and the key of the opposite number is the opposite key.
pub proof fn lemma_key_sign(bits: u32)
    requires
        size_of(bits) < INFINITE,
    ensures
        spec_key(bits) < 0 <==> bits > SIGN,
        spec_key(bits) == 0 <==> bits == 0 || bits == SIGN,
        spec_key(bits) > 0 <==> 0 < bits < SIGN,
        spec_key(if bits >= SIGN {
            (bits - SIGN) as u32
        } else {
            (bits + SIGN) as u32
        }) == -spec_key(bits),
{
}

/// A key gives back bits with that key: nothing is lost but the sign of
/// zero and the difference between what is no number and what is beyond
/// all numbers.
pub proof fn lemma_bits_have_their_key(k: i64)
    requires
        k == NO_HIT || -INFINITE <= k < INFINITE,
    ensures
        spec_key(spec_bits(k)) == k,
{
}

/// What is no number, and what is beyond all numbers, has the greatest
/// key; every number has a lesser one.
pub proof fn lemma_key_of_no_number(bits: u32)
    ensures
        spec_key(bits) <= NO_HIT,
        spec_key(bits) == NO_HIT <==> size_of(bits) > INFINITE || bits == INFINITE,
{
}

} // verus!

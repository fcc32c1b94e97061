use vstd::prelude::*;

verus! {

/// The sign bit of a 32-bit IEEE-754 pattern.
pub const SIGN_BIT: u32 = 0x8000_0000;

/// The order key of the 32-bit floating-point value with bit pattern `bits`:
/// negative values have all bits flipped, the others only the sign bit, so
/// that comparing keys as unsigned integers compares the values. Negative
/// zero gets the key of positive zero, as the two compare equal.
pub open spec fn order_key(bits: u32) -> u32 {
    if bits == SIGN_BIT {
        SIGN_BIT
    } else if bits & SIGN_BIT != 0 {
        !bits
    } else {
        bits | SIGN_BIT
    }
}

/// The bit pattern whose order key is `key` (positive zero for the key of
/// both zeros).
pub open spec fn key_bits(key: u32) -> u32 {
    if key & SIGN_BIT != 0 {
        key & !SIGN_BIT
    } else {
        !key
    }
}

/// The order key of the floating-point value with bit pattern `bits`.
pub fn order_key_of_bits(bits: u32) -> (key: u32)
    ensures
        key == order_key(bits),
        bits != SIGN_BIT ==> key_bits(key) == bits,
{
    let key = if bits == SIGN_BIT {
        SIGN_BIT
    } else if bits & SIGN_BIT != 0 {
        !bits
    } else {
        bits | SIGN_BIT
    };
    assert(bits != 0x8000_0000u32 ==> key_bits(key) == bits) by (bit_vector)
        requires
            key == (if bits == 0x8000_0000u32 {
                0x8000_0000u32
            } else if bits & 0x8000_0000u32 != 0 {
                !bits
            } else {
                bits | 0x8000_0000u32
            }),
            key_bits(key) == (if key & 0x8000_0000u32 != 0 {
                key & !0x8000_0000u32
            } else {
                !key
            }),
    ;
    key
}

/// The bit pattern of the floating-point value whose order key is `key`.
pub fn bits_of_order_key(key: u32) -> (bits: u32)
    ensures
        bits == key_bits(key),
        key != !SIGN_BIT ==> order_key(bits) == key,
{
    let bits = if key & SIGN_BIT != 0 {
        key & !SIGN_BIT
    } else {
        !key
    };
    assert(key != !0x8000_0000u32 ==> order_key(bits) == key) by (bit_vector)
        requires
            bits == (if key & 0x8000_0000u32 != 0 {
                key & !0x8000_0000u32
            } else {
                !key
            }),
            order_key(bits) == (if bits == 0x8000_0000u32 {
                0x8000_0000u32
            } else if bits & 0x8000_0000u32 != 0 {
                !bits
            } else {
                bits | 0x8000_0000u32
            }),
    ;
    bits
}

} // verus!

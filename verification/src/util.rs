//! Small bit- and word-level helpers shared by the interpreter.

use vstd::prelude::*;

verus! {

/// The value of the 16-bit big-endian word formed by a high and a low byte.
pub open spec fn spec_halfword(hi: u8, lo: u8) -> u16 {
    (hi as int * 256 + lo as int) as u16
}

/// `input` masked down to bit `n` (still in place, not shifted down);
/// zero whenever `n` is not a valid bit position of a byte.
pub open spec fn spec_get_bit_at(input: u8, n: u8) -> u8 {
    if n < 8 {
        input & (1u8 << n)
    } else {
        0
    }
}

/// Says whether a 16-bit value fits in 12 bits, the width of a CHIP-8 address.
pub fn u12(i: u16) -> (r: bool)
    ensures
        r == (i <= 0xFFF),
{
    if i > 0xFFF {
        return false;
    }
    true
}

/// Packs consecutive byte pairs into 16-bit words, high byte first.
pub fn halfwords(bytes: &[u8]) -> (r: Vec<u16>)
    requires
        bytes@.len() % 2 == 0,
    ensures
        r@.len() == bytes@.len() / 2,
        forall|k: int|
            0 <= k < r@.len() ==> r@[k] == spec_halfword(bytes@[2 * k], bytes@[2 * k + 1]),
{
    let mut halfwords: Vec<u16> = Vec::new();
    let mut i: usize = 0;
    while i + 1 < bytes.len()
        invariant
            bytes@.len() % 2 == 0,
            i % 2 == 0,
            i <= bytes@.len(),
            halfwords@.len() == i / 2,
            forall|k: int|
                0 <= k < halfwords@.len() ==> halfwords@[k] == spec_halfword(
                    bytes@[2 * k],
                    bytes@[2 * k + 1],
                ),
        decreases bytes@.len() - i,
    {
        let hi: u8 = bytes[i];
        let lo: u8 = bytes[i + 1];
        assert((hi as u16) << 8u16 <= 0xFF00) by (bit_vector);
        let halfword: u16 = ((hi as u16) << 8u16) + lo as u16;
        assert(halfword == (hi as int * 256 + lo as int) as u16) by (bit_vector)
            requires
                halfword == ((hi as u16) << 8u16) + lo as u16,
        ;
        halfwords.push(halfword);
        i = i + 2;
    }
    halfwords
}

/// Returns `input & (1 << n)` for a bit position `n` below 8, and 0 otherwise.
pub fn get_bit_at(input: u8, n: u8) -> (r: u8)
    ensures
        r == spec_get_bit_at(input, n),
{
    if n < 8 {
        input & (1u8 << n)
    } else {
        0
    }
}

/// Arithmetic that wraps around at the type's boundary instead of trapping.
pub trait Wrapable: Sized {
    /// The mathematical value of a wrapping addition.
    spec fn wrap_add_spec(self, other: Self) -> Self;

    /// The mathematical value of a wrapping subtraction.
    spec fn wrap_sub_spec(self, other: Self) -> Self;

    /// Adds, wrapping on overflow.
    fn wrap_add(self, other: Self) -> (r: Self)
        ensures
            r == self.wrap_add_spec(other),
    ;

    /// Subtracts, wrapping on underflow.
    fn wrap_sub(self, other: Self) -> (r: Self)
        ensures
            r == self.wrap_sub_spec(other),
    ;
}

impl Wrapable for u8 {
    open spec fn wrap_add_spec(self, other: u8) -> u8 {
        ((self as int + other as int) % 256) as u8
    }

    open spec fn wrap_sub_spec(self, other: u8) -> u8 {
        ((self as int - other as int + 256) % 256) as u8
    }

    fn wrap_add(self, other: u8) -> u8 {
        self.wrapping_add(other)
    }

    fn wrap_sub(self, other: u8) -> u8 {
        self.wrapping_sub(other)
    }
}

impl Wrapable for u16 {
    open spec fn wrap_add_spec(self, other: u16) -> u16 {
        ((self as int + other as int) % 0x10000) as u16
    }

    open spec fn wrap_sub_spec(self, other: u16) -> u16 {
        ((self as int - other as int + 0x10000) % 0x10000) as u16
    }

    fn wrap_add(self, other: u16) -> u16 {
        self.wrapping_add(other)
    }

    fn wrap_sub(self, other: u16) -> u16 {
        self.wrapping_sub(other)
    }
}

} // verus!

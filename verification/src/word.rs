//! Arithmetic on single 32-bit words with explicit carries.

use vstd::prelude::*;

verus! {

/// Number of bits in one word.
pub const WORD_BITS: u32 = 32;

/// The radix of the word representation, `2^32`.
pub open spec fn word_base() -> nat {
    0x1_0000_0000
}

/// Adds `x`, `y` and `c`. Returns `(carry, sum)` where `sum` is the low word
/// of the total and `carry` tells whether the total left the word range.
///
/// With a carry-in of 0 or 1 the pair is the exact two-word total.
pub fn add_ww(x: u32, y: u32, c: u32) -> (r: (u32, u32))
    ensures
        r.1 == (x + y + c) % (word_base() as int),
        r.0 == (if x + y + c >= word_base() { 1u32 } else { 0u32 }),
        x + y + c < 2 * word_base() ==> r.0 * word_base() + r.1 == x + y + c,
{
    let yc: u32 = y.wrapping_add(c);
    let z0: u32 = x.wrapping_add(yc);
    let z1: u32 = if z0 < x || yc < y { 1 } else { 0 };
    (z1, z0)
}

/// Computes `x * y + c` exactly and returns it as `(high, low)` words.
pub fn mul_add_www(x: u32, y: u32, c: u32) -> (r: (u32, u32))
    ensures
        r.0 * word_base() + r.1 == x * y + c,
{
    assert(x * y + c <= 0xffff_ffff * 0xffff_ffff + 0xffff_ffff) by (nonlinear_arith)
        requires
            x <= 0xffff_ffff,
            y <= 0xffff_ffff,
            c <= 0xffff_ffff,
    ;
    let z: u64 = x as u64 * y as u64 + c as u64;
    let hi: u32 = (z >> 32) as u32;
    let lo: u32 = #[verifier::truncate]
    (z as u32);
    assert(hi == z / 0x1_0000_0000 && lo == z % 0x1_0000_0000) by (bit_vector)
        requires
            hi == (z >> 32) as u32,
            lo == z as u32,
    ;
    (hi, lo)
}

} // verus!

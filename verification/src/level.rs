use vstd::arithmetic::power2::{
    lemma2_to64, lemma_pow2_adds, lemma_pow2_pos, lemma_pow2_strictly_increases, pow2,
};
use vstd::prelude::*;

verus! {

/// The value 1.0, the level of a pressed button.
pub const PRESSED: u32 = 0x3f80_0000;

/// The value 0.0, the level of a released button.
pub const RELEASED: u32 = 0;

/// The bit pattern of one half.
pub const HALF: u32 = 0x3f00_0000;

/// The bit pattern of positive infinity; above it lie the patterns that are no number.
pub const INFINITY: u32 = 0x7f80_0000;

/// The pattern without its sign bit.
pub open spec fn magnitude(bits: u32) -> u32 {
    bits & 0x7fff_ffff
}

/// Whether the sign bit is set.
pub open spec fn is_negative(bits: u32) -> bool {
    bits & 0x8000_0000 != 0
}

/// The exponent field.
pub open spec fn exponent(bits: u32) -> nat {
    ((bits >> 23) & 0xff) as nat
}

/// The fraction field.
pub open spec fn fraction(bits: u32) -> nat {
    (bits & 0x7f_ffff) as nat
}

/// The pattern stands for no number.
pub open spec fn is_nan(bits: u32) -> bool {
    exponent(bits) == 255 && fraction(bits) != 0
}

/// The pattern stands for an infinity.
pub open spec fn is_infinite(bits: u32) -> bool {
    exponent(bits) == 255 && fraction(bits) == 0
}

/// For a finite value `x`, the natural number `|x| * 2^149`: a value with exponent field 0
/// is `fraction * 2^-149`, any other is `(2^23 + fraction) * 2^(exponent - 150)`.
pub open spec fn scaled_magnitude(bits: u32) -> nat {
    if exponent(bits) == 0 {
        fraction(bits)
    } else {
        (0x80_0000 + fraction(bits)) * pow2((exponent(bits) - 1) as nat)
    }
}

/// The absolute value is greater than one half, which is `2^148 * 2^-149`.
pub open spec fn magnitude_above_half(bits: u32) -> bool {
    !is_nan(bits) && (is_infinite(bits) || scaled_magnitude(bits) > pow2(148))
}

/// The value is greater than 0.5. False of what is no number.
pub open spec fn above_half(bits: u32) -> bool {
    !is_negative(bits) && magnitude_above_half(bits)
}

/// The value is less than -0.5. False of what is no number.
pub open spec fn below_minus_half(bits: u32) -> bool {
    is_negative(bits) && magnitude_above_half(bits)
}

/// The value is at most 0.5. False of what is no number.
pub open spec fn at_most_half(bits: u32) -> bool {
    !is_nan(bits) && !above_half(bits)
}

/// The value is at least -0.5. False of what is no number.
pub open spec fn at_least_minus_half(bits: u32) -> bool {
    !is_nan(bits) && !below_minus_half(bits)
}

/// A value is not both greater than 0.5 and less than -0.5.
pub proof fn lemma_sides_exclude(bits: u32)
    ensures
        !(above_half(bits) && below_minus_half(bits)),
{
}

/// The patterns that are no number are those whose magnitude lies above that of infinity, and
/// among the others the absolute value is greater than one half exactly where the magnitude
/// of the pattern lies above that of one half.
pub proof fn lemma_magnitude_order(bits: u32)
    ensures
        is_nan(bits) <==> magnitude(bits) > INFINITY,
        magnitude_above_half(bits) <==> HALF < magnitude(bits) <= INFINITY,
{
    let m = magnitude(bits);
    let e = exponent(bits);
    let f = fraction(bits);
    assert(((bits >> 23) & 0xff) <= 255 && (bits & 0x7f_ffff) < 0x80_0000 && (bits & 0x7fff_ffff)
        == ((bits >> 23) & 0xff) * 0x80_0000 + (bits & 0x7f_ffff)) by (bit_vector);
    assert(m == e * 0x80_0000 + f);
    lemma2_to64();
    assert(pow2(23) == 0x80_0000);
    if e == 0 {
        lemma_pow2_strictly_increases(23, 148);
    } else if e < 255 {
        let p = pow2((e - 1) as nat);
        lemma_pow2_pos((e - 1) as nat);
        lemma_pow2_pos(124);
        if e >= 127 {
            if e > 127 {
                lemma_pow2_strictly_increases(126, (e - 1) as nat);
            }
            lemma_pow2_adds(23, 126);
            lemma_pow2_strictly_increases(148, 149);
            assert((0x80_0000 + f) * p >= 0x80_0000 * pow2(126)) by (nonlinear_arith)
                requires
                    p >= pow2(126),
                    f >= 0,
            ;
        } else if e == 126 {
            lemma_pow2_adds(23, 125);
            assert(((0x80_0000 + f) * p > 0x80_0000 * p) <==> f > 0) by (nonlinear_arith)
                requires
                    p > 0,
                    f >= 0,
            ;
        } else {
            if e < 125 {
                lemma_pow2_strictly_increases((e - 1) as nat, 124);
            }
            lemma_pow2_adds(24, 124);
            assert(pow2(24) == 0x100_0000);
            assert((0x80_0000 + f) * p < 0x100_0000 * pow2(124)) by (nonlinear_arith)
                requires
                    0 < p <= pow2(124),
                    0 <= f < 0x80_0000,
                    pow2(124) > 0,
            ;
        }
    }
}

/// Tests whether the value is greater than 0.5.
pub fn is_above_half(bits: u32) -> (above: bool)
    ensures
        above == above_half(bits),
{
    proof {
        lemma_magnitude_order(bits);
        assert(bits & 0x8000_0000 == 0 ==> bits & 0x7fff_ffff == bits) by (bit_vector);
        assert(bits & 0x8000_0000 != 0 ==> bits > 0x7fff_ffff) by (bit_vector);
    }
    HALF < bits && bits <= INFINITY
}

/// Tests whether the value is less than -0.5.
pub fn is_below_minus_half(bits: u32) -> (below: bool)
    ensures
        below == below_minus_half(bits),
{
    proof {
        lemma_magnitude_order(bits);
        assert(bits & 0x8000_0000 == 0 ==> bits <= 0x7fff_ffff) by (bit_vector);
        assert(bits & 0x8000_0000 != 0 ==> bits & 0x7fff_ffff == (bits - 0x8000_0000) as u32
            && bits >= 0x8000_0000) by (bit_vector);
    }
    0xbf00_0000 < bits && bits <= 0xff80_0000
}

/// Tests whether the pattern stands for no number.
pub fn is_not_a_number(bits: u32) -> (nan: bool)
    ensures
        nan == is_nan(bits),
{
    proof {
        lemma_magnitude_order(bits);
    }
    (bits & 0x7fff_ffff) > INFINITY
}

/// Tests whether the value is at most 0.5.
pub fn is_at_most_half(bits: u32) -> (at_most: bool)
    ensures
        at_most == at_most_half(bits),
{
    !is_not_a_number(bits) && !is_above_half(bits)
}

/// Tests whether the value is at least -0.5.
pub fn is_at_least_minus_half(bits: u32) -> (at_least: bool)
    ensures
        at_least == at_least_minus_half(bits),
{
    !is_not_a_number(bits) && !is_below_minus_half(bits)
}

} // verus!

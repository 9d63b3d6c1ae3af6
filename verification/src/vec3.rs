//! Three-component vectors of single-precision numbers, read as colours.
//!
//! A component is held by its IEEE 754 binary32 encoding: one sign bit, eight
//! bits of biased exponent, twenty-three bits of fraction. Everything this
//! module states about a component is stated over those three fields, in
//! exact integer arithmetic.

use vstd::prelude::*;
use vstd::arithmetic::div_mod::{lemma_basic_div, lemma_div_is_ordered, lemma_div_multiples_vanish};
use vstd::arithmetic::power2::{
    lemma2_to64,
    lemma_pow2_adds,
    lemma_pow2_pos,
    lemma_pow2_strictly_increases,
    lemma_pow2_unfold,
    pow2,
};
use vstd::bits::lemma_u64_shr_is_div;
use crate::text::{
    count,
    decimal,
    is_digit,
    lemma_count_concat,
    lemma_decimal_count,
    push_decimal,
    push_decimal_wide,
    wide,
};

verus! {

/// The encoding of the number one.
pub const ONE: u32 = 0x3F80_0000;

/// The encoding of zero with the sign bit set.
pub const NEGATIVE_ZERO: u32 = 0x8000_0000;

/// The encoding of negative infinity.
pub const NEGATIVE_INFINITY: u32 = 0xFF80_0000;

/// The largest value of a colour channel in the output.
pub const MAX_LEVEL: u8 = 255;

/// Whether the sign bit of the encoding is set.
pub open spec fn is_negative(bits: u32) -> bool {
    bits >= 0x8000_0000
}

/// The eight exponent bits of the encoding, as a number.
pub open spec fn biased_exponent(bits: u32) -> nat {
    ((bits / 0x80_0000) % 0x100) as nat
}

/// The twenty-three fraction bits of the encoding, as a number.
pub open spec fn fraction(bits: u32) -> nat {
    (bits % 0x80_0000) as nat
}

/// Whether the encoding is one of the not-a-number encodings.
pub open spec fn is_nan(bits: u32) -> bool {
    biased_exponent(bits) == 255 && fraction(bits) != 0
}

/// Whether the encoding is one of the two infinities.
pub open spec fn is_infinite(bits: u32) -> bool {
    biased_exponent(bits) == 255 && fraction(bits) == 0
}

/// The integer that the encoded magnitude is a multiple of a power of two
/// of: the fraction, with the implicit leading bit unless the number is
/// subnormal.
pub open spec fn significand(bits: u32) -> nat {
    if biased_exponent(bits) == 0 {
        fraction(bits)
    } else {
        0x80_0000 + fraction(bits)
    }
}

/// The exponent `e` for which the encoded magnitude is
/// `significand * 2^(e - 150)`. Meaningful for finite numbers.
pub open spec fn scale(bits: u32) -> nat {
    if biased_exponent(bits) == 0 {
        1
    } else {
        biased_exponent(bits)
    }
}

/// Whether the encoded number lies in the closed interval from 0 to 1: it is
/// a zero of either sign, or it is positive and
/// `significand * 2^(scale - 150) <= 1`. Infinities and not-a-number
/// encodings do not.
pub open spec fn in_unit_interval(bits: u32) -> bool {
    &&& is_negative(bits) ==> significand(bits) == 0
    &&& scale(bits) <= 150
    &&& significand(bits) <= pow2((150 - scale(bits)) as nat)
}

/// The integer part of `255 * |v|` for a finite number `v`, computed
/// exactly. For a number in the unit interval it is the channel value.
pub open spec fn level(bits: u32) -> nat
    recommends
        biased_exponent(bits) < 255,
{
    if scale(bits) <= 150 {
        ((MAX_LEVEL as nat * significand(bits)) / pow2((150 - scale(bits)) as nat)) as nat
    } else {
        MAX_LEVEL as nat * significand(bits) * pow2((scale(bits) - 150) as nat)
    }
}

/// Whether the encoded value is above one: it is positive, a number or
/// infinity, and not in the unit interval.
pub open spec fn is_above_one(bits: u32) -> bool {
    !is_nan(bits) && !is_negative(bits) && !in_unit_interval(bits)
}

/// Whether the encoded value has a channel text: it is a number or an
/// infinity, and it is not above one. Negative numbers and negative infinity
/// have one.
pub open spec fn is_writable(bits: u32) -> bool {
    !is_nan(bits) && !is_above_one(bits)
}

/// The channel text of a value that has one: the decimal numeral of
/// `255 * v` cut to its integer part, with `-` in front where that integer
/// is negative; and `-inf` for negative infinity.
pub open spec fn channel_text(bits: u32) -> Seq<char>
    recommends
        is_writable(bits),
{
    if is_negative(bits) && is_infinite(bits) {
        seq!['-', 'i', 'n', 'f']
    } else if is_negative(bits) && level(bits) > 0 {
        seq!['-'] + decimal(level(bits))
    } else {
        decimal(level(bits))
    }
}

/// A vector of three single-precision numbers, each held by its encoding.
///
/// Two vectors are equal when their encodings are: the two zeros differ, and
/// a not-a-number encoding equals itself.
#[derive(Debug, Copy, Clone, PartialEq, Eq, Structural)]
pub struct Vec3 {
    pub x: u32,
    pub y: u32,
    pub z: u32,
}

/// Why a vector has no colour text.
#[derive(Debug, Copy, Clone, PartialEq, Eq, Structural)]
pub enum ColourError {
    /// A component is above one, or is not a number.
    OutOfBounds,
}

/// The encodings of the numbers in the unit interval are those up to the
/// encoding of one, and the negative zero: among numbers that are not
/// negative, a larger number has a larger encoding.
pub proof fn lemma_unit_interval_encodings(bits: u32)
    ensures
        in_unit_interval(bits) <==> bits <= ONE || bits == NEGATIVE_ZERO,
        in_unit_interval(bits) ==> !is_nan(bits),
{
    lemma2_to64();
    if bits <= ONE {
        let shift = (150 - scale(bits)) as nat;
        assert(shift >= 23);
        if shift > 23 {
            lemma_pow2_strictly_increases(23, shift);
            if shift > 24 {
                lemma_pow2_strictly_increases(24, shift);
            }
        }
    } else if bits == NEGATIVE_ZERO {
        lemma_pow2_pos(149);
    } else if !is_negative(bits) && scale(bits) <= 150 {
        let shift = (150 - scale(bits)) as nat;
        if shift < 23 {
            lemma_pow2_strictly_increases(shift, 23);
        }
    }
}

/// The encodings of the values with a channel text are those up to the
/// encoding of one, and those from the negative zero to negative infinity.
pub proof fn lemma_writable_encodings(bits: u32)
    ensures
        is_writable(bits) <==> bits <= ONE || NEGATIVE_ZERO <= bits <= NEGATIVE_INFINITY,
{
    lemma_unit_interval_encodings(bits);
}

/// A channel value is at most 255.
pub proof fn lemma_level_bound(bits: u32)
    requires
        in_unit_interval(bits),
    ensures
        level(bits) <= MAX_LEVEL,
{
    let d = pow2((150 - scale(bits)) as nat) as int;
    let scaled = (MAX_LEVEL as nat * significand(bits)) as int;
    lemma_pow2_pos((150 - scale(bits)) as nat);
    assert(scaled <= 255 * d) by (nonlinear_arith)
        requires
            scaled == 255 * significand(bits),
            significand(bits) <= d,
    ;
    lemma_div_is_ordered(scaled, 255 * d, d);
    lemma_div_multiples_vanish(255, d);
}

/// A number below two to the power of -8 has the channel value 0.
proof fn lemma_level_of_small(bits: u32)
    requires
        scale(bits) < 119,
    ensures
        level(bits) == 0,
{
    let shift = (150 - scale(bits)) as nat;
    lemma2_to64();
    if shift > 32 {
        lemma_pow2_strictly_increases(32, shift);
    }
    assert(MAX_LEVEL as nat * significand(bits) < pow2(shift)) by (nonlinear_arith)
        requires
            significand(bits) < 0x100_0000,
            pow2(shift) >= 0x1_0000_0000,
    ;
    lemma_basic_div((MAX_LEVEL as nat * significand(bits)) as int, pow2(shift) as int);
}

/// The channel value of the encoded number, where it lies in the unit
/// interval.
pub fn quantize(bits: u32) -> (r: Option<u8>)
    ensures
        r == if in_unit_interval(bits) {
            Some(level(bits) as u8)
        } else {
            None
        },
        in_unit_interval(bits) ==> level(bits) <= MAX_LEVEL,
{
    proof {
        lemma_unit_interval_encodings(bits);
    }
    if bits > ONE && bits != NEGATIVE_ZERO {
        return None;
    }
    proof {
        lemma_level_bound(bits);
    }
    let exponent: u32 = (bits / 0x80_0000) % 0x100;
    if exponent < 119 {
        proof {
            lemma_level_of_small(bits);
        }
        return Some(0);
    }
    let sig: u64 = 0x80_0000 + (bits % 0x80_0000) as u64;
    let shift: u64 = 150 - exponent as u64;
    let scaled: u64 = MAX_LEVEL as u64 * sig;
    proof {
        lemma_u64_shr_is_div(scaled, shift);
    }
    Some((scaled >> shift) as u8)
}

/// Two to the power of `k`.
fn power_of_two(k: u32) -> (p: u128)
    requires
        k < 64,
    ensures
        p == pow2(k as nat),
{
    let mut p: u128 = 1;
    let mut i: u32 = 0;
    proof {
        lemma2_to64();
    }
    while i < k
        invariant
            i <= k,
            k < 64,
            p == pow2(i as nat),
        decreases k - i,
    {
        proof {
            lemma_pow2_strictly_increases(i as nat, 64);
            lemma2_to64();
            lemma_pow2_unfold((i + 1) as nat);
        }
        p = p * 2;
        i += 1;
    }
    p
}

/// Appends the numeral of the integer part of `255 * |v|` for a finite
/// number `v` of more than 255.
fn push_large_level(out: &mut String, bits: u32)
    requires
        150 < scale(bits) < 255,
    ensures
        level(bits) > 0,
        final(out)@ == old(out)@ + decimal(level(bits)),
{
    let exponent: u32 = (bits / 0x80_0000) % 0x100;
    let scaled: u128 = MAX_LEVEL as u128 * (0x80_0000 + (bits % 0x80_0000) as u128);
    let k: u32 = exponent - 150;
    let ghost n = level(bits);
    proof {
        lemma2_to64();
        lemma_pow2_pos(k as nat);
        assert(n == scaled * pow2(k as nat));
        assert(n > 0) by (nonlinear_arith)
            requires
                n == scaled * pow2(k as nat),
                scaled > 0,
                pow2(k as nat) > 0,
        ;
    }
    if k >= 64 {
        proof {
            let p = pow2((k - 64) as nat);
            lemma_pow2_strictly_increases((k - 64) as nat, 64);
            assert(scaled * p < 0x1_0000_0000 * 0x1_0000_0000_0000_0000) by (nonlinear_arith)
                requires
                    scaled < 0x1_0000_0000,
                    p < 0x1_0000_0000_0000_0000,
            ;
        }
        let high: u128 = scaled * power_of_two(k - 64);
        proof {
            let p = pow2((k - 64) as nat);
            lemma_pow2_adds((k - 64) as nat, 64);
            assert(n == scaled * p * 0x1_0000_0000_0000_0000) by (nonlinear_arith)
                requires
                    n == scaled * pow2(k as nat),
                    pow2(k as nat) == p * 0x1_0000_0000_0000_0000,
            ;
            assert(wide(high, 0) == n);
        }
        push_decimal_wide(out, high, 0);
    } else {
        proof {
            let p = pow2(k as nat);
            lemma_pow2_strictly_increases(k as nat, 64);
            assert(scaled * p < 0x1_0000_0000 * 0x1_0000_0000_0000_0000) by (nonlinear_arith)
                requires
                    scaled < 0x1_0000_0000,
                    p < 0x1_0000_0000_0000_0000,
            ;
        }
        let whole: u128 = scaled * power_of_two(k);
        let high: u128 = whole / 0x1_0000_0000_0000_0000;
        let low: u64 = (whole % 0x1_0000_0000_0000_0000) as u64;
        assert(wide(high, low) == n);
        push_decimal_wide(out, high, low);
    }
}

/// Appends the channel text of the encoded value to `out`, where it has
/// one, and says whether it did.
pub fn push_channel(out: &mut String, bits: u32) -> (written: bool)
    ensures
        written == is_writable(bits),
        final(out)@ == if written {
            old(out)@ + channel_text(bits)
        } else {
            old(out)@
        },
{
    proof {
        lemma_writable_encodings(bits);
        lemma_unit_interval_encodings(bits);
    }
    match quantize(bits) {
        Some(q) => {
            proof {
                if is_negative(bits) {
                    lemma_level_of_small(bits);
                }
            }
            push_decimal(out, q as u64);
            return true;
        },
        None => {},
    }
    if bits < NEGATIVE_ZERO || bits > NEGATIVE_INFINITY {
        return false;
    }
    if bits == NEGATIVE_INFINITY {
        out.push('-');
        out.push('i');
        out.push('n');
        out.push('f');
        assert(out@ =~= old(out)@ + channel_text(bits));
        return true;
    }
    let exponent: u32 = (bits / 0x80_0000) % 0x100;
    if exponent > 150 {
        out.push('-');
        push_large_level(out, bits);
        assert(out@ =~= old(out)@ + channel_text(bits));
        return true;
    }
    let sig: u64 = if exponent == 0 {
        (bits % 0x80_0000) as u64
    } else {
        0x80_0000 + (bits % 0x80_0000) as u64
    };
    let shift: u64 = if exponent == 0 {
        149
    } else {
        150 - exponent as u64
    };
    assert(sig == significand(bits) && sig < 0x100_0000);
    let scaled: u64 = MAX_LEVEL as u64 * sig;
    let q: u64 = if shift >= 32 {
        proof {
            lemma_level_of_small(bits);
        }
        0
    } else {
        proof {
            lemma_u64_shr_is_div(scaled, shift);
        }
        scaled >> shift
    };
    assert(q == level(bits));
    if q > 0 {
        out.push('-');
    }
    push_decimal(out, q);
    assert(out@ =~= old(out)@ + channel_text(bits));
    true
}

/// A channel text holds digits and the characters of `-inf` only: no other
/// character occurs in it.
pub proof fn lemma_channel_text_count(bits: u32, c: char)
    requires
        !is_digit(c),
        c != '-' && c != 'i' && c != 'n' && c != 'f',
    ensures
        count(channel_text(bits), c) == 0,
{
    let sign = seq!['-'];
    assert(count(sign, c) == 0 && count(seq!['-', 'i', 'n', 'f'], c) == 0) by {
        reveal_with_fuel(count, 5);
    }
    lemma_decimal_count(level(bits), c);
    lemma_count_concat(sign, decimal(level(bits)), c);
}

/// The channel text of a number in the unit interval is the numeral of its
/// channel value, which is at most 255.
pub proof fn lemma_channel_text_of_unit_interval(bits: u32)
    requires
        in_unit_interval(bits),
    ensures
        is_writable(bits),
        level(bits) <= MAX_LEVEL,
        channel_text(bits) == decimal(level(bits)),
{
    lemma_unit_interval_encodings(bits);
    lemma_level_bound(bits);
    if is_negative(bits) {
        lemma_level_of_small(bits);
    }
}

impl Vec3 {
    /// Whether each component is a number from 0 to 1.
    pub open spec fn is_colour(self) -> bool {
        in_unit_interval(self.x) && in_unit_interval(self.y) && in_unit_interval(self.z)
    }

    /// Whether the vector has a colour text: no component is above one, and
    /// none is not a number.
    pub open spec fn has_text(self) -> bool {
        is_writable(self.x) && is_writable(self.y) && is_writable(self.z)
    }

    /// The three channel texts, red first, with one space between
    /// neighbours.
    pub open spec fn colour_text(self) -> Seq<char>
        recommends
            self.has_text(),
    {
        channel_text(self.x) + seq![' '] + channel_text(self.y) + seq![' '] + channel_text(self.z)
    }

    /// The text of the vector read as a colour: each component is scaled by
    /// 255 and cut to an integer. A vector with a component above one, or
    /// with one that is not a number, has no text; nothing is clamped.
    pub fn colour_fmt(&self) -> (r: Result<String, ColourError>)
        ensures
            match r {
                Ok(s) => self.has_text() && s@ == self.colour_text(),
                Err(e) => !self.has_text() && e == ColourError::OutOfBounds,
            },
    {
        let mut s = String::new();
        if !push_channel(&mut s, self.x) {
            return Err(ColourError::OutOfBounds);
        }
        s.push(' ');
        if !push_channel(&mut s, self.y) {
            return Err(ColourError::OutOfBounds);
        }
        s.push(' ');
        if !push_channel(&mut s, self.z) {
            return Err(ColourError::OutOfBounds);
        }
        proof {
            assert(s@ =~= self.colour_text());
        }
        Ok(s)
    }
}

/// The text of a colour is the numerals of its three channel values, each
/// of which is at most 255.
pub proof fn lemma_colour_text_of_colour(v: Vec3)
    requires
        v.is_colour(),
    ensures
        v.has_text(),
        level(v.x) <= MAX_LEVEL && level(v.y) <= MAX_LEVEL && level(v.z) <= MAX_LEVEL,
        v.colour_text() == decimal(level(v.x)) + seq![' '] + decimal(level(v.y)) + seq![' ']
            + decimal(level(v.z)),
{
    lemma_channel_text_of_unit_interval(v.x);
    lemma_channel_text_of_unit_interval(v.y);
    lemma_channel_text_of_unit_interval(v.z);
}

} // verus!

use rustrays::text::{push_decimal, push_decimal_wide};
use rustrays::vec3::{
    push_channel, quantize, ColourError, Vec3, MAX_LEVEL, NEGATIVE_INFINITY, NEGATIVE_ZERO, ONE,
};

fn vec3(x: f32, y: f32, z: f32) -> Vec3 {
    Vec3 {
        x: x.to_bits(),
        y: y.to_bits(),
        z: z.to_bits(),
    }
}

fn channel(v: f32) -> Option<String> {
    let mut s = String::new();
    if push_channel(&mut s, v.to_bits()) {
        Some(s)
    } else {
        assert_eq!(s, "");
        None
    }
}

fn wide_numeral(high: u128, low: u64) -> String {
    let mut s = String::new();
    push_decimal_wide(&mut s, high, low);
    s
}

fn numeral(n: u64) -> String {
    let mut s = String::new();
    push_decimal(&mut s, n);
    s
}

#[test]
fn test_col_format1() {
    let a = vec3(0.0, 0.0, 0.0);
    let b = a.colour_fmt().unwrap();
    assert_eq!(b, String::from("0 0 0"));
}

#[test]
fn test_col_format2() {
    let a = vec3(1.0, 1.0, 1.0);
    let b = a.colour_fmt().unwrap();
    assert_eq!(b, String::from("255 255 255"));
}

#[test]
fn colour_text_keeps_the_order_of_the_channels() {
    let a = vec3(1.0, 0.5, 0.0);
    assert_eq!(a.colour_fmt(), Ok(String::from("255 127 0")));
    let b = vec3(0.0, 0.25, 1.0);
    assert_eq!(b.colour_fmt(), Ok(String::from("0 63 255")));
}

#[test]
fn colour_text_cuts_and_does_not_round() {
    // 0.999 * 255 = 254.745, and 0.1 * 255 = 25.5
    let a = vec3(0.999, 0.1, 0.004);
    assert_eq!(a.colour_fmt(), Ok(String::from("254 25 1")));
}

#[test]
fn a_component_above_one_is_out_of_bounds() {
    assert_eq!(vec3(1.5, 0.0, 0.0).colour_fmt(), Err(ColourError::OutOfBounds));
    assert_eq!(vec3(0.0, 1.0000001, 0.0).colour_fmt(), Err(ColourError::OutOfBounds));
    assert_eq!(vec3(0.0, 0.0, 2.0).colour_fmt(), Err(ColourError::OutOfBounds));
    assert_eq!(vec3(0.0, 0.0, f32::INFINITY).colour_fmt(), Err(ColourError::OutOfBounds));
    assert_eq!(vec3(-0.5, -1.0, 1.5).colour_fmt(), Err(ColourError::OutOfBounds));
}

#[test]
fn a_negative_component_is_written_with_its_sign() {
    assert_eq!(vec3(-0.5, 0.0, 0.0).colour_fmt(), Ok(String::from("-127 0 0")));
    assert_eq!(vec3(-1.0, -2.0, 1.0).colour_fmt(), Ok(String::from("-255 -510 255")));
    assert_eq!(vec3(0.0, -123.456, 0.5).colour_fmt(), Ok(String::from("0 -31481 127")));
}

#[test]
fn a_negative_component_that_scales_to_less_than_one_is_zero() {
    assert_eq!(vec3(0.0, -1.0e-40, 0.0).colour_fmt(), Ok(String::from("0 0 0")));
    assert_eq!(vec3(-0.001, -0.0039, 0.0).colour_fmt(), Ok(String::from("0 0 0")));
    assert_eq!(channel(f32::from_bits(NEGATIVE_ZERO + 1)), Some(String::from("0")));
    assert_eq!(channel(-1.0 / 255.0), Some(String::from("-1")));
}

#[test]
fn negative_infinity_is_written_by_name() {
    assert_eq!(NEGATIVE_INFINITY, f32::NEG_INFINITY.to_bits());
    assert_eq!(
        vec3(0.0, 0.0, f32::NEG_INFINITY).colour_fmt(),
        Ok(String::from("0 0 -inf"))
    );
    assert_eq!(channel(f32::NEG_INFINITY), Some(String::from("-inf")));
}

#[test]
fn the_largest_negative_magnitudes_are_written_in_full() {
    assert_eq!(
        channel(f32::MIN),
        Some(String::from("-86771998392824859251984566788551815987200"))
    );
    assert_eq!(
        channel(f32::from_bits(0xFF00_0000)),
        Some(String::from("-43386001782419654091580262447550446960640"))
    );
    assert_eq!(
        channel(f32::from_bits(0xE000_0000)),
        Some(String::from("-9407839477591871324160"))
    );
    assert_eq!(
        channel(f32::from_bits(0xDF80_0000)),
        Some(String::from("-4703919738795935662080"))
    );
    assert_eq!(channel(-8388608.0), Some(String::from("-2139095040")));
}

#[test]
fn a_negative_channel_is_the_integer_part_of_the_exact_product() {
    // A double holds the product of 255 and a single exactly, and a u128
    // holds its integer part up to an exponent of 119.
    let mut exponent: u32 = 0;
    while exponent <= 246 {
        for fraction in [0u32, 1, 0x12_3456, 0x40_0000, 0x7F_FFFF] {
            let bits = 0x8000_0000 | (exponent << 23) | fraction;
            let v = f32::from_bits(bits);
            let whole = (255.0 * (-v) as f64) as u128;
            let expected = if whole == 0 {
                String::from("0")
            } else {
                format!("-{}", whole)
            };
            assert_eq!(channel(v), Some(expected), "at {:#x}", bits);
        }
        exponent += 1;
    }
}

#[test]
fn a_channel_in_the_unit_interval_is_its_level() {
    let mut k: u32 = 0;
    while k <= 1000 {
        let v = k as f32 / 1000.0;
        let q = quantize(v.to_bits()).unwrap();
        assert_eq!(channel(v), Some(format!("{}", q)));
        k += 1;
    }
    assert_eq!(channel(-0.0), Some(String::from("0")));
}

#[test]
fn a_channel_above_one_or_no_number_is_not_written() {
    assert_eq!(channel(1.0000001), None);
    assert_eq!(channel(256.0), None);
    assert_eq!(channel(f32::MAX), None);
    assert_eq!(channel(f32::INFINITY), None);
    assert_eq!(channel(f32::NAN), None);
    assert_eq!(channel(f32::from_bits(0xFFC0_0000)), None);
    assert_eq!(channel(f32::from_bits(0xFF80_0001)), None);
    assert_eq!(channel(f32::from_bits(0x7F80_0001)), None);
    assert_eq!(channel(f32::from_bits(u32::MAX)), None);
}

#[test]
fn a_channel_is_appended() {
    let mut s = String::from("255 ");
    assert!(push_channel(&mut s, (-2.0f32).to_bits()));
    assert_eq!(s, "255 -510");
    assert!(!push_channel(&mut s, 2.0f32.to_bits()));
    assert_eq!(s, "255 -510");
}

#[test]
fn wide_numerals() {
    assert_eq!(wide_numeral(0, 0), "0");
    assert_eq!(wide_numeral(0, 5), "5");
    assert_eq!(wide_numeral(0, u64::MAX), "18446744073709551615");
    assert_eq!(wide_numeral(1, 0), "18446744073709551616");
    assert_eq!(wide_numeral(1, 1), "18446744073709551617");
    assert_eq!(
        wide_numeral(1 << 64, 0),
        "340282366920938463463374607431768211456"
    );
    assert_eq!(
        wide_numeral(u128::MAX, u64::MAX),
        "6277101735386680763835789423207666416102355444464034512895"
    );
}

#[test]
fn not_a_number_is_out_of_bounds() {
    assert_eq!(vec3(f32::NAN, 0.0, 0.0).colour_fmt(), Err(ColourError::OutOfBounds));
    assert_eq!(vec3(0.0, -f32::NAN, 0.0).colour_fmt(), Err(ColourError::OutOfBounds));
    assert_eq!(
        vec3(-0.5, 0.0, f32::from_bits(0xFF80_0001)).colour_fmt(),
        Err(ColourError::OutOfBounds)
    );
    assert_eq!(quantize(0x7FC0_0000), None);
    assert_eq!(quantize(0xFFC0_0000), None);
    assert_eq!(quantize(0x7F80_0001), None);
}

#[test]
fn both_zeros_are_black() {
    assert_eq!(vec3(-0.0, 0.0, -0.0).colour_fmt(), Ok(String::from("0 0 0")));
    assert_eq!(quantize(NEGATIVE_ZERO), Some(0));
    assert_eq!(quantize(0), Some(0));
}

#[test]
fn quantize_at_the_ends_of_the_unit_interval() {
    assert_eq!(ONE, 1.0f32.to_bits());
    assert_eq!(NEGATIVE_ZERO, (-0.0f32).to_bits());
    assert_eq!(quantize(ONE), Some(MAX_LEVEL));
    assert_eq!(quantize(ONE - 1), Some(254));
    assert_eq!(quantize(ONE + 1), None);
    assert_eq!(quantize(1), Some(0));
    assert_eq!(quantize(f32::MIN_POSITIVE.to_bits()), Some(0));
    assert_eq!(quantize(NEGATIVE_ZERO + 1), None);
    assert_eq!(quantize(u32::MAX), None);
}

#[test]
fn quantize_is_the_integer_part_of_the_exact_product() {
    // A double holds the product of 255 and a single exactly.
    let mut k: u32 = 0;
    while k <= 100_000 {
        let v = k as f32 / 100_000.0;
        let expected = (255.0 * v as f64).floor() as u8;
        assert_eq!(quantize(v.to_bits()), Some(expected), "at {}", v);
        k += 1;
    }
    let mut level: u32 = 0;
    while level <= 255 {
        let v = level as f32 / 255.0;
        let expected = (255.0 * v as f64).floor() as u8;
        assert_eq!(quantize(v.to_bits()), Some(expected), "at {}", v);
        level += 1;
    }
}

#[test]
fn quantize_over_encodings_near_each_power_of_two() {
    let mut exponent: u32 = 0;
    while exponent <= 127 {
        let base = exponent << 23;
        for offset in [0u32, 1, 2, 0x40_0000, 0x7F_FFFE, 0x7F_FFFF] {
            let bits = base + offset;
            let v = f32::from_bits(bits);
            if v <= 1.0 {
                let expected = (255.0 * v as f64).floor() as u8;
                assert_eq!(quantize(bits), Some(expected), "at {:#x}", bits);
            } else {
                assert_eq!(quantize(bits), None, "at {:#x}", bits);
            }
        }
        exponent += 1;
    }
}

#[test]
fn quantize_never_falls_as_the_number_grows() {
    let mut last: u8 = 0;
    let mut bits: u32 = 0;
    while bits <= ONE {
        let q = quantize(bits).unwrap();
        assert!(q >= last);
        last = q;
        bits += 4093;
    }
    assert_eq!(quantize(ONE), Some(255));
}

#[test]
fn vectors_are_equal_when_their_encodings_are() {
    assert_eq!(vec3(1.0, 2.0, 3.0), vec3(1.0, 2.0, 3.0));
    assert_ne!(vec3(0.0, 0.0, 0.0), vec3(-0.0, 0.0, 0.0));
    let a = vec3(0.5, 0.25, 0.125);
    let b = a;
    assert_eq!(a, b);
}

#[test]
fn decimal_numerals() {
    assert_eq!(numeral(0), "0");
    assert_eq!(numeral(7), "7");
    assert_eq!(numeral(10), "10");
    assert_eq!(numeral(255), "255");
    assert_eq!(numeral(1001), "1001");
    assert_eq!(numeral(u64::MAX), "18446744073709551615");
}

#[test]
fn decimal_numerals_are_appended() {
    let mut s = String::from("P3 ");
    push_decimal(&mut s, 640);
    s.push(' ');
    push_decimal(&mut s, 480);
    assert_eq!(s, "P3 640 480");
}

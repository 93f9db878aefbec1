use hexer::viewer::codec::{
    decode_element, element_count, format_element, format_scientific_unicode, to_superscript,
    u128_hex_pad, u64_dec, u64_hex_pad,
};
use hexer::viewer::common_dt::{DataType, DisplayType, Endianness};

#[test]
fn element_count_drops_partial_tail() {
    assert_eq!(element_count(0, &DataType::U8), 0);
    assert_eq!(element_count(7, &DataType::U16), 3);
    assert_eq!(element_count(7, &DataType::U32), 1);
    assert_eq!(element_count(7, &DataType::U64), 0);
    assert_eq!(element_count(64, &DataType::F32), 16);
    assert_eq!(element_count(64, &DataType::F64), 8);
}

#[test]
fn decode_little_endian() {
    let b: Vec<u8> = vec![0x01, 0x02, 0x03, 0x04, 0x05, 0x06, 0x07, 0x08];
    assert_eq!(decode_element(&b, &DataType::U8, &Endianness::Little, 2), 0x03);
    assert_eq!(decode_element(&b, &DataType::U16, &Endianness::Little, 0), 0x0201);
    assert_eq!(decode_element(&b, &DataType::U16, &Endianness::Little, 1), 0x0403);
    assert_eq!(decode_element(&b, &DataType::U32, &Endianness::Little, 1), 0x08070605);
    assert_eq!(decode_element(&b, &DataType::U64, &Endianness::Little, 0), 0x0807060504030201);
}

#[test]
fn decode_big_endian() {
    let b: Vec<u8> = vec![0x01, 0x02, 0x03, 0x04, 0x05, 0x06, 0x07, 0x08];
    assert_eq!(decode_element(&b, &DataType::U8, &Endianness::Big, 2), 0x03);
    assert_eq!(decode_element(&b, &DataType::U16, &Endianness::Big, 0), 0x0102);
    assert_eq!(decode_element(&b, &DataType::U32, &Endianness::Big, 1), 0x05060708);
    assert_eq!(decode_element(&b, &DataType::U64, &Endianness::Big, 0), 0x0102030405060708);
}

#[test]
fn decode_reads_only_whole_elements() {
    // a three-byte buffer holds one u16 element; the trailing byte backs none
    let b: Vec<u8> = vec![0x34, 0x12, 0xFF];
    assert_eq!(element_count(b.len(), &DataType::U16), 1);
    assert_eq!(decode_element(&b, &DataType::U16, &Endianness::Little, 0), 0x1234);
    let b2: Vec<u8> = vec![0x34, 0x12, 0x00];
    assert_eq!(
        decode_element(&b, &DataType::U16, &Endianness::Little, 0),
        decode_element(&b2, &DataType::U16, &Endianness::Little, 0),
    );
}

#[test]
fn digit_strings() {
    assert_eq!(u64_dec(0), "0");
    assert_eq!(u64_dec(7), "7");
    assert_eq!(u64_dec(1234567890), "1234567890");
    assert_eq!(u64_dec(u64::MAX), "18446744073709551615");
    assert_eq!(u64_hex_pad(0, 2), "00");
    assert_eq!(u64_hex_pad(255, 2), "FF");
    assert_eq!(u64_hex_pad(0xAB, 8), "000000AB");
    assert_eq!(u64_hex_pad(0x1234CDEF, 4), "1234CDEF");
    assert_eq!(u128_hex_pad(0xDEADBEEF, 8), "DEADBEEF");
    assert_eq!(u128_hex_pad(0x1_0000_0000_0000_0000, 8), "10000000000000000");
}

#[test]
fn format_unsigned_hexadecimal() {
    // fixed width two plus the base subscript
    assert_eq!(format_element(255, &DataType::U8, &DisplayType::HexaDecimal), "FF₁₆");
    assert_eq!(format_element(5, &DataType::U8, &DisplayType::HexaDecimal), "05₁₆");
    assert_eq!(format_element(0xBEEF, &DataType::U16, &DisplayType::HexaDecimal), "BEEF₁₆");
    assert_eq!(
        format_element(0x1234_5678, &DataType::U32, &DisplayType::HexaDecimal),
        "12345678₁₆"
    );
    assert_eq!(
        format_element(0xFEDC_BA98_7654_3210, &DataType::U64, &DisplayType::HexaDecimal),
        "FEDCBA9876543210₁₆"
    );
}

#[test]
fn format_signed_hexadecimal_shows_bit_pattern() {
    // hex rendering of signed types shows the two's-complement pattern
    assert_eq!(format_element(0xFF, &DataType::I8, &DisplayType::HexaDecimal), "FF₁₆");
    assert_eq!(format_element(0x8000, &DataType::I16, &DisplayType::HexaDecimal), "8000₁₆");
}

#[test]
fn format_unsigned_decimal() {
    assert_eq!(format_element(255, &DataType::U8, &DisplayType::Decimal), "255₁₀");
    assert_eq!(format_element(5, &DataType::U8, &DisplayType::Decimal), "  5₁₀");
    assert_eq!(format_element(0, &DataType::U16, &DisplayType::Decimal), "    0₁₀");
    assert_eq!(
        format_element(u64::MAX, &DataType::U64, &DisplayType::Decimal),
        "18446744073709551615₁₀"
    );
}

#[test]
fn format_signed_decimal() {
    assert_eq!(format_element(0xFF, &DataType::I8, &DisplayType::Decimal), "  -1₁₀");
    assert_eq!(format_element(5, &DataType::I8, &DisplayType::Decimal), "   5₁₀");
    assert_eq!(format_element(0x80, &DataType::I8, &DisplayType::Decimal), "-128₁₀");
    assert_eq!(format_element(0xFF38, &DataType::I16, &DisplayType::Decimal), "  -200₁₀");
    assert_eq!(
        format_element((-5i32 as u32) as u64, &DataType::I32, &DisplayType::Decimal),
        "         -5₁₀"
    );
    assert_eq!(
        format_element(i64::MIN as u64, &DataType::I64, &DisplayType::Decimal),
        "-9223372036854775808₁₀"
    );
}

#[test]
fn format_float_round_trip_known_values() {
    // the spec's round-trip cases for 32-bit floats in decimal base
    let bits = 1.5f32.to_bits() as u64;
    assert_eq!(format_element(bits, &DataType::F32, &DisplayType::Decimal), "1.50000×10⁰");
    let bits = 0.0f32.to_bits() as u64;
    assert_eq!(format_element(bits, &DataType::F32, &DisplayType::Decimal), "0.00000×10⁰");
    let bits = f32::NAN.to_bits() as u64;
    assert_eq!(format_element(bits, &DataType::F32, &DisplayType::Decimal), "NAN");
    let bits = f32::INFINITY.to_bits() as u64;
    assert_eq!(format_element(bits, &DataType::F32, &DisplayType::Decimal), "∞");
    let bits = f32::NEG_INFINITY.to_bits() as u64;
    assert_eq!(format_element(bits, &DataType::F32, &DisplayType::Decimal), "-∞");
}

#[test]
fn format_float_ignores_base() {
    let bits = 1.5f32.to_bits() as u64;
    assert_eq!(
        format_element(bits, &DataType::F32, &DisplayType::HexaDecimal),
        "1.50000×10⁰"
    );
}

#[test]
fn format_float_signs_and_zeroes() {
    let bits = (-0.0f32).to_bits() as u64;
    assert_eq!(format_scientific_unicode(bits, &DataType::F32), "-0.00000×10⁰");
    let bits = (-2.5f32).to_bits() as u64;
    assert_eq!(format_scientific_unicode(bits, &DataType::F32), "-2.50000×10⁰");
    let bits = (-0.0f64).to_bits();
    assert_eq!(format_scientific_unicode(bits, &DataType::F64), "-0.0000000000×10⁰");
}

#[test]
fn format_float_exponents() {
    let bits = 0.1f32.to_bits() as u64;
    assert_eq!(format_scientific_unicode(bits, &DataType::F32), "1.00000×10⁻¹");
    let bits = 1e10f32.to_bits() as u64;
    assert_eq!(format_scientific_unicode(bits, &DataType::F32), "1.00000×10¹⁰");
    let bits = 255.0f32.to_bits() as u64;
    assert_eq!(format_scientific_unicode(bits, &DataType::F32), "2.55000×10²");
}

#[test]
fn format_float_subnormals() {
    // the smallest positive 32-bit float, 2^-149
    let bits = f32::from_bits(1).to_bits() as u64;
    assert_eq!(format_scientific_unicode(bits, &DataType::F32), "1.40130×10⁻⁴⁵");
    // the smallest positive 64-bit float, 2^-1074
    let bits = f64::from_bits(1).to_bits();
    assert_eq!(format_scientific_unicode(bits, &DataType::F64), "4.9406564584×10⁻³²⁴");
}

#[test]
fn format_float_double_precision() {
    let bits = 1.5f64.to_bits();
    assert_eq!(format_scientific_unicode(bits, &DataType::F64), "1.5000000000×10⁰");
    let bits = 6.02214076e23f64.to_bits();
    assert_eq!(format_scientific_unicode(bits, &DataType::F64), "6.0221407600×10²³");
    let bits = 1e300f64.to_bits();
    assert_eq!(format_scientific_unicode(bits, &DataType::F64), "1.0000000000×10³⁰⁰");
}

#[test]
fn format_float_ties_round_to_even() {
    // 65/64 is exactly 1.0156250 in decimal: the cut is an exact half and
    // the kept part is even, so it stays
    let bits = 1.015625f32.to_bits() as u64;
    assert_eq!(format_scientific_unicode(bits, &DataType::F32), "1.01562×10⁰");
}

#[test]
fn superscript_exponents() {
    assert_eq!(to_superscript(0), "⁰");
    assert_eq!(to_superscript(7), "⁷");
    assert_eq!(to_superscript(345), "³⁴⁵");
    assert_eq!(to_superscript(-12), "⁻¹²");
}

fn unicode_sci(mantissa_and_exp: &str) -> String {
    let (mant, exp) = mantissa_and_exp.split_once('e').unwrap();
    let exp: i32 = exp.parse().unwrap();
    format!("{}×10{}", mant, to_superscript(exp))
}

#[test]
fn format_float_single_matches_std_scientific() {
    let mut bits: u32 = 0x0000_0001;
    for _ in 0..4000 {
        bits = bits.wrapping_mul(2_654_435_761).wrapping_add(0x9E37_79B9);
        let x = f32::from_bits(bits);
        if !x.is_finite() || x == 0.0 {
            continue;
        }
        let expected = unicode_sci(&format!("{:.5e}", x));
        assert_eq!(
            format_scientific_unicode(bits as u64, &DataType::F32),
            expected,
            "bits {bits:#010X}"
        );
    }
}

#[test]
fn format_float_double_matches_std_scientific() {
    let mut bits: u64 = 0x0000_0000_0000_0001;
    for _ in 0..1500 {
        bits = bits
            .wrapping_mul(6_364_136_223_846_793_005)
            .wrapping_add(1_442_695_040_888_963_407);
        let x = f64::from_bits(bits);
        if !x.is_finite() || x == 0.0 {
            continue;
        }
        let expected = unicode_sci(&format!("{:.10e}", x));
        assert_eq!(
            format_scientific_unicode(bits, &DataType::F64),
            expected,
            "bits {bits:#018X}"
        );
    }
}

#[test]
fn format_float_matches_std_on_edge_patterns() {
    for bits in [
        0x0000_0001u32, // least subnormal
        0x007F_FFFF,    // greatest subnormal
        0x0080_0000,    // least normal
        0x7F7F_FFFF,    // greatest finite
        0x3F80_0000,    // one
        0x3F80_0001,    // just above one
        0x4049_0FDB,    // a familiar ratio of circle to diameter
        0xC2C8_0000,    // minus one hundred
        0x7F00_0000,
        0x0012_3456,
    ] {
        let x = f32::from_bits(bits);
        let expected = unicode_sci(&format!("{:.5e}", x));
        assert_eq!(
            format_scientific_unicode(bits as u64, &DataType::F32),
            expected,
            "bits {bits:#010X}"
        );
    }
}

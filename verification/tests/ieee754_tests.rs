use ieee754_codec::helper::{ComputeMantissaBits, SplitFloat};
use ieee754_codec::ieee754::{DecodedValue, IEEE754_32bit, IEEE754_64bit, ValidationError};
use ieee754_codec::IEEE754;

fn bits_of_str(s: &str) -> Vec<u8> {
    s.chars()
        .filter(|&c| c != ' ')
        .map(|c| c.to_digit(10).unwrap() as u8)
        .collect::<Vec<u8>>()
}

fn decoded_to_f32(d: &DecodedValue) -> f32 {
    let mut frac: f32 = 0.0;
    for (index, value) in d.fraction.iter().enumerate() {
        frac += *value as f32 * 2f32.powi(-(index as i32 + 1));
    }
    d.sign as f32 * (d.integer as f32 + frac)
}

fn decoded_to_f64(d: &DecodedValue) -> f64 {
    let mut frac: f64 = 0.0;
    for (index, value) in d.fraction.iter().enumerate() {
        frac += *value as f64 * 2f64.powi(-(index as i32 + 1));
    }
    d.sign as f64 * (d.integer as f64 + frac)
}

fn hex_to_bytes(hex: &str) -> Vec<u32> {
    let mut out = Vec::new();
    let chars: Vec<char> = hex.chars().collect();
    for pair in chars.chunks(2) {
        let s: String = pair.iter().collect();
        out.push(u32::from_str_radix(&s, 16).unwrap());
    }
    out
}

#[test]
fn test_compute_mantissa_bits_computation() {
    assert_eq!(
        ComputeMantissaBits::compute(bits_of_str("10101010101010101010101 0 0"), 23).unwrap(),
        bits_of_str("10101010101010101010101")
    );
    assert_eq!(
        ComputeMantissaBits::compute(bits_of_str("10101010101010101010101 1 0"), 23).unwrap(),
        bits_of_str("10101010101010101010110")
    );

    assert!(ComputeMantissaBits::compute(bits_of_str("11111111111111111111111 1 0"), 23).is_err());

    assert_eq!(
        ComputeMantissaBits::compute(bits_of_str("00000000000000000000000 1 0"), 23).unwrap(),
        bits_of_str("00000000000000000000000"),
    );

    assert_eq!(
        ComputeMantissaBits::compute(bits_of_str("01111111111111111111111 1"), 23).unwrap(),
        bits_of_str("10000000000000000000000"),
    );

    assert!(ComputeMantissaBits::compute(bits_of_str("11111111111111111111111 1"), 23).is_err());
}

#[test]
fn test_compute_round_and_sticky_paths() {
    // guard and round both set: round up
    assert_eq!(
        ComputeMantissaBits::compute(bits_of_str("00000000000000000000010 1 1"), 23).unwrap(),
        bits_of_str("00000000000000000000011")
    );
    // guard set, round clear, a sticky bit set: round up
    assert_eq!(
        ComputeMantissaBits::compute(bits_of_str("00000000000000000000010 1 0 0 1"), 23).unwrap(),
        bits_of_str("00000000000000000000011")
    );
    // guard set, round clear, sticky clear, last retained bit clear: keep
    assert_eq!(
        ComputeMantissaBits::compute(bits_of_str("00000000000000000000010 1 0 0 0"), 23).unwrap(),
        bits_of_str("00000000000000000000010")
    );
    // guard clear: never round, whatever follows
    assert_eq!(
        ComputeMantissaBits::compute(bits_of_str("00000000000000000000011 0 1 1 1"), 23).unwrap(),
        bits_of_str("00000000000000000000011")
    );
}

#[test]
fn test_32bit() {
    // 0.0
    let values = vec![0x00, 0x00, 0x00, 0x00];
    let output = IEEE754::to_32bit_parts(values);
    assert_eq!(0.0, decoded_to_f32(&output.unwrap()));

    // -0.0
    let values = vec![0x80, 0x00, 0x00, 0x00];
    let output = IEEE754::to_32bit_parts(values);
    assert_eq!(-0.0, decoded_to_f32(&output.unwrap()));

    // -2.7182817
    let values = vec![0xc0, 0x2d, 0xf8, 0x54];
    let output = IEEE754::to_32bit_parts(values);
    assert_eq!(-2.7182817, decoded_to_f32(&output.unwrap()));

    // Infinity (Positive)
    let values = vec![0x7f, 0x80, 0x00, 0x00];
    let output = IEEE754::to_32bit_parts(values);
    assert!(output.is_err());

    // Infinity (Negative)
    let values = vec![0xff, 0x80, 0x00, 0x00];
    let output = IEEE754::to_32bit_parts(values);
    assert!(output.is_err());

    // NaN
    let values = vec![0x7f, 0xc0, 0x00, 0x00];
    let output = IEEE754::to_32bit_parts(values);
    assert!(output.is_err());
}

#[test]
fn test_64bit_to_hex() {
    let values: f64 = 10.001;
    let output = IEEE754::to_64bit_hex(&values.to_string());
    assert_eq!(output.unwrap(), "40240083126E978D");

    let values: f64 = -85.125;
    let output = IEEE754::to_64bit_hex(&values.to_string());
    assert_eq!(output.unwrap(), "C055480000000000");

    let values: f64 = 0.0;
    let output = IEEE754::to_64bit_hex(&values.to_string());
    assert_eq!(output.unwrap(), "0000000000000000");

    let values: f64 = -33.33333333;
    let output = IEEE754::to_64bit_hex(&values.to_string());
    assert_eq!(output.unwrap(), "C040AAAAAAA38226");

    let values: f64 = -333.33333333;
    let output = IEEE754::to_64bit_hex(&values.to_string());
    assert_eq!(output.unwrap(), "C074D55555547045");

    let values: f64 = 333.33333333;
    let output = IEEE754::to_64bit_hex(&values.to_string());
    assert_eq!(output.unwrap(), "4074D55555547045");
}

#[test]
fn test_32bit_to_hex() {
    let values: f32 = 10.001;
    let output = IEEE754::to_32bit_hex(&values.to_string());
    assert_eq!(output.unwrap(), "41200419");

    let values: f32 = -85.125;
    let output = IEEE754::to_32bit_hex(&values.to_string());
    assert_eq!(output.unwrap(), "C2AA4000");

    let values: f32 = 0.0;
    let output = IEEE754::to_32bit_hex(&values.to_string());
    assert_eq!(output.unwrap(), "00000000");

    let values: f32 = -33.33333333;
    let output = IEEE754::to_32bit_hex(&values.to_string());
    assert_eq!(output.unwrap(), "C2055555");

    let values: f32 = -333.33333333;
    let output = IEEE754::to_32bit_hex(&values.to_string());
    assert_eq!(output.unwrap(), "C3A6AAAB");

    let values: f32 = 333.33333333;
    let output = IEEE754::to_32bit_hex(&values.to_string());
    assert_eq!(output.unwrap(), "43A6AAAB");
}

#[test]
fn test_64bit() {
    // -74.74597276138431
    let values = vec![0xc0, 0x52, 0xaf, 0xbe, 0x4, 0x89, 0x76, 0x8e];
    let output = IEEE754::to_64bit_parts(values);
    assert_eq!(-74.74597276138431, decoded_to_f64(&output.unwrap()));

    // -3.125
    let values = vec![0xc0, 0x09, 0x0, 0x0, 0x0, 0x0, 0x0, 0x0];
    let output = IEEE754::to_64bit_parts(values);
    assert_eq!(-3.125, decoded_to_f64(&output.unwrap()));

    // Infinity
    let values = vec![0x7f, 0xf0, 0x0, 0x0, 0x0, 0x0, 0x0, 0x0];
    let output = IEEE754::to_64bit_parts(values);
    assert!(output.is_err());

    // -Infinity
    let values = vec![0xff, 0xf0, 0x0, 0x0, 0x0, 0x0, 0x0, 0x0];
    let output = IEEE754::to_64bit_parts(values);
    assert!(output.is_err());

    // Quiet NaN
    let values = vec![0x7f, 0xf8, 0x0, 0x0, 0x0, 0x0, 0x0, 0x0];
    let output = IEEE754::to_64bit_parts(values);
    assert!(output.is_err());

    // Signal NaN
    let values = vec![0x7f, 0xf4, 0x0, 0x0, 0x0, 0x0, 0x0, 0x0];
    let output = IEEE754::to_64bit_parts(values);
    assert!(output.is_err());

    // 0.0
    let values = vec![0x0, 0x0, 0x0, 0x0, 0x0, 0x0, 0x0, 0x0];
    let output = IEEE754::to_64bit_parts(values);
    assert_eq!(0.0, decoded_to_f64(&output.unwrap()));

    // 3.141592653589793
    let values = vec![0x40, 0x09, 0x21, 0xfb, 0x54, 0x44, 0x2d, 0x18];
    let output = IEEE754::to_64bit_parts(values);
    assert_eq!(std::f64::consts::PI, decoded_to_f64(&output.unwrap()));

    // 2.718281828459045
    let values = vec![0x40, 0x05, 0xbf, 0x0a, 0x8b, 0x14, 0x57, 0x69];
    let output = IEEE754::to_64bit_parts(values);
    assert_eq!(std::f64::consts::E, decoded_to_f64(&output.unwrap()));
}

#[test]
fn test_round_trip_32() {
    // exact values survive the encode / decode round trip bit for bit
    for v in [85.125f32, 2.5, 16384.0, -5.75, 3.0, 1.5, -1.25] {
        let hex = IEEE754::to_32bit_hex(&v.to_string()).unwrap();
        let decoded = IEEE754::to_32bit_parts(hex_to_bytes(&hex)).unwrap();
        assert_eq!(v, decoded_to_f32(&decoded));
    }
    // a rounded value still comes back as the float it started from
    for v in [10.001f32, 333.33334, -74.745975] {
        let hex = IEEE754::to_32bit_hex(&v.to_string()).unwrap();
        let decoded = IEEE754::to_32bit_parts(hex_to_bytes(&hex)).unwrap();
        assert_eq!(v, decoded_to_f32(&decoded));
    }
}

#[test]
fn test_round_trip_64() {
    for v in [85.125f64, 2.5, 1048576.0, -5.75, 3.0, 1.5, -1.25] {
        let hex = IEEE754::to_64bit_hex(&v.to_string()).unwrap();
        let decoded = IEEE754::to_64bit_parts(hex_to_bytes(&hex)).unwrap();
        assert_eq!(v, decoded_to_f64(&decoded));
    }
    for v in [10.001f64, -33.33333333, 74.74597276138431] {
        let hex = IEEE754::to_64bit_hex(&v.to_string()).unwrap();
        let decoded = IEEE754::to_64bit_parts(hex_to_bytes(&hex)).unwrap();
        assert_eq!(v, decoded_to_f64(&decoded));
    }
}

#[test]
fn test_to_hex_and_back() {
    // one digit for each four-bit group, most-significant group first
    let bits = vec![1, 1, 0, 0, 0, 0, 1, 0, 1, 0, 1, 0];
    let hex = IEEE754::to_hex(bits.clone()).unwrap();
    assert_eq!(hex, "C2A");

    // expanding the digits back gives the original bits
    let mut back: Vec<u8> = Vec::new();
    for c in hex.chars() {
        let v = c.to_digit(16).unwrap() as u8;
        for shift in [3, 2, 1, 0] {
            back.push((v >> shift) & 1);
        }
    }
    assert_eq!(bits, back);

    // distinct groups give distinct digits
    let a = IEEE754::to_hex(vec![0, 1, 1, 1]).unwrap();
    let b = IEEE754::to_hex(vec![1, 1, 1, 0]).unwrap();
    assert_ne!(a, b);

    // a length that is not a multiple of four is refused
    assert!(IEEE754::to_hex(vec![1, 0, 1]).is_err());
    // so is anything besides single bits
    assert!(IEEE754::to_hex(vec![2, 0, 0, 0]).is_err());
    // and the empty sequence renders as empty text
    assert_eq!(IEEE754::to_hex(Vec::new()).unwrap(), "");
}

#[test]
fn test_to_binary() {
    let bits = IEEE754::to_binary(vec![0xc0, 0x2d]).unwrap();
    assert_eq!(bits, bits_of_str("11000000 00101101"));

    // an empty run of bytes is refused
    assert!(matches!(
        IEEE754::to_binary(Vec::new()),
        Err(ValidationError::EmptyValues)
    ));
}

#[test]
fn test_split_float() {
    assert_eq!(
        SplitFloat::split_32("10.001").unwrap(),
        (0, 10, vec![0, 0, 1])
    );
    assert_eq!(SplitFloat::split_32("-85.125").unwrap(), (1, 85, vec![1, 2, 5]));
    assert_eq!(SplitFloat::split_32("0").unwrap(), (0, 0, vec![]));
    assert_eq!(SplitFloat::split_32("-0").unwrap(), (1, 0, vec![]));
    assert_eq!(SplitFloat::split_64("18446744073709551615").unwrap().1, u64::MAX);

    // malformed text is refused
    assert!(SplitFloat::split_32("").is_err());
    assert!(SplitFloat::split_32("abc").is_err());
    assert!(SplitFloat::split_32(".5").is_err());
    assert!(SplitFloat::split_32("1.2.3").is_err());
    assert!(SplitFloat::split_32("-").is_err());

    // an integer part beyond the format's magnitude type is refused
    assert!(SplitFloat::split_32("4294967296").is_err());
    assert!(SplitFloat::split_64("18446744073709551616").is_err());
}

#[test]
fn test_validate_and_exponent() {
    // a seven-bit exponent field has the wrong length
    assert!(matches!(
        IEEE754_32bit::validate(&[0; 7], &[0; 23]),
        Err(ValidationError::InvalidBitLength)
    ));
    // an all-ones exponent field is infinity or not-a-number
    assert!(matches!(
        IEEE754_32bit::validate(&[1; 8], &[0; 23]),
        Err(ValidationError::ExponentAll1s)
    ));
    assert!(IEEE754_32bit::validate(&[0; 8], &[0; 23]).is_ok());
    assert!(matches!(
        IEEE754_64bit::validate(&[1; 11], &[0; 52]),
        Err(ValidationError::ExponentAll1s)
    ));

    // the exponent field's value, bias lifted off
    assert_eq!(IEEE754_32bit::get_exponent(&[1, 0, 0, 0, 0, 1, 0, 0]).unwrap(), 5);
    assert_eq!(IEEE754_32bit::get_exponent(&[0; 8]).unwrap(), 0);
    assert_eq!(
        IEEE754_64bit::get_exponent(&[1, 0, 0, 0, 0, 0, 0, 0, 0, 1, 0]).unwrap(),
        3
    );
    // anything besides single bits is refused
    assert!(matches!(
        IEEE754_32bit::get_exponent(&[2; 8]),
        Err(ValidationError::ParseError)
    ));
    assert!(matches!(
        IEEE754_32bit::get_exponent(&[]),
        Err(ValidationError::ParseError)
    ));
}

#[test]
fn test_get_mantissa() {
    // an all-zero mantissa with exponent zero is exactly zero
    let (integer, fraction) = IEEE754_32bit::get_mantissa(&[0; 23], 0).unwrap();
    assert_eq!(integer, 0);
    assert!(fraction.is_empty());

    // 1.011 shifted by one: integer part 10b, fraction 11b
    let mut bits = vec![0u8; 23];
    bits[0] = 0;
    bits[1] = 1;
    bits[2] = 1;
    let (integer, fraction) = IEEE754_32bit::get_mantissa(&bits, 1).unwrap();
    assert_eq!(integer, 2);
    assert_eq!(fraction[0], 1);
    assert_eq!(fraction[1], 1);
    assert_eq!(fraction.len(), 22);

    // a negative exponent cannot slice the field
    assert!(matches!(
        IEEE754_32bit::get_mantissa(&[0; 23], -1),
        Err(ValidationError::EmptyMantissa)
    ));
    // neither can one beyond the field's length
    assert!(matches!(
        IEEE754_64bit::get_mantissa(&[1; 52], 53),
        Err(ValidationError::EmptyMantissa)
    ));
    // the 64-bit integer part reaches the full mantissa width
    let (integer, fraction) = IEEE754_64bit::get_mantissa(&[1; 52], 52).unwrap();
    assert_eq!(integer, (1i64 << 53) - 1);
    assert!(fraction.is_empty());
    // an integer part beyond the decoder's range is refused
    assert!(matches!(
        IEEE754_64bit::get_mantissa(&[1; 64], 63),
        Err(ValidationError::InvalidMSBMantissa)
    ));
}

#[test]
fn test_decode_errors() {
    // too few bytes to slice an exponent field
    assert!(matches!(
        IEEE754::to_32bit_parts(vec![0x00]),
        Err(ValidationError::InvalidExponent)
    ));
    // a value above one byte expands long enough to hit the all-zero
    // mantissa check
    assert!(matches!(
        IEEE754::to_32bit_parts(vec![256, 0]),
        Err(ValidationError::MantissaAll0s)
    ));
    // a magnitude below one leaves a negative exponent behind
    assert!(matches!(
        IEEE754::to_32bit_parts(vec![0x3f, 0x00, 0x00, 0x00]),
        Err(ValidationError::EmptyMantissa)
    ));
}

#[test]
fn test_64bit_large_magnitudes() {
    // two to the thirty-second and two to the fortieth decode in full
    let output = IEEE754::to_64bit_parts(vec![0x41, 0xf0, 0, 0, 0, 0, 0, 0]);
    assert_eq!(4294967296.0, decoded_to_f64(&output.unwrap()));

    let v: f64 = 1099511627776.0;
    let hex = IEEE754::to_64bit_hex(&v.to_string()).unwrap();
    assert_eq!(hex, "4270000000000000");
    let decoded = IEEE754::to_64bit_parts(hex_to_bytes(&hex)).unwrap();
    assert_eq!(v, decoded_to_f64(&decoded));
}

#[test]
fn test_unit_magnitudes() {
    // the exponent field keeps its fixed width for magnitudes in [1, 2)
    assert_eq!(IEEE754::to_32bit_hex("1").unwrap(), "3F800000");
    assert_eq!(IEEE754::to_32bit_hex("1.5").unwrap(), "3FC00000");
    assert_eq!(IEEE754::to_64bit_hex("1").unwrap(), "3FF0000000000000");
    assert_eq!(IEEE754::to_64bit_hex("1.5").unwrap(), "3FF8000000000000");

    // 1.5 survives the round trip
    let decoded = IEEE754::to_32bit_parts(hex_to_bytes("3FC00000")).unwrap();
    assert_eq!(1.5f32, decoded_to_f32(&decoded));
    let decoded = IEEE754::to_64bit_parts(hex_to_bytes("3FF8000000000000")).unwrap();
    assert_eq!(1.5f64, decoded_to_f64(&decoded));

    // the codec's one blind spot: the pattern of exactly 1.0 falls into
    // the all-zero-mantissa, zero-exponent case and decodes as zero
    let decoded = IEEE754::to_32bit_parts(hex_to_bytes("3F800000")).unwrap();
    assert_eq!(0.0, decoded_to_f32(&decoded));
}

#[test]
fn test_encode_errors() {
    // text that is not a decimal number
    assert!(IEEE754_32bit::get_binary("abc").is_err());
    assert!(IEEE754_64bit::get_binary("").is_err());
    // an integer part beyond the format's magnitude type
    assert_eq!(
        IEEE754_32bit::get_binary("4294967296").unwrap_err(),
        "integer part out of range"
    );
    // a mantissa of all ones that must round up overflows
    assert_eq!(
        IEEE754_32bit::get_binary("16777215.5").unwrap_err(),
        "unable to round up, overflow"
    );
}

#[test]
fn test_round_up() {
    let mut bits = vec![1, 0, 1, 1];
    assert_eq!(ComputeMantissaBits::round_up(&mut bits).unwrap(), vec![1, 1, 0, 0]);

    let mut bits = vec![1, 1, 1];
    assert_eq!(
        ComputeMantissaBits::round_up(&mut bits).unwrap_err(),
        "unable to round up, overflow"
    );
    assert_eq!(bits, vec![0, 0, 0]);

    let mut bits: Vec<u8> = Vec::new();
    assert_eq!(
        ComputeMantissaBits::round_up(&mut bits).unwrap_err(),
        "unable to round up, no bit to compare"
    );
}

#[test]
fn test_ieee754_struct() {
    let holder = ieee754_codec::ieee754::IEEE754::new(vec![0xc0, 0x09, 0, 0, 0, 0, 0, 0]);
    assert_eq!(holder.to_binary().unwrap().len(), 64);
    assert_eq!(-3.125, decoded_to_f64(&holder.to_64bit_parts().unwrap()));

    let holder = ieee754_codec::ieee754::IEEE754::new(vec![0xc0, 0x2d, 0xf8, 0x54]);
    assert_eq!(-2.7182817, decoded_to_f32(&holder.to_32bit_parts().unwrap()));
}

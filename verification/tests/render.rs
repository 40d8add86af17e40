use decimal_render::conversions::ceil_d128_to_string;
use decimal_render::conversions::d128_to_i128;
use decimal_render::conversions::d128_to_parts;
use decimal_render::conversions::d128_to_u32;
use decimal_render::conversions::floor_d128_to_string;
use decimal_render::conversions::i128_to_d128;
use decimal_render::conversions::i32_to_d128;
use decimal_render::conversions::NumberTemplate;
use decimal_render::dec128::parse_dec128;
use decimal_render::dec128::Dec128;
use decimal_render::fractions::float_to_fraction;
use decimal_render::fractions::float_to_fraction_string;
use decimal_render::fractions::is_divisable;
use decimal_render::fractions::RationalNumber128;
use decimal_render::radix::clean_radix_pv_string;
use decimal_render::radix::d128_to_radix_string;
use decimal_render::radix::float_to_radix_string;
use decimal_render::radix::integer_to_radix_char;
use decimal_render::radix::integer_to_radix_string;
use decimal_render::radix::bigint_to_radix_string;
use decimal_render::bignum::build_bigint_128;
use decimal_render::bignum::build_bigint;
use decimal_render::NumOutput;
use decimal_render::conversions::big_int_to_d128;
use decimal_render::conversions::d128_to_big_int;
use decimal_render::conversions::d128_to_big_number;
use decimal_render::conversions::ceil_d128;
use decimal_render::conversions::floor_d128;

fn dec(s: &str) -> Dec128 {
    parse_dec128(s).unwrap()
}

#[test]
fn test_1() {
    assert_eq!(dec("2.5").to_string(), "2.5".to_string());
}

#[test]
fn test_2() {
    assert_eq!(floor_d128_to_string(&dec("2.5")), "2".to_string());
}

#[test]
fn test_3() {
    assert_eq!(ceil_d128_to_string(&dec("2.5")), "3".to_string());
}

#[test]
fn test_4() {
    let (is_neg, first, second) = d128_to_parts(&dec("-2.333333333333333333"));
    assert_eq!(
        (is_neg, first, second),
        (true, "2".to_string(), "333333333333333333".to_string())
    );
}

#[test]
fn test_5() {
    let (is_neg, first, second) = d128_to_parts(&dec("3462.717171717171717171717171"));
    assert_eq!(
        (is_neg, first, second),
        (
            false,
            "3462".to_string(),
            "717171717171717171717171".to_string()
        )
    );
}

#[test]
fn test_6() {
    let (is_neg, first, second) = d128_to_parts(&dec("16777216"));
    assert_eq!(
        (is_neg, first, second),
        (false, "16777216".to_string(), "".to_string())
    );
}

#[test]
fn test_7() {
    let num_str = "20228262626.2028373636";
    assert_eq!(dec(num_str).to_string(), num_str.to_string());
}

#[test]
fn floor_and_ceiling_of_negative_values() {
    assert_eq!(floor_d128_to_string(&dec("-2.5")), "-3".to_string());
    assert_eq!(ceil_d128_to_string(&dec("-2.5")), "-2".to_string());
    assert_eq!(floor_d128_to_string(&dec("-7")), "-7".to_string());
    assert_eq!(ceil_d128_to_string(&dec("-7")), "-7".to_string());
}

#[test]
fn parts_keep_fractional_scale() {
    let (is_neg, first, second) = d128_to_parts(&dec("1524.0"));
    assert_eq!((is_neg, first, second), (false, "1524".to_string(), "0".to_string()));
}

#[test]
fn template_renders_plain_decimal() {
    assert_eq!(NumberTemplate::new(&dec("1709.344")).to_string(), "1709.344".to_string());
    assert_eq!(NumberTemplate::new(&dec("1524.0")).to_string(), "1524".to_string());
    assert_eq!(NumberTemplate::new(&dec("0.05")).to_string(), "0.05".to_string());
    assert_eq!(NumberTemplate::new(&dec("-2.5")).to_string(), "-2.5".to_string());
}

#[test]
fn parse_rejects_malformed_literals() {
    assert!(parse_dec128("").is_none());
    assert!(parse_dec128("2.").is_none());
    assert!(parse_dec128(".5").is_none());
    assert!(parse_dec128("--2").is_none());
    assert!(parse_dec128("-0").is_none());
    assert!(parse_dec128("-0.00").is_none());
    assert!(parse_dec128("00.5").is_none());
    assert!(parse_dec128("abc").is_none());
    assert!(parse_dec128("1.2.3").is_none());
}

#[test]
fn integer_conversions_saturate_to_zero() {
    assert_eq!(d128_to_i128(&dec("-2.5")), -2);
    assert_eq!(d128_to_i128(&dec("2.9")), 2);
    assert_eq!(d128_to_u32(&dec("-2.5")), 0);
    assert_eq!(d128_to_u32(&dec("4294967295")), 4294967295);
    assert_eq!(d128_to_u32(&dec("4294967296")), 0);
    let huge = "9999999999999999999999999999999999999999";
    assert_eq!(d128_to_i128(&dec(huge)), 0);
    assert_eq!(i128_to_d128(-25).to_string(), "-25".to_string());
    assert_eq!(i32_to_d128(12).to_string(), "12".to_string());
}

#[test]
fn fraction_one_seventh() {
    let rn = float_to_fraction(&dec("0.142857142857142857"), 7);
    assert_eq!(rn.integer, 0);
    assert_eq!(rn.numer, 1);
    assert_eq!(rn.denom, 7);
    assert_eq!(
        float_to_fraction_string(&dec("0.142857142857142857"), 10, 7),
        "1/7".to_string()
    );
}

#[test]
fn fraction_first_fit_denominator() {
    let rn = float_to_fraction(&dec("2.5"), 10);
    assert_eq!(rn.integer, 2);
    assert_eq!(rn.numer, 1);
    assert_eq!(rn.denom, 2);
    assert_eq!(float_to_fraction_string(&dec("2.5"), 10, 10), "2 1/2".to_string());
}

#[test]
fn fraction_negative_numerator_is_not_rendered() {
    let rn = float_to_fraction(&dec("-2.5"), 10);
    assert_eq!(rn.integer, 2);
    assert_eq!(rn.numer, -1);
    assert_eq!(rn.denom, 2);
    assert_eq!(float_to_fraction_string(&dec("-2.5"), 10, 10), "2".to_string());
}

#[test]
fn fraction_none_found_within_precision() {
    let rn = float_to_fraction(&dec("0.417"), 0);
    assert_eq!(rn.numer, 0);
    assert_eq!(rn.denom, 1);
    assert_eq!(float_to_fraction_string(&dec("0.417"), 10, 0), "".to_string());
}

#[test]
fn rational_reduction_removes_common_factors() {
    let rn = RationalNumber128::new(3, 6, 4);
    assert_eq!(rn.numer, 3);
    assert_eq!(rn.denom, 2);
    assert_eq!(rn.to_string(), "3 3/2".to_string());
    let neg = RationalNumber128::new(0, -6, 4);
    assert_eq!(neg.numer, -3);
    assert_eq!(neg.denom, 2);
}

#[test]
fn rational_radix_rendering() {
    let rn = RationalNumber128::new(255, 15, 16);
    assert_eq!(rn.to_string_radix(16), "ff f/10".to_string());
}

#[test]
fn is_divisable_tolerance_cases() {
    assert_eq!(is_divisable(5, 100, 3, 10), Some((3, 5)));
    assert_eq!(is_divisable(95, 100, 3, 10), Some((3, 5)));
    assert_eq!(is_divisable(50, 100, 3, 10), None);
}

#[test]
fn radix_rendering_hexadecimal() {
    assert_eq!(d128_to_radix_string(&dec("255"), 16), "ff".to_string());
    assert_eq!(d128_to_radix_string(&dec("0.5"), 2), "0.1".to_string());
    assert_eq!(d128_to_radix_string(&dec("-255"), 16), "-ff".to_string());
}

#[test]
fn radix_digit_tokens() {
    assert_eq!(integer_to_radix_char(7, 16), "7".to_string());
    assert_eq!(integer_to_radix_char(15, 16), "f".to_string());
    assert_eq!(integer_to_radix_char(35, 36), "z".to_string());
    assert_eq!(integer_to_radix_char(38, 40), "38".to_string());
    assert_eq!(integer_to_radix_char(5, 40), "05".to_string());
    assert_eq!(integer_to_radix_char(123, 200), "123".to_string());
    assert_eq!(integer_to_radix_char(5, 200), "005".to_string());
}

#[test]
fn radix_integer_strings() {
    assert_eq!(integer_to_radix_string(255, 16, false), "ff".to_string());
    assert_eq!(integer_to_radix_string(255, 16, true), "-ff".to_string());
    assert_eq!(integer_to_radix_string(0, 16, false), "0".to_string());
    assert_eq!(integer_to_radix_string(77, 40, false), "01:37".to_string());
}

#[test]
fn radix_full_value_rendering() {
    let expected = format!("25{}", "0".repeat(33));
    assert_eq!(float_to_radix_string(&dec("2.5"), 10, false), expected);
}

#[test]
fn radix_ten_matches_template_rendering() {
    for s in ["2.5", "1709.344", "0.05", "16777216", "-2.333333333333333333"] {
        let v = dec(s);
        assert_eq!(d128_to_radix_string(&v, 10), NumberTemplate::new(&v).to_string());
    }
}

#[test]
fn clean_radix_pv_string_strips_trailing_zero_tokens() {
    assert_eq!(
        clean_radix_pv_string(":00:05:00:00".to_string()),
        ":00:05".to_string()
    );
    assert_eq!(clean_radix_pv_string("00:00".to_string()), "".to_string());
    assert_eq!(clean_radix_pv_string("01:00".to_string()), "01".to_string());
    assert_eq!(clean_radix_pv_string("00".to_string()), "".to_string());
}

#[test]
fn bigint_boundary_round_trip() {
    let b = build_bigint_128(255);
    assert_eq!(bigint_to_radix_string(&b, 16, false), "ff".to_string());
    let s = build_bigint(4096);
    assert_eq!(bigint_to_radix_string(&s, 16, false), "1000".to_string());
}

#[test]
fn num_output_rendering() {
    let out = NumOutput::new("1.5".to_string(), "km".to_string(), 16);
    assert_eq!(out.to_string(), "1.5; km; 16".to_string());
}

#[test]
fn bigint_conversions_round_trip() {
    let b = d128_to_big_int(&dec("-2.5"));
    assert_eq!(big_int_to_d128(&b).to_string(), "-2".to_string());
    let n = d128_to_big_number(&dec("0.05"), 4);
    assert_eq!(bigint_to_radix_string(&n, 10, false), "500".to_string());
}

#[test]
fn floor_and_ceiling_remainders() {
    let (whole, rem) = floor_d128(&dec("-2.5"));
    assert_eq!(whole.to_string(), "-3".to_string());
    assert_eq!(rem.to_string(), "0.5".to_string());
    let (cw, cr) = ceil_d128(&dec("2.5"));
    assert_eq!(cw.to_string(), "3".to_string());
    assert_eq!(cr.to_string(), "-0.5".to_string());
}

#[test]
fn decompose_exact_zero() {
    let (is_neg, first, second) = d128_to_parts(&dec("0"));
    assert_eq!((is_neg, first, second), (false, "0".to_string(), "".to_string()));
}

#[test]
fn radix_fractions_across_alphabets() {
    assert_eq!(d128_to_radix_string(&dec("2.5"), 36), "2.i".to_string());
    assert_eq!(d128_to_radix_string(&dec("2.5"), 40), "02.20".to_string());
    assert_eq!(d128_to_radix_string(&dec("-2.5"), 16), "-2.8".to_string());
}

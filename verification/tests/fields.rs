use aamva_parser_rs::decimal::read_unsigned;
use aamva_parser_rs::digits::{count_zeros, divide_digits, increment_digits, read_capped};
use aamva_parser_rs::numeral::read_numeral;
use aamva_parser_rs::text::{chars_of, string_of, trim_bounds, whitespace};
use aamva_parser_rs::{Gender, ParsedData};

#[test]
fn dates_of_eight_digits() {
    assert_eq!(ParsedData::standardize_date("01151990"), "1990-01-15");
    assert_eq!(ParsedData::standardize_date("12312099"), "2099-12-31");
    assert_eq!(ParsedData::standardize_date("00000000"), "0000-00-00");
    assert_eq!(ParsedData::standardize_date("99999999"), "9999-99-99");
    assert_eq!(ParsedData::standardize_date("02290001"), "0001-02-29");
}

#[test]
fn dates_of_another_length_are_invalid() {
    assert_eq!(ParsedData::standardize_date(""), "Invalid Date");
    assert_eq!(ParsedData::standardize_date("0115199"), "Invalid Date");
    assert_eq!(ParsedData::standardize_date("011519900"), "Invalid Date");
    assert_eq!(ParsedData::standardize_date("1990-01-15"), "Invalid Date");
    assert_eq!(ParsedData::standardize_date("\u{e9}1151990"), "Invalid Date");
    assert_eq!(ParsedData::standardize_date("\u{e9}115199"), "Invalid Date");
}

#[test]
fn dates_with_other_characters_are_invalid() {
    assert_eq!(ParsedData::standardize_date("abcdefgh"), "Invalid Date");
    assert_eq!(ParsedData::standardize_date("0a151990"), "Invalid Date");
    assert_eq!(ParsedData::standardize_date("011x1990"), "Invalid Date");
    assert_eq!(ParsedData::standardize_date("0115199o"), "Invalid Date");
    assert_eq!(ParsedData::standardize_date("01 51990"), "Invalid Date");
    assert_eq!(ParsedData::standardize_date("-1151990"), "Invalid Date");
    assert_eq!(ParsedData::standardize_date("0115-990"), "Invalid Date");
    assert_eq!(ParsedData::standardize_date("++151990"), "Invalid Date");
}

#[test]
fn plus_sign_may_stand_for_a_digit() {
    assert_eq!(ParsedData::standardize_date("+1+2+345"), "0345-01-02");
    assert_eq!(ParsedData::standardize_date("01+51990"), "1990-01-05");
}

#[test]
fn dates_agree_with_the_integer_parser() {
    let samples = ["01151990", "+1151990", "0+151990", "011+1990", "01 51990", "1.151990",
        "0115+1_0", "٠١١٥١٩٩٠", "0115199٠"];
    for s in samples {
        let chars: Vec<char> = s.chars().collect();
        let part = |a: usize, b: usize| chars[a..b].iter().collect::<String>().parse::<u32>();
        let expected = match (part(0, 2), part(2, 4), part(4, 8)) {
            (Ok(m), Ok(d), Ok(y)) => format!("{:04}-{:02}-{:02}", y, m, d),
            _ => "Invalid Date".to_string(),
        };
        assert_eq!(ParsedData::standardize_date(s), expected, "{}", s);
    }
}

#[test]
fn genders() {
    assert_eq!(Gender::decode("1"), Gender::MALE);
    assert_eq!(Gender::decode("2"), Gender::FEMALE);
    assert_eq!(Gender::decode("9"), Gender::UNSPECIFIED);
    assert_eq!(Gender::decode("0"), Gender::UNSPECIFIED);
    assert_eq!(Gender::decode("3"), Gender::UNSPECIFIED);
    assert_eq!(Gender::decode(""), Gender::UNSPECIFIED);
    assert_eq!(Gender::decode("M"), Gender::UNSPECIFIED);
    assert_eq!(Gender::decode("-1"), Gender::UNSPECIFIED);
    assert_eq!(Gender::decode("1 "), Gender::UNSPECIFIED);
    assert_eq!(Gender::decode("+1"), Gender::MALE);
    assert_eq!(Gender::decode("+"), Gender::UNSPECIFIED);
    assert_eq!(Gender::decode("0002"), Gender::FEMALE);
    assert_eq!(Gender::decode("00000000000000000000000000000001"), Gender::MALE);
    assert_eq!(Gender::decode("255"), Gender::UNSPECIFIED);
    assert_eq!(Gender::decode("256"), Gender::UNSPECIFIED);
    assert_eq!(Gender::decode("257"), Gender::UNSPECIFIED);
    assert_eq!(Gender::decode("4294967297"), Gender::UNSPECIFIED);
    assert_eq!(Gender::decode("18446744073709551617"), Gender::UNSPECIFIED);
}

#[test]
fn gender_codes() {
    assert_eq!(Gender::MALE.code(), 1);
    assert_eq!(Gender::FEMALE.code(), 2);
    assert_eq!(Gender::UNSPECIFIED.code(), 9);
}

#[test]
fn genders_agree_with_the_integer_parser() {
    for n in 0..600u32 {
        for text in [n.to_string(), format!("+{}", n), format!("0{}", n), format!("{} ", n)] {
            let expected = match text.parse::<u8>().unwrap_or(9) {
                1 => Gender::MALE,
                2 => Gender::FEMALE,
                _ => Gender::UNSPECIFIED,
            };
            assert_eq!(Gender::decode(&text), expected, "{}", text);
        }
    }
}

#[test]
fn heights_in_inches() {
    assert_eq!(ParsedData::convert_height("071IN"), "71.00");
    assert_eq!(ParsedData::convert_height("71 IN"), "71.00");
    assert_eq!(ParsedData::convert_height(" 5.5 IN "), "5.50");
    assert_eq!(ParsedData::convert_height("0IN"), "0.00");
    assert_eq!(ParsedData::convert_height(".5IN"), "0.50");
    assert_eq!(ParsedData::convert_height("5.IN"), "5.00");
    assert_eq!(ParsedData::convert_height("+70.25IN"), "70.25");
    assert_eq!(ParsedData::convert_height("-70.25IN"), "-70.25");
    assert_eq!(ParsedData::convert_height("-0IN"), "-0.00");
    assert_eq!(ParsedData::convert_height("000.000IN"), "0.00");
    assert_eq!(ParsedData::convert_height("70.124IN"), "70.12");
    assert_eq!(ParsedData::convert_height("70.126IN"), "70.13");
    assert_eq!(ParsedData::convert_height("9.999IN"), "10.00");
    assert_eq!(ParsedData::convert_height("99.995001IN"), "100.00");
    assert_eq!(ParsedData::convert_height("0.0049999999999999999999IN"), "0.00");
    assert_eq!(
        ParsedData::convert_height("123456789012345678901234567890IN"),
        "123456789012345678901234567890.00"
    );
}

#[test]
fn halves_go_to_the_even_side() {
    assert_eq!(ParsedData::convert_height("70.125IN"), "70.12");
    assert_eq!(ParsedData::convert_height("70.375IN"), "70.38");
    assert_eq!(ParsedData::convert_height("70.1250IN"), "70.12");
    assert_eq!(ParsedData::convert_height("70.12500000001IN"), "70.13");
    assert_eq!(ParsedData::convert_height("0.005IN"), "0.00");
    assert_eq!(ParsedData::convert_height("0.015IN"), "0.02");
    assert_eq!(ParsedData::convert_height("0.995IN"), "1.00");
    assert_eq!(ParsedData::convert_height("0.0127CM"), "0.00");
    assert_eq!(ParsedData::convert_height("0.0381CM"), "0.02");
    assert_eq!(ParsedData::convert_height("0.01270000000000000000001CM"), "0.01");
}

#[test]
fn heights_in_centimetres() {
    assert_eq!(ParsedData::convert_height("180CM"), "70.87");
    assert_eq!(ParsedData::convert_height("180 CM"), "70.87");
    assert_eq!(ParsedData::convert_height("2.54CM"), "1.00");
    assert_eq!(ParsedData::convert_height("254CM"), "100.00");
    assert_eq!(ParsedData::convert_height("0CM"), "0.00");
    assert_eq!(ParsedData::convert_height("1CM"), "0.39");
    assert_eq!(ParsedData::convert_height("152.4CM"), "60.00");
    assert_eq!(ParsedData::convert_height("-180CM"), "-70.87");
    assert_eq!(ParsedData::convert_height("25399.999999CM"), "10000.00");
}

#[test]
fn heights_that_cannot_be_read() {
    for s in ["", "IN", "CM", " IN", "5FEET", "5", "5in", "5cm", "5 I N", "5INCH", "5.5.5IN",
        ".IN", "+IN", "-CM", "+-5IN", "5-IN", "five IN", "5'11\"", "1,5CM", "5 5IN", "0x10IN",
        "1_0IN", "٥IN", "5IN.", "INCM5"]
    {
        assert_eq!(ParsedData::convert_height(s), "Invalid Height", "{:?}", s);
    }
}

#[test]
fn heights_agree_with_floating_point() {
    for n in 0..3000u32 {
        let whole = n.to_string();
        let tenths = format!("{}.{}", n / 10, n % 10);
        for text in [whole, tenths] {
            let value: f64 = text.parse().unwrap();
            assert_eq!(
                ParsedData::convert_height(&format!("{}CM", text)),
                format!("{:.2}", value / 2.54),
                "{} CM",
                text
            );
            assert_eq!(
                ParsedData::convert_height(&format!("{} IN", text)),
                format!("{:.2}", value),
                "{} IN",
                text
            );
        }
    }
}

#[test]
fn whitespace_is_what_the_standard_library_says() {
    for code in 0..=0x10ffffu32 {
        if let Some(c) = char::from_u32(code) {
            assert_eq!(whitespace(c), c.is_whitespace(), "{:x}", code);
        }
    }
}

#[test]
fn trimming_is_what_the_standard_library_does() {
    for s in ["", " ", "a", " a", "a ", "  a b  ", "\t\r\n x \u{a0}\u{3000}", "\u{2003}",
        "x\u{200b}", "\u{feff}x"]
    {
        let v = chars_of(s);
        let (from, to) = trim_bounds(&v, 0, v.len());
        assert_eq!(string_of(&v, from, to), s.trim(), "{:?}", s);
    }
}

#[test]
fn characters_and_strings_convert_both_ways() {
    let v = chars_of("a\u{e9}\u{20ac}\u{1f600}z");
    assert_eq!(v, vec!['a', '\u{e9}', '\u{20ac}', '\u{1f600}', 'z']);
    assert_eq!(string_of(&v, 0, v.len()), "a\u{e9}\u{20ac}\u{1f600}z");
    assert_eq!(string_of(&v, 1, 3), "\u{e9}\u{20ac}");
    assert_eq!(string_of(&v, 2, 2), "");
}

#[test]
fn unsigned_numerals() {
    let read = |s: &str, limit: u32| {
        let v = chars_of(s);
        read_unsigned(&v, 0, v.len(), limit)
    };
    assert_eq!(read("0", 255), Some(0));
    assert_eq!(read("255", 255), Some(255));
    assert_eq!(read("256", 255), None);
    assert_eq!(read("+7", 255), Some(7));
    assert_eq!(read("007", 255), Some(7));
    assert_eq!(read("", 255), None);
    assert_eq!(read("+", 255), None);
    assert_eq!(read("-7", 255), None);
    assert_eq!(read("7+", 255), None);
    assert_eq!(read("4294967295", u32::MAX), Some(u32::MAX));
    assert_eq!(read("4294967296", u32::MAX), None);
    assert_eq!(read("99999999999999999999999", u32::MAX), None);
}

#[test]
fn long_division_of_digits() {
    let digits = chars_of("0012345");
    let (quotient, remainder) = divide_digits(&digits, 254);
    assert_eq!(string_of(&quotient, 0, quotient.len()), "0000048");
    assert_eq!(remainder, 153);
    let digits = chars_of("100");
    let (quotient, remainder) = divide_digits(&digits, 100);
    assert_eq!(string_of(&quotient, 0, quotient.len()), "001");
    assert_eq!(remainder, 0);
}

#[test]
fn adding_one_to_digits() {
    for (before, after) in [("0", "1"), ("8", "9"), ("9", "10"), ("199", "200"), ("0999", "1000"),
        ("999", "1000"), ("", "1"), ("1234", "1235")]
    {
        let mut digits = chars_of(before);
        increment_digits(&mut digits);
        assert_eq!(string_of(&digits, 0, digits.len()), after);
    }
}

#[test]
fn signed_heights_agree_with_floating_point() {
    for text in ["-0", "-0.0", "+0", "-1", "-70.5", "+70.5", "-0.001", "-180", "-.5", "-5.",
        "+.25", "-99.99", "-254"]
    {
        let value: f64 = text.parse().unwrap();
        assert_eq!(
            ParsedData::convert_height(&format!("{}IN", text)),
            format!("{:.2}", value),
            "{} IN",
            text
        );
        assert_eq!(
            ParsedData::convert_height(&format!("{} CM", text)),
            format!("{:.2}", value / 2.54),
            "{} CM",
            text
        );
    }
}

#[test]
fn heights_with_exponents() {
    assert_eq!(ParsedData::convert_height("1e2IN"), "100.00");
    assert_eq!(ParsedData::convert_height("1E2 CM"), "39.37");
    assert_eq!(ParsedData::convert_height("1.8e2CM"), "70.87");
    assert_eq!(ParsedData::convert_height("7100e-2IN"), "71.00");
    assert_eq!(ParsedData::convert_height("7.1e+1IN"), "71.00");
    assert_eq!(ParsedData::convert_height(".71E2IN"), "71.00");
    assert_eq!(ParsedData::convert_height("71.e0IN"), "71.00");
    assert_eq!(ParsedData::convert_height("71e-0IN"), "71.00");
    assert_eq!(ParsedData::convert_height("-5e-3IN"), "-0.00");
    assert_eq!(ParsedData::convert_height("5e-3IN"), "0.00");
    assert_eq!(ParsedData::convert_height("15e-3IN"), "0.02");
    assert_eq!(ParsedData::convert_height("1e-400IN"), "0.00");
    assert_eq!(ParsedData::convert_height("1e-99999999999999999999999999999999999IN"), "0.00");
    assert_eq!(ParsedData::convert_height("0e99999999999999999999999999999999999IN"), "0.00");
    assert_eq!(ParsedData::convert_height("0.000e-5CM"), "0.00");
    assert_eq!(ParsedData::convert_height("1e0000000000000000000000000000000002IN"), "100.00");
    assert_eq!(ParsedData::convert_height("12345678e-6CM"), "4.86");
}

#[test]
fn heights_with_broken_exponents() {
    for s in ["1eIN", "1e+IN", "1e-CM", "e5IN", ".e5IN", "1e5.0IN", "1e 5IN", "1ee5IN", "1e5e5IN",
        "1e+-5IN", "1x5IN", "e IN", "+e1IN"]
    {
        assert_eq!(ParsedData::convert_height(s), "Invalid Height", "{:?}", s);
    }
}

#[test]
fn heights_too_large_to_be_lengths() {
    let nines = "9".repeat(309);
    assert_eq!(ParsedData::convert_height(&format!("{}IN", nines)), format!("{}.00", nines));
    assert_eq!(ParsedData::convert_height(&format!("1{}IN", "0".repeat(309))), "Invalid Height");
    assert_eq!(
        ParsedData::convert_height(&format!("000{}.5IN", nines)),
        format!("{}.50", nines)
    );
    assert_eq!(ParsedData::convert_height("1e308IN"), format!("1{}.00", "0".repeat(308)));
    assert_eq!(ParsedData::convert_height("1e309IN"), "Invalid Height");
    assert_eq!(ParsedData::convert_height("0.001e312IN"), "Invalid Height");
    assert_eq!(ParsedData::convert_height("0.001e311IN"), format!("1{}.00", "0".repeat(308)));
    assert_eq!(ParsedData::convert_height("1e99999999999999999999999999999999CM"), "Invalid Height");
    assert_eq!(
        ParsedData::convert_height(&format!("1{}e-1IN", "0".repeat(309))),
        format!("1{}.00", "0".repeat(308))
    );
    assert_eq!(ParsedData::convert_height(&format!("1{}e-0IN", "0".repeat(309))), "Invalid Height");
}

#[test]
fn heights_are_numbers_with_digits() {
    for s in ["infIN", "-infCM", "nanIN", "NaNCM", "infinityIN", "+infinityCM", "INFIN"] {
        assert_eq!(ParsedData::convert_height(s), "Invalid Height", "{:?}", s);
    }
}

#[test]
fn numerals_are_those_of_floating_point() {
    let parts = ["", "0", "7", "12", "+", "-", ".", "e", "E", "e5", "E-2", "e+", "1e2", ".5", "5.",
        "1.5e1", " ", "x"];
    for a in parts {
        for b in parts {
            for c in parts {
                let text = format!("{}{}{}", a, b, c);
                let height = ParsedData::convert_height(&format!("{}IN", text));
                match text.trim().parse::<f64>() {
                    Ok(value) if value.is_finite() => {
                        assert_ne!(height, "Invalid Height", "{:?}", text);
                        if value.abs() < 1e15 && !text.to_lowercase().contains("e-") {
                            assert_eq!(height, format!("{:.2}", value), "{:?}", text);
                        }
                    }
                    Ok(_) => {}
                    Err(_) => assert_eq!(height, "Invalid Height", "{:?}", text),
                }
            }
        }
    }
}

#[test]
fn parts_of_a_numeral() {
    let v = chars_of("x-012.50E+03y");
    let bounds = read_numeral(&v, 1, 12).unwrap();
    assert!(bounds.negative);
    assert_eq!(string_of(&v, bounds.whole_from, bounds.whole_to), "012");
    assert_eq!(string_of(&v, bounds.fraction_from, bounds.fraction_to), "50");
    assert!(!bounds.exponent_negative);
    assert_eq!(string_of(&v, bounds.exponent_from, bounds.exponent_to), "03");
    let bounds = read_numeral(&v, 2, 5).unwrap();
    assert!(!bounds.negative);
    assert_eq!(string_of(&v, bounds.whole_from, bounds.whole_to), "012");
    assert_eq!(string_of(&v, bounds.fraction_from, bounds.fraction_to), "");
    assert_eq!(string_of(&v, bounds.exponent_from, bounds.exponent_to), "");
    let v = chars_of(".5e-7");
    let bounds = read_numeral(&v, 0, v.len()).unwrap();
    assert_eq!(string_of(&v, bounds.whole_from, bounds.whole_to), "");
    assert_eq!(string_of(&v, bounds.fraction_from, bounds.fraction_to), "5");
    assert!(bounds.exponent_negative);
    assert_eq!(string_of(&v, bounds.exponent_from, bounds.exponent_to), "7");
    assert!(read_numeral(&v, 0, 1).is_none());
    assert!(read_numeral(&v, 0, 3).is_none());
    assert!(read_numeral(&v, 0, 4).is_none());
    assert!(read_numeral(&v, 2, 5).is_none());
    assert!(read_numeral(&v, 3, 3).is_none());
}

#[test]
fn counting_digits() {
    let v = chars_of("0001204000000000000000000000000000000000000000000");
    assert_eq!(count_zeros(&v, 0, v.len()), 3);
    assert_eq!(count_zeros(&v, 3, v.len()), 0);
    assert_eq!(count_zeros(&v, 5, 6), 1);
    assert_eq!(count_zeros(&v, 7, v.len()), v.len() - 7);
    assert_eq!(read_capped(&v, 0, 7, 1_000_000), 1204);
    assert_eq!(read_capped(&v, 0, 7, 1204), 1204);
    assert_eq!(read_capped(&v, 0, 7, 1203), 1203);
    assert_eq!(read_capped(&v, 0, v.len(), 1 << 80), 1 << 80);
    assert_eq!(read_capped(&v, 2, 2, 5), 0);
}

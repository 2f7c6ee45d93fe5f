use roman_converter::roman_number::get_digit_at;
use roman_converter::roman_number::RomanDigit;
use roman_converter::roman_number::RomanDigit::{C, D, I, L, M, V, X};
use roman_converter::roman_number::RomanNumber;

fn test_property<P>(name: &str, p: P)
where
    P: Fn(usize) -> bool,
{
    for value in 0..5000 {
        assert!(p(value), "Property {} failed for int: {}", name, value);
    }
}

fn max_repetition_of(roman: &RomanNumber, rd: RomanDigit, max: usize) -> bool {
    roman.roman_digits.iter().filter(|&&d| d == rd).count() <= max
}

fn has_pattern(roman: &RomanNumber, pattern: &[RomanDigit]) -> bool {
    roman
        .roman_digits
        .as_slice()
        .windows(pattern.len())
        .any(|chunk| chunk == pattern)
}

fn four_property(
    value: usize,
    roman: &RomanNumber,
    place: usize,
    unit_digit: RomanDigit,
    second_digit: RomanDigit,
) -> bool {
    let exist = has_pattern(roman, &[unit_digit, second_digit]);

    if exist {
        get_digit_at(value, place) == 4
    } else {
        get_digit_at(value, place) != 4
    }
}

fn nine_property(
    value: usize,
    roman: &RomanNumber,
    place: usize,
    unit_digit: RomanDigit,
    tens_digit: RomanDigit,
) -> bool {
    let exist = has_pattern(roman, &[unit_digit, tens_digit]);

    if exist {
        get_digit_at(value, place) == 9
    } else {
        get_digit_at(value, place) != 9
    }
}

#[test]
fn has_max_3_i() {
    test_property("Roman has max 3 I", |value| {
        max_repetition_of(&RomanNumber::from_decimal(value), I, 3)
    })
}

#[test]
fn has_max_4_x() {
    test_property("Roman has max 4 X", |value| {
        max_repetition_of(&RomanNumber::from_decimal(value), X, 4)
    })
}

#[test]
fn has_max_4_c() {
    test_property("Roman has max 4 C", |value| {
        max_repetition_of(&RomanNumber::from_decimal(value), C, 4)
    })
}

#[test]
fn has_max_1_v() {
    test_property("Roman has max 1 V", |value| {
        max_repetition_of(&RomanNumber::from_decimal(value), V, 1)
    })
}

#[test]
fn has_max_1_l() {
    test_property("Roman has max 1 L", |value| {
        max_repetition_of(&RomanNumber::from_decimal(value), L, 1)
    })
}

#[test]
fn has_max_1_d() {
    test_property("Roman has max 1 D", |value| {
        max_repetition_of(&RomanNumber::from_decimal(value), D, 1)
    })
}

#[test]
fn has_m_if_upper_to_1000() {
    test_property(
        "Roman has at least one M if int is greater than 1000",
        |value| {
            let roman = RomanNumber::from_decimal(value);
            match roman.roman_digits.as_slice() {
                [M, ..] => value >= 1000,
                _ => value <= 1000,
            }
        },
    )
}

#[test]
fn int_has_4_ones_roman_has_iv() {
    test_property("Roman has IV if int has 4 ones", |value| {
        let roman = RomanNumber::from_decimal(value);

        four_property(value, &roman, 1, I, V)
    })
}

#[test]
fn int_has_4_tens_roman_has_xl() {
    test_property("Roman has XL if int has 4 tens", |value| {
        let roman = RomanNumber::from_decimal(value);

        four_property(value, &roman, 10, X, L)
    })
}

#[test]
fn int_has_4_hundreds_roman_has_cd() {
    test_property("Roman has CD if int has 4 hundreds", |value| {
        let roman = RomanNumber::from_decimal(value);

        four_property(value, &roman, 100, C, D)
    })
}

#[test]
fn int_has_9_ones_roman_has_ix() {
    test_property("Roman has IX if int has 9 ones", |value| {
        let roman = RomanNumber::from_decimal(value);

        nine_property(value, &roman, 1, I, X)
    })
}

#[test]
fn int_has_9_tens_roman_has_xc() {
    test_property("Roman has XC if int has 9 tens", |value| {
        let roman = RomanNumber::from_decimal(value);

        nine_property(value, &roman, 10, X, C)
    })
}

#[test]
fn int_has_9_hundreds_roman_has_cm() {
    test_property("Roman has CM if int has 9 hundreds", |value| {
        let roman = RomanNumber::from_decimal(value);

        nine_property(value, &roman, 100, C, M)
    })
}

#[test]
fn test_convert_int_to_roman_to_int_return_the_same() {
    test_property(
        "Convert int to roman and back to int should be the same",
        |value| {
            let roman = RomanNumber::from_decimal(value);
            let result = roman.to_decimal();

            result == value
        },
    )
}

#[test]
fn test_from_string_cv_to_cv() {
    let result = RomanNumber::from_str("cv").unwrap();

    assert_eq!(result, RomanNumber::new(vec![C, V]))
}

#[test]
fn symbols_round_trip_through_characters() {
    for d in [I, V, X, L, C, D, M] {
        let text = d.render();
        assert_eq!(text.chars().count(), 1);
        let back = RomanDigit::from_char(text.chars().next().unwrap()).unwrap();
        assert_eq!(back, d);
    }
}

#[test]
fn symbol_values_are_fixed() {
    assert_eq!(I.to_int(), 1);
    assert_eq!(V.to_int(), 5);
    assert_eq!(X.to_int(), 10);
    assert_eq!(L.to_int(), 50);
    assert_eq!(C.to_int(), 100);
    assert_eq!(D.to_int(), 500);
    assert_eq!(M.to_int(), 1000);
}

#[test]
fn evaluation_is_lenient_on_malformed_sequences() {
    assert_eq!(RomanNumber::new(vec![I, I, X, X]).to_decimal(), 20);
    assert_eq!(RomanNumber::new(vec![I, I, I, I]).to_decimal(), 4);
    assert_eq!(RomanNumber::new(vec![V, V]).to_decimal(), 10);
    assert_eq!(RomanNumber::new(vec![I, X, I]).to_decimal(), 10);
}

#[test]
fn empty_text_is_the_empty_numeral() {
    let empty = RomanNumber::from_str("").unwrap();
    assert_eq!(empty.roman_digits.len(), 0);
    assert_eq!(empty.to_decimal(), 0);
}

#[test]
fn parse_reports_first_bad_character_uppercased() {
    let err = RomanNumber::from_str("xiiab").unwrap_err();
    assert_eq!(err.wrong_string, "A");
    let err = RomanNumber::from_str("Z9").unwrap_err();
    assert_eq!(err.wrong_string, "Z");
}

#[test]
fn render_writes_the_sequence_in_order() {
    assert_eq!(RomanNumber::new(vec![M, C, X, L, I, I]).render(), "MCXLII");
    assert_eq!(RomanNumber::new(vec![]).render(), "");
}

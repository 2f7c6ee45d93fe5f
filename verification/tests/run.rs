use roman_converter::run;
use roman_converter::Action::{IntToRoman, RomanToInt};
use roman_converter::RunError;

#[test]
fn run_roman_to_int_should_return_a_int() {
    let result = run(RomanToInt("XC".to_string())).unwrap();

    assert_eq!(result, "90")
}

#[test]
fn run_int_to_roman_should_return_a_roman_number() {
    let result = run(IntToRoman("1142".to_string())).unwrap();

    assert_eq!(result, "MCXLII")
}

#[test]
fn run_encodes_three_as_three_units() {
    assert_eq!(run(IntToRoman("3".to_string())).unwrap(), "III");
}

#[test]
fn run_encodes_four_as_subtractive_pair() {
    assert_eq!(run(IntToRoman("4".to_string())).unwrap(), "IV");
}

#[test]
fn run_encodes_six_as_five_then_unit() {
    assert_eq!(run(IntToRoman("6".to_string())).unwrap(), "VI");
}

#[test]
fn run_encodes_thirty_seven() {
    assert_eq!(run(IntToRoman("37".to_string())).unwrap(), "XXXVII");
}

#[test]
fn run_encodes_three_thousand_four_hundred_ninety_seven() {
    assert_eq!(run(IntToRoman("3497".to_string())).unwrap(), "MMMCDXCVII");
}

#[test]
fn run_decodes_long_numeral() {
    assert_eq!(run(RomanToInt("MMMCDXCVII".to_string())).unwrap(), "3497");
}

#[test]
fn run_decodes_lowercase_numeral() {
    assert_eq!(run(RomanToInt("cv".to_string())).unwrap(), "105");
}

#[test]
fn run_decodes_nine() {
    assert_eq!(run(RomanToInt("IX".to_string())).unwrap(), "9");
}

#[test]
fn run_encodes_zero_as_empty_numeral() {
    assert_eq!(run(IntToRoman("0".to_string())).unwrap(), "");
}

#[test]
fn run_accepts_leading_plus_sign() {
    assert_eq!(run(IntToRoman("+42".to_string())).unwrap(), "XLII");
}

#[test]
fn run_rejects_bad_symbol_with_parse_error() {
    let result = run(RomanToInt("MCMq".to_string()));
    match result {
        Err(RunError::Parse(e)) => assert_eq!(e.wrong_string, "Q"),
        _ => panic!("a symbol outside the alphabet must give a parse error"),
    }
}

#[test]
fn run_rejects_non_numeric_text_with_conversion_error() {
    assert!(matches!(
        run(IntToRoman("12x".to_string())),
        Err(RunError::Conversion(_))
    ));
    assert!(matches!(
        run(IntToRoman("".to_string())),
        Err(RunError::Conversion(_))
    ));
    assert!(matches!(
        run(IntToRoman("-3".to_string())),
        Err(RunError::Conversion(_))
    ));
}

#[test]
fn run_rejects_value_beyond_machine_word() {
    assert!(matches!(
        run(IntToRoman("99999999999999999999999".to_string())),
        Err(RunError::Conversion(_))
    ));
}

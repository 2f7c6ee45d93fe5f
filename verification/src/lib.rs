//! Conversion between decimal integers and Roman numerals.
//!
//! The library has two layers: `roman_number` holds the seven-letter
//! symbol alphabet and the numeral sequences built from it, and
//! `decimal_text` reads and writes decimal digit strings. The entry
//! points in this file tie the two together: `roman_to_int` parses a
//! numeral string and evaluates it, `int_to_roman` parses a decimal
//! string and encodes it, and `run` dispatches between them for a
//! caller that only holds raw text.
use vstd::prelude::*;

pub mod decimal_text;
pub mod roman_number;

use crate::decimal_text::ConversionError;
use crate::roman_number::ParseRomanDigitError;
use crate::roman_number::RomanNumber;

verus! {

/// A request from the caller: which direction to convert, and the raw
/// text to convert.
#[derive(Debug)]
pub enum Action {
    RomanToInt(String),
    IntToRoman(String),
}

/// Either of the two failures a conversion can end in: a character
/// outside the numeral alphabet, or value text that is not a
/// non-negative integer.
#[derive(Debug)]
pub enum RunError {
    Parse(ParseRomanDigitError),
    Conversion(ConversionError),
}

/// The decimal value of a Roman numeral text: every character parsed
/// as a symbol, case-insensitively, and the sequence evaluated by the
/// subtractive-pair fold. Fails exactly when some character names no
/// symbol, with the first such character, uppercased.
pub fn roman_to_int(raw_string: &str) -> (r: Result<usize, ParseRomanDigitError>)
    requires
        1000 * raw_string@.len() <= usize::MAX,
    ensures
        match r {
            Ok(v) => roman_number::all_valid(raw_string@) && v == roman_number::decimal_value(
                roman_number::parsed_digits(raw_string@),
            ),
            Err(e) => exists|i: int|
                #[trigger] roman_number::is_first_invalid(raw_string@, i) && e.wrong_string@ == seq![
                    roman_number::upper_char(raw_string@[i]),
                ],
        },
{
    let roman_number = RomanNumber::from_str(raw_string)?;
    proof {
        roman_number::lemma_decimal_value_bound(roman_number@);
    }
    Ok(roman_number.to_decimal())
}

/// The canonical Roman numeral of decimal value text. Fails exactly
/// when the text is not a non-negative integer that fits the
/// machine's word.
pub fn int_to_roman(raw_string: &str) -> (r: Result<RomanNumber, ConversionError>)
    ensures
        match r {
            Ok(rn) => decimal_text::is_number_text(raw_string@) && rn@ == roman_number::encoded(
                decimal_text::dec_value(decimal_text::digits_part(raw_string@)),
            ),
            Err(e) => !decimal_text::is_number_text(raw_string@) || decimal_text::dec_value(
                decimal_text::digits_part(raw_string@),
            ) > usize::MAX,
        },
{
    let value = decimal_text::parse_usize(raw_string)?;

    Ok(RomanNumber::from_decimal(value))
}

/// One whole conversion, from raw text to raw text: a numeral string
/// evaluated and written in decimal, or decimal value text encoded
/// and written as a numeral.
pub fn run(action: Action) -> (r: Result<String, RunError>)
    requires
        action matches Action::RomanToInt(raw) ==> 1000 * raw@.len() <= usize::MAX,
    ensures
        match action {
            Action::RomanToInt(raw) => match r {
                Ok(text) => roman_number::all_valid(raw@) && text@ == decimal_text::dec_chars(
                    roman_number::decimal_value(roman_number::parsed_digits(raw@)),
                ),
                Err(e) => e matches RunError::Parse(e) && exists|i: int|
                    #[trigger] roman_number::is_first_invalid(raw@, i) && e.wrong_string@ == seq![
                        roman_number::upper_char(raw@[i]),
                    ],
            },
            Action::IntToRoman(raw) => match r {
                Ok(text) => decimal_text::is_number_text(raw@) && text@
                    == roman_number::rendered(
                    roman_number::encoded(
                        decimal_text::dec_value(decimal_text::digits_part(raw@)),
                    ),
                ),
                Err(e) => e matches RunError::Conversion(_) && (!decimal_text::is_number_text(
                    raw@,
                ) || decimal_text::dec_value(decimal_text::digits_part(raw@)) > usize::MAX),
            },
        },
{
    match action {
        Action::RomanToInt(raw) => match roman_to_int(raw.as_str()) {
            Ok(value) => Ok(decimal_text::render_usize(value)),
            Err(e) => Err(RunError::Parse(e)),
        },
        Action::IntToRoman(raw) => match int_to_roman(raw.as_str()) {
            Ok(rn) => Ok(rn.render()),
            Err(e) => Err(RunError::Conversion(e)),
        },
    }
}

} // verus!


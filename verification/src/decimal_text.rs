//! Reading and writing non-negative integers as decimal text.
use vstd::prelude::*;

verus! {

/// The error the encoding direction ends in when the value text is
/// not a non-negative integer that fits the machine's word.
#[derive(Debug, Copy, Clone, PartialEq, Eq, Structural)]
pub struct ConversionError;

/// Whether a character is a decimal digit.
pub open spec fn is_dec_digit(c: char) -> bool {
    48 <= c as u32 <= 57
}

/// The numeric value of a decimal digit character.
pub open spec fn dec_digit_value(c: char) -> int {
    c as u32 - 48
}

/// The character of one decimal digit value.
pub open spec fn dec_digit_char(d: int) -> char {
    if d == 0 {
        '0'
    } else if d == 1 {
        '1'
    } else if d == 2 {
        '2'
    } else if d == 3 {
        '3'
    } else if d == 4 {
        '4'
    } else if d == 5 {
        '5'
    } else if d == 6 {
        '6'
    } else if d == 7 {
        '7'
    } else if d == 8 {
        '8'
    } else {
        '9'
    }
}

/// The decimal rendering of a non-negative integer, most significant
/// digit first, with no sign and no leading zero (but "0" itself).
pub open spec fn dec_chars(n: int) -> Seq<char>
    decreases n,
{
    if n < 10 {
        seq![dec_digit_char(n)]
    } else {
        dec_chars(n / 10).push(dec_digit_char(n % 10))
    }
}

/// The integer a sequence of decimal digit characters denotes.
pub open spec fn dec_value(s: Seq<char>) -> int
    decreases s.len(),
{
    if s.len() == 0 {
        0
    } else {
        dec_value(s.drop_last()) * 10 + dec_digit_value(s.last())
    }
}

/// The digit part of integer text: what follows an optional leading
/// plus sign.
pub open spec fn digits_part(s: Seq<char>) -> Seq<char> {
    if s.len() > 0 && s[0] == '+' {
        s.drop_first()
    } else {
        s
    }
}

/// Whether text denotes a non-negative integer: an optional plus sign
/// and then at least one decimal digit.
pub open spec fn is_number_text(s: Seq<char>) -> bool {
    let d = digits_part(s);
    d.len() > 0 && forall|i: int| 0 <= i < d.len() ==> is_dec_digit(d[i])
}

/// The one-character text of one decimal digit value.
fn dec_digit_str(d: usize) -> (s: &'static str)
    requires
        d < 10,
    ensures
        s@ == seq![dec_digit_char(d as int)],
{
    proof {
        reveal_strlit("0");
        reveal_strlit("1");
        reveal_strlit("2");
        reveal_strlit("3");
        reveal_strlit("4");
        reveal_strlit("5");
        reveal_strlit("6");
        reveal_strlit("7");
        reveal_strlit("8");
        reveal_strlit("9");
    }
    let s = match d {
        0 => "0",
        1 => "1",
        2 => "2",
        3 => "3",
        4 => "4",
        5 => "5",
        6 => "6",
        7 => "7",
        8 => "8",
        _ => "9",
    };
    proof {
        assert(s@ =~= seq![dec_digit_char(d as int)]);
    }
    s
}

/// The decimal text of a non-negative integer, most significant digit
/// first.
pub fn render_usize(n: usize) -> (s: String)
    ensures
        s@ == dec_chars(n as int),
    decreases n,
{
    if n < 10 {
        dec_digit_str(n).to_owned()
    } else {
        let mut s = render_usize(n / 10);
        s.append(dec_digit_str(n % 10));
        proof {
            assert(s@ =~= dec_chars(n as int));
        }
        s
    }
}

/// A sequence of digit characters denotes a non-negative integer.
proof fn lemma_dec_value_nonneg(t: Seq<char>)
    requires
        forall|i: int| 0 <= i < t.len() ==> is_dec_digit(t[i]),
    ensures
        dec_value(t) >= 0,
    decreases t.len(),
{
    if t.len() > 0 {
        lemma_dec_value_nonneg(t.drop_last());
    }
}

/// A digit sequence is worth at least any of its prefixes: appending
/// a digit multiplies by ten and adds a non-negative value.
proof fn lemma_dec_value_prefix(t: Seq<char>, k: int)
    requires
        0 <= k <= t.len(),
        forall|i: int| 0 <= i < t.len() ==> is_dec_digit(t[i]),
    ensures
        0 <= dec_value(t.take(k)) <= dec_value(t),
    decreases t.len() - k,
{
    assert(forall|i: int| 0 <= i < t.take(k).len() ==> is_dec_digit(t.take(k)[i]));
    lemma_dec_value_nonneg(t.take(k));
    if k == t.len() {
        assert(t.take(k) =~= t);
    } else {
        lemma_dec_value_prefix(t, k + 1);
        assert(t.take(k + 1).drop_last() =~= t.take(k));
        assert(t.take(k + 1).last() == t[k]);
    }
}

/// The integer that decimal text denotes: `Ok` exactly on text that
/// is an optional plus sign followed by decimal digits whose value
/// fits the machine's word, and the error on all other text.
pub fn parse_usize(s: &str) -> (r: Result<usize, ConversionError>)
    ensures
        match r {
            Ok(v) => is_number_text(s@) && v == dec_value(digits_part(s@)),
            Err(e) => !is_number_text(s@) || dec_value(digits_part(s@)) > usize::MAX,
        },
{
    let len = s.unicode_len();
    let mut i: usize = 0;
    if len > 0 && s.get_char(0) == '+' {
        i = 1;
    }
    let ghost start = i as int;
    let ghost dp = digits_part(s@);
    proof {
        assert(dp =~= s@.skip(start));
    }
    if i == len {
        return Err(ConversionError);
    }
    let mut acc: usize = 0;
    while i < len
        invariant
            0 <= start <= i <= len,
            len == s@.len(),
            dp == digits_part(s@),
            dp =~= s@.skip(start),
            forall|j: int| start <= j < i ==> is_dec_digit(s@[j]),
            acc == dec_value(s@.subrange(start, i as int)),
        decreases len - i,
    {
        let c = s.get_char(i);
        let u = c as u32;
        if !(48 <= u && u <= 57) {
            proof {
                assert(s@.skip(start)[i - start] == s@[i as int]);
                assert(!is_dec_digit(dp[i - start]));
            }
            return Err(ConversionError);
        }
        let d = (u - 48) as usize;
        let ghost prefix = s@.subrange(start, i as int);
        let ghost prefix1 = s@.subrange(start, i as int + 1);
        proof {
            assert(prefix1.drop_last() =~= prefix);
            assert(prefix1.last() == s@[i as int]);
        }
        if acc > (usize::MAX - d) / 10 {
            proof {
                if is_number_text(s@) {
                    assert(dp.take(i as int + 1 - start) =~= prefix1);
                    lemma_dec_value_prefix(dp, i as int + 1 - start);
                    assert(acc * 10 + d > usize::MAX) by (nonlinear_arith)
                        requires
                            acc > (usize::MAX - d) / 10,
                            d <= usize::MAX,
                    {
                        let q = (usize::MAX - d) / 10;
                        assert(usize::MAX - d == 10 * q + (usize::MAX - d) % 10);
                    }
                }
            }
            return Err(ConversionError);
        }
        proof {
            assert(acc * 10 + d <= usize::MAX) by (nonlinear_arith)
                requires
                    acc <= (usize::MAX - d) / 10,
                    d <= usize::MAX,
            {
                let q = (usize::MAX - d) / 10;
                assert(usize::MAX - d == 10 * q + (usize::MAX - d) % 10);
            }
        }
        acc = acc * 10 + d;
        i = i + 1;
    }
    proof {
        assert(s@.subrange(start, len as int) =~= dp);
    }
    Ok(acc)
}

} // verus!

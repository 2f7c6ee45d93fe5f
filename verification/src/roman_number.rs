//! Roman numeral symbols and numeral sequences.
//!
//! `RomanDigit` is the closed alphabet of the seven Roman letters,
//! each with its fixed decimal value. `RomanNumber` is an ordered
//! sequence of symbols; `from_decimal` builds the canonical, minimal
//! sequence for an integer place by place, and `to_decimal` evaluates
//! any sequence back to an integer with the subtractive-pair fold.
use vstd::prelude::*;

verus! {

/// One of the seven Roman numeral letters, ordered by decimal value.
#[derive(Debug, Ord, PartialOrd, Eq, PartialEq, Structural, Copy, Clone)]
pub enum RomanDigit {
    I,
    V,
    X,
    L,
    C,
    D,
    M,
}

/// The fixed decimal value of a symbol.
pub open spec fn value_of(d: RomanDigit) -> int {
    match d {
        RomanDigit::I => 1,
        RomanDigit::V => 5,
        RomanDigit::X => 10,
        RomanDigit::L => 50,
        RomanDigit::C => 100,
        RomanDigit::D => 500,
        RomanDigit::M => 1000,
    }
}

/// The canonical uppercase character of a symbol.
pub open spec fn char_of(d: RomanDigit) -> char {
    match d {
        RomanDigit::I => 'I',
        RomanDigit::V => 'V',
        RomanDigit::X => 'X',
        RomanDigit::L => 'L',
        RomanDigit::C => 'C',
        RomanDigit::D => 'D',
        RomanDigit::M => 'M',
    }
}

/// The symbol a character stands for, case-insensitively; `None` for
/// a character outside the alphabet.
pub open spec fn symbol_of_char(c: char) -> Option<RomanDigit> {
    match c {
        'I' | 'i' => Some(RomanDigit::I),
        'V' | 'v' => Some(RomanDigit::V),
        'X' | 'x' => Some(RomanDigit::X),
        'L' | 'l' => Some(RomanDigit::L),
        'C' | 'c' => Some(RomanDigit::C),
        'D' | 'd' => Some(RomanDigit::D),
        'M' | 'm' => Some(RomanDigit::M),
        _ => None,
    }
}

/// An ASCII lowercase letter mapped to its uppercase form; any other
/// character kept as it is.
pub open spec fn upper_char(c: char) -> char {
    if 97 <= c as u32 <= 122 {
        ((c as u32 - 32) as u8) as char
    } else {
        c
    }
}

/// Whether every character of the text names a symbol.
pub open spec fn all_valid(s: Seq<char>) -> bool {
    forall|i: int| 0 <= i < s.len() ==> symbol_of_char(s[i]) is Some
}

/// The symbols the characters of fully valid text stand for, in
/// order.
pub open spec fn parsed_digits(s: Seq<char>) -> Seq<RomanDigit> {
    Seq::new(s.len(), |i: int| symbol_of_char(s[i]).unwrap())
}

/// Whether `i` is the position of the first character of `s` that
/// names no symbol.
pub open spec fn is_first_invalid(s: Seq<char>, i: int) -> bool {
    &&& 0 <= i < s.len()
    &&& symbol_of_char(s[i]) is None
    &&& forall|j: int| 0 <= j < i ==> symbol_of_char(s[j]) is Some
}

/// The characters of a symbol sequence, in order.
pub open spec fn rendered(s: Seq<RomanDigit>) -> Seq<char> {
    Seq::new(s.len(), |i: int| char_of(s[i]))
}

/// Relies on String::from for char: the one-character string holding
/// exactly `c`.
#[verifier::external_body]
fn char_to_string(c: char) -> (s: String)
    ensures
        s@ == seq![c],
{
    String::from(c)
}

/// An ASCII lowercase letter uppercased; any other character
/// unchanged.
fn upper(c: char) -> (r: char)
    ensures
        r == upper_char(c),
{
    let u = c as u32;
    if 97 <= u && u <= 122 {
        ((u - 32) as u8) as char
    } else {
        c
    }
}

impl RomanDigit {
    /// The symbol a single character names, case-insensitively; for
    /// any other character, the error holding that character
    /// uppercased.
    pub fn from_char(c: char) -> (r: Result<RomanDigit, ParseRomanDigitError>)
        ensures
            match r {
                Ok(d) => symbol_of_char(c) == Some(d),
                Err(e) => symbol_of_char(c) is None && e.wrong_string@ == seq![upper_char(c)],
            },
    {
        match c {
            'I' | 'i' => Ok(RomanDigit::I),
            'V' | 'v' => Ok(RomanDigit::V),
            'X' | 'x' => Ok(RomanDigit::X),
            'L' | 'l' => Ok(RomanDigit::L),
            'C' | 'c' => Ok(RomanDigit::C),
            'D' | 'd' => Ok(RomanDigit::D),
            'M' | 'm' => Ok(RomanDigit::M),
            _ => Err(ParseRomanDigitError { wrong_string: char_to_string(upper(c)) }),
        }
    }

    /// The canonical uppercase one-character text of the symbol.
    pub fn render(&self) -> (s: &'static str)
        ensures
            s@ == seq![char_of(*self)],
    {
        match self {
            RomanDigit::I => {
                proof {
                    reveal_strlit("I");
                    assert("I"@ =~= seq![char_of(RomanDigit::I)]);
                }
                "I"
            },
            RomanDigit::V => {
                proof {
                    reveal_strlit("V");
                    assert("V"@ =~= seq![char_of(RomanDigit::V)]);
                }
                "V"
            },
            RomanDigit::X => {
                proof {
                    reveal_strlit("X");
                    assert("X"@ =~= seq![char_of(RomanDigit::X)]);
                }
                "X"
            },
            RomanDigit::L => {
                proof {
                    reveal_strlit("L");
                    assert("L"@ =~= seq![char_of(RomanDigit::L)]);
                }
                "L"
            },
            RomanDigit::C => {
                proof {
                    reveal_strlit("C");
                    assert("C"@ =~= seq![char_of(RomanDigit::C)]);
                }
                "C"
            },
            RomanDigit::D => {
                proof {
                    reveal_strlit("D");
                    assert("D"@ =~= seq![char_of(RomanDigit::D)]);
                }
                "D"
            },
            RomanDigit::M => {
                proof {
                    reveal_strlit("M");
                    assert("M"@ =~= seq![char_of(RomanDigit::M)]);
                }
                "M"
            },
        }
    }

    /// The symbol's fixed decimal value.
    pub fn to_int(&self) -> (r: usize)
        ensures
            r == value_of(*self),
    {
        match self {
            RomanDigit::I => 1,
            RomanDigit::V => 5,
            RomanDigit::X => 10,
            RomanDigit::L => 50,
            RomanDigit::C => 100,
            RomanDigit::D => 500,
            RomanDigit::M => 1000,
        }
    }
}

/// The error a numeral parse ends in: the offending character,
/// uppercased, as a one-character string.
#[derive(Debug, Clone)]
pub struct ParseRomanDigitError {
    pub wrong_string: String,
}

/// The digit of `integer` at a decimal place: its place value for
/// place 1, 10, 100 or 1000.
pub open spec fn digit_at(integer: int, place: int) -> int {
    integer % (10 * place) / place
}

/// The digit of `integer` at a decimal place.
pub fn get_digit_at(integer: usize, place: usize) -> (r: usize)
    requires
        0 < place,
        10 * place <= usize::MAX,
    ensures
        r == digit_at(integer as int, place as int),
{
    integer % (10 * place) / place
}

/// The symbols one decimal digit contributes, from the triad of the
/// digit's place: its unit symbol, the "five" above it and the "ten"
/// above that.
pub open spec fn digit_seq(d: int, unit: RomanDigit, five: RomanDigit, ten: RomanDigit) -> Seq<
    RomanDigit,
> {
    if d == 1 {
        seq![unit]
    } else if d == 2 {
        seq![unit, unit]
    } else if d == 3 {
        seq![unit, unit, unit]
    } else if d == 4 {
        seq![unit, five]
    } else if d == 5 {
        seq![five]
    } else if d == 6 {
        seq![five, unit]
    } else if d == 7 {
        seq![five, unit, unit]
    } else if d == 8 {
        seq![five, unit, unit, unit]
    } else if d == 9 {
        seq![unit, ten]
    } else {
        Seq::empty()
    }
}

/// The thousands part of an encoding: one `M` for each whole
/// thousand.
pub open spec fn thousands_seq(n: int) -> Seq<RomanDigit> {
    Seq::new((n / 1000) as nat, |i: int| RomanDigit::M)
}

/// The canonical encoding of a non-negative integer: the thousands
/// part, then the contribution of the hundreds, tens and ones digits.
pub open spec fn encoded(n: int) -> Seq<RomanDigit> {
    thousands_seq(n) + digit_seq(digit_at(n, 100), RomanDigit::C, RomanDigit::D, RomanDigit::M)
        + digit_seq(digit_at(n, 10), RomanDigit::X, RomanDigit::L, RomanDigit::C) + digit_seq(
        digit_at(n, 1),
        RomanDigit::I,
        RomanDigit::V,
        RomanDigit::X,
    )
}

/// One step of the evaluation fold: `total` is the settled sum,
/// `pending` a held-back symbol value (0 when none is held), `v` the
/// value of the next symbol. A held value smaller than the next
/// symbol's is subtracted from it; otherwise it is settled and the
/// next value held in its place.
pub open spec fn fold_step(total: int, pending: int, v: int) -> (int, int) {
    if pending == 0 {
        (total, v)
    } else if pending < v {
        (total + v - pending, 0)
    } else {
        (total + pending, v)
    }
}

/// The evaluation fold over a symbol sequence, carried out from a
/// starting accumulator.
pub open spec fn fold_pair(s: Seq<RomanDigit>, total: int, pending: int) -> (int, int)
    decreases s.len(),
{
    if s.len() == 0 {
        (total, pending)
    } else {
        let next = fold_step(total, pending, value_of(s[0]));
        fold_pair(s.drop_first(), next.0, next.1)
    }
}

/// The integer a symbol sequence evaluates to: the fold from an empty
/// accumulator, with the last held value settled at the end.
pub open spec fn decimal_value(s: Seq<RomanDigit>) -> int {
    fold_pair(s, 0, 0).0 + fold_pair(s, 0, 0).1
}

/// Whether `v` is the value of one of the seven symbols.
pub open spec fn is_symbol_value(v: int) -> bool {
    v == 1 || v == 5 || v == 10 || v == 50 || v == 100 || v == 500 || v == 1000
}

/// The fold never loses value: from a settled sum and a held value
/// that is zero or a symbol value, the final sum is at least the
/// starting one. (Between two symbol values, the larger is at least
/// twice the smaller, so a subtractive pair never settles less than
/// what was held.)
proof fn lemma_fold_pair_ge(s: Seq<RomanDigit>, total: int, pending: int)
    requires
        total >= 0,
        pending == 0 || is_symbol_value(pending),
    ensures
        fold_pair(s, total, pending).0 + fold_pair(s, total, pending).1 >= total + pending,
        fold_pair(s, total, pending).0 >= 0,
        fold_pair(s, total, pending).1 == 0 || is_symbol_value(fold_pair(s, total, pending).1),
    decreases s.len(),
{
    if s.len() > 0 {
        let next = fold_step(total, pending, value_of(s[0]));
        lemma_fold_pair_ge(s.drop_first(), next.0, next.1);
    }
}

/// Each symbol adds at most its largest possible value to the sum, so
/// a sequence evaluates to at most 1000 per symbol.
proof fn lemma_fold_pair_le(s: Seq<RomanDigit>, total: int, pending: int)
    requires
        pending >= 0,
    ensures
        fold_pair(s, total, pending).0 + fold_pair(s, total, pending).1 <= total + pending + 1000
            * s.len(),
    decreases s.len(),
{
    if s.len() > 0 {
        let next = fold_step(total, pending, value_of(s[0]));
        lemma_fold_pair_le(s.drop_first(), next.0, next.1);
    }
}

/// An evaluated sequence is worth at most 1000 per symbol.
pub proof fn lemma_decimal_value_bound(s: Seq<RomanDigit>)
    ensures
        0 <= decimal_value(s) <= 1000 * s.len(),
{
    lemma_fold_pair_ge(s, 0, 0);
    lemma_fold_pair_le(s, 0, 0);
}

/// The fold over a concatenation is the fold over the second part,
/// started from where the first part left off.
proof fn lemma_fold_pair_append(a: Seq<RomanDigit>, b: Seq<RomanDigit>, total: int, pending: int)
    ensures
        fold_pair(a + b, total, pending) == fold_pair(
            b,
            fold_pair(a, total, pending).0,
            fold_pair(a, total, pending).1,
        ),
    decreases a.len(),
{
    if a.len() == 0 {
        assert(a + b =~= b);
    } else {
        let next = fold_step(total, pending, value_of(a[0]));
        assert((a + b).drop_first() =~= a.drop_first() + b);
        assert((a + b)[0] == a[0]);
        lemma_fold_pair_append(a.drop_first(), b, next.0, next.1);
    }
}

/// The fold over a one-symbol sequence is one step.
proof fn lemma_fold_one(a: RomanDigit, total: int, pending: int)
    ensures
        fold_pair(seq![a], total, pending) == fold_step(total, pending, value_of(a)),
{
    reveal_with_fuel(fold_pair, 3);
    assert(seq![a].drop_first() =~= Seq::<RomanDigit>::empty());
}

/// The fold over a two-symbol sequence is two chained steps.
proof fn lemma_fold_two(a: RomanDigit, b: RomanDigit, total: int, pending: int)
    ensures
        fold_pair(seq![a, b], total, pending) == ({
            let n1 = fold_step(total, pending, value_of(a));
            fold_step(n1.0, n1.1, value_of(b))
        }),
{
    let n1 = fold_step(total, pending, value_of(a));
    assert(seq![a, b].drop_first() =~= seq![b]);
    lemma_fold_one(b, n1.0, n1.1);
}

/// The fold over a three-symbol sequence is three chained steps.
proof fn lemma_fold_three(a: RomanDigit, b: RomanDigit, c: RomanDigit, total: int, pending: int)
    ensures
        fold_pair(seq![a, b, c], total, pending) == ({
            let n1 = fold_step(total, pending, value_of(a));
            let n2 = fold_step(n1.0, n1.1, value_of(b));
            fold_step(n2.0, n2.1, value_of(c))
        }),
{
    let n1 = fold_step(total, pending, value_of(a));
    assert(seq![a, b, c].drop_first() =~= seq![b, c]);
    lemma_fold_two(b, c, n1.0, n1.1);
}

/// The fold over a four-symbol sequence is four chained steps.
proof fn lemma_fold_four(
    a: RomanDigit,
    b: RomanDigit,
    c: RomanDigit,
    d: RomanDigit,
    total: int,
    pending: int,
)
    ensures
        fold_pair(seq![a, b, c, d], total, pending) == ({
            let n1 = fold_step(total, pending, value_of(a));
            let n2 = fold_step(n1.0, n1.1, value_of(b));
            let n3 = fold_step(n2.0, n2.1, value_of(c));
            fold_step(n3.0, n3.1, value_of(d))
        }),
{
    let n1 = fold_step(total, pending, value_of(a));
    assert(seq![a, b, c, d].drop_first() =~= seq![b, c, d]);
    lemma_fold_three(b, c, d, n1.0, n1.1);
}

/// The fold over the thousands part: each `M` settles a thousand, and
/// what stays held at the end is a thousand, or the untouched
/// starting value when there is no `M` at all.
proof fn lemma_fold_thousands(k: nat, total: int, pending: int)
    requires
        pending == 0 || pending >= 1000,
    ensures
        ({
            let f = fold_pair(Seq::new(k, |i: int| RomanDigit::M), total, pending);
            f.0 + f.1 == total + pending + 1000 * k && (f.1 == 0 || f.1 >= 1000)
        }),
    decreases k,
{
    let s = Seq::new(k, |i: int| RomanDigit::M);
    if k > 0 {
        let next = fold_step(total, pending, 1000);
        assert(s[0] == RomanDigit::M);
        assert(s.drop_first() =~= Seq::new((k - 1) as nat, |i: int| RomanDigit::M));
        lemma_fold_thousands((k - 1) as nat, next.0, next.1);
    }
}

/// The fold over one place's contribution: the digit's worth in that
/// place's unit joins the sum, and what stays held at the end is
/// zero, at least one unit, or the untouched starting value.
proof fn lemma_fold_place(
    d: int,
    unit: RomanDigit,
    five: RomanDigit,
    ten: RomanDigit,
    total: int,
    pending: int,
)
    requires
        0 <= d < 10,
        value_of(five) == 5 * value_of(unit),
        value_of(ten) == 10 * value_of(unit),
        pending == 0 || pending >= value_of(ten),
    ensures
        ({
            let f = fold_pair(digit_seq(d, unit, five, ten), total, pending);
            f.0 + f.1 == total + pending + d * value_of(unit) && (f.1 == 0 || f.1 >= value_of(
                unit,
            ))
        }),
{
    let f = fold_pair(digit_seq(d, unit, five, ten), total, pending);
    let settled = f.0 + f.1 == total + pending + d * value_of(unit) && (f.1 == 0 || f.1
        >= value_of(unit));
    if d == 0 {
        assert(digit_seq(d, unit, five, ten) =~= Seq::<RomanDigit>::empty());
        assert(fold_pair(Seq::<RomanDigit>::empty(), total, pending) == (total, pending));
        assert(d * value_of(unit) == 0) by (nonlinear_arith)
            requires
                d == 0,
        ;
        assert(settled);
    } else if d == 1 {
        lemma_fold_one(unit, total, pending);
        assert(settled);
    } else if d == 2 {
        lemma_fold_two(unit, unit, total, pending);
        assert(settled);
    } else if d == 3 {
        lemma_fold_three(unit, unit, unit, total, pending);
        assert(settled);
    } else if d == 4 {
        lemma_fold_two(unit, five, total, pending);
        assert(settled);
    } else if d == 5 {
        lemma_fold_one(five, total, pending);
        assert(settled);
    } else if d == 6 {
        lemma_fold_two(five, unit, total, pending);
        assert(settled);
    } else if d == 7 {
        lemma_fold_three(five, unit, unit, total, pending);
        assert(settled);
    } else if d == 8 {
        lemma_fold_four(five, unit, unit, unit, total, pending);
        assert(settled);
    } else {
        lemma_fold_two(unit, ten, total, pending);
        assert(settled);
    }
}

/// How often a symbol occurs in a sequence.
pub open spec fn count_of(s: Seq<RomanDigit>, d: RomanDigit) -> nat
    decreases s.len(),
{
    if s.len() == 0 {
        0
    } else {
        count_of(s.drop_first(), d) + (if s[0] == d {
            1nat
        } else {
            0nat
        })
    }
}

/// Occurrence counts add up over a concatenation.
proof fn lemma_count_append(a: Seq<RomanDigit>, b: Seq<RomanDigit>)
    ensures
        forall|x: RomanDigit| #[trigger] count_of(a + b, x) == count_of(a, x) + count_of(b, x),
    decreases a.len(),
{
    if a.len() == 0 {
        assert(a + b =~= b);
    } else {
        assert((a + b).drop_first() =~= a.drop_first() + b);
        lemma_count_append(a.drop_first(), b);
        assert(forall|x: RomanDigit| #[trigger]
            count_of(a + b, x) == count_of(a.drop_first() + b, x) + (if a[0] == x {
                1nat
            } else {
                0nat
            }));
        assert(forall|x: RomanDigit| #[trigger]
            count_of(a, x) == count_of(a.drop_first(), x) + (if a[0] == x {
                1nat
            } else {
                0nat
            }));
    }
}

/// The thousands part holds nothing but its `M` symbols.
proof fn lemma_count_thousands(k: nat, x: RomanDigit)
    ensures
        count_of(Seq::new(k, |i: int| RomanDigit::M), x) == if x == RomanDigit::M {
            k
        } else {
            0nat
        },
    decreases k,
{
    let s = Seq::new(k, |i: int| RomanDigit::M);
    if k > 0 {
        assert(s[0] == RomanDigit::M);
        assert(s.drop_first() =~= Seq::new((k - 1) as nat, |i: int| RomanDigit::M));
        lemma_count_thousands((k - 1) as nat, x);
    }
}

/// One place contributes at most three of its unit symbol, at most
/// one "five" and at most one "ten", and no other symbol at all.
proof fn lemma_count_digit_seq(d: int, unit: RomanDigit, five: RomanDigit, ten: RomanDigit)
    requires
        0 <= d < 10,
        unit != five,
        unit != ten,
        five != ten,
    ensures
        forall|x: RomanDigit| #[trigger]
            count_of(digit_seq(d, unit, five, ten), x) <= (if x == unit {
                3nat
            } else if x == five {
                1nat
            } else if x == ten {
                1nat
            } else {
                0nat
            }),
{
    let s = digit_seq(d, unit, five, ten);
    assert forall|x: RomanDigit| #[trigger]
        count_of(s, x) <= (if x == unit {
            3nat
        } else if x == five {
            1nat
        } else if x == ten {
            1nat
        } else {
            0nat
        }) by {
        reveal_with_fuel(count_of, 6);
        if d == 1 {
            assert(seq![unit].drop_first() =~= Seq::<RomanDigit>::empty());
        } else if d == 2 {
            assert(seq![unit, unit].drop_first() =~= seq![unit]);
            assert(seq![unit].drop_first() =~= Seq::<RomanDigit>::empty());
        } else if d == 3 {
            assert(seq![unit, unit, unit].drop_first() =~= seq![unit, unit]);
            assert(seq![unit, unit].drop_first() =~= seq![unit]);
            assert(seq![unit].drop_first() =~= Seq::<RomanDigit>::empty());
        } else if d == 4 {
            assert(seq![unit, five].drop_first() =~= seq![five]);
            assert(seq![five].drop_first() =~= Seq::<RomanDigit>::empty());
        } else if d == 5 {
            assert(seq![five].drop_first() =~= Seq::<RomanDigit>::empty());
        } else if d == 6 {
            assert(seq![five, unit].drop_first() =~= seq![unit]);
            assert(seq![unit].drop_first() =~= Seq::<RomanDigit>::empty());
        } else if d == 7 {
            assert(seq![five, unit, unit].drop_first() =~= seq![unit, unit]);
            assert(seq![unit, unit].drop_first() =~= seq![unit]);
            assert(seq![unit].drop_first() =~= Seq::<RomanDigit>::empty());
        } else if d == 8 {
            assert(seq![five, unit, unit, unit].drop_first() =~= seq![unit, unit, unit]);
            assert(seq![unit, unit, unit].drop_first() =~= seq![unit, unit]);
            assert(seq![unit, unit].drop_first() =~= seq![unit]);
            assert(seq![unit].drop_first() =~= Seq::<RomanDigit>::empty());
        } else if d == 9 {
            assert(seq![unit, ten].drop_first() =~= seq![ten]);
            assert(seq![ten].drop_first() =~= Seq::<RomanDigit>::empty());
        }
    }
}

/// The canonical encoding of any value below four thousand repeats no
/// symbol beyond its bound: at most three `I`, four `X`, four `C`,
/// and one each of `V`, `L` and `D`.
pub proof fn lemma_repetition_bounds(n: int)
    requires
        0 <= n < 4000,
    ensures
        count_of(encoded(n), RomanDigit::I) <= 3,
        count_of(encoded(n), RomanDigit::X) <= 4,
        count_of(encoded(n), RomanDigit::C) <= 4,
        count_of(encoded(n), RomanDigit::V) <= 1,
        count_of(encoded(n), RomanDigit::L) <= 1,
        count_of(encoded(n), RomanDigit::D) <= 1,
{
    let th = thousands_seq(n);
    let h = digit_seq(digit_at(n, 100), RomanDigit::C, RomanDigit::D, RomanDigit::M);
    let t = digit_seq(digit_at(n, 10), RomanDigit::X, RomanDigit::L, RomanDigit::C);
    let o = digit_seq(digit_at(n, 1), RomanDigit::I, RomanDigit::V, RomanDigit::X);
    lemma_digit_breakdown(n);
    lemma_count_append(th, h);
    lemma_count_append(th + h, t);
    lemma_count_append(th + h + t, o);
    lemma_count_thousands((n / 1000) as nat, RomanDigit::I);
    lemma_count_thousands((n / 1000) as nat, RomanDigit::X);
    lemma_count_thousands((n / 1000) as nat, RomanDigit::C);
    lemma_count_thousands((n / 1000) as nat, RomanDigit::V);
    lemma_count_thousands((n / 1000) as nat, RomanDigit::L);
    lemma_count_thousands((n / 1000) as nat, RomanDigit::D);
    lemma_count_digit_seq(digit_at(n, 100), RomanDigit::C, RomanDigit::D, RomanDigit::M);
    lemma_count_digit_seq(digit_at(n, 10), RomanDigit::X, RomanDigit::L, RomanDigit::C);
    lemma_count_digit_seq(digit_at(n, 1), RomanDigit::I, RomanDigit::V, RomanDigit::X);
}

/// Every symbol of one place's contribution is from its triad; when
/// the contribution is not empty it begins with the unit or the
/// "five" symbol, never the "ten".
proof fn lemma_digit_seq_elems(d: int, unit: RomanDigit, five: RomanDigit, ten: RomanDigit)
    ensures
        forall|i: int|
            0 <= i < digit_seq(d, unit, five, ten).len() ==> (#[trigger] digit_seq(
                d,
                unit,
                five,
                ten,
            )[i] == unit || digit_seq(d, unit, five, ten)[i] == five || digit_seq(
                d,
                unit,
                five,
                ten,
            )[i] == ten),
        digit_seq(d, unit, five, ten).len() > 0 ==> (digit_seq(d, unit, five, ten)[0] == unit
            || digit_seq(d, unit, five, ten)[0] == five),
{
}

/// The canonical encoding begins with `M` exactly for values of a
/// thousand or more.
pub proof fn lemma_thousands_presence(n: int)
    requires
        n >= 0,
    ensures
        (encoded(n).len() > 0 && encoded(n)[0] == RomanDigit::M) <==> n >= 1000,
{
    let th = thousands_seq(n);
    let h = digit_seq(digit_at(n, 100), RomanDigit::C, RomanDigit::D, RomanDigit::M);
    let t = digit_seq(digit_at(n, 10), RomanDigit::X, RomanDigit::L, RomanDigit::C);
    let o = digit_seq(digit_at(n, 1), RomanDigit::I, RomanDigit::V, RomanDigit::X);
    assert(n >= 1000 ==> n / 1000 >= 1 && n < 1000 ==> n / 1000 == 0) by (nonlinear_arith)
        requires
            n >= 0,
    ;
    lemma_digit_seq_elems(digit_at(n, 100), RomanDigit::C, RomanDigit::D, RomanDigit::M);
    lemma_digit_seq_elems(digit_at(n, 10), RomanDigit::X, RomanDigit::L, RomanDigit::C);
    lemma_digit_seq_elems(digit_at(n, 1), RomanDigit::I, RomanDigit::V, RomanDigit::X);
    if n >= 1000 {
        assert(th.len() >= 1);
        assert(encoded(n)[0] == th[0]);
    } else {
        assert(th.len() == 0);
        if encoded(n).len() > 0 {
            if h.len() > 0 {
                assert(encoded(n)[0] == h[0]);
            } else if t.len() > 0 {
                assert(encoded(n)[0] == t[0]);
            } else {
                assert(encoded(n)[0] == o[0]);
            }
            assert(encoded(n)[0] != RomanDigit::M);
        }
    }
}

/// Whether symbol `a`, immediately followed by symbol `b`, occurs
/// somewhere in the sequence.
pub open spec fn has_pair(s: Seq<RomanDigit>, a: RomanDigit, b: RomanDigit) -> bool
    decreases s.len(),
{
    if s.len() < 2 {
        false
    } else {
        (s[0] == a && s[1] == b) || has_pair(s.drop_first(), a, b)
    }
}

/// A sequence without `a` holds no pair that starts with `a`.
proof fn lemma_no_pair_without_first(s: Seq<RomanDigit>, a: RomanDigit, b: RomanDigit)
    requires
        forall|i: int| 0 <= i < s.len() ==> s[i] != a,
    ensures
        !has_pair(s, a, b),
    decreases s.len(),
{
    if s.len() >= 2 {
        lemma_no_pair_without_first(s.drop_first(), a, b);
    }
}

/// A sequence without `b` holds no pair that ends with `b`.
proof fn lemma_no_pair_without_second(s: Seq<RomanDigit>, a: RomanDigit, b: RomanDigit)
    requires
        forall|i: int| 0 <= i < s.len() ==> s[i] != b,
    ensures
        !has_pair(s, a, b),
    decreases s.len(),
{
    if s.len() >= 2 {
        lemma_no_pair_without_second(s.drop_first(), a, b);
    }
}

/// A pair in a concatenation lies in one part or straddles the seam.
proof fn lemma_has_pair_append(x: Seq<RomanDigit>, y: Seq<RomanDigit>, a: RomanDigit, b: RomanDigit)
    ensures
        has_pair(x + y, a, b) <==> (has_pair(x, a, b) || has_pair(y, a, b) || (x.len() > 0
            && y.len() > 0 && x.last() == a && y.first() == b)),
    decreases x.len(),
{
    if x.len() == 0 {
        assert(x + y =~= y);
    } else if x.len() == 1 {
        assert((x + y).drop_first() =~= y);
        if (x + y).len() >= 2 {
            assert((x + y)[0] == x[0] && (x + y)[1] == y[0]);
        }
    } else {
        assert((x + y).drop_first() =~= x.drop_first() + y);
        lemma_has_pair_append(x.drop_first(), y, a, b);
        assert((x + y)[0] == x[0] && (x + y)[1] == x[1]);
        assert(x.drop_first()[0] == x[1]);
        assert(x.drop_first().last() == x.last());
    }
}

/// One place's contribution holds its unit directly before its
/// "five" exactly for digit four, and directly before its "ten"
/// exactly for digit nine.
proof fn lemma_digit_seq_pairs(d: int, unit: RomanDigit, five: RomanDigit, ten: RomanDigit)
    requires
        0 <= d < 10,
        unit != five,
        unit != ten,
        five != ten,
    ensures
        has_pair(digit_seq(d, unit, five, ten), unit, five) <==> d == 4,
        has_pair(digit_seq(d, unit, five, ten), unit, ten) <==> d == 9,
{
    let s = digit_seq(d, unit, five, ten);
    reveal_with_fuel(has_pair, 6);
    if d == 2 {
        assert(seq![unit, unit].drop_first() =~= seq![unit]);
    } else if d == 3 {
        assert(seq![unit, unit, unit].drop_first() =~= seq![unit, unit]);
        assert(seq![unit, unit].drop_first() =~= seq![unit]);
    } else if d == 4 {
        assert(s[0] == unit && s[1] == five);
    } else if d == 6 {
        assert(seq![five, unit].drop_first() =~= seq![unit]);
    } else if d == 7 {
        assert(seq![five, unit, unit].drop_first() =~= seq![unit, unit]);
        assert(seq![unit, unit].drop_first() =~= seq![unit]);
    } else if d == 8 {
        assert(seq![five, unit, unit, unit].drop_first() =~= seq![unit, unit, unit]);
        assert(seq![unit, unit, unit].drop_first() =~= seq![unit, unit]);
        assert(seq![unit, unit].drop_first() =~= seq![unit]);
    } else if d == 9 {
        assert(s[0] == unit && s[1] == ten);
        assert(seq![unit, ten].drop_first() =~= seq![ten]);
    }
}

/// The encoding holds `I` directly before `V` exactly for a ones
/// digit of four, and `I` directly before `X` exactly for nine.
proof fn lemma_pairs_ones(n: int)
    requires
        n >= 0,
    ensures
        has_pair(encoded(n), RomanDigit::I, RomanDigit::V) <==> digit_at(n, 1) == 4,
        has_pair(encoded(n), RomanDigit::I, RomanDigit::X) <==> digit_at(n, 1) == 9,
{
    let th = thousands_seq(n);
    let h = digit_seq(digit_at(n, 100), RomanDigit::C, RomanDigit::D, RomanDigit::M);
    let t = digit_seq(digit_at(n, 10), RomanDigit::X, RomanDigit::L, RomanDigit::C);
    let o = digit_seq(digit_at(n, 1), RomanDigit::I, RomanDigit::V, RomanDigit::X);
    lemma_digit_breakdown(n);
    lemma_digit_seq_elems(digit_at(n, 100), RomanDigit::C, RomanDigit::D, RomanDigit::M);
    lemma_digit_seq_elems(digit_at(n, 10), RomanDigit::X, RomanDigit::L, RomanDigit::C);
    lemma_digit_seq_pairs(digit_at(n, 1), RomanDigit::I, RomanDigit::V, RomanDigit::X);
    lemma_has_pair_append(th + h + t, o, RomanDigit::I, RomanDigit::V);
    lemma_has_pair_append(th + h + t, o, RomanDigit::I, RomanDigit::X);
    assert(forall|i: int|
        0 <= i < (th + h + t).len() ==> #[trigger] (th + h + t)[i] != RomanDigit::I);
    lemma_no_pair_without_first(th + h + t, RomanDigit::I, RomanDigit::V);
    lemma_no_pair_without_first(th + h + t, RomanDigit::I, RomanDigit::X);
    assert((th + h + t).len() > 0 ==> (th + h + t).last() != RomanDigit::I);
}

/// The encoding holds `X` directly before `L` exactly for a tens
/// digit of four, and `X` directly before `C` exactly for nine.
proof fn lemma_pairs_tens(n: int)
    requires
        n >= 0,
    ensures
        has_pair(encoded(n), RomanDigit::X, RomanDigit::L) <==> digit_at(n, 10) == 4,
        has_pair(encoded(n), RomanDigit::X, RomanDigit::C) <==> digit_at(n, 10) == 9,
{
    let th = thousands_seq(n);
    let h = digit_seq(digit_at(n, 100), RomanDigit::C, RomanDigit::D, RomanDigit::M);
    let t = digit_seq(digit_at(n, 10), RomanDigit::X, RomanDigit::L, RomanDigit::C);
    let o = digit_seq(digit_at(n, 1), RomanDigit::I, RomanDigit::V, RomanDigit::X);
    lemma_digit_breakdown(n);
    lemma_digit_seq_elems(digit_at(n, 100), RomanDigit::C, RomanDigit::D, RomanDigit::M);
    lemma_digit_seq_elems(digit_at(n, 1), RomanDigit::I, RomanDigit::V, RomanDigit::X);
    lemma_digit_seq_pairs(digit_at(n, 10), RomanDigit::X, RomanDigit::L, RomanDigit::C);
    lemma_has_pair_append(th + h + t, o, RomanDigit::X, RomanDigit::L);
    lemma_has_pair_append(th + h + t, o, RomanDigit::X, RomanDigit::C);
    lemma_has_pair_append(th + h, t, RomanDigit::X, RomanDigit::L);
    lemma_has_pair_append(th + h, t, RomanDigit::X, RomanDigit::C);
    assert(forall|i: int| 0 <= i < (th + h).len() ==> #[trigger] (th + h)[i] != RomanDigit::X);
    lemma_no_pair_without_first(th + h, RomanDigit::X, RomanDigit::L);
    lemma_no_pair_without_first(th + h, RomanDigit::X, RomanDigit::C);
    assert((th + h).len() > 0 ==> (th + h).last() != RomanDigit::X);
    assert(forall|i: int|
        0 <= i < o.len() ==> #[trigger] o[i] != RomanDigit::L && o[i] != RomanDigit::C);
    lemma_no_pair_without_second(o, RomanDigit::X, RomanDigit::L);
    lemma_no_pair_without_second(o, RomanDigit::X, RomanDigit::C);
    assert(o.len() > 0 ==> o.first() != RomanDigit::L && o.first() != RomanDigit::C);
}

/// The encoding holds `C` directly before `D` exactly for a hundreds
/// digit of four, and `C` directly before `M` exactly for nine.
proof fn lemma_pairs_hundreds(n: int)
    requires
        n >= 0,
    ensures
        has_pair(encoded(n), RomanDigit::C, RomanDigit::D) <==> digit_at(n, 100) == 4,
        has_pair(encoded(n), RomanDigit::C, RomanDigit::M) <==> digit_at(n, 100) == 9,
{
    let th = thousands_seq(n);
    let h = digit_seq(digit_at(n, 100), RomanDigit::C, RomanDigit::D, RomanDigit::M);
    let t = digit_seq(digit_at(n, 10), RomanDigit::X, RomanDigit::L, RomanDigit::C);
    let o = digit_seq(digit_at(n, 1), RomanDigit::I, RomanDigit::V, RomanDigit::X);
    lemma_digit_breakdown(n);
    lemma_digit_seq_elems(digit_at(n, 10), RomanDigit::X, RomanDigit::L, RomanDigit::C);
    lemma_digit_seq_elems(digit_at(n, 1), RomanDigit::I, RomanDigit::V, RomanDigit::X);
    lemma_digit_seq_pairs(digit_at(n, 100), RomanDigit::C, RomanDigit::D, RomanDigit::M);
    lemma_has_pair_append(th + h + t, o, RomanDigit::C, RomanDigit::D);
    lemma_has_pair_append(th + h + t, o, RomanDigit::C, RomanDigit::M);
    lemma_has_pair_append(th + h, t, RomanDigit::C, RomanDigit::D);
    lemma_has_pair_append(th + h, t, RomanDigit::C, RomanDigit::M);
    lemma_has_pair_append(th, h, RomanDigit::C, RomanDigit::D);
    lemma_has_pair_append(th, h, RomanDigit::C, RomanDigit::M);
    assert(forall|i: int| 0 <= i < th.len() ==> #[trigger] th[i] == RomanDigit::M);
    lemma_no_pair_without_first(th, RomanDigit::C, RomanDigit::D);
    lemma_no_pair_without_first(th, RomanDigit::C, RomanDigit::M);
    assert(th.len() > 0 ==> th.last() != RomanDigit::C);
    assert(forall|i: int|
        0 <= i < t.len() ==> #[trigger] t[i] != RomanDigit::D && t[i] != RomanDigit::M);
    lemma_no_pair_without_second(t, RomanDigit::C, RomanDigit::D);
    lemma_no_pair_without_second(t, RomanDigit::C, RomanDigit::M);
    assert(t.len() > 0 ==> t.first() != RomanDigit::D && t.first() != RomanDigit::M);
    assert(forall|i: int|
        0 <= i < o.len() ==> #[trigger] o[i] != RomanDigit::C && o[i] != RomanDigit::D && o[i]
            != RomanDigit::M);
    lemma_no_pair_without_first(o, RomanDigit::C, RomanDigit::D);
    lemma_no_pair_without_first(o, RomanDigit::C, RomanDigit::M);
    assert(o.len() > 0 ==> o.first() != RomanDigit::D && o.first() != RomanDigit::M);
}

/// A subtractive pair stands in the encoding exactly when its place's
/// digit calls for it: the unit before the "five" for digit four, and
/// the unit before the "ten" for digit nine, in each of the ones,
/// tens and hundreds places.
pub proof fn lemma_subtractive_pairs(n: int)
    requires
        n >= 0,
    ensures
        has_pair(encoded(n), RomanDigit::I, RomanDigit::V) <==> digit_at(n, 1) == 4,
        has_pair(encoded(n), RomanDigit::I, RomanDigit::X) <==> digit_at(n, 1) == 9,
        has_pair(encoded(n), RomanDigit::X, RomanDigit::L) <==> digit_at(n, 10) == 4,
        has_pair(encoded(n), RomanDigit::X, RomanDigit::C) <==> digit_at(n, 10) == 9,
        has_pair(encoded(n), RomanDigit::C, RomanDigit::D) <==> digit_at(n, 100) == 4,
        has_pair(encoded(n), RomanDigit::C, RomanDigit::M) <==> digit_at(n, 100) == 9,
{
    lemma_pairs_ones(n);
    lemma_pairs_tens(n);
    lemma_pairs_hundreds(n);
}

/// Any non-negative integer is the sum of its whole thousands and its
/// hundreds, tens and ones digits, each weighted by its place.
proof fn lemma_digit_breakdown(n: int)
    requires
        n >= 0,
    ensures
        n == 1000 * (n / 1000) + 100 * digit_at(n, 100) + 10 * digit_at(n, 10) + digit_at(n, 1),
        0 <= digit_at(n, 100) < 10,
        0 <= digit_at(n, 10) < 10,
        0 <= digit_at(n, 1) < 10,
        n / 1000 >= 0,
{
    assert(n == 1000 * (n / 1000) + 100 * ((n % 1000) / 100) + 10 * ((n % 100) / 10) + n % 10
        && 0 <= (n % 1000) / 100 < 10 && 0 <= (n % 100) / 10 < 10 && 0 <= n % 10 < 10 && n / 1000
        >= 0) by (nonlinear_arith)
        requires
            n >= 0,
    ;
}

/// Encoding and evaluation are inverse: the canonical numeral of any
/// non-negative integer evaluates back to exactly that integer.
pub proof fn lemma_round_trip(n: int)
    requires
        n >= 0,
    ensures
        decimal_value(encoded(n)) == n,
{
    let th = thousands_seq(n);
    let h = digit_seq(digit_at(n, 100), RomanDigit::C, RomanDigit::D, RomanDigit::M);
    let t = digit_seq(digit_at(n, 10), RomanDigit::X, RomanDigit::L, RomanDigit::C);
    let o = digit_seq(digit_at(n, 1), RomanDigit::I, RomanDigit::V, RomanDigit::X);
    lemma_digit_breakdown(n);
    lemma_fold_pair_append(th, h, 0, 0);
    lemma_fold_pair_append(th + h, t, 0, 0);
    lemma_fold_pair_append(th + h + t, o, 0, 0);
    lemma_fold_thousands((n / 1000) as nat, 0, 0);
    let f1 = fold_pair(th, 0, 0);
    lemma_fold_place(digit_at(n, 100), RomanDigit::C, RomanDigit::D, RomanDigit::M, f1.0, f1.1);
    let f2 = fold_pair(th + h, 0, 0);
    lemma_fold_place(digit_at(n, 10), RomanDigit::X, RomanDigit::L, RomanDigit::C, f2.0, f2.1);
    let f3 = fold_pair(th + h + t, 0, 0);
    lemma_fold_place(digit_at(n, 1), RomanDigit::I, RomanDigit::V, RomanDigit::X, f3.0, f3.1);
}

/// An ordered sequence of Roman symbols. The encoder only ever builds
/// canonical sequences, but any sequence may be held and evaluated.
#[derive(Debug)]
pub struct RomanNumber {
    pub roman_digits: Vec<RomanDigit>,
}

impl View for RomanNumber {
    type V = Seq<RomanDigit>;

    open spec fn view(&self) -> Seq<RomanDigit> {
        self.roman_digits@
    }
}

impl PartialEq for RomanNumber {
    /// Two numerals are equal when they hold the same symbols in the
    /// same order.
    fn eq(&self, other: &RomanNumber) -> (r: bool) {
        let n = self.roman_digits.len();
        if n != other.roman_digits.len() {
            return false;
        }
        let mut i: usize = 0;
        while i < n
            invariant
                i <= n,
                n == self@.len(),
                n == other@.len(),
                forall|j: int| 0 <= j < i ==> self@[j] == other@[j],
            decreases n - i,
        {
            if self.roman_digits[i] != other.roman_digits[i] {
                return false;
            }
            i = i + 1;
        }
        proof {
            assert(self@ =~= other@);
        }
        true
    }
}

impl vstd::std_specs::cmp::PartialEqSpecImpl for RomanNumber {
    open spec fn obeys_eq_spec() -> bool {
        true
    }

    open spec fn eq_spec(&self, other: &RomanNumber) -> bool {
        self@ == other@
    }
}

impl RomanNumber {
    /// A numeral holding exactly the given symbols, in order.
    pub fn new(roman_digits: Vec<RomanDigit>) -> (r: RomanNumber)
        ensures
            r@ == roman_digits@,
    {
        RomanNumber { roman_digits }
    }

    /// The canonical numeral of a non-negative integer.
    pub fn from_decimal(integer: usize) -> (r: RomanNumber)
        ensures
            r@ == encoded(integer as int),
    {
        let mut result = Vec::new();

        let mut thousands = RomanNumber::convert_thousands_digit(integer);
        let mut hundreds = RomanNumber::convert_digit(
            integer,
            100,
            RomanDigit::C,
            RomanDigit::D,
            RomanDigit::M,
        );
        let mut tens = RomanNumber::convert_digit(
            integer,
            10,
            RomanDigit::X,
            RomanDigit::L,
            RomanDigit::C,
        );
        let mut ones = RomanNumber::convert_digit(
            integer,
            1,
            RomanDigit::I,
            RomanDigit::V,
            RomanDigit::X,
        );
        result.append(&mut thousands);
        result.append(&mut hundreds);
        result.append(&mut tens);
        result.append(&mut ones);

        RomanNumber { roman_digits: result }
    }

    /// The numeral a text names: every character parsed as a symbol,
    /// input order kept; on the first character that names no
    /// symbol, the error holding that character uppercased.
    pub fn from_str(s: &str) -> (r: Result<RomanNumber, ParseRomanDigitError>)
        ensures
            match r {
                Ok(rn) => all_valid(s@) && rn@ == parsed_digits(s@),
                Err(e) => exists|i: int|
                    #[trigger] is_first_invalid(s@, i) && e.wrong_string@ == seq![
                        upper_char(s@[i]),
                    ],
            },
    {
        let len = s.unicode_len();
        let mut roman_digits: Vec<RomanDigit> = Vec::new();
        let mut i: usize = 0;
        while i < len
            invariant
                i <= len,
                len == s@.len(),
                forall|j: int| 0 <= j < i ==> symbol_of_char(s@[j]) is Some,
                roman_digits@ =~= parsed_digits(s@).take(i as int),
            decreases len - i,
        {
            let c = s.get_char(i);
            match RomanDigit::from_char(c) {
                Ok(d) => {
                    roman_digits.push(d);
                },
                Err(e) => {
                    proof {
                        assert(is_first_invalid(s@, i as int));
                    }
                    return Err(e);
                },
            }
            i = i + 1;
        }
        proof {
            assert(parsed_digits(s@).take(len as int) =~= parsed_digits(s@));
        }
        Ok(RomanNumber { roman_digits })
    }

    /// The text of the numeral: each symbol's uppercase character,
    /// in sequence order.
    pub fn render(&self) -> (s: String)
        ensures
            s@ == rendered(self@),
    {
        let mut s = String::new();
        let n = self.roman_digits.len();
        let mut i: usize = 0;
        while i < n
            invariant
                i <= n,
                n == self@.len(),
                s@ =~= rendered(self@).take(i as int),
            decreases n - i,
        {
            s.append(self.roman_digits[i].render());
            i = i + 1;
        }
        proof {
            assert(rendered(self@).take(n as int) =~= rendered(self@));
        }
        s
    }

    /// The thousands part: one `M` per whole thousand of `integer`.
    fn convert_thousands_digit(integer: usize) -> (r: Vec<RomanDigit>)
        ensures
            r@ == thousands_seq(integer as int),
    {
        let count = integer / 1000;
        let mut result: Vec<RomanDigit> = Vec::new();
        let mut i: usize = 0;
        while i < count
            invariant
                i <= count,
                result@ =~= Seq::new(i as nat, |j: int| RomanDigit::M),
            decreases count - i,
        {
            result.push(RomanDigit::M);
            i = i + 1;
        }
        proof {
            assert(result@ =~= thousands_seq(integer as int));
        }
        result
    }

    /// The integer this numeral evaluates to, by the subtractive-pair
    /// fold. The evaluation is lenient: any symbol sequence is given
    /// a value, well formed or not.
    pub fn to_decimal(&self) -> (r: usize)
        requires
            decimal_value(self@) <= usize::MAX,
        ensures
            r == decimal_value(self@),
    {
        let ghost full = self@;
        proof {
            assert(full.skip(0) =~= full);
        }
        let mut total: usize = 0;
        let mut pending: usize = 0;
        let n = self.roman_digits.len();
        let mut i: usize = 0;
        while i < n
            invariant
                i <= n,
                n == full.len(),
                self@ == full,
                fold_pair(full, 0, 0) == fold_pair(full.skip(i as int), total as int, pending as int),
                pending == 0 || is_symbol_value(pending as int),
                decimal_value(full) <= usize::MAX,
            decreases n - i,
        {
            let elem_int = self.roman_digits[i].to_int();
            proof {
                assert(full.skip(i as int).drop_first() =~= full.skip(i as int + 1));
                assert(full.skip(i as int)[0] == full[i as int]);
                let next = fold_step(total as int, pending as int, elem_int as int);
                lemma_fold_pair_ge(full.skip(i as int + 1), next.0, next.1);
            }
            if pending == 0 {
                pending = elem_int;
            } else if pending < elem_int {
                total = total + (elem_int - pending);
                pending = 0;
            } else {
                total = total + pending;
                pending = elem_int;
            }
            i = i + 1;
        }
        proof {
            assert(full.skip(n as int) =~= Seq::empty());
        }
        total + pending
    }

    /// The symbols of one decimal digit of `integer`, from the triad
    /// of its place.
    fn convert_digit(
        integer: usize,
        place: usize,
        first: RomanDigit,
        second: RomanDigit,
        third: RomanDigit,
    ) -> (r: Vec<RomanDigit>)
        requires
            0 < place,
            10 * place <= usize::MAX,
        ensures
            r@ == digit_seq(digit_at(integer as int, place as int), first, second, third),
    {
        let digit = get_digit_at(integer, place);

        match digit {
            0 => Vec::new(),
            1 => vec![first],
            2 => vec![first, first],
            3 => vec![first, first, first],
            4 => vec![first, second],
            5 => vec![second],
            6 => vec![second, first],
            7 => vec![second, first, first],
            8 => vec![second, first, first, first],
            9 => vec![first, third],
            _ => Vec::new(),
        }
    }
}

} // verus!

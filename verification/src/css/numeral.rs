//! Numerals: the text of a number as it is written in a stylesheet, and the
//! decimal text that it is rendered as.
//!
//! A numeral is a run of digits and points. Its value is taken exactly, as a
//! decimal fraction, and never rounded.

use crate::text::{
    ascii_digit, chars_of, leading_end, lemma_run_end, run_end, slice, string_from,
    trailing_begin, without_leading, without_trailing, CharClass,
};
use vstd::prelude::*;
use vstd::string::StringExecFns;

verus! {

/// The part of a numeral before its first point.
pub open spec fn whole_part(s: Seq<char>) -> Seq<char> {
    s.subrange(0, run_end(s, 0, CharClass::Except('.')))
}

/// The part of a numeral behind its first point; empty where it has none.
pub open spec fn fraction_part(s: Seq<char>) -> Seq<char> {
    let point = run_end(s, 0, CharClass::Except('.'));
    if point < s.len() {
        s.subrange(point + 1, s.len() as int)
    } else {
        Seq::empty()
    }
}

/// Whether every character of `s` is a digit.
pub open spec fn all_digits(s: Seq<char>) -> bool {
    forall|i: int| 0 <= i < s.len() ==> ascii_digit(#[trigger] s[i])
}

/// Whether `s` denotes a number: digits with at most one point among them,
/// and at least one digit.
pub open spec fn is_decimal(s: Seq<char>) -> bool {
    all_digits(whole_part(s)) && all_digits(fraction_part(s)) && whole_part(s).len()
        + fraction_part(s).len() > 0
}

/// The decimal text of the number that the numeral `s` denotes: its digits
/// without the zeros that do not count, and a point only before a fraction
/// that is not zero. What denotes no number counts as zero.
pub open spec fn decimal_text(s: Seq<char>) -> Seq<char> {
    if !is_decimal(s) {
        seq!['0']
    } else {
        let whole = without_leading(whole_part(s), CharClass::Only('0'));
        let fraction = without_trailing(fraction_part(s), CharClass::Only('0'));
        let units = if whole.len() == 0 {
            seq!['0']
        } else {
            whole
        };
        if fraction.len() == 0 {
            units
        } else {
            units + seq!['.'] + fraction
        }
    }
}

/// Renders the numeral as the decimal text of its number.
pub fn to_decimal_text(numeral: &str) -> (text: String)
    ensures
        text@ == decimal_text(numeral@),
{
    let chars = chars_of(numeral);
    let point = leading_end(&chars, 0, CharClass::Except('.'));
    let whole = slice(&chars, 0, point);
    let fraction = if point < chars.len() {
        slice(&chars, point + 1, chars.len())
    } else {
        Vec::new()
    };
    let whole_digits = leading_end(&whole, 0, CharClass::Digit);
    let fraction_digits = leading_end(&fraction, 0, CharClass::Digit);
    proof {
        lemma_run_end(whole@, 0, CharClass::Digit);
        lemma_run_end(fraction@, 0, CharClass::Digit);
    }
    if whole_digits < whole.len() || fraction_digits < fraction.len() || (whole.len() == 0
        && fraction.len() == 0) {
        let mut zero = String::new();
        zero.push('0');
        return zero;
    }
    let first = leading_end(&whole, 0, CharClass::Only('0'));
    let last = trailing_begin(&fraction, CharClass::Only('0'));
    let mut text = if first == whole.len() {
        let mut zero = String::new();
        zero.push('0');
        zero
    } else {
        string_from(&whole, first, whole.len())
    };
    if last > 0 {
        text.push('.');
        let digits = string_from(&fraction, 0, last);
        text.append(digits.as_str());
    }
    text
}

} // verus!

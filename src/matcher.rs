//! The two precompiled patterns the scanner uses to recognise numerals.
use regex::Regex;
use vstd::prelude::*;

verus! {

#[verifier::external_type_specification]
#[verifier::external_body]
pub struct ExRegex(Regex);

/// A decimal digit of ASCII. Numerals are ASCII digits only, by choice: a
/// repeat count is read as a decimal number, which only these digits spell.
pub open spec fn is_ascii_digit(c: char) -> bool {
    '0' <= c && c <= '9'
}

/// The text begins with `0` followed by one or more further digits.
pub open spec fn starts_with_leading_zero(s: Seq<char>) -> bool {
    s.len() >= 2 && s[0] == '0' && is_ascii_digit(s[1])
}

/// The number of digits at the start of `s` from index `i` on.
pub open spec fn digit_run(s: Seq<char>, i: int) -> nat
    decreases s.len() - i,
{
    if 0 <= i < s.len() && is_ascii_digit(s[i]) {
        1 + digit_run(s, i + 1)
    } else {
        0
    }
}

pub proof fn lemma_digit_run_bound(s: Seq<char>, i: int)
    requires
        0 <= i <= s.len(),
    ensures
        digit_run(s, i) <= s.len() - i,
    decreases s.len() - i,
{
    if i < s.len() && is_ascii_digit(s[i]) {
        lemma_digit_run_bound(s, i + 1);
    }
}

/// A numeral at the start of `s` fits in `s`.
pub proof fn lemma_numeral_prefix_bound(s: Seq<char>)
    ensures
        numeral_prefix_len(s) <= s.len(),
{
    lemma_digit_run_bound(s, 0);
}

/// The length of the numeral at the start of `s`, or 0 where there is none:
/// a nonzero digit and all the digits that follow it, or else a lone `0`.
pub open spec fn numeral_prefix_len(s: Seq<char>) -> nat {
    if s.len() == 0 || !is_ascii_digit(s[0]) {
        0
    } else if s[0] == '0' {
        1
    } else {
        digit_run(s, 0)
    }
}

/// Matches a `0` followed by further digits at the start of the text.
const LEADING_ZERO_PATTERN: &'static str = r"^0[0-9]+";

/// Matches a nonzero digit followed by any digits, or else a single digit, at
/// the start of the text.
const NUMERAL_PATTERN: &'static str = r"^[1-9][0-9]*|^[0-9]";

/// The scanner's two compiled patterns. The fields are private and set only by
/// `Matchers::new`, so each always holds the pattern its name says.
pub(crate) struct Matchers {
    leading_zero: Regex,
    numeral: Regex,
}

impl Matchers {
    /// Relies on regex::Regex::new: both patterns are valid, so each compiles.
    #[verifier::external_body]
    pub(crate) fn new() -> (r: Matchers) {
        Matchers {
            leading_zero: Regex::new(LEADING_ZERO_PATTERN).unwrap(),
            numeral: Regex::new(NUMERAL_PATTERN).unwrap(),
        }
    }

    /// Relies on regex::Regex::is_match: the anchored pattern `^0[0-9]+`
    /// matches exactly when the text begins with `0` and another digit.
    #[verifier::external_body]
    pub(crate) fn has_leading_zero(&self, s: &str) -> (r: bool)
        ensures
            r == starts_with_leading_zero(s@),
    {
        self.leading_zero.is_match(s)
    }

    /// Relies on regex::Regex::find and regex::Match::end: the anchored pattern
    /// `^[1-9][0-9]*|^[0-9]` takes its first alternative greedily where it
    /// applies, and the match holds ASCII digits only, so its byte end is its
    /// length in characters.
    #[verifier::external_body]
    pub(crate) fn numeral_len(&self, s: &str) -> (r: Option<usize>)
        ensures
            match r {
                Some(k) => k > 0 && k == numeral_prefix_len(s@),
                None => numeral_prefix_len(s@) == 0,
            },
    {
        self.numeral.find(s).map(|m| m.end())
    }
}

} // verus!

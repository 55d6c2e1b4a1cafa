//! The stored high score: reading it back from its text.
use vstd::prelude::*;

verus! {

/// What `str::trim` makes of a text: the text without the white space at
/// its two ends.
pub uninterp spec fn trimmed(text: Seq<char>) -> Seq<char>;

/// What `str::parse::<u32>` makes of a text: the number that the text
/// writes in decimal digits, where it is one that a `u32` can hold.
pub uninterp spec fn parsed_u32(text: Seq<char>) -> Option<u32>;

/// The high score that a stored text stands for.
pub open spec fn high_score_in(text: Seq<char>) -> u32 {
    high_score_from(parsed_u32(trimmed(text)))
}

/// The high score, given what was read as a number: that number, and zero
/// where none was read.
pub open spec fn high_score_from(number: Option<u32>) -> u32 {
    match number {
        Some(score) => score,
        None => 0,
    }
}

/// `str::trim`: the text without leading and trailing white space.
#[verifier::external_body]
fn trim_text(text: &str) -> (inner: &str)
    ensures
        inner@ == trimmed(text@),
{
    text.trim()
}

/// `str::parse::<u32>`: the number that the text writes, or `None` where
/// the text is not the decimal form of a `u32`.
#[verifier::external_body]
fn parse_number(text: &str) -> (number: Option<u32>)
    ensures
        number == parsed_u32(text@),
{
    text.parse::<u32>().ok()
}

/// The high score, given what was read as a number.
pub fn high_score_or_zero(number: Option<u32>) -> (score: u32)
    ensures
        score == high_score_from(number),
{
    match number {
        Some(score) => score,
        None => 0,
    }
}

/// The high score that a stored text stands for: the number in the text,
/// white space at its ends apart, and zero where the text holds no number.
pub fn parse_high_score(content: &str) -> (score: u32)
    ensures
        score == high_score_in(content@),
{
    high_score_or_zero(parse_number(trim_text(content)))
}

} // verus!

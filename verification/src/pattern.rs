//! Regular-expression matching, delegated to the `regex` crate.
//!
//! Matches are reported as character positions in the searched text.

use vstd::prelude::*;

verus! {

/// The capture groups of every successive non-overlapping match of
/// `pattern` in `text`, each group as a character span or absent; no match
/// at all when `pattern` is not a valid expression.
pub uninterp spec fn regex_captures(pattern: Seq<char>, text: Seq<char>) -> Seq<Seq<Option<(usize, usize)>>>;

/// Whether `pattern` is a valid expression that matches somewhere in
/// `text`.
pub uninterp spec fn regex_is_match(pattern: Seq<char>, text: Seq<char>) -> bool;

pub open spec fn capture_views(c: Seq<Vec<Option<(usize, usize)>>>) -> Seq<Seq<Option<(usize, usize)>>> {
    Seq::new(c.len(), |i: int| c[i]@)
}

/// Every span lies within a text of `n` characters.
pub open spec fn spans_within(c: Seq<Seq<Option<(usize, usize)>>>, n: nat) -> bool {
    forall|i: int, j: int|
        0 <= i < c.len() && 0 <= j < c[i].len() ==> (#[trigger] c[i][j] matches Some((s, e)) ==> s <= e <= n)
}

/// `regex::Regex::new` and `Regex::captures_iter`: lists the capture groups
/// of every match of `pattern` in `text` with their byte offsets turned into
/// character positions (nothing when the pattern does not compile). Spans
/// lie within the text and start before they end.
#[verifier::external_body]
pub fn captures(pattern: &str, text: &str) -> (r: Vec<Vec<Option<(usize, usize)>>>)
    ensures
        capture_views(r@) == regex_captures(pattern@, text@),
        spans_within(capture_views(r@), text@.len()),
{
    let re = match regex::Regex::new(pattern) {
        Ok(re) => re,
        Err(_) => return Vec::new(),
    };
    let at = |offset: usize| text[..offset].chars().count();
    re.captures_iter(text).map(|caps| caps.iter().map(|g| g.map(|m| (at(m.start()), at(m.end())))).collect())
        .collect()
}

/// `regex::Regex::new` and `Regex::is_match`: whether `pattern` matches
/// somewhere in `text` (false when the pattern does not compile).
#[verifier::external_body]
pub fn is_match(pattern: &str, text: &str) -> (r: bool)
    ensures
        r == regex_is_match(pattern@, text@),
{
    match regex::Regex::new(pattern) {
        Ok(re) => re.is_match(text),
        Err(_) => false,
    }
}

/// The message of the error building `pattern` (case-insensitive when
/// asked) reports, or none when it builds.
pub uninterp spec fn regex_build_error(pattern: Seq<char>, case_insensitive: bool) -> Option<Seq<char>>;

/// The character spans of the successive non-overlapping matches of
/// `pattern` (case-insensitive when asked) in `text`; none when the
/// pattern does not build.
pub uninterp spec fn regex_find_spans(pattern: Seq<char>, case_insensitive: bool, text: Seq<char>) -> Seq<(usize, usize)>;

/// Whether `pattern` (case-insensitive when asked) builds and matches
/// somewhere in `text`.
pub uninterp spec fn regex_matches(pattern: Seq<char>, case_insensitive: bool, text: Seq<char>) -> bool;

/// A character that has a meaning in a regular expression.
pub open spec fn is_meta_character(c: char) -> bool {
    c == '\\' || c == '.' || c == '+' || c == '*' || c == '?' || c == '(' || c == ')' || c == '|'
        || c == '[' || c == ']' || c == '{' || c == '}' || c == '^' || c == '$' || c == '#' || c == '&'
        || c == '-' || c == '~'
}

/// `text` with a backslash before every meta character.
pub open spec fn escaped(text: Seq<char>) -> Seq<char>
    decreases text.len(),
{
    if text.len() == 0 {
        seq![]
    } else {
        escaped(text.drop_last()) + if is_meta_character(text.last()) {
            seq!['\\', text.last()]
        } else {
            seq![text.last()]
        }
    }
}

/// `regex::escape`: puts a backslash before each of the characters
/// `\ . + * ? ( ) | [ ] { } ^ $ # & - ~` and copies the others.
#[verifier::external_body]
pub fn escape(text: &str) -> (r: String)
    ensures
        r@ == escaped(text@),
{
    regex::escape(text)
}

/// `regex::RegexBuilder::new(pattern).case_insensitive(..).build()`: the
/// error's message when the pattern does not build.
#[verifier::external_body]
pub fn build_error(pattern: &str, case_insensitive: bool) -> (r: Option<String>)
    ensures
        match r {
            Some(m) => regex_build_error(pattern@, case_insensitive) == Some(m@),
            None => regex_build_error(pattern@, case_insensitive) is None,
        },
{
    match regex::RegexBuilder::new(pattern).case_insensitive(case_insensitive).build() {
        Ok(_) => None,
        Err(error) => Some(format!("{error}")),
    }
}

/// `RegexBuilder::build` and `Regex::find_iter`: the spans of the
/// successive matches, with byte offsets turned into character positions;
/// each span starts no later than it ends and lies within the text.
#[verifier::external_body]
pub fn find_spans(pattern: &str, case_insensitive: bool, text: &str) -> (r: Vec<(usize, usize)>)
    ensures
        r@ == regex_find_spans(pattern@, case_insensitive, text@),
        forall|i: int| 0 <= i < r@.len() ==> (#[trigger] r@[i]).0 <= r@[i].1 <= text@.len(),
{
    let re = match regex::RegexBuilder::new(pattern).case_insensitive(case_insensitive).build() {
        Ok(re) => re,
        Err(_) => return Vec::new(),
    };
    let at = |offset: usize| text[..offset].chars().count();
    re.find_iter(text).map(|m| (at(m.start()), at(m.end()))).collect()
}

/// `RegexBuilder::build` and `Regex::is_match`: whether the pattern
/// matches somewhere in `text` (false when it does not build).
#[verifier::external_body]
pub fn matches_text(pattern: &str, case_insensitive: bool, text: &str) -> (r: bool)
    ensures
        r == regex_matches(pattern@, case_insensitive, text@),
{
    match regex::RegexBuilder::new(pattern).case_insensitive(case_insensitive).build() {
        Ok(re) => re.is_match(text),
        Err(_) => false,
    }
}

} // verus!

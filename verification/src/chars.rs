//! Character classes the transform is built on: the skippable (kana/filler)
//! set, line-break characters, and whitespace for trimming.

use vstd::prelude::*;
use vstd::string::StrSliceExecFns;

verus! {

/// A character a furigana filler line may consist of: the half-width or
/// full-width space, the sesame-dot emphasis mark, or a kana code point
/// (hiragana, katakana, or the katakana phonetic extensions).
pub open spec fn is_skippable_char(c: char) -> bool {
    c == ' ' || c == '\u{3000}' || c == '\u{fe45}' || ('\u{3040}' <= c && c <= '\u{309f}') || (
    '\u{30a0}' <= c && c <= '\u{30ff}') || ('\u{31f0}' <= c && c <= '\u{31ff}')
}

/// Every character of the text is skippable. Vacuously true of empty text.
pub open spec fn all_skippable(s: Seq<char>) -> bool {
    forall|i: int| 0 <= i < s.len() ==> is_skippable_char(s[i])
}

/// A line-break character: carriage return or line feed.
pub open spec fn is_break_char(c: char) -> bool {
    c == '\r' || c == '\n'
}

/// The text holds at least one line-break character.
pub open spec fn contains_break(s: Seq<char>) -> bool {
    exists|i: int| 0 <= i < s.len() && is_break_char(s[i])
}

/// No character of the text is a line break.
pub open spec fn no_break_chars(s: Seq<char>) -> bool {
    forall|i: int| 0 <= i < s.len() ==> !is_break_char(s[i])
}

/// A whitespace character, as trimming understands it: the characters with
/// the Unicode `White_Space` property.
pub open spec fn is_space_char(c: char) -> bool {
    c == '\u{9}' || c == '\u{a}' || c == '\u{b}' || c == '\u{c}' || c == '\u{d}' || c == ' '
        || c == '\u{85}' || c == '\u{a0}' || c == '\u{1680}' || ('\u{2000}' <= c && c
        <= '\u{200a}') || c == '\u{2028}' || c == '\u{2029}' || c == '\u{202f}' || c == '\u{205f}'
        || c == '\u{3000}'
}

pub fn skippable_char(c: char) -> (r: bool)
    ensures
        r == is_skippable_char(c),
{
    c == ' ' || c == '\u{3000}' || c == '\u{fe45}' || ('\u{3040}' <= c && c <= '\u{309f}') || (
    '\u{30a0}' <= c && c <= '\u{30ff}') || ('\u{31f0}' <= c && c <= '\u{31ff}')
}

pub fn break_char(c: char) -> (r: bool)
    ensures
        r == is_break_char(c),
{
    c == '\r' || c == '\n'
}

pub fn space_char(c: char) -> (r: bool)
    ensures
        r == is_space_char(c),
{
    c == '\u{9}' || c == '\u{a}' || c == '\u{b}' || c == '\u{c}' || c == '\u{d}' || c == ' '
        || c == '\u{85}' || c == '\u{a0}' || c == '\u{1680}' || ('\u{2000}' <= c && c
        <= '\u{200a}') || c == '\u{2028}' || c == '\u{2029}' || c == '\u{202f}' || c == '\u{205f}'
        || c == '\u{3000}'
}

/// Returns whether the text contains only skippable characters: kana,
/// spaces and the sesame-dot filler mark. True of empty text.
pub fn is_furi_skip(text: &str) -> (r: bool)
    ensures
        r == all_skippable(text@),
{
    let n = text.unicode_len();
    let mut i: usize = 0;
    while i < n
        invariant
            n == text@.len(),
            i <= n,
            forall|j: int| 0 <= j < i ==> is_skippable_char(text@[j]),
        decreases n - i,
    {
        if !skippable_char(text.get_char(i)) {
            return false;
        }
        i += 1;
    }
    true
}

/// Returns whether the text holds a carriage return or line feed anywhere.
pub fn contains_line_break(text: &str) -> (r: bool)
    ensures
        r == contains_break(text@),
{
    let n = text.unicode_len();
    let mut i: usize = 0;
    while i < n
        invariant
            n == text@.len(),
            i <= n,
            forall|j: int| 0 <= j < i ==> !is_break_char(text@[j]),
        decreases n - i,
    {
        if break_char(text.get_char(i)) {
            return true;
        }
        i += 1;
    }
    false
}

} // verus!

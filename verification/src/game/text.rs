//! The few pieces of Unicode text handling that the game takes from the
//! standard library: splitting on whitespace, lower-casing, and assembling a
//! `String` from characters.
use vstd::prelude::*;
use vstd::utf8::is_ascii_chars;

verus! {

/// Whether `c` has Unicode's White_Space property, the test of
/// `char::is_whitespace`: the 25 code points U+0009 to U+000D, U+0020,
/// U+0085, U+00A0, U+1680, U+2000 to U+200A, U+2028, U+2029, U+202F, U+205F
/// and U+3000.
pub open spec fn is_white_space(c: char) -> bool {
    ||| '\u{9}' <= c <= '\u{d}'
    ||| c == '\u{20}'
    ||| c == '\u{85}'
    ||| c == '\u{a0}'
    ||| c == '\u{1680}'
    ||| '\u{2000}' <= c <= '\u{200a}'
    ||| c == '\u{2028}'
    ||| c == '\u{2029}'
    ||| c == '\u{202f}'
    ||| c == '\u{205f}'
    ||| c == '\u{3000}'
}

/// The rest of a split: `run` is the word read so far, `text` what follows it.
pub open spec fn split_from(text: Seq<char>, run: Seq<char>) -> Seq<Seq<char>>
    decreases text.len(),
{
    let done: Seq<Seq<char>> = if run.len() > 0 {
        seq![run]
    } else {
        seq![]
    };
    if text.len() == 0 {
        done
    } else if is_white_space(text[0]) {
        done + split_from(text.drop_first(), seq![])
    } else {
        split_from(text.drop_first(), run.push(text[0]))
    }
}

/// The words of `text`, as `str::split_whitespace` yields them: the maximal
/// non-empty runs of characters without the White_Space property, in order.
pub open spec fn whitespace_split(text: Seq<char>) -> Seq<Seq<char>> {
    split_from(text, seq![])
}

/// `c` in lower case if it is an ASCII capital, else `c` itself.
pub open spec fn ascii_lower(c: char) -> char {
    if 'A' <= c <= 'Z' {
        ((c as u32) + 32) as char
    } else {
        c
    }
}

/// Lower-casing keeps an ASCII character ASCII.
pub proof fn lemma_ascii_lower_is_ascii(c: char)
    requires
        c <= '\u{7f}',
    ensures
        ascii_lower(c) <= '\u{7f}',
{
}

/// The lower-case mapping of the character `c`, as `char::to_lowercase`
/// yields it (one or more characters).
pub uninterp spec fn char_lowercase(c: char) -> Seq<char>;

/// The lower-case form of `s`, as `str::to_lowercase` returns it.
pub uninterp spec fn str_lowercase(s: Seq<char>) -> Seq<char>;

/// Whether `c` is alphabetic, as `char::is_alphabetic` says (Unicode's
/// Alphabetic property).
pub uninterp spec fn char_is_alphabetic(c: char) -> bool;

/// An ASCII letter: `a` to `z` or `A` to `Z`.
pub open spec fn ascii_letter(c: char) -> bool {
    ('a' <= c && c <= 'z') || ('A' <= c && c <= 'Z')
}

/// Calls `char::is_alphabetic`. The contract names the answer
/// `char_is_alphabetic(c)` and states only its ASCII part: of the ASCII
/// characters, the Alphabetic property holds exactly for the letters `a` to
/// `z` and `A` to `Z`; the rest of the property is left to std.
#[verifier::external_body]
pub(crate) fn is_alphabetic(c: char) -> (b: bool)
    ensures
        b == char_is_alphabetic(c),
        c <= '\u{7f}' ==> b == ascii_letter(c),
{
    c.is_alphabetic()
}

/// Calls `str::split_whitespace` and owns each piece; the pieces are
/// `whitespace_split` of the text.
#[verifier::external_body]
pub(crate) fn split_words(text: &str) -> (words: Vec<String>)
    ensures
        words@.map_values(|w: String| w@) == whitespace_split(text@),
{
    text.split_whitespace().map(|w| w.to_string()).collect()
}

/// Calls `char::to_lowercase` and collects the characters it yields. The
/// contract names them `char_lowercase(c)` and states only that there is at
/// least one and the ASCII part of the mapping: `A` to `Z` become `a` to
/// `z`, other ASCII characters stay; the rest of the Unicode mapping is left
/// to std.
#[verifier::external_body]
pub(crate) fn lowercase_char(c: char) -> (lower: String)
    ensures
        lower@ == char_lowercase(c),
        lower@.len() >= 1,
        c <= '\u{7f}' ==> lower@ == seq![ascii_lower(c)],
{
    c.to_lowercase().collect()
}

/// Calls `str::to_lowercase`. The contract names the result
/// `str_lowercase(s)` and states only the ASCII part: an ASCII text is
/// lower-cased character by character as `ascii_lower` says; the rest of the
/// Unicode mapping is left to std.
#[verifier::external_body]
pub(crate) fn lowercase_word(s: &str) -> (lower: String)
    ensures
        lower@ == str_lowercase(s@),
        is_ascii_chars(s@) ==> lower@ == s@.map_values(|c: char| ascii_lower(c)),
{
    s.to_lowercase()
}

/// Collects characters into a `String` (`FromIterator<char>`), which holds
/// exactly those characters in order.
#[verifier::external_body]
pub(crate) fn string_from_chars(chars: &Vec<char>) -> (s: String)
    ensures
        s@ == chars@,
{
    chars.iter().collect()
}

} // verus!

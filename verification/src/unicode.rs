//! Character classes of Unicode, as the standard library knows them.

use vstd::prelude::*;
use vstd::utf8;

verus! {

/// Whether a character is in ASCII.
pub open spec fn ascii(c: char) -> bool {
    (c as u32) < 128
}

pub open spec fn ascii_digit(c: char) -> bool {
    48 <= c as u32 <= 57
}

pub open spec fn ascii_upper(c: char) -> bool {
    65 <= c as u32 <= 90
}

pub open spec fn ascii_lower(c: char) -> bool {
    97 <= c as u32 <= 122
}

/// A space, a tab, or a character that ends a line or a page.
pub open spec fn ascii_blank(c: char) -> bool {
    c as u32 == 32 || 9 <= c as u32 <= 13
}

/// Whether a character beyond ASCII is a letter or a number.
pub uninterp spec fn wide_alphanumeric(c: char) -> bool;

/// Whether a character beyond ASCII is an uppercase letter.
pub uninterp spec fn wide_uppercase(c: char) -> bool;

/// Whether a character beyond ASCII is a lowercase letter.
pub uninterp spec fn wide_lowercase(c: char) -> bool;

/// Whether a character beyond ASCII is whitespace.
pub uninterp spec fn wide_whitespace(c: char) -> bool;

/// The lowercase mapping of a character beyond ASCII, of one or more characters.
pub uninterp spec fn wide_lowered(c: char) -> Seq<char>;

/// The text that stands for bytes which are not valid UTF-8.
pub uninterp spec fn repaired(bytes: Seq<u8>) -> Seq<char>;

/// What `str::from_utf8` says is wrong with bytes that are not UTF-8.
pub uninterp spec fn decoding_fault(bytes: Seq<u8>) -> Seq<char>;

/// Whether a character is a letter or a number.
pub open spec fn alphanumeric(c: char) -> bool {
    if ascii(c) {
        ascii_digit(c) || ascii_upper(c) || ascii_lower(c)
    } else {
        wide_alphanumeric(c)
    }
}

/// Whether a character is an uppercase letter.
pub open spec fn uppercase(c: char) -> bool {
    if ascii(c) {
        ascii_upper(c)
    } else {
        wide_uppercase(c)
    }
}

/// Whether a character is a lowercase letter.
pub open spec fn lowercase(c: char) -> bool {
    if ascii(c) {
        ascii_lower(c)
    } else {
        wide_lowercase(c)
    }
}

/// Whether a character is whitespace.
pub open spec fn whitespace(c: char) -> bool {
    if ascii(c) {
        ascii_blank(c)
    } else {
        wide_whitespace(c)
    }
}

/// A character of ASCII in lowercase.
pub open spec fn ascii_lowered(c: char) -> char {
    if ascii_upper(c) {
        (c as u32 + 32) as char
    } else {
        c
    }
}

/// The lowercase mapping of a character, of one or more characters.
pub open spec fn lowered(c: char) -> Seq<char> {
    if ascii(c) {
        seq![ascii_lowered(c)]
    } else {
        wide_lowered(c)
    }
}

/// The text that stands for bytes which need not be valid UTF-8.
pub open spec fn lossy(bytes: Seq<u8>) -> Seq<char> {
    if utf8::valid_utf8(bytes) {
        utf8::decode_utf8(bytes)
    } else {
        repaired(bytes)
    }
}

/// A text in double quotes, with what is not plain text escaped.
pub uninterp spec fn quoted(s: Seq<char>) -> Seq<char>;

/// Formatting a text with `{:?}` depends on the text alone.
#[verifier::external_body]
pub(crate) fn quoted_text(s: &str) -> (text: String)
    ensures
        text@ == quoted(s@),
{
    format!("{s:?}")
}

/// `char::is_alphanumeric` is true of the digits and letters of ASCII; beyond ASCII it depends
/// on the character alone.
pub assume_specification[ char::is_alphanumeric ](c: char) -> (r: bool)
    ensures
        ascii(c) ==> r == (ascii_digit(c) || ascii_upper(c) || ascii_lower(c)),
        !ascii(c) ==> r == wide_alphanumeric(c),
;

/// `char::is_uppercase` is true of `A` to `Z` in ASCII; beyond ASCII it depends on the
/// character alone.
pub assume_specification[ char::is_uppercase ](c: char) -> (r: bool)
    ensures
        ascii(c) ==> r == ascii_upper(c),
        !ascii(c) ==> r == wide_uppercase(c),
;

/// `char::is_lowercase` is true of `a` to `z` in ASCII; beyond ASCII it depends on the
/// character alone.
pub assume_specification[ char::is_lowercase ](c: char) -> (r: bool)
    ensures
        ascii(c) ==> r == ascii_lower(c),
        !ascii(c) ==> r == wide_lowercase(c),
;

/// `char::is_whitespace` is true of the space and of the controls from tab to carriage return
/// in ASCII; beyond ASCII it depends on the character alone.
pub assume_specification[ char::is_whitespace ](c: char) -> (r: bool)
    ensures
        ascii(c) ==> r == ascii_blank(c),
        !ascii(c) ==> r == wide_whitespace(c),
;

/// `char::to_lowercase` yields the lowercase mapping. In ASCII that of `A` to `Z` is the letter
/// from `a` to `z`, and that of any other character is the character itself; beyond ASCII it
/// depends on the character alone.
#[verifier::external_body]
pub(crate) fn to_lowercase(c: char) -> (mapped: Vec<char>)
    ensures
        ascii(c) ==> mapped@ == seq![ascii_lowered(c)],
        !ascii(c) ==> mapped@ == wide_lowered(c),
{
    c.to_lowercase().collect()
}

/// `String::from_utf8_lossy` decodes valid UTF-8 as it is; what it makes of other bytes depends
/// on the bytes alone.
#[verifier::external_body]
pub(crate) fn lossy_text(bytes: &[u8]) -> (text: String)
    ensures
        utf8::valid_utf8(bytes@) ==> text@ == utf8::decode_utf8(bytes@),
        !utf8::valid_utf8(bytes@) ==> text@ == repaired(bytes@),
{
    String::from_utf8_lossy(bytes).into_owned()
}

/// `str::from_utf8` gives the text that valid UTF-8 encodes. For other bytes it gives an error,
/// whose text depends on the bytes alone.
#[verifier::external_body]
pub(crate) fn strict_text(bytes: &[u8]) -> (text: Result<String, String>)
    ensures
        match text {
            Ok(text) => utf8::valid_utf8(bytes@) && text@ == utf8::decode_utf8(bytes@),
            Err(fault) => !utf8::valid_utf8(bytes@) && fault@ == decoding_fault(bytes@),
        },
{
    match std::str::from_utf8(bytes) {
        Ok(text) => Ok(text.to_owned()),
        Err(error) => Err(error.to_string()),
    }
}

} // verus!

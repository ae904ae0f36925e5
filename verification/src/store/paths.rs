//! Paths as printable text: a byte that is not printable, or that has a meaning in a target, is
//! written as a percent sign and two digits.

use crate::text::Failure;
use crate::text;
use vstd::prelude::*;
use vstd::utf8;

verus! {

/// Whether a byte stands for itself.
pub open spec fn literal(byte: u8) -> bool {
    0x21 <= byte <= 0x7e && byte != 0x25 && byte != 0x3a && byte != 0x40
}

/// The uppercase hexadecimal digit for a number below sixteen.
pub open spec fn upper_digit(n: int) -> u8 {
    if n < 10 {
        (48 + n) as u8
    } else {
        (55 + n) as u8
    }
}

/// A byte as text.
pub open spec fn escaped_byte(byte: u8) -> Seq<u8> {
    if literal(byte) {
        seq![byte]
    } else {
        seq![0x25u8, upper_digit(byte as int / 16), upper_digit(byte as int % 16)]
    }
}

/// Bytes as text, byte for byte.
pub open spec fn escaped(bytes: Seq<u8>) -> Seq<u8>
    decreases bytes.len(),
{
    if bytes.len() == 0 {
        Seq::empty()
    } else {
        escaped(bytes.drop_last()) + escaped_byte(bytes.last())
    }
}

/// Plain bytes as characters.
pub open spec fn as_chars(bytes: Seq<u8>) -> Seq<char> {
    Seq::new(bytes.len(), |i: int| bytes[i] as char)
}

fn upper_hex(n: u8) -> (digit: char)
    requires
        n < 16,
    ensures
        digit == upper_digit(n as int) as char,
{
    if n < 10 {
        (48 + n) as char
    } else {
        (55 + n) as char
    }
}

/// A path as text that keeps every byte of it.
pub fn encode_path(path: &[u8]) -> (encoded: String)
    ensures
        encoded@ == as_chars(escaped(path@)),
{
    let mut encoded = String::new();
    let mut i: usize = 0;
    while i < path.len()
        invariant
            i <= path.len(),
            encoded@ == as_chars(escaped(path@.take(i as int))),
        decreases path.len() - i,
    {
        let byte: u8 = path[i];
        let ghost before = encoded@;
        if 0x21 <= byte && byte <= 0x7e && byte != 0x25 && byte != 0x3a && byte != 0x40 {
            encoded.push(byte as char);
        } else {
            encoded.push('%');
            encoded.push(upper_hex(byte / 16));
            encoded.push(upper_hex(byte % 16));
        }
        proof {
            assert(path@.take(i + 1).drop_last() =~= path@.take(i as int));
            assert('%' == 0x25u8 as char);
            assert(encoded@ =~= before + as_chars(escaped_byte(byte)));
            assert(encoded@ =~= as_chars(escaped(path@.take(i + 1))));
        }
        i += 1;
    }
    assert(path@.take(i as int) =~= path@);
    encoded
}

/// The value of a hexadecimal digit.
pub open spec fn digit_value(byte: u8) -> Option<int> {
    if 48 <= byte <= 57 {
        Some(byte - 48)
    } else if 65 <= byte <= 70 {
        Some(byte - 55)
    } else if 97 <= byte <= 102 {
        Some(byte - 87)
    } else {
        None
    }
}

/// What two bytes behind a percent sign stand for, or why they stand for nothing. A plus sign
/// may stand for the first digit.
pub open spec fn pair_value(first: u8, second: u8) -> Result<u8, Seq<char>> {
    if first >= 0xe0 {
        Err("incomplete utf-8 byte sequence from index 0"@)
    } else if first < 0x80 && second >= 0x80 {
        Err("incomplete utf-8 byte sequence from index 1"@)
    } else {
        match (digit_value(first), digit_value(second)) {
            (Some(high), Some(low)) => Ok((16 * high + low) as u8),
            (None, Some(low)) => if first == 0x2b {
                Ok(low as u8)
            } else {
                Err("invalid digit found in string"@)
            },
            _ => Err("invalid digit found in string"@),
        }
    }
}

/// Bytes in front of what follows, where that has a meaning.
pub open spec fn in_front(front: Seq<u8>, rest: Result<Seq<u8>, Seq<char>>) -> Result<
    Seq<u8>,
    Seq<char>,
> {
    match rest {
        Ok(rest) => Ok(front + rest),
        Err(message) => Err(message),
    }
}

/// The bytes that a text stands for, or why it stands for none.
pub open spec fn unescaped(text: Seq<u8>) -> Result<Seq<u8>, Seq<char>>
    decreases text.len(),
{
    if text.len() == 0 {
        Ok(Seq::empty())
    } else if text[0] != 0x25 {
        in_front(seq![text[0]], unescaped(text.skip(1)))
    } else if text.len() < 3 {
        Err("invalid percent-encoded path"@)
    } else {
        match pair_value(text[1], text[2]) {
            Ok(byte) => in_front(seq![byte], unescaped(text.skip(3))),
            Err(message) => Err(message),
        }
    }
}

/// The path that a text stands for, or why it stands for none.
pub open spec fn path_of(text: Seq<u8>) -> Result<Seq<u8>, Seq<char>> {
    match unescaped(text) {
        Ok(path) => if path.contains(0u8) {
            Err("NUL in path"@)
        } else {
            Ok(path)
        },
        Err(message) => Err(message),
    }
}

fn hex_value(byte: u8) -> (value: Option<u8>)
    ensures
        match value {
            Some(value) => value < 16 && digit_value(byte) == Some(value as int),
            None => digit_value(byte) is None,
        },
{
    if 48 <= byte && byte <= 57 {
        Some(byte - 48)
    } else if 65 <= byte && byte <= 70 {
        Some(byte - 55)
    } else if 97 <= byte && byte <= 102 {
        Some(byte - 87)
    } else {
        None
    }
}

/// Whether a result is what `expected` says.
pub open spec fn is_path(result: Result<Vec<u8>, Failure>, expected: Result<Seq<u8>, Seq<char>>) -> bool {
    match expected {
        Ok(path) => result is Ok && result->Ok_0@ == path,
        Err(message) => result is Err && text::plain(result->Err_0, message),
    }
}

fn read_pair(first: u8, second: u8) -> (result: Result<u8, Failure>)
    ensures
        match pair_value(first, second) {
            Ok(byte) => result == Ok::<u8, Failure>(byte),
            Err(message) => result is Err && text::plain(result->Err_0, message),
        },
{
    if first >= 0xe0 {
        return Err(Failure::new("incomplete utf-8 byte sequence from index 0"));
    }
    if first < 0x80 && second >= 0x80 {
        return Err(Failure::new("incomplete utf-8 byte sequence from index 1"));
    }
    match (hex_value(first), hex_value(second)) {
        (Some(high), Some(low)) => Ok(16 * high + low),
        (None, Some(low)) => {
            if first == 0x2b {
                Ok(low)
            } else {
                Err(Failure::new("invalid digit found in string"))
            }
        },
        _ => Err(Failure::new("invalid digit found in string")),
    }
}

/// The path that a text stands for.
pub fn decode_path(encoded: &str) -> (result: Result<Vec<u8>, Failure>)
    ensures
        is_path(result, path_of(utf8::encode_utf8(encoded@))),
{
    let input = encoded.as_bytes();
    let mut bytes: Vec<u8> = Vec::new();
    let mut cursor: usize = 0;
    assert(input@.skip(0) =~= input@);
    assert(in_front(Seq::empty(), unescaped(input@)) == unescaped(input@)) by {
        if unescaped(input@) is Ok {
            assert(Seq::<u8>::empty() + unescaped(input@)->Ok_0 =~= unescaped(input@)->Ok_0);
        }
    }
    while cursor < input.len()
        invariant
            cursor <= input.len(),
            input@ == utf8::encode_utf8(encoded@),
            unescaped(input@) == in_front(bytes@, unescaped(input@.skip(cursor as int))),
        decreases input.len() - cursor,
    {
        let ghost rest = input@.skip(cursor as int);
        let ghost before = bytes@;
        if input[cursor] == 0x25 {
            if input.len() - cursor < 3 {
                return Err(Failure::new("invalid percent-encoded path"));
            }
            match read_pair(input[cursor + 1], input[cursor + 2]) {
                Err(failure) => {
                    return Err(failure);
                },
                Ok(byte) => {
                    bytes.push(byte);
                    proof {
                        assert(rest.skip(3) =~= input@.skip(cursor + 3));
                        lemma_in_front(before, byte, unescaped(rest.skip(3)));
                    }
                },
            }
            cursor += 3;
        } else {
            bytes.push(input[cursor]);
            proof {
                assert(rest.skip(1) =~= input@.skip(cursor + 1));
                lemma_in_front(before, input@[cursor as int], unescaped(rest.skip(1)));
            }
            cursor += 1;
        }
    }
    assert(input@.skip(cursor as int) =~= Seq::<u8>::empty());
    assert(bytes@ + Seq::<u8>::empty() =~= bytes@);
    let mut i: usize = 0;
    while i < bytes.len()
        invariant
            i <= bytes.len(),
            input@ == utf8::encode_utf8(encoded@),
            unescaped(input@) == Ok::<Seq<u8>, Seq<char>>(bytes@),
            forall|k: int| 0 <= k < i ==> bytes@[k] != 0,
        decreases bytes.len() - i,
    {
        if bytes[i] == 0 {
            assert(bytes@.contains(0u8));
            return Err(Failure::new("NUL in path"));
        }
        i += 1;
    }
    Ok(bytes)
}

proof fn lemma_in_front(front: Seq<u8>, byte: u8, rest: Result<Seq<u8>, Seq<char>>)
    ensures
        in_front(front, in_front(seq![byte], rest)) == in_front(front.push(byte), rest),
{
    if rest is Ok {
        assert(front + (seq![byte] + rest->Ok_0) =~= front.push(byte) + rest->Ok_0);
    }
}

proof fn lemma_escaped_read(bytes: Seq<u8>, rest: Seq<u8>)
    ensures
        unescaped(escaped(bytes) + rest) == in_front(bytes, unescaped(rest)),
    decreases bytes.len(),
{
    if bytes.len() == 0 {
        assert(escaped(bytes) + rest =~= rest);
        if unescaped(rest) is Ok {
            assert(bytes + unescaped(rest)->Ok_0 =~= unescaped(rest)->Ok_0);
        }
    } else {
        let shorter = bytes.drop_last();
        let byte = bytes.last();
        let tail = escaped_byte(byte) + rest;
        assert(escaped(bytes) + rest =~= escaped(shorter) + tail);
        lemma_escaped_read(shorter, tail);
        assert(unescaped(tail) == in_front(seq![byte], unescaped(rest))) by {
            if literal(byte) {
                assert(tail.skip(1) =~= rest);
            } else {
                assert(tail.skip(3) =~= rest);
                assert(tail[1] == upper_digit(byte as int / 16));
                assert(tail[2] == upper_digit(byte as int % 16));
                assert(digit_value(tail[1]) == Some(byte as int / 16));
                assert(digit_value(tail[2]) == Some(byte as int % 16));
            }
        }
        lemma_in_front(shorter, byte, unescaped(rest));
        assert(shorter.push(byte) =~= bytes);
    }
}

proof fn lemma_escaped_is_printable(bytes: Seq<u8>)
    ensures
        forall|i: int|
            0 <= i < escaped(bytes).len() ==> 0x21 <= #[trigger] escaped(bytes)[i] <= 0x7e
                && escaped(bytes)[i] != 0x3a && escaped(bytes)[i] != 0x40,
    decreases bytes.len(),
{
    if bytes.len() > 0 {
        let front = escaped(bytes.drop_last());
        lemma_escaped_is_printable(bytes.drop_last());
        assert forall|i: int| 0 <= i < escaped(bytes).len() implies 0x21 <= #[trigger] escaped(
            bytes,
        )[i] <= 0x7e && escaped(bytes)[i] != 0x3a && escaped(bytes)[i] != 0x40 by {
            if i < front.len() {
                assert(escaped(bytes)[i] == front[i]);
            } else {
                assert(escaped(bytes)[i] == escaped_byte(bytes.last())[i - front.len()]);
            }
        }
    }
}

/// Reading the text of a path gives the path back, for every path without a zero byte, and that
/// text holds neither white space nor a control character nor a colon or an at sign.
pub proof fn law_paths_round_trip(path: Seq<u8>)
    requires
        !path.contains(0u8),
    ensures
        path_of(utf8::encode_utf8(as_chars(escaped(path)))) == Ok::<Seq<u8>, Seq<char>>(path),
        forall|i: int|
            0 <= i < escaped(path).len() ==> 0x21 <= #[trigger] escaped(path)[i] <= 0x7e
                && escaped(path)[i] != 0x3a && escaped(path)[i] != 0x40,
{
    let chars = as_chars(escaped(path));
    lemma_escaped_is_printable(path);
    assert(utf8::is_ascii_chars(chars));
    utf8::is_ascii_chars_encode_utf8(chars);
    assert(utf8::encode_utf8(chars) =~= escaped(path));
    assert(escaped(path) + Seq::<u8>::empty() =~= escaped(path));
    lemma_escaped_read(path, Seq::empty());
    assert(path + Seq::<u8>::empty() =~= path);
}

} // verus!

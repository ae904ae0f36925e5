//! JSON configuration files, with comments and trailing commas.

use crate::text;
use vstd::prelude::*;

verus! {

/// A JSON value of `serde_json`.
#[verifier::external_type_specification]
#[verifier::external_body]
pub struct ExValue(serde_json::Value);

/// What a JSON value is.
pub enum Json {
    Null,
    Text(Seq<char>),
    List(Seq<Json>),
    Object(Seq<(Seq<char>, Json)>),
    Other,
}

impl Json {
    /// Whether this is an object with a key.
    pub open spec fn has(self, key: Seq<char>) -> bool {
        self matches Json::Object(members) && exists|i: int|
            0 <= i < members.len() && (#[trigger] members[i]).0 == key
    }

    /// What an object has under a key.
    pub open spec fn get(self, key: Seq<char>) -> Json {
        let members = self->Object_0;
        members[choose|i: int| 0 <= i < members.len() && (#[trigger] members[i]).0 == key].1
    }

    /// What an object has under a key; nothing where it has no such key.
    pub open spec fn at(self, key: Seq<char>) -> Json {
        if self.has(key) {
            self.get(key)
        } else {
            Json::Null
        }
    }
}

/// What a value of `serde_json` holds. The members of an object are in the order in which its
/// map gives them.
pub uninterp spec fn contents(value: serde_json::Value) -> Json;

/// What `serde_json` reads from bytes, where they are JSON.
pub uninterp spec fn json_value(bytes: Seq<u8>) -> Option<Json>;

/// `serde_json::from_slice` reads a value, or fails on bytes that are not JSON. What it gives
/// is a function of the bytes; what that function is, is left unsaid.
#[verifier::external_body]
pub(crate) fn parse_json(bytes: &[u8]) -> (value: Option<serde_json::Value>)
    ensures
        match value {
            Some(value) => json_value(bytes@) == Some(contents(value)),
            None => json_value(bytes@) is None,
        },
{
    serde_json::from_slice(bytes).ok()
}

/// `Value::get` with a text gives what an object has under that key; other values have
/// nothing.
#[verifier::external_body]
pub(crate) fn member<'a>(value: &'a serde_json::Value, key: &str) -> (found: Option<
    &'a serde_json::Value,
>)
    ensures
        match found {
            Some(found) => contents(*value).has(key@) && contents(*found) == contents(*value).get(
                key@,
            ),
            None => !contents(*value).has(key@),
        },
{
    value.get(key)
}

/// `Value::as_str` gives the text of a value that is one.
#[verifier::external_body]
pub(crate) fn text_of<'a>(value: &'a serde_json::Value) -> (found: Option<&'a str>)
    ensures
        match found {
            Some(text) => contents(*value) == Json::Text(text@),
            None => !(contents(*value) is Text),
        },
{
    value.as_str()
}

/// `Value::is_null` tells whether a value is null.
#[verifier::external_body]
pub(crate) fn is_null(value: &serde_json::Value) -> (null: bool)
    ensures
        null == (contents(*value) is Null),
{
    value.is_null()
}

/// `Value::as_array` gives the items of a value that is a list, in order.
#[verifier::external_body]
pub(crate) fn items_of<'a>(value: &'a serde_json::Value) -> (found: Option<
    &'a Vec<serde_json::Value>,
>)
    ensures
        match found {
            Some(items) => {
                &&& contents(*value) is List
                &&& items.len() == contents(*value)->List_0.len()
                &&& forall|i: int|
                    0 <= i < items.len() ==> contents(#[trigger] items@[i]) == contents(
                        *value,
                    )->List_0[i]
            },
            None => !(contents(*value) is List),
        },
{
    value.as_array()
}

/// `Value::as_object` gives the map of a value that is an object, and the map gives its members.
#[verifier::external_body]
pub(crate) fn members_of<'a>(value: &'a serde_json::Value) -> (found: Option<
    Vec<(&'a String, &'a serde_json::Value)>,
>)
    ensures
        match found {
            Some(members) => {
                &&& contents(*value) is Object
                &&& members.len() == contents(*value)->Object_0.len()
                &&& forall|i: int|
                    0 <= i < members.len() ==> (#[trigger] members@[i]).0@ == contents(
                        *value,
                    )->Object_0[i].0 && contents(*members@[i].1) == contents(*value)->Object_0[i].1
            },
            None => !(contents(*value) is Object),
        },
{
    value.as_object().map(|map| map.iter().collect())
}

/// Numbers in decimal, with commas between them.
pub open spec fn listed_numbers(ids: Seq<i64>) -> Seq<char>
    decreases ids.len(),
{
    if ids.len() == 0 {
        Seq::empty()
    } else if ids.len() == 1 {
        text::signed_decimal(ids[0] as int)
    } else {
        listed_numbers(ids.drop_last()) + seq![','] + text::signed_decimal(ids.last() as int)
    }
}

/// A list of numbers as JSON.
pub open spec fn id_list(ids: Seq<i64>) -> Seq<char> {
    seq!['['] + listed_numbers(ids) + seq![']']
}

/// `serde_json::to_string` writes a list of numbers without white space; it cannot fail on one.
#[verifier::external_body]
fn render_ids(ids: &Vec<i64>) -> (rendered: Result<String, ()>)
    ensures
        rendered is Ok,
        rendered->Ok_0@ == id_list(ids@),
{
    serde_json::to_string(ids).map_err(|_| ())
}

/// A list of numbers as JSON, the form in which candidates are stored.
pub fn candidates_json(ids: &Vec<i64>) -> (rendered: String)
    ensures
        rendered@ == id_list(ids@),
{
    match render_ids(ids) {
        Ok(rendered) => rendered,
        Err(_) => String::new(),
    }
}

/// Where a reader of JSON stands: outside of texts, inside of one, or behind a backslash in one.
#[derive(Clone, Copy, Debug, PartialEq, Eq, Structural)]
pub enum Place {
    Plain,
    Quoted,
    Escaped,
}

/// Where a reader stands behind a byte.
pub open spec fn behind(place: Place, byte: u8) -> Place {
    match place {
        Place::Escaped => Place::Quoted,
        Place::Quoted => if byte == 92 {
            Place::Escaped
        } else if byte == 34 {
            Place::Plain
        } else {
            Place::Quoted
        },
        Place::Plain => if byte == 34 {
            Place::Quoted
        } else {
            Place::Plain
        },
    }
}

fn next_place(place: Place, byte: u8) -> (next: Place)
    ensures
        next == behind(place, byte),
{
    match place {
        Place::Escaped => Place::Quoted,
        Place::Quoted => {
            if byte == 92 {
                Place::Escaped
            } else if byte == 34 {
                Place::Plain
            } else {
                Place::Quoted
            }
        },
        Place::Plain => {
            if byte == 34 {
                Place::Quoted
            } else {
                Place::Plain
            }
        },
    }
}

/// So many spaces.
pub open spec fn spaces(n: int) -> Seq<u8> {
    Seq::new(n as nat, |i: int| 32u8)
}

/// How many bytes come before the next line feed.
pub open spec fn line_length(s: Seq<u8>) -> int
    decreases s.len(),
{
    if s.len() == 0 || s[0] == 10 {
        0
    } else {
        1 + line_length(s.skip(1))
    }
}

/// How many bytes come before the next end of a block comment.
pub open spec fn comment_length(s: Seq<u8>) -> Option<int>
    decreases s.len(),
{
    if s.len() < 2 {
        None
    } else if s[0] == 42 && s[1] == 47 {
        Some(0)
    } else {
        match comment_length(s.skip(1)) {
            Some(n) => Some(1 + n),
            None => None,
        }
    }
}

/// Bytes in front of what follows, where something does.
pub open spec fn in_front(front: Seq<u8>, rest: Option<Seq<u8>>) -> Option<Seq<u8>> {
    match rest {
        Some(rest) => Some(front + rest),
        None => None,
    }
}

/// A line ends where the bytes do, or before.
pub proof fn lemma_line_length(s: Seq<u8>)
    ensures
        0 <= line_length(s) <= s.len(),
    decreases s.len(),
{
    if s.len() > 0 && s[0] != 10 {
        lemma_line_length(s.skip(1));
    }
}

/// The end of a comment fits into the bytes.
pub proof fn lemma_comment_length(s: Seq<u8>)
    ensures
        comment_length(s) is Some ==> 0 <= comment_length(s)->0 <= s.len() - 2,
    decreases s.len(),
{
    if s.len() >= 2 && !(s[0] == 42 && s[1] == 47) {
        lemma_comment_length(s.skip(1));
    }
}

/// JSON with its comments turned into spaces; a comment that begins inside of a text is none,
/// and one that does not end spoils the whole.
pub open spec fn uncommented(s: Seq<u8>, place: Place) -> Option<Seq<u8>>
    decreases s.len(),
{
    if s.len() == 0 {
        Some(Seq::empty())
    } else if place == Place::Plain && s.len() >= 2 && s[0] == 47 && s[1] == 47 {
        proof {
            lemma_line_length(s.skip(2));
        }
        in_front(
            spaces(2 + line_length(s.skip(2))),
            uncommented(s.skip(2 + line_length(s.skip(2))), place),
        )
    } else if place == Place::Plain && s.len() >= 2 && s[0] == 47 && s[1] == 42 {
        match comment_length(s.skip(2)) {
            Some(n) => {
                proof {
                    lemma_comment_length(s.skip(2));
                }
                in_front(spaces(n + 4), uncommented(s.skip(n + 4), place))
            },
            None => None,
        }
    } else {
        in_front(seq![s[0]], uncommented(s.skip(1), behind(place, s[0])))
    }
}

/// Whether a byte is white space.
pub open spec fn blank(byte: u8) -> bool {
    byte == 32 || byte == 9 || byte == 10 || byte == 12 || byte == 13
}

/// Whether, behind white space, a list or an object ends.
pub open spec fn closes(s: Seq<u8>) -> bool
    decreases s.len(),
{
    s.len() > 0 && if blank(s[0]) {
        closes(s.skip(1))
    } else {
        s[0] == 93 || s[0] == 125
    }
}

/// JSON with the commas before the end of a list or an object turned into spaces.
pub open spec fn untrailed(s: Seq<u8>, place: Place) -> Seq<u8>
    decreases s.len(),
{
    if s.len() == 0 {
        Seq::empty()
    } else {
        let byte = if place == Place::Plain && s[0] == 44 && closes(s.skip(1)) {
            32u8
        } else {
            s[0]
        };
        seq![byte] + untrailed(s.skip(1), behind(place, s[0]))
    }
}

/// The JSON in bytes, once comments and trailing commas are gone.
pub open spec fn lenient_json(bytes: Seq<u8>) -> Option<Json> {
    match uncommented(bytes, Place::Plain) {
        Some(clean) => json_value(untrailed(clean, Place::Plain)),
        None => None,
    }
}

proof fn lemma_in_front(front: Seq<u8>, middle: Seq<u8>, rest: Option<Seq<u8>>)
    ensures
        in_front(front, in_front(middle, rest)) == in_front(front + middle, rest),
{
    if rest is Some {
        assert(front + (middle + rest->0) =~= front + middle + rest->0);
    }
}

fn push_spaces(clean: &mut Vec<u8>, n: usize)
    ensures
        final(clean)@ == old(clean)@ + spaces(n as int),
{
    let mut i: usize = 0;
    assert(clean@ =~= old(clean)@ + spaces(0));
    while i < n
        invariant
            i <= n,
            clean@ == old(clean)@ + spaces(i as int),
        decreases n - i,
    {
        clean.push(32);
        assert(clean@ =~= old(clean)@ + spaces(i + 1));
        i += 1;
    }
}

fn measure_line(bytes: &[u8], start: usize) -> (n: usize)
    requires
        start <= bytes.len(),
    ensures
        n == line_length(bytes@.skip(start as int)),
        start + n <= bytes.len(),
{
    let mut at: usize = start;
    while at < bytes.len() && bytes[at] != 10
        invariant
            start <= at <= bytes.len(),
            line_length(bytes@.skip(start as int)) == at - start + line_length(
                bytes@.skip(at as int),
            ),
        decreases bytes.len() - at,
    {
        assert(bytes@.skip(at as int).skip(1) =~= bytes@.skip(at + 1));
        at += 1;
    }
    at - start
}

fn measure_comment(bytes: &[u8], start: usize) -> (n: Option<usize>)
    requires
        start <= bytes.len(),
    ensures
        match n {
            Some(n) => comment_length(bytes@.skip(start as int)) == Some(n as int) && start + n + 2
                <= bytes.len(),
            None => comment_length(bytes@.skip(start as int)) is None,
        },
{
    let mut at: usize = start;
    while bytes.len() - at >= 2 && !(bytes[at] == 42 && bytes[at + 1] == 47)
        invariant
            start <= at <= bytes.len(),
            match comment_length(bytes@.skip(at as int)) {
                Some(n) => comment_length(bytes@.skip(start as int)) == Some(at - start + n),
                None => comment_length(bytes@.skip(start as int)) is None,
            },
        decreases bytes.len() - at,
    {
        assert(bytes@.skip(at as int).skip(1) =~= bytes@.skip(at + 1));
        at += 1;
    }
    if bytes.len() - at < 2 {
        return None;
    }
    Some(at - start)
}

/// Turns comments into spaces.
pub fn without_comments(bytes: &[u8]) -> (result: Option<Vec<u8>>)
    ensures
        match result {
            Some(clean) => uncommented(bytes@, Place::Plain) == Some(clean@),
            None => uncommented(bytes@, Place::Plain) is None,
        },
{
    let mut clean: Vec<u8> = Vec::new();
    let mut place = Place::Plain;
    let mut at: usize = 0;
    assert(bytes@.skip(0) =~= bytes@);
    assert(in_front(Seq::empty(), uncommented(bytes@, Place::Plain)) == uncommented(
        bytes@,
        Place::Plain,
    )) by {
        let whole = uncommented(bytes@, Place::Plain);
        if whole is Some {
            assert(Seq::<u8>::empty() + whole->0 =~= whole->0);
        }
    }
    while at < bytes.len()
        invariant
            at <= bytes.len(),
            uncommented(bytes@, Place::Plain) == in_front(
                clean@,
                uncommented(bytes@.skip(at as int), place),
            ),
        decreases bytes.len() - at,
    {
        let ghost rest = bytes@.skip(at as int);
        let ghost before = clean@;
        let byte: u8 = bytes[at];
        if place == Place::Plain && bytes.len() - at >= 2 && byte == 47 && bytes[at + 1] == 47 {
            let n: usize = measure_line(bytes, at + 2);
            push_spaces(&mut clean, 2 + n);
            proof {
                assert(rest.skip(2) =~= bytes@.skip(at + 2));
                assert(rest.skip(2 + n) =~= bytes@.skip(at + 2 + n));
                lemma_in_front(before, spaces(2 + n), uncommented(rest.skip(2 + n), place));
            }
            at = at + 2 + n;
        } else if place == Place::Plain && bytes.len() - at >= 2 && byte == 47 && bytes[at + 1]
            == 42 {
            assert(rest.skip(2) =~= bytes@.skip(at + 2));
            match measure_comment(bytes, at + 2) {
                None => {
                    return None;
                },
                Some(n) => {
                    push_spaces(&mut clean, n + 4);
                    proof {
                        assert(rest.skip(n + 4) =~= bytes@.skip(at + n + 4));
                        lemma_in_front(before, spaces(n + 4), uncommented(rest.skip(n + 4), place));
                    }
                    at = at + n + 4;
                },
            }
        } else {
            clean.push(byte);
            proof {
                assert(rest.skip(1) =~= bytes@.skip(at + 1));
                lemma_in_front(
                    before,
                    seq![byte],
                    uncommented(rest.skip(1), behind(place, byte)),
                );
                assert(before + seq![byte] =~= clean@);
            }
            place = next_place(place, byte);
            at += 1;
        }
    }
    assert(bytes@.skip(at as int) =~= Seq::<u8>::empty());
    assert(clean@ + Seq::<u8>::empty() =~= clean@);
    Some(clean)
}

fn ends_next(bytes: &[u8], start: usize) -> (ends: bool)
    requires
        start <= bytes.len(),
    ensures
        ends == closes(bytes@.skip(start as int)),
{
    let mut at: usize = start;
    while at < bytes.len() && (bytes[at] == 32 || bytes[at] == 9 || bytes[at] == 10 || bytes[at]
        == 12 || bytes[at] == 13)
        invariant
            start <= at <= bytes.len(),
            closes(bytes@.skip(start as int)) == closes(bytes@.skip(at as int)),
        decreases bytes.len() - at,
    {
        assert(bytes@.skip(at as int).skip(1) =~= bytes@.skip(at + 1));
        at += 1;
    }
    at < bytes.len() && (bytes[at] == 93 || bytes[at] == 125)
}

/// Turns the commas before the end of a list or an object into spaces.
pub fn without_trailing_commas(bytes: &[u8]) -> (clean: Vec<u8>)
    ensures
        clean@ == untrailed(bytes@, Place::Plain),
{
    let mut clean: Vec<u8> = Vec::new();
    let mut place = Place::Plain;
    let mut at: usize = 0;
    assert(bytes@.skip(0) =~= bytes@);
    assert(Seq::<u8>::empty() + untrailed(bytes@, Place::Plain) =~= untrailed(
        bytes@,
        Place::Plain,
    ));
    while at < bytes.len()
        invariant
            at <= bytes.len(),
            untrailed(bytes@, Place::Plain) == clean@ + untrailed(bytes@.skip(at as int), place),
        decreases bytes.len() - at,
    {
        let ghost rest = bytes@.skip(at as int);
        let ghost before = clean@;
        let byte: u8 = bytes[at];
        assert(rest.skip(1) =~= bytes@.skip(at + 1));
        if place == Place::Plain && byte == 44 && ends_next(bytes, at + 1) {
            clean.push(32);
        } else {
            clean.push(byte);
        }
        proof {
            let tail = untrailed(rest.skip(1), behind(place, byte));
            assert(before + (seq![clean@.last()] + tail) =~= clean@ + tail);
        }
        place = next_place(place, byte);
        at += 1;
    }
    assert(bytes@.skip(at as int) =~= Seq::<u8>::empty());
    assert(clean@ + Seq::<u8>::empty() =~= clean@);
    clean
}

/// The JSON in bytes, with comments and trailing commas allowed.
pub fn json_with_comments(bytes: &[u8]) -> (value: Option<serde_json::Value>)
    ensures
        match value {
            Some(value) => lenient_json(bytes@) == Some(contents(value)),
            None => lenient_json(bytes@) is None,
        },
{
    match without_comments(bytes) {
        None => None,
        Some(clean) => {
            let strict = without_trailing_commas(clean.as_slice());
            parse_json(strict.as_slice())
        },
    }
}

proof fn lemma_lengths_kept(s: Seq<u8>, place: Place)
    ensures
        uncommented(s, place) is Some ==> uncommented(s, place)->0.len() == s.len(),
        untrailed(s, place).len() == s.len(),
    decreases s.len(),
{
    if s.len() > 0 {
        lemma_lengths_kept(s.skip(1), behind(place, s[0]));
        if place == Place::Plain && s.len() >= 2 && s[0] == 47 && s[1] == 47 {
            lemma_line_length(s.skip(2));
            lemma_lengths_kept(s.skip(2 + line_length(s.skip(2))), place);
        } else if place == Place::Plain && s.len() >= 2 && s[0] == 47 && s[1] == 42 {
            lemma_comment_length(s.skip(2));
            if comment_length(s.skip(2)) is Some {
                lemma_lengths_kept(s.skip(comment_length(s.skip(2))->0 + 4), place);
            }
        }
    }
}

/// Taking out comments and trailing commas moves nothing: every byte that stays, stays where it
/// was.
pub proof fn law_cleaning_keeps_places(bytes: Seq<u8>)
    ensures
        uncommented(bytes, Place::Plain) is Some ==> uncommented(bytes, Place::Plain)->0.len()
            == bytes.len(),
        untrailed(bytes, Place::Plain).len() == bytes.len(),
        uncommented(bytes, Place::Plain) is Some ==> forall|i: int|
            0 <= i < bytes.len() ==> #[trigger] uncommented(bytes, Place::Plain)->0[i] == bytes[i]
                || uncommented(bytes, Place::Plain)->0[i] == 32,
        forall|i: int|
            0 <= i < bytes.len() ==> #[trigger] untrailed(bytes, Place::Plain)[i] == bytes[i]
                || untrailed(bytes, Place::Plain)[i] == 32,
{
    lemma_lengths_kept(bytes, Place::Plain);
    lemma_bytes_kept(bytes, Place::Plain);
}

proof fn lemma_bytes_kept(s: Seq<u8>, place: Place)
    ensures
        uncommented(s, place) is Some ==> forall|i: int|
            0 <= i < s.len() ==> #[trigger] uncommented(s, place)->0[i] == s[i] || uncommented(
                s,
                place,
            )->0[i] == 32,
        forall|i: int|
            0 <= i < s.len() ==> #[trigger] untrailed(s, place)[i] == s[i] || untrailed(
                s,
                place,
            )[i] == 32,
    decreases s.len(),
{
    lemma_lengths_kept(s, place);
    if s.len() > 0 {
        let next = behind(place, s[0]);
        let rest = s.skip(1);
        lemma_bytes_kept(rest, next);
        lemma_lengths_kept(rest, next);
        assert forall|i: int| 0 <= i < s.len() implies #[trigger] untrailed(s, place)[i] == s[i]
            || untrailed(s, place)[i] == 32 by {
            if i > 0 {
                assert(untrailed(s, place)[i] == untrailed(rest, next)[i - 1]);
                assert(rest[i - 1] == s[i]);
            }
        }
        if uncommented(s, place) is Some {
            let whole = uncommented(s, place)->0;
            if place == Place::Plain && s.len() >= 2 && s[0] == 47 && (s[1] == 47 || s[1] == 42) {
                let n = if s[1] == 47 {
                    2 + line_length(s.skip(2))
                } else {
                    comment_length(s.skip(2))->0 + 4
                };
                lemma_line_length(s.skip(2));
                lemma_comment_length(s.skip(2));
                let after = s.skip(n);
                lemma_bytes_kept(after, place);
                assert(whole == spaces(n) + uncommented(after, place)->0);
                assert forall|i: int| 0 <= i < s.len() implies #[trigger] whole[i] == s[i]
                    || whole[i] == 32 by {
                    if i >= n {
                        assert(whole[i] == uncommented(after, place)->0[i - n]);
                        assert(after[i - n] == s[i]);
                    }
                }
            } else {
                assert(whole == seq![s[0]] + uncommented(rest, next)->0);
                assert forall|i: int| 0 <= i < s.len() implies #[trigger] whole[i] == s[i]
                    || whole[i] == 32 by {
                    if i > 0 {
                        assert(whole[i] == uncommented(rest, next)->0[i - 1]);
                        assert(rest[i - 1] == s[i]);
                    }
                }
            }
        }
    }
}

} // verus!

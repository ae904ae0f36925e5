//! What holds of JSON with comments and trailing commas.

use crate::store::json;
use crate::store::json::Json;
use crate::store::json::Place;
use vstd::prelude::*;

verus! {

/// Whether bytes stand between the quotes of a text: no quote, but behind a backslash, and no
/// backslash without a byte behind it.
pub open spec fn is_quotable(s: Seq<u8>) -> bool
    decreases s.len(),
{
    if s.len() == 0 {
        true
    } else if s[0] == 92 {
        s.len() >= 2 && is_quotable(s.skip(2))
    } else {
        s[0] != 34 && is_quotable(s.skip(1))
    }
}

/// Whether a byte is nowhere in some bytes.
pub open spec fn is_without(s: Seq<u8>, byte: u8) -> bool {
    forall|i: int| 0 <= i < s.len() ==> #[trigger] s[i] != byte
}

/// A text with its quotes.
pub open spec fn quoted(s: Seq<u8>) -> Seq<u8> {
    seq![34u8] + s + seq![34u8]
}

/// Bytes as many as others, all of them spaces.
pub open spec fn blanked(s: Seq<u8>) -> Seq<u8> {
    Seq::new(s.len(), |i: int| 32u8)
}

/// What cleaning gives of bytes that another cleaned text stands before.
pub open spec fn before(front: Seq<u8>, rest: Option<Seq<u8>>) -> Option<Seq<u8>> {
    match rest {
        Some(rest) => Some(front + rest),
        None => None,
    }
}

proof fn lemma_before(a: Seq<u8>, b: Seq<u8>, rest: Option<Seq<u8>>)
    ensures
        before(a, before(b, rest)) == before(a + b, rest),
        json::in_front(a, rest) == before(a, rest),
        before(Seq::empty(), rest) == rest,
{
    if rest is Some {
        assert(a + (b + rest->0) =~= a + b + rest->0);
        assert(Seq::<u8>::empty() + rest->0 =~= rest->0);
    }
}

proof fn lemma_inside_text(s: Seq<u8>, rest: Seq<u8>)
    requires
        is_quotable(s),
    ensures
        json::uncommented(s + seq![34u8] + rest, Place::Quoted) == before(
            s + seq![34u8],
            json::uncommented(rest, Place::Plain),
        ),
        json::untrailed(s + seq![34u8] + rest, Place::Quoted) == s + seq![34u8] + json::untrailed(
            rest,
            Place::Plain,
        ),
    decreases s.len(),
{
    let whole = s + seq![34u8] + rest;
    let ending = json::uncommented(rest, Place::Plain);
    if s.len() == 0 {
        assert(whole.skip(1) =~= rest);
        assert(s + seq![34u8] =~= seq![34u8]);
        lemma_before(seq![34u8], Seq::empty(), ending);
        assert(json::untrailed(whole, Place::Quoted) =~= s + seq![34u8] + json::untrailed(
            rest,
            Place::Plain,
        ));
    } else if s[0] == 92 {
        let more = s.skip(2);
        lemma_inside_text(more, rest);
        let after = whole.skip(1);
        assert(after[0] == s[1]);
        assert(after.skip(1) =~= more + seq![34u8] + rest);
        assert(json::uncommented(after, Place::Escaped) == json::in_front(
            seq![s[1]],
            json::uncommented(after.skip(1), Place::Quoted),
        ));
        assert(seq![s[0]] + (seq![s[1]] + (more + seq![34u8])) =~= s + seq![34u8]);
        lemma_before(seq![s[1]], more + seq![34u8], ending);
        lemma_before(seq![s[0]], seq![s[1]] + (more + seq![34u8]), ending);
        lemma_before(seq![s[1]], Seq::empty(), json::uncommented(after.skip(1), Place::Quoted));
        lemma_before(seq![s[0]], Seq::empty(), json::uncommented(after, Place::Escaped));
        assert(json::untrailed(after, Place::Escaped) == seq![s[1]] + json::untrailed(
            after.skip(1),
            Place::Quoted,
        ));
        assert(json::untrailed(whole, Place::Quoted) =~= s + seq![34u8] + json::untrailed(
            rest,
            Place::Plain,
        ));
    } else {
        let more = s.skip(1);
        lemma_inside_text(more, rest);
        assert(whole.skip(1) =~= more + seq![34u8] + rest);
        assert(seq![s[0]] + (more + seq![34u8]) =~= s + seq![34u8]);
        lemma_before(seq![s[0]], more + seq![34u8], ending);
        lemma_before(seq![s[0]], Seq::empty(), json::uncommented(whole.skip(1), Place::Quoted));
        assert(json::untrailed(whole, Place::Quoted) =~= s + seq![34u8] + json::untrailed(
            rest,
            Place::Plain,
        ));
    }
}

/// A text stays as it is, whatever stands in it: slashes, stars and commas too. What follows it
/// is cleaned as it would be alone.
pub proof fn law_quoted_texts_stay(s: Seq<u8>, rest: Seq<u8>)
    requires
        is_quotable(s),
    ensures
        json::uncommented(quoted(s) + rest, Place::Plain) == before(
            quoted(s),
            json::uncommented(rest, Place::Plain),
        ),
        json::untrailed(quoted(s) + rest, Place::Plain) == quoted(s) + json::untrailed(
            rest,
            Place::Plain,
        ),
{
    let whole = quoted(s) + rest;
    lemma_inside_text(s, rest);
    assert(whole.skip(1) =~= s + seq![34u8] + rest);
    assert(seq![34u8] + (s + seq![34u8]) =~= quoted(s));
    lemma_before(seq![34u8], s + seq![34u8], json::uncommented(rest, Place::Plain));
    lemma_before(seq![34u8], Seq::empty(), json::uncommented(whole.skip(1), Place::Quoted));
    assert(json::untrailed(whole, Place::Plain) =~= quoted(s) + json::untrailed(
        rest,
        Place::Plain,
    ));
}

/// What has neither quote nor slash is no comment, and stays; what has neither quote nor comma
/// stays where trailing commas go.
pub proof fn law_other_bytes_stay(s: Seq<u8>, rest: Seq<u8>)
    requires
        is_without(s, 34),
    ensures
        is_without(s, 47) ==> json::uncommented(s + rest, Place::Plain) == before(
            s,
            json::uncommented(rest, Place::Plain),
        ),
        is_without(s, 44) ==> json::untrailed(s + rest, Place::Plain) == s + json::untrailed(
            rest,
            Place::Plain,
        ),
    decreases s.len(),
{
    let whole = s + rest;
    if s.len() == 0 {
        assert(whole =~= rest);
        lemma_before(s, s, json::uncommented(rest, Place::Plain));
        assert(s =~= Seq::<u8>::empty());
        assert(s + json::untrailed(rest, Place::Plain) =~= json::untrailed(rest, Place::Plain));
    } else {
        let more = s.skip(1);
        assert forall|i: int| 0 <= i < more.len() implies #[trigger] more[i] == s[i + 1] by {}
        law_other_bytes_stay(more, rest);
        assert(whole.skip(1) =~= more + rest);
        assert(whole[0] == s[0]);
        assert(seq![s[0]] + more =~= s);
        lemma_before(seq![s[0]], more, json::uncommented(rest, Place::Plain));
        lemma_before(seq![s[0]], Seq::empty(), json::uncommented(whole.skip(1), Place::Plain));
        if is_without(s, 44) {
            assert(json::untrailed(whole, Place::Plain) =~= s + json::untrailed(
                rest,
                Place::Plain,
            ));
        }
    }
}

proof fn lemma_line(line: Seq<u8>, rest: Seq<u8>)
    requires
        is_without(line, 10),
        rest.len() == 0 || rest[0] == 10,
    ensures
        json::line_length(line + rest) == line.len(),
    decreases line.len(),
{
    let whole = line + rest;
    if line.len() > 0 {
        let more = line.skip(1);
        assert forall|i: int| 0 <= i < more.len() implies #[trigger] more[i] != 10 by {
            assert(more[i] == line[i + 1]);
        }
        lemma_line(more, rest);
        assert(whole.skip(1) =~= more + rest);
        assert(whole[0] == line[0]);
    } else {
        assert(whole =~= rest);
    }
}

/// Two slashes turn into spaces with what follows them in the line; the line feed stays, and what
/// follows it is cleaned.
pub proof fn law_line_comments_become_spaces(line: Seq<u8>, rest: Seq<u8>)
    requires
        is_without(line, 10),
        rest.len() == 0 || rest[0] == 10,
    ensures
        json::uncommented(seq![47u8, 47u8] + line + rest, Place::Plain) == before(
            blanked(seq![47u8, 47u8] + line),
            json::uncommented(rest, Place::Plain),
        ),
{
    let whole = seq![47u8, 47u8] + line + rest;
    assert(whole.skip(2) =~= line + rest);
    lemma_line(line, rest);
    assert(whole.skip(2 + line.len() as int) =~= rest);
    assert(json::spaces(2 + line.len() as int) =~= blanked(seq![47u8, 47u8] + line));
    lemma_before(
        blanked(seq![47u8, 47u8] + line),
        Seq::empty(),
        json::uncommented(rest, Place::Plain),
    );
}

/// Whether a block comment does not end inside of its bytes.
pub open spec fn goes_on(s: Seq<u8>) -> bool {
    forall|i: int| 0 <= i && i + 1 < s.len() ==> !(#[trigger] s[i] == 42 && s[i + 1] == 47)
}

proof fn lemma_block(body: Seq<u8>, rest: Seq<u8>)
    requires
        goes_on(body),
    ensures
        json::comment_length(body + seq![42u8, 47u8] + rest) == Some(body.len() as int),
    decreases body.len(),
{
    let whole = body + seq![42u8, 47u8] + rest;
    if body.len() > 0 {
        let more = body.skip(1);
        assert forall|i: int| 0 <= i && i + 1 < more.len() implies !(#[trigger] more[i] == 42
            && more[i + 1] == 47) by {
            assert(more[i] == body[i + 1]);
            assert(more[i + 1] == body[i + 2]);
        }
        lemma_block(more, rest);
        assert(whole.skip(1) =~= more + seq![42u8, 47u8] + rest);
        assert(whole[0] == body[0]);
        if body.len() > 1 {
            assert(whole[1] == body[1]);
            assert(!(body[0] == 42 && body[1] == 47));
        }
    } else {
        assert(whole[0] == 42 && whole[1] == 47);
    }
}

proof fn lemma_no_end(body: Seq<u8>)
    requires
        goes_on(body),
    ensures
        json::comment_length(body) is None,
    decreases body.len(),
{
    if body.len() >= 2 {
        let more = body.skip(1);
        assert forall|i: int| 0 <= i && i + 1 < more.len() implies !(#[trigger] more[i] == 42
            && more[i + 1] == 47) by {
            assert(more[i] == body[i + 1]);
            assert(more[i + 1] == body[i + 2]);
        }
        assert(!(body[0] == 42 && body[1] == 47));
        lemma_no_end(more);
    }
}

/// A block comment turns into spaces, from its slash and star to its star and slash, and what
/// follows it is cleaned.
pub proof fn law_block_comments_become_spaces(body: Seq<u8>, rest: Seq<u8>)
    requires
        goes_on(body),
    ensures
        json::uncommented(
            seq![47u8, 42u8] + body + seq![42u8, 47u8] + rest,
            Place::Plain,
        ) == before(
            blanked(seq![47u8, 42u8] + body + seq![42u8, 47u8]),
            json::uncommented(rest, Place::Plain),
        ),
{
    let comment = seq![47u8, 42u8] + body + seq![42u8, 47u8];
    let whole = comment + rest;
    assert(whole.skip(2) =~= body + seq![42u8, 47u8] + rest);
    lemma_block(body, rest);
    assert(whole.skip(body.len() as int + 4) =~= rest);
    assert(json::spaces(body.len() as int + 4) =~= blanked(comment));
    lemma_before(blanked(comment), Seq::empty(), json::uncommented(rest, Place::Plain));
}

/// A block comment that does not end spoils the whole.
pub proof fn law_open_comments_spoil_the_whole(body: Seq<u8>)
    requires
        goes_on(body),
    ensures
        json::uncommented(seq![47u8, 42u8] + body, Place::Plain) is None,
        json::lenient_json(seq![47u8, 42u8] + body) is None,
{
    let whole = seq![47u8, 42u8] + body;
    assert(whole.skip(2) =~= body);
    lemma_no_end(body);
}

/// Whether bytes are white space.
pub open spec fn is_blank(s: Seq<u8>) -> bool {
    forall|i: int|
        0 <= i < s.len() ==> #[trigger] s[i] == 32 || s[i] == 9 || s[i] == 10 || s[i] == 12 || s[i]
            == 13
}

proof fn lemma_closes(between: Seq<u8>, rest: Seq<u8>)
    requires
        is_blank(between),
        rest.len() > 0 ==> !(rest[0] == 32 || rest[0] == 9 || rest[0] == 10 || rest[0] == 12
            || rest[0] == 13),
    ensures
        json::closes(between + rest) == (rest.len() > 0 && (rest[0] == 93 || rest[0] == 125)),
    decreases between.len(),
{
    let whole = between + rest;
    if between.len() > 0 {
        let more = between.skip(1);
        assert forall|i: int| 0 <= i < more.len() implies #[trigger] more[i] == 32 || more[i] == 9
            || more[i] == 10 || more[i] == 12 || more[i] == 13 by {
            assert(more[i] == between[i + 1]);
        }
        lemma_closes(more, rest);
        assert(whole[0] == between[0]);
        assert(whole.skip(1) =~= more + rest);
    } else {
        assert(whole =~= rest);
    }
}

/// A comma turns into a space just where the end of a list or of an object is what follows it
/// behind white space; else it stays.
pub proof fn law_trailing_commas_become_spaces(between: Seq<u8>, rest: Seq<u8>)
    requires
        is_blank(between),
        rest.len() > 0 ==> !(rest[0] == 32 || rest[0] == 9 || rest[0] == 10 || rest[0] == 12
            || rest[0] == 13),
    ensures
        json::untrailed(seq![44u8] + between + rest, Place::Plain) == seq![
            if rest.len() > 0 && (rest[0] == 93 || rest[0] == 125) {
                32u8
            } else {
                44u8
            },
        ] + json::untrailed(between + rest, Place::Plain),
{
    let whole = seq![44u8] + between + rest;
    assert(whole.skip(1) =~= between + rest);
    lemma_closes(between, rest);
}

/// What is read is what `serde_json` reads of the bytes without comments and then without
/// trailing commas.
pub proof fn law_cleaned_json_is_read(bytes: Seq<u8>, clean: Seq<u8>)
    requires
        json::uncommented(bytes, Place::Plain) == Some(clean),
    ensures
        json::lenient_json(bytes) == json::json_value(json::untrailed(clean, Place::Plain)),
{
}

/// An object has under a key what is written there, where no other member has that key, and
/// nothing under a key that no member has. What is no object has nothing under any key.
pub proof fn law_members_are_found_by_their_key(
    value: Json,
    members: Seq<(Seq<char>, Json)>,
    i: int,
    key: Seq<char>,
)
    ensures
        value == Json::Object(members) && 0 <= i < members.len() && members[i].0 == key && (
        forall|j: int|
            0 <= j < members.len() && j != i ==> (#[trigger] members[j]).0 != key) ==> value.at(key)
            == members[i].1,
        value == Json::Object(members) && (forall|j: int|
            0 <= j < members.len() ==> (#[trigger] members[j]).0 != key) ==> value.at(key) is Null,
        !(value is Object) ==> value.at(key) is Null,
{
    if value == Json::Object(members) && 0 <= i < members.len() && members[i].0 == key {
        assert(value.has(key));
    }
}

} // verus!

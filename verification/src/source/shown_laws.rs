//! What holds of a source as it is shown.

use crate::digest;
use crate::source;
use crate::source::acquisition::AcquiredSource;
use crate::source::lines;
use crate::source::lines::Row;
use crate::source::lines::Shown;
use crate::source::render;
use crate::source::Found;
use crate::text;
use crate::text::Failure;
use crate::text_laws;
use vstd::prelude::*;
use vstd::utf8;

verus! {

proof fn lemma_says(whole: Seq<char>, front: Seq<char>, part: Seq<char>, back: Seq<char>)
    requires
        whole == front + part + back,
    ensures
        text_laws::says(whole, part),
{
}

proof fn lemma_says_inside(whole: Seq<char>, inner: Seq<char>, part: Seq<char>)
    requires
        text_laws::says(whole, inner),
        text_laws::says(inner, part),
    ensures
        text_laws::says(whole, part),
{
    let (a, b) = choose|a: Seq<char>, b: Seq<char>| whole == #[trigger] (a + inner + b);
    let (c, d) = choose|c: Seq<char>, d: Seq<char>| inner == #[trigger] (c + part + d);
    assert(whole =~= (a + c) + part + (d + b));
}

/// The parts of a shown text, one after the other.
spec fn sections(shown: Shown) -> Seq<Seq<char>> {
    seq![
        lines::header_text(shown),
        lines::rows_text(shown.rows@),
        lines::footer_text(shown.next, shown.truncated),
        lines::verified_text(shown),
        if lines::any_escaped(shown.rows@) {
            "encoding: byte-escaped\n"@
        } else {
            Seq::empty()
        },
        match shown.commit {
            Some(commit) => "commit: "@ + commit@ + "\n"@,
            None => Seq::empty(),
        },
        match shown.definitions {
            Some(total) => "definitions: "@ + text::decimal(total as nat) + "\n"@,
            None => Seq::empty(),
        },
        lines::also_text(shown.also@),
    ]
}

spec fn strung(parts: Seq<Seq<char>>) -> Seq<char>
    decreases parts.len(),
{
    if parts.len() == 0 {
        Seq::empty()
    } else {
        strung(parts.drop_last()) + parts.last()
    }
}

proof fn lemma_strung_says(parts: Seq<Seq<char>>, i: int)
    requires
        0 <= i < parts.len(),
    ensures
        text_laws::says(strung(parts), parts[i]),
    decreases parts.len(),
{
    let less = parts.drop_last();
    if i == parts.len() - 1 {
        assert(strung(parts) =~= strung(less) + parts[i] + Seq::<char>::empty());
    } else {
        lemma_strung_says(less, i);
        let (a, b) = choose|a: Seq<char>, b: Seq<char>|
            strung(less) == #[trigger] (a + less[i] + b);
        assert(strung(parts) =~= a + parts[i] + (b + parts.last()));
    }
}

proof fn lemma_sections(shown: Shown)
    ensures
        lines::shown_text(shown) == strung(sections(shown)),
{
    let all = sections(shown);
    assert(all.take(8) =~= all);
    assert(strung(all.take(0)) =~= Seq::<char>::empty());
    assert(all.take(1).drop_last() =~= all.take(0));
    assert(strung(all.take(1)) =~= all[0]);
    assert(all.take(2).drop_last() =~= all.take(1));
    assert(strung(all.take(2)) =~= all[0] + all[1]);
    assert(all.take(3).drop_last() =~= all.take(2));
    assert(strung(all.take(3)) =~= all[0] + all[1] + all[2]);
    assert(all.take(4).drop_last() =~= all.take(3));
    assert(strung(all.take(4)) =~= all[0] + all[1] + all[2] + all[3]);
    assert(all.take(5).drop_last() =~= all.take(4));
    assert(strung(all.take(5)) =~= all[0] + all[1] + all[2] + all[3] + all[4]);
    assert(all.take(6).drop_last() =~= all.take(5));
    assert(strung(all.take(6)) =~= all[0] + all[1] + all[2] + all[3] + all[4] + all[5]);
    assert(all.take(7).drop_last() =~= all.take(6));
    assert(strung(all.take(7)) =~= all[0] + all[1] + all[2] + all[3] + all[4] + all[5] + all[6]);
    assert(all.take(8).drop_last() =~= all.take(7));
    assert(strung(all.take(8)) =~= all[0] + all[1] + all[2] + all[3] + all[4] + all[5] + all[6]
        + all[7]);
}

proof fn lemma_section_says(shown: Shown, i: int, part: Seq<char>)
    requires
        0 <= i < 8,
        text_laws::says(sections(shown)[i], part),
    ensures
        text_laws::says(lines::shown_text(shown), part),
{
    lemma_sections(shown);
    lemma_strung_says(sections(shown), i);
    lemma_says_inside(lines::shown_text(shown), sections(shown)[i], part);
}

proof fn lemma_rows_say(rows: Seq<Row>, i: int)
    requires
        0 <= i < rows.len(),
    ensures
        text_laws::says(lines::rows_text(rows), lines::row_text(rows[i])),
    decreases rows.len(),
{
    let less = rows.drop_last();
    let part = lines::row_text(rows[i]);
    if i == rows.len() - 1 {
        assert(lines::rows_text(rows) =~= lines::rows_text(less) + part + Seq::<char>::empty());
    } else {
        lemma_rows_say(less, i);
        let (a, b) = choose|a: Seq<char>, b: Seq<char>|
            lines::rows_text(less) == #[trigger] (a + lines::row_text(less[i]) + b);
        assert(lines::rows_text(rows) =~= a + part + (b + lines::row_text(rows.last())));
    }
}

proof fn lemma_also_say(also: Seq<String>, i: int)
    requires
        0 <= i < also.len(),
    ensures
        text_laws::says(lines::also_text(also), "also: "@ + also[i]@ + "\n"@),
    decreases also.len(),
{
    let less = also.drop_last();
    let part = "also: "@ + also[i]@ + "\n"@;
    if i == also.len() - 1 {
        assert(lines::also_text(also) =~= lines::also_text(less) + part + Seq::<char>::empty());
    } else {
        lemma_also_say(less, i);
        let (a, b) = choose|a: Seq<char>, b: Seq<char>|
            lines::also_text(less) == #[trigger] (a + ("also: "@ + less[i]@ + "\n"@) + b);
        assert(lines::also_text(also) =~= a + part + (b + ("also: "@ + also.last()@ + "\n"@)));
    }
}

/// A line is shown with its number before it, behind a tab, and without its own line feed,
/// however that is written.
pub proof fn law_lines_are_shown_with_their_numbers(shown: Shown, i: int, body: Seq<char>)
    requires
        0 <= i < shown.rows@.len(),
        shown.rows@[i].text@ == body + if shown.rows@[i].encoding@ == "byte-escaped"@ {
            seq!['\\', 'x', '0', 'a']
        } else {
            seq!['\n']
        },
    ensures
        text_laws::says(
            lines::shown_text(shown),
            text::decimal(shown.rows@[i].line as nat) + seq!['\t'] + body + seq!['\n'],
        ),
{
    let row = shown.rows@[i];
    reveal_strlit("\t");
    reveal_strlit("\n");
    reveal_strlit("\\x0a");
    assert("\t"@ =~= seq!['\t']);
    assert("\n"@ =~= seq!['\n']);
    assert("\\x0a"@ =~= seq!['\\', 'x', '0', 'a']);
    let end = if row.encoding@ == "byte-escaped"@ {
        "\\x0a"@
    } else {
        "\n"@
    };
    assert(row.text@.skip(row.text@.len() - end.len()) =~= end);
    assert(row.text@.take(row.text@.len() - end.len()) =~= body);
    lemma_rows_say(shown.rows@, i);
    lemma_section_says(shown, 1, lines::row_text(row));
}

/// The last line need not end: it is shown as it is.
pub proof fn law_lines_without_end_are_shown(shown: Shown, i: int)
    requires
        0 <= i < shown.rows@.len(),
        shown.rows@[i].encoding@ != "byte-escaped"@,
        shown.rows@[i].text@.len() > 0 ==> shown.rows@[i].text@.last() != '\n',
    ensures
        text_laws::says(
            lines::shown_text(shown),
            text::decimal(shown.rows@[i].line as nat) + seq!['\t'] + shown.rows@[i].text@ + seq![
                '\n',
            ],
        ),
{
    let row = shown.rows@[i];
    reveal_strlit("\t");
    reveal_strlit("\n");
    assert("\t"@ =~= seq!['\t']);
    assert("\n"@ =~= seq!['\n']);
    if row.text@.len() >= 1 && row.text@.skip(row.text@.len() - 1) == "\n"@ {
        assert(row.text@.skip(row.text@.len() - 1)[0] == row.text@.last());
    }
    lemma_rows_say(shown.rows@, i);
    lemma_section_says(shown, 1, lines::row_text(row));
}

/// What is shown begins with the path, and the member where there is one; then it says which
/// lines these are, or that there are none.
pub proof fn law_shown_texts_begin_with_what_they_show(shown: Shown) -> (rest: Seq<char>)
    ensures
        lines::shown_text(shown) == shown.path@ + (match shown.member {
            Some(member) => " ("@ + member@ + ")"@,
            None => Seq::empty(),
        }) + (if shown.rows@.len() == 0 {
            " (empty)\n"@
        } else {
            " lines "@ + text::decimal(shown.rows@[0].line as nat) + "-"@ + text::decimal(
                shown.rows@[shown.rows@.len() - 1].line as nat,
            ) + "\n"@
        }) + rest,
{
    let all = lines::shown_text(shown);
    let head = lines::header_text(shown);
    let rest = all.skip(head.len() as int);
    assert(all =~= head + rest);
    let member = match shown.member {
        Some(member) => " ("@ + member@ + ")"@,
        None => Seq::empty(),
    };
    let which = if shown.rows@.len() == 0 {
        " (empty)\n"@
    } else {
        " lines "@ + text::decimal(shown.rows@[0].line as nat) + "-"@ + text::decimal(
            shown.rows@[shown.rows@.len() - 1].line as nat,
        ) + "\n"@
    };
    assert(head =~= shown.path@ + member + which);
    assert(all =~= shown.path@ + member + which + rest);
    rest
}

/// What is known of a source beyond its lines is told, each on a line of its own: where the
/// reading goes on, that it was cut, whether its revision was verified, that bytes are escaped,
/// its commit, and how many declarations the name has and where.
pub proof fn law_what_is_known_is_told(shown: Shown)
    ensures
        shown.next matches Some(next) ==> text_laws::says(
            lines::shown_text(shown),
            "next: "@ + next@ + "\n"@,
        ),
        shown.truncated ==> text_laws::says(lines::shown_text(shown), "truncated: true\n"@),
        shown.verified matches Some(verified) ==> text_laws::says(
            lines::shown_text(shown),
            if verified {
                "verified: true\n"@
            } else if shown.current_file {
                "verified: current file\n"@
            } else {
                "verified: false\n"@
            },
        ),
        (exists|i: int|
            0 <= i < shown.rows@.len() && (#[trigger] shown.rows@[i]).encoding@
                == "byte-escaped"@) ==> text_laws::says(
            lines::shown_text(shown),
            "encoding: byte-escaped\n"@,
        ),
        shown.commit matches Some(commit) ==> text_laws::says(
            lines::shown_text(shown),
            "commit: "@ + commit@ + "\n"@,
        ),
        shown.definitions matches Some(total) ==> text_laws::says(
            lines::shown_text(shown),
            "definitions: "@ + text::decimal(total as nat) + "\n"@,
        ),
        forall|i: int|
            0 <= i < shown.also@.len() ==> text_laws::says(
                lines::shown_text(shown),
                "also: "@ + (#[trigger] shown.also@[i])@ + "\n"@,
            ),
{
    let all = sections(shown);
    let none = Seq::<char>::empty();
    if shown.next is Some {
        let part = "next: "@ + shown.next->0@ + "\n"@;
        let back = if shown.truncated {
            "truncated: true\n"@
        } else {
            none
        };
        assert(all[2] =~= none + part + back);
        lemma_section_says(shown, 2, part);
    }
    if shown.truncated {
        let part = "truncated: true\n"@;
        let front = match shown.next {
            Some(next) => "next: "@ + next@ + "\n"@,
            None => none,
        };
        assert(all[2] =~= front + part + none);
        lemma_section_says(shown, 2, part);
    }
    if shown.verified is Some {
        assert(all[3] =~= none + all[3] + none);
        lemma_section_says(shown, 3, all[3]);
    }
    assert(all[4] =~= none + all[4] + none);
    lemma_section_says(shown, 4, all[4]);
    assert(all[5] =~= none + all[5] + none);
    lemma_section_says(shown, 5, all[5]);
    assert(all[6] =~= none + all[6] + none);
    lemma_section_says(shown, 6, all[6]);
    assert forall|i: int| 0 <= i < shown.also@.len() implies text_laws::says(
        lines::shown_text(shown),
        "also: "@ + (#[trigger] shown.also@[i])@ + "\n"@,
    ) by {
        lemma_also_say(shown.also@, i);
        lemma_section_says(shown, 7, "also: "@ + shown.also@[i]@ + "\n"@);
    }
}

/// Bytes that are no UTF-8 are shown one by one: printable ones, but for the backslash, as they
/// are; others as a backslash, an x and two hexadecimal digits.
pub proof fn law_bytes_are_shown_one_by_one(a: Seq<u8>, b: Seq<u8>, byte: u8)
    ensures
        source::shown_bytes(a + b) == source::shown_bytes(a) + source::shown_bytes(b),
        source::shown_bytes(seq![byte]) == if 32 <= byte < 127 && byte != 92 {
            seq![byte as char]
        } else {
            seq!['\\', 'x'] + digest::hex(seq![byte])
        },
    decreases b.len(),
{
    assert(seq![byte].drop_last() =~= Seq::<u8>::empty());
    assert(source::shown_bytes(Seq::<u8>::empty()) =~= Seq::<char>::empty());
    assert(source::shown_bytes(seq![byte]) =~= if 32 <= byte < 127 && byte != 92 {
        seq![byte as char]
    } else {
        seq!['\\', 'x'] + digest::hex(seq![byte])
    });
    if b.len() == 0 {
        assert(a + b =~= a);
        assert(source::shown_bytes(a) + source::shown_bytes(b) =~= source::shown_bytes(a));
    } else {
        law_bytes_are_shown_one_by_one(a, b.drop_last(), byte);
        assert((a + b).drop_last() =~= a + b.drop_last());
        assert((a + b).last() == b.last());
        assert(source::shown_bytes(a + b) =~= source::shown_bytes(a) + source::shown_bytes(b));
    }
}

/// The text of a line that is UTF-8 is the line; any other is shown byte by byte, and says so.
pub proof fn law_lines_are_shown_as_text_where_they_are(bytes: Seq<u8>)
    ensures
        utf8::valid_utf8(bytes) ==> utf8::encode_utf8(source::display_of(bytes).0) == bytes
            && source::display_of(bytes).1 == "utf8"@,
        !utf8::valid_utf8(bytes) ==> source::display_of(bytes) == (
            source::shown_bytes(bytes),
            "byte-escaped"@,
        ),
{
    if utf8::valid_utf8(bytes) {
        utf8::decode_utf8_encode_utf8(bytes);
    }
}

/// What is read is what the reader gave, of a file that was not too long before and is not after;
/// all else is refused.
pub proof fn law_only_files_within_the_limit_are_read<R: FnOnce() -> Result<Vec<u8>, Failure>>(
    opened: Result<Found, Failure>,
    limit: usize,
    read: R,
    result: Result<Vec<u8>, Failure>,
)
    requires
        source::read_opened(opened, limit, read, result),
    ensures
        result matches Ok(bytes) ==> {
            &&& opened is Ok
            &&& opened->Ok_0.is_file
            &&& opened->Ok_0.length <= limit
            &&& bytes@.len() <= limit
            &&& call_ensures(read, (), Ok::<Vec<u8>, Failure>(bytes))
        },
        opened is Err ==> result is Err && result->Err_0 == opened->Err_0,
        opened is Ok && opened->Ok_0.is_file && opened->Ok_0.length <= limit ==> exists|
            bytes: Result<Vec<u8>, Failure>,
        | #[trigger]
            call_ensures(read, (), bytes) && (bytes is Ok && bytes->Ok_0@.len() <= limit ==> result
                == bytes),
{
}

/// Metadata is added to what a response says and never replaces it: it is refused just where it
/// is no object, or has a key that the response has.
pub proof fn law_metadata_replaces_nothing(
    source: AcquiredSource,
    keys: Option<Seq<String>>,
    i: int,
)
    ensures
        keys is None ==> render::metadata_fault(source, keys) is Some,
        keys is Some && 0 <= i < keys->0.len() && {
            let key = keys->0[i]@;
            ||| key == "path"@ || key == "revision"@ || key == "verified"@ || key == "start"@
            ||| key == "end"@ || key == "lines"@ || key == "truncated"@ || key == "next"@
            ||| key == "tokenizer"@
            ||| key == "historical"@ && source.historical is Some
            ||| key == "source"@ && !source.verified && source.historical is None
            ||| (key == "definitions"@ || key == "also"@) && source.definitions is Some
        } ==> render::metadata_fault(source, keys) is Some,
        keys is Some && (forall|k: int|
            0 <= k < keys->0.len() ==> !render::response_key(source, (#[trigger] keys->0[k])@))
            ==> render::metadata_fault(source, keys) is None,
{
    if keys is Some && 0 <= i < keys->0.len() {
        let key = keys->0[i]@;
        assert(render::response_key(source, key) ==> render::collides(source, keys->0));
    }
}

/// Metadata with other keys is added.
pub proof fn law_other_metadata_is_added(source: AcquiredSource, key: Seq<char>)
    requires
        key != "path"@ && key != "revision"@ && key != "verified"@ && key != "start"@,
        key != "end"@ && key != "lines"@ && key != "truncated"@ && key != "next"@,
        key != "tokenizer"@,
        key == "historical"@ ==> source.historical is None,
        key == "source"@ ==> source.verified || source.historical is Some,
        key == "definitions"@ || key == "also"@ ==> source.definitions is None,
    ensures
        !render::response_key(source, key),
{
}

} // verus!

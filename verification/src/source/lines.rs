//! A shown source as plain text: a header, the lines, and a footer.

use crate::text;
use vstd::prelude::*;
use vstd::string::StringExecFns;

verus! {

/// A line of a source: its number, its span, its text, and how that is written.
#[derive(Debug)]
pub struct Row {
    pub line: u64,
    pub start: u64,
    pub end: u64,
    pub text: String,
    pub encoding: String,
}

/// What is shown of a source.
#[derive(Debug)]
pub struct Shown {
    pub path: String,
    pub member: Option<String>,
    pub rows: Vec<Row>,
    pub next: Option<String>,
    pub truncated: bool,
    pub verified: Option<bool>,
    /// Whether this is the current file, and not an indexed revision of it.
    pub current_file: bool,
    pub commit: Option<String>,
    pub definitions: Option<u64>,
    pub also: Vec<String>,
}

/// A text without another one at its end.
pub open spec fn without_end(s: Seq<char>, end: Seq<char>) -> Seq<char> {
    if s.len() >= end.len() && s.skip(s.len() - end.len()) == end {
        s.take(s.len() - end.len())
    } else {
        s
    }
}

fn strip_end(s: &str, end: &str) -> (result: String)
    ensures
        result@ == without_end(s@, end@),
{
    let all = text::chars_of(s);
    let tail = text::chars_of(end);
    if all.len() < tail.len() {
        return text::text_of(all.as_slice());
    }
    let cut: usize = all.len() - tail.len();
    let mut i: usize = 0;
    while i < tail.len()
        invariant
            i <= tail.len() <= all.len(),
            all@ == s@,
            tail@ == end@,
            cut == all.len() - tail.len(),
            forall|k: int| 0 <= k < i ==> all@[cut + k] == tail@[k],
        decreases tail.len() - i,
    {
        if all[cut + i] != tail[i] {
            assert(s@.skip(cut as int)[i as int] != end@[i as int]);
            return text::text_of(all.as_slice());
        }
        i += 1;
    }
    assert(s@.skip(cut as int) =~= end@);
    assert(all@.subrange(0, cut as int) =~= s@.take(cut as int));
    text::text_of(&all.as_slice()[0..cut])
}

/// A line as it is shown: its number, a tab, and its text without the line feed.
pub open spec fn row_text(row: Row) -> Seq<char> {
    text::decimal(row.line as nat) + "\t"@ + without_end(
        row.text@,
        if row.encoding@ == "byte-escaped"@ {
            "\\x0a"@
        } else {
            "\n"@
        },
    ) + "\n"@
}

/// Lines as they are shown.
pub open spec fn rows_text(rows: Seq<Row>) -> Seq<char>
    decreases rows.len(),
{
    if rows.len() == 0 {
        Seq::empty()
    } else {
        rows_text(rows.drop_last()) + row_text(rows.last())
    }
}

/// Whether some line is written byte by byte.
pub open spec fn any_escaped(rows: Seq<Row>) -> bool {
    exists|i: int| 0 <= i < rows.len() && (#[trigger] rows[i]).encoding@ == "byte-escaped"@
}

/// The header: the path, the member of the workspace, and the lines.
pub open spec fn header_text(shown: Shown) -> Seq<char> {
    let named = match shown.member {
        Some(member) => shown.path@ + " ("@ + member@ + ")"@,
        None => shown.path@,
    };
    if shown.rows.len() > 0 {
        named + " lines "@ + text::decimal(shown.rows@[0].line as nat) + "-"@ + text::decimal(
            shown.rows@.last().line as nat,
        ) + "\n"@
    } else {
        named + " (empty)\n"@
    }
}

/// How the reading goes on.
pub open spec fn footer_text(next: Option<String>, truncated: bool) -> Seq<char> {
    let cursor = match next {
        Some(next) => "next: "@ + next@ + "\n"@,
        None => Seq::empty(),
    };
    if truncated {
        cursor + "truncated: true\n"@
    } else {
        cursor
    }
}

/// Whether the revision was verified.
pub open spec fn verified_text(shown: Shown) -> Seq<char> {
    match shown.verified {
        Some(verified) => if verified {
            "verified: true\n"@
        } else if shown.current_file {
            "verified: current file\n"@
        } else {
            "verified: false\n"@
        },
        None => Seq::empty(),
    }
}

/// Where else the name is declared.
pub open spec fn also_text(also: Seq<String>) -> Seq<char>
    decreases also.len(),
{
    if also.len() == 0 {
        Seq::empty()
    } else {
        also_text(also.drop_last()) + ("also: "@ + also.last()@ + "\n"@)
    }
}

/// What is shown of a source, as plain text.
pub open spec fn shown_text(shown: Shown) -> Seq<char> {
    header_text(shown) + rows_text(shown.rows@) + footer_text(shown.next, shown.truncated)
        + verified_text(shown) + (if any_escaped(shown.rows@) {
        "encoding: byte-escaped\n"@
    } else {
        Seq::empty()
    }) + (match shown.commit {
        Some(commit) => "commit: "@ + commit@ + "\n"@,
        None => Seq::empty(),
    }) + (match shown.definitions {
        Some(total) => "definitions: "@ + text::decimal(total as nat) + "\n"@,
        None => Seq::empty(),
    }) + also_text(shown.also@)
}

/// Adds a labelled value on a line of its own.
fn labelled(label: &str, value: &str, out: &mut String)
    ensures
        final(out)@ == old(out)@ + (label@ + value@ + "\n"@),
{
    out.append(label);
    out.append(value);
    out.append("\n");
    assert(out@ =~= old(out)@ + (label@ + value@ + "\n"@));
}

/// Adds how the reading goes on.
fn footer(next: &Option<String>, truncated: bool, out: &mut String)
    ensures
        final(out)@ == old(out)@ + footer_text(*next, truncated),
{
    match next {
        Some(next) => labelled("next: ", next.as_str(), out),
        None => {},
    }
    if truncated {
        out.append("truncated: true\n");
    }
    assert(out@ =~= old(out)@ + footer_text(*next, truncated));
}

fn header(shown: &Shown) -> (out: String)
    ensures
        out@ == header_text(*shown),
{
    let mut out = shown.path.clone();
    match &shown.member {
        Some(member) => {
            out.append(" (");
            out.append(member.as_str());
            out.append(")");
        },
        None => {},
    }
    if shown.rows.len() > 0 {
        out.append(" lines ");
        out.append(text::decimal_text(shown.rows[0].line).as_str());
        out.append("-");
        out.append(text::decimal_text(shown.rows[shown.rows.len() - 1].line).as_str());
        out.append("\n");
    } else {
        out.append(" (empty)\n");
    }
    out
}

fn push_row(row: &Row, out: &mut String) -> (byte_escaped: bool)
    ensures
        final(out)@ == old(out)@ + row_text(*row),
        byte_escaped == (row.encoding@ == "byte-escaped"@),
{
    let byte_escaped = text::same_text(row.encoding.as_str(), "byte-escaped");
    out.append(text::decimal_text(row.line).as_str());
    out.append("\t");
    let stripped = if byte_escaped {
        strip_end(row.text.as_str(), "\\x0a")
    } else {
        strip_end(row.text.as_str(), "\n")
    };
    out.append(stripped.as_str());
    out.append("\n");
    assert(out@ =~= old(out)@ + row_text(*row));
    byte_escaped
}

fn push_rows(rows: &Vec<Row>, out: &mut String) -> (escaped: bool)
    ensures
        final(out)@ == old(out)@ + rows_text(rows@),
        escaped == any_escaped(rows@),
{
    let ghost head = out@;
    let mut escaped = false;
    let mut i: usize = 0;
    assert(head + Seq::<char>::empty() =~= head);
    while i < rows.len()
        invariant
            i <= rows.len(),
            out@ == head + rows_text(rows@.take(i as int)),
            escaped == any_escaped(rows@.take(i as int)),
        decreases rows.len() - i,
    {
        let ghost shorter = rows@.take(i as int);
        let ghost longer = rows@.take(i + 1);
        let byte_escaped = push_row(&rows[i], out);
        proof {
            assert(longer.drop_last() =~= shorter);
            assert(longer.last() == rows@[i as int]);
            assert(out@ =~= head + rows_text(longer));
            lemma_escaped(shorter, rows@[i as int]);
            assert(shorter.push(rows@[i as int]) =~= longer);
        }
        escaped = escaped || byte_escaped;
        i += 1;
    }
    assert(rows@.take(i as int) =~= rows@);
    escaped
}

proof fn lemma_escaped(rows: Seq<Row>, row: Row)
    ensures
        any_escaped(rows.push(row)) == (any_escaped(rows) || row.encoding@ == "byte-escaped"@),
{
    let longer = rows.push(row);
    if any_escaped(longer) {
        let k = choose|k: int|
            0 <= k < longer.len() && (#[trigger] longer[k]).encoding@ == "byte-escaped"@;
        if k < rows.len() {
            assert(rows[k] == longer[k]);
        }
    }
    if any_escaped(rows) {
        let k = choose|k: int|
            0 <= k < rows.len() && (#[trigger] rows[k]).encoding@ == "byte-escaped"@;
        assert(longer[k] == rows[k]);
    }
    if row.encoding@ == "byte-escaped"@ {
        assert(longer[rows.len() as int] == row);
    }
}

fn push_also(also: &Vec<String>, out: &mut String)
    ensures
        final(out)@ == old(out)@ + also_text(also@),
{
    let ghost body = out@;
    let mut k: usize = 0;
    assert(body + Seq::<char>::empty() =~= body);
    while k < also.len()
        invariant
            k <= also.len(),
            out@ == body + also_text(also@.take(k as int)),
        decreases also.len() - k,
    {
        assert(also@.take(k + 1).drop_last() =~= also@.take(k as int));
        labelled("also: ", also[k].as_str(), out);
        assert(out@ =~= body + also_text(also@.take(k + 1)));
        k += 1;
    }
    assert(also@.take(k as int) =~= also@);
}

fn push_verified(shown: &Shown, out: &mut String)
    ensures
        final(out)@ == old(out)@ + verified_text(*shown),
{
    match shown.verified {
        Some(verified) => {
            if verified {
                out.append("verified: true\n");
            } else if shown.current_file {
                out.append("verified: current file\n");
            } else {
                out.append("verified: false\n");
            }
        },
        None => {
            assert(out@ + Seq::<char>::empty() =~= out@);
        },
    }
}

/// What is shown of a source, as plain text.
pub fn show_text(shown: &Shown) -> (out: String)
    ensures
        out@ == shown_text(*shown),
{
    let mut out = header(shown);
    let escaped = push_rows(&shown.rows, &mut out);
    footer(&shown.next, shown.truncated, &mut out);
    push_verified(shown, &mut out);
    let ghost head = out@;
    if escaped {
        out.append("encoding: byte-escaped\n");
    } else {
        assert(head + Seq::<char>::empty() =~= head);
    }
    let ghost head = out@;
    match &shown.commit {
        Some(commit) => labelled("commit: ", commit.as_str(), &mut out),
        None => {
            assert(head + Seq::<char>::empty() =~= head);
        },
    }
    let ghost head = out@;
    match shown.definitions {
        Some(total) => labelled("definitions: ", text::decimal_text(total).as_str(), &mut out),
        None => {
            assert(head + Seq::<char>::empty() =~= head);
        },
    }
    push_also(&shown.also, &mut out);
    out
}

} // verus!

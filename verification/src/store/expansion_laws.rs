//! What the words of a text are, in its expansion.

use crate::store::regions;
use crate::unicode;
use vstd::prelude::*;

verus! {

/// What a text is expanded to.
pub open spec fn expanded(text: Seq<char>) -> Seq<char> {
    regions::expansion(text, text.len() as int)
}

/// Whether a character parts words wherever it stands: an underscore, or no letter or number.
pub open spec fn parts_words(c: char) -> bool {
    c == '_' || !unicode::alphanumeric(c)
}

/// Whether the last letter of a text turns out to begin a word once a character follows: it is
/// the last of several uppercase letters, and the character is a lowercase letter.
pub open spec fn turns_into_word(text: Seq<char>, next: char) -> bool {
    &&& text.len() > 1
    &&& unicode::uppercase(text[text.len() - 2])
    &&& unicode::uppercase(text.last())
    &&& unicode::lowercase(next)
}

/// What stands between two texts in the expansion of both: a space, where an uppercase letter
/// follows a lowercase letter or a digit, or follows an uppercase letter and begins a lowercase
/// word.
pub open spec fn gap(a: Seq<char>, b: Seq<char>) -> Seq<char> {
    if !parts_words(b[0]) && unicode::uppercase(b[0]) && (unicode::lowercase(a.last()) || 48
        <= a.last() as u32 <= 57 || (unicode::uppercase(a.last()) && b.len() > 1
        && unicode::lowercase(b[1]))) {
        seq![' ']
    } else {
        Seq::empty()
    }
}

proof fn lemma_front(a: Seq<char>, b: Seq<char>, n: int)
    requires
        a.len() > 0,
        b.len() > 0,
        !turns_into_word(a, b[0]),
        0 <= n <= a.len(),
    ensures
        regions::expansion(a + b, n) == regions::expansion(a, n),
    decreases n,
{
    if n > 0 {
        lemma_front(a, b, n - 1);
        let i = n - 1;
        let both = a + b;
        assert(both[i] == a[i]);
        if i > 0 {
            assert(both[i - 1] == a[i - 1]);
        }
        if i + 1 < a.len() {
            assert(both[i + 1] == a[i + 1]);
        } else {
            assert(both[i + 1] == b[0]);
            assert(a[i] == a.last());
        }
        assert(regions::expansion_at(both, i) == regions::expansion_at(a, i));
    }
}

proof fn lemma_back(a: Seq<char>, b: Seq<char>, n: int)
    requires
        a.len() > 0,
        b.len() > 0,
        1 <= n <= b.len(),
    ensures
        regions::expansion(a + b, a.len() + n) == regions::expansion(a + b, a.len() as int) + gap(
            a,
            b,
        ) + regions::expansion(b, n),
    decreases n,
{
    let both = a + b;
    let at = a.len() + n - 1;
    let front = regions::expansion(both, a.len() as int);
    assert(both[at] == b[n - 1]);
    if n < b.len() {
        assert(both[at + 1] == b[n]);
    }
    if n == 1 {
        assert(both[at - 1] == a.last());
        assert(regions::expansion(b, 0) =~= Seq::<char>::empty());
        assert(regions::expansion(b, 1) =~= regions::expansion_at(b, 0));
        assert(!regions::word_begins(b, 0));
        assert(regions::expansion_at(both, at) =~= gap(a, b) + regions::expansion_at(b, 0));
        assert(regions::expansion(both, at + 1) =~= front + gap(a, b) + regions::expansion(b, 1));
    } else {
        lemma_back(a, b, n - 1);
        assert(both[at - 1] == b[n - 2]);
        assert(regions::expansion_at(both, at) == regions::expansion_at(b, n - 1));
        assert(regions::expansion(both, at + 1) =~= front + gap(a, b) + regions::expansion(b, n));
    }
}

/// The expansion of two texts, one behind the other, is that of both, with a space between them
/// only where a word begins with an uppercase letter there.
pub proof fn law_expansions_follow_each_other(a: Seq<char>, b: Seq<char>)
    requires
        a.len() > 0,
        b.len() > 0,
        !turns_into_word(a, b[0]),
    ensures
        expanded(a + b) == expanded(a) + gap(a, b) + expanded(b),
{
    lemma_front(a, b, a.len() as int);
    lemma_back(a, b, b.len() as int);
}

/// A character that is no letter or number, or an underscore, becomes a space; any other one
/// becomes its lowercase letter.
pub proof fn law_characters_are_lowered(c: char)
    ensures
        c == '_' || !unicode::alphanumeric(c) ==> expanded(seq![c]) == seq![' '],
        c != '_' && unicode::alphanumeric(c) ==> expanded(seq![c]) == unicode::lowered(c),
        'a' <= c <= 'z' || '0' <= c <= '9' ==> expanded(seq![c]) == seq![c],
        'A' <= c <= 'Z' ==> expanded(seq![c]) == seq![(c as u32 + 32) as char],
        expanded(Seq::empty()) == Seq::<char>::empty(),
{
    let text = seq![c];
    assert(regions::expansion(text, 0) =~= Seq::<char>::empty());
    assert(!regions::word_begins(text, 0));
    assert(expanded(text) =~= regions::expansion_at(text, 0));
    if 'a' <= c <= 'z' || '0' <= c <= '9' || 'A' <= c <= 'Z' {
        assert(unicode::lowered(c) =~= seq![unicode::ascii_lowered(c)]);
    }
}

/// Words are parted by every underscore, and by every character that is neither a letter nor a
/// number: what is before it and what is behind it are expanded each for itself, with a space
/// between them.
pub proof fn law_separators_part_words(a: Seq<char>, c: char, b: Seq<char>)
    requires
        c == '_' || !unicode::alphanumeric(c),
        (c as u32) < 128 || (!unicode::uppercase(c) && !unicode::lowercase(c)),
    ensures
        expanded(a + seq![c] + b) == expanded(a) + seq![' '] + expanded(b),
{
    law_characters_are_lowered(c);
    let middle = seq![c];
    assert(middle[0] == c && middle.last() == c);
    let front = a + middle;
    assert(front.last() == c);
    if a.len() > 0 {
        law_expansions_follow_each_other(a, middle);
        assert(expanded(front) =~= expanded(a) + seq![' ']);
    } else {
        assert(front =~= middle);
        assert(expanded(a) =~= Seq::<char>::empty());
        assert(expanded(front) =~= expanded(a) + seq![' ']);
    }
    if b.len() > 0 {
        law_expansions_follow_each_other(front, b);
        assert(gap(front, b) =~= Seq::<char>::empty());
        assert(expanded(front + b) =~= expanded(a) + seq![' '] + expanded(b));
    } else {
        assert(front + b =~= front);
        assert(expanded(b) =~= Seq::<char>::empty());
        assert(expanded(front) =~= expanded(a) + seq![' '] + expanded(b));
    }
}

/// A word begins with an uppercase letter behind a lowercase letter or a digit.
pub proof fn law_rising_case_parts_words(a: Seq<char>, b: Seq<char>)
    requires
        a.len() > 0,
        b.len() > 0,
        unicode::lowercase(a.last()) || '0' <= a.last() <= '9',
        unicode::uppercase(b[0]) && unicode::alphanumeric(b[0]) && !unicode::lowercase(b[0]),
    ensures
        expanded(a + b) == expanded(a) + seq![' '] + expanded(b),
{
    law_expansions_follow_each_other(a, b);
}

/// The last of several uppercase letters begins a word where a lowercase letter follows it.
pub proof fn law_acronyms_end_before_words(a: Seq<char>, b: Seq<char>)
    requires
        a.len() > 0,
        b.len() > 1,
        unicode::uppercase(a.last()),
        unicode::uppercase(b[0]) && unicode::alphanumeric(b[0]) && !unicode::lowercase(b[0]),
        unicode::lowercase(b[1]),
    ensures
        expanded(a + b) == expanded(a) + seq![' '] + expanded(b),
{
    law_expansions_follow_each_other(a, b);
}

/// No word begins with a character that is not an uppercase letter, behind another letter or
/// number; nor with an uppercase letter between others.
pub proof fn law_words_run_on(a: Seq<char>, b: Seq<char>)
    requires
        a.len() > 0,
        b.len() > 0,
        ({
            ||| !unicode::uppercase(b[0]) && !unicode::uppercase(a.last())
            ||| !unicode::uppercase(b[0]) && a.len() == 1
            ||| {
                &&& unicode::uppercase(a.last()) && !unicode::lowercase(a.last())
                &&& unicode::uppercase(b[0]) && !unicode::lowercase(b[0])
                &&& b.len() == 1 || !unicode::lowercase(b[1])
            }
        }),
    ensures
        expanded(a + b) == expanded(a) + expanded(b),
{
    if unicode::uppercase(a.last()) && '0' <= a.last() <= '9' {
        assert(unicode::ascii(a.last()));
    }
    law_expansions_follow_each_other(a, b);
    assert(gap(a, b) =~= Seq::<char>::empty());
    assert(expanded(a) + Seq::<char>::empty() =~= expanded(a));
}

/// Text of lowercase letters and digits is its own expansion.
pub proof fn law_lowercase_text_stays(text: Seq<char>)
    requires
        forall|i: int|
            0 <= i < text.len() ==> 'a' <= #[trigger] text[i] <= 'z' || '0' <= text[i] <= '9',
    ensures
        expanded(text) == text,
    decreases text.len(),
{
    if text.len() == 0 {
        assert(expanded(text) =~= text);
    } else {
        let front = text.drop_last();
        let last = seq![text.last()];
        assert(front + last =~= text);
        law_lowercase_text_stays(front);
        law_characters_are_lowered(text.last());
        if front.len() > 0 {
            assert(front.last() == text[text.len() - 2]);
            assert(last[0] == text[text.len() - 1]);
            law_words_run_on(front, last);
        } else {
            assert(last =~= text);
        }
    }
}

} // verus!

//! What holds of the texts that are taken apart, read and put in order.

use crate::text;
use crate::unicode;
use vstd::prelude::*;

verus! {

/// Whether a text stands somewhere in another.
pub open spec fn says(whole: Seq<char>, part: Seq<char>) -> bool {
    exists|front: Seq<char>, back: Seq<char>| whole == #[trigger] (front + part + back)
}

/// Whether a text has nowhere a character.
pub open spec fn is_free_of(s: Seq<char>, c: char) -> bool {
    forall|i: int| 0 <= i < s.len() ==> #[trigger] s[i] != c
}

/// Whether a text is nothing but whitespace.
pub open spec fn is_space(s: Seq<char>) -> bool {
    forall|i: int| 0 <= i < s.len() ==> unicode::whitespace(#[trigger] s[i])
}

/// Whether a text is one word: not empty, and without whitespace.
pub open spec fn is_word(s: Seq<char>) -> bool {
    s.len() > 0 && forall|i: int| 0 <= i < s.len() ==> !unicode::whitespace(#[trigger] s[i])
}

proof fn lemma_parts_exist(s: Seq<char>, sep: char)
    ensures
        text::parts(s, sep).len() > 0,
    decreases s.len(),
{
    if s.len() > 0 {
        lemma_parts_exist(s.drop_last(), sep);
    }
}

/// A text is split at each separator: the parts of two texts with a separator between them are
/// the parts of the one and those of the other.
pub proof fn law_parts_follow_each_other(a: Seq<char>, b: Seq<char>, sep: char)
    ensures
        text::parts(a + seq![sep] + b, sep) == text::parts(a, sep) + text::parts(b, sep),
    decreases b.len(),
{
    let whole = a + seq![sep] + b;
    if b.len() == 0 {
        assert(whole.drop_last() =~= a);
        assert(whole.last() == sep);
        assert(text::parts(whole, sep) =~= text::parts(a, sep) + text::parts(b, sep));
    } else {
        let shorter = b.drop_last();
        law_parts_follow_each_other(a, shorter, sep);
        lemma_parts_exist(shorter, sep);
        assert(whole.drop_last() =~= a + seq![sep] + shorter);
        assert(whole.last() == b.last());
        let front = text::parts(a, sep);
        let back = text::parts(shorter, sep);
        assert((front + back).last() == back.last());
        assert((front + back).drop_last() =~= front + back.drop_last());
        assert(text::parts(whole, sep) =~= front + text::parts(b, sep));
    }
}

/// A text without a separator is its only part.
pub proof fn law_texts_without_separator_are_one_part(s: Seq<char>, sep: char)
    requires
        is_free_of(s, sep),
    ensures
        text::parts(s, sep) == seq![s],
    decreases s.len(),
{
    if s.len() > 0 {
        let shorter = s.drop_last();
        assert(is_free_of(shorter, sep)) by {
            assert forall|i: int| 0 <= i < shorter.len() implies #[trigger] shorter[i] != sep by {
                assert(shorter[i] == s[i]);
            }
        }
        law_texts_without_separator_are_one_part(shorter, sep);
        assert(s.last() == s[s.len() - 1]);
        assert(shorter.push(s.last()) =~= s);
        assert(text::parts(s, sep) =~= seq![s]);
    } else {
        assert(s =~= Seq::<char>::empty());
    }
}

/// The lines of a text: what stands before the first newline, without a carriage return before
/// it, and then the lines of what follows. What does not end is a line unless it is empty.
pub proof fn law_lines_end_with_newlines(line: Seq<char>, rest: Seq<char>)
    requires
        is_free_of(line, '\n'),
    ensures
        text::lines(line + seq!['\n'] + rest) == seq![
            if line.len() > 0 && line.last() == '\r' {
                line.drop_last()
            } else {
                line
            },
        ] + text::lines(rest),
        text::lines(line) == if line.len() == 0 {
            Seq::empty()
        } else {
            seq![line]
        },
{
    law_parts_follow_each_other(line, rest, '\n');
    law_texts_without_separator_are_one_part(line, '\n');
    lemma_parts_exist(rest, '\n');
    let all = text::parts(line + seq!['\n'] + rest, '\n');
    let later = text::parts(rest, '\n');
    assert(all =~= seq![line] + later);
    assert(all.last() == later.last());
    let ended = Seq::new((all.len() - 1) as nat, |i: int| text::without_return(all[i]));
    let others = Seq::new((later.len() - 1) as nat, |i: int| text::without_return(later[i]));
    assert(ended =~= seq![text::without_return(line)] + others);
    assert(text::lines(line + seq!['\n'] + rest) =~= seq![text::without_return(line)]
        + text::lines(rest));
    assert(text::lines(line) =~= if line.len() == 0 {
        Seq::empty()
    } else {
        seq![line]
    });
}

proof fn lemma_trimmed_start(s: Seq<char>) -> (front: Seq<char>)
    ensures
        s == front + text::trimmed_start(s),
        is_space(front),
        text::trimmed_start(s).len() > 0 ==> !unicode::whitespace(text::trimmed_start(s)[0]),
    decreases s.len(),
{
    if s.len() > 0 && unicode::whitespace(s[0]) {
        let rest = lemma_trimmed_start(s.drop_first());
        let front = seq![s[0]] + rest;
        assert(s =~= seq![s[0]] + s.drop_first());
        assert(s =~= front + text::trimmed_start(s));
        assert forall|i: int| 0 <= i < front.len() implies unicode::whitespace(
            #[trigger] front[i],
        ) by {
            if i > 0 {
                assert(front[i] == rest[i - 1]);
            }
        }
        front
    } else {
        assert(s =~= Seq::<char>::empty() + s);
        Seq::empty()
    }
}

proof fn lemma_trimmed_end(s: Seq<char>) -> (back: Seq<char>)
    ensures
        s == text::trimmed_end(s) + back,
        is_space(back),
        text::trimmed_end(s).len() > 0 ==> !unicode::whitespace(text::trimmed_end(s).last()),
    decreases s.len(),
{
    if s.len() > 0 && unicode::whitespace(s.last()) {
        let rest = lemma_trimmed_end(s.drop_last());
        let back = rest.push(s.last());
        assert(s =~= s.drop_last().push(s.last()));
        assert(s =~= text::trimmed_end(s) + back);
        assert forall|i: int| 0 <= i < back.len() implies unicode::whitespace(
            #[trigger] back[i],
        ) by {
            if i < rest.len() {
                assert(back[i] == rest[i]);
            }
        }
        back
    } else {
        assert(s =~= s + Seq::<char>::empty());
        Seq::empty()
    }
}

/// Trimming takes away whitespace at both ends, all of it, and nothing else.
pub proof fn law_trimming_takes_the_whitespace_around(s: Seq<char>) -> (around: (
    Seq<char>,
    Seq<char>,
))
    ensures
        s == around.0 + text::trimmed(s) + around.1,
        is_space(around.0),
        is_space(around.1),
        text::trimmed(s).len() > 0 ==> !unicode::whitespace(text::trimmed(s)[0])
            && !unicode::whitespace(text::trimmed(s).last()),
{
    let front = lemma_trimmed_start(s);
    let middle = text::trimmed_start(s);
    let back = lemma_trimmed_end(middle);
    assert(s =~= front + text::trimmed(s) + back);
    if text::trimmed(s).len() > 0 {
        assert(middle[0] == text::trimmed(s)[0]);
    }
    (front, back)
}

/// What has whitespace around it is what is left once that is trimmed.
pub proof fn law_trimming_leaves_the_text(front: Seq<char>, s: Seq<char>, back: Seq<char>)
    requires
        is_space(front),
        is_space(back),
        s.len() > 0,
        !unicode::whitespace(s[0]),
        !unicode::whitespace(s.last()),
    ensures
        text::trimmed(front + s + back) == s,
{
    lemma_start_goes(front, s + back);
    assert(front + s + back =~= front + (s + back));
    lemma_end_goes(s, back);
}

proof fn lemma_start_goes(front: Seq<char>, rest: Seq<char>)
    requires
        is_space(front),
        rest.len() > 0,
        !unicode::whitespace(rest[0]),
    ensures
        text::trimmed_start(front + rest) == rest,
    decreases front.len(),
{
    if front.len() == 0 {
        assert(front + rest =~= rest);
    } else {
        let less = front.drop_first();
        assert forall|i: int| 0 <= i < less.len() implies unicode::whitespace(
            #[trigger] less[i],
        ) by {
            assert(less[i] == front[i + 1]);
        }
        lemma_start_goes(less, rest);
        assert((front + rest).drop_first() =~= less + rest);
        assert((front + rest)[0] == front[0]);
    }
}

proof fn lemma_end_goes(s: Seq<char>, back: Seq<char>)
    requires
        is_space(back),
        s.len() > 0,
        !unicode::whitespace(s.last()),
    ensures
        text::trimmed_end(s + back) == s,
    decreases back.len(),
{
    if back.len() == 0 {
        assert(s + back =~= s);
    } else {
        let less = back.drop_last();
        assert forall|i: int| 0 <= i < less.len() implies unicode::whitespace(
            #[trigger] less[i],
        ) by {
            assert(less[i] == back[i]);
        }
        lemma_end_goes(s, less);
        assert((s + back).drop_last() =~= s + less);
        assert((s + back).last() == back[back.len() - 1]);
    }
}

/// The words of a text that has ended with whitespace.
proof fn lemma_words_so_far(a: Seq<char>, space: char, b: Seq<char>)
    requires
        unicode::whitespace(space),
    ensures
        text::words_so_far(a + seq![space] + b) == (
            text::words(a) + text::words_so_far(b).0,
            text::words_so_far(b).1,
        ),
    decreases b.len(),
{
    let whole = a + seq![space] + b;
    if b.len() == 0 {
        assert(whole.drop_last() =~= a);
        assert(whole.last() == space);
        assert(text::words(a) + Seq::<Seq<char>>::empty() =~= text::words(a));
        assert(text::words_so_far(whole).0 =~= text::words(a));
    } else {
        let shorter = b.drop_last();
        lemma_words_so_far(a, space, shorter);
        assert(whole.drop_last() =~= a + seq![space] + shorter);
        assert(whole.last() == b.last());
        let (ended, current) = text::words_so_far(shorter);
        assert((text::words(a) + ended).push(current) =~= text::words(a) + ended.push(current));
    }
}

/// Words are parted by whitespace: the words of two texts with whitespace between them are the
/// words of the one and those of the other.
pub proof fn law_words_are_parted_by_whitespace(a: Seq<char>, space: char, b: Seq<char>)
    requires
        unicode::whitespace(space),
    ensures
        text::words(a + seq![space] + b) == text::words(a) + text::words(b),
{
    lemma_words_so_far(a, space, b);
    assert(text::words(a + seq![space] + b) =~= text::words(a) + text::words(b));
}

/// A text without whitespace is its only word; an empty one has none.
pub proof fn law_texts_without_whitespace_are_one_word(s: Seq<char>)
    ensures
        is_word(s) ==> text::words(s) == seq![s],
        s.len() == 0 ==> text::words(s).len() == 0,
{
    if is_word(s) {
        lemma_word_so_far(s);
        assert(text::words(s) =~= seq![s]);
    }
}

proof fn lemma_word_so_far(s: Seq<char>)
    requires
        forall|i: int| 0 <= i < s.len() ==> !unicode::whitespace(#[trigger] s[i]),
    ensures
        text::words_so_far(s) == (Seq::<Seq<char>>::empty(), s),
    decreases s.len(),
{
    if s.len() > 0 {
        let shorter = s.drop_last();
        assert forall|i: int| 0 <= i < shorter.len() implies !unicode::whitespace(
            #[trigger] shorter[i],
        ) by {
            assert(shorter[i] == s[i]);
        }
        lemma_word_so_far(shorter);
        assert(s.last() == s[s.len() - 1]);
        assert(shorter.push(s.last()) =~= s);
    } else {
        assert(s =~= Seq::<char>::empty());
    }
}

/// The first character that is not the same puts two texts in order, and a text comes before
/// the longer ones that begin with it.
pub proof fn law_texts_are_ordered_by_their_first_difference(
    front: Seq<char>,
    a: Seq<char>,
    b: Seq<char>,
)
    ensures
        a.len() > 0 && b.len() > 0 && a[0] != b[0] ==> (text::comes_before(front + a, front + b)
            <==> (a[0] as int) < (b[0] as int)),
        b.len() > 0 ==> text::comes_before(front, front + b),
        !text::comes_before(front + a, front),
    decreases front.len(),
{
    if front.len() == 0 {
        assert(front + a =~= a);
        assert(front + b =~= b);
    } else {
        let rest = front.skip(1);
        law_texts_are_ordered_by_their_first_difference(rest, a, b);
        assert((front + a).skip(1) =~= rest + a);
        assert((front + b).skip(1) =~= rest + b);
    }
}

/// A number is written with digits alone, and read back from them.
pub proof fn lemma_decimal_value(n: nat)
    ensures
        text::all_digits(text::decimal(n)),
        text::digits_value(text::decimal(n)) == n,
        text::decimal(n).len() > 0,
    decreases n,
{
    if n < 10 {
        let only = seq![text::digit(n)];
        assert(only.drop_last() =~= Seq::<char>::empty());
        assert(text::digits_value(only.drop_last()) == 0);
    } else {
        lemma_decimal_value(n / 10);
        let less = text::decimal(n / 10);
        let all = text::decimal(n);
        assert(all.drop_last() =~= less);
        assert forall|i: int| 0 <= i < all.len() implies '0' <= #[trigger] all[i] <= '9' by {
            if i < less.len() {
                assert(all[i] == less[i]);
            }
        }
    }
}

/// A number that is written in decimal is read back, with or without a plus sign, unless it is
/// larger than what may be read.
pub proof fn law_unsigned_numbers_are_read_back(n: nat, max: nat)
    ensures
        text::unsigned_value(text::decimal(n), max) == if n <= max {
            Some(n)
        } else {
            None
        },
        text::unsigned_value(seq!['+'] + text::decimal(n), max) == if n <= max {
            Some(n)
        } else {
            None
        },
{
    lemma_decimal_value(n);
    assert((seq!['+'] + text::decimal(n)).drop_first() =~= text::decimal(n));
    let digits = text::decimal(n);
    assert('0' <= digits[0] <= '9');
}

/// Nothing is read from a text with a character that is no digit, but for a plus sign at its
/// start.
pub proof fn law_only_digits_are_read(s: Seq<char>, max: nat, i: int)
    requires
        0 <= i < s.len(),
        !('0' <= s[i] <= '9'),
        !(i == 0 && s[0] == '+' && s.len() > 1),
    ensures
        text::unsigned_value(s, max) is None,
{
    if s[0] == '+' {
        let digits = s.drop_first();
        if i > 0 {
            assert(digits[i - 1] == s[i]);
        }
    }
}

} // verus!

//! Text and byte helpers shared by the other modules.
//!
//! Text is seen as a sequence of `char`, raw data as a sequence of `u8`.

use crate::unicode;
use vstd::prelude::*;
use vstd::string::StringExecFns;

verus! {

/// `String::push` appends one character.
pub assume_specification[ String::push ](s: &mut String, c: char)
    ensures
        final(s)@ == old(s)@.push(c),
;

/// What went wrong: `headline` says what could not be done, and `message` says so together with
/// all its causes. `transport` tells whether an operating-system I/O failure is among these.
#[derive(Debug)]
pub struct Failure {
    pub headline: String,
    pub message: String,
    pub transport: bool,
}

/// Whether a failure carries exactly this text and no cause.
pub open spec fn plain(failure: Failure, message: Seq<char>) -> bool {
    failure.headline@ == message && failure.message@ == message && !failure.transport
}

/// Whether a failure is an I/O failure with exactly this text.
pub open spec fn plain_io(failure: Failure, message: Seq<char>) -> bool {
    failure.headline@ == message && failure.message@ == message && failure.transport
}

/// Whether a failure says what could not be done, and with what text it was caused.
pub open spec fn under(
    failure: Failure,
    headline: Seq<char>,
    cause: Seq<char>,
    transport: bool,
) -> bool {
    &&& failure.headline@ == headline
    &&& failure.message@ == headline + ": "@ + cause
    &&& failure.transport == transport
}

/// Whether two failures say the same.
pub open spec fn same_failure(a: Failure, b: Failure) -> bool {
    &&& a.headline@ == b.headline@
    &&& a.message@ == b.message@
    &&& a.transport == b.transport
}

impl Failure {
    /// A failure without a cause.
    pub fn new(message: &str) -> (failure: Failure)
        ensures
            plain(failure, message@),
    {
        Failure { headline: message.to_owned(), message: message.to_owned(), transport: false }
    }

    /// A failure without a cause, from a text that was put together.
    pub fn of(message: String) -> (failure: Failure)
        ensures
            plain(failure, message@),
    {
        Failure { headline: message.clone(), message, transport: false }
    }

    /// An I/O failure.
    pub fn io(message: &str) -> (failure: Failure)
        ensures
            plain_io(failure, message@),
    {
        Failure { headline: message.to_owned(), message: message.to_owned(), transport: true }
    }

    /// A failure with a cause.
    pub fn caused(headline: String, cause: &str, transport: bool) -> (failure: Failure)
        ensures
            under(failure, headline@, cause@, transport),
    {
        let mut message = headline.clone();
        message.append(": ");
        message.append(cause);
        Failure { headline, message, transport }
    }

    /// The same failure once more.
    pub fn copy(&self) -> (copy: Failure)
        ensures
            same_failure(copy, *self),
    {
        Failure {
            headline: self.headline.clone(),
            message: self.message.clone(),
            transport: self.transport,
        }
    }
}

/// The decimal digit for a number below ten.
pub open spec fn digit(n: nat) -> char {
    (48 + n) as char
}

/// A number written in decimal, without leading zeros.
pub open spec fn decimal(n: nat) -> Seq<char>
    decreases n,
{
    if n < 10 {
        seq![digit(n)]
    } else {
        decimal(n / 10).push(digit(n % 10))
    }
}

/// A signed number written in decimal.
pub open spec fn signed_decimal(n: int) -> Seq<char> {
    if n < 0 {
        seq!['-'] + decimal((-n) as nat)
    } else {
        decimal(n as nat)
    }
}

/// The characters of `text`, in order.
pub fn chars_of(text: &str) -> (chars: Vec<char>)
    ensures
        chars@ == text@,
{
    let mut chars: Vec<char> = Vec::new();
    for c in it: text.chars()
        invariant
            chars@ == it.seq().take(it.index() as int),
            it.seq() == text@,
    {
        chars.push(c);
    }
    chars
}

/// The text made of `chars`, in order.
pub fn text_of(chars: &[char]) -> (text: String)
    ensures
        text@ == chars@,
{
    let mut text = String::new();
    let mut i: usize = 0;
    while i < chars.len()
        invariant
            i <= chars.len(),
            text@ == chars@.take(i as int),
        decreases chars.len() - i,
    {
        text.push(chars[i]);
        i += 1;
    }
    assert(chars@.take(i as int) == chars@);
    text
}

/// Whether two texts are the same.
pub fn same_text(a: &str, b: &str) -> (same: bool)
    ensures
        same == (a@ == b@),
{
    a.to_owned() == b.to_owned()
}

/// Whether two byte strings are the same.
pub fn same_bytes(a: &[u8], b: &[u8]) -> (same: bool)
    ensures
        same == (a@ == b@),
{
    if a.len() != b.len() {
        return false;
    }
    let mut i: usize = 0;
    while i < a.len()
        invariant
            i <= a.len() == b.len(),
            forall|k: int| 0 <= k < i ==> a@[k] == b@[k],
        decreases a.len() - i,
    {
        if a[i] != b[i] {
            return false;
        }
        i += 1;
    }
    assert(a@ =~= b@);
    true
}

/// The decimal digits of `n`.
pub fn decimal_text(n: u64) -> (text: String)
    ensures
        text@ == decimal(n as nat),
    decreases n,
{
    let last: char = (48 + (n % 10) as u8) as char;
    if n < 10 {
        let mut text = String::new();
        text.push(last);
        assert(text@ =~= decimal(n as nat));
        text
    } else {
        let mut text = decimal_text(n / 10);
        text.push(last);
        text
    }
}

/// The decimal form of `n`, with a sign when it is negative.
pub fn signed_text(n: i64) -> (text: String)
    ensures
        text@ == signed_decimal(n as int),
{
    if n >= 0 {
        decimal_text(n as u64)
    } else {
        let magnitude: u64 = if n == i64::MIN {
            9_223_372_036_854_775_808
        } else {
            (-n) as u64
        };
        let digits = decimal_text(magnitude);
        let mut text = String::new();
        text.push('-');
        text.append(digits.as_str());
        assert(text@ =~= seq!['-'] + decimal(magnitude as nat));
        text
    }
}

/// The parts of a text between occurrences of a separator. There is always one more
/// part than there are separators.
pub open spec fn parts(s: Seq<char>, sep: char) -> Seq<Seq<char>>
    decreases s.len(),
{
    if s.len() == 0 {
        seq![Seq::empty()]
    } else {
        let before = parts(s.drop_last(), sep);
        if s.last() == sep {
            before.push(Seq::empty())
        } else {
            before.drop_last().push(before.last().push(s.last()))
        }
    }
}

/// A terminated line without the carriage return that may end it.
pub open spec fn without_return(line: Seq<char>) -> Seq<char> {
    if line.len() > 0 && line.last() == '\r' {
        line.drop_last()
    } else {
        line
    }
}

/// The lines of a text. A line ends with a newline, with or without a carriage return
/// before it; the last line need not end.
pub open spec fn lines(s: Seq<char>) -> Seq<Seq<char>> {
    let all = parts(s, '\n');
    let ended = Seq::new((all.len() - 1) as nat, |i: int| without_return(all[i]));
    if all.last().len() == 0 {
        ended
    } else {
        ended.push(all.last())
    }
}

pub open spec fn trimmed_start(s: Seq<char>) -> Seq<char>
    decreases s.len(),
{
    if s.len() > 0 && unicode::whitespace(s[0]) {
        trimmed_start(s.drop_first())
    } else {
        s
    }
}

pub open spec fn trimmed_end(s: Seq<char>) -> Seq<char>
    decreases s.len(),
{
    if s.len() > 0 && unicode::whitespace(s.last()) {
        trimmed_end(s.drop_last())
    } else {
        s
    }
}

/// A text without the whitespace around it.
pub open spec fn trimmed(s: Seq<char>) -> Seq<char> {
    trimmed_end(trimmed_start(s))
}

pub open spec fn all_digits(s: Seq<char>) -> bool {
    forall|i: int| 0 <= i < s.len() ==> '0' <= #[trigger] s[i] <= '9'
}

/// The number that decimal digits write.
pub open spec fn digits_value(s: Seq<char>) -> nat
    decreases s.len(),
{
    if s.len() == 0 {
        0
    } else {
        10 * digits_value(s.drop_last()) + (s.last() as nat - 48) as nat
    }
}

/// The unsigned number that a text writes, if it is at most `max`: decimal digits,
/// with or without a plus sign before them.
pub open spec fn unsigned_value(s: Seq<char>, max: nat) -> Option<nat> {
    let digits = if s.len() > 0 && s[0] == '+' {
        s.drop_first()
    } else {
        s
    };
    if digits.len() > 0 && all_digits(digits) && digits_value(digits) <= max {
        Some(digits_value(digits))
    } else {
        None
    }
}

/// Views of the elements of a list of texts.
pub open spec fn views(texts: Seq<Vec<char>>) -> Seq<Seq<char>> {
    Seq::new(texts.len(), |i: int| texts[i]@)
}

/// Texts as sequences.
pub open spec fn texts(list: Seq<String>) -> Seq<Seq<char>> {
    Seq::new(list.len(), |i: int| list[i]@)
}

/// The parts of `s` between occurrences of `sep`.
pub fn split_on(s: &[char], sep: char) -> (split: Vec<Vec<char>>)
    ensures
        views(split@) == parts(s@, sep),
        split.len() > 0,
{
    let mut done: Vec<Vec<char>> = Vec::new();
    let mut current: Vec<char> = Vec::new();
    let mut i: usize = 0;
    assert(s@.take(0) =~= Seq::<char>::empty());
    assert(views(done@).push(current@) =~= parts(s@.take(0), sep));
    while i < s.len()
        invariant
            i <= s.len(),
            views(done@).push(current@) == parts(s@.take(i as int), sep),
        decreases s.len() - i,
    {
        let c: char = s[i];
        let ghost before = views(done@).push(current@);
        assert(s@.take(i + 1).drop_last() =~= s@.take(i as int));
        assert(s@.take(i + 1).last() == c);
        if c == sep {
            done.push(current);
            assert(views(done@) =~= before);
            current = Vec::new();
            assert(current@ =~= Seq::<char>::empty());
        } else {
            current.push(c);
            assert(before.drop_last() =~= views(done@));
        }
        i += 1;
    }
    assert(s@.take(i as int) =~= s@);
    let ghost all = views(done@).push(current@);
    done.push(current);
    assert(views(done@) =~= all);
    done
}

/// The lines of `s`.
pub fn lines_of(s: &[char]) -> (result: Vec<Vec<char>>)
    ensures
        views(result@) == lines(s@),
{
    let all = split_on(s, '\n');
    let last: usize = all.len() - 1;
    let mut result: Vec<Vec<char>> = Vec::new();
    let mut i: usize = 0;
    while i < last
        invariant
            i <= last,
            last == all.len() - 1,
            result.len() == i,
            forall|k: int| 0 <= k < i ==> (#[trigger] result@[k])@ == without_return(all@[k]@),
        decreases last - i,
    {
        let mut line = all[i].clone();
        assert(line@ == all@[i as int]@);
        if line.len() > 0 && line[line.len() - 1] == '\r' {
            line.truncate(line.len() - 1);
            assert(line@ =~= all@[i as int]@.drop_last());
        }
        result.push(line);
        i += 1;
    }
    let ghost parted = parts(s@, '\n');
    assert(parted.len() == all.len());
    assert(forall|k: int| 0 <= k < all.len() ==> #[trigger] parted[k] == all@[k]@);
    if all[last].len() > 0 {
        result.push(all[last].clone());
    }
    assert(views(result@) =~= lines(s@));
    result
}

/// `s` without the whitespace around it.
pub fn trim(s: &[char]) -> (result: Vec<char>)
    ensures
        result@ == trimmed(s@),
{
    let mut from: usize = 0;
    assert(s@.subrange(0, s@.len() as int) =~= s@);
    while from < s.len() && s[from].is_whitespace()
        invariant
            from <= s.len(),
            trimmed_start(s@) == trimmed_start(s@.subrange(from as int, s@.len() as int)),
        decreases s.len() - from,
    {
        assert(s@.subrange(from as int, s@.len() as int).drop_first() =~= s@.subrange(
            from + 1,
            s@.len() as int,
        ));
        from += 1;
    }
    let mut to: usize = s.len();
    while to > from && s[to - 1].is_whitespace()
        invariant
            from <= to <= s.len(),
            trimmed(s@) == trimmed_end(s@.subrange(from as int, to as int)),
        decreases to,
    {
        assert(s@.subrange(from as int, to as int).drop_last() =~= s@.subrange(
            from as int,
            to - 1,
        ));
        to -= 1;
    }
    vstd::slice::slice_to_vec(&s[from..to])
}

/// The unsigned number that `s` writes, if it is at most `max`.
pub fn parse_unsigned(s: &[char], max: u64) -> (result: Option<u64>)
    ensures
        match result {
            Some(n) => unsigned_value(s@, max as nat) == Some(n as nat),
            None => unsigned_value(s@, max as nat) is None,
        },
{
    let mut i: usize = 0;
    if s.len() > 0 && s[0] == '+' {
        i = 1;
    }
    let ghost digits = if s.len() > 0 && s@[0] == '+' {
        s@.drop_first()
    } else {
        s@
    };
    if i == s.len() {
        return None;
    }
    let first: usize = i;
    let mut value: u64 = 0;
    let mut too_large = false;
    assert(digits.take(0) =~= Seq::<char>::empty());
    while i < s.len()
        invariant
            first <= i <= s.len(),
            first <= 1,
            digits == if s.len() > 0 && s@[0] == '+' {
                s@.drop_first()
            } else {
                s@
            },
            digits == s@.subrange(first as int, s@.len() as int),
            all_digits(digits.take(i - first)),
            too_large ==> digits_value(digits.take(i - first)) > max,
            !too_large ==> digits_value(digits.take(i - first)) == value && value <= max,
        decreases s.len() - i,
    {
        let c: char = s[i];
        let ghost next = digits.take(i - first + 1);
        assert(next.drop_last() =~= digits.take(i - first));
        assert(next.last() == c);
        if c < '0' || '9' < c {
            assert(!('0' <= digits[i - first] <= '9'));
            return None;
        }
        let d: u64 = (c as u32 - 48) as u64;
        assert(d == c as nat - 48);
        if !too_large {
            if d > max || value > max / 10 || 10 * value > max - d {
                too_large = true;
            } else {
                value = 10 * value + d;
            }
        }
        assert forall|k: int| 0 <= k < next.len() implies '0' <= #[trigger] next[k] <= '9' by {
            if k < i - first {
                assert(next[k] == digits.take(i - first)[k]);
            }
        }
        i += 1;
    }
    assert(digits.take(i - first) =~= digits);
    if too_large {
        None
    } else {
        Some(value)
    }
}

/// Whether `needle` stands in `s` at place `i`.
pub open spec fn occurs_at(s: Seq<char>, needle: Seq<char>, i: int) -> bool {
    0 <= i && i + needle.len() <= s.len() && s.subrange(i, i + needle.len()) == needle
}

/// Whether `needle` stands anywhere in `s`.
pub open spec fn contains(s: Seq<char>, needle: Seq<char>) -> bool {
    exists|i: int| #[trigger] occurs_at(s, needle, i)
}

/// A text with its ASCII letters in lowercase.
pub open spec fn ascii_lower(s: Seq<char>) -> Seq<char> {
    Seq::new(
        s.len(),
        |i: int|
            if 'A' <= s[i] <= 'Z' {
                (s[i] as int + 32) as char
            } else {
                s[i]
            },
    )
}

/// Whether `needle` stands in `s` at place `i`.
pub fn text_at(s: &[char], needle: &[char], i: usize) -> (found: bool)
    requires
        i <= s.len(),
    ensures
        found == occurs_at(s@, needle@, i as int),
{
    if s.len() - i < needle.len() {
        return false;
    }
    let mut k: usize = 0;
    while k < needle.len()
        invariant
            k <= needle.len(),
            i + needle.len() <= s.len(),
            forall|j: int| 0 <= j < k ==> s@[i + j] == needle@[j],
        decreases needle.len() - k,
    {
        if s[i + k] != needle[k] {
            assert(s@.subrange(i as int, i + needle.len())[k as int] != needle@[k as int]);
            return false;
        }
        k += 1;
    }
    assert(s@.subrange(i as int, i + needle.len()) =~= needle@);
    true
}

/// Whether `needle` stands anywhere in `s`.
pub fn has_text(s: &[char], needle: &str) -> (found: bool)
    ensures
        found == contains(s@, needle@),
{
    let wanted = chars_of(needle);
    let mut i: usize = 0;
    while i <= s.len()
        invariant
            i <= s.len() + 1,
            wanted@ == needle@,
            forall|k: int| 0 <= k < i ==> !#[trigger] occurs_at(s@, needle@, k),
        decreases s.len() + 1 - i,
    {
        if text_at(s, wanted.as_slice(), i) {
            return true;
        }
        if i == s.len() {
            return false;
        }
        i += 1;
    }
    false
}

/// `s` with its ASCII letters in lowercase.
pub fn to_ascii_lower(s: &str) -> (lower: Vec<char>)
    ensures
        lower@ == ascii_lower(s@),
{
    let chars = chars_of(s);
    let mut lower: Vec<char> = Vec::new();
    let mut i: usize = 0;
    while i < chars.len()
        invariant
            i <= chars.len(),
            chars@ == s@,
            lower.len() == i,
            forall|k: int| 0 <= k < i ==> lower@[k] == ascii_lower(s@)[k],
        decreases chars.len() - i,
    {
        let c: char = chars[i];
        let mapped: char = if 'A' <= c && c <= 'Z' {
            ((c as u32 + 32) as u8) as char
        } else {
            c
        };
        lower.push(mapped);
        i += 1;
    }
    assert(lower@ =~= ascii_lower(s@));
    lower
}

/// The words of a text that have ended, and the one that has not.
pub open spec fn words_so_far(s: Seq<char>) -> (Seq<Seq<char>>, Seq<char>)
    decreases s.len(),
{
    if s.len() == 0 {
        (Seq::empty(), Seq::empty())
    } else {
        let (ended, current) = words_so_far(s.drop_last());
        if !unicode::whitespace(s.last()) {
            (ended, current.push(s.last()))
        } else if current.len() > 0 {
            (ended.push(current), Seq::empty())
        } else {
            (ended, Seq::empty())
        }
    }
}

/// The words of a text, between runs of whitespace.
pub open spec fn words(s: Seq<char>) -> Seq<Seq<char>> {
    let (ended, current) = words_so_far(s);
    if current.len() > 0 {
        ended.push(current)
    } else {
        ended
    }
}

/// The words of `s`.
pub fn words_of(s: &[char]) -> (result: Vec<Vec<char>>)
    ensures
        views(result@) == words(s@),
{
    let mut ended: Vec<Vec<char>> = Vec::new();
    let mut current: Vec<char> = Vec::new();
    let mut i: usize = 0;
    assert(s@.take(0) =~= Seq::<char>::empty());
    assert(views(ended@) =~= Seq::<Seq<char>>::empty());
    while i < s.len()
        invariant
            i <= s.len(),
            words_so_far(s@.take(i as int)) == (views(ended@), current@),
        decreases s.len() - i,
    {
        let c: char = s[i];
        let ghost before = views(ended@);
        assert(s@.take(i + 1).drop_last() =~= s@.take(i as int));
        assert(s@.take(i + 1).last() == c);
        if !c.is_whitespace() {
            current.push(c);
        } else if current.len() > 0 {
            let ghost word = current@;
            ended.push(current);
            assert(views(ended@) =~= before.push(word));
            current = Vec::new();
            assert(current@ =~= Seq::<char>::empty());
        } else {
            assert(current@ =~= Seq::<char>::empty());
        }
        i += 1;
    }
    assert(s@.take(i as int) =~= s@);
    if current.len() > 0 {
        let ghost before = views(ended@);
        let ghost word = current@;
        ended.push(current);
        assert(views(ended@) =~= before.push(word));
    }
    ended
}

/// Whether a text begins with another.
pub open spec fn begins_with(s: Seq<char>, prefix: Seq<char>) -> bool {
    occurs_at(s, prefix, 0)
}

/// The number that digits write, up to `max`, or why they write none. What is wrong first, from
/// the left, counts.
pub open spec fn digits_read(s: Seq<char>, max: nat) -> Result<nat, Seq<char>>
    decreases s.len(),
{
    if s.len() == 0 {
        Ok(0)
    } else {
        match digits_read(s.drop_last(), max) {
            Err(fault) => Err(fault),
            Ok(value) => if !('0' <= s.last() <= '9') {
                Err("invalid digit found in string"@)
            } else if 10 * value + (s.last() as nat - 48) > max {
                Err("number too large to fit in target type"@)
            } else {
                Ok((10 * value + (s.last() as nat - 48)) as nat)
            },
        }
    }
}

/// The unsigned number that a text writes, up to `max`, or why it writes none.
pub open spec fn number_read(s: Seq<char>, max: nat) -> Result<nat, Seq<char>> {
    if s.len() == 0 {
        Err("cannot parse integer from empty string"@)
    } else if s.len() == 1 && (s[0] == '+' || s[0] == '-') {
        Err("invalid digit found in string"@)
    } else if s[0] == '+' {
        digits_read(s.skip(1), max)
    } else {
        digits_read(s, max)
    }
}

/// The unsigned number that `s` writes, up to `max`.
pub fn read_number(s: &[char], max: u64) -> (result: Result<u64, Failure>)
    ensures
        match number_read(s@, max as nat) {
            Ok(value) => result == Ok::<u64, Failure>(value as u64) && value <= max,
            Err(fault) => result is Err && plain(result->Err_0, fault),
        },
{
    if s.len() == 0 {
        return Err(Failure::new("cannot parse integer from empty string"));
    }
    if s.len() == 1 && (s[0] == '+' || s[0] == '-') {
        return Err(Failure::new("invalid digit found in string"));
    }
    let start: usize = if s[0] == '+' {
        1
    } else {
        0
    };
    let ghost digits = s@.skip(start as int);
    assert(s@.skip(0) =~= s@);
    let mut value: u64 = 0;
    let mut i: usize = start;
    while i < s.len()
        invariant
            start <= i <= s.len(),
            digits == s@.skip(start as int),
            number_read(s@, max as nat) == digits_read(digits, max as nat),
            digits_read(digits.take(i - start), max as nat) == Ok::<nat, Seq<char>>(value as nat),
            value <= max,
        decreases s.len() - i,
    {
        let c: char = s[i];
        proof {
            assert(digits.take(i - start + 1).drop_last() =~= digits.take(i - start));
            assert(digits.take(i - start + 1).last() == c);
        }
        if c < '0' || c > '9' {
            proof {
                lemma_fault_stays(digits, max as nat, i - start + 1);
            }
            return Err(Failure::new("invalid digit found in string"));
        }
        let digit: u64 = c as u64 - 48;
        if digit > max || value > (max - digit) / 10 {
            proof {
                lemma_fault_stays(digits, max as nat, i - start + 1);
            }
            return Err(Failure::new("number too large to fit in target type"));
        }
        value = value * 10 + digit;
        i += 1;
    }
    assert(digits.take(digits.len() as int) =~= digits);
    Ok(value)
}

proof fn lemma_fault_stays(s: Seq<char>, max: nat, n: int)
    requires
        0 <= n <= s.len(),
        digits_read(s.take(n), max) is Err,
    ensures
        digits_read(s, max) == digits_read(s.take(n), max),
    decreases s.len() - n,
{
    if n < s.len() {
        assert(s.take(n + 1).drop_last() =~= s.take(n));
        lemma_fault_stays(s, max, n + 1);
    } else {
        assert(s.take(n) =~= s);
    }
}

/// Whether a text comes before another one, character by character.
pub open spec fn comes_before(a: Seq<char>, b: Seq<char>) -> bool
    decreases a.len(),
{
    if b.len() == 0 {
        false
    } else if a.len() == 0 {
        true
    } else if a[0] != b[0] {
        (a[0] as int) < (b[0] as int)
    } else {
        comes_before(a.skip(1), b.skip(1))
    }
}

pub(crate) proof fn lemma_before_is_total(a: Seq<char>, b: Seq<char>)
    ensures
        comes_before(a, b) || comes_before(b, a) || a == b,
        !(comes_before(a, b) && comes_before(b, a)),
        comes_before(a, b) ==> a != b,
    decreases a.len(),
{
    if a.len() > 0 && b.len() > 0 {
        lemma_before_is_total(a.skip(1), b.skip(1));
        if a[0] == b[0] && a.skip(1) == b.skip(1) {
            assert(a =~= seq![a[0]] + a.skip(1));
            assert(b =~= seq![b[0]] + b.skip(1));
        }
    } else if a.len() == 0 && b.len() == 0 {
        assert(a =~= b);
    }
}

pub(crate) proof fn lemma_before_goes_on(a: Seq<char>, b: Seq<char>, c: Seq<char>)
    requires
        comes_before(a, b),
        comes_before(b, c),
    ensures
        comes_before(a, c),
    decreases a.len(),
{
    if a.len() > 0 && b.len() > 0 && c.len() > 0 {
        if a[0] == b[0] && b[0] == c[0] {
            lemma_before_goes_on(a.skip(1), b.skip(1), c.skip(1));
        }
    }
}

/// How two texts stand to each other.
#[derive(Clone, Copy, Debug, PartialEq, Eq, Structural)]
pub enum Rank {
    Before,
    Same,
    After,
}

/// How two texts stand to each other.
pub fn rank(a: &str, b: &str) -> (rank: Rank)
    ensures
        rank == if a@ == b@ {
            Rank::Same
        } else if comes_before(a@, b@) {
            Rank::Before
        } else {
            Rank::After
        },
{
    let first = chars_of(a);
    let second = chars_of(b);
    proof {
        lemma_before_is_total(a@, b@);
    }
    let mut i: usize = 0;
    assert(a@.skip(0) =~= a@);
    assert(b@.skip(0) =~= b@);
    while i < first.len() && i < second.len()
        invariant
            i <= first.len(),
            i <= second.len(),
            first@ == a@,
            second@ == b@,
            forall|k: int| 0 <= k < i ==> a@[k] == b@[k],
            comes_before(a@, b@) == comes_before(a@.skip(i as int), b@.skip(i as int)),
            comes_before(a@, b@) || comes_before(b@, a@) || a@ == b@,
        decreases first.len() - i,
    {
        let x: char = first[i];
        let y: char = second[i];
        if x != y {
            proof {
                vstd::utf8::char_u32_cast(x, x as u32);
                vstd::utf8::char_u32_cast(y, y as u32);
            }
            return if (x as u32) < (y as u32) {
                Rank::Before
            } else {
                Rank::After
            };
        }
        assert(a@.skip(i as int).skip(1) =~= a@.skip(i + 1));
        assert(b@.skip(i as int).skip(1) =~= b@.skip(i + 1));
        i += 1;
    }
    if first.len() == second.len() {
        assert(a@ =~= b@);
        Rank::Same
    } else if first.len() < second.len() {
        Rank::Before
    } else {
        Rank::After
    }
}

} // verus!

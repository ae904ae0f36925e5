//! What publishing an index promises of two walks over one tree.

use crate::digest;
use crate::store::scan;
use crate::store::scan::{Coverage, WalkEntry};
use crate::store::{Scan, Snapshot, Store, Written};
use crate::text::Failure;
use vstd::bytes;
use vstd::prelude::*;
use vstd::utf8;

verus! {

/// Whether two walks found the same: as for files, with the same path, content and status.
pub open spec fn alike(a: WalkEntry, b: WalkEntry) -> bool {
    match (a, b) {
        (WalkEntry::Failed, WalkEntry::Failed) => true,
        (WalkEntry::Other, WalkEntry::Other) => true,
        (
            WalkEntry::Read { path, source, extraction },
            WalkEntry::Read { path: path2, source: source2, extraction: extraction2 },
        ) => {
            &&& path@ == path2@
            &&& source@ == source2@
            &&& extraction.status@ == extraction2.status@
        },
        (
            WalkEntry::Unread { path, status, length, .. },
            WalkEntry::Unread { path: path2, status: status2, length: length2, .. },
        ) => path@ == path2@ && status@ == status2@ && length == length2,
        _ => false,
    }
}

/// Whether two walks found the same in their first `n` entries.
pub open spec fn same_walk(a: Seq<WalkEntry>, b: Seq<WalkEntry>, n: int) -> bool {
    &&& n <= a.len()
    &&& n <= b.len()
    &&& forall|i: int| 0 <= i < n ==> alike(#[trigger] a[i], b[i])
}

/// Whether a scan is what a walk over a tree comes to.
pub open spec fn scan_of(lock: Seq<u8>, entries: Seq<WalkEntry>, found: Scan) -> bool {
    &&& found.coverage == scan::all_covered(Coverage::none(), entries)
    &&& found.fingerprint@ == scan::fingerprint_of(lock, entries)
}

/// Whether their digests tell two contents apart.
pub open spec fn told_apart(a: Seq<u8>, b: Seq<u8>) -> bool {
    &&& digest::blake3_digest(a).len() == digest::blake3_digest(b).len()
    &&& digest::blake3_digest(a) != digest::blake3_digest(b)
}

proof fn lemma_same_walk(a: Seq<WalkEntry>, b: Seq<WalkEntry>, n: int)
    requires
        0 <= n,
        same_walk(a, b, n),
    ensures
        scan::traces(a.take(n)) == scan::traces(b.take(n)),
        scan::all_covered(Coverage::none(), a.take(n)) == scan::all_covered(
            Coverage::none(),
            b.take(n),
        ),
    decreases n,
{
    if n > 0 {
        lemma_same_walk(a, b, n - 1);
        assert(a.take(n).drop_last() =~= a.take(n - 1));
        assert(b.take(n).drop_last() =~= b.take(n - 1));
        assert(alike(a[n - 1], b[n - 1]));
    } else {
        assert(a.take(n) =~= b.take(n));
    }
}

/// What a walk adds begins with what its first entries add.
proof fn lemma_traces_begin(entries: Seq<WalkEntry>, n: int) -> (rest: Seq<u8>)
    requires
        0 <= n <= entries.len(),
    ensures
        scan::traces(entries) == scan::traces(entries.take(n)) + rest,
    decreases entries.len() - n,
{
    if n == entries.len() {
        assert(entries.take(n) =~= entries);
        assert(scan::traces(entries) + Seq::<u8>::empty() =~= scan::traces(entries));
        Seq::empty()
    } else {
        let rest = lemma_traces_begin(entries, n + 1);
        assert(entries.take(n + 1).drop_last() =~= entries.take(n));
        let step = scan::trace(entries[n]);
        assert(scan::traces(entries.take(n)) + step + rest =~= scan::traces(entries.take(n)) + (step
            + rest));
        step + rest
    }
}

/// Bytes in hexadecimal tell them apart.
proof fn lemma_hex_tells_apart(a: Seq<u8>, b: Seq<u8>)
    requires
        digest::hex(a) == digest::hex(b),
    ensures
        a == b,
{
    assert(digest::hex(a).len() == 2 * a.len());
    assert(digest::hex(b).len() == 2 * b.len());
    assert forall|i: int| 0 <= i < a.len() implies a[i] == b[i] by {
        assert((2 * i) / 2 == i && (2 * i) % 2 == 0);
        assert((2 * i + 1) / 2 == i && (2 * i + 1) % 2 == 1);
        assert(digest::hex(a)[2 * i] == digest::hex_digit(a[i] as int / 16));
        assert(digest::hex(b)[2 * i] == digest::hex_digit(b[i] as int / 16));
        assert(digest::hex(a)[2 * i + 1] == digest::hex_digit(a[i] as int % 16));
        assert(digest::hex(b)[2 * i + 1] == digest::hex_digit(b[i] as int % 16));
        lemma_digits_differ(a[i] as int / 16, b[i] as int / 16);
        lemma_digits_differ(a[i] as int % 16, b[i] as int % 16);
    }
    assert(a =~= b);
}

proof fn lemma_digits_differ(m: int, n: int)
    requires
        0 <= m < 16,
        0 <= n < 16,
        digest::hex_digit(m) == digest::hex_digit(n),
    ensures
        m == n,
{
}

/// Text in hexadecimal is one byte for each digit.
proof fn lemma_hex_bytes(a: Seq<u8>)
    ensures
        utf8::encode_utf8(digest::hex(a)).len() == 2 * a.len(),
{
    let text = digest::hex(a);
    assert forall|i: int| 0 <= i < text.len() implies 0 <= #[trigger] text[i] as int <= 127 by {
        let n = if i % 2 == 0 {
            a[i / 2] as int / 16
        } else {
            a[i / 2] as int % 16
        };
        assert(0 <= n < 16);
    }
    assert(utf8::is_ascii_chars(text));
    utf8::is_ascii_chars_encode_utf8(text);
}

/// How the state of a tree begins where a walk comes to a file that was read: all up to the
/// length of its content.
spec fn state_head(lock: Seq<u8>, earlier: Seq<u8>, path: Seq<u8>) -> Seq<u8> {
    scan::preamble(lock) + earlier + (bytes::spec_u64_to_le_bytes(
        scan::path_bytes(path).len() as u64,
    ) + scan::path_bytes(path) + utf8::encode_utf8("read"@))
}

/// The digest of content, as it stands in the state of a tree.
spec fn shown_digest(content: Seq<u8>) -> Seq<u8> {
    utf8::encode_utf8(digest::hex(digest::blake3_digest(content)))
}

/// The state of a tree at a file that was read: what comes before, the length and the digest of
/// its content, and the rest.
proof fn lemma_state_at(lock: Seq<u8>, entries: Seq<WalkEntry>, k: int) -> (rest: Seq<u8>)
    requires
        0 <= k < entries.len(),
        entries[k] is Read,
    ensures
        scan::tree_state(lock, entries) == state_head(
            lock,
            scan::traces(entries.take(k)),
            entries[k]->Read_path@,
        ) + bytes::spec_u64_to_le_bytes(entries[k]->Read_source.len() as u64) + shown_digest(
            entries[k]->Read_source@,
        ) + rest,
{
    let more = lemma_traces_begin(entries, k + 1);
    assert(entries.take(k + 1).drop_last() =~= entries.take(k));
    let preamble = scan::preamble(lock);
    let earlier = scan::traces(entries.take(k));
    let path = scan::path_bytes(entries[k]->Read_path@);
    let named = bytes::spec_u64_to_le_bytes(path.len() as u64) + path + utf8::encode_utf8("read"@);
    let length = bytes::spec_u64_to_le_bytes(entries[k]->Read_source.len() as u64);
    let shown = shown_digest(entries[k]->Read_source@);
    let status = utf8::encode_utf8(entries[k]->Read_extraction.status@);
    let failures = bytes::spec_u64_to_le_bytes(
        scan::all_covered(Coverage::none(), entries).walk_failures as u64,
    );
    assert(scan::trace(entries[k]) == named + length + shown + status);
    let rest = status + more + failures;
    lemma_regrouped(preamble, earlier, named, length, shown, status, more, failures);
    rest
}

proof fn lemma_regrouped(
    preamble: Seq<u8>,
    earlier: Seq<u8>,
    named: Seq<u8>,
    length: Seq<u8>,
    shown: Seq<u8>,
    status: Seq<u8>,
    more: Seq<u8>,
    failures: Seq<u8>,
)
    ensures
        preamble + (earlier + (named + length + shown + status) + more) + failures == preamble
            + earlier + named + length + shown + (status + more + failures),
{
    assert(preamble + (earlier + (named + length + shown + status) + more) + failures =~= preamble
        + earlier + named + length + shown + (status + more + failures));
}

/// Of two equal sequences of parts, whose parts have the same lengths, the parts are equal.
proof fn lemma_same_part(
    head: Seq<u8>,
    length: Seq<u8>,
    part: Seq<u8>,
    rest: Seq<u8>,
    length2: Seq<u8>,
    part2: Seq<u8>,
    rest2: Seq<u8>,
)
    requires
        length.len() == length2.len(),
        part.len() == part2.len(),
        head + length + part + rest == head + length2 + part2 + rest2,
    ensures
        part == part2,
{
    let at = (head.len() + length.len()) as int;
    let whole = head + length + part + rest;
    let whole2 = head + length2 + part2 + rest2;
    assert(whole.subrange(at, at + part.len()) =~= part);
    assert(whole2.subrange(at, at + part.len()) =~= part2);
}

/// The state of a tree changes with the content of a file, as far as digests tell contents
/// apart.
proof fn lemma_changed_content_shows(
    lock: Seq<u8>,
    a: Seq<WalkEntry>,
    b: Seq<WalkEntry>,
    k: int,
)
    requires
        changed_at(a, b, k),
    ensures
        scan::tree_state(lock, a) != scan::tree_state(lock, b),
{
    lemma_same_walk(a, b, k);
    let rest = lemma_state_at(lock, a, k);
    let rest2 = lemma_state_at(lock, b, k);
    if scan::tree_state(lock, a) == scan::tree_state(lock, b) {
        let old = digest::blake3_digest(a[k]->Read_source@);
        let new = digest::blake3_digest(b[k]->Read_source@);
        lemma_hex_bytes(old);
        lemma_hex_bytes(new);
        assert(bytes::spec_u64_to_le_bytes(a[k]->Read_source.len() as u64).len()
            == bytes::spec_u64_to_le_bytes(b[k]->Read_source.len() as u64).len()) by {
            bytes::lemma_auto_spec_u64_to_from_le_bytes();
        }
        lemma_same_part(
            state_head(lock, scan::traces(a.take(k)), a[k]->Read_path@),
            bytes::spec_u64_to_le_bytes(a[k]->Read_source.len() as u64),
            shown_digest(a[k]->Read_source@),
            rest,
            bytes::spec_u64_to_le_bytes(b[k]->Read_source.len() as u64),
            shown_digest(b[k]->Read_source@),
            rest2,
        );
        utf8::encode_utf8_decode_utf8(digest::hex(old));
        utf8::encode_utf8_decode_utf8(digest::hex(new));
        lemma_hex_tells_apart(old, new);
    }
}

/// Whether the first thing that differs between two walks is the content of a file, and digests
/// tell the two contents apart.
pub open spec fn changed_at(a: Seq<WalkEntry>, b: Seq<WalkEntry>, k: int) -> bool {
    &&& 0 <= k < a.len()
    &&& k < b.len()
    &&& same_walk(a, b, k)
    &&& a[k] is Read
    &&& b[k] is Read
    &&& a[k]->Read_path@ == b[k]->Read_path@
    &&& told_apart(a[k]->Read_source@, b[k]->Read_source@)
}

/// Where nothing changed under a root since it was published, publishing it again goes well and
/// changes nothing: neither its generation, nor what is published.
pub proof fn law_unchanged_trees_stay_published<
    W: FnOnce(&Snapshot, &Snapshot, i64) -> Result<Written, Failure>,
>(
    lock: Seq<u8>,
    earlier: Seq<WalkEntry>,
    first: Scan,
    before: Store,
    written: Written,
    between: Store,
    later: Seq<WalkEntry>,
    second: Scan,
    write: W,
    result: Result<Coverage, Failure>,
    after: Store,
)
    requires
        scan_of(lock, earlier, first),
        crate::store::published(before, first, written, between),
        later.len() == earlier.len(),
        same_walk(earlier, later, earlier.len() as int),
        scan_of(lock, later, second),
        crate::store::indexed(between, second, write, result, after),
    ensures
        result == Ok::<Coverage, Failure>(second.coverage),
        after == between,
        after.saved_generation == between.saved_generation,
{
    lemma_same_walk(earlier, later, earlier.len() as int);
    assert(earlier.take(earlier.len() as int) =~= earlier);
    assert(later.take(later.len() as int) =~= later);
}

/// Where the content of a file changed since a root was published, publishing it again makes the
/// next generation, which keeps only content that its files refer to; where that fails, all that
/// was published stays. This holds as far as digests tell contents, and states of trees, apart.
pub proof fn law_changed_content_is_published<
    W: FnOnce(&Snapshot, &Snapshot, i64) -> Result<Written, Failure>,
>(
    lock: Seq<u8>,
    earlier: Seq<WalkEntry>,
    first: Scan,
    before: Store,
    written: Written,
    between: Store,
    later: Seq<WalkEntry>,
    second: Scan,
    write: W,
    result: Result<Coverage, Failure>,
    after: Store,
    k: int,
)
    requires
        scan_of(lock, earlier, first),
        crate::store::published(before, first, written, between),
        changed_at(earlier, later, k),
        scan_of(lock, later, second),
        scan::tree_state(lock, earlier) != scan::tree_state(lock, later) ==> told_apart(
            scan::tree_state(lock, earlier),
            scan::tree_state(lock, later),
        ),
        crate::store::indexed(between, second, write, result, after),
    ensures
        match result {
            Ok(_) => {
                &&& after.saved_generation == between.saved_generation + 1
                &&& after.snapshot.files == second.staged.files
                &&& after.snapshot.regions == second.staged.regions
                &&& forall|revision: Seq<char>| #[trigger]
                    after.snapshot.contents@.contains_key(revision) ==> crate::store::refers_to(
                        after.snapshot.files@,
                        revision,
                    )
            },
            Err(_) => after == between,
        },
{
    lemma_changed_content_shows(lock, earlier, later, k);
    if first.fingerprint@ == second.fingerprint@ {
        lemma_hex_tells_apart(
            digest::blake3_digest(scan::tree_state(lock, earlier)),
            digest::blake3_digest(scan::tree_state(lock, later)),
        );
    }
    crate::store::law_scans_are_published_whole(between, second, write, result, after);
}

} // verus!

//! What holds of the vectors that are read from the cache.

use crate::semantic::embedding_cache::cache_format;
use crate::semantic::embedding_cache::cache_format::CacheStatus;
use crate::semantic::embedding_cache::cache_format::Provenance;
use crate::semantic::embedding_cache::cache_format::Reading;
use crate::semantic::embedding_cache::table;
use crate::semantic::pins::ModelPins;
use vstd::prelude::*;

verus! {

/// Whether a vector was made by a build: with its revision of the model and of the text that is
/// embedded, with 768 numbers, normalized by their length, and with the files of its manifest.
pub open spec fn is_made_by(made: Provenance, pins: ModelPins, manifest_digest: Seq<char>) -> bool {
    &&& made.model_revision matches Some(revision) && revision@ == pins.model_revision@
    &&& made.input_version matches Some(version) && version@ == pins.input_version@
    &&& made.dimensions == Some(768i64)
    &&& made.normalization matches Some(normalization) && normalization@ == "l2"@
    &&& made.manifest_digest matches Some(digest) && digest@ == manifest_digest
}

/// Whether the bits of a single-precision number are those of infinity, or of no number: the
/// eight bits behind the sign are all set.
pub open spec fn is_no_number(bits: u32) -> bool {
    0x7f80_0000 <= bits < 0x8000_0000 || 0xff80_0000 <= bits
}

/// Bytes are a vector just where there are 3072 of them, of unit length, that are all numbers, and
/// they were made by this build. What was made by another is stale; all else is corrupt.
pub proof fn law_only_vectors_of_this_build_are_read(
    bytes: Seq<u8>,
    unit: bool,
    made: Provenance,
    pins: ModelPins,
    manifest_digest: Seq<char>,
)
    ensures
        ({
            let reading = cache_format::reading(bytes, unit, made, pins, manifest_digest);
            let sound = bytes.len() == 3072 && unit && forall|i: int|
                0 <= i < 768 ==> !is_no_number(#[trigger] cache_format::decoded(bytes)[i]);
            &&& reading is Corrupt <==> !sound
            &&& reading is Stale <==> sound && !is_made_by(made, pins, manifest_digest)
            &&& reading is Vector <==> sound && is_made_by(made, pins, manifest_digest)
            &&& reading is Vector ==> reading->Vector_0 == cache_format::decoded(bytes)
        }),
{
    assert(cache_format::NORMALIZATION@ == "l2"@);
    assert forall|bits: u32| #[trigger] is_no_number(bits) == !cache_format::finite(bits) by {
        lemma_no_number(bits);
    }
    let numbers = cache_format::decoded(bytes);
    if forall|i: int| 0 <= i < 768 ==> cache_format::finite(#[trigger] numbers[i]) {
        assert forall|i: int| 0 <= i < 768 implies !is_no_number(#[trigger] numbers[i]) by {
            lemma_no_number(numbers[i]);
        }
    }
    if forall|i: int| 0 <= i < 768 ==> !is_no_number(#[trigger] numbers[i]) {
        assert forall|i: int| 0 <= i < 768 implies cache_format::finite(#[trigger] numbers[i]) by {
            lemma_no_number(numbers[i]);
        }
    }
}

proof fn lemma_no_number(bits: u32)
    ensures
        is_no_number(bits) == !cache_format::finite(bits),
{
    let high = bits as int / 0x80_0000;
    assert(0 <= high < 512);
    assert(is_no_number(bits) <==> high == 255 || high == 511);
}

/// A miss is counted as what it is, and a vector is none.
pub proof fn law_misses_are_counted(status: CacheStatus, reading: Reading)
    requires
        status.corrupt_misses < u64::MAX,
        status.provenance_misses < u64::MAX,
    ensures
        ({
            let after = cache_format::counted(status, reading);
            &&& after.corrupt_misses == status.corrupt_misses + if reading is Corrupt {
                1int
            } else {
                0int
            }
            &&& after.provenance_misses == status.provenance_misses + if reading is Stale {
                1int
            } else {
                0int
            }
        }),
{
}

/// Two pages are counted for a row, and eight rows are left out for what else is stored; there is
/// room for one row in any case.
pub proof fn law_rows_take_two_pages(max_pages: i64)
    ensures
        table::entries_in(max_pages) >= 1,
        max_pages >= 18 ==> 2 * (table::entries_in(max_pages) + 8) <= max_pages < 2 * (
        table::entries_in(max_pages) + 9),
        max_pages < 20 ==> table::entries_in(max_pages) == 1,
{
}

/// Whether a text is in a list.
pub open spec fn is_listed(list: Seq<String>, name: Seq<char>) -> bool {
    exists|i: int| 0 <= i < list.len() && (#[trigger] list[i])@ == name
}

/// A database is that of the cache just where it has its three tables, and the table for what
/// vectors were made with has its six columns.
pub proof fn law_schemas_are_known_by_their_tables(tables: Seq<String>, columns: Seq<String>)
    ensures
        table::current_schema(tables, columns) <==> {
            &&& is_listed(tables, "embeddings"@)
            &&& is_listed(tables, "embedding_provenance"@)
            &&& is_listed(tables, "cache_clock"@)
            &&& is_listed(columns, "key"@)
            &&& is_listed(columns, "model_revision"@)
            &&& is_listed(columns, "input_version"@)
            &&& is_listed(columns, "dimensions"@)
            &&& is_listed(columns, "normalization"@)
            &&& is_listed(columns, "manifest_digest"@)
        },
{
    assert forall|list: Seq<String>, name: Seq<char>|
        #![trigger is_listed(list, name)]
        #![trigger table::lists(list, name)]
        is_listed(list, name) == table::lists(list, name) by {}
}

} // verus!

//! How vectors are keyed, written and read.

use crate::digest;
use crate::digest::Sha256Stream;
use crate::semantic::embedding::Embedding;
use crate::semantic::pins::{ModelPins, DIMENSIONS};
use crate::text;
use vstd::bytes;
use vstd::prelude::*;
use vstd::utf8;

verus! {

/// The pooling and normalization that the pinned model comes with.
pub const NORMALIZATION: &'static str = "l2";

/// A labelled value: the label and the value, each behind its length.
pub open spec fn part(label: Seq<u8>, value: Seq<u8>) -> Seq<u8> {
    bytes::spec_u64_to_le_bytes(label.len() as u64) + label + bytes::spec_u64_to_le_bytes(
        value.len() as u64,
    ) + value
}

/// What a key is the digest of: every input that can change a vector, each as a part.
pub open spec fn key_input(pins: ModelPins, manifest: Seq<u8>, text: Seq<char>) -> Seq<u8> {
    part(utf8::encode_utf8("manifest"@), manifest) + (part(
        utf8::encode_utf8("model_revision"@),
        utf8::encode_utf8(pins.model_revision@),
    ) + (part(
        utf8::encode_utf8("input_version"@),
        utf8::encode_utf8(pins.input_version@),
    ) + (part(
        utf8::encode_utf8("dimensions"@),
        bytes::spec_u64_to_le_bytes(DIMENSIONS as u64),
    ) + (part(utf8::encode_utf8("normalization"@), utf8::encode_utf8(NORMALIZATION@)) + part(
        utf8::encode_utf8("content"@),
        utf8::encode_utf8(text),
    )))))
}

fn absorb(stream: &mut Sha256Stream, label: &str, value: &[u8])
    ensures
        digest::absorbed(*final(stream)) == digest::absorbed(*old(stream)) + part(
            utf8::encode_utf8(label@),
            value@,
        ),
{
    let label = label.as_bytes();
    let label_length = bytes::u64_to_le_bytes(label.len() as u64);
    let value_length = bytes::u64_to_le_bytes(value.len() as u64);
    stream.update(label_length.as_slice());
    stream.update(label);
    stream.update(value_length.as_slice());
    stream.update(value);
    assert(digest::absorbed(*stream) =~= digest::absorbed(*old(stream)) + part(
        label@,
        value@,
    ));
}

/// The key of a text: it binds the text to every input that can change its vector.
pub fn content_key(pins: &ModelPins, manifest: &[u8], text: &str) -> (key: String)
    ensures
        key@ == digest::hex(digest::sha256(key_input(*pins, manifest@, text@))),
        key@.len() == 64,
{
    let dimensions = bytes::u64_to_le_bytes(DIMENSIONS as u64);
    let mut stream = Sha256Stream::new();
    absorb(&mut stream, "manifest", manifest);
    absorb(&mut stream, "model_revision", pins.model_revision.as_str().as_bytes());
    absorb(&mut stream, "input_version", pins.input_version.as_str().as_bytes());
    absorb(&mut stream, "dimensions", dimensions.as_slice());
    absorb(&mut stream, "normalization", NORMALIZATION.as_bytes());
    absorb(&mut stream, "content", text.as_bytes());
    assert(digest::absorbed(stream) =~= key_input(*pins, manifest@, text@));
    let digest = stream.finalize();
    digest::hex_text(digest.as_slice())
}

/// The digest of a model's manifest.
pub fn manifest_digest(manifest: &[u8]) -> (digest: String)
    ensures
        digest@ == digest::hex(digest::sha256(manifest@)),
{
    digest::sha256_hex(manifest)
}

/// Equal strings of parts with the same label in front have the same value there, and go on
/// in the same way.
proof fn lemma_part_in_front(
    label: Seq<u8>,
    a: Seq<u8>,
    after_a: Seq<u8>,
    b: Seq<u8>,
    after_b: Seq<u8>,
)
    requires
        a.len() <= u64::MAX,
        b.len() <= u64::MAX,
        part(label, a) + after_a == part(label, b) + after_b,
    ensures
        a == b,
        after_a == after_b,
{
    bytes::lemma_auto_spec_u64_to_from_le_bytes();
    let n = label.len() as int;
    let all = part(label, a) + after_a;
    let other = part(label, b) + after_b;
    let length_a = bytes::spec_u64_to_le_bytes(a.len() as u64);
    let length_b = bytes::spec_u64_to_le_bytes(b.len() as u64);
    assert(length_a.len() == 8 && length_b.len() == 8);
    assert(bytes::spec_u64_to_le_bytes(label.len() as u64).len() == 8);
    assert(all.subrange(8 + n, 16 + n) =~= length_a);
    assert(other.subrange(8 + n, 16 + n) =~= length_b);
    assert(bytes::spec_u64_from_le_bytes(length_a) == a.len() as u64);
    assert(bytes::spec_u64_from_le_bytes(length_b) == b.len() as u64);
    assert(a.len() == b.len());
    assert(all.subrange(16 + n, 16 + n + a.len()) =~= a);
    assert(other.subrange(16 + n, 16 + n + b.len()) =~= b);
    assert(all.skip(16 + n + a.len()) =~= after_a);
    assert(other.skip(16 + n + b.len()) =~= after_b);
}

/// A key is the digest of a string from which every input of it can be read off: two texts, or
/// two models, or two manifests, are never hashed as the same string.
pub proof fn law_keys_bind_their_inputs(
    pins: ModelPins,
    manifest: Seq<u8>,
    text: Seq<char>,
    other_pins: ModelPins,
    other_manifest: Seq<u8>,
    other_text: Seq<char>,
)
    requires
        key_input(pins, manifest, text) == key_input(other_pins, other_manifest, other_text),
        manifest.len() <= u64::MAX,
        other_manifest.len() <= u64::MAX,
        utf8::encode_utf8(pins.model_revision@).len() <= u64::MAX,
        utf8::encode_utf8(other_pins.model_revision@).len() <= u64::MAX,
        utf8::encode_utf8(pins.input_version@).len() <= u64::MAX,
        utf8::encode_utf8(other_pins.input_version@).len() <= u64::MAX,
        utf8::encode_utf8(text).len() <= u64::MAX,
        utf8::encode_utf8(other_text).len() <= u64::MAX,
    ensures
        manifest == other_manifest,
        pins.model_revision@ == other_pins.model_revision@,
        pins.input_version@ == other_pins.input_version@,
        text == other_text,
{
    let last = part(utf8::encode_utf8("content"@), utf8::encode_utf8(text));
    let other_last = part(utf8::encode_utf8("content"@), utf8::encode_utf8(other_text));
    let normal = part(utf8::encode_utf8("normalization"@), utf8::encode_utf8(NORMALIZATION@));
    let size = part(
        utf8::encode_utf8("dimensions"@),
        bytes::spec_u64_to_le_bytes(DIMENSIONS as u64),
    );
    let version = part(
        utf8::encode_utf8("input_version"@),
        utf8::encode_utf8(pins.input_version@),
    );
    let other_version = part(
        utf8::encode_utf8("input_version"@),
        utf8::encode_utf8(other_pins.input_version@),
    );
    let revision = part(
        utf8::encode_utf8("model_revision"@),
        utf8::encode_utf8(pins.model_revision@),
    );
    let other_revision = part(
        utf8::encode_utf8("model_revision"@),
        utf8::encode_utf8(other_pins.model_revision@),
    );
    lemma_part_in_front(
        utf8::encode_utf8("manifest"@),
        manifest,
        revision + (version + (size + (normal + last))),
        other_manifest,
        other_revision + (other_version + (size + (normal + other_last))),
    );
    lemma_part_in_front(
        utf8::encode_utf8("model_revision"@),
        utf8::encode_utf8(pins.model_revision@),
        version + (size + (normal + last)),
        utf8::encode_utf8(other_pins.model_revision@),
        other_version + (size + (normal + other_last)),
    );
    lemma_part_in_front(
        utf8::encode_utf8("input_version"@),
        utf8::encode_utf8(pins.input_version@),
        size + (normal + last),
        utf8::encode_utf8(other_pins.input_version@),
        size + (normal + other_last),
    );
    let front = size + normal;
    assert((size + (normal + last)).skip(front.len() as int) =~= last);
    assert((size + (normal + other_last)).skip(front.len() as int) =~= other_last);
    assert(last + Seq::<u8>::empty() =~= last);
    assert(other_last + Seq::<u8>::empty() =~= other_last);
    lemma_part_in_front(
        utf8::encode_utf8("content"@),
        utf8::encode_utf8(text),
        Seq::empty(),
        utf8::encode_utf8(other_text),
        Seq::empty(),
    );
    utf8::encode_utf8_decode_utf8(text);
    utf8::encode_utf8_decode_utf8(other_text);
    utf8::encode_utf8_decode_utf8(pins.model_revision@);
    utf8::encode_utf8_decode_utf8(other_pins.model_revision@);
    utf8::encode_utf8_decode_utf8(pins.input_version@);
    utf8::encode_utf8_decode_utf8(other_pins.input_version@);
}

/// The bytes of a vector: each number in four bytes, the lowest first.
pub open spec fn encoded(words: Seq<u32>) -> Seq<u8> {
    Seq::new(4 * words.len(), |i: int| bytes::spec_u32_to_le_bytes(words[i / 4])[i % 4])
}

/// The numbers of a vector, from its bytes.
pub open spec fn decoded(bytes: Seq<u8>) -> Seq<u32> {
    Seq::new(
        bytes.len() / 4,
        |i: int| bytes::spec_u32_from_le_bytes(bytes.subrange(4 * i, 4 * i + 4)),
    )
}

/// The bytes of a vector of unit length.
pub fn encode(vector: &Embedding) -> (bytes: Vec<u8>)
    requires
        vector.well_formed(),
    ensures
        bytes@ == encoded(vector@),
        bytes.len() == 4 * DIMENSIONS,
{
    let mut bytes: Vec<u8> = Vec::new();
    let mut i: usize = 0;
    while i < vector.0.len()
        invariant
            i <= vector@.len(),
            bytes@ == encoded(vector@.take(i as int)),
            vector.well_formed(),
        decreases vector@.len() - i,
    {
        let mut word = bytes::u32_to_le_bytes(vector.0[i]);
        let ghost before = bytes@;
        let ghost number = word@;
        bytes.append(&mut word);
        proof {
            bytes::lemma_auto_spec_u32_to_from_le_bytes();
            let shorter = vector@.take(i as int);
            let longer = vector@.take(i + 1);
            assert forall|k: int| 0 <= k < 4 * longer.len() implies bytes@[k] == encoded(
                longer,
            )[k] by {
                if k < 4 * i {
                    assert(bytes@[k] == encoded(shorter)[k]);
                    assert(shorter[k / 4] == longer[k / 4]);
                } else {
                    assert(k / 4 == i);
                    assert(longer[k / 4] == vector@[i as int]);
                }
            }
            assert(bytes@ =~= encoded(longer));
        }
        i += 1;
    }
    assert(vector@.take(i as int) =~= vector@);
    bytes
}

/// Reading the bytes of a vector gives the vector back.
pub proof fn law_vectors_round_trip(words: Seq<u32>)
    ensures
        encoded(words).len() == 4 * words.len(),
        decoded(encoded(words)) == words,
{
    bytes::lemma_auto_spec_u32_to_from_le_bytes();
    let all = encoded(words);
    assert forall|i: int| 0 <= i < words.len() implies decoded(all)[i] == words[i] by {
        let word = bytes::spec_u32_to_le_bytes(words[i]);
        assert(word.len() == 4);
        assert forall|k: int| 0 <= k < 4 implies all.subrange(4 * i, 4 * i + 4)[k] == word[k] by {
            assert((4 * i + k) / 4 == i);
            assert((4 * i + k) % 4 == k);
        }
        assert(all.subrange(4 * i, 4 * i + 4) =~= word);
    }
    assert(decoded(all) =~= words);
}

/// Whether the number with a bit pattern is neither infinite nor undefined.
pub open spec fn finite(bits: u32) -> bool {
    (bits as int / 0x80_0000) % 256 != 255
}

/// What a stored vector was made with.
#[derive(Clone, Debug)]
pub struct Provenance {
    pub model_revision: Option<String>,
    pub input_version: Option<String>,
    pub dimensions: Option<i64>,
    pub normalization: Option<String>,
    pub manifest_digest: Option<String>,
}

/// Whether an optional text is there and says this.
pub open spec fn is_text(text: Option<String>, expected: Seq<char>) -> bool {
    text is Some && text->0@ == expected
}

impl Provenance {
    /// Whether a vector was made with what this build is pinned to.
    pub open spec fn current(self, pins: ModelPins, manifest_digest: Seq<char>) -> bool {
        &&& is_text(self.model_revision, pins.model_revision@)
        &&& is_text(self.input_version, pins.input_version@)
        &&& self.dimensions == Some(DIMENSIONS as i64)
        &&& is_text(self.normalization, NORMALIZATION@)
        &&& is_text(self.manifest_digest, manifest_digest)
    }

    /// The provenance of a vector that this build makes.
    pub fn of_build(pins: &ModelPins, manifest_digest: &str) -> (provenance: Self)
        ensures
            provenance.current(*pins, manifest_digest@),
    {
        Provenance {
            model_revision: Some(pins.model_revision.clone()),
            input_version: Some(pins.input_version.clone()),
            dimensions: Some(DIMENSIONS as i64),
            normalization: Some(NORMALIZATION.to_owned()),
            manifest_digest: Some(manifest_digest.to_owned()),
        }
    }
}

fn says(text: &Option<String>, expected: &str) -> (same: bool)
    ensures
        same == is_text(*text, expected@),
{
    match text {
        Some(text) => text::same_text(text.as_str(), expected),
        None => false,
    }
}

/// How many stored vectors could not be used: their bytes are no unit vector, or they were
/// made with something else.
#[derive(Clone, Copy, Debug, PartialEq, Eq, Structural)]
pub struct CacheStatus {
    pub corrupt_misses: u64,
    pub provenance_misses: u64,
}

impl CacheStatus {
    pub fn new() -> (status: Self)
        ensures
            status.corrupt_misses == 0,
            status.provenance_misses == 0,
    {
        CacheStatus { corrupt_misses: 0, provenance_misses: 0 }
    }
}

/// What a stored vector is good for.
pub enum Reading {
    Vector(Seq<u32>),
    Corrupt,
    Stale,
}

/// What stored bytes are good for; `unit` tells whether the numbers in them have unit length.
pub open spec fn reading(
    bytes: Seq<u8>,
    unit: bool,
    provenance: Provenance,
    pins: ModelPins,
    manifest_digest: Seq<char>,
) -> Reading {
    if bytes.len() != 4 * DIMENSIONS {
        Reading::Corrupt
    } else if !unit || !(forall|i: int| 0 <= i < DIMENSIONS ==> finite(#[trigger] decoded(bytes)[i])) {
        Reading::Corrupt
    } else if !provenance.current(pins, manifest_digest) {
        Reading::Stale
    } else {
        Reading::Vector(decoded(bytes))
    }
}

/// The counts after a reading; they wrap around.
pub open spec fn counted(status: CacheStatus, reading: Reading) -> CacheStatus {
    match reading {
        Reading::Vector(_) => status,
        Reading::Corrupt => CacheStatus {
            corrupt_misses: status.corrupt_misses.wrapping_add(1),
            ..status
        },
        Reading::Stale => CacheStatus {
            provenance_misses: status.provenance_misses.wrapping_add(1),
            ..status
        },
    }
}

/// Whether `found` is the vector of a reading.
pub open spec fn found_in(reading: Reading, found: Option<Embedding>) -> bool {
    match reading {
        Reading::Vector(words) => found is Some && found->0@ == words,
        _ => found is None,
    }
}

/// The vector in stored bytes, where they can be used; else the miss is counted.
pub fn decode(
    stored: &[u8],
    unit: bool,
    provenance: &Provenance,
    pins: &ModelPins,
    manifest_digest: &str,
    status: &mut CacheStatus,
) -> (found: Option<Embedding>)
    ensures
        found_in(reading(stored@, unit, *provenance, *pins, manifest_digest@), found),
        found matches Some(vector) ==> vector.well_formed(),
        *final(status) == counted(
            *old(status),
            reading(stored@, unit, *provenance, *pins, manifest_digest@),
        ),
{
    if stored.len() != 4 * DIMENSIONS {
        status.corrupt_misses = status.corrupt_misses.wrapping_add(1);
        return None;
    }
    let mut words: Vec<u32> = Vec::new();
    let mut sound = true;
    let mut i: usize = 0;
    while i < DIMENSIONS
        invariant
            i <= DIMENSIONS,
            stored@.len() == 4 * DIMENSIONS,
            words@ == decoded(stored@).take(i as int),
            sound == (forall|k: int| 0 <= k < i ==> finite(#[trigger] decoded(stored@)[k])),
        decreases DIMENSIONS - i,
    {
        let word: u32 = bytes::u32_from_le_bytes(&stored[4 * i..4 * i + 4]);
        assert(word == decoded(stored@)[i as int]);
        if (word / 0x80_0000) % 256 == 255 {
            assert(!finite(decoded(stored@)[i as int]));
            sound = false;
        }
        words.push(word);
        assert(words@ =~= decoded(stored@).take(i + 1));
        i += 1;
    }
    assert(words@ =~= decoded(stored@));
    if !unit || !sound {
        status.corrupt_misses = status.corrupt_misses.wrapping_add(1);
        return None;
    }
    let current = says(&provenance.model_revision, pins.model_revision.as_str()) && says(
        &provenance.input_version,
        pins.input_version.as_str(),
    ) && provenance.dimensions == Some(DIMENSIONS as i64) && says(
        &provenance.normalization,
        NORMALIZATION,
    ) && says(&provenance.manifest_digest, manifest_digest);
    if !current {
        status.provenance_misses = status.provenance_misses.wrapping_add(1);
        return None;
    }
    Some(Embedding(words))
}

} // verus!

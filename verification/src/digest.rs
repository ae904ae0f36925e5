//! Content digests and their hexadecimal form.

use sha2::Digest;
use vstd::prelude::*;

verus! {

/// The SHA-256 digest of a byte string.
pub uninterp spec fn sha256(bytes: Seq<u8>) -> Seq<u8>;

/// The BLAKE3 digest of a byte string.
pub uninterp spec fn blake3_digest(bytes: Seq<u8>) -> Seq<u8>;

/// A SHA-256 computation that takes its input in pieces.
#[verifier::external_body]
pub struct Sha256Stream {
    inner: sha2::Sha256,
}

/// The bytes that a SHA-256 computation has taken in.
pub uninterp spec fn absorbed(stream: Sha256Stream) -> Seq<u8>;

impl Sha256Stream {
    /// `sha2::Sha256::new` starts a computation that has taken in nothing.
    #[verifier::external_body]
    pub(crate) fn new() -> (stream: Sha256Stream)
        ensures
            absorbed(stream) == Seq::<u8>::empty(),
    {
        Sha256Stream { inner: sha2::Sha256::new() }
    }

    /// `Digest::update` takes in more bytes.
    #[verifier::external_body]
    pub(crate) fn update(&mut self, bytes: &[u8])
        ensures
            absorbed(*final(self)) == absorbed(*old(self)) + bytes@,
    {
        self.inner.update(bytes);
    }

    /// `Digest::finalize` gives the digest of all the bytes taken in, which is 32 bytes
    /// long.
    #[verifier::external_body]
    pub(crate) fn finalize(self) -> (digest: Vec<u8>)
        ensures
            digest@ == sha256(absorbed(self)),
            digest@.len() == 32,
    {
        self.inner.finalize().to_vec()
    }
}

/// `blake3::hash` gives the digest of its input, which is 32 bytes long.
#[verifier::external_body]
pub(crate) fn blake3_hash(bytes: &[u8]) -> (digest: Vec<u8>)
    ensures
        digest@ == blake3_digest(bytes@),
        digest@.len() == 32,
{
    blake3::hash(bytes).as_bytes().to_vec()
}

/// The lowercase hexadecimal digit for a number below sixteen.
pub open spec fn hex_digit(n: int) -> char {
    if n < 10 {
        (48 + n) as char
    } else {
        (87 + n) as char
    }
}

/// Bytes in lowercase hexadecimal, two digits for each.
pub open spec fn hex(bytes: Seq<u8>) -> Seq<char> {
    Seq::new(
        2 * bytes.len(),
        |i: int|
            hex_digit(
                if i % 2 == 0 {
                    bytes[i / 2] as int / 16
                } else {
                    bytes[i / 2] as int % 16
                },
            ),
    )
}

/// The lowercase hexadecimal digit for a number below sixteen.
pub fn hex_char(n: u8) -> (c: char)
    requires
        n < 16,
    ensures
        c == hex_digit(n as int),
{
    if n < 10 {
        (48 + n) as char
    } else {
        (87 + n) as char
    }
}

/// `bytes` in lowercase hexadecimal.
pub fn hex_text(bytes: &[u8]) -> (text: String)
    ensures
        text@ == hex(bytes@),
{
    let mut text = String::new();
    let mut i: usize = 0;
    while i < bytes.len()
        invariant
            i <= bytes.len(),
            text@ == hex(bytes@.take(i as int)),
        decreases bytes.len() - i,
    {
        text.push(hex_char(bytes[i] / 16));
        text.push(hex_char(bytes[i] % 16));
        assert(text@ =~= hex(bytes@.take(i + 1))) by {
            let before = bytes@.take(i as int);
            let after = bytes@.take(i + 1);
            assert forall|k: int| 0 <= k < 2 * after.len() implies text@[k] == hex(after)[k] by {
                if k < 2 * i {
                    assert(text@[k] == hex(before)[k]);
                    assert(before[k / 2] == after[k / 2]);
                } else {
                    assert(k == 2 * i || k == 2 * i + 1);
                    assert(after[k / 2] == bytes@[i as int]);
                }
            }
        }
        i += 1;
    }
    assert(bytes@.take(i as int) =~= bytes@);
    text
}

/// The BLAKE3 digest of `bytes` in hexadecimal.
pub fn blake3_hex(bytes: &[u8]) -> (text: String)
    ensures
        text@ == hex(blake3_digest(bytes@)),
        text@.len() == 64,
{
    let digest = blake3_hash(bytes);
    hex_text(digest.as_slice())
}

/// The SHA-256 digest of `bytes` in hexadecimal.
pub fn sha256_hex(bytes: &[u8]) -> (text: String)
    ensures
        text@ == hex(sha256(bytes@)),
        text@.len() == 64,
{
    let mut stream = Sha256Stream::new();
    stream.update(bytes);
    assert(absorbed(stream) =~= bytes@);
    let digest = stream.finalize();
    hex_text(digest.as_slice())
}

} // verus!

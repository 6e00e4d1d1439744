//! The content address of a byte sequence: SHA-256, rendered as lowercase
//! hexadecimal text.

use sha2::Digest;
use vstd::prelude::*;
use vstd::string::StringSliceAdditionalSpecFns;

verus! {

/// The SHA-256 hash of `data`, as computed by the `sha2` crate.
pub uninterp spec fn sha256(data: Seq<u8>) -> [u8; 32];

/// The lowercase hexadecimal digit that stands for `n`, for `n` below 16.
pub open spec fn hex_digit(n: int) -> char {
    if n == 0 {
        '0'
    } else if n == 1 {
        '1'
    } else if n == 2 {
        '2'
    } else if n == 3 {
        '3'
    } else if n == 4 {
        '4'
    } else if n == 5 {
        '5'
    } else if n == 6 {
        '6'
    } else if n == 7 {
        '7'
    } else if n == 8 {
        '8'
    } else if n == 9 {
        '9'
    } else if n == 10 {
        'a'
    } else if n == 11 {
        'b'
    } else if n == 12 {
        'c'
    } else if n == 13 {
        'd'
    } else if n == 14 {
        'e'
    } else {
        'f'
    }
}

/// Whether `c` is one of the sixteen lowercase hexadecimal digits.
pub open spec fn is_hex_digit(c: char) -> bool {
    exists|n: int| 0 <= n < 16 && c == #[trigger] hex_digit(n)
}

/// Lowercase hexadecimal text of `bytes`: two digits per byte, high nibble
/// first.
pub open spec fn hex_text(bytes: Seq<u8>) -> Seq<char> {
    Seq::new(
        2 * bytes.len(),
        |i: int|
            if i % 2 == 0 {
                hex_digit(bytes[i / 2] as int / 16)
            } else {
                hex_digit(bytes[i / 2] as int % 16)
            },
    )
}

/// The digest text of a payload: the hexadecimal text of its SHA-256 hash.
pub open spec fn digest_text(data: Seq<u8>) -> Seq<char> {
    hex_text(sha256(data)@)
}

/// Whether `text` has the canonical form of a digest: 64 lowercase
/// hexadecimal digits.
pub open spec fn is_canonical(text: Seq<char>) -> bool {
    &&& text.len() == 64
    &&& forall|i: int| 0 <= i < text.len() ==> is_hex_digit(#[trigger] text[i])
}

/// Hexadecimal text of a 32-byte hash is canonical digest text.
pub proof fn lemma_hex_text_canonical(bytes: Seq<u8>)
    requires
        bytes.len() == 32,
    ensures
        is_canonical(hex_text(bytes)),
{
    let text = hex_text(bytes);
    assert forall|i: int| 0 <= i < text.len() implies is_hex_digit(#[trigger] text[i]) by {
        let b = bytes[i / 2] as int;
        if i % 2 == 0 {
            assert(0 <= b / 16 < 16);
            assert(text[i] == hex_digit(b / 16));
        } else {
            assert(0 <= b % 16 < 16);
            assert(text[i] == hex_digit(b % 16));
        }
    }
}

/// The digest text of every payload is canonical.
pub proof fn lemma_digest_text_canonical(data: Seq<u8>)
    ensures
        is_canonical(digest_text(data)),
{
    lemma_hex_text_canonical(sha256(data)@);
}

/// Payloads with the same bytes have the same digest text: a digest is a
/// function of content and of nothing else.
pub proof fn lemma_same_bytes_same_digest(first: Seq<u8>, second: Seq<u8>)
    requires
        first.len() == second.len(),
        forall|i: int| 0 <= i < first.len() ==> first[i] == second[i],
    ensures
        digest_text(first) == digest_text(second),
{
    assert(first =~= second);
}

/// Calls `sha2::Sha256::digest`. The contract names the hash of the input,
/// which depends on the input's bytes alone; SHA-256 gives 32 bytes.
#[verifier::external_body]
fn sha256_of(data: &[u8]) -> (hash: [u8; 32])
    ensures
        hash == sha256(data@),
{
    sha2::Sha256::digest(data).into()
}

/// Calls `hex::encode`. The contract states that the result holds two
/// lowercase hexadecimal digits for each byte, high nibble first.
#[verifier::external_body]
fn hex_encode(bytes: &[u8; 32]) -> (text: String)
    ensures
        text@ == hex_text(bytes@),
{
    hex::encode(bytes)
}

/// The content address of a payload, held in its text form. Two digests are
/// the same digest exactly when their texts are equal.
#[derive(Debug, Clone, PartialEq, Eq, Hash)]
pub struct ContentHash(String);

impl View for ContentHash {
    type V = Seq<char>;

    closed spec fn view(&self) -> Seq<char> {
        self.0@
    }
}

impl ContentHash {
    /// The digest of `data`. The result depends on the bytes alone, so equal
    /// payloads always have equal digests.
    pub fn from_bytes(data: &[u8]) -> (hash: Self)
        ensures
            hash@ == digest_text(data@),
            is_canonical(hash@),
    {
        let raw = sha256_of(data);
        proof {
            lemma_digest_text_canonical(data@);
        }
        ContentHash(hex_encode(&raw))
    }

    /// The digest of the UTF-8 encoding of `data`.
    pub fn from_str(data: &str) -> (hash: Self)
        ensures
            hash@ == digest_text(data.spec_bytes()),
            is_canonical(hash@),
    {
        let bytes = data.as_bytes();
        Self::from_bytes(bytes)
    }

    /// A digest with the given text, as listed in a chunk index. The text is
    /// taken as it is, canonical or not.
    pub fn from_text(text: String) -> (hash: Self)
        ensures
            hash@ == text@,
    {
        ContentHash(text)
    }

    /// The text form of the digest.
    pub fn as_str(&self) -> (text: &str)
        ensures
            text@ == self@,
    {
        self.0.as_str()
    }

    /// Whether two digests have the same text.
    pub fn same_as(&self, other: &ContentHash) -> (same: bool)
        ensures
            same == (self@ == other@),
    {
        self.0 == other.0
    }

    /// A copy of the digest.
    pub fn duplicate(&self) -> (copy: Self)
        ensures
            copy@ == self@,
    {
        ContentHash(self.0.clone())
    }
}

} // verus!

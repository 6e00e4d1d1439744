//! The chunk index of a large file and its fixed binary encoding: the total
//! size as eight little-endian bytes, the number of digests likewise, then
//! each digest as its length in bytes, likewise, and its UTF-8 text.

use crate::digest::ContentHash;
use crate::layout::texts;
use vstd::bytes::{lemma_auto_spec_u64_to_from_le_bytes, spec_u64_to_le_bytes};
use vstd::prelude::*;
use vstd::utf8::{encode_utf8, encode_utf8_decode_utf8};

verus! {

/// The chunk index of a file: its exact length and the digests of its
/// chunks, in order.
#[derive(Debug, Clone, PartialEq, Eq)]
pub struct ChunkedFile {
    pub total_size: u64,
    pub chunks: Vec<ContentHash>,
}

/// The texts of a sequence of digests.
pub open spec fn hash_texts(hashes: Seq<ContentHash>) -> Seq<Seq<char>> {
    Seq::new(hashes.len(), |i: int| hashes[i]@)
}

impl View for ChunkedFile {
    type V = (u64, Seq<Seq<char>>);

    open spec fn view(&self) -> (u64, Seq<Seq<char>>) {
        (self.total_size, hash_texts(self.chunks@))
    }
}

/// The encoding of one digest text: the length of its UTF-8 form, then that
/// form.
pub open spec fn entry_bytes(text: Seq<char>) -> Seq<u8> {
    spec_u64_to_le_bytes(encode_utf8(text).len() as u64) + encode_utf8(text)
}

/// The encodings of the digest texts, one after the other.
pub open spec fn entries_bytes(entries: Seq<Seq<char>>) -> Seq<u8>
    decreases entries.len(),
{
    if entries.len() == 0 {
        Seq::empty()
    } else {
        entry_bytes(entries.first()) + entries_bytes(entries.drop_first())
    }
}

/// The encoding of a chunk index.
pub open spec fn manifest_bytes(total_size: u64, entries: Seq<Seq<char>>) -> Seq<u8> {
    spec_u64_to_le_bytes(total_size) + (spec_u64_to_le_bytes(entries.len() as u64)
        + entries_bytes(entries))
}

/// Whether the number of entries and the length of each fit the eight bytes
/// that the encoding gives a length.
pub open spec fn fits(entries: Seq<Seq<char>>) -> bool {
    &&& entries.len() <= u64::MAX
    &&& forall|i: int| 0 <= i < entries.len() ==> (#[trigger] encode_utf8(entries[i])).len() <= u64::MAX
}

/// Whether `bytes` start with the encoding of the given chunk index.
pub open spec fn begins_with_manifest(
    bytes: Seq<u8>,
    total_size: u64,
    entries: Seq<Seq<char>>,
) -> bool {
    fits(entries) && manifest_bytes(total_size, entries).is_prefix_of(bytes)
}

/// The chunk index that `bytes` start with, if they start with one. Bytes
/// behind the index are not looked at.
pub open spec fn manifest_reading(bytes: Seq<u8>) -> Option<(u64, Seq<Seq<char>>)> {
    if exists|total_size: u64, entries: Seq<Seq<char>>|
        begins_with_manifest(bytes, total_size, entries) {
        Some(
            choose|total_size: u64, entries: Seq<Seq<char>>|
                begins_with_manifest(bytes, total_size, entries),
        )
    } else {
        None
    }
}

proof fn lemma_prefix_split(head: Seq<u8>, tail: Seq<u8>, whole: Seq<u8>)
    requires
        (head + tail).is_prefix_of(whole),
    ensures
        head == whole.subrange(0, head.len() as int),
        tail.is_prefix_of(whole.skip(head.len() as int)),
{
    let joined = head + tail;
    assert(joined =~= whole.subrange(0, joined.len() as int));
    assert forall|i: int| 0 <= i < head.len() implies head[i] == whole[i] by {
        assert(joined[i] == head[i]);
    }
    assert(head =~= whole.subrange(0, head.len() as int));
    let rest = whole.skip(head.len() as int);
    assert forall|i: int| 0 <= i < tail.len() implies tail[i] == rest[i] by {
        assert(joined[head.len() + i] == tail[i]);
    }
    assert(tail =~= rest.subrange(0, tail.len() as int));
}

proof fn lemma_length_prefix(n1: nat, n2: nat, rest1: Seq<u8>, rest2: Seq<u8>, whole: Seq<u8>)
    requires
        n1 <= u64::MAX,
        n2 <= u64::MAX,
        (spec_u64_to_le_bytes(n1 as u64) + rest1).is_prefix_of(whole),
        (spec_u64_to_le_bytes(n2 as u64) + rest2).is_prefix_of(whole),
    ensures
        n1 == n2,
        rest1.is_prefix_of(whole.skip(8)),
        rest2.is_prefix_of(whole.skip(8)),
{
    lemma_auto_spec_u64_to_from_le_bytes();
    lemma_prefix_split(spec_u64_to_le_bytes(n1 as u64), rest1, whole);
    lemma_prefix_split(spec_u64_to_le_bytes(n2 as u64), rest2, whole);
    assert(spec_u64_to_le_bytes(n1 as u64) == spec_u64_to_le_bytes(n2 as u64));
}

proof fn lemma_entries_unique(first: Seq<Seq<char>>, second: Seq<Seq<char>>, whole: Seq<u8>)
    requires
        fits(first),
        fits(second),
        first.len() == second.len(),
        entries_bytes(first).is_prefix_of(whole),
        entries_bytes(second).is_prefix_of(whole),
    ensures
        first == second,
    decreases first.len(),
{
    if first.len() == 0 {
        assert(first =~= second);
    } else {
        let text1 = encode_utf8(first[0]);
        let text2 = encode_utf8(second[0]);
        let rest1 = entries_bytes(first.drop_first());
        let rest2 = entries_bytes(second.drop_first());
        assert(entries_bytes(first) =~= spec_u64_to_le_bytes(text1.len() as u64) + (text1
            + rest1));
        assert(entries_bytes(second) =~= spec_u64_to_le_bytes(text2.len() as u64) + (text2
            + rest2));
        lemma_length_prefix(text1.len(), text2.len(), text1 + rest1, text2 + rest2, whole);
        let behind = whole.skip(8);
        lemma_prefix_split(text1, rest1, behind);
        lemma_prefix_split(text2, rest2, behind);
        assert(text1 == text2);
        encode_utf8_decode_utf8(first[0]);
        encode_utf8_decode_utf8(second[0]);
        assert(first[0] == second[0]);
        assert forall|i: int| 0 <= i < first.drop_first().len() implies (#[trigger] encode_utf8(
            first.drop_first()[i],
        )).len() <= u64::MAX by {
            assert(first.drop_first()[i] == first[i + 1]);
        }
        assert forall|i: int| 0 <= i < second.drop_first().len() implies (#[trigger] encode_utf8(
            second.drop_first()[i],
        )).len() <= u64::MAX by {
            assert(second.drop_first()[i] == second[i + 1]);
        }
        lemma_entries_unique(
            first.drop_first(),
            second.drop_first(),
            behind.skip(text1.len() as int),
        );
        assert forall|i: int| 0 <= i < first.len() implies first[i] == second[i] by {
            if i > 0 {
                assert(first[i] == first.drop_first()[i - 1]);
                assert(second[i] == second.drop_first()[i - 1]);
            }
        }
        assert(first =~= second);
    }
}

/// Bytes start with the encoding of at most one chunk index.
pub proof fn lemma_manifest_unique(
    bytes: Seq<u8>,
    total1: u64,
    entries1: Seq<Seq<char>>,
    total2: u64,
    entries2: Seq<Seq<char>>,
)
    requires
        begins_with_manifest(bytes, total1, entries1),
        begins_with_manifest(bytes, total2, entries2),
    ensures
        total1 == total2,
        entries1 == entries2,
{
    let tail1 = spec_u64_to_le_bytes(entries1.len() as u64) + entries_bytes(entries1);
    let tail2 = spec_u64_to_le_bytes(entries2.len() as u64) + entries_bytes(entries2);
    lemma_length_prefix(total1 as nat, total2 as nat, tail1, tail2, bytes);
    lemma_length_prefix(
        entries1.len(),
        entries2.len(),
        entries_bytes(entries1),
        entries_bytes(entries2),
        bytes.skip(8),
    );
    lemma_entries_unique(entries1, entries2, bytes.skip(8).skip(8));
}

/// Reading the encoding of a chunk index gives that index back, also with
/// other bytes behind it.
pub proof fn lemma_manifest_round_trip(
    total_size: u64,
    entries: Seq<Seq<char>>,
    behind: Seq<u8>,
)
    requires
        fits(entries),
    ensures
        manifest_reading(manifest_bytes(total_size, entries) + behind) == Some(
            (total_size, entries),
        ),
{
    let bytes = manifest_bytes(total_size, entries) + behind;
    assert(manifest_bytes(total_size, entries) =~= bytes.subrange(
        0,
        manifest_bytes(total_size, entries).len() as int,
    ));
    assert(begins_with_manifest(bytes, total_size, entries));
    let found = choose|total: u64, listed: Seq<Seq<char>>|
        begins_with_manifest(bytes, total, listed);
    lemma_manifest_unique(bytes, total_size, entries, found.0, found.1);
    assert(found =~= (total_size, entries));
}

/// Calls `bincode::serialize` on the pair of the total size and the digest
/// texts, which bincode writes as it writes a record of these two fields:
/// every integer as eight little-endian bytes, a sequence as its length and
/// its items, a string as its length in bytes and its UTF-8 form. For these
/// types the call does not fail.
#[verifier::external_body]
fn bincode_serialize(total_size: u64, entries: &Vec<String>) -> (bytes: Vec<u8>)
    ensures
        bytes@ == manifest_bytes(total_size, texts(entries@)),
{
    bincode::serialize(&(total_size, entries)).unwrap()
}

/// Calls `bincode::deserialize` for a pair of a total size and a list of
/// strings. The call succeeds exactly on bytes that start with the encoding
/// of such a pair, and gives that pair; it accepts bytes behind it.
#[verifier::external_body]
fn bincode_deserialize(bytes: &[u8]) -> (record: Option<(u64, Vec<String>)>)
    ensures
        match record {
            Some((total_size, entries)) => manifest_reading(bytes@) == Some(
                (total_size, texts(entries@)),
            ),
            None => manifest_reading(bytes@) is None,
        },
{
    bincode::deserialize::<(u64, Vec<String>)>(bytes).ok()
}

impl ChunkedFile {
    /// The encoding of this chunk index.
    pub fn encode(&self) -> (bytes: Vec<u8>)
        ensures
            bytes@ == manifest_bytes(self.total_size, hash_texts(self.chunks@)),
    {
        let mut entries: Vec<String> = Vec::new();
        let mut i: usize = 0;
        while i < self.chunks.len()
            invariant
                i <= self.chunks.len(),
                entries@.len() == i,
                forall|j: int| 0 <= j < i ==> (#[trigger] entries@[j])@ == self.chunks@[j]@,
            decreases self.chunks.len() - i,
        {
            entries.push(self.chunks[i].as_str().to_owned());
            i += 1;
        }
        assert(texts(entries@) =~= hash_texts(self.chunks@));
        bincode_serialize(self.total_size, &entries)
    }

    /// The chunk index that `bytes` start with, if they start with one.
    pub fn decode(bytes: &[u8]) -> (index: Option<ChunkedFile>)
        ensures
            match index {
                Some(file) => manifest_reading(bytes@) == Some(file@),
                None => manifest_reading(bytes@) is None,
            },
    {
        match bincode_deserialize(bytes) {
            None => None,
            Some((total_size, entries)) => {
                let mut chunks: Vec<ContentHash> = Vec::new();
                let mut i: usize = 0;
                while i < entries.len()
                    invariant
                        i <= entries.len(),
                        chunks@.len() == i,
                        forall|j: int| 0 <= j < i ==> (#[trigger] chunks@[j])@ == entries@[j]@,
                    decreases entries.len() - i,
                {
                    chunks.push(ContentHash::from_text(entries[i].clone()));
                    i += 1;
                }
                assert(hash_texts(chunks@) =~= texts(entries@));
                Some(ChunkedFile { total_size, chunks })
            },
        }
    }
}

} // verus!

//! What the chunked file store does to a disk that does not fail, and what
//! it reads back from one.

use crate::chunked::{
    chunk_at, chunk_count, chunks_of, digests_of, file_digest, file_objects, gathered, index_of,
    shardable,
};
use crate::digest::{digest_text, is_canonical, is_hex_digit, lemma_digest_text_canonical};
use crate::durable::checked;
use crate::layout::{
    chunk_location, disk_after, reading_at, temp_of, write_plan, Disk, PathView, Reading,
    StoreError, Verdict, WritePlan,
};
use crate::manifest::{fits, lemma_manifest_round_trip, manifest_reading};
use vstd::prelude::*;
use vstd::utf8::{encode_utf8, is_ascii_chars, is_ascii_chars_encode_utf8};

verus! {

/// The path of the object `payload` in the chunked store at `root`.
pub open spec fn location_of(root: Seq<char>, payload: Seq<u8>) -> PathView {
    chunk_location(root, digest_text(payload))
}

/// The files of `disk` after the first `n` of `objects` were stored, in
/// order, in the chunked store at `root`.
pub open spec fn disk_after_objects(
    disk: Disk,
    root: Seq<char>,
    objects: Seq<Seq<u8>>,
    n: nat,
) -> Disk
    decreases n,
{
    if n == 0 {
        disk
    } else {
        let before = disk_after_objects(disk, root, objects, (n - 1) as nat);
        let target = location_of(root, objects[n - 1]);
        disk_after(before, write_plan(target, before.contains_key(target)), objects[n - 1])
    }
}

/// The files of `disk` after `data` was stored as a file in the chunked
/// store at `root`.
pub open spec fn disk_after_store(disk: Disk, root: Seq<char>, data: Seq<u8>) -> Disk {
    disk_after_objects(disk, root, file_objects(data), file_objects(data).len())
}

/// What the reads of the listed chunks give on `disk`.
pub open spec fn chunk_readings(disk: Disk, root: Seq<char>, entries: Seq<Seq<char>>) -> Seq<
    Reading,
> {
    Seq::new(entries.len(), |i: int| reading_at(disk, chunk_location(root, entries[i])))
}

/// What the chunked store at `root` answers to a request for the file named
/// `digest` on `disk`.
pub open spec fn file_on(disk: Disk, root: Seq<char>, digest: Seq<char>) -> Verdict {
    match checked(digest, reading_at(disk, chunk_location(root, digest))) {
        Verdict::Payload(bytes) => match manifest_reading(bytes) {
            None => Verdict::Payload(bytes),
            Some(index) => if shardable(index.1) {
                gathered(index.1, chunk_readings(disk, root, index.1), index.1.len())
            } else {
                Verdict::Failed(StoreError::MissingChunk)
            },
        },
        other => other,
    }
}

/// Whether each of `objects` finds its path on `disk` free or holding its
/// own bytes.
pub open spec fn settled(disk: Disk, root: Seq<char>, objects: Seq<Seq<u8>>) -> bool {
    forall|i: int|
        0 <= i < objects.len() && disk.contains_key(#[trigger] location_of(root, objects[i]))
            ==> disk[location_of(root, objects[i])] == objects[i]
}

/// Whether no two different payloads among `objects` have the same digest.
pub open spec fn collision_free(objects: Seq<Seq<u8>>) -> bool {
    forall|i: int, j: int|
        0 <= i < objects.len() && 0 <= j < objects.len() && digest_text(#[trigger] objects[i])
            == digest_text(#[trigger] objects[j]) ==> objects[i] == objects[j]
}

/// Canonical digests with the same path in the chunked store are the same
/// digest, and no temporary path is the path of an object.
pub proof fn lemma_locations_apart(root: Seq<char>, first: Seq<char>, second: Seq<char>)
    requires
        is_canonical(first),
        is_canonical(second),
    ensures
        chunk_location(root, first) == chunk_location(root, second) ==> first == second,
        temp_of(chunk_location(root, first)) != chunk_location(root, second),
{
    let a = chunk_location(root, first);
    let b = chunk_location(root, second);
    if a == b {
        assert(a.parts[1] == b.parts[1]);
        assert(a.parts[2] == b.parts[2]);
        assert(first =~= first.subrange(0, 2) + first.subrange(2, 64));
        assert(second =~= second.subrange(0, 2) + second.subrange(2, 64));
    }
    reveal_strlit(".tmp");
    assert(temp_of(a).parts.len() == 3);
    assert(temp_of(a).parts[2].len() == 66);
    assert(b.parts[2].len() == 62);
}

proof fn lemma_stored_objects_stay(disk: Disk, root: Seq<char>, objects: Seq<Seq<u8>>, n: nat)
    requires
        n <= objects.len(),
    ensures
        forall|i: int|
            0 <= i < n ==> disk_after_objects(disk, root, objects, n).contains_key(
                #[trigger] location_of(root, objects[i]),
            ),
        forall|i: int|
            0 <= i < objects.len() && disk.contains_key(#[trigger] location_of(root, objects[i]))
                ==> disk_after_objects(disk, root, objects, n).contains_key(
                location_of(root, objects[i]),
            ),
        settled(disk, root, objects) && collision_free(objects) ==> settled(
            disk_after_objects(disk, root, objects, n),
            root,
            objects,
        ),
    decreases n,
{
    if n > 0 {
        lemma_stored_objects_stay(disk, root, objects, (n - 1) as nat);
        let before = disk_after_objects(disk, root, objects, (n - 1) as nat);
        let after = disk_after_objects(disk, root, objects, n);
        let last = objects[n - 1];
        let target = location_of(root, last);
        lemma_digest_text_canonical(last);
        assert forall|i: int| 0 <= i < objects.len() implies (before.contains_key(
            #[trigger] location_of(root, objects[i]),
        ) ==> after.contains_key(location_of(root, objects[i]))) && (settled(before, root, objects)
            && collision_free(objects) && after.contains_key(location_of(root, objects[i]))
            ==> after[location_of(root, objects[i])] == objects[i]) by {
            lemma_digest_text_canonical(objects[i]);
            lemma_locations_apart(root, digest_text(last), digest_text(objects[i]));
            lemma_locations_apart(root, digest_text(objects[i]), digest_text(last));
        }
        assert(after.contains_key(target));
    }
}

/// After a file was stored, the path of each of its objects exists, and
/// storing the file again writes nothing: every object is skipped, and the
/// disk stays as the first store left it.
pub proof fn lemma_store_is_idempotent(disk: Disk, root: Seq<char>, data: Seq<u8>)
    ensures
        forall|i: int|
            0 <= i < file_objects(data).len() ==> write_plan(
                #[trigger] location_of(root, file_objects(data)[i]),
                disk_after_store(disk, root, data).contains_key(
                    location_of(root, file_objects(data)[i]),
                ),
            ) == WritePlan::Skip,
        disk_after_store(disk_after_store(disk, root, data), root, data) == disk_after_store(
            disk,
            root,
            data,
        ),
{
    let objects = file_objects(data);
    let stored = disk_after_store(disk, root, data);
    lemma_stored_objects_stay(disk, root, objects, objects.len());
    lemma_restore_writes_nothing(stored, root, objects, objects.len());
}

proof fn lemma_restore_writes_nothing(disk: Disk, root: Seq<char>, objects: Seq<Seq<u8>>, n: nat)
    requires
        n <= objects.len(),
        forall|i: int| 0 <= i < n ==> disk.contains_key(#[trigger] location_of(root, objects[i])),
    ensures
        disk_after_objects(disk, root, objects, n) == disk,
    decreases n,
{
    if n > 0 {
        lemma_restore_writes_nothing(disk, root, objects, (n - 1) as nat);
        assert(disk.contains_key(location_of(root, objects[n - 1])));
    }
}

/// The digests of the chunks of any payload fit the encoding of a chunk
/// index, and each is long enough to have a path.
pub proof fn lemma_chunk_digests_fit(data: Seq<u8>)
    requires
        data.len() <= u64::MAX,
    ensures
        fits(digests_of(chunks_of(data))),
        shardable(digests_of(chunks_of(data))),
{
    let digests = digests_of(chunks_of(data));
    assert forall|i: int| 0 <= i < digests.len() implies (#[trigger] encode_utf8(
        digests[i],
    )).len() <= u64::MAX && digests[i].len() >= 2 by {
        let text = digests[i];
        lemma_digest_text_canonical(chunks_of(data)[i]);
        assert forall|k: int| 0 <= k < text.len() implies '\0' <= #[trigger] text[k]
            <= '\u{7f}' by {
            assert(is_hex_digit(text[k]));
        }
        assert(is_ascii_chars(text));
        is_ascii_chars_encode_utf8(text);
    }
    assert forall|i: int| 0 <= i < digests.len() implies (#[trigger] digests[i]).len() >= 2 by {
        lemma_digest_text_canonical(chunks_of(data)[i]);
    }
}

/// The first `k` chunks of `data`, joined.
pub open spec fn joined_chunks(data: Seq<u8>, k: nat) -> Seq<u8> {
    data.subrange(
        0,
        if k * 65536 <= data.len() {
            k as int * 65536
        } else {
            data.len() as int
        },
    )
}

proof fn lemma_chunks_gathered(disk: Disk, root: Seq<char>, data: Seq<u8>, k: nat)
    requires
        k <= chunk_count(data.len()),
        forall|i: int|
            0 <= i < chunk_count(data.len()) ==> reading_at(
                disk,
                #[trigger] location_of(root, chunk_at(data, i)),
            ) == Reading::Found(chunk_at(data, i)),
    ensures
        gathered(
            digests_of(chunks_of(data)),
            chunk_readings(disk, root, digests_of(chunks_of(data))),
            k,
        ) == Verdict::Payload(joined_chunks(data, k)),
    decreases k,
{
    let entries = digests_of(chunks_of(data));
    let readings = chunk_readings(disk, root, entries);
    if k == 0 {
        assert(joined_chunks(data, 0) =~= Seq::<u8>::empty());
    } else {
        lemma_chunks_gathered(disk, root, data, (k - 1) as nat);
        let chunk = chunk_at(data, k - 1);
        assert(chunks_of(data)[k - 1] == chunk);
        assert(entries[k - 1] == digest_text(chunk));
        assert(location_of(root, chunk) == chunk_location(root, entries[k - 1]));
        assert(readings[k - 1] == Reading::Found(chunk));
        assert(checked(entries[k - 1], readings[k - 1]) == Verdict::Payload(chunk));
        assert(joined_chunks(data, (k - 1) as nat) + chunk =~= joined_chunks(data, k));
    }
}

/// A file that was stored is read back unchanged, provided that no two
/// different objects of the file have the same digest, that each of them
/// found its path free or holding its own bytes, and, for a file of at most
/// one chunk, that its bytes do not start with the encoding of a chunk
/// index.
pub proof fn lemma_get_file_after_store(disk: Disk, root: Seq<char>, data: Seq<u8>)
    requires
        data.len() <= u64::MAX,
        collision_free(file_objects(data)),
        settled(disk, root, file_objects(data)),
        data.len() <= 65536 ==> manifest_reading(data) is None,
    ensures
        file_on(disk_after_store(disk, root, data), root, file_digest(data)) == Verdict::Payload(
            data,
        ),
{
    let objects = file_objects(data);
    let stored = disk_after_store(disk, root, data);
    lemma_stored_objects_stay(disk, root, objects, objects.len());
    let top = objects.last();
    assert(stored.contains_key(location_of(root, objects[objects.len() - 1])));
    assert(stored[location_of(root, top)] == top);
    if data.len() > 65536 {
        let entries = digests_of(chunks_of(data));
        lemma_chunk_digests_fit(data);
        lemma_manifest_round_trip(data.len() as u64, entries, Seq::empty());
        assert(index_of(data) + Seq::<u8>::empty() =~= index_of(data));
        assert forall|i: int| 0 <= i < chunk_count(data.len()) implies reading_at(
            stored,
            #[trigger] location_of(root, chunk_at(data, i)),
        ) == Reading::Found(chunk_at(data, i)) by {
            assert(objects[i] == chunk_at(data, i));
            assert(stored.contains_key(location_of(root, objects[i])));
        }
        lemma_chunks_gathered(stored, root, data, chunk_count(data.len()));
        assert(joined_chunks(data, chunk_count(data.len())) =~= data);
    }
}

/// A payload of exactly one chunk's length is stored whole; one byte more
/// makes two chunks, the second of one byte, and a chunk index behind them.
pub proof fn lemma_chunk_boundary(data: Seq<u8>)
    ensures
        data.len() == 65536 ==> file_objects(data) == seq![data],
        data.len() == 65537 ==> {
            &&& file_objects(data).len() == 3
            &&& file_objects(data)[0] == data.subrange(0, 65536)
            &&& file_objects(data)[1] == data.subrange(65536, 65537)
            &&& file_objects(data)[1].len() == 1
            &&& file_objects(data)[2] == index_of(data)
            &&& digests_of(chunks_of(data)).len() == 2
        },
{
}

/// A file whose top object is not on the disk is "not found", which is no
/// failure.
pub proof fn lemma_absent_file_is_not_found(disk: Disk, root: Seq<char>, digest: Seq<char>)
    requires
        !disk.contains_key(chunk_location(root, digest)),
    ensures
        file_on(disk, root, digest) == Verdict::NotFound,
{
}

} // verus!

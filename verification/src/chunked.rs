//! The chunked file store: a payload of at most one chunk is one object; a
//! longer one is cut into chunks, each an object, and a chunk index that
//! lists their digests is the object that stands for the file.
//!
//! As in the durable store, the store decides and the caller touches the
//! file system: `store_file` lists the objects to store, `get_file` judges
//! the read of the top object, and `assemble` joins the chunks that an index
//! lists.

use crate::digest::{digest_text, ContentHash};
use crate::durable::checked;
use crate::layout::{
    chunk_location, readings_of, verdict_of, ObjectPath, Placement, ReadOutcome, Reading,
    StoreError, Verdict,
};
use crate::manifest::{hash_texts, manifest_bytes, manifest_reading, ChunkedFile};
use vstd::prelude::*;
use vstd::slice::{slice_subrange, slice_to_vec};
use vstd::string::*;

verus! {

/// The length of a chunk, and the longest payload that is stored whole.
pub const CHUNK_SIZE: usize = 65536;

/// A chunked file store below a root directory.
pub struct ChunkedStore {
    root: String,
}

impl View for ChunkedStore {
    type V = Seq<char>;

    /// The text of the root directory.
    closed spec fn view(&self) -> Seq<char> {
        self.root@
    }
}

/// An object that is to be stored: its bytes, and where they belong.
#[derive(Debug, Clone, PartialEq, Eq)]
pub struct PlannedObject {
    pub bytes: Vec<u8>,
    pub placement: Placement,
}

/// The objects that make up a stored file, in the order in which they are
/// stored, and the digest that stands for the file.
#[derive(Debug, Clone, PartialEq, Eq)]
pub struct FilePlan {
    pub objects: Vec<PlannedObject>,
    pub top: ContentHash,
}

/// What the read of a file's top object showed.
#[derive(Debug, Clone, PartialEq, Eq)]
pub enum Lookup {
    /// The store holds no such object.
    NotFound,
    /// The object is the file.
    Whole(Vec<u8>),
    /// The object is a chunk index: the file is the chunks that it lists.
    Indexed(ChunkedFile),
}

/// The number of chunks of a payload of `len` bytes.
pub open spec fn chunk_count(len: nat) -> nat {
    ((len + 65535) / 65536) as nat
}

/// The `i`-th chunk of `data`: 65536 bytes from offset `i * 65536`, or what
/// is left of `data` there.
pub open spec fn chunk_at(data: Seq<u8>, i: int) -> Seq<u8> {
    data.subrange(
        i * 65536,
        if (i + 1) * 65536 <= data.len() {
            (i + 1) * 65536
        } else {
            data.len() as int
        },
    )
}

/// The chunks of `data`, in order.
pub open spec fn chunks_of(data: Seq<u8>) -> Seq<Seq<u8>> {
    Seq::new(chunk_count(data.len()), |i: int| chunk_at(data, i))
}

/// The digest texts of a sequence of payloads.
pub open spec fn digests_of(payloads: Seq<Seq<u8>>) -> Seq<Seq<char>> {
    Seq::new(payloads.len(), |i: int| digest_text(payloads[i]))
}

/// The chunk index of `data`, encoded.
pub open spec fn index_of(data: Seq<u8>) -> Seq<u8> {
    manifest_bytes(data.len() as u64, digests_of(chunks_of(data)))
}

/// The objects that storing `data` as a file stores, in order: `data`
/// itself if it is at most one chunk long, else its chunks and then its
/// chunk index.
pub open spec fn file_objects(data: Seq<u8>) -> Seq<Seq<u8>> {
    if data.len() <= 65536 {
        seq![data]
    } else {
        chunks_of(data).push(index_of(data))
    }
}

/// The digest that stands for `data` stored as a file: that of the last
/// object stored.
pub open spec fn file_digest(data: Seq<u8>) -> Seq<char> {
    digest_text(file_objects(data).last())
}

/// Whether every listed digest is long enough to have a path in the store.
pub open spec fn shardable(entries: Seq<Seq<char>>) -> bool {
    forall|i: int| 0 <= i < entries.len() ==> (#[trigger] entries[i]).len() >= 2
}

/// The `i`-th reading, or "absent" where none was supplied.
pub open spec fn supplied(readings: Seq<Reading>, i: int) -> Reading {
    if 0 <= i < readings.len() {
        readings[i]
    } else {
        Reading::Absent
    }
}

/// The first `n` listed chunks joined in order, each checked against its
/// digest; or the first failure among them: "corrupted" for bytes with
/// another digest, "missing chunk" for an absent one, any other failure as
/// it came.
pub open spec fn gathered(entries: Seq<Seq<char>>, readings: Seq<Reading>, n: nat) -> Verdict
    decreases n,
{
    if n == 0 {
        Verdict::Payload(Seq::empty())
    } else {
        match gathered(entries, readings, (n - 1) as nat) {
            Verdict::Payload(joined) => match checked(entries[n - 1], supplied(readings, n - 1)) {
                Verdict::Payload(bytes) => Verdict::Payload(joined + bytes),
                Verdict::NotFound => Verdict::Failed(StoreError::MissingChunk),
                Verdict::Failed(error) => Verdict::Failed(error),
            },
            other => other,
        }
    }
}

/// Once a chunk has failed, what comes after it does not matter.
pub proof fn lemma_first_failure_decides(
    entries: Seq<Seq<char>>,
    readings: Seq<Reading>,
    k: nat,
    n: nat,
)
    requires
        k <= n,
        gathered(entries, readings, k) is Failed,
    ensures
        gathered(entries, readings, n) == gathered(entries, readings, k),
    decreases n,
{
    if n > k {
        lemma_first_failure_decides(entries, readings, k, (n - 1) as nat);
    }
}

impl FilePlan {
    /// Whether this is the plan of storing `data` in the store at `root`.
    pub open spec fn is_plan_of(&self, root: Seq<char>, data: Seq<u8>) -> bool {
        &&& self.objects@.len() == file_objects(data).len()
        &&& forall|i: int|
            0 <= i < self.objects@.len() ==> {
                let object = #[trigger] self.objects@[i];
                &&& object.bytes@ == file_objects(data)[i]
                &&& object.placement.hash@ == digest_text(file_objects(data)[i])
                &&& object.placement.target@ == chunk_location(root, object.placement.hash@)
                &&& object.placement.target.parts@.len() > 0
            }
        &&& self.top@ == file_digest(data)
    }
}

impl ChunkedStore {
    /// A store below `root`. The directory itself is the caller's to create.
    pub fn new(root: String) -> (store: Self)
        ensures
            store@ == root@,
    {
        ChunkedStore { root }
    }

    /// The root directory.
    pub fn root(&self) -> (root: &str)
        ensures
            root@ == self@,
    {
        self.root.as_str()
    }

    /// The path of the object named `hash`.
    pub fn chunk_path(&self, hash: &ContentHash) -> (path: ObjectPath)
        requires
            hash@.len() >= 2,
        ensures
            path@ == chunk_location(self@, hash@),
            path.parts@.len() > 0,
    {
        let text = hash.as_str();
        let count = text.unicode_len();
        let mut parts: Vec<String> = Vec::new();
        parts.push("chunks".to_owned());
        parts.push(text.substring_char(0, 2).to_owned());
        parts.push(text.substring_char(2, count).to_owned());
        let path = ObjectPath { root: self.root.clone(), parts };
        assert(path@.parts =~= chunk_location(self@, hash@).parts);
        path
    }

    /// Begins storing one object: computes its digest and the path it
    /// belongs at.
    pub fn store_chunk(&self, data: &[u8]) -> (placement: Placement)
        ensures
            placement.hash@ == digest_text(data@),
            placement.target@ == chunk_location(self@, digest_text(data@)),
            placement.target.parts@.len() > 0,
    {
        let hash = ContentHash::from_bytes(data);
        let target = self.chunk_path(&hash);
        Placement { hash, target }
    }

    /// Plans storing `data` as a file: the objects to store, in order, and
    /// the digest that stands for the file.
    pub fn store_file(&self, data: &[u8]) -> (plan: FilePlan)
        ensures
            plan.is_plan_of(self@, data@),
    {
        let len = data.len();
        if len <= CHUNK_SIZE {
            let placement = self.store_chunk(data);
            let top = placement.hash.duplicate();
            let mut objects: Vec<PlannedObject> = Vec::new();
            objects.push(PlannedObject { bytes: slice_to_vec(data), placement });
            return FilePlan { objects, top };
        }
        let mut objects: Vec<PlannedObject> = Vec::new();
        let mut chunks: Vec<ContentHash> = Vec::new();
        let mut start: usize = 0;
        while start < len
            invariant
                len == data@.len(),
                len > 65536,
                start <= len,
                start < len ==> start == objects@.len() * 65536,
                start == len ==> objects@.len() == chunk_count(data@.len()),
                objects@.len() == chunks@.len(),
                objects@.len() <= chunk_count(data@.len()),
                forall|i: int|
                    0 <= i < objects@.len() ==> {
                        let object = #[trigger] objects@[i];
                        &&& object.bytes@ == chunk_at(data@, i)
                        &&& object.placement.hash@ == digest_text(chunk_at(data@, i))
                        &&& object.placement.target@ == chunk_location(
                            self@,
                            object.placement.hash@,
                        )
                        &&& object.placement.target.parts@.len() > 0
                    },
                forall|i: int|
                    0 <= i < chunks@.len() ==> (#[trigger] chunks@[i])@ == digest_text(
                        chunk_at(data@, i),
                    ),
            decreases len - start,
        {
            let end: usize = if len - start > CHUNK_SIZE {
                start + CHUNK_SIZE
            } else {
                len
            };
            let piece = slice_subrange(data, start, end);
            let placement = self.store_chunk(piece);
            chunks.push(placement.hash.duplicate());
            objects.push(PlannedObject { bytes: slice_to_vec(piece), placement });
            start = end;
        }
        let index = ChunkedFile { total_size: len as u64, chunks };
        let encoded = index.encode();
        assert(hash_texts(index.chunks@) =~= digests_of(chunks_of(data@)));
        let placement = self.store_chunk(encoded.as_slice());
        let top = placement.hash.duplicate();
        objects.push(PlannedObject { bytes: encoded, placement });
        FilePlan { objects, top }
    }

    /// Judges what a read of the path of `hash` returned. Bytes are handed
    /// out only if their digest is `hash`.
    pub fn get_chunk(&self, hash: &ContentHash, outcome: ReadOutcome) -> (answer: Result<
        Option<Vec<u8>>,
        StoreError,
    >)
        ensures
            verdict_of(answer) == checked(hash@, outcome@),
    {
        match outcome {
            ReadOutcome::Found(bytes) => {
                let computed = ContentHash::from_bytes(bytes.as_slice());
                if computed.same_as(hash) {
                    Ok(Some(bytes))
                } else {
                    Err(StoreError::Corrupted)
                }
            },
            ReadOutcome::Absent => Ok(None),
            ReadOutcome::Failed(fault) => Err(StoreError::Io(fault)),
        }
    }

    /// Judges the read of the top object of the file named `hash`. Bytes
    /// that start with a chunk index are taken for one, whatever they were
    /// stored as; any other bytes are the file. An index that lists a digest
    /// too short to have a path lists a chunk that the store cannot hold.
    pub fn get_file(&self, hash: &ContentHash, outcome: ReadOutcome) -> (answer: Result<
        Lookup,
        StoreError,
    >)
        ensures
            match checked(hash@, outcome@) {
                Verdict::NotFound => answer == Ok::<Lookup, StoreError>(Lookup::NotFound),
                Verdict::Failed(error) => answer == Err::<Lookup, StoreError>(error),
                Verdict::Payload(bytes) => match manifest_reading(bytes) {
                    None => answer matches Ok(Lookup::Whole(whole)) && whole@ == bytes,
                    Some(index) => if shardable(index.1) {
                        answer matches Ok(Lookup::Indexed(file)) && file@ == index
                    } else {
                        answer == Err::<Lookup, StoreError>(StoreError::MissingChunk)
                    },
                },
            },
    {
        match self.get_chunk(hash, outcome) {
            Err(error) => Err(error),
            Ok(None) => Ok(Lookup::NotFound),
            Ok(Some(bytes)) => match ChunkedFile::decode(bytes.as_slice()) {
                None => Ok(Lookup::Whole(bytes)),
                Some(file) => {
                    let mut i: usize = 0;
                    while i < file.chunks.len()
                        invariant
                            i <= file.chunks.len(),
                            checked(hash@, outcome@) == Verdict::Payload(bytes@),
                            manifest_reading(bytes@) == Some(file@),
                            forall|j: int| 0 <= j < i ==> (#[trigger] file@.1[j]).len() >= 2,
                        decreases file.chunks.len() - i,
                    {
                        if file.chunks[i].as_str().unicode_len() < 2 {
                            assert(file@.1[i as int].len() < 2);
                            return Err(StoreError::MissingChunk);
                        }
                        i += 1;
                    }
                    Ok(Lookup::Indexed(file))
                },
            },
        }
    }

    /// Joins the chunks that `file` lists. `outcomes` holds what the read of
    /// each listed chunk returned, in listed order; a chunk without an
    /// outcome counts as absent. Every chunk is checked against its digest.
    pub fn assemble(&self, file: &ChunkedFile, outcomes: &Vec<ReadOutcome>) -> (answer: Result<
        Option<Vec<u8>>,
        StoreError,
    >)
        ensures
            verdict_of(answer) == gathered(file@.1, readings_of(outcomes@), file.chunks@.len()),
            answer != Ok::<Option<Vec<u8>>, StoreError>(None),
    {
        let ghost entries = file@.1;
        let ghost readings = readings_of(outcomes@);
        let ghost total = file.chunks@.len();
        let mut joined: Vec<u8> = Vec::new();
        let mut i: usize = 0;
        while i < file.chunks.len()
            invariant
                i <= file.chunks.len(),
                entries == file@.1,
                readings == readings_of(outcomes@),
                total == file.chunks@.len(),
                gathered(entries, readings, i as nat) == Verdict::Payload(joined@),
            decreases file.chunks.len() - i,
        {
            assert(entries[i as int] == file.chunks@[i as int]@);
            if i >= outcomes.len() {
                proof {
                    assert(gathered(entries, readings, (i + 1) as nat) == Verdict::Failed(
                        StoreError::MissingChunk,
                    ));
                    lemma_first_failure_decides(entries, readings, (i + 1) as nat, total);
                }
                return Err(StoreError::MissingChunk);
            }
            assert(readings[i as int] == outcomes@[i as int]@);
            match &outcomes[i] {
                ReadOutcome::Found(bytes) => {
                    let computed = ContentHash::from_bytes(bytes.as_slice());
                    if computed.same_as(&file.chunks[i]) {
                        let ghost before = joined@;
                        joined.extend_from_slice(bytes.as_slice());
                        assert(supplied(readings, i as int) == Reading::Found(bytes@));
                        assert(checked(entries[i as int], supplied(readings, i as int))
                            == Verdict::Payload(bytes@));
                        assert(joined@ =~= before + bytes@);
                        assert(gathered(entries, readings, (i + 1) as nat) == Verdict::Payload(
                            before + bytes@,
                        ));
                    } else {
                        proof {
                            assert(gathered(entries, readings, (i + 1) as nat) == Verdict::Failed(
                                StoreError::Corrupted,
                            ));
                            lemma_first_failure_decides(entries, readings, (i + 1) as nat, total);
                        }
                        return Err(StoreError::Corrupted);
                    }
                },
                ReadOutcome::Absent => {
                    proof {
                        assert(gathered(entries, readings, (i + 1) as nat) == Verdict::Failed(
                            StoreError::MissingChunk,
                        ));
                        lemma_first_failure_decides(entries, readings, (i + 1) as nat, total);
                    }
                    return Err(StoreError::MissingChunk);
                },
                ReadOutcome::Failed(fault) => {
                    let error = StoreError::Io(fault.duplicate());
                    proof {
                        assert(gathered(entries, readings, (i + 1) as nat) == Verdict::Failed(
                            error,
                        ));
                        lemma_first_failure_decides(entries, readings, (i + 1) as nat, total);
                    }
                    return Err(error);
                },
            }
            i += 1;
        }
        Ok(Some(joined))
    }
}

} // verus!

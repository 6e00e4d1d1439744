//! The durable object store: one file per object under a sharded directory
//! tree, written atomically and checked against its digest on every read.
//!
//! The store decides; the caller touches the file system. `put` says where
//! an object belongs, `Placement::settle` turns the answer to "does that path
//! exist?" into the write to perform, and `get` judges what a read returned.

use crate::digest::{digest_text, ContentHash};
use crate::layout::{
    disk_after, object_location, reading_at, verdict_of, write_plan, Disk, ObjectPath, Placement,
    ReadOutcome, Reading, StoreError, Verdict, WritePlan,
};
use vstd::prelude::*;
use vstd::string::*;

verus! {

/// A durable object store below a root directory.
pub struct PersistentStore {
    root: String,
}

impl View for PersistentStore {
    type V = Seq<char>;

    /// The text of the root directory.
    closed spec fn view(&self) -> Seq<char> {
        self.root@
    }
}

/// The store's judgement of a read of the object named `digest`: the bytes
/// if their digest is `digest`, "corrupted" if it is not, "not found" for a
/// missing file, and any other failure as it came.
pub open spec fn checked(digest: Seq<char>, reading: Reading) -> Verdict {
    match reading {
        Reading::Found(bytes) => if digest_text(bytes) == digest {
            Verdict::Payload(bytes)
        } else {
            Verdict::Failed(StoreError::Corrupted)
        },
        Reading::Absent => Verdict::NotFound,
        Reading::Failed(fault) => Verdict::Failed(StoreError::Io(fault)),
    }
}

/// The files of `disk` after `data` was put into the store at `root`.
pub open spec fn disk_after_put(disk: Disk, root: Seq<char>, data: Seq<u8>) -> Disk {
    let target = object_location(root, digest_text(data));
    disk_after(disk, write_plan(target, disk.contains_key(target)), data)
}

/// What the store at `root` answers to a request for `digest` on `disk`.
pub open spec fn object_on(disk: Disk, root: Seq<char>, digest: Seq<char>) -> Verdict {
    checked(digest, reading_at(disk, object_location(root, digest)))
}

impl PersistentStore {
    /// A store below `root`. The directory itself is the caller's to create.
    pub fn new(root: String) -> (store: Self)
        ensures
            store@ == root@,
    {
        PersistentStore { root }
    }

    /// The root directory.
    pub fn root(&self) -> (root: &str)
        ensures
            root@ == self@,
    {
        self.root.as_str()
    }

    /// The path of the object named `hash`.
    pub fn hash_to_path(&self, hash: &ContentHash) -> (path: ObjectPath)
        ensures
            path@ == object_location(self@, hash@),
            path.parts@.len() > 0,
    {
        let text = hash.as_str();
        let count = text.unicode_len();
        let mut parts: Vec<String> = Vec::new();
        parts.push("objects".to_owned());
        if count >= 4 {
            parts.push(text.substring_char(0, 2).to_owned());
            parts.push(text.substring_char(2, 4).to_owned());
            parts.push(text.substring_char(4, count).to_owned());
        } else {
            parts.push(text.to_owned());
        }
        let path = ObjectPath { root: self.root.clone(), parts };
        assert(path@.parts =~= object_location(self@, hash@).parts);
        path
    }

    /// Begins storing `data`: computes its digest and the path it belongs
    /// at.
    pub fn put(&self, data: &[u8]) -> (placement: Placement)
        ensures
            placement.hash@ == digest_text(data@),
            placement.target@ == object_location(self@, digest_text(data@)),
            placement.target.parts@.len() > 0,
    {
        let hash = ContentHash::from_bytes(data);
        let target = self.hash_to_path(&hash);
        Placement { hash, target }
    }

    /// Judges what a read of the path of `hash` returned. Bytes are handed
    /// out only if their digest is `hash`.
    pub fn get(&self, hash: &ContentHash, outcome: ReadOutcome) -> (answer: Result<
        Option<Vec<u8>>,
        StoreError,
    >)
        ensures
            verdict_of(answer) == checked(hash@, outcome@),
    {
        match outcome {
            ReadOutcome::Found(bytes) => {
                let computed = ContentHash::from_bytes(bytes.as_slice());
                if computed.same_as(hash) {
                    Ok(Some(bytes))
                } else {
                    Err(StoreError::Corrupted)
                }
            },
            ReadOutcome::Absent => Ok(None),
            ReadOutcome::Failed(fault) => Err(StoreError::Io(fault)),
        }
    }
}

/// After a payload was put, its path exists, and putting it again writes
/// nothing: the disk stays as the first put left it.
pub proof fn lemma_put_is_idempotent(disk: Disk, root: Seq<char>, data: Seq<u8>)
    ensures
        disk_after_put(disk, root, data).contains_key(object_location(root, digest_text(data))),
        write_plan(
            object_location(root, digest_text(data)),
            disk_after_put(disk, root, data).contains_key(
                object_location(root, digest_text(data)),
            ),
        ) == WritePlan::Skip,
        disk_after_put(disk_after_put(disk, root, data), root, data) == disk_after_put(
            disk,
            root,
            data,
        ),
{
}

/// A payload that was put is read back unchanged, provided that its path
/// was free before or held the same bytes.
pub proof fn lemma_get_after_put(disk: Disk, root: Seq<char>, data: Seq<u8>)
    requires
        disk.contains_key(object_location(root, digest_text(data))) ==> disk[object_location(
            root,
            digest_text(data),
        )] == data,
    ensures
        object_on(disk_after_put(disk, root, data), root, digest_text(data)) == Verdict::Payload(
            data,
        ),
{
}

/// Bytes at an object's path whose digest is not the one that named the
/// path are never handed out: the answer is "corrupted".
pub proof fn lemma_tampering_is_detected(disk: Disk, root: Seq<char>, digest: Seq<char>)
    requires
        disk.contains_key(object_location(root, digest)),
        digest_text(disk[object_location(root, digest)]) != digest,
    ensures
        object_on(disk, root, digest) == Verdict::Failed(StoreError::Corrupted),
{
}

/// A digest whose path does not exist is "not found", which is no failure.
pub proof fn lemma_absent_is_not_found(disk: Disk, root: Seq<char>, digest: Seq<char>)
    requires
        !disk.contains_key(object_location(root, digest)),
    ensures
        object_on(disk, root, digest) == Verdict::NotFound,
{
}

} // verus!

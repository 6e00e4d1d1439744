//! Where objects live under a store's root, and what a store asks of the
//! file system: paths as plain values, the outcome of a read, and the write
//! that makes an object visible.

use crate::digest::ContentHash;
use vstd::prelude::*;
use vstd::string::*;

verus! {

/// A path as the store sees it: a root directory and the components below
/// it, outermost first.
#[derive(Debug, Clone, PartialEq, Eq)]
pub struct ObjectPath {
    pub root: String,
    pub parts: Vec<String>,
}

/// The mathematical value of an `ObjectPath`.
pub struct PathView {
    pub root: Seq<char>,
    pub parts: Seq<Seq<char>>,
}

/// The texts of a sequence of strings.
pub open spec fn texts(parts: Seq<String>) -> Seq<Seq<char>> {
    Seq::new(parts.len(), |i: int| parts[i]@)
}

impl View for ObjectPath {
    type V = PathView;

    open spec fn view(&self) -> PathView {
        PathView { root: self.root@, parts: texts(self.parts@) }
    }
}

/// The files of a disk: each path that exists, with the bytes it holds.
pub type Disk = Map<PathView, Seq<u8>>;

/// The directory that holds `path`.
pub open spec fn parent_of(path: PathView) -> PathView {
    PathView { root: path.root, parts: path.parts.drop_last() }
}

/// The temporary path beside `path`: the same directory, the same name with
/// `.tmp` behind it.
pub open spec fn temp_of(path: PathView) -> PathView {
    PathView { root: path.root, parts: path.parts.drop_last().push(path.parts.last() + ".tmp"@) }
}

/// The path of an object in the durable store: `objects`, then the first
/// two characters of the digest, the next two, and the rest; a digest of
/// fewer than four characters lies directly under `objects`.
pub open spec fn object_location(root: Seq<char>, digest: Seq<char>) -> PathView {
    if digest.len() >= 4 {
        PathView {
            root,
            parts: seq![
                "objects"@,
                digest.subrange(0, 2),
                digest.subrange(2, 4),
                digest.subrange(4, digest.len() as int),
            ],
        }
    } else {
        PathView { root, parts: seq!["objects"@, digest] }
    }
}

/// The path of an object in the chunked store: `chunks`, then the first two
/// characters of the digest, and the rest.
pub open spec fn chunk_location(root: Seq<char>, digest: Seq<char>) -> PathView
    recommends
        digest.len() >= 2,
{
    PathView {
        root,
        parts: seq!["chunks"@, digest.subrange(0, 2), digest.subrange(2, digest.len() as int)],
    }
}

/// A failure of the file system other than a missing file, as plain values:
/// the operating system's error code where there is one, and the message.
#[derive(Debug, Clone, PartialEq, Eq)]
pub struct IoFault {
    pub code: Option<i32>,
    pub message: String,
}

impl IoFault {
    /// A copy of the fault.
    pub fn duplicate(&self) -> (copy: IoFault)
        ensures
            copy == *self,
    {
        IoFault { code: self.code, message: self.message.clone() }
    }
}

/// Why a store could not answer.
#[derive(Debug, Clone, PartialEq, Eq)]
pub enum StoreError {
    /// The bytes at an object's path do not have the digest that named the path.
    Corrupted,
    /// A chunk index lists a digest that the store does not hold.
    MissingChunk,
    /// The file system failed.
    Io(IoFault),
}

/// What came of reading the file at a path.
#[derive(Debug, Clone, PartialEq, Eq)]
pub enum ReadOutcome {
    Found(Vec<u8>),
    Absent,
    Failed(IoFault),
}

/// The mathematical value of a `ReadOutcome`.
pub enum Reading {
    Found(Seq<u8>),
    Absent,
    Failed(IoFault),
}

impl View for ReadOutcome {
    type V = Reading;

    open spec fn view(&self) -> Reading {
        match self {
            ReadOutcome::Found(bytes) => Reading::Found(bytes@),
            ReadOutcome::Absent => Reading::Absent,
            ReadOutcome::Failed(fault) => Reading::Failed(*fault),
        }
    }
}

/// The mathematical values of a sequence of read outcomes.
pub open spec fn readings_of(outcomes: Seq<ReadOutcome>) -> Seq<Reading> {
    Seq::new(outcomes.len(), |i: int| outcomes[i]@)
}

/// What a read of `path` gives on a disk that does not fail.
pub open spec fn reading_at(disk: Disk, path: PathView) -> Reading {
    if disk.contains_key(path) {
        Reading::Found(disk[path])
    } else {
        Reading::Absent
    }
}

/// The answer of a store to a request for an object or a file.
pub enum Verdict {
    Payload(Seq<u8>),
    NotFound,
    Failed(StoreError),
}

/// The mathematical value of what a store's read returns.
pub open spec fn verdict_of(answer: Result<Option<Vec<u8>>, StoreError>) -> Verdict {
    match answer {
        Ok(Some(bytes)) => Verdict::Payload(bytes@),
        Ok(None) => Verdict::NotFound,
        Err(error) => Verdict::Failed(error),
    }
}

/// What the file system is to do so that an object becomes visible.
#[derive(Debug, Clone, PartialEq, Eq)]
pub enum WriteAction {
    /// The object is there already: nothing is written.
    Skip,
    /// Create `parent` with its missing ancestors, write the payload to
    /// `temp`, then rename `temp` onto `target`.
    WriteAndRename { parent: ObjectPath, temp: ObjectPath, target: ObjectPath },
}

/// The mathematical value of a `WriteAction`.
pub enum WritePlan {
    Skip,
    WriteAndRename { parent: PathView, temp: PathView, target: PathView },
}

impl View for WriteAction {
    type V = WritePlan;

    open spec fn view(&self) -> WritePlan {
        match self {
            WriteAction::Skip => WritePlan::Skip,
            WriteAction::WriteAndRename { parent, temp, target } => WritePlan::WriteAndRename {
                parent: parent@,
                temp: temp@,
                target: target@,
            },
        }
    }
}

/// The files of `disk` after `plan` was carried out with `data` as the
/// payload, on a disk that does not fail.
pub open spec fn disk_after(disk: Disk, plan: WritePlan, data: Seq<u8>) -> Disk {
    match plan {
        WritePlan::Skip => disk,
        WritePlan::WriteAndRename { temp, target, .. } => disk.insert(temp, data).remove(
            temp,
        ).insert(target, data),
    }
}

/// The files of `disk` when `plan` was interrupted after the payload was
/// written to the temporary path and before the rename.
pub open spec fn disk_when_interrupted(disk: Disk, plan: WritePlan, data: Seq<u8>) -> Disk {
    match plan {
        WritePlan::Skip => disk,
        WritePlan::WriteAndRename { temp, .. } => disk.insert(temp, data),
    }
}

/// The write that stores an object at `target`, given whether `target`
/// exists already.
pub open spec fn write_plan(target: PathView, present: bool) -> WritePlan {
    if present {
        WritePlan::Skip
    } else {
        WritePlan::WriteAndRename { parent: parent_of(target), temp: temp_of(target), target }
    }
}

/// A write that is interrupted before its rename leaves every path but the
/// temporary one as it was: the target does not come to exist, and no file
/// that existed changes.
pub proof fn lemma_interrupted_write_shows_nothing(disk: Disk, target: PathView, data: Seq<u8>)
    requires
        target.parts.len() > 0,
    ensures
        temp_of(target) != target,
        !disk_when_interrupted(
            disk,
            write_plan(target, disk.contains_key(target)),
            data,
        ).contains_key(target) <==> !disk.contains_key(target),
        forall|path: PathView|
            disk.contains_key(path) && path != temp_of(target) ==> disk_when_interrupted(
                disk,
                write_plan(target, disk.contains_key(target)),
                data,
            ).contains_key(path) && #[trigger] disk_when_interrupted(
                disk,
                write_plan(target, disk.contains_key(target)),
                data,
            )[path] == disk[path],
{
    reveal_strlit(".tmp");
    let name = target.parts.last();
    assert(temp_of(target).parts.last() == name + ".tmp"@);
    assert((name + ".tmp"@).len() == name.len() + 4);
}

/// An object on its way into a store: its digest and the path it belongs at.
/// What remains is to look whether the path exists.
#[derive(Debug, Clone, PartialEq, Eq)]
pub struct Placement {
    pub hash: ContentHash,
    pub target: ObjectPath,
}

impl ObjectPath {
    /// A copy of the path.
    pub fn duplicate(&self) -> (copy: ObjectPath)
        ensures
            copy@ == self@,
            copy.parts@ == self.parts@,
    {
        let mut parts: Vec<String> = Vec::new();
        let mut i: usize = 0;
        while i < self.parts.len()
            invariant
                i <= self.parts.len(),
                parts@ == self.parts@.take(i as int),
            decreases self.parts.len() - i,
        {
            parts.push(self.parts[i].clone());
            assert(parts@ =~= self.parts@.take(i + 1));
            i += 1;
        }
        assert(parts@ =~= self.parts@);
        ObjectPath { root: self.root.clone(), parts }
    }

    /// The directory that holds this path.
    pub fn parent(&self) -> (dir: ObjectPath)
        requires
            self.parts@.len() > 0,
        ensures
            dir@ == parent_of(self@),
    {
        let mut dir = self.duplicate();
        dir.parts.pop();
        assert(dir@.parts =~= self@.parts.drop_last());
        dir
    }

    /// The temporary path beside this one.
    pub fn temp(&self) -> (beside: ObjectPath)
        requires
            self.parts@.len() > 0,
        ensures
            beside@ == temp_of(self@),
    {
        let mut beside = self.duplicate();
        let last = beside.parts.pop();
        let name = match last {
            Some(name) => name,
            None => String::new(),
        };
        let name = name.concat(".tmp");
        beside.parts.push(name);
        assert(beside@.parts =~= self@.parts.drop_last().push(self@.parts.last() + ".tmp"@));
        beside
    }
}

impl Placement {
    /// Decides the write, given whether the target exists: none if it does,
    /// since the content under a digest never changes; otherwise the write
    /// through a temporary file. Returns the object's digest with it.
    pub fn settle(self, present: bool) -> (decided: (ContentHash, WriteAction))
        requires
            self.target.parts@.len() > 0,
        ensures
            decided.0 == self.hash,
            decided.1@ == write_plan(self.target@, present),
    {
        if present {
            (self.hash, WriteAction::Skip)
        } else {
            let parent = self.target.parent();
            let temp = self.target.temp();
            (self.hash, WriteAction::WriteAndRename { parent, temp, target: self.target })
        }
    }
}

} // verus!

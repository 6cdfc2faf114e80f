//! The per-entry output interface shared by the copy, tar and hard-link sinks,
//! and the plain description of a source entry that the sinks decide on.
use vstd::prelude::*;
use vstd::utf8::{decode_utf8, valid_utf8};

verus! {

/// The kind of a filesystem entry, as read without following symlinks.
#[derive(Clone, Copy, Debug, PartialEq, Eq, Structural)]
pub enum EntryKind {
    File,
    Directory,
    Symlink,
    CharDevice,
    BlockDevice,
    Fifo,
    /// Anything else (a socket, say): no sink can store it.
    Other,
}

/// A modification time: whole seconds since the Unix epoch (negative before it)
/// and the nanoseconds past that second.
#[derive(Clone, Copy, Debug, PartialEq, Eq, Structural)]
pub struct FileTime {
    pub secs: i64,
    pub nanos: u32,
}

impl FileTime {
    pub open spec fn spec_lt(self, other: FileTime) -> bool {
        self.secs < other.secs || (self.secs == other.secs && self.nanos < other.nanos)
    }

    /// Whether `self` is strictly earlier than `other`.
    pub fn is_before(&self, other: &FileTime) -> (r: bool)
        ensures
            r == self.spec_lt(*other),
    {
        self.secs < other.secs || (self.secs == other.secs && self.nanos < other.nanos)
    }
}

/// What a sink needs to know of one source entry.
pub struct SourceEntry {
    /// The source path as it was visited.
    pub path: Vec<u8>,
    pub kind: EntryKind,
    /// Byte length from the entry's metadata.
    pub size: u64,
    /// Mode bits from the metadata (permission bits and file type).
    pub mode: u32,
    pub uid: u32,
    pub gid: u32,
    /// Modification time, `None` where it could not be read.
    pub mtime: Option<FileTime>,
    /// Target of a symlink, `None` for other kinds or where it could not be read.
    pub link_target: Option<Vec<u8>>,
    /// Name of the owning user, `None` where the uid resolves to no user.
    pub owner: Option<Vec<u8>>,
    /// Name of the owning group, `None` where the gid resolves to no group.
    pub group: Option<Vec<u8>>,
}

/// What a sink needs to know of the entry at the same place in a reference
/// snapshot, when one exists there.
#[derive(Clone, Copy, Debug, PartialEq, Eq, Structural)]
pub struct ReferenceEntry {
    pub mtime: Option<FileTime>,
    /// Number of hard links to the reference entry.
    pub nlink: u64,
}

/// One step of filesystem or stream output that a sink asks for.
#[derive(Debug)]
pub enum OutputAction {
    /// Create a symlink at `link` pointing to `target`.
    MakeSymlink { link: Vec<u8>, target: Vec<u8> },
    /// Create the directory `path` (its parent already exists).
    MakeDir { path: Vec<u8> },
    /// Copy the bytes of the regular file `from` to a new file `to`.
    CopyFile { from: Vec<u8>, to: Vec<u8> },
    /// Create a hard link at `link` to the existing file `original`.
    HardLink { link: Vec<u8>, original: Vec<u8> },
    /// Write `header`, then the first `data_len` bytes of the source file, then
    /// `padding` zero bytes, to the archive stream.
    Record { header: Vec<u8>, data_len: u64, padding: usize },
}

/// Why a sink cannot store an entry.
#[derive(Clone, Copy, Debug, PartialEq, Eq, Structural)]
pub enum EntryError {
    UnsupportedKind,
    /// The target of a symlink could not be read.
    LinkUnreadable,
    PathNotUtf8,
    MtimeUnavailable,
    MtimeBeforeEpoch,
    UnknownOwner,
    OwnerNotUtf8,
    UnknownGroup,
    GroupNotUtf8,
}

/// A consumer of source entries, visited in pre-order.
pub trait BackupOutputStream {
    /// Whether `r` is where this sink looks for the reference copy of `src`.
    spec fn refers(&self, src: SourceEntry, r: Option<Vec<u8>>) -> bool;

    /// Whether `r` is the step (or the error) by which this sink stores `entry`,
    /// given what lies at its reference path.
    spec fn appends(
        &self,
        entry: SourceEntry,
        reference: Option<ReferenceEntry>,
        r: Result<OutputAction, EntryError>,
    ) -> bool;

    /// Where the reference copy of `src` would be, for sinks that consult a
    /// reference snapshot before deciding; `None` for the others.
    fn reference_path(&self, src: &SourceEntry) -> (r: Option<Vec<u8>>)
        ensures
            self.refers(*src, r),
    ;

    /// The output step that stores `entry`. `reference` describes the entry at
    /// `reference_path(entry)`, or is `None` where nothing exists there.
    fn append_file(
        &mut self,
        entry: &SourceEntry,
        reference: Option<ReferenceEntry>,
    ) -> (r: Result<OutputAction, EntryError>)
        ensures
            old(self).appends(*entry, reference, r),
    ;
}

/// Relies on std::str::from_utf8: the bytes read as text exactly when they are
/// valid UTF-8, and then as the characters they encode.
#[verifier::external_body]
pub(crate) fn utf8_text(b: &[u8]) -> (r: Option<&str>)
    ensures
        r.is_some() == valid_utf8(b@),
        r matches Some(s) ==> s@ == decode_utf8(b@),
{
    std::str::from_utf8(b).ok()
}

/// A copy of `s`.
pub(crate) fn copy_bytes(s: &[u8]) -> (r: Vec<u8>)
    ensures
        r@ == s@,
{
    let mut out: Vec<u8> = Vec::new();
    let mut i: usize = 0;
    while i < s.len()
        invariant
            i <= s@.len(),
            out@ == s@.subrange(0, i as int),
        decreases s.len() - i,
    {
        out.push(s[i]);
        proof {
            assert(s@.subrange(0, i + 1) =~= s@.subrange(0, i as int).push(s@[i as int]));
        }
        i = i + 1;
    }
    proof {
        assert(s@.subrange(0, s@.len() as int) =~= s@);
    }
    out
}

} // verus!

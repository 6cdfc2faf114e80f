//! The hard-link sink: links unchanged entries to a reference snapshot and
//! copies the rest.
use vstd::prelude::*;
use crate::backup::{
    copy_bytes, BackupOutputStream, EntryError, EntryKind, FileTime, OutputAction, ReferenceEntry,
    SourceEntry,
};
use crate::copy::{copy_error, copy_result, copy_step_ok, CopyOutputStream};
use crate::path::{append_path, appended};

verus! {

/// How an entry is judged unchanged against its reference copy.
#[derive(Clone, Copy, Debug, PartialEq, Eq, Structural)]
pub enum ChangeDetectionMethod {
    /// Unchanged when both modification times are known and the source's is
    /// not earlier than the reference's.
    Timestamp,
    /// Byte-wise comparison of contents. Contents are not compared here, so
    /// every entry counts as changed and is copied.
    FullCompare,
}

/// Whether an entry modified at `src` counts as changed against a reference
/// modified at `reference`.
pub open spec fn changed(method: ChangeDetectionMethod, src: Option<FileTime>, reference: Option<
    FileTime,
>) -> bool {
    match method {
        ChangeDetectionMethod::Timestamp => match (src, reference) {
            (Some(a), Some(b)) => a.spec_lt(b),
            _ => true,
        },
        ChangeDetectionMethod::FullCompare => true,
    }
}

/// Whether `e` is linked to its reference copy: it is not a directory, the
/// reference exists and is unchanged, and, unless the cap is unbounded, the
/// reference has fewer than `max_link_count` links.
pub open spec fn links_to_reference(
    e: SourceEntry,
    reference: Option<ReferenceEntry>,
    max_link_count: u64,
    method: ChangeDetectionMethod,
) -> bool {
    e.kind != EntryKind::Directory && reference is Some && !changed(
        method,
        e.mtime,
        reference->0.mtime,
    ) && (max_link_count == u64::MAX || reference->0.nlink < max_link_count)
}

impl ChangeDetectionMethod {
    pub fn has_changed(&self, src: Option<FileTime>, reference: Option<FileTime>) -> (r: bool)
        ensures
            r == changed(*self, src, reference),
    {
        match self {
            ChangeDetectionMethod::Timestamp => match (src, reference) {
                (Some(a), Some(b)) => a.is_before(&b),
                _ => true,
            },
            ChangeDetectionMethod::FullCompare => true,
        }
    }
}

/// A sink that hard-links entries to a reference snapshot where it can and
/// falls back to copying.
pub struct HardLinkOutputStream {
    fallback: CopyOutputStream,
    ref_dir: Vec<u8>,
    max_link_count: u64,
    detection_method: ChangeDetectionMethod,
}

impl HardLinkOutputStream {
    pub closed spec fn dir(&self) -> Seq<u8> {
        self.fallback.dir()
    }

    pub closed spec fn reference_dir(&self) -> Seq<u8> {
        self.ref_dir@
    }

    pub closed spec fn link_cap(&self) -> u64 {
        self.max_link_count
    }

    pub closed spec fn method(&self) -> ChangeDetectionMethod {
        self.detection_method
    }

    pub fn new(
        output_dir: &[u8],
        ref_dir: &[u8],
        max_link_count: u64,
        detection_method: ChangeDetectionMethod,
    ) -> (r: HardLinkOutputStream)
        ensures
            r.dir() == output_dir@,
            r.reference_dir() == ref_dir@,
            r.link_cap() == max_link_count,
            r.method() == detection_method,
    {
        HardLinkOutputStream {
            fallback: CopyOutputStream::new(output_dir),
            ref_dir: copy_bytes(ref_dir),
            max_link_count,
            detection_method,
        }
    }

    /// Where the reference copy of `entry` lies; directories have none, as
    /// they are always made afresh.
    pub fn reference_of(&self, entry: &SourceEntry) -> (r: Option<Vec<u8>>)
        ensures
            r is None == (entry.kind == EntryKind::Directory),
            r matches Some(p) ==> p@ == appended(self.reference_dir(), entry.path@),
    {
        if entry.kind == EntryKind::Directory {
            None
        } else {
            Some(append_path(&self.ref_dir, &entry.path))
        }
    }

    /// The step that stores `entry`, given what lies at its reference path.
    pub fn link_step(&self, entry: &SourceEntry, reference: Option<ReferenceEntry>) -> (r: Result<
        OutputAction,
        EntryError,
    >)
        ensures
            links_to_reference(
                *entry,
                reference,
                self.link_cap(),
                self.method(),
            ) ==> (r matches Ok(OutputAction::HardLink { link, original }) && link@ == appended(
                self.dir(),
                entry.path@,
            ) && original@ == appended(self.reference_dir(), entry.path@)),
            !links_to_reference(
                *entry,
                reference,
                self.link_cap(),
                self.method(),
            ) ==> (r matches Ok(a) ==> copy_error(*entry) is None && copy_step_ok(
                self.dir(),
                *entry,
                a,
            )) && (r matches Err(err) ==> copy_error(*entry) == Some(err)) && (r is Err
                == copy_error(*entry) is Some),
    {
        if entry.kind != EntryKind::Directory {
            if let Some(rf) = reference {
                if !self.detection_method.has_changed(entry.mtime, rf.mtime) && (self.max_link_count
                    == u64::MAX || rf.nlink < self.max_link_count) {
                    let link = append_path(self.fallback.output_dir(), &entry.path);
                    let original = append_path(&self.ref_dir, &entry.path);
                    return Ok(OutputAction::HardLink { link, original });
                }
            }
        }
        self.fallback.copy_step(entry)
    }
}

/// `r` is how the hard-link sink stores `e`: a link from its place under
/// `dir` to its place under `ref_dir` where [`links_to_reference`] holds,
/// else the copy sink's step under `dir`.
pub open spec fn link_result(
    dir: Seq<u8>,
    ref_dir: Seq<u8>,
    cap: u64,
    method: ChangeDetectionMethod,
    e: SourceEntry,
    reference: Option<ReferenceEntry>,
    r: Result<OutputAction, EntryError>,
) -> bool {
    if links_to_reference(e, reference, cap, method) {
        r matches Ok(OutputAction::HardLink { link, original }) && link@ == appended(dir, e.path@)
            && original@ == appended(ref_dir, e.path@)
    } else {
        copy_result(dir, e, r)
    }
}

impl BackupOutputStream for HardLinkOutputStream {
    open spec fn refers(&self, src: SourceEntry, r: Option<Vec<u8>>) -> bool {
        &&& r is None == (src.kind == EntryKind::Directory)
        &&& r matches Some(p) ==> p@ == appended(self.reference_dir(), src.path@)
    }

    open spec fn appends(
        &self,
        entry: SourceEntry,
        reference: Option<ReferenceEntry>,
        r: Result<OutputAction, EntryError>,
    ) -> bool {
        link_result(self.dir(), self.reference_dir(), self.link_cap(), self.method(), entry, reference, r)
    }

    fn reference_path(&self, src: &SourceEntry) -> (r: Option<Vec<u8>>) {
        self.reference_of(src)
    }

    fn append_file(&mut self, entry: &SourceEntry, reference: Option<ReferenceEntry>) -> (r: Result<
        OutputAction,
        EntryError,
    >) {
        self.link_step(entry, reference)
    }
}

} // verus!

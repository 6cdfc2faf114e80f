//! The copy sink: mirrors files, directories and symlinks under an output directory.
use vstd::prelude::*;
use crate::backup::{
    copy_bytes, BackupOutputStream, EntryError, EntryKind, OutputAction, ReferenceEntry,
    SourceEntry,
};
use crate::path::{append_path, appended};

verus! {

/// A sink that recreates each entry at its relative place under `output_dir`.
pub struct CopyOutputStream {
    output_dir: Vec<u8>,
}

/// The step that mirrors `e` under `dir`: a symlink with the same target, a
/// fresh directory, or a copy of a regular file; other kinds are refused.
pub open spec fn copy_step_ok(dir: Seq<u8>, e: SourceEntry, a: OutputAction) -> bool {
    let out = appended(dir, e.path@);
    match e.kind {
        EntryKind::Symlink => (a matches OutputAction::MakeSymlink { link, target } && link@ == out
            && e.link_target is Some && target@ == e.link_target->0@),
        EntryKind::Directory => (a matches OutputAction::MakeDir { path } && path@ == out),
        EntryKind::File => (a matches OutputAction::CopyFile { from, to } && from@ == e.path@ && to@
            == out),
        _ => false,
    }
}

/// The error, if any, that stops `e` from being mirrored.
pub open spec fn copy_error(e: SourceEntry) -> Option<EntryError> {
    match e.kind {
        EntryKind::Symlink => if e.link_target is None {
            Some(EntryError::LinkUnreadable)
        } else {
            None
        },
        EntryKind::Directory | EntryKind::File => None,
        _ => Some(EntryError::UnsupportedKind),
    }
}

/// The path an output step creates and the kind of entry it makes there.
pub open spec fn created(a: OutputAction) -> Option<(Seq<u8>, EntryKind)> {
    match a {
        OutputAction::MakeSymlink { link, .. } => Some((link@, EntryKind::Symlink)),
        OutputAction::MakeDir { path } => Some((path@, EntryKind::Directory)),
        OutputAction::CopyFile { to, .. } => Some((to@, EntryKind::File)),
        _ => None,
    }
}

/// Every entry that the copy sink stores gets an output at its relative place
/// under the output directory, of the same kind.
pub proof fn lemma_copy_mirrors_kind(dir: Seq<u8>, e: SourceEntry, a: OutputAction)
    requires
        copy_step_ok(dir, e, a),
    ensures
        created(a) == Some((appended(dir, e.path@), e.kind)),
{
}

impl CopyOutputStream {
    pub closed spec fn dir(&self) -> Seq<u8> {
        self.output_dir@
    }

    pub fn new(output_dir: &[u8]) -> (r: CopyOutputStream)
        ensures
            r.dir() == output_dir@,
    {
        CopyOutputStream { output_dir: copy_bytes(output_dir) }
    }

    pub fn output_dir(&self) -> (r: &Vec<u8>)
        ensures
            r@ == self.dir(),
    {
        &self.output_dir
    }

    /// The step that mirrors `entry`.
    pub fn copy_step(&self, entry: &SourceEntry) -> (r: Result<OutputAction, EntryError>)
        ensures
            r matches Ok(a) ==> copy_error(*entry) is None && copy_step_ok(self.dir(), *entry, a),
            r matches Err(err) ==> copy_error(*entry) == Some(err),
            r is Err == copy_error(*entry) is Some,
    {
        let out = append_path(&self.output_dir, &entry.path);
        match entry.kind {
            EntryKind::Symlink => match &entry.link_target {
                Some(t) => Ok(OutputAction::MakeSymlink { link: out, target: copy_bytes(t) }),
                None => Err(EntryError::LinkUnreadable),
            },
            EntryKind::Directory => Ok(OutputAction::MakeDir { path: out }),
            EntryKind::File => Ok(OutputAction::CopyFile { from: copy_bytes(&entry.path), to: out }),
            _ => Err(EntryError::UnsupportedKind),
        }
    }
}

/// `r` is how the copy sink under `dir` stores `e`: the mirroring step, or
/// the error that stops it.
pub open spec fn copy_result(dir: Seq<u8>, e: SourceEntry, r: Result<OutputAction, EntryError>) -> bool {
    match r {
        Ok(a) => copy_error(e) is None && copy_step_ok(dir, e, a),
        Err(err) => copy_error(e) == Some(err),
    }
}

impl BackupOutputStream for CopyOutputStream {
    open spec fn refers(&self, src: SourceEntry, r: Option<Vec<u8>>) -> bool {
        r is None
    }

    open spec fn appends(
        &self,
        entry: SourceEntry,
        reference: Option<ReferenceEntry>,
        r: Result<OutputAction, EntryError>,
    ) -> bool {
        copy_result(self.dir(), entry, r)
    }

    fn reference_path(&self, src: &SourceEntry) -> (r: Option<Vec<u8>>) {
        None
    }

    fn append_file(&mut self, entry: &SourceEntry, reference: Option<ReferenceEntry>) -> (r: Result<
        OutputAction,
        EntryError,
    >) {
        self.copy_step(entry)
    }
}

} // verus!

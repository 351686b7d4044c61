//! Gathering the files of a tree into a snapshot.
//!
//! The walk itself is the caller's. It must stay on the file system of
//! the root, keep no more than `MAX_OPEN_DIRECTORIES` directories open at
//! a time, and give up on the first error. What it visits is handed to a
//! `Scan`, which keeps the regular files.

use vstd::prelude::*;
use crate::catalog::{DuplicatePath, SnapshotCatalog};
use crate::entry::{distinct_paths, models, snapshot_of, Entry};
use crate::key::FileKey;
use crate::path::RelativePath;

verus! {

/// The most directories that a walk may hold open at a time.
pub const MAX_OPEN_DIRECTORIES: usize = 128;

/// What kind of thing a walk came upon.
#[derive(Clone, Copy, PartialEq, Eq, Structural, Debug)]
pub enum FileKind {
    Regular,
    Directory,
    Symlink,
    Other,
}

/// The regular files that a walk has visited so far.
#[derive(Debug)]
pub struct Scan {
    entries: Vec<Entry>,
}

impl View for Scan {
    type V = Seq<(FileKey, Seq<u8>)>;

    closed spec fn view(&self) -> Seq<(FileKey, Seq<u8>)> {
        models(self.entries@)
    }
}

impl Scan {
    /// A scan that has visited nothing.
    pub fn new() -> (scan: Scan)
        ensures
            scan@ == Seq::<(FileKey, Seq<u8>)>::empty(),
    {
        let scan = Scan { entries: Vec::new() };
        assert(scan@ =~= Seq::<(FileKey, Seq<u8>)>::empty());
        scan
    }

    /// Takes note of what the walk found at `path`. Only a regular file is
    /// kept; directories, symbolic links and special files are passed
    /// over.
    pub fn visit(&mut self, kind: FileKind, key: FileKey, path: RelativePath)
        ensures
            final(self)@ == if kind == FileKind::Regular {
                old(self)@.push((key, path@))
            } else {
                old(self)@
            },
    {
        if kind == FileKind::Regular {
            self.entries.push(Entry::new(key, path));
            assert(self@ =~= old(self)@.push((key, path@)));
        }
    }

    /// The number of files kept.
    pub fn len(&self) -> (n: usize)
        ensures
            n == self@.len(),
    {
        self.entries.len()
    }

    /// The catalog of the files kept. A walk that came upon one path twice
    /// is refused with that path.
    pub fn into_catalog(self) -> (r: Result<SnapshotCatalog, DuplicatePath>)
        ensures
            match r {
                Ok(catalog) => {
                    &&& distinct_paths(self@)
                    &&& catalog.well_formed()
                    &&& catalog@ == snapshot_of(self@)
                },
                Err(dup) => exists|i: int, j: int|
                    0 <= i < j < self@.len() && (#[trigger] self@[i]).1 == dup.path@ && (
                    #[trigger] self@[j]).1 == dup.path@,
            },
    {
        let ghost entries = self.entries@;
        let r = SnapshotCatalog::from_entries(self.entries);
        proof {
            if r is Err {
                let dup = r->Err_0;
                let (i, j) = choose|i: int, j: int|
                    0 <= i < j < entries.len() && #[trigger] entries[i].path@ == dup.path@
                        && #[trigger] entries[j].path@ == dup.path@;
                assert(self@[i].1 == dup.path@ && self@[j].1 == dup.path@);
            }
        }
        r
    }
}

} // verus!

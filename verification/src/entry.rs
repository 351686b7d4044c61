//! One file of a snapshot.

use vstd::prelude::*;
use crate::key::FileKey;
use crate::path::RelativePath;

verus! {

/// What a snapshot records of one file: its key and its relative path.
#[derive(Debug)]
pub struct Entry {
    pub key: FileKey,
    pub path: RelativePath,
}

impl View for Entry {
    type V = (FileKey, Seq<u8>);

    open spec fn view(&self) -> (FileKey, Seq<u8>) {
        (self.key, self.path@)
    }
}

impl Clone for Entry {
    fn clone(&self) -> (copy: Self)
        ensures
            copy@ == self@,
    {
        Entry { key: self.key, path: self.path.clone() }
    }
}

impl Entry {
    /// The entry for the file at `path` with the given key.
    pub fn new(key: FileKey, path: RelativePath) -> (entry: Entry)
        ensures
            entry@ == (key, path@),
    {
        Entry { key, path }
    }
}

/// The entries of a list, each as its key and the bytes of its path.
pub open spec fn models(entries: Seq<Entry>) -> Seq<(FileKey, Seq<u8>)> {
    Seq::new(entries.len(), |i: int| entries[i]@)
}

/// Some entry of `es` has the path `p`.
pub open spec fn holds_path(es: Seq<(FileKey, Seq<u8>)>, p: Seq<u8>) -> bool {
    exists|i: int| 0 <= i < es.len() && (#[trigger] es[i]).1 == p
}

/// No two entries of `es` share a path.
pub open spec fn distinct_paths(es: Seq<(FileKey, Seq<u8>)>) -> bool {
    forall|i: int, j: int| 0 <= i < j < es.len() ==> (#[trigger] es[i]).1 != (#[trigger] es[j]).1
}

/// The snapshot that a list of entries describes: each path with the key
/// of an entry that has it.
pub open spec fn snapshot_of(es: Seq<(FileKey, Seq<u8>)>) -> Map<Seq<u8>, FileKey> {
    Map::new(
        |p: Seq<u8>| holds_path(es, p),
        |p: Seq<u8>| es[choose|i: int| 0 <= i < es.len() && (#[trigger] es[i]).1 == p].0,
    )
}

/// Where paths are distinct, the snapshot gives each entry's path that
/// entry's key.
pub proof fn lemma_snapshot_entry(es: Seq<(FileKey, Seq<u8>)>, i: int)
    requires
        distinct_paths(es),
        0 <= i < es.len(),
    ensures
        snapshot_of(es).dom().contains(es[i].1),
        snapshot_of(es)[es[i].1] == es[i].0,
{
    let p = es[i].1;
    assert(holds_path(es, p));
    let j = choose|j: int| 0 <= j < es.len() && (#[trigger] es[j]).1 == p;
    if i < j {
        assert(es[i].1 != es[j].1);
    } else if j < i {
        assert(es[j].1 != es[i].1);
    }
}

} // verus!

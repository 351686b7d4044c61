//! The result of comparing two snapshots.

use vstd::prelude::*;
use crate::path::{increasing, RelativePath};

verus! {

/// A move to replay: the file at `dst` in the target is taken to be the
/// file at `src` in the base.
#[derive(Debug)]
pub struct CopyOp {
    pub src: RelativePath,
    pub dst: RelativePath,
}

impl View for CopyOp {
    type V = (Seq<u8>, Seq<u8>);

    open spec fn view(&self) -> (Seq<u8>, Seq<u8>) {
        (self.src@, self.dst@)
    }
}

impl Clone for CopyOp {
    fn clone(&self) -> (copy: Self)
        ensures
            copy@ == self@,
    {
        CopyOp { src: self.src.clone(), dst: self.dst.clone() }
    }
}

/// The paths of a list, each as its bytes.
pub open spec fn path_models(paths: Seq<RelativePath>) -> Seq<Seq<u8>> {
    Seq::new(paths.len(), |i: int| paths[i]@)
}

/// The copies of a list, each as the bytes of its source and destination.
pub open spec fn copy_models(copies: Seq<CopyOp>) -> Seq<(Seq<u8>, Seq<u8>)> {
    Seq::new(copies.len(), |i: int| copies[i]@)
}

/// The destinations of a list of copies.
pub open spec fn destinations(copies: Seq<(Seq<u8>, Seq<u8>)>) -> Seq<Seq<u8>> {
    Seq::new(copies.len(), |i: int| copies[i].1)
}

/// What a change-set says, as byte strings.
pub struct Changes {
    pub copies: Seq<(Seq<u8>, Seq<u8>)>,
    pub adds: Seq<Seq<u8>>,
    pub deletes: Seq<Seq<u8>>,
}

impl Changes {
    /// Every list is in increasing order, the copies by destination, and
    /// no added path is the destination of a copy. So no path is named
    /// twice among the adds and destinations, nor among the deletes.
    pub open spec fn well_formed(self) -> bool {
        &&& increasing(self.adds)
        &&& increasing(self.deletes)
        &&& increasing(destinations(self.copies))
        &&& forall|i: int, j: int|
            0 <= i < self.adds.len() && 0 <= j < self.copies.len() ==> #[trigger] self.adds[i]
                != (#[trigger] self.copies[j]).1
    }
}

/// The differences between a base and a target snapshot.
///
/// `deletes` and `copies` are independent statements: the source of a
/// copy is a base path, and where the target no longer has that very
/// file at that path, the path is also among the deletes.
#[derive(Debug)]
pub struct ChangeSet {
    /// Target paths that are probably a base file under another name,
    /// each with that base file, in the order of the destinations.
    pub copies: Vec<CopyOp>,
    /// Target paths for which the base has nothing to offer, in order.
    pub adds: Vec<RelativePath>,
    /// Base paths at which the target does not have the same file, in
    /// order.
    pub deletes: Vec<RelativePath>,
}

impl View for ChangeSet {
    type V = Changes;

    open spec fn view(&self) -> Changes {
        Changes {
            copies: copy_models(self.copies@),
            adds: path_models(self.adds@),
            deletes: path_models(self.deletes@),
        }
    }
}

impl ChangeSet {
    /// Whether the change-set says nothing at all.
    pub fn is_empty(&self) -> (empty: bool)
        ensures
            empty == (self@.copies.len() == 0 && self@.adds.len() == 0 && self@.deletes.len()
                == 0),
    {
        self.copies.len() == 0 && self.adds.len() == 0 && self.deletes.len() == 0
    }
}

} // verus!

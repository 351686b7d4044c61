//! What holds of every change-set.
//!
//! The differ's contract says that the change-set it gives is described
//! by the two snapshots, the policy and the verdicts. The statements here
//! are consequences of that description alone.

use vstd::prelude::*;
use crate::catalog::{exact_matches, name_matches, size_matches};
use crate::changeset::{destinations, Changes};
use crate::differ::{
    candidate_set, describes, has_source, is_add, lemma_source_unique, unchanged, MatchPolicy,
};
use crate::entry::{distinct_paths, holds_path, lemma_snapshot_entry, snapshot_of};
use crate::key::FileKey;
use crate::path::{
    basename, increasing, lemma_lex_asymmetric, lemma_lex_irreflexive, lex_lt,
};

verus! {

/// Two lists in increasing order that hold the same paths are the same
/// list.
pub proof fn lemma_increasing_unique(a: Seq<Seq<u8>>, b: Seq<Seq<u8>>)
    requires
        increasing(a),
        increasing(b),
        forall|p: Seq<u8>| a.contains(p) <==> b.contains(p),
    ensures
        a == b,
    decreases a.len(),
{
    if a.len() == 0 {
        if b.len() > 0 {
            assert(b.contains(b[0]));
        }
        assert(a =~= b);
    } else {
        let x = a.last();
        assert(a.contains(x));
        let k = choose|k: int| 0 <= k < b.len() && b[k] == x;
        let y = b.last();
        assert(b.contains(y));
        let j = choose|j: int| 0 <= j < a.len() && a[j] == y;
        if k < b.len() - 1 {
            assert(lex_lt(b[k], b[b.len() - 1]));
            if j < a.len() - 1 {
                assert(lex_lt(a[j], a[a.len() - 1]));
                lemma_lex_asymmetric(x, y);
            } else {
                lemma_lex_irreflexive(x);
            }
        }
        assert(x == y);
        let a0 = a.drop_last();
        let b0 = b.drop_last();
        assert forall|p: Seq<u8>| a0.contains(p) <==> b0.contains(p) by {
            if a0.contains(p) {
                let i = choose|i: int| 0 <= i < a0.len() && a0[i] == p;
                assert(lex_lt(a[i], a[a.len() - 1]));
                lemma_lex_irreflexive(x);
                assert(a.contains(p));
                let m = choose|m: int| 0 <= m < b.len() && b[m] == p;
                assert(b0[m] == p);
            }
            if b0.contains(p) {
                let i = choose|i: int| 0 <= i < b0.len() && b0[i] == p;
                assert(lex_lt(b[i], b[b.len() - 1]));
                lemma_lex_irreflexive(x);
                assert(b.contains(p));
                let m = choose|m: int| 0 <= m < a.len() && a[m] == p;
                assert(a0[m] == p);
            }
        }
        assert forall|i: int, j: int| 0 <= i < j < a0.len() implies lex_lt(
            #[trigger] a0[i],
            #[trigger] a0[j],
        ) by {
            assert(lex_lt(a[i], a[j]));
        }
        assert forall|i: int, j: int| 0 <= i < j < b0.len() implies lex_lt(
            #[trigger] b0[i],
            #[trigger] b0[j],
        ) by {
            assert(lex_lt(b[i], b[j]));
        }
        lemma_increasing_unique(a0, b0);
        assert(a =~= a0.push(x));
        assert(b =~= b0.push(y));
    }
}

/// Determinism: the two snapshots, the policy and the verdicts leave room
/// for one change-set only, list by list and place by place.
pub proof fn lemma_change_set_unique(
    a: Changes,
    b: Changes,
    base: Map<Seq<u8>, FileKey>,
    target: Map<Seq<u8>, FileKey>,
    policy: MatchPolicy,
    same: spec_fn(Seq<u8>, Seq<u8>) -> bool,
)
    requires
        describes(a, base, target, policy, same),
        describes(b, base, target, policy, same),
    ensures
        a == b,
{
    lemma_increasing_unique(a.adds, b.adds);
    lemma_increasing_unique(a.deletes, b.deletes);
    let da = destinations(a.copies);
    let db = destinations(b.copies);
    assert forall|d: Seq<u8>| da.contains(d) <==> db.contains(d) by {
        if da.contains(d) {
            let i = choose|i: int| 0 <= i < da.len() && da[i] == d;
            assert(a.copies.contains(a.copies[i]));
            assert(b.copies.contains((a.copies[i].0, d)));
            let j = choose|j: int| 0 <= j < b.copies.len() && b.copies[j] == (a.copies[i].0, d);
            assert(db[j] == d);
        }
        if db.contains(d) {
            let i = choose|i: int| 0 <= i < db.len() && db[i] == d;
            assert(b.copies.contains(b.copies[i]));
            assert(a.copies.contains((b.copies[i].0, d)));
            let j = choose|j: int| 0 <= j < a.copies.len() && a.copies[j] == (b.copies[i].0, d);
            assert(da[j] == d);
        }
    }
    lemma_increasing_unique(da, db);
    assert(a.copies.len() == da.len() && b.copies.len() == db.len());
    assert forall|i: int| 0 <= i < a.copies.len() implies a.copies[i] == b.copies[i] by {
        let d = da[i];
        assert(db[i] == d);
        assert(a.copies.contains(a.copies[i]));
        assert(b.copies.contains(b.copies[i]));
        assert(a.copies.contains((a.copies[i].0, d)));
        assert(b.copies.contains((b.copies[i].0, d)));
        lemma_source_unique(base, policy, same, a.copies[i].0, b.copies[i].0, d, target[d]);
    }
    assert(a.copies =~= b.copies);
}

/// The snapshot that a list of entries describes does not depend on the
/// order of the list.
pub proof fn lemma_snapshot_order_free(a: Seq<(FileKey, Seq<u8>)>, b: Seq<(FileKey, Seq<u8>)>)
    requires
        distinct_paths(a),
        distinct_paths(b),
        forall|e: (FileKey, Seq<u8>)| a.contains(e) <==> b.contains(e),
    ensures
        snapshot_of(a) == snapshot_of(b),
{
    assert forall|p: Seq<u8>| holds_path(a, p) implies holds_path(b, p) && snapshot_of(a)[p]
        == snapshot_of(b)[p] by {
        let i = choose|i: int| 0 <= i < a.len() && (#[trigger] a[i]).1 == p;
        assert(a.contains(a[i]));
        let j = choose|j: int| 0 <= j < b.len() && b[j] == a[i];
        lemma_snapshot_entry(a, i);
        lemma_snapshot_entry(b, j);
    }
    assert forall|p: Seq<u8>| holds_path(b, p) implies holds_path(a, p) by {
        let i = choose|i: int| 0 <= i < b.len() && (#[trigger] b[i]).1 == p;
        assert(b.contains(b[i]));
        let j = choose|j: int| 0 <= j < a.len() && a[j] == b[i];
        assert(a[j].1 == p);
    }
    assert(snapshot_of(a) =~= snapshot_of(b));
}

/// Idempotence: a snapshot compared with itself gives the empty
/// change-set.
pub proof fn lemma_same_snapshot_no_changes(
    changes: Changes,
    snapshot: Map<Seq<u8>, FileKey>,
    policy: MatchPolicy,
    same: spec_fn(Seq<u8>, Seq<u8>) -> bool,
)
    requires
        describes(changes, snapshot, snapshot, policy, same),
    ensures
        changes.copies.len() == 0,
        changes.adds.len() == 0,
        changes.deletes.len() == 0,
{
    if changes.copies.len() > 0 {
        assert(changes.copies.contains(changes.copies[0]));
        assert(changes.copies.contains((changes.copies[0].0, changes.copies[0].1)));
    }
    if changes.adds.len() > 0 {
        assert(changes.adds.contains(changes.adds[0]));
    }
    if changes.deletes.len() > 0 {
        assert(changes.deletes.contains(changes.deletes[0]));
    }
}

/// A file that base and target have at the same path with the same key
/// is neither added nor deleted nor the destination of a copy.
pub proof fn lemma_unchanged_file_untouched(
    changes: Changes,
    base: Map<Seq<u8>, FileKey>,
    target: Map<Seq<u8>, FileKey>,
    policy: MatchPolicy,
    same: spec_fn(Seq<u8>, Seq<u8>) -> bool,
    path: Seq<u8>,
)
    requires
        describes(changes, base, target, policy, same),
        base.dom().contains(path),
        target.dom().contains(path),
        base[path] == target[path],
    ensures
        !changes.adds.contains(path),
        !changes.deletes.contains(path),
        forall|source: Seq<u8>| !changes.copies.contains((source, path)),
{
}

/// Pure addition: a target file for which the base has no file of the
/// same key, none of the same size and none of the same name is an add.
pub proof fn lemma_unmatched_file_added(
    changes: Changes,
    base: Map<Seq<u8>, FileKey>,
    target: Map<Seq<u8>, FileKey>,
    policy: MatchPolicy,
    same: spec_fn(Seq<u8>, Seq<u8>) -> bool,
    path: Seq<u8>,
)
    requires
        describes(changes, base, target, policy, same),
        target.dom().contains(path),
        forall|p: Seq<u8>| !exact_matches(base, target[path]).contains(p),
        forall|p: Seq<u8>| !size_matches(base, target[path].size).contains(p),
        forall|p: Seq<u8>| !name_matches(base, basename(path)).contains(p),
    ensures
        changes.adds.contains(path),
{
    let key = target[path];
    assert(!unchanged(base, path, key)) by {
        if unchanged(base, path, key) {
            assert(exact_matches(base, key).contains(path));
        }
    }
    assert(candidate_set(base, path, key, policy.by_name) =~= Set::empty());
    assert(!has_source(base, policy, same, path, key));
    assert(is_add(base, policy, same, path, key));
}

/// Pure deletion: a base path at which the target does not have a file of
/// the same key is a delete, whatever the copies say.
pub proof fn lemma_vanished_file_deleted(
    changes: Changes,
    base: Map<Seq<u8>, FileKey>,
    target: Map<Seq<u8>, FileKey>,
    policy: MatchPolicy,
    same: spec_fn(Seq<u8>, Seq<u8>) -> bool,
    path: Seq<u8>,
)
    requires
        describes(changes, base, target, policy, same),
        base.dom().contains(path),
        !exact_matches(target, base[path]).contains(path),
    ensures
        changes.deletes.contains(path),
{
}

/// In a change-set in order no path is named twice among the adds and
/// the destinations of the copies, and none twice among the deletes.
pub proof fn lemma_no_path_twice(changes: Changes)
    requires
        changes.well_formed(),
    ensures
        (changes.adds + destinations(changes.copies)).no_duplicates(),
        changes.deletes.no_duplicates(),
{
    let adds = changes.adds;
    let dsts = destinations(changes.copies);
    let all = adds + dsts;
    assert forall|i: int, j: int| 0 <= i < all.len() && 0 <= j < all.len() && i != j implies all[i]
        != all[j] by {
        let (lo, hi) = if i < j {
            (i, j)
        } else {
            (j, i)
        };
        if hi < adds.len() {
            assert(lex_lt(adds[lo], adds[hi]));
            lemma_lex_irreflexive(adds[lo]);
        } else if lo >= adds.len() {
            assert(lex_lt(dsts[lo - adds.len()], dsts[hi - adds.len()]));
            lemma_lex_irreflexive(all[lo]);
        } else {
            assert(adds[lo] != changes.copies[hi - adds.len()].1);
        }
    }
    assert forall|i: int, j: int|
        0 <= i < changes.deletes.len() && 0 <= j < changes.deletes.len() && i
            != j implies changes.deletes[i] != changes.deletes[j] by {
        if i < j {
            assert(lex_lt(changes.deletes[i], changes.deletes[j]));
        } else {
            assert(lex_lt(changes.deletes[j], changes.deletes[i]));
        }
        lemma_lex_irreflexive(changes.deletes[i]);
    }
}

} // verus!

//! Move inference: the differences between two snapshots.
//!
//! Deletes and copies are found by two passes that do not look at each
//! other. A base path is deleted where the target does not have the same
//! file at that path. A target path that the base does not have with the
//! same key is paired with the first candidate that is accepted, in the
//! order of the candidates' paths, and is an add where none is. A file
//! that moved is therefore both the source of a copy and a delete.
//!
//! Whether a candidate has the bytes of the target file is for the caller
//! to find out. `MoveDiffer` asks one question at a time and takes one
//! verdict at a time.

use vstd::prelude::*;
use crate::catalog::{chosen_strategy, hits, lists, Bucket, SnapshotCatalog};
use crate::changeset::{
    copy_models, destinations, path_models, ChangeSet, Changes, CopyOp,
};
use crate::entry::{distinct_paths, holds_path, lemma_snapshot_entry, snapshot_of};
use crate::key::FileKey;
use crate::path::{
    increasing, lemma_lex_asymmetric, lemma_lex_irreflexive, lex_le, lex_lt, RelativePath,
};

verus! {

/// Which candidates are looked for, and what makes one acceptable.
#[derive(Clone, Copy, PartialEq, Eq, Structural, Debug)]
pub struct MatchPolicy {
    /// Fall back on files of the same name where neither key nor size
    /// finds a candidate.
    pub by_name: bool,
    /// Accept a candidate only where its bytes are those of the target
    /// file. Without it the first candidate is accepted as it is.
    pub verify_content: bool,
}

/// The snapshot `other` has the same file at `path`: a file there, with
/// the key `key`.
pub open spec fn unchanged(other: Map<Seq<u8>, FileKey>, path: Seq<u8>, key: FileKey) -> bool {
    other.dom().contains(path) && other[path] == key
}

/// The base paths that may be the file at `path` with the key `key`: what
/// the first strategy that finds anything finds.
pub open spec fn candidate_set(
    base: Map<Seq<u8>, FileKey>,
    path: Seq<u8>,
    key: FileKey,
    by_name: bool,
) -> Set<Seq<u8>> {
    match chosen_strategy(base, path, key, by_name) {
        Some(strategy) => hits(base, strategy, path, key),
        None => Set::empty(),
    }
}

/// The candidate is acceptable for the target file at `path` with the key
/// `key`. Without verification every candidate is. With it, a candidate
/// is acceptable where it has the size of the target file and `same`,
/// which tells of a base path and a target path whether the two files
/// hold the same bytes, says so: files of different sizes are never
/// compared.
pub open spec fn accepts(
    base: Map<Seq<u8>, FileKey>,
    policy: MatchPolicy,
    same: spec_fn(Seq<u8>, Seq<u8>) -> bool,
    candidate: Seq<u8>,
    path: Seq<u8>,
    key: FileKey,
) -> bool {
    !policy.verify_content || (base[candidate].size == key.size && same(candidate, path))
}

/// Some candidate for the file at `path` is acceptable.
pub open spec fn has_source(
    base: Map<Seq<u8>, FileKey>,
    policy: MatchPolicy,
    same: spec_fn(Seq<u8>, Seq<u8>) -> bool,
    path: Seq<u8>,
    key: FileKey,
) -> bool {
    exists|c: Seq<u8>|
        candidate_set(base, path, key, policy.by_name).contains(c) && accepts(
            base,
            policy,
            same,
            c,
            path,
            key,
        )
}

/// `source` is the first acceptable candidate for the file at `path`.
pub open spec fn is_source(
    base: Map<Seq<u8>, FileKey>,
    policy: MatchPolicy,
    same: spec_fn(Seq<u8>, Seq<u8>) -> bool,
    source: Seq<u8>,
    path: Seq<u8>,
    key: FileKey,
) -> bool {
    &&& candidate_set(base, path, key, policy.by_name).contains(source)
    &&& accepts(base, policy, same, source, path, key)
    &&& forall|c: Seq<u8>|
        candidate_set(base, path, key, policy.by_name).contains(c) && accepts(
            base,
            policy,
            same,
            c,
            path,
            key,
        ) ==> lex_le(source, c)
}

/// The target file at `path` is an add: the base does not have it, and no
/// candidate is acceptable.
pub open spec fn is_add(
    base: Map<Seq<u8>, FileKey>,
    policy: MatchPolicy,
    same: spec_fn(Seq<u8>, Seq<u8>) -> bool,
    path: Seq<u8>,
    key: FileKey,
) -> bool {
    !unchanged(base, path, key) && !has_source(base, policy, same, path, key)
}

/// The target file at `path` is a copy of `source`: the base does not
/// have it, and `source` is its first acceptable candidate.
pub open spec fn is_copy(
    base: Map<Seq<u8>, FileKey>,
    policy: MatchPolicy,
    same: spec_fn(Seq<u8>, Seq<u8>) -> bool,
    source: Seq<u8>,
    path: Seq<u8>,
    key: FileKey,
) -> bool {
    !unchanged(base, path, key) && is_source(base, policy, same, source, path, key)
}

/// `changes` is the change-set from `base` to `target` under `policy`,
/// given what `same` tells of the files' bytes.
pub open spec fn describes(
    changes: Changes,
    base: Map<Seq<u8>, FileKey>,
    target: Map<Seq<u8>, FileKey>,
    policy: MatchPolicy,
    same: spec_fn(Seq<u8>, Seq<u8>) -> bool,
) -> bool {
    &&& changes.well_formed()
    &&& forall|p: Seq<u8>| #[trigger]
        changes.deletes.contains(p) <==> base.dom().contains(p) && !unchanged(target, p, base[p])
    &&& forall|p: Seq<u8>| #[trigger]
        changes.adds.contains(p) <==> target.dom().contains(p) && is_add(
            base,
            policy,
            same,
            p,
            target[p],
        )
    &&& forall|s: Seq<u8>, d: Seq<u8>| #[trigger]
        changes.copies.contains((s, d)) <==> target.dom().contains(d) && is_copy(
            base,
            policy,
            same,
            s,
            d,
            target[d],
        )
}

/// A file has at most one first acceptable candidate.
pub proof fn lemma_source_unique(
    base: Map<Seq<u8>, FileKey>,
    policy: MatchPolicy,
    same: spec_fn(Seq<u8>, Seq<u8>) -> bool,
    a: Seq<u8>,
    b: Seq<u8>,
    path: Seq<u8>,
    key: FileKey,
)
    requires
        is_source(base, policy, same, a, path, key),
        is_source(base, policy, same, b, path, key),
    ensures
        a == b,
{
    assert(lex_le(a, b));
    assert(lex_le(b, a));
    if lex_lt(a, b) {
        lemma_lex_asymmetric(a, b);
    }
}

/// One of the first `pos` entries of `list` has the path `p`.
pub open spec fn seen(list: Seq<(FileKey, Seq<u8>)>, pos: int, p: Seq<u8>) -> bool {
    exists|t: int| 0 <= t < pos && (#[trigger] list[t]).1 == p
}

/// `adds` and `copies` are what the first `pos` target files of `list`
/// come to.
pub open spec fn settled(
    base: Map<Seq<u8>, FileKey>,
    list: Seq<(FileKey, Seq<u8>)>,
    policy: MatchPolicy,
    same: spec_fn(Seq<u8>, Seq<u8>) -> bool,
    adds: Seq<Seq<u8>>,
    copies: Seq<(Seq<u8>, Seq<u8>)>,
    pos: int,
) -> bool {
    &&& forall|p: Seq<u8>| #[trigger]
        adds.contains(p) <==> seen(list, pos, p) && is_add(
            base,
            policy,
            same,
            p,
            snapshot_of(list)[p],
        )
    &&& forall|s: Seq<u8>, d: Seq<u8>| #[trigger]
        copies.contains((s, d)) <==> seen(list, pos, d) && is_copy(
            base,
            policy,
            same,
            s,
            d,
            snapshot_of(list)[d],
        )
}

/// Every path of `paths` comes before the paths of `list` from `pos` on.
pub open spec fn ahead(paths: Seq<Seq<u8>>, list: Seq<(FileKey, Seq<u8>)>, pos: int) -> bool {
    forall|i: int, t: int|
        0 <= i < paths.len() && pos <= t < list.len() ==> lex_lt(
            #[trigger] paths[i],
            (#[trigger] list[t]).1,
        )
}

/// What is settled for the first `pos` files and the outcome for the file
/// at `pos` make what is settled for the first `pos + 1`.
proof fn lemma_settle_one(
    base: Map<Seq<u8>, FileKey>,
    list: Seq<(FileKey, Seq<u8>)>,
    policy: MatchPolicy,
    same: spec_fn(Seq<u8>, Seq<u8>) -> bool,
    adds: Seq<Seq<u8>>,
    copies: Seq<(Seq<u8>, Seq<u8>)>,
    pos: int,
    adds_after: Seq<Seq<u8>>,
    copies_after: Seq<(Seq<u8>, Seq<u8>)>,
)
    requires
        distinct_paths(list),
        0 <= pos < list.len(),
        settled(base, list, policy, same, adds, copies, pos),
        forall|p: Seq<u8>| #[trigger]
            adds_after.contains(p) <==> adds.contains(p) || (p == list[pos].1 && is_add(
                base,
                policy,
                same,
                list[pos].1,
                list[pos].0,
            )),
        forall|s: Seq<u8>, d: Seq<u8>| #[trigger]
            copies_after.contains((s, d)) <==> copies.contains((s, d)) || (d == list[pos].1
                && is_copy(base, policy, same, s, list[pos].1, list[pos].0)),
    ensures
        settled(base, list, policy, same, adds_after, copies_after, pos + 1),
{
    lemma_snapshot_entry(list, pos);
    lemma_seen_next(list, pos);
}

/// The delete pass: the base paths at which the target does not have the
/// same file, in increasing order.
pub fn deleted_paths(base: &SnapshotCatalog, target: &SnapshotCatalog) -> (deletes: Vec<
    RelativePath,
>)
    requires
        base.well_formed(),
        target.well_formed(),
    ensures
        increasing(path_models(deletes@)),
        forall|p: Seq<u8>| #[trigger]
            path_models(deletes@).contains(p) <==> base@.dom().contains(p) && !unchanged(
                target@,
                p,
                base@[p],
            ),
{
    let ghost list = base.listing();
    proof {
        base.lemma_listing();
    }
    let mut deletes: Vec<RelativePath> = Vec::new();
    let n = base.len();
    let mut i: usize = 0;
    while i < n
        invariant
            base.well_formed(),
            target.well_formed(),
            list == base.listing(),
            distinct_paths(list),
            increasing(crate::catalog::paths_of(list)),
            snapshot_of(list) == base@,
            n == list.len(),
            i <= n,
            increasing(path_models(deletes@)),
            ahead(path_models(deletes@), list, i as int),
            forall|p: Seq<u8>| #[trigger]
                path_models(deletes@).contains(p) <==> seen(list, i as int, p) && !unchanged(
                    target@,
                    p,
                    base@[p],
                ),
        decreases n - i,
    {
        let entry = base.entry(i);
        let ghost before = path_models(deletes@);
        proof {
            lemma_snapshot_entry(list, i as int);
            lemma_seen_next(list, i as int);
            lemma_ahead_next(before, list, i as int);
        }
        if !target.contains(&entry.path, &entry.key) {
            deletes.push(entry.path.clone());
            proof {
                assert(path_models(deletes@) =~= before.push(list[i as int].1));
                lemma_push_ahead(before, list, i as int);
                assert forall|p: Seq<u8>| #[trigger]
                    path_models(deletes@).contains(p) <==> before.contains(p) || p == list[i as int].1 by {
                    vstd::seq_lib::lemma_seq_contains_after_push(before, list[i as int].1, p);
                }
            }
        }
        i += 1;
    }
    proof {
        assert forall|p: Seq<u8>| seen(list, n as int, p) <==> base@.dom().contains(p) by {
            lemma_seen_all(list, p);
        }
    }
    deletes
}

/// Among the first `pos + 1` entries are the first `pos` and the one at
/// `pos`, which is not among the first `pos`.
pub proof fn lemma_seen_next(list: Seq<(FileKey, Seq<u8>)>, pos: int)
    requires
        distinct_paths(list),
        0 <= pos < list.len(),
    ensures
        forall|p: Seq<u8>| #[trigger]
            seen(list, pos + 1, p) <==> seen(list, pos, p) || p == list[pos].1,
        !seen(list, pos, list[pos].1),
{
    assert forall|p: Seq<u8>| #[trigger]
        seen(list, pos + 1, p) <==> seen(list, pos, p) || p == list[pos].1 by {
        if seen(list, pos + 1, p) {
            let t = choose|t: int| 0 <= t < pos + 1 && (#[trigger] list[t]).1 == p;
            if t < pos {
                assert(seen(list, pos, p));
            }
        }
        if seen(list, pos, p) {
            let t = choose|t: int| 0 <= t < pos && (#[trigger] list[t]).1 == p;
            assert(0 <= t < pos + 1 && list[t].1 == p);
        }
        if p == list[pos].1 {
            assert(0 <= pos < pos + 1 && list[pos].1 == p);
        }
    }
    if seen(list, pos, list[pos].1) {
        let t = choose|t: int| 0 <= t < pos && (#[trigger] list[t]).1 == list[pos].1;
        assert(list[t].1 != list[pos].1);
    }
}

/// The paths among all entries of a list are the paths of its snapshot.
pub proof fn lemma_seen_all(list: Seq<(FileKey, Seq<u8>)>, p: Seq<u8>)
    ensures
        seen(list, list.len() as int, p) <==> snapshot_of(list).dom().contains(p),
{
    if seen(list, list.len() as int, p) {
        let t = choose|t: int| 0 <= t < list.len() && (#[trigger] list[t]).1 == p;
        assert(holds_path(list, p));
    }
    if holds_path(list, p) {
        let t = choose|t: int| 0 <= t < list.len() && (#[trigger] list[t]).1 == p;
        assert(seen(list, list.len() as int, p));
    }
}

/// Paths that come before everything from `pos` on come before
/// everything from `pos + 1` on.
pub proof fn lemma_ahead_next(paths: Seq<Seq<u8>>, list: Seq<(FileKey, Seq<u8>)>, pos: int)
    requires
        ahead(paths, list, pos),
        0 <= pos,
    ensures
        ahead(paths, list, pos + 1),
{
}

/// With the path at `pos` behind them, increasing paths that come before
/// everything from `pos` on are still increasing, and come before
/// everything from `pos + 1` on.
pub proof fn lemma_push_ahead(paths: Seq<Seq<u8>>, list: Seq<(FileKey, Seq<u8>)>, pos: int)
    requires
        increasing(paths),
        ahead(paths, list, pos),
        increasing(crate::catalog::paths_of(list)),
        0 <= pos < list.len(),
    ensures
        increasing(paths.push(list[pos].1)),
        ahead(paths.push(list[pos].1), list, pos + 1),
{
    let after = paths.push(list[pos].1);
    assert forall|i: int, j: int| 0 <= i < j < after.len() implies lex_lt(
        #[trigger] after[i],
        #[trigger] after[j],
    ) by {
        if j == paths.len() {
            assert(lex_lt(paths[i], list[pos].1));
        } else {
            assert(lex_lt(paths[i], paths[j]));
        }
    }
    assert forall|i: int, t: int| 0 <= i < after.len() && pos + 1 <= t < list.len() implies lex_lt(
        #[trigger] after[i],
        (#[trigger] list[t]).1,
    ) by {
        if i == paths.len() {
            assert(lex_lt(
                crate::catalog::paths_of(list)[pos],
                crate::catalog::paths_of(list)[t],
            ));
        } else {
            assert(lex_lt(paths[i], list[t].1));
        }
    }
}

/// The candidate at place `k` of the bucket is the source for the file at
/// `path` where it is acceptable and no candidate before it is.
proof fn lemma_first_is_source(
    base: Map<Seq<u8>, FileKey>,
    policy: MatchPolicy,
    same: spec_fn(Seq<u8>, Seq<u8>) -> bool,
    bucket: Seq<Seq<u8>>,
    k: int,
    path: Seq<u8>,
    key: FileKey,
)
    requires
        lists(bucket, candidate_set(base, path, key, policy.by_name)),
        0 <= k < bucket.len(),
        accepts(base, policy, same, bucket[k], path, key),
        forall|c: int|
            0 <= c < k ==> !accepts(base, policy, same, #[trigger] bucket[c], path, key),
    ensures
        is_source(base, policy, same, bucket[k], path, key),
{
    let set = candidate_set(base, path, key, policy.by_name);
    assert(bucket.contains(bucket[k]));
    assert forall|c: Seq<u8>|
        set.contains(c) && accepts(base, policy, same, c, path, key) implies lex_le(
        bucket[k],
        c,
    ) by {
        assert(bucket.contains(c));
        let j = choose|j: int| 0 <= j < bucket.len() && bucket[j] == c;
        if j > k {
            assert(lex_lt(bucket[k], bucket[j]));
        }
    }
}

/// No candidate is acceptable where none of the bucket is.
proof fn lemma_none_is_source(
    base: Map<Seq<u8>, FileKey>,
    policy: MatchPolicy,
    same: spec_fn(Seq<u8>, Seq<u8>) -> bool,
    bucket: Seq<Seq<u8>>,
    path: Seq<u8>,
    key: FileKey,
)
    requires
        lists(bucket, candidate_set(base, path, key, policy.by_name)),
        forall|c: int|
            0 <= c < bucket.len() ==> !accepts(
                base,
                policy,
                same,
                #[trigger] bucket[c],
                path,
                key,
            ),
    ensures
        !has_source(base, policy, same, path, key),
{
    let set = candidate_set(base, path, key, policy.by_name);
    if has_source(base, policy, same, path, key) {
        let c = choose|c: Seq<u8>| set.contains(c) && accepts(base, policy, same, c, path, key);
        assert(bucket.contains(c));
        let j = choose|j: int| 0 <= j < bucket.len() && bucket[j] == c;
        assert(!accepts(base, policy, same, bucket[j], path, key));
    }
}

/// The file at `pos` settles as a copy of its source.
proof fn lemma_copy_settles(
    base: Map<Seq<u8>, FileKey>,
    list: Seq<(FileKey, Seq<u8>)>,
    policy: MatchPolicy,
    same: spec_fn(Seq<u8>, Seq<u8>) -> bool,
    adds: Seq<Seq<u8>>,
    copies: Seq<(Seq<u8>, Seq<u8>)>,
    pos: int,
    source: Seq<u8>,
)
    requires
        distinct_paths(list),
        0 <= pos < list.len(),
        settled(base, list, policy, same, adds, copies, pos),
        is_copy(base, policy, same, source, list[pos].1, list[pos].0),
    ensures
        settled(base, list, policy, same, adds, copies.push((source, list[pos].1)), pos + 1),
{
    let e = list[pos];
    let copies_after = copies.push((source, e.1));
    assert forall|s: Seq<u8>, d: Seq<u8>| #[trigger]
        copies_after.contains((s, d)) <==> copies.contains((s, d)) || (d == e.1 && is_copy(
            base,
            policy,
            same,
            s,
            e.1,
            e.0,
        )) by {
        vstd::seq_lib::lemma_seq_contains_after_push(copies, (source, e.1), (s, d));
        if d == e.1 && is_copy(base, policy, same, s, e.1, e.0) {
            lemma_source_unique(base, policy, same, s, source, e.1, e.0);
        }
    }
    lemma_settle_one(base, list, policy, same, adds, copies, pos, adds, copies_after);
}

/// No added path is the destination of a copy.
pub open spec fn disjoint(adds: Seq<Seq<u8>>, copies: Seq<(Seq<u8>, Seq<u8>)>) -> bool {
    forall|i: int, j: int|
        0 <= i < adds.len() && 0 <= j < copies.len() ==> #[trigger] adds[i] != (
        #[trigger] copies[j]).1
}

/// The adds and the copies are in order and apart, and all come before
/// the files of `list` from `pos` on.
pub open spec fn tidy(
    adds: Seq<Seq<u8>>,
    copies: Seq<(Seq<u8>, Seq<u8>)>,
    list: Seq<(FileKey, Seq<u8>)>,
    pos: int,
) -> bool {
    &&& increasing(adds)
    &&& increasing(destinations(copies))
    &&& ahead(adds, list, pos)
    &&& ahead(destinations(copies), list, pos)
    &&& disjoint(adds, copies)
}

/// Passing over the file at `pos` keeps adds and copies tidy.
proof fn lemma_tidy_skip(
    adds: Seq<Seq<u8>>,
    copies: Seq<(Seq<u8>, Seq<u8>)>,
    list: Seq<(FileKey, Seq<u8>)>,
    pos: int,
)
    requires
        tidy(adds, copies, list, pos),
        0 <= pos,
    ensures
        tidy(adds, copies, list, pos + 1),
{
}

/// Adding the file at `pos` keeps adds and copies tidy.
proof fn lemma_tidy_add(
    adds: Seq<Seq<u8>>,
    copies: Seq<(Seq<u8>, Seq<u8>)>,
    list: Seq<(FileKey, Seq<u8>)>,
    pos: int,
)
    requires
        tidy(adds, copies, list, pos),
        increasing(crate::catalog::paths_of(list)),
        0 <= pos < list.len(),
    ensures
        tidy(adds.push(list[pos].1), copies, list, pos + 1),
{
    let after = adds.push(list[pos].1);
    lemma_push_ahead(adds, list, pos);
    assert forall|i: int, j: int| 0 <= i < after.len() && 0 <= j < copies.len() implies #[trigger] after[i]
        != (#[trigger] copies[j]).1 by {
        if i == adds.len() {
            assert(lex_lt(destinations(copies)[j], list[pos].1));
            lemma_lex_irreflexive(list[pos].1);
        }
    }
}

/// Making the file at `pos` the destination of a copy keeps adds and
/// copies tidy.
proof fn lemma_tidy_copy(
    adds: Seq<Seq<u8>>,
    copies: Seq<(Seq<u8>, Seq<u8>)>,
    list: Seq<(FileKey, Seq<u8>)>,
    pos: int,
    source: Seq<u8>,
)
    requires
        tidy(adds, copies, list, pos),
        increasing(crate::catalog::paths_of(list)),
        0 <= pos < list.len(),
    ensures
        tidy(adds, copies.push((source, list[pos].1)), list, pos + 1),
{
    let after = copies.push((source, list[pos].1));
    assert(destinations(after) =~= destinations(copies).push(list[pos].1));
    lemma_push_ahead(destinations(copies), list, pos);
    assert forall|i: int, j: int| 0 <= i < adds.len() && 0 <= j < after.len() implies #[trigger] adds[i]
        != (#[trigger] after[j]).1 by {
        if j == copies.len() {
            assert(lex_lt(adds[i], list[pos].1));
            lemma_lex_irreflexive(list[pos].1);
        }
    }
}

/// The file at `pos` settles as passed over where the base has it.
proof fn lemma_skip_settles(
    base: Map<Seq<u8>, FileKey>,
    list: Seq<(FileKey, Seq<u8>)>,
    policy: MatchPolicy,
    same: spec_fn(Seq<u8>, Seq<u8>) -> bool,
    adds: Seq<Seq<u8>>,
    copies: Seq<(Seq<u8>, Seq<u8>)>,
    pos: int,
)
    requires
        distinct_paths(list),
        0 <= pos < list.len(),
        settled(base, list, policy, same, adds, copies, pos),
        unchanged(base, list[pos].1, list[pos].0),
    ensures
        settled(base, list, policy, same, adds, copies, pos + 1),
{
    lemma_settle_one(base, list, policy, same, adds, copies, pos, adds, copies);
}

/// The file at `pos` settles as an add where it is one.
proof fn lemma_add_settles(
    base: Map<Seq<u8>, FileKey>,
    list: Seq<(FileKey, Seq<u8>)>,
    policy: MatchPolicy,
    same: spec_fn(Seq<u8>, Seq<u8>) -> bool,
    adds: Seq<Seq<u8>>,
    copies: Seq<(Seq<u8>, Seq<u8>)>,
    pos: int,
)
    requires
        distinct_paths(list),
        0 <= pos < list.len(),
        settled(base, list, policy, same, adds, copies, pos),
        is_add(base, policy, same, list[pos].1, list[pos].0),
    ensures
        settled(base, list, policy, same, adds.push(list[pos].1), copies, pos + 1),
{
    let e = list[pos];
    let after = adds.push(e.1);
    assert forall|p: Seq<u8>| #[trigger] after.contains(p) <==> adds.contains(p) || p == e.1 by {
        vstd::seq_lib::lemma_seq_contains_after_push(adds, e.1, p);
    }
    lemma_settle_one(base, list, policy, same, adds, copies, pos, after, copies);
}

/// The add and copy pass, one question at a time.
///
/// While the differ is not finished it has a question: are the bytes of
/// this base file those of this target file? The two files are of one
/// size. The caller finds out and answers, and the differ goes on to its
/// next question. Once it is finished it gives the change-set.
#[derive(Debug)]
pub struct MoveDiffer<'a> {
    base: &'a SnapshotCatalog,
    target: SnapshotCatalog,
    policy: MatchPolicy,
    deletes: Vec<RelativePath>,
    adds: Vec<RelativePath>,
    copies: Vec<CopyOp>,
    /// The place, in the order of the target's paths, of the file in
    /// question; every file before it is settled.
    pos: usize,
    /// The candidates for the file in question.
    bucket: Option<Bucket<'a>>,
    /// The place of the candidate in question; every candidate before it
    /// was turned down.
    cand: usize,
}

impl<'a> MoveDiffer<'a> {
    /// The base snapshot.
    pub closed spec fn base(&self) -> Map<Seq<u8>, FileKey> {
        self.base@
    }

    /// The target snapshot.
    pub closed spec fn target(&self) -> Map<Seq<u8>, FileKey> {
        self.target@
    }

    /// The policy that the differ follows.
    pub closed spec fn policy(&self) -> MatchPolicy {
        self.policy
    }

    /// Every target file is settled: there is no question left.
    pub closed spec fn finished(&self) -> bool {
        self.bucket is None
    }

    /// The question: a base path and a target path.
    pub closed spec fn question(&self) -> (Seq<u8>, Seq<u8>) {
        (self.bucket.unwrap()@[self.cand as int], self.target.listing()[self.pos as int].1)
    }

    /// The number of target files that are not settled.
    pub closed spec fn unsettled(&self) -> nat {
        (self.target.listing().len() - self.pos) as nat
    }

    /// The number of candidates for the file in question that have no
    /// verdict yet.
    pub closed spec fn untried(&self) -> nat {
        match self.bucket {
            Some(bucket) => (bucket@.len() - self.cand) as nat,
            None => 0,
        }
    }

    /// What holds of the differ at every moment, also while it looks for
    /// its next question.
    closed spec fn steady(&self) -> bool {
        let list = self.target.listing();
        let deletes = path_models(self.deletes@);
        &&& self.base.well_formed()
        &&& self.target.well_formed()
        &&& self.pos <= list.len()
        &&& increasing(deletes)
        &&& forall|p: Seq<u8>| #[trigger]
            deletes.contains(p) <==> self.base@.dom().contains(p) && !unchanged(
                self.target@,
                p,
                self.base@[p],
            )
        &&& tidy(path_models(self.adds@), copy_models(self.copies@), list, self.pos as int)
        &&& self.bucket matches Some(bucket) ==> {
            &&& self.pos < list.len()
            &&& self.policy.verify_content
            &&& bucket.well_formed()
            &&& bucket.source() == self.base@
            &&& self.cand <= bucket@.len()
            &&& !unchanged(self.base@, list[self.pos as int].1, list[self.pos as int].0)
            &&& lists(
                bucket@,
                candidate_set(
                    self.base@,
                    list[self.pos as int].1,
                    list[self.pos as int].0,
                    self.policy.by_name,
                ),
            )
        }
    }

    /// The differ is in order: it is finished, or it has a question about
    /// two files of one size.
    pub closed spec fn well_formed(&self) -> bool {
        let list = self.target.listing();
        &&& self.steady()
        &&& match self.bucket {
            None => self.pos == list.len(),
            Some(bucket) => {
                &&& self.cand < bucket@.len()
                &&& self.base@[bucket@[self.cand as int]].size == list[self.pos as int].0.size
            },
        }
    }

    /// The adds and copies so far are right for the files that are
    /// settled, given what `same` tells of the files' bytes.
    closed spec fn settled_for(&self, same: spec_fn(Seq<u8>, Seq<u8>) -> bool) -> bool {
        settled(
            self.base@,
            self.target.listing(),
            self.policy,
            same,
            path_models(self.adds@),
            copy_models(self.copies@),
            self.pos as int,
        )
    }

    /// Every verdict that the differ was given so far is what `same`
    /// tells.
    pub closed spec fn agrees(&self, same: spec_fn(Seq<u8>, Seq<u8>) -> bool) -> bool {
        &&& self.settled_for(same)
        &&& self.bucket matches Some(bucket) ==> forall|c: int|
            0 <= c < self.cand ==> !accepts(
                self.base@,
                self.policy,
                same,
                #[trigger] bucket@[c],
                self.target.listing()[self.pos as int].1,
                self.target.listing()[self.pos as int].0,
            )
    }

    /// Starts the comparison of `target` with `base`: makes the delete
    /// pass, and settles the target files up to the first that needs a
    /// verdict. Where the policy asks for none, every file is settled.
    pub fn new(base: &'a SnapshotCatalog, target: SnapshotCatalog, policy: MatchPolicy) -> (differ:
        MoveDiffer<'a>)
        requires
            base.well_formed(),
            target.well_formed(),
        ensures
            differ.well_formed(),
            differ.base() == base@,
            differ.target() == target@,
            differ.policy() == policy,
            !policy.verify_content ==> differ.finished(),
            forall|same: spec_fn(Seq<u8>, Seq<u8>) -> bool| #[trigger] differ.agrees(same),
    {
        let deletes = deleted_paths(base, &target);
        let mut differ = MoveDiffer {
            base,
            target,
            policy,
            deletes,
            adds: Vec::new(),
            copies: Vec::new(),
            pos: 0,
            bucket: None,
            cand: 0,
        };
        proof {
            let list = differ.target.listing();
            assert forall|same: spec_fn(Seq<u8>, Seq<u8>) -> bool| differ.agrees(same) by {
                assert forall|p: Seq<u8>| !seen(list, 0, p) by {}
            }
        }
        let ghost start = differ;
        differ.settle();
        proof {
            assert forall|same: spec_fn(Seq<u8>, Seq<u8>) -> bool| #[trigger]
                differ.agrees(same) by {
                assert(start.agrees(same));
            }
        }
        differ
    }

    /// Whether every target file is settled.
    pub fn is_finished(&self) -> (done: bool)
        ensures
            done == self.finished(),
    {
        self.bucket.is_none()
    }

    /// The question, while there is one: the base path and the target path
    /// of the two files to compare.
    pub fn pending(&self) -> (q: Option<(&RelativePath, &RelativePath)>)
        requires
            self.well_formed(),
        ensures
            q is None <==> self.finished(),
            q matches Some((candidate, path)) ==> {
                &&& (candidate@, path@) == self.question()
                &&& self.policy().verify_content
                &&& self.target().dom().contains(path@)
                &&& !unchanged(self.base(), path@, self.target()[path@])
                &&& candidate_set(
                    self.base(),
                    path@,
                    self.target()[path@],
                    self.policy().by_name,
                ).contains(candidate@)
                &&& self.base()[candidate@].size == self.target()[path@].size
            },
    {
        proof {
            if self.bucket is Some {
                let list = self.target.listing();
                self.target.lemma_listing();
                lemma_snapshot_entry(list, self.pos as int);
                let bucket = self.bucket.unwrap();
                assert(bucket@.contains(bucket@[self.cand as int]));
            }
        }
        match self.bucket {
            Some(bucket) => Some((bucket.path(self.cand), &self.target.entry(self.pos).path)),
            None => None,
        }
    }

    /// Takes the verdict on the question: whether the two files hold the
    /// same bytes. With `true` the target file is settled as a copy of the
    /// candidate. With `false` the candidate is turned down; the next
    /// candidate of the same size is then in question, and where there is
    /// none the target file is settled as an add. The differ goes on to
    /// its next question.
    pub fn answer(&mut self, same_bytes: bool)
        requires
            old(self).well_formed(),
            !old(self).finished(),
        ensures
            final(self).well_formed(),
            final(self).base() == old(self).base(),
            final(self).target() == old(self).target(),
            final(self).policy() == old(self).policy(),
            final(self).unsettled() < old(self).unsettled() || (final(self).unsettled() == old(self).unsettled() && final(self).untried() < old(self).untried()),
            forall|same: spec_fn(Seq<u8>, Seq<u8>) -> bool|
                old(self).agrees(same) && same(old(self).question().0, old(self).question().1)
                    == same_bytes ==> #[trigger] final(self).agrees(same),
    {
        let ghost before = *self;
        let ghost list = self.target.listing();
        let ghost pos = self.pos as int;
        let ghost adds = path_models(self.adds@);
        let ghost copies = copy_models(self.copies@);
        let ghost base = self.base@;
        let ghost policy = self.policy;
        let ghost e = list[pos];
        proof {
            self.target.lemma_listing();
        }
        let bucket = self.bucket.unwrap();
        if same_bytes {
            let src = bucket.path(self.cand).clone();
            let dst = self.target.entry(self.pos).path.clone();
            self.copies.push(CopyOp { src, dst });
            self.pos += 1;
            self.bucket = None;
            self.cand = 0;
            proof {
                let s = bucket@[before.cand as int];
                assert(copy_models(self.copies@) =~= copies.push((s, e.1)));
                lemma_tidy_copy(adds, copies, list, pos, s);
                assert forall|same: spec_fn(Seq<u8>, Seq<u8>) -> bool|
                    before.agrees(same) && same(before.question().0, before.question().1)
                        == same_bytes implies #[trigger] self.agrees(same) by {
                    lemma_first_is_source(
                        base,
                        policy,
                        same,
                        bucket@,
                        before.cand as int,
                        e.1,
                        e.0,
                    );
                    lemma_copy_settles(base, list, policy, same, adds, copies, pos, s);
                }
            }
        } else {
            proof {
                bucket.lemma_countable();
            }
            self.cand += 1;
            proof {
                assert forall|same: spec_fn(Seq<u8>, Seq<u8>) -> bool|
                    before.agrees(same) && same(before.question().0, before.question().1)
                        == same_bytes implies #[trigger] self.agrees(same) by {
                    assert(before.settled_for(same));
                }
            }
        }
        let ghost middle = *self;
        self.settle();
        proof {
            assert forall|same: spec_fn(Seq<u8>, Seq<u8>) -> bool|
                before.agrees(same) && same(before.question().0, before.question().1)
                    == same_bytes implies #[trigger] self.agrees(same) by {
                assert(middle.agrees(same));
            }
        }
    }

    /// Gives the change-set, once every target file is settled.
    pub fn finish(self) -> (changes: ChangeSet)
        requires
            self.well_formed(),
            self.finished(),
        ensures
            changes@.well_formed(),
            forall|same: spec_fn(Seq<u8>, Seq<u8>) -> bool|
                self.agrees(same) ==> #[trigger] describes(
                    changes@,
                    self.base(),
                    self.target(),
                    self.policy(),
                    same,
                ),
    {
        proof {
            let list = self.target.listing();
            self.target.lemma_listing();
            assert forall|p: Seq<u8>|
                seen(list, list.len() as int, p) <==> self.target@.dom().contains(p) by {
                lemma_seen_all(list, p);
            }
        }
        ChangeSet { copies: self.copies, adds: self.adds, deletes: self.deletes }
    }

    /// Goes on to the next question: settles every file that needs no
    /// verdict, and turns down every candidate that is not of the size of
    /// its target file.
    fn settle(&mut self)
        requires
            old(self).steady(),
        ensures
            final(self).well_formed(),
            final(self).base == old(self).base,
            final(self).target == old(self).target,
            final(self).policy == old(self).policy,
            final(self).deletes == old(self).deletes,
            final(self).unsettled() < old(self).unsettled() || (final(self).unsettled() == old(self).unsettled() && (old(self).bucket is Some ==> final(self).untried() <= old(self).untried())),
            !old(self).policy.verify_content && old(self).bucket is None ==> final(self).finished(),
            forall|same: spec_fn(Seq<u8>, Seq<u8>) -> bool|
                old(self).agrees(same) ==> #[trigger] final(self).agrees(same),
    {
        let ghost list = self.target.listing();
        proof {
            self.target.lemma_listing();
        }
        let n = self.target.len();
        loop
            invariant
                self.steady(),
                self.base == old(self).base,
                self.target == old(self).target,
                self.policy == old(self).policy,
                self.deletes == old(self).deletes,
                self.pos >= old(self).pos,
                self.pos == old(self).pos && old(self).bucket is Some ==> self.bucket == old(self).bucket && self.cand >= old(self).cand,
                !old(self).policy.verify_content && old(self).bucket is None ==> self.bucket
                    is None,
                list == self.target.listing(),
                n == list.len(),
                distinct_paths(list),
                increasing(crate::catalog::paths_of(list)),
                snapshot_of(list) == self.target@,
                forall|same: spec_fn(Seq<u8>, Seq<u8>) -> bool|
                    old(self).agrees(same) ==> #[trigger] self.agrees(same),
            decreases
                    n - self.pos,
                    (if self.bucket is None {
                        1int
                    } else {
                        0int
                    }),
                    (match self.bucket {
                        Some(bucket) => bucket@.len() - self.cand,
                        None => 0,
                    }),
        {
            let ghost before = *self;
            let ghost pos = self.pos as int;
            let ghost adds = path_models(self.adds@);
            let ghost copies = copy_models(self.copies@);
            let ghost base = self.base@;
            let ghost policy = self.policy;
            let ghost e = list[pos];
            match self.bucket {
                None => {
                    if self.pos >= n {
                        return ;
                    }
                    let entry = self.target.entry(self.pos);
                    proof {
                        lemma_snapshot_entry(list, pos);
                    }
                    if self.base.contains(&entry.path, &entry.key) {
                        self.pos += 1;
                        proof {
                            lemma_tidy_skip(adds, copies, list, pos);
                            assert forall|same: spec_fn(Seq<u8>, Seq<u8>) -> bool|
                                old(self).agrees(same) implies #[trigger] self.agrees(same) by {
                                assert(before.agrees(same));
                                lemma_skip_settles(base, list, policy, same, adds, copies, pos);
                            }
                        }
                    } else {
                        match self.base.candidates(&entry.path, &entry.key, self.policy.by_name) {
                            None => {
                                let path = entry.path.clone();
                                self.adds.push(path);
                                self.pos += 1;
                                proof {
                                    assert(path_models(self.adds@) =~= adds.push(e.1));
                                    lemma_tidy_add(adds, copies, list, pos);
                                    assert forall|same: spec_fn(Seq<u8>, Seq<u8>) -> bool|
                                        old(self).agrees(same) implies #[trigger] self.agrees(
                                        same,
                                    ) by {
                                        assert(before.agrees(same));
                                        lemma_add_settles(
                                            base,
                                            list,
                                            policy,
                                            same,
                                            adds,
                                            copies,
                                            pos,
                                        );
                                    }
                                }
                            },
                            Some(bucket) => {
                                if self.policy.verify_content {
                                    self.bucket = Some(bucket);
                                    self.cand = 0;
                                    proof {
                                        assert forall|same: spec_fn(Seq<u8>, Seq<u8>) -> bool|
                                            old(self).agrees(same) implies #[trigger] self.agrees(
                                            same,
                                        ) by {
                                            assert(before.agrees(same));
                                        }
                                    }
                                } else {
                                    let src = bucket.path(0).clone();
                                    let dst = entry.path.clone();
                                    self.copies.push(CopyOp { src, dst });
                                    self.pos += 1;
                                    proof {
                                        let s = bucket@[0];
                                        assert(copy_models(self.copies@) =~= copies.push(
                                            (s, e.1),
                                        ));
                                        lemma_tidy_copy(adds, copies, list, pos, s);
                                        assert forall|same: spec_fn(Seq<u8>, Seq<u8>) -> bool|
                                            old(self).agrees(same) implies #[trigger] self.agrees(
                                            same,
                                        ) by {
                                            assert(before.agrees(same));
                                            lemma_first_is_source(
                                                base,
                                                policy,
                                                same,
                                                bucket@,
                                                0,
                                                e.1,
                                                e.0,
                                            );
                                            lemma_copy_settles(
                                                base,
                                                list,
                                                policy,
                                                same,
                                                adds,
                                                copies,
                                                pos,
                                                s,
                                            );
                                        }
                                    }
                                }
                            },
                        }
                    }
                },
                Some(bucket) => {
                    let size = bucket.len();
                    let entry = self.target.entry(self.pos);
                    if self.cand >= size {
                        let path = entry.path.clone();
                        self.adds.push(path);
                        self.pos += 1;
                        self.bucket = None;
                        self.cand = 0;
                        proof {
                            assert(path_models(self.adds@) =~= adds.push(e.1));
                            lemma_tidy_add(adds, copies, list, pos);
                            assert forall|same: spec_fn(Seq<u8>, Seq<u8>) -> bool|
                                old(self).agrees(same) implies #[trigger] self.agrees(same) by {
                                assert(before.agrees(same));
                                lemma_none_is_source(base, policy, same, bucket@, e.1, e.0);
                                lemma_add_settles(base, list, policy, same, adds, copies, pos);
                            }
                        }
                    } else if bucket.entry(self.cand).key.size == entry.key.size {
                        return ;
                    } else {
                        self.cand += 1;
                        proof {
                            assert forall|same: spec_fn(Seq<u8>, Seq<u8>) -> bool|
                                old(self).agrees(same) implies #[trigger] self.agrees(same) by {
                                assert(before.agrees(same));
                            }
                        }
                    }
                },
            }
        }
    }
}

/// The change-set from `base` to `target` by metadata alone: every target
/// file that the base does not have is a copy of its first candidate, and
/// an add where it has none. The name is tried only where `by_name` says
/// so.
pub fn diff(base: &SnapshotCatalog, target: SnapshotCatalog, by_name: bool) -> (changes: ChangeSet)
    requires
        base.well_formed(),
        target.well_formed(),
    ensures
        forall|same: spec_fn(Seq<u8>, Seq<u8>) -> bool| #[trigger]
            describes(
                changes@,
                base@,
                target@,
                MatchPolicy { by_name, verify_content: false },
                same,
            ),
{
    let differ = MoveDiffer::new(base, target, MatchPolicy { by_name, verify_content: false });
    differ.finish()
}

} // verus!

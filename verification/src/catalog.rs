//! The catalog of one snapshot and its lookups.
//!
//! A catalog answers three questions about a snapshot, in falling order
//! of confidence: which files have this size and modification time, which
//! have this size, and which have this name. Every answer is a bucket of
//! paths in increasing order.

use vstd::prelude::*;
use crate::entry::{distinct_paths, holds_path, lemma_snapshot_entry, models, snapshot_of, Entry};
use crate::index::{
    bisect, indexes, lemma_rank_asymmetric, lemma_slot_asymmetric, rank_lt, rank_of, slot_lt,
    sort_range, Facet, Probe, Rank,
};
use crate::key::FileKey;
use crate::path::{
    basename, increasing, lemma_lex_asymmetric, lemma_lex_irreflexive, lex_lt, RelativePath,
};

verus! {

/// A way of looking for the files of a snapshot that may be a given file.
#[derive(Clone, Copy, PartialEq, Eq, Structural, Debug)]
pub enum Strategy {
    /// The files with the same size and modification time.
    Exact,
    /// The files with the same size.
    Size,
    /// The files with the same last path component.
    Name,
}

/// The paths of the snapshot `m` whose file has the key `key`.
pub open spec fn exact_matches(m: Map<Seq<u8>, FileKey>, key: FileKey) -> Set<Seq<u8>> {
    Set::new(|p: Seq<u8>| m.dom().contains(p) && m[p] == key)
}

/// The paths of the snapshot `m` whose file has the size `size`.
pub open spec fn size_matches(m: Map<Seq<u8>, FileKey>, size: u64) -> Set<Seq<u8>> {
    Set::new(|p: Seq<u8>| m.dom().contains(p) && m[p].size == size)
}

/// The paths of the snapshot `m` whose last component is `name`.
pub open spec fn name_matches(m: Map<Seq<u8>, FileKey>, name: Seq<u8>) -> Set<Seq<u8>> {
    Set::new(|p: Seq<u8>| m.dom().contains(p) && basename(p) == name)
}

/// The paths of the snapshot `m` that `strategy` finds for a file at
/// `path` with the key `key`.
pub open spec fn hits(
    m: Map<Seq<u8>, FileKey>,
    strategy: Strategy,
    path: Seq<u8>,
    key: FileKey,
) -> Set<Seq<u8>> {
    match strategy {
        Strategy::Exact => exact_matches(m, key),
        Strategy::Size => size_matches(m, key.size),
        Strategy::Name => name_matches(m, basename(path)),
    }
}

/// `strategy` finds at least one path.
pub open spec fn has_hit(
    m: Map<Seq<u8>, FileKey>,
    strategy: Strategy,
    path: Seq<u8>,
    key: FileKey,
) -> bool {
    exists|p: Seq<u8>| hits(m, strategy, path, key).contains(p)
}

/// The first strategy of the chain exact, size, name that finds a path;
/// the name is tried only where `by_name` says so.
pub open spec fn chosen_strategy(
    m: Map<Seq<u8>, FileKey>,
    path: Seq<u8>,
    key: FileKey,
    by_name: bool,
) -> Option<Strategy> {
    if has_hit(m, Strategy::Exact, path, key) {
        Some(Strategy::Exact)
    } else if has_hit(m, Strategy::Size, path, key) {
        Some(Strategy::Size)
    } else if by_name && has_hit(m, Strategy::Name, path, key) {
        Some(Strategy::Name)
    } else {
        None
    }
}

/// `list` holds the paths of `set`, each once, in increasing order.
pub open spec fn lists(list: Seq<Seq<u8>>, set: Set<Seq<u8>>) -> bool {
    &&& increasing(list)
    &&& forall|p: Seq<u8>| list.contains(p) <==> set.contains(p)
}

/// The facet by which the index of a strategy is ordered.
pub open spec fn facet_of(strategy: Strategy) -> Facet {
    match strategy {
        Strategy::Exact => Facet::Key,
        Strategy::Size => Facet::Size,
        Strategy::Name => Facet::Name,
    }
}

/// The paths of the entries to which `facet` gives the rank `rank`.
pub open spec fn ranked(es: Seq<(FileKey, Seq<u8>)>, facet: Facet, rank: Rank) -> Set<Seq<u8>> {
    Set::new(
        |p: Seq<u8>|
            exists|i: int|
                0 <= i < es.len() && (#[trigger] es[i]).1 == p && rank_of(facet, es[i]) == rank,
    )
}

/// The paths at the places `start..end` of an index.
pub open spec fn run(es: Seq<(FileKey, Seq<u8>)>, slots: Seq<usize>, start: int, end: int) -> Seq<
    Seq<u8>,
> {
    Seq::new((end - start) as nat, |k: int| es[slots[start + k] as int].1)
}

/// The places of an index whose entries have one rank hold, in increasing
/// order, the paths of all entries of that rank.
pub proof fn lemma_run_lists_ranked(
    es: Seq<(FileKey, Seq<u8>)>,
    facet: Facet,
    slots: Seq<usize>,
    rank: Rank,
    start: int,
    end: int,
)
    requires
        distinct_paths(es),
        es.len() <= usize::MAX,
        indexes(es, facet, slots, 0, es.len() as int),
        0 <= start <= end <= slots.len(),
        forall|k: int|
            0 <= k < slots.len() ==> (start <= k < end <==> rank_of(
                facet,
                es[#[trigger] slots[k] as int],
            ) == rank),
    ensures
        lists(run(es, slots, start, end), ranked(es, facet, rank)),
{
    let list = run(es, slots, start, end);
    assert forall|a: int, b: int| 0 <= a < b < list.len() implies lex_lt(
        #[trigger] list[a],
        #[trigger] list[b],
    ) by {
        let i = slots[start + a] as int;
        let j = slots[start + b] as int;
        assert(slot_lt(es, facet, i, j));
        lemma_slot_asymmetric(es, facet, i, j);
        if rank_lt(rank_of(facet, es[i]), rank_of(facet, es[j])) {
            lemma_rank_asymmetric(rank_of(facet, es[i]), rank_of(facet, es[j]));
        }
        if i < j {
            assert(es[i].1 != es[j].1);
        } else {
            assert(es[j].1 != es[i].1);
        }
    }
    assert forall|p: Seq<u8>| list.contains(p) <==> ranked(es, facet, rank).contains(p) by {
        if list.contains(p) {
            let k = choose|k: int| 0 <= k < list.len() && list[k] == p;
            let i = slots[start + k] as int;
            assert(es[i].1 == p && rank_of(facet, es[i]) == rank);
        }
        if ranked(es, facet, rank).contains(p) {
            let i = choose|i: int|
                0 <= i < es.len() && (#[trigger] es[i]).1 == p && rank_of(facet, es[i]) == rank;
            assert(slots.contains(i as usize));
            let k = choose|k: int| 0 <= k < slots.len() && slots[k] == i as usize;
            assert(start <= k < end);
            assert(list[k - start] == p);
        }
    }
}

/// The entries that a strategy's facet ranks like the file looked for are
/// the matches of the strategy.
pub proof fn lemma_ranked_is_hits(
    es: Seq<(FileKey, Seq<u8>)>,
    strategy: Strategy,
    path: Seq<u8>,
    key: FileKey,
)
    requires
        distinct_paths(es),
    ensures
        ranked(es, facet_of(strategy), rank_of(facet_of(strategy), (key, path))) == hits(
            snapshot_of(es),
            strategy,
            path,
            key,
        ),
{
    let facet = facet_of(strategy);
    let rank = rank_of(facet, (key, path));
    let m = snapshot_of(es);
    assert forall|p: Seq<u8>| ranked(es, facet, rank).contains(p) <==> hits(
        m,
        strategy,
        path,
        key,
    ).contains(p) by {
        if ranked(es, facet, rank).contains(p) {
            let i = choose|i: int|
                0 <= i < es.len() && (#[trigger] es[i]).1 == p && rank_of(facet, es[i]) == rank;
            lemma_snapshot_entry(es, i);
        }
        if hits(m, strategy, path, key).contains(p) {
            let i = choose|i: int| 0 <= i < es.len() && (#[trigger] es[i]).1 == p;
            lemma_snapshot_entry(es, i);
            assert(rank_of(facet, es[i]) == rank);
        }
    }
    assert(ranked(es, facet, rank) =~= hits(m, strategy, path, key));
}

/// The paths of a list of entries, in the order of the list.
pub open spec fn paths_of(es: Seq<(FileKey, Seq<u8>)>) -> Seq<Seq<u8>> {
    Seq::new(es.len(), |i: int| es[i].1)
}

/// Where no two neighbours in the index by path share a path, no two
/// entries do.
proof fn lemma_neighbours_distinct(es: Seq<(FileKey, Seq<u8>)>, slots: Seq<usize>)
    requires
        es.len() <= usize::MAX,
        indexes(es, Facet::Path, slots, 0, es.len() as int),
        forall|q: int|
            1 <= q < slots.len() ==> es[slots[q - 1] as int].1 != es[#[trigger] slots[q] as int].1,
    ensures
        distinct_paths(es),
{
    assert forall|i: int, j: int| 0 <= i < j < es.len() implies (#[trigger] es[i]).1 != (
    #[trigger] es[j]).1 by {
        assert(slots.contains(i as usize));
        assert(slots.contains(j as usize));
        let a = choose|a: int| 0 <= a < slots.len() && slots[a] == i as usize;
        let b = choose|b: int| 0 <= b < slots.len() && slots[b] == j as usize;
        let (lo, hi) = if a < b {
            (a, b)
        } else {
            (b, a)
        };
        let first = es[slots[lo] as int].1;
        let next = es[slots[lo + 1] as int].1;
        let last = es[slots[hi] as int].1;
        assert(slot_lt(es, Facet::Path, slots[lo] as int, slots[hi] as int));
        assert(slot_lt(es, Facet::Path, slots[lo] as int, slots[lo + 1] as int));
        assert(first != next);
        assert(lex_lt(first, next));
        lemma_lex_irreflexive(first);
        if lo + 1 < hi {
            assert(slot_lt(es, Facet::Path, slots[lo + 1] as int, slots[hi] as int));
            if first == last {
                if lex_lt(next, last) {
                    lemma_lex_asymmetric(first, next);
                }
            }
        }
    }
}

/// A path that a list of entries holds more than once.
#[derive(Debug)]
pub struct DuplicatePath {
    pub path: RelativePath,
}

/// The files of one snapshot, indexed by key, by size and by name.
///
/// The catalog stands for a finite map from path to key, its view.
#[derive(Debug)]
pub struct SnapshotCatalog {
    entries: Vec<Entry>,
    by_path: Vec<usize>,
    by_key: Vec<usize>,
    by_size: Vec<usize>,
    by_name: Vec<usize>,
}

impl View for SnapshotCatalog {
    type V = Map<Seq<u8>, FileKey>;

    closed spec fn view(&self) -> Map<Seq<u8>, FileKey> {
        snapshot_of(models(self.entries@))
    }
}

impl SnapshotCatalog {
    /// The index that is ordered by `facet`.
    pub closed spec fn slots_of(&self, facet: Facet) -> Seq<usize> {
        match facet {
            Facet::Path => self.by_path@,
            Facet::Key => self.by_key@,
            Facet::Size => self.by_size@,
            Facet::Name => self.by_name@,
        }
    }

    /// No path occurs twice, and each index holds every entry, in its
    /// order.
    pub closed spec fn well_formed(&self) -> bool {
        let es = models(self.entries@);
        &&& distinct_paths(es)
        &&& indexes(es, Facet::Path, self.by_path@, 0, es.len() as int)
        &&& indexes(es, Facet::Key, self.by_key@, 0, es.len() as int)
        &&& indexes(es, Facet::Size, self.by_size@, 0, es.len() as int)
        &&& indexes(es, Facet::Name, self.by_name@, 0, es.len() as int)
    }

    /// The entries of the catalog in the order of their paths.
    pub closed spec fn listing(&self) -> Seq<(FileKey, Seq<u8>)> {
        Seq::new(self.entries@.len(), |k: int| models(self.entries@)[self.by_path@[k] as int])
    }

    /// The listing holds each file of the snapshot once, in the order of
    /// the paths.
    pub proof fn lemma_listing(&self)
        requires
            self.well_formed(),
        ensures
            self.listing().len() <= usize::MAX,
            increasing(paths_of(self.listing())),
            distinct_paths(self.listing()),
            snapshot_of(self.listing()) == self@,
            self@.dom().finite(),
            self@.dom().len() == self.listing().len(),
    {
        let es = models(self.entries@);
        let list = self.listing();
        let slots = self.by_path@;
        assert(es.len() == self.entries.len() <= usize::MAX);
        assert forall|a: int, b: int| 0 <= a < b < list.len() implies lex_lt(
            #[trigger] paths_of(list)[a],
            #[trigger] paths_of(list)[b],
        ) by {
            let i = slots[a] as int;
            let j = slots[b] as int;
            assert(slot_lt(es, Facet::Path, i, j));
            lemma_slot_asymmetric(es, Facet::Path, i, j);
            if i < j {
                assert(es[i].1 != es[j].1);
            } else {
                assert(es[j].1 != es[i].1);
            }
        }
        assert forall|a: int, b: int| 0 <= a < b < list.len() implies (#[trigger] list[a]).1 != (
        #[trigger] list[b]).1 by {
            assert(lex_lt(paths_of(list)[a], paths_of(list)[b]));
            lemma_lex_irreflexive(list[a].1);
        }
        assert forall|p: Seq<u8>| holds_path(list, p) <==> holds_path(es, p) by {
            if holds_path(list, p) {
                let k = choose|k: int| 0 <= k < list.len() && (#[trigger] list[k]).1 == p;
                assert(es[slots[k] as int].1 == p);
            }
            if holds_path(es, p) {
                let i = choose|i: int| 0 <= i < es.len() && (#[trigger] es[i]).1 == p;
                assert(slots.contains(i as usize));
                let k = choose|k: int| 0 <= k < slots.len() && slots[k] == i as usize;
                assert(list[k].1 == p);
            }
        }
        assert forall|p: Seq<u8>| holds_path(es, p) implies snapshot_of(list)[p] == snapshot_of(
            es,
        )[p] by {
            let k = choose|k: int| 0 <= k < list.len() && (#[trigger] list[k]).1 == p;
            lemma_snapshot_entry(list, k);
            lemma_snapshot_entry(es, slots[k] as int);
        }
        assert(snapshot_of(list) =~= snapshot_of(es));
        let paths = paths_of(list);
        assert forall|a: int, b: int| 0 <= a < paths.len() && 0 <= b < paths.len() && a
            != b implies paths[a] != paths[b] by {
            if a < b {
                assert(list[a].1 != list[b].1);
            } else {
                assert(list[b].1 != list[a].1);
            }
        }
        paths.unique_seq_to_set();
        vstd::seq_lib::seq_to_set_is_finite(paths);
        assert forall|p: Seq<u8>| paths.to_set().contains(p) <==> holds_path(list, p) by {
            if paths.contains(p) {
                let k = choose|k: int| 0 <= k < paths.len() && paths[k] == p;
                assert(list[k].1 == p);
            }
            if holds_path(list, p) {
                let k = choose|k: int| 0 <= k < list.len() && (#[trigger] list[k]).1 == p;
                assert(paths[k] == p);
            }
        }
        assert(self@.dom() =~= paths.to_set());
    }

    /// Builds the catalog of the snapshot that `entries` describes. A
    /// snapshot has one file at a path: entries that repeat a path are
    /// refused, with such a path.
    pub fn from_entries(entries: Vec<Entry>) -> (r: Result<SnapshotCatalog, DuplicatePath>)
        ensures
            match r {
                Ok(catalog) => {
                    &&& distinct_paths(models(entries@))
                    &&& catalog.well_formed()
                    &&& catalog@ == snapshot_of(models(entries@))
                },
                Err(dup) => exists|i: int, j: int|
                    0 <= i < j < entries.len() && #[trigger] entries[i].path@ == dup.path@
                        && #[trigger] entries[j].path@ == dup.path@,
            },
    {
        let ghost es = models(entries@);
        let n = entries.len();
        let by_path = sort_range(&entries, Facet::Path, 0, n);
        let mut k: usize = 1;
        while k < n
            invariant
                es == models(entries@),
                n == entries.len(),
                indexes(es, Facet::Path, by_path@, 0, n as int),
                1 <= k,
                forall|q: int|
                    1 <= q < k && q < n ==> es[by_path@[q - 1] as int].1 != es[
                        #[trigger] by_path@[q] as int].1,
            decreases n - k,
        {
            let a = by_path[k - 1];
            let b = by_path[k];
            if entries[a].path.same_as(&entries[b].path) {
                let path = entries[b].path.clone();
                proof {
                    assert(slot_lt(es, Facet::Path, a as int, b as int));
                    lemma_slot_asymmetric(es, Facet::Path, a as int, b as int);
                    if a < b {
                        assert(entries[a as int].path@ == path@ && entries[b as int].path@
                            == path@);
                    } else {
                        assert(entries[b as int].path@ == path@ && entries[a as int].path@
                            == path@);
                    }
                }
                return Err(DuplicatePath { path });
            }
            k += 1;
        }
        proof {
            lemma_neighbours_distinct(es, by_path@);
        }
        let by_key = sort_range(&entries, Facet::Key, 0, n);
        let by_size = sort_range(&entries, Facet::Size, 0, n);
        let by_name = sort_range(&entries, Facet::Name, 0, n);
        Ok(SnapshotCatalog { entries, by_path, by_key, by_size, by_name })
    }

    /// The number of files in the snapshot.
    pub fn len(&self) -> (n: usize)
        requires
            self.well_formed(),
        ensures
            n == self.listing().len(),
            n == self@.dom().len(),
    {
        proof {
            self.lemma_listing();
        }
        self.entries.len()
    }

    /// The entry at place `i` in the order of the paths.
    pub fn entry(&self, i: usize) -> (entry: &Entry)
        requires
            self.well_formed(),
            i < self.listing().len(),
        ensures
            entry@ == self.listing()[i as int],
    {
        &self.entries[self.by_path[i]]
    }

    /// The key of the file at `path`, where the snapshot has one.
    pub fn key_of(&self, path: &RelativePath) -> (key: Option<FileKey>)
        requires
            self.well_formed(),
        ensures
            key == if self@.dom().contains(path@) {
                Some(self@[path@])
            } else {
                None
            },
    {
        let ghost es = models(self.entries@);
        let probe = Probe { size: 0, secs: 0, nanos: 0, name: path.as_bytes() };
        let (lo, hi) = self.range_of(Facet::Path, &probe);
        if lo < hi {
            let slot = self.by_path[lo];
            proof {
                assert(rank_of(Facet::Path, es[self.slots_of(Facet::Path)[lo as int] as int])
                    == probe.rank());
                lemma_snapshot_entry(es, slot as int);
            }
            Some(self.entries[slot].key)
        } else {
            proof {
                if holds_path(es, path@) {
                    let i = choose|i: int| 0 <= i < es.len() && (#[trigger] es[i]).1 == path@;
                    assert(self.by_path@.contains(i as usize));
                    let k = choose|k: int|
                        0 <= k < self.by_path@.len() && self.by_path@[k] == i as usize;
                    assert(rank_of(Facet::Path, es[self.slots_of(Facet::Path)[k] as int])
                        == probe.rank());
                }
            }
            None
        }
    }

    /// Whether the snapshot has a file at `path` with the key `key`: whether
    /// the bucket of `key` holds `path`.
    pub fn contains(&self, path: &RelativePath, key: &FileKey) -> (found: bool)
        requires
            self.well_formed(),
        ensures
            found == exact_matches(self@, *key).contains(path@),
    {
        match self.key_of(path) {
            Some(k) => k == *key,
            None => false,
        }
    }

    /// The bucket of the paths that `strategy` finds for a file at `path`
    /// with the key `key`, where it finds any.
    pub fn lookup<'a>(&'a self, strategy: Strategy, path: &RelativePath, key: &FileKey) -> (r:
        Option<Bucket<'a>>)
        requires
            self.well_formed(),
        ensures
            r is Some <==> has_hit(self@, strategy, path@, *key),
            r matches Some(bucket) ==> {
                &&& bucket.well_formed()
                &&& bucket.source() == self@
                &&& bucket.strategy() == strategy
                &&& lists(bucket@, hits(self@, strategy, path@, *key))
            },
    {
        let ghost es = models(self.entries@);
        let facet = match strategy {
            Strategy::Exact => Facet::Key,
            Strategy::Size => Facet::Size,
            Strategy::Name => Facet::Name,
        };
        let probe = Probe::for_file(facet, key, path);
        let (start, end) = self.range_of(facet, &probe);
        proof {
            lemma_run_lists_ranked(
                es,
                facet,
                self.slots_of(facet),
                probe.rank(),
                start as int,
                end as int,
            );
            lemma_ranked_is_hits(es, strategy, path@, *key);
            let list = run(es, self.slots_of(facet), start as int, end as int);
            if start < end {
                assert(list.contains(list[0]));
            }
            if has_hit(self@, strategy, path@, *key) {
                let p = choose|p: Seq<u8>| hits(self@, strategy, path@, *key).contains(p);
                assert(list.contains(p));
            }
        }
        if start < end {
            Some(Bucket { catalog: self, strategy, start, end })
        } else {
            None
        }
    }

    /// The candidates for a file at `path` with the key `key`: the bucket
    /// of the first strategy of the chain exact, size, name that finds any
    /// path. The name is tried only where `by_name` says so.
    pub fn candidates<'a>(&'a self, path: &RelativePath, key: &FileKey, by_name: bool) -> (r:
        Option<Bucket<'a>>)
        requires
            self.well_formed(),
        ensures
            match chosen_strategy(self@, path@, *key, by_name) {
                Some(strategy) => {
                    &&& r matches Some(bucket)
                    &&& bucket.well_formed()
                    &&& bucket.source() == self@
                    &&& bucket.strategy() == strategy
                    &&& lists(bucket@, hits(self@, strategy, path@, *key))
                },
                None => r is None,
            },
    {
        let exact = self.lookup(Strategy::Exact, path, key);
        if exact.is_some() {
            return exact;
        }
        let sized = self.lookup(Strategy::Size, path, key);
        if sized.is_some() {
            return sized;
        }
        if by_name {
            self.lookup(Strategy::Name, path, key)
        } else {
            None
        }
    }

    /// The candidates for a file at `path` with the key `key`, by the whole
    /// chain: exact, then size, then name.
    pub fn find<'a>(&'a self, path: &RelativePath, key: &FileKey) -> (r: Option<Bucket<'a>>)
        requires
            self.well_formed(),
        ensures
            match chosen_strategy(self@, path@, *key, true) {
                Some(strategy) => {
                    &&& r matches Some(bucket)
                    &&& bucket.well_formed()
                    &&& bucket.source() == self@
                    &&& bucket.strategy() == strategy
                    &&& lists(bucket@, hits(self@, strategy, path@, *key))
                },
                None => r is None,
            },
    {
        self.candidates(path, key, true)
    }

    fn slots(&self, facet: Facet) -> (slots: &Vec<usize>)
        ensures
            slots@ == self.slots_of(facet),
    {
        match facet {
            Facet::Path => &self.by_path,
            Facet::Key => &self.by_key,
            Facet::Size => &self.by_size,
            Facet::Name => &self.by_name,
        }
    }

    /// The places of the index of `facet` whose entries have the rank of
    /// the probe: they stand side by side.
    fn range_of(&self, facet: Facet, probe: &Probe) -> (r: (usize, usize))
        requires
            self.well_formed(),
        ensures
            r.0 <= r.1 <= self.entries.len(),
            forall|k: int|
                0 <= k < self.entries.len() ==> (r.0 <= k < r.1 <==> rank_of(
                    facet,
                    models(self.entries@)[#[trigger] self.slots_of(facet)[k] as int],
                ) == probe.rank()),
    {
        let slots = self.slots(facet);
        let lo = bisect(&self.entries, facet, slots, probe, false);
        let hi = bisect(&self.entries, facet, slots, probe, true);
        proof {
            let es = models(self.entries@);
            if hi < lo {
                assert(rank_lt(rank_of(facet, es[slots@[hi as int] as int]), probe.rank()));
            }
            assert forall|k: int| 0 <= k < self.entries.len() implies (lo <= k < hi <==> rank_of(
                facet,
                es[#[trigger] slots@[k] as int],
            ) == probe.rank()) by {
                let r = rank_of(facet, es[slots@[k] as int]);
                if rank_lt(r, probe.rank()) {
                    lemma_rank_asymmetric(r, probe.rank());
                }
            }
        }
        (lo, hi)
    }
}

/// The answer of one strategy: paths of a catalog, in increasing order,
/// at least one.
#[derive(Clone, Copy, Debug)]
pub struct Bucket<'a> {
    catalog: &'a SnapshotCatalog,
    strategy: Strategy,
    start: usize,
    end: usize,
}

impl<'a> View for Bucket<'a> {
    type V = Seq<Seq<u8>>;

    closed spec fn view(&self) -> Seq<Seq<u8>> {
        run(
            models(self.catalog.entries@),
            self.catalog.slots_of(facet_of(self.strategy)),
            self.start as int,
            self.end as int,
        )
    }
}

impl<'a> Bucket<'a> {
    /// The bucket is a range, not empty, of an index of its catalog.
    pub closed spec fn well_formed(&self) -> bool {
        &&& self.catalog.well_formed()
        &&& self.start < self.end <= self.catalog.entries@.len()
    }

    /// The strategy that found the bucket.
    pub closed spec fn strategy(&self) -> Strategy {
        self.strategy
    }

    /// The snapshot that the bucket was found in.
    pub closed spec fn source(&self) -> Map<Seq<u8>, FileKey> {
        self.catalog@
    }

    /// A bucket holds no more paths than can be counted.
    pub proof fn lemma_countable(&self)
        requires
            self.well_formed(),
        ensures
            0 < self@.len() <= usize::MAX,
    {
    }

    /// The strategy that found the bucket.
    pub fn found_by(&self) -> (strategy: Strategy)
        ensures
            strategy == self.strategy(),
    {
        self.strategy
    }

    /// The number of paths in the bucket.
    pub fn len(&self) -> (n: usize)
        requires
            self.well_formed(),
        ensures
            n == self@.len(),
            n > 0,
    {
        self.end - self.start
    }

    /// The entry at place `i` of the bucket: its path, and the key that
    /// the snapshot has for it.
    pub fn entry(&self, i: usize) -> (entry: &'a Entry)
        requires
            self.well_formed(),
            i < self@.len(),
        ensures
            entry.path@ == self@[i as int],
            self.source().dom().contains(self@[i as int]),
            entry.key == self.source()[self@[i as int]],
    {
        let facet = match self.strategy {
            Strategy::Exact => Facet::Key,
            Strategy::Size => Facet::Size,
            Strategy::Name => Facet::Name,
        };
        let slots = self.catalog.slots(facet);
        let slot = slots[self.start + i];
        proof {
            lemma_snapshot_entry(models(self.catalog.entries@), slot as int);
        }
        &self.catalog.entries[slot]
    }

    /// The path at place `i` of the bucket.
    pub fn path(&self, i: usize) -> (path: &'a RelativePath)
        requires
            self.well_formed(),
            i < self@.len(),
        ensures
            path@ == self@[i as int],
    {
        &self.entry(i).path
    }
}

} // verus!

//! Sorted indices over a list of entries.
//!
//! An index is a list of positions into the entries, ordered by what the
//! index is for (its facet), then by path. The entries that agree in the
//! facet stand side by side in it, in the order of their paths, so that a
//! bucket is a range of the index and is found by bisection.

use vstd::prelude::*;
use crate::entry::{models, Entry};
use crate::key::FileKey;
use crate::path::{
    basename, compare_bytes, lemma_lex_asymmetric, lemma_lex_irreflexive, lemma_lex_transitive,
    lex_lt, Ranking, RelativePath,
};

verus! {

/// What an index orders the entries by, before their paths.
#[derive(Clone, Copy, PartialEq, Eq, Structural, Debug)]
pub enum Facet {
    /// Nothing but the path.
    Path,
    /// Size and modification time.
    Key,
    /// Size alone.
    Size,
    /// The last component of the path.
    Name,
}

/// The value by which a facet orders an entry. The fields that a facet
/// does not look at are zero or empty.
pub struct Rank {
    pub size: int,
    pub secs: int,
    pub nanos: int,
    pub name: Seq<u8>,
}

/// The rank that `facet` gives to an entry.
pub open spec fn rank_of(facet: Facet, e: (FileKey, Seq<u8>)) -> Rank {
    match facet {
        Facet::Path => Rank { size: 0, secs: 0, nanos: 0, name: e.1 },
        Facet::Key => Rank {
            size: e.0.size as int,
            secs: e.0.modification_time.secs as int,
            nanos: e.0.modification_time.nanos as int,
            name: Seq::empty(),
        },
        Facet::Size => Rank { size: e.0.size as int, secs: 0, nanos: 0, name: Seq::empty() },
        Facet::Name => Rank { size: 0, secs: 0, nanos: 0, name: basename(e.1) },
    }
}

/// The order of ranks: field by field.
pub open spec fn rank_lt(a: Rank, b: Rank) -> bool {
    ||| a.size < b.size
    ||| a.size == b.size && a.secs < b.secs
    ||| a.size == b.size && a.secs == b.secs && a.nanos < b.nanos
    ||| a.size == b.size && a.secs == b.secs && a.nanos == b.nanos && lex_lt(a.name, b.name)
}

/// Of two ranks at most one comes before the other, and a rank does not
/// come before itself.
pub proof fn lemma_rank_asymmetric(a: Rank, b: Rank)
    requires
        rank_lt(a, b),
    ensures
        !rank_lt(b, a),
        a != b,
{
    if lex_lt(a.name, b.name) {
        lemma_lex_asymmetric(a.name, b.name);
        lemma_lex_irreflexive(a.name);
    }
}

/// The order of ranks is transitive.
pub proof fn lemma_rank_transitive(a: Rank, b: Rank, c: Rank)
    requires
        rank_lt(a, b),
        rank_lt(b, c),
    ensures
        rank_lt(a, c),
{
    if lex_lt(a.name, b.name) && lex_lt(b.name, c.name) {
        lemma_lex_transitive(a.name, b.name, c.name);
    }
}

/// The order of an index on positions: by rank, then by path, then by
/// position.
pub open spec fn slot_lt(es: Seq<(FileKey, Seq<u8>)>, facet: Facet, i: int, j: int) -> bool {
    let a = rank_of(facet, es[i]);
    let b = rank_of(facet, es[j]);
    ||| rank_lt(a, b)
    ||| a == b && lex_lt(es[i].1, es[j].1)
    ||| a == b && es[i].1 == es[j].1 && i < j
}

/// Of two positions at most one comes before the other, and a position
/// does not come before itself.
pub proof fn lemma_slot_asymmetric(es: Seq<(FileKey, Seq<u8>)>, facet: Facet, i: int, j: int)
    requires
        slot_lt(es, facet, i, j),
    ensures
        !slot_lt(es, facet, j, i),
        i != j,
{
    let a = rank_of(facet, es[i]);
    let b = rank_of(facet, es[j]);
    if rank_lt(a, b) {
        lemma_rank_asymmetric(a, b);
    } else if lex_lt(es[i].1, es[j].1) {
        lemma_lex_asymmetric(es[i].1, es[j].1);
        lemma_lex_irreflexive(es[i].1);
    }
    if rank_lt(b, a) {
        lemma_rank_asymmetric(b, a);
    }
}

/// The order of an index is transitive.
pub proof fn lemma_slot_transitive(
    es: Seq<(FileKey, Seq<u8>)>,
    facet: Facet,
    i: int,
    j: int,
    k: int,
)
    requires
        slot_lt(es, facet, i, j),
        slot_lt(es, facet, j, k),
    ensures
        slot_lt(es, facet, i, k),
{
    let a = rank_of(facet, es[i]);
    let b = rank_of(facet, es[j]);
    let c = rank_of(facet, es[k]);
    if rank_lt(a, b) && rank_lt(b, c) {
        lemma_rank_transitive(a, b, c);
    }
    if lex_lt(es[i].1, es[j].1) && lex_lt(es[j].1, es[k].1) {
        lemma_lex_transitive(es[i].1, es[j].1, es[k].1);
    }
}

/// A rank to look for in an index.
pub struct Probe<'a> {
    pub size: u64,
    pub secs: i64,
    pub nanos: u32,
    pub name: &'a [u8],
}

impl<'a> Probe<'a> {
    /// The rank that the probe stands for.
    pub open spec fn rank(&self) -> Rank {
        Rank {
            size: self.size as int,
            secs: self.secs as int,
            nanos: self.nanos as int,
            name: self.name@,
        }
    }

    /// The rank that `facet` gives to a file at `path` with the key `key`.
    pub fn for_file(facet: Facet, key: &FileKey, path: &'a RelativePath) -> (probe: Probe<'a>)
        ensures
            probe.rank() == rank_of(facet, (*key, path@)),
    {
        let none: &[u8] = &[];
        assert(none@ =~= Seq::<u8>::empty());
        match facet {
            Facet::Path => Probe { size: 0, secs: 0, nanos: 0, name: path.as_bytes() },
            Facet::Key => Probe {
                size: key.size,
                secs: key.modification_time.secs,
                nanos: key.modification_time.nanos,
                name: none,
            },
            Facet::Size => Probe { size: key.size, secs: 0, nanos: 0, name: none },
            Facet::Name => Probe { size: 0, secs: 0, nanos: 0, name: path.file_name() },
        }
    }

    /// The rank that `facet` gives to `entry`.
    pub fn of(facet: Facet, entry: &'a Entry) -> (probe: Probe<'a>)
        ensures
            probe.rank() == rank_of(facet, entry@),
    {
        Probe::for_file(facet, &entry.key, &entry.path)
    }

    /// How the rank of this probe stands to that of `other`.
    pub fn compare(&self, other: &Probe) -> (r: Ranking)
        ensures
            r == Ranking::Before <==> rank_lt(self.rank(), other.rank()),
            r == Ranking::Same <==> self.rank() == other.rank(),
            r == Ranking::After <==> rank_lt(other.rank(), self.rank()),
    {
        proof {
            if rank_lt(self.rank(), other.rank()) {
                lemma_rank_asymmetric(self.rank(), other.rank());
            }
            if rank_lt(other.rank(), self.rank()) {
                lemma_rank_asymmetric(other.rank(), self.rank());
            }
        }
        if self.size < other.size {
            Ranking::Before
        } else if self.size > other.size {
            Ranking::After
        } else if self.secs < other.secs {
            Ranking::Before
        } else if self.secs > other.secs {
            Ranking::After
        } else if self.nanos < other.nanos {
            Ranking::Before
        } else if self.nanos > other.nanos {
            Ranking::After
        } else {
            compare_bytes(self.name, other.name)
        }
    }
}

/// How the entries at positions `i` and `j` stand in the index of `facet`.
pub fn compare_slots(entries: &Vec<Entry>, facet: Facet, i: usize, j: usize) -> (r: Ranking)
    requires
        i < entries.len(),
        j < entries.len(),
    ensures
        r == Ranking::Before <==> slot_lt(models(entries@), facet, i as int, j as int),
        r == Ranking::Same <==> i == j,
        r == Ranking::After <==> slot_lt(models(entries@), facet, j as int, i as int),
{
    let ghost es = models(entries@);
    proof {
        if slot_lt(es, facet, i as int, j as int) {
            lemma_slot_asymmetric(es, facet, i as int, j as int);
        }
        if slot_lt(es, facet, j as int, i as int) {
            lemma_slot_asymmetric(es, facet, j as int, i as int);
        }
    }
    let a = Probe::of(facet, &entries[i]);
    let b = Probe::of(facet, &entries[j]);
    match a.compare(&b) {
        Ranking::Before => Ranking::Before,
        Ranking::After => Ranking::After,
        Ranking::Same => match entries[i].path.compare(&entries[j].path) {
            Ranking::Before => Ranking::Before,
            Ranking::After => Ranking::After,
            Ranking::Same => if i < j {
                Ranking::Before
            } else if j < i {
                Ranking::After
            } else {
                Ranking::Same
            },
        },
    }
}

/// The positions in `slots` stand in the order of the index of `facet`.
pub open spec fn ordered(es: Seq<(FileKey, Seq<u8>)>, facet: Facet, slots: Seq<usize>) -> bool {
    forall|p: int, q: int|
        #![trigger slots[p], slots[q]]
        0 <= p < q < slots.len() ==> slot_lt(es, facet, slots[p] as int, slots[q] as int)
}

/// Every position in `slots` lies in `lo..hi`.
pub open spec fn within(slots: Seq<usize>, lo: int, hi: int) -> bool {
    forall|k: int| 0 <= k < slots.len() ==> lo <= #[trigger] slots[k] < hi
}

/// Every position in `lo..hi` occurs in `slots`.
pub open spec fn covers(slots: Seq<usize>, lo: int, hi: int) -> bool {
    forall|v: usize| lo <= v < hi ==> #[trigger] slots.contains(v)
}

/// `slots` is the index of `facet` over the entries at `lo..hi`.
pub open spec fn indexes(
    es: Seq<(FileKey, Seq<u8>)>,
    facet: Facet,
    slots: Seq<usize>,
    lo: int,
    hi: int,
) -> bool {
    &&& slots.len() == hi - lo
    &&& within(slots, lo, hi)
    &&& covers(slots, lo, hi)
    &&& ordered(es, facet, slots)
}

/// Merges the indices over two neighbouring ranges of entries into the
/// index over both.
fn merge(
    entries: &Vec<Entry>,
    facet: Facet,
    left: &Vec<usize>,
    right: &Vec<usize>,
    Ghost(lo): Ghost<int>,
    Ghost(mid): Ghost<int>,
    Ghost(hi): Ghost<int>,
) -> (out: Vec<usize>)
    requires
        0 <= lo <= mid <= hi <= entries.len(),
        indexes(models(entries@), facet, left@, lo, mid),
        indexes(models(entries@), facet, right@, mid, hi),
    ensures
        indexes(models(entries@), facet, out@, lo, hi),
{
    let ghost es = models(entries@);
    let mut out: Vec<usize> = Vec::new();
    let mut i: usize = 0;
    let mut j: usize = 0;
    while i < left.len() || j < right.len()
        invariant
            0 <= lo <= mid <= hi <= entries.len(),
            es == models(entries@),
            indexes(es, facet, left@, lo, mid),
            indexes(es, facet, right@, mid, hi),
            i <= left.len(),
            j <= right.len(),
            out.len() == i + j,
            within(out@, lo, hi),
            ordered(es, facet, out@),
            forall|p: int, q: int|
                #![trigger out@[p], left@[q]]
                0 <= p < out.len() && i <= q < left.len() ==> slot_lt(
                    es,
                    facet,
                    out@[p] as int,
                    left@[q] as int,
                ),
            forall|p: int, q: int|
                #![trigger out@[p], right@[q]]
                0 <= p < out.len() && j <= q < right.len() ==> slot_lt(
                    es,
                    facet,
                    out@[p] as int,
                    right@[q] as int,
                ),
            forall|p: int| 0 <= p < i ==> out@.contains(#[trigger] left@[p]),
            forall|q: int| 0 <= q < j ==> out@.contains(#[trigger] right@[q]),
        decreases left.len() - i + right.len() - j,
    {
        let take_left = if i == left.len() {
            false
        } else if j == right.len() {
            true
        } else {
            compare_slots(entries, facet, left[i], right[j]) == Ranking::Before
        };
        let ghost before = out@;
        if take_left {
            let x = left[i];
            out.push(x);
            proof {
                assert(out@ == before.push(x));
                assert forall|p: int| 0 <= p <= i && p < left.len() implies out@.contains(
                    #[trigger] left@[p],
                ) by {
                    vstd::seq_lib::lemma_seq_contains_after_push(before, x, left@[p]);
                }
                assert forall|q: int| 0 <= q < j implies out@.contains(
                    #[trigger] right@[q],
                ) by {
                    vstd::seq_lib::lemma_seq_contains_after_push(before, x, right@[q]);
                }
                assert forall|p: int, q: int|
                    #![trigger out@[p], right@[q]]
                    0 <= p < out.len() && j <= q < right.len() implies slot_lt(
                    es,
                    facet,
                    out@[p] as int,
                    right@[q] as int,
                ) by {
                    if p == before.len() && q > j {
                        lemma_slot_transitive(
                            es,
                            facet,
                            x as int,
                            right@[j as int] as int,
                            right@[q] as int,
                        );
                    }
                }
            }
            i += 1;
        } else {
            let x = right[j];
            out.push(x);
            proof {
                assert(out@ == before.push(x));
                assert forall|p: int| 0 <= p < i implies out@.contains(
                    #[trigger] left@[p],
                ) by {
                    vstd::seq_lib::lemma_seq_contains_after_push(before, x, left@[p]);
                }
                assert forall|q: int| 0 <= q <= j && q < right.len() implies out@.contains(
                    #[trigger] right@[q],
                ) by {
                    vstd::seq_lib::lemma_seq_contains_after_push(before, x, right@[q]);
                }
                assert forall|p: int, q: int|
                    #![trigger out@[p], left@[q]]
                    0 <= p < out.len() && i <= q < left.len() implies slot_lt(
                    es,
                    facet,
                    out@[p] as int,
                    left@[q] as int,
                ) by {
                    if p == before.len() && q > i {
                        lemma_slot_transitive(
                            es,
                            facet,
                            x as int,
                            left@[i as int] as int,
                            left@[q] as int,
                        );
                    }
                }
            }
            j += 1;
        }
    }
    proof {
        assert forall|v: usize| lo <= v < hi implies #[trigger] out@.contains(v) by {
            if v < mid {
                assert(left@.contains(v));
                let p = choose|p: int| 0 <= p < left@.len() && left@[p] == v;
                assert(out@.contains(left@[p]));
            } else {
                assert(right@.contains(v));
                let q = choose|q: int| 0 <= q < right@.len() && right@[q] == v;
                assert(out@.contains(right@[q]));
            }
        }
    }
    out
}

/// Builds the index of `facet` over the entries at `lo..hi`.
pub fn sort_range(entries: &Vec<Entry>, facet: Facet, lo: usize, hi: usize) -> (slots: Vec<usize>)
    requires
        lo <= hi <= entries.len(),
    ensures
        indexes(models(entries@), facet, slots@, lo as int, hi as int),
    decreases hi - lo,
{
    if hi - lo <= 1 {
        let mut slots: Vec<usize> = Vec::new();
        if lo < hi {
            slots.push(lo);
            assert(slots@[0] == lo);
        }
        slots
    } else {
        let mid: usize = lo + (hi - lo) / 2;
        let left = sort_range(entries, facet, lo, mid);
        let right = sort_range(entries, facet, mid, hi);
        merge(entries, facet, &left, &right, Ghost(lo as int), Ghost(mid as int), Ghost(hi as int))
    }
}

/// The rank `r` stands before the probed rank; with `inclusive`, a rank
/// equal to the probed one counts as standing before it.
pub open spec fn precedes(r: Rank, probe: Rank, inclusive: bool) -> bool {
    rank_lt(r, probe) || (inclusive && r == probe)
}

/// A rank that is no higher than one standing before the probe stands
/// before it too.
pub proof fn lemma_precedes_monotone(a: Rank, b: Rank, probe: Rank, inclusive: bool)
    requires
        rank_lt(a, b) || a == b,
        precedes(b, probe, inclusive),
    ensures
        precedes(a, probe, inclusive),
{
    if rank_lt(a, b) && rank_lt(b, probe) {
        lemma_rank_transitive(a, b, probe);
    }
}

/// The number of places at the start of the index whose entries stand
/// before the probe.
pub fn bisect(
    entries: &Vec<Entry>,
    facet: Facet,
    slots: &Vec<usize>,
    probe: &Probe,
    inclusive: bool,
) -> (pos: usize)
    requires
        indexes(models(entries@), facet, slots@, 0, entries.len() as int),
    ensures
        pos <= slots.len(),
        forall|k: int|
            0 <= k < pos ==> precedes(
                rank_of(facet, models(entries@)[#[trigger] slots@[k] as int]),
                probe.rank(),
                inclusive,
            ),
        forall|k: int|
            pos <= k < slots.len() ==> !precedes(
                rank_of(facet, models(entries@)[#[trigger] slots@[k] as int]),
                probe.rank(),
                inclusive,
            ),
{
    let ghost es = models(entries@);
    let mut lo: usize = 0;
    let mut hi: usize = slots.len();
    while lo < hi
        invariant
            es == models(entries@),
            indexes(es, facet, slots@, 0, entries.len() as int),
            lo <= hi <= slots.len(),
            forall|k: int|
                0 <= k < lo ==> precedes(
                    rank_of(facet, es[#[trigger] slots@[k] as int]),
                    probe.rank(),
                    inclusive,
                ),
            forall|k: int|
                hi <= k < slots.len() ==> !precedes(
                    rank_of(facet, es[#[trigger] slots@[k] as int]),
                    probe.rank(),
                    inclusive,
                ),
        decreases hi - lo,
    {
        let mid: usize = lo + (hi - lo) / 2;
        let slot = slots[mid];
        let r = Probe::of(facet, &entries[slot]).compare(probe);
        let ghost here = rank_of(facet, es[slot as int]);
        if r == Ranking::Before || (inclusive && r == Ranking::Same) {
            proof {
                assert forall|k: int| 0 <= k < mid + 1 implies precedes(
                    rank_of(facet, es[#[trigger] slots@[k] as int]),
                    probe.rank(),
                    inclusive,
                ) by {
                    if k < mid {
                        assert(slot_lt(es, facet, slots@[k] as int, slots@[mid as int] as int));
                        lemma_precedes_monotone(
                            rank_of(facet, es[slots@[k] as int]),
                            here,
                            probe.rank(),
                            inclusive,
                        );
                    }
                }
            }
            lo = mid + 1;
        } else {
            proof {
                assert forall|k: int| mid <= k < slots.len() implies !precedes(
                    rank_of(facet, es[#[trigger] slots@[k] as int]),
                    probe.rank(),
                    inclusive,
                ) by {
                    if mid < k {
                        assert(slot_lt(es, facet, slots@[mid as int] as int, slots@[k] as int));
                        if precedes(rank_of(facet, es[slots@[k] as int]), probe.rank(), inclusive) {
                            lemma_precedes_monotone(
                                here,
                                rank_of(facet, es[slots@[k] as int]),
                                probe.rank(),
                                inclusive,
                            );
                        }
                    }
                }
            }
            hi = mid;
        }
    }
    lo
}

} // verus!

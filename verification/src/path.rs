//! Relative paths as byte strings, and their order.

use vstd::prelude::*;

verus! {

/// The byte that separates the components of a path.
pub const SEPARATOR: u8 = 0x2f;

/// `a` and `b` agree on their first `k` bytes, and at position `k` either
/// `a` ends while `b` goes on, or `a` holds the smaller byte.
pub open spec fn lex_lt_at(a: Seq<u8>, b: Seq<u8>, k: int) -> bool {
    &&& 0 <= k <= a.len()
    &&& k <= b.len()
    &&& forall|i: int| 0 <= i < k ==> a[i] == b[i]
    &&& k < b.len()
    &&& k < a.len() ==> a[k] < b[k]
}

/// Lexicographic order on byte strings: `a` comes strictly before `b`.
pub open spec fn lex_lt(a: Seq<u8>, b: Seq<u8>) -> bool {
    exists|k: int| lex_lt_at(a, b, k)
}

/// `a` comes before `b` or equals it.
pub open spec fn lex_le(a: Seq<u8>, b: Seq<u8>) -> bool {
    a == b || lex_lt(a, b)
}

/// A sequence of byte strings in strictly increasing order.
pub open spec fn increasing(s: Seq<Seq<u8>>) -> bool {
    forall|i: int, j: int| 0 <= i < j < s.len() ==> lex_lt(#[trigger] s[i], #[trigger] s[j])
}

/// No byte string comes before itself.
pub proof fn lemma_lex_irreflexive(a: Seq<u8>)
    ensures
        !lex_lt(a, a),
{
}

/// Of two byte strings at most one comes before the other.
pub proof fn lemma_lex_asymmetric(a: Seq<u8>, b: Seq<u8>)
    requires
        lex_lt(a, b),
    ensures
        !lex_lt(b, a),
{
    let k = choose|k: int| lex_lt_at(a, b, k);
    if lex_lt(b, a) {
        let m = choose|m: int| lex_lt_at(b, a, m);
        if k < m {
            assert(b[k] == a[k]);
        } else if m < k {
            assert(a[m] == b[m]);
        }
    }
}

/// The order is transitive.
pub proof fn lemma_lex_transitive(a: Seq<u8>, b: Seq<u8>, c: Seq<u8>)
    requires
        lex_lt(a, b),
        lex_lt(b, c),
    ensures
        lex_lt(a, c),
{
    let k = choose|k: int| lex_lt_at(a, b, k);
    let m = choose|m: int| lex_lt_at(b, c, m);
    let n = if k <= m { k } else { m };
    assert(lex_lt_at(a, c, n));
}

/// Two distinct byte strings that agree on their first `k` bytes are
/// ordered one way or the other.
proof fn lemma_lex_total_from(a: Seq<u8>, b: Seq<u8>, k: int)
    requires
        0 <= k <= a.len(),
        k <= b.len(),
        forall|i: int| 0 <= i < k ==> a[i] == b[i],
    ensures
        lex_lt(a, b) || a == b || lex_lt(b, a),
    decreases a.len() - k,
{
    if k == a.len() {
        if k == b.len() {
            assert(a =~= b);
        } else {
            assert(lex_lt_at(a, b, k));
        }
    } else if k == b.len() {
        assert(lex_lt_at(b, a, k));
    } else if a[k] < b[k] {
        assert(lex_lt_at(a, b, k));
    } else if b[k] < a[k] {
        assert(lex_lt_at(b, a, k));
    } else {
        lemma_lex_total_from(a, b, k + 1);
    }
}

/// Any two byte strings are equal or ordered one way or the other.
pub proof fn lemma_lex_total(a: Seq<u8>, b: Seq<u8>)
    ensures
        lex_lt(a, b) || a == b || lex_lt(b, a),
{
    lemma_lex_total_from(a, b, 0);
}

/// How two values stand to each other in an order.
#[derive(Clone, Copy, PartialEq, Eq, Structural, Debug)]
pub enum Ranking {
    Before,
    Same,
    After,
}

/// Compares two byte strings lexicographically.
pub fn compare_bytes(a: &[u8], b: &[u8]) -> (r: Ranking)
    ensures
        r == Ranking::Before <==> lex_lt(a@, b@),
        r == Ranking::Same <==> a@ == b@,
        r == Ranking::After <==> lex_lt(b@, a@),
{
    let mut i: usize = 0;
    while i < a.len() && i < b.len()
        invariant
            i <= a@.len(),
            i <= b@.len(),
            forall|j: int| 0 <= j < i ==> a@[j] == b@[j],
        decreases a@.len() - i,
    {
        if a[i] < b[i] {
            proof {
                assert(lex_lt_at(a@, b@, i as int));
                lemma_lex_asymmetric(a@, b@);
            }
            return Ranking::Before;
        }
        if b[i] < a[i] {
            proof {
                assert(lex_lt_at(b@, a@, i as int));
                lemma_lex_asymmetric(b@, a@);
            }
            return Ranking::After;
        }
        i += 1;
    }
    if i < b.len() {
        proof {
            assert(lex_lt_at(a@, b@, i as int));
            lemma_lex_asymmetric(a@, b@);
        }
        Ranking::Before
    } else if i < a.len() {
        proof {
            assert(lex_lt_at(b@, a@, i as int));
            lemma_lex_asymmetric(b@, a@);
        }
        Ranking::After
    } else {
        proof {
            assert(a@ =~= b@);
            lemma_lex_irreflexive(a@);
        }
        Ranking::Same
    }
}

/// `k` is where the last component of `p` begins: just behind the last
/// separator, or at the start where `p` holds none.
pub open spec fn name_starts_at(p: Seq<u8>, k: int) -> bool {
    &&& 0 <= k <= p.len()
    &&& k > 0 ==> p[k - 1] == SEPARATOR
    &&& forall|i: int| k <= i < p.len() ==> p[i] != SEPARATOR
}

/// The last component of `p`: what follows its last separator, and all of
/// `p` where it holds none.
pub open spec fn basename(p: Seq<u8>) -> Seq<u8> {
    p.subrange(choose|k: int| name_starts_at(p, k), p.len() as int)
}

/// The last component begins at one place only.
pub proof fn lemma_name_start_unique(p: Seq<u8>, k: int, m: int)
    requires
        name_starts_at(p, k),
        name_starts_at(p, m),
    ensures
        k == m,
{
    if k < m {
        assert(p[m - 1] == SEPARATOR);
    } else if m < k {
        assert(p[k - 1] == SEPARATOR);
    }
}

/// The path of a file relative to the root of its tree, as the bytes of
/// its name. Paths are ordered as byte strings.
#[derive(Debug)]
pub struct RelativePath {
    bytes: Vec<u8>,
}

impl View for RelativePath {
    type V = Seq<u8>;

    closed spec fn view(&self) -> Seq<u8> {
        self.bytes@
    }
}

impl Clone for RelativePath {
    fn clone(&self) -> (copy: Self)
        ensures
            copy@ == self@,
    {
        let bytes = self.bytes.clone();
        assert(bytes@ =~= self.bytes@);
        RelativePath { bytes }
    }
}

impl RelativePath {
    /// The path that consists of the given bytes.
    pub fn from_bytes(bytes: Vec<u8>) -> (path: Self)
        ensures
            path@ == bytes@,
    {
        RelativePath { bytes }
    }

    /// The bytes of the path.
    pub fn as_bytes(&self) -> (bytes: &[u8])
        ensures
            bytes@ == self@,
    {
        self.bytes.as_slice()
    }

    /// Gives up the path for its bytes.
    pub fn into_bytes(self) -> (bytes: Vec<u8>)
        ensures
            bytes@ == self@,
    {
        self.bytes
    }

    /// How this path stands to `other` in the order of paths.
    pub fn compare(&self, other: &RelativePath) -> (r: Ranking)
        ensures
            r == Ranking::Before <==> lex_lt(self@, other@),
            r == Ranking::Same <==> self@ == other@,
            r == Ranking::After <==> lex_lt(other@, self@),
    {
        compare_bytes(self.bytes.as_slice(), other.bytes.as_slice())
    }

    /// Whether the two paths hold the same bytes.
    pub fn same_as(&self, other: &RelativePath) -> (same: bool)
        ensures
            same == (self@ == other@),
    {
        self.compare(other) == Ranking::Same
    }

    /// The last component of the path.
    pub fn file_name(&self) -> (name: &[u8])
        ensures
            name@ == basename(self@),
    {
        let bytes = self.bytes.as_slice();
        let mut k: usize = bytes.len();
        while k > 0 && bytes[k - 1] != SEPARATOR
            invariant
                k <= bytes@.len(),
                forall|i: int| k <= i < bytes@.len() ==> bytes@[i] != SEPARATOR,
            decreases k,
        {
            k -= 1;
        }
        proof {
            assert(name_starts_at(self@, k as int));
            let m = choose|m: int| name_starts_at(self@, m);
            lemma_name_start_unique(self@, k as int, m);
        }
        vstd::slice::slice_subrange(bytes, k, bytes.len())
    }
}

} // verus!

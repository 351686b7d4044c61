//! Content verification: whether two files hold the same bytes.
//!
//! The two files are read side by side, each in chunks of whatever length
//! its reader has at hand. A step looks at one chunk of each, compares as
//! many bytes as both chunks have, and says what to do next. The caller
//! does the reading; it is expected to compare only files of one size.

use vstd::prelude::*;

verus! {

/// What one step of the comparison comes to.
#[derive(Clone, Copy, PartialEq, Eq, Structural, Debug)]
pub enum ChunkStep {
    /// Both files are at their end, and no byte differed: they are equal.
    Equal,
    /// The chunks differ among the bytes that both have: the files differ.
    Different,
    /// The chunks agree in the bytes that both have, this many: both
    /// readers move on by that many bytes.
    Advance(usize),
    /// One file is at its end while the other has bytes left. The files
    /// were not of one size: the caller broke its promise.
    Truncated,
}

/// The number of bytes that both chunks have.
pub open spec fn shared_len(left: Seq<u8>, right: Seq<u8>) -> int {
    if left.len() <= right.len() {
        left.len() as int
    } else {
        right.len() as int
    }
}

/// What the step with the chunks `left` and `right` comes to. An empty
/// chunk means that its file is at its end.
pub open spec fn chunk_step(left: Seq<u8>, right: Seq<u8>) -> ChunkStep {
    let n = shared_len(left, right);
    if left.len() == 0 && right.len() == 0 {
        ChunkStep::Equal
    } else if left.len() == 0 || right.len() == 0 {
        ChunkStep::Truncated
    } else if left.subrange(0, n) == right.subrange(0, n) {
        ChunkStep::Advance(n as usize)
    } else {
        ChunkStep::Different
    }
}

/// Makes one step of the comparison with the chunks `left` and `right`.
/// It stops at the first byte that differs.
pub fn compare_chunks(left: &[u8], right: &[u8]) -> (step: ChunkStep)
    ensures
        step == chunk_step(left@, right@),
{
    if left.len() == 0 && right.len() == 0 {
        return ChunkStep::Equal;
    }
    if left.len() == 0 || right.len() == 0 {
        return ChunkStep::Truncated;
    }
    let n: usize = if left.len() <= right.len() {
        left.len()
    } else {
        right.len()
    };
    let mut i: usize = 0;
    while i < n
        invariant
            i <= n,
            n == shared_len(left@, right@),
            forall|j: int| 0 <= j < i ==> left@[j] == right@[j],
        decreases n - i,
    {
        if left[i] != right[i] {
            proof {
                let a = left@.subrange(0, n as int);
                let b = right@.subrange(0, n as int);
                assert(a[i as int] != b[i as int]);
            }
            return ChunkStep::Different;
        }
        i += 1;
    }
    assert(left@.subrange(0, n as int) =~= right@.subrange(0, n as int));
    ChunkStep::Advance(n)
}

/// Each step is right about the files, and a step that goes on gets
/// nearer to their end.
///
/// `x` and `y` are the bytes of the two files, which agree in their first
/// `pos` bytes: the bytes read so far. The readers have `la` and `lb`
/// bytes at hand, none only at the end of their file. Then `Equal` comes
/// only of equal files, `Different` only of files that differ, and
/// `Truncated` only of files of different sizes; and after `Advance` the
/// files agree in all bytes read, which are more than before.
pub proof fn lemma_step_sound(x: Seq<u8>, y: Seq<u8>, pos: int, la: int, lb: int)
    requires
        0 <= pos <= x.len(),
        pos <= y.len(),
        x.subrange(0, pos) == y.subrange(0, pos),
        0 <= la <= x.len() - pos,
        0 <= lb <= y.len() - pos,
        la == 0 <==> pos == x.len(),
        lb == 0 <==> pos == y.len(),
        x.len() <= usize::MAX,
    ensures
        match chunk_step(x.subrange(pos, pos + la), y.subrange(pos, pos + lb)) {
            ChunkStep::Equal => x == y,
            ChunkStep::Different => x != y,
            ChunkStep::Truncated => x.len() != y.len(),
            ChunkStep::Advance(n) => {
                &&& 0 < n
                &&& pos + n <= x.len()
                &&& pos + n <= y.len()
                &&& x.subrange(0, pos + n) == y.subrange(0, pos + n)
            },
        },
{
    let left = x.subrange(pos, pos + la);
    let right = y.subrange(pos, pos + lb);
    let n = shared_len(left, right);
    if la == 0 && lb == 0 {
        assert(x =~= x.subrange(0, pos));
        assert(y =~= y.subrange(0, pos));
    } else if la != 0 && lb != 0 {
        if left.subrange(0, n) == right.subrange(0, n) {
            assert forall|i: int| 0 <= i < pos + n implies x[i] == y[i] by {
                if i < pos {
                    assert(x.subrange(0, pos)[i] == x[i]);
                    assert(y.subrange(0, pos)[i] == y[i]);
                } else {
                    let k = i - pos;
                    assert(left.subrange(0, n)[k] == left[k]);
                    assert(right.subrange(0, n)[k] == right[k]);
                    assert(left[k] == x[pos + k]);
                    assert(right[k] == y[pos + k]);
                }
            }
            assert(x.subrange(0, pos + n) =~= y.subrange(0, pos + n));
        } else {
            if x == y {
                assert(left.subrange(0, n) =~= right.subrange(0, n));
            }
        }
    }
}

/// The caller compared two files that are not of one size, and they agree
/// as far as the shorter one goes.
#[derive(Clone, Copy, PartialEq, Eq, Structural, Debug)]
pub struct SizeMismatch;

/// The two byte strings differ at a place that both have.
pub open spec fn differ_within(left: Seq<u8>, right: Seq<u8>) -> bool {
    exists|i: int| 0 <= i < left.len() && i < right.len() && left[i] != right[i]
}

/// Compares two files that are in memory, step by step, with chunks of
/// at most `left_chunk` and `right_chunk` bytes. The lengths of the
/// chunks do not bear on the result.
pub fn compare_streams(left: &[u8], right: &[u8], left_chunk: usize, right_chunk: usize) -> (r:
    Result<bool, SizeMismatch>)
    requires
        left_chunk > 0,
        right_chunk > 0,
    ensures
        r == if differ_within(left@, right@) {
            Ok::<bool, SizeMismatch>(false)
        } else if left@.len() == right@.len() {
            Ok::<bool, SizeMismatch>(true)
        } else {
            Err::<bool, SizeMismatch>(SizeMismatch)
        },
{
    let mut pos: usize = 0;
    loop
        invariant
            left_chunk > 0,
            right_chunk > 0,
            pos <= left@.len(),
            pos <= right@.len(),
            forall|i: int| 0 <= i < pos ==> left@[i] == right@[i],
        decreases left@.len() - pos,
    {
        let la: usize = if left.len() - pos < left_chunk {
            left.len() - pos
        } else {
            left_chunk
        };
        let lb: usize = if right.len() - pos < right_chunk {
            right.len() - pos
        } else {
            right_chunk
        };
        let a = vstd::slice::slice_subrange(left, pos, pos + la);
        let b = vstd::slice::slice_subrange(right, pos, pos + lb);
        let ghost n = shared_len(a@, b@);
        match compare_chunks(a, b) {
            ChunkStep::Equal => {
                proof {
                    if differ_within(left@, right@) {
                        let i = choose|i: int|
                            0 <= i < left@.len() && i < right@.len() && left@[i] != right@[i];
                        assert(false);
                    }
                }
                return Ok(true);
            },
            ChunkStep::Different => {
                proof {
                    if forall|i: int| 0 <= i < n ==> a@[i] == b@[i] {
                        assert(a@.subrange(0, n) =~= b@.subrange(0, n));
                    }
                    let i = choose|i: int| 0 <= i < n && a@[i] != b@[i];
                    assert(left@[pos + i] != right@[pos + i]);
                }
                return Ok(false);
            },
            ChunkStep::Truncated => {
                proof {
                    if differ_within(left@, right@) {
                        let i = choose|i: int|
                            0 <= i < left@.len() && i < right@.len() && left@[i] != right@[i];
                        assert(false);
                    }
                }
                return Err(SizeMismatch);
            },
            ChunkStep::Advance(step) => {
                proof {
                    assert forall|i: int| 0 <= i < pos + step implies left@[i] == right@[i] by {
                        if i >= pos {
                            assert(a@.subrange(0, n)[i - pos] == b@.subrange(0, n)[i - pos]);
                        }
                    }
                }
                pos += step;
            },
        }
    }
}

} // verus!

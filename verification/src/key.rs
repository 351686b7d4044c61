//! The metadata by which a file is recognised.

use vstd::prelude::*;
use crate::path::Ranking;

verus! {

/// Nanoseconds in a second: the bound of `Timestamp::nanos`.
pub const NANOS_PER_SECOND: u32 = 1_000_000_000;

/// A point in time: whole seconds since the Unix epoch, negative before
/// it, and the nanoseconds past that second.
#[derive(Clone, Copy, PartialEq, Eq, Structural, Debug, Hash)]
pub struct Timestamp {
    pub secs: i64,
    pub nanos: u32,
}

/// Size and modification time of a file. Two files with the same key are
/// taken to be the same file as long as nothing says otherwise.
#[derive(Clone, Copy, PartialEq, Eq, Structural, Debug, Hash)]
pub struct FileKey {
    pub size: u64,
    pub modification_time: Timestamp,
}

/// `a` is earlier than `b`: by the seconds, then by the nanoseconds.
pub open spec fn time_lt(a: Timestamp, b: Timestamp) -> bool {
    a.secs < b.secs || (a.secs == b.secs && a.nanos < b.nanos)
}

/// The order of keys: by size, then by modification time.
pub open spec fn key_lt(a: FileKey, b: FileKey) -> bool {
    a.size < b.size || (a.size == b.size && time_lt(a.modification_time, b.modification_time))
}

/// The place of a time on the line of nanoseconds around the epoch.
pub open spec fn instant(t: Timestamp) -> int {
    t.secs * NANOS_PER_SECOND + t.nanos
}

impl Timestamp {
    /// The time that lies `secs` seconds and `nanos` nanoseconds after the
    /// epoch. Seconds beyond the range of the time are cut to its end.
    pub fn after_epoch(secs: u64, nanos: u32) -> (t: Timestamp)
        ensures
            t.nanos == nanos,
            secs <= i64::MAX ==> t.secs == secs,
            secs > i64::MAX ==> t.secs == i64::MAX,
    {
        if secs <= 0x7fff_ffff_ffff_ffff {
            Timestamp { secs: secs as i64, nanos }
        } else {
            Timestamp { secs: i64::MAX, nanos }
        }
    }

    /// The time that lies `secs` seconds and `nanos` nanoseconds before
    /// the epoch: the second at or before it, and the nanoseconds past
    /// that second. Seconds beyond the range of the time are cut to its
    /// start.
    pub fn before_epoch(secs: u64, nanos: u32) -> (t: Timestamp)
        requires
            nanos < NANOS_PER_SECOND,
        ensures
            t.nanos < NANOS_PER_SECOND,
            secs < i64::MAX ==> instant(t) == -(secs * NANOS_PER_SECOND + nanos),
            secs >= i64::MAX ==> t == (Timestamp { secs: i64::MIN, nanos: 0 }),
    {
        if secs >= 0x7fff_ffff_ffff_ffff {
            Timestamp { secs: i64::MIN, nanos: 0 }
        } else if nanos == 0 {
            Timestamp { secs: -(secs as i64), nanos: 0 }
        } else {
            Timestamp { secs: -(secs as i64) - 1, nanos: NANOS_PER_SECOND - nanos }
        }
    }

    /// The time `nanos` nanoseconds after the second `secs`.
    pub fn new(secs: i64, nanos: u32) -> (t: Timestamp)
        ensures
            t.secs == secs,
            t.nanos == nanos,
    {
        Timestamp { secs, nanos }
    }

    /// How this time stands to `other`.
    pub fn compare(&self, other: &Timestamp) -> (r: Ranking)
        ensures
            r == Ranking::Before <==> time_lt(*self, *other),
            r == Ranking::Same <==> *self == *other,
            r == Ranking::After <==> time_lt(*other, *self),
    {
        if self.secs < other.secs {
            Ranking::Before
        } else if self.secs > other.secs {
            Ranking::After
        } else if self.nanos < other.nanos {
            Ranking::Before
        } else if self.nanos > other.nanos {
            Ranking::After
        } else {
            Ranking::Same
        }
    }
}

impl FileKey {
    /// The key of a file of `size` bytes last modified at `modification_time`.
    pub fn new(size: u64, modification_time: Timestamp) -> (key: FileKey)
        ensures
            key.size == size,
            key.modification_time == modification_time,
    {
        FileKey { size, modification_time }
    }

    /// How this key stands to `other` in the order of keys.
    pub fn compare(&self, other: &FileKey) -> (r: Ranking)
        ensures
            r == Ranking::Before <==> key_lt(*self, *other),
            r == Ranking::Same <==> *self == *other,
            r == Ranking::After <==> key_lt(*other, *self),
    {
        if self.size < other.size {
            Ranking::Before
        } else if self.size > other.size {
            Ranking::After
        } else {
            self.modification_time.compare(&other.modification_time)
        }
    }
}

} // verus!

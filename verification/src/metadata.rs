//! What the file system says of one entry.

use vstd::prelude::*;

verus! {

/// The attribute bit of junctions and other reparse points on Windows.
pub const FILE_ATTRIBUTE_REPARSE_POINT: u32 = 0x400;

/// One past the largest `u64`.
const TWO_POW_64: u128 = 0x1_0000_0000_0000_0000;

/// One past the largest `i64`.
const TWO_POW_63: u64 = 0x8000_0000_0000_0000;

/// When an entry was last modified.
#[derive(Clone, Copy, Debug)]
pub enum Timestamp {
    /// So many seconds and nanoseconds after the start of the Unix epoch.
    SinceEpoch { secs: u64, nanos: u32 },
    /// Some time before it.
    BeforeEpoch,
}

/// What the file system says of one entry, links not followed.
#[derive(Clone, Copy, Debug)]
pub struct Metadata {
    /// The attribute bits, on a system that has them.
    pub attributes: Option<u32>,
    pub is_symlink: bool,
    pub is_dir: bool,
    pub is_file: bool,
    pub len: u64,
    pub modified: Option<Timestamp>,
}

/// What a walk makes of an entry.
#[derive(Clone, Copy, Debug, PartialEq, Eq, Structural)]
pub enum Kind {
    /// Passed over.
    Skip,
    /// A directory to walk into.
    Dir,
    /// A file to count.
    File,
}

/// The reparse bit is set among the attributes; on a system without attributes, the entry is a
/// symbolic link.
pub open spec fn reparse(md: Metadata) -> bool {
    match md.attributes {
        Some(bits) => bits & FILE_ATTRIBUTE_REPARSE_POINT != 0,
        None => md.is_symlink,
    }
}

/// Whole milliseconds of a time span.
pub open spec fn whole_millis(secs: u64, nanos: u32) -> int {
    secs * 1000 + nanos as int / 1_000_000
}

/// The number that the low 64 bits of `n` stand for in two's complement.
pub open spec fn low_signed_64(n: int) -> int {
    let low = n % 0x1_0000_0000_0000_0000;
    if low < 0x8000_0000_0000_0000 {
        low
    } else {
        low - 0x1_0000_0000_0000_0000
    }
}

/// The time of last modification in milliseconds since the epoch, if it is known and not before
/// the epoch.
pub open spec fn modified_millis(md: Metadata) -> Option<i64> {
    match md.modified {
        Some(Timestamp::SinceEpoch { secs, nanos }) => Some(
            low_signed_64(whole_millis(secs, nanos)) as i64,
        ),
        _ => None,
    }
}

/// What a walk makes of an entry: a reparse point is passed over, whatever else it may be.
pub open spec fn kind_of(md: Metadata) -> Kind {
    if reparse(md) {
        Kind::Skip
    } else if md.is_dir {
        Kind::Dir
    } else if md.is_file {
        Kind::File
    } else {
        Kind::Skip
    }
}

/// Whether the entry is a symbolic link, a junction or another reparse point. A walk that followed
/// those could come back to where it was.
pub fn is_reparse(md: &Metadata) -> (r: bool)
    ensures
        r == reparse(*md),
        md.attributes matches Some(bits) ==> r == (bits & 0x400 != 0),
        md.attributes is None ==> r == md.is_symlink,
{
    match md.attributes {
        Some(bits) => bits & FILE_ATTRIBUTE_REPARSE_POINT != 0,
        None => md.is_symlink,
    }
}

/// The time of last modification in milliseconds since the Unix epoch, or `None` if there is none
/// to be had. A time span of more milliseconds than an `i64` counts keeps its low 64 bits.
pub fn mtime_millis(md: &Metadata) -> (millis: Option<i64>)
    ensures
        millis == modified_millis(*md),
        millis is Some <==> (md.modified matches Some(Timestamp::SinceEpoch { .. })),
        md.modified matches Some(Timestamp::SinceEpoch { secs, nanos }) ==> (millis->0 - (secs * 1000
            + nanos as int / 1_000_000)) % 0x1_0000_0000_0000_0000 == 0,
{
    match md.modified {
        Some(Timestamp::SinceEpoch { secs, nanos }) => {
            let millis: u128 = secs as u128 * 1000 + (nanos / 1_000_000) as u128;
            let low: u64 = (millis % TWO_POW_64) as u64;
            if low < TWO_POW_63 {
                Some(low as i64)
            } else {
                Some((low - TWO_POW_63) as i64 + i64::MIN)
            }
        },
        _ => None,
    }
}

/// What a walk makes of the entry.
pub fn kind(md: &Metadata) -> (kind: Kind)
    ensures
        kind == kind_of(*md),
        kind == Kind::Dir <==> md.is_dir && !(match md.attributes {
            Some(bits) => bits & 0x400 != 0,
            None => md.is_symlink,
        }),
        kind == Kind::File <==> md.is_file && !md.is_dir && !(match md.attributes {
            Some(bits) => bits & 0x400 != 0,
            None => md.is_symlink,
        }),
{
    if is_reparse(md) {
        Kind::Skip
    } else if md.is_dir {
        Kind::Dir
    } else if md.is_file {
        Kind::File
    } else {
        Kind::Skip
    }
}

/// A walk enters every directory and counts every file but the reparse points, and passes over
/// all else. A reparse point is an entry with that bit among its attributes or, on a system that
/// has no attributes, a symbolic link; nothing but that bit of the attributes matters.
pub proof fn law_kinds(md: Metadata)
    ensures
        md.attributes matches Some(bits) ==> {
            &&& bits & 0x400 != 0 ==> kind_of(md) == Kind::Skip
            &&& bits & 0x400 == 0 && md.is_dir ==> kind_of(md) == Kind::Dir
            &&& bits & 0x400 == 0 && !md.is_dir && md.is_file ==> kind_of(md) == Kind::File
        },
        md.attributes is None ==> {
            &&& md.is_symlink ==> kind_of(md) == Kind::Skip
            &&& !md.is_symlink && md.is_dir ==> kind_of(md) == Kind::Dir
            &&& !md.is_symlink && !md.is_dir && md.is_file ==> kind_of(md) == Kind::File
        },
        !md.is_dir && !md.is_file ==> kind_of(md) == Kind::Skip,
        md.attributes matches Some(bits) ==> reparse(md) == (bits & 0x400 != 0),
        md.attributes is None ==> reparse(md) == md.is_symlink,
{
}

/// The time depends on the timestamp alone, and is there exactly if that is one of the epoch. It
/// is then the whole milliseconds since, up to a multiple of two to the 64.
pub proof fn law_millis(md: Metadata)
    ensures
        md.modified is None ==> modified_millis(md) is None,
        md.modified == Some(Timestamp::BeforeEpoch) ==> modified_millis(md) is None,
        md.modified matches Some(Timestamp::SinceEpoch { secs, nanos }) ==> {
            &&& modified_millis(md) is Some
            &&& (modified_millis(md)->0 - (secs * 1000 + nanos as int / 1_000_000))
                % 0x1_0000_0000_0000_0000 == 0
        },
{
}

/// Until the year 292 million the time is given exactly: where the milliseconds fit an `i64` none
/// are lost.
pub proof fn law_millis_exact(md: Metadata, secs: u64, nanos: u32)
    requires
        md.modified == Some(Timestamp::SinceEpoch { secs, nanos }),
        whole_millis(secs, nanos) <= i64::MAX,
    ensures
        modified_millis(md) is Some,
        modified_millis(md)->0 == whole_millis(secs, nanos),
{
}

} // verus!

//! Where a byte range of a file is found, and how far a file is grown.
use vstd::prelude::*;

verus! {

/// The window `[offset, offset + len)` of a whole-file mapping of `map_len`
/// bytes, or `None` when the range does not lie inside the mapping.
pub open spec fn window_of(map_len: nat, offset: nat, len: nat) -> Option<(nat, nat)> {
    if offset + len <= map_len {
        Some((offset, offset + len))
    } else {
        None
    }
}

/// Places `[offset, offset + len)` inside a whole-file mapping of `map_len` bytes.
pub fn mapped_range(map_len: usize, offset: u64, len: usize) -> (r: Option<(usize, usize)>)
    ensures
        r matches Some((s, e)) ==> window_of(map_len as nat, offset as nat, len as nat) == Some((s as nat, e as nat)),
        r is None ==> window_of(map_len as nat, offset as nat, len as nat) is None,
{
    if offset > map_len as u64 {
        return None;
    }
    let start = offset as usize;
    if len > map_len - start {
        None
    } else {
        Some((start, start + len))
    }
}

/// The bytes of `buf` after `data` was written at `start`.
pub open spec fn write_window(buf: Seq<u8>, start: int, data: Seq<u8>) -> Seq<u8> {
    buf.subrange(0, start) + data + buf.subrange(start + data.len(), buf.len() as int)
}

/// Bytes written through the window that `window_of` gives are read back
/// unchanged through the window of a second access to the same range, and
/// the mapping keeps its length.
pub proof fn lemma_round_trip(buf: Seq<u8>, offset: nat, data: Seq<u8>)
    requires
        offset + data.len() <= buf.len(),
    ensures
        window_of(buf.len(), offset, data.len()) == Some((offset, offset + data.len())),
        write_window(buf, offset as int, data).len() == buf.len(),
        write_window(buf, offset as int, data).subrange(offset as int, (offset + data.len()) as int) == data,
{
    let w = write_window(buf, offset as int, data);
    assert(w.subrange(offset as int, (offset + data.len()) as int) =~= data);
}

/// The length of a file of `current` bytes once admitted with the declared
/// length `declared`: a declared length is a floor, and a file never shrinks.
pub open spec fn length_after(declared: Option<u64>, current: u64) -> u64 {
    match declared {
        Some(l) => if l > current {
            l
        } else {
            current
        },
        None => current,
    }
}

/// Whether admission may create a missing file: only when a length was declared.
pub fn creates_file(declared: Option<u64>) -> (r: bool)
    ensures
        r == declared is Some,
{
    declared.is_some()
}

/// The length to which a file of `current` bytes must be grown on admission
/// with the declared length `declared`, or `None` when it is left as it is.
pub fn allocation_target(declared: Option<u64>, current: u64) -> (r: Option<u64>)
    ensures
        r matches Some(l) ==> declared == Some(l) && current < l,
        r is None ==> length_after(declared, current) == current,
        r matches Some(l) ==> length_after(declared, current) == l,
{
    match declared {
        Some(l) => if l > current {
            Some(l)
        } else {
            None
        },
        None => None,
    }
}

/// A new file admitted with declared length `l` has exactly `l` bytes, and a
/// later admission with a smaller declared length does not shrink it.
pub proof fn lemma_allocation_floor(l: u64, smaller: u64)
    requires
        smaller < l,
    ensures
        length_after(Some(l), 0) == l,
        length_after(Some(smaller), length_after(Some(l), 0)) == l,
{
}

/// The size of the scratch buffer used for spilled accesses.
pub const SCRATCH_LEN: usize = 16384;

/// How an access is carried out when files are not mapped whole.
pub enum NarrowAccess {
    /// Map `len` bytes of the file at `offset` for the length of the access.
    Window { offset: usize, len: usize },
    /// Seek to the offset and go through the scratch buffer: read the bytes
    /// into it first when `pre_read`, write them back after when `write_back`.
    Spill { pre_read: bool, write_back: bool },
    /// The range cannot be served.
    OutOfRange,
}

/// Chooses how to reach `[offset, offset + len)` of a file that is not
/// mapped whole: through a transient mapping when the offset fits a host
/// word, otherwise through the scratch buffer, read first for a read and
/// written back for a write.
pub fn narrow_access(offset: u64, len: usize, read: bool) -> (r: NarrowAccess)
    ensures
        (offset as nat) < (usize::MAX as nat) ==> r == (NarrowAccess::Window {
            offset: offset as usize,
            len,
        }),
        (offset as nat) >= (usize::MAX as nat) && len <= SCRATCH_LEN ==> r == (NarrowAccess::Spill {
            pre_read: read,
            write_back: !read,
        }),
        (offset as nat) >= (usize::MAX as nat) && len > SCRATCH_LEN ==> r is OutOfRange,
{
    if (offset as u128) < (usize::MAX as u128) {
        NarrowAccess::Window { offset: offset as usize, len }
    } else if len <= SCRATCH_LEN {
        NarrowAccess::Spill { pre_read: read, write_back: !read }
    } else {
        NarrowAccess::OutOfRange
    }
}

} // verus!

//! Position-relative addressing: a reference stored as a signed distance
//! from the referring position to the referent.
use vstd::prelude::*;

verus! {

/// Failure raised when a referent lies too far from its referrer to be
/// encoded in a relative offset.
#[derive(Debug, Clone, Copy, PartialEq, Eq, Structural)]
pub enum ArchiveError {
    OffsetOverflow,
}

/// Whether the signed distance `to - from` fits in an `i32`.
pub open spec fn offset_fits(from: int, to: int) -> bool {
    i32::MIN <= to - from <= i32::MAX
}

/// The signed offset that leads from position `from` to position `to`.
pub fn relative_offset(from: usize, to: usize) -> (r: Result<i32, ArchiveError>)
    ensures
        offset_fits(from as int, to as int) <==> r is Ok,
        r is Ok ==> r->Ok_0 as int == to as int - from as int,
        r is Err ==> r->Err_0 == ArchiveError::OffsetOverflow,
{
    if to >= from {
        let d: usize = to - from;
        if d > i32::MAX as usize {
            Err(ArchiveError::OffsetOverflow)
        } else {
            Ok(d as i32)
        }
    } else {
        let d: usize = from - to;
        if d > 2147483648usize {
            Err(ArchiveError::OffsetOverflow)
        } else if d == 2147483648usize {
            Ok(i32::MIN)
        } else {
            Ok(-(d as i32))
        }
    }
}

/// The position reached by following offset `off` from position `from`.
pub fn resolve_offset(from: usize, off: i32) -> (r: usize)
    requires
        0 <= from as int + off as int <= usize::MAX,
    ensures
        r as int == from as int + off as int,
{
    if off >= 0 {
        from + off as usize
    } else {
        let back: usize = if off == i32::MIN {
            2147483648usize
        } else {
            (-off) as usize
        };
        from - back
    }
}

/// An offset computed between two positions leads back to the referent.
pub proof fn lemma_offset_round_trip(from: usize, to: usize, off: i32)
    requires
        off as int == to as int - from as int,
    ensures
        from as int + off as int == to as int,
        0 <= from as int + off as int <= usize::MAX,
{
}

} // verus!

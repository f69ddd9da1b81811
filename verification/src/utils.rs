//! Offset resolution, the primitive shared by every seekable layer of the
//! crate: a seek request names a base (start, end, or current position) and a
//! signed delta, and resolves to `base + delta`, failing when the result would
//! be negative.

use vstd::prelude::*;

verus! {

/// A seek request, following the standard three-way seek convention.
#[derive(Clone, Copy, Debug)]
pub enum SeekFrom {
    /// An absolute offset from the start of the stream.
    Start(u64),
    /// An offset relative to the end of the stream.
    End(i64),
    /// An offset relative to the current position.
    Current(i64),
}

/// The error for a seek request whose resolved absolute offset would lie
/// before the start of the stream.
#[derive(Clone, Copy, Debug, PartialEq, Eq, Structural)]
pub enum SeekError {
    /// The resolved absolute offset would be negative.
    NegativePosition,
}

/// The absolute offset that a seek request resolves to against a stream of
/// length `size` with cursor `current`: `base + delta`, or `None` when that
/// sum is negative. An absolute request larger than `i64::MAX` also resolves
/// to `None`: such an offset cannot be expressed as a signed base.
pub open spec fn resolve_seek(size: int, current: int, pos: SeekFrom) -> Option<int> {
    match pos {
        SeekFrom::Start(o) => if o as int <= i64::MAX as int {
            Some(o as int)
        } else {
            None
        },
        SeekFrom::End(d) => if size + d >= 0 {
            Some(size + d)
        } else {
            None
        },
        SeekFrom::Current(d) => if current + d >= 0 {
            Some(current + d)
        } else {
            None
        },
    }
}

/// True when resolving `pos` stays within `i64::MAX`, the largest position a
/// signed seek base can express; relative requests beyond it are excluded by
/// the callers' preconditions.
pub open spec fn resolve_in_range(size: int, current: int, pos: SeekFrom) -> bool {
    match pos {
        SeekFrom::Start(o) => true,
        SeekFrom::End(d) => size + d <= i64::MAX as int,
        SeekFrom::Current(d) => current + d <= i64::MAX as int,
    }
}

/// Seeking to an absolute offset lands exactly there: an absolute request
/// resolves to its own offset, whatever the stream size and the current
/// position. Together with the readers' guarantee that a successful seek
/// leaves the position at the resolved offset, asking for the position right
/// after `SeekFrom::Start(p)` returns `p`.
pub proof fn lemma_absolute_seek_targets(size: int, current: int, p: u64)
    requires
        p <= i64::MAX,
    ensures
        resolve_seek(size, current, SeekFrom::Start(p)) == Some(p as int),
{
}

/// A current-relative seek of zero is the identity on the position: it
/// resolves to the current position itself, for every stream size and every
/// nonnegative position. Together with the readers' guarantee that a seek
/// whose target lies inside the cached window touches nothing but the
/// internal cursor, `SeekFrom::Current(0)` never changes the position and
/// never reaches the underlying sources while the position is cached.
pub proof fn lemma_current_relative_zero_is_identity(size: int, current: int)
    requires
        current >= 0,
    ensures
        resolve_seek(size, current, SeekFrom::Current(0)) == Some(current),
{
}

/// Resolves a seek request to an absolute offset in a stream of `size` bytes
/// whose cursor stands at `current_offset`: the sum of the request's base and
/// delta, or `SeekError::NegativePosition` when that sum is negative.
pub fn calculate_seek(size: usize, current_offset: usize, pos: SeekFrom) -> (r: Result<
    u64,
    SeekError,
>)
    requires
        size <= i64::MAX,
        current_offset <= i64::MAX,
        resolve_in_range(size as int, current_offset as int, pos),
    ensures
        match r {
            Ok(v) => resolve_seek(size as int, current_offset as int, pos) == Some(v as int) && v
                <= i64::MAX,
            Err(e) => resolve_seek(size as int, current_offset as int, pos) is None && e
                == SeekError::NegativePosition,
        },
{
    match pos {
        SeekFrom::Start(o) => {
            if o <= i64::MAX as u64 {
                Ok(o)
            } else {
                Err(SeekError::NegativePosition)
            }
        },
        SeekFrom::End(d) => {
            let new_pos: i64 = size as i64 + d;
            if new_pos < 0 {
                Err(SeekError::NegativePosition)
            } else {
                Ok(new_pos as u64)
            }
        },
        SeekFrom::Current(d) => {
            let new_pos: i64 = current_offset as i64 + d;
            if new_pos < 0 {
                Err(SeekError::NegativePosition)
            } else {
                Ok(new_pos as u64)
            }
        },
    }
}

} // verus!

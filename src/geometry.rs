use vstd::prelude::*;

verus! {

/// The winding of a polygon's points.
#[derive(Clone, Copy, Debug, PartialEq, Eq, Structural)]
pub enum Direction {
    Clockwise,
    CounterClockwise,
}

/// The point indices of line `index` of a polyline with `len` points: the
/// points at `index` and `index + 1`, when both exist.
pub fn line_at(len: usize, index: i32) -> (r: Option<(usize, usize)>)
    ensures
        r == (if 0 <= index && index + 1 < len {
            Some((index as usize, (index + 1) as usize))
        } else {
            None::<(usize, usize)>
        }),
{
    if index >= 0 && (index as usize) < len && (index as usize) + 1 < len {
        Some((index as usize, index as usize + 1))
    } else {
        None
    }
}

/// Like [`line_at`], but an index at or past the point count gives the last
/// line.
pub fn line_or_last(len: usize, index: i32) -> (r: (usize, usize))
    requires
        len >= 2,
        0 <= index,
        index != len - 1,
    ensures
        r == (if index >= len {
            ((len - 2) as usize, (len - 1) as usize)
        } else {
            (index as usize, (index + 1) as usize)
        }),
{
    if (index as usize) >= len {
        (len - 2, len - 1)
    } else {
        (index as usize, index as usize + 1)
    }
}

} // verus!

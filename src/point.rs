use vstd::prelude::*;

verus! {

/// A board coordinate `(x, y)`; as board bounds, `(width, height)`.
#[derive(Debug, Clone, Copy, PartialEq, Eq, Structural)]
pub struct Point(pub i32, pub i32);

/// `(x, y)` lies in the half-open rectangle `[0, b.0) × [0, b.1)`.
pub open spec fn in_bounds(x: int, y: int, b: Point) -> bool {
    0 <= x < b.0 && 0 <= y < b.1
}

/// Lexicographic order: by `x`, then by `y`.
pub open spec fn point_cmp(a: Point, o: Point) -> core::cmp::Ordering {
    if a.0 < o.0 {
        core::cmp::Ordering::Less
    } else if a.0 > o.0 {
        core::cmp::Ordering::Greater
    } else if a.1 < o.1 {
        core::cmp::Ordering::Less
    } else if a.1 > o.1 {
        core::cmp::Ordering::Greater
    } else {
        core::cmp::Ordering::Equal
    }
}

impl PartialOrd for Point {
    fn partial_cmp(&self, other: &Point) -> (r: Option<core::cmp::Ordering>)
        ensures
            r == Some(point_cmp(*self, *other)),
    {
        if self.0 < other.0 {
            Some(core::cmp::Ordering::Less)
        } else if self.0 > other.0 {
            Some(core::cmp::Ordering::Greater)
        } else if self.1 < other.1 {
            Some(core::cmp::Ordering::Less)
        } else if self.1 > other.1 {
            Some(core::cmp::Ordering::Greater)
        } else {
            Some(core::cmp::Ordering::Equal)
        }
    }
}

impl vstd::std_specs::cmp::PartialOrdSpecImpl for Point {
    open spec fn obeys_partial_cmp_spec() -> bool {
        true
    }

    open spec fn partial_cmp_spec(&self, other: &Point) -> Option<core::cmp::Ordering> {
        Some(point_cmp(*self, *other))
    }
}

impl Point {
    /// The point `(x, y)` if it lies on the board `board_size`, else `None`.
    pub fn try_new(x: i32, y: i32, board_size: &Point) -> (r: Option<Point>)
        ensures
            r == (if in_bounds(x as int, y as int, *board_size) {
                Some(Point(x, y))
            } else {
                None::<Point>
            }),
    {
        if x >= 0 && x < board_size.0 && y >= 0 && y < board_size.1 {
            Some(Point(x, y))
        } else {
            None
        }
    }

    /// `p` itself if it lies on the board `board_size`, else `None`.
    pub fn try_from_pt(p: Point, board_size: &Point) -> (r: Option<Point>)
        ensures
            r == (if in_bounds(p.0 as int, p.1 as int, *board_size) {
                Some(p)
            } else {
                None::<Point>
            }),
    {
        Self::try_new(p.0, p.1, board_size)
    }
}

} // verus!

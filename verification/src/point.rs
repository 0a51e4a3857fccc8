//! Grid coordinates and their row-major order.

use std::cmp::Ordering;
use vstd::prelude::*;

verus! {

/// One of the four cardinal directions, in the order in which a walk tries
/// them: north, east, south, west.
#[derive(Clone, Copy, Debug, PartialEq, Eq, Structural)]
pub enum Direction {
    North,
    East,
    South,
    West,
}

impl Direction {
    /// The place of the direction in the order of precedence, from 0.
    pub open spec fn rank(self) -> int {
        match self {
            Direction::North => 0,
            Direction::East => 1,
            Direction::South => 2,
            Direction::West => 3,
        }
    }
}

/// A coordinate on the grid: column `x`, row `y`.
///
/// The row is declared first so that the derived total order is row-major:
/// by `y`, then by `x`.
#[derive(Clone, Copy, Debug, PartialEq, Eq, Structural, Ord, Hash)]
pub struct Point {
    pub y: usize,
    pub x: usize,
}

impl Point {
    /// The coordinate in column `x` of row `y`.
    pub fn new(x: usize, y: usize) -> (p: Point)
        ensures
            p.x == x,
            p.y == y,
    {
        Point { y, x }
    }

    /// The coordinate one step from this one in direction `d`, where the
    /// machine's integers can hold it. Rows grow southwards, columns
    /// eastwards.
    pub open spec fn neighbour(self, d: Direction) -> Option<Point> {
        match d {
            Direction::North => if self.y > 0 {
                Some(Point { y: (self.y - 1) as usize, x: self.x })
            } else {
                None
            },
            Direction::East => if self.x < usize::MAX {
                Some(Point { y: self.y, x: (self.x + 1) as usize })
            } else {
                None
            },
            Direction::South => if self.y < usize::MAX {
                Some(Point { y: (self.y + 1) as usize, x: self.x })
            } else {
                None
            },
            Direction::West => if self.x > 0 {
                Some(Point { y: self.y, x: (self.x - 1) as usize })
            } else {
                None
            },
        }
    }

    /// Whether `other` is one step away in a cardinal direction.
    pub open spec fn is_cardinal_neighbour(self, other: Point) -> bool {
        exists|d: Direction| self.neighbour(d) == Some(other)
    }

    /// Row-major "comes before": an earlier row, or the same row and an
    /// earlier column.
    pub open spec fn precedes(self, other: Point) -> bool {
        self.y < other.y || (self.y == other.y && self.x < other.x)
    }
}

/// Row-major "comes before" is a strict total order: of two coordinates
/// exactly one comes before the other unless they are the same, and what
/// comes before a coordinate comes before everything after it.
pub proof fn lemma_precedes_is_total_order(p: Point, q: Point, r: Point)
    ensures
        !p.precedes(p),
        p != q ==> (p.precedes(q) <==> !q.precedes(p)),
        p.precedes(q) && q.precedes(r) ==> p.precedes(r),
{
}

impl Default for Point {
    fn default() -> (p: Point)
        ensures
            p.x == 0,
            p.y == 0,
    {
        Point { y: 0, x: 0 }
    }
}

impl PartialOrd for Point {
    fn partial_cmp(&self, other: &Point) -> (r: Option<Ordering>) {
        if self.y < other.y {
            Some(Ordering::Less)
        } else if self.y > other.y {
            Some(Ordering::Greater)
        } else if self.x < other.x {
            Some(Ordering::Less)
        } else if self.x > other.x {
            Some(Ordering::Greater)
        } else {
            Some(Ordering::Equal)
        }
    }
}

impl vstd::std_specs::cmp::PartialOrdSpecImpl for Point {
    open spec fn obeys_partial_cmp_spec() -> bool {
        true
    }

    open spec fn partial_cmp_spec(&self, other: &Point) -> Option<Ordering> {
        if self.precedes(*other) {
            Some(Ordering::Less)
        } else if other.precedes(*self) {
            Some(Ordering::Greater)
        } else {
            Some(Ordering::Equal)
        }
    }
}

} // verus!

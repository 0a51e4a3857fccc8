//! The openings on the border of the grid.

use crate::dimensions::Dimensions;
use crate::error::MazeError;
use crate::maze::Maze;
use crate::node::MazeNode;
use crate::point::Point;
use vstd::prelude::*;

verus! {

/// The coordinates of row `y`, from left to right.
pub open spec fn row_line(dimensions: Dimensions, y: int) -> Seq<Point> {
    Seq::new(dimensions.width as nat, |x: int| Point { y: y as usize, x: x as usize })
}

/// The coordinates of column `x`, from top to bottom.
pub open spec fn column_line(dimensions: Dimensions, x: int) -> Seq<Point> {
    Seq::new(dimensions.height as nat, |y: int| Point { y: y as usize, x: x as usize })
}

/// The border of the grid in the order in which it is scanned: the top row
/// and the bottom row from left to right, then the left column and the right
/// column from top to bottom. Each line is taken whole, so a corner stands
/// on two of them. A grid without cells has no border.
pub open spec fn perimeter(dimensions: Dimensions) -> Seq<Point> {
    if dimensions.width == 0 || dimensions.height == 0 {
        Seq::empty()
    } else {
        row_line(dimensions, 0) + row_line(dimensions, dimensions.height - 1) + column_line(
            dimensions,
            0,
        ) + column_line(dimensions, dimensions.width - 1)
    }
}

/// The test that picks the coordinates whose node can be walked on.
pub open spec fn is_opening(nodes: Map<Point, MazeNode>) -> spec_fn(Point) -> bool {
    |p: Point| nodes[p].is_passable()
}

/// The openings of the grid: the coordinates of the border that can be
/// walked on, in scan order, a corner as often as the scan meets it.
pub open spec fn border_openings(nodes: Map<Point, MazeNode>, dimensions: Dimensions) -> Seq<Point> {
    perimeter(dimensions).filter(is_opening(nodes))
}

/// How often `p` stands in `s`.
pub open spec fn occurrences(s: Seq<Point>, p: Point) -> nat
    decreases s.len(),
{
    if s.len() == 0 {
        0
    } else {
        occurrences(s.drop_last(), p) + if s.last() == p {
            1nat
        } else {
            0nat
        }
    }
}

/// On how many of the four lines of the border `p` stands.
pub open spec fn lines_through(dimensions: Dimensions, p: Point) -> nat {
    let top: nat = if p.y == 0 {
        1
    } else {
        0
    };
    let bottom: nat = if p.y == dimensions.height - 1 {
        1
    } else {
        0
    };
    let left: nat = if p.x == 0 {
        1
    } else {
        0
    };
    let right: nat = if p.x == dimensions.width - 1 {
        1
    } else {
        0
    };
    top + bottom + left + right
}

/// Whether `p` is one of the four corners of the grid.
pub open spec fn is_corner(dimensions: Dimensions, p: Point) -> bool {
    (p.x == 0 || p.x == dimensions.width - 1) && (p.y == 0 || p.y == dimensions.height - 1)
}

/// The openings of a grid, the first of which is where a walk starts and the
/// last of which is where it ends.
#[derive(Debug)]
pub struct PointList {
    points: Vec<Point>,
}

impl View for PointList {
    type V = Seq<Point>;

    closed spec fn view(&self) -> Seq<Point> {
        self.points@
    }
}

impl PointList {
    /// A list of openings holds at least two entries.
    #[verifier::type_invariant]
    pub open spec fn inv(&self) -> bool {
        self@.len() >= 2
    }

    /// The start of the walk: the first opening.
    pub fn get_start(&self) -> (p: Point)
        ensures
            p == self@.first(),
    {
        proof {
            use_type_invariant(self);
        }
        self.points[0]
    }

    /// The end of the walk: the last opening.
    pub fn get_end(&self) -> (p: Point)
        ensures
            p == self@.last(),
    {
        proof {
            use_type_invariant(self);
        }
        self.points[self.points.len() - 1]
    }

    /// All openings, in scan order.
    pub fn points(&self) -> (points: &[Point])
        ensures
            points@ == self@,
    {
        self.points.as_slice()
    }
}

/// Filtering the first `n + 1` entries of a line is filtering the first `n`
/// and then deciding on the entry after them.
proof fn lemma_filter_step(line: Seq<Point>, n: int, pred: spec_fn(Point) -> bool)
    requires
        0 <= n < line.len(),
    ensures
        line.take(n + 1).filter(pred) == if pred(line[n]) {
            line.take(n).filter(pred).push(line[n])
        } else {
            line.take(n).filter(pred)
        },
{
    reveal(Seq::filter);
    assert(line.take(n + 1).drop_last() =~= line.take(n));
}

/// What stands in two sequences laid end to end stands there as often as in
/// both together.
proof fn lemma_occurrences_add(a: Seq<Point>, b: Seq<Point>, p: Point)
    ensures
        occurrences(a + b, p) == occurrences(a, p) + occurrences(b, p),
    decreases b.len(),
{
    if b.len() > 0 {
        assert((a + b).drop_last() =~= a + b.drop_last());
        lemma_occurrences_add(a, b.drop_last(), p);
    }
}

/// A filter keeps every occurrence of what passes its test, and none of what
/// does not.
proof fn lemma_occurrences_filter(s: Seq<Point>, pred: spec_fn(Point) -> bool, p: Point)
    ensures
        occurrences(s.filter(pred), p) == if pred(p) {
            occurrences(s, p)
        } else {
            0
        },
    decreases s.len(),
{
    reveal(Seq::filter);
    if s.len() > 0 {
        lemma_occurrences_filter(s.drop_last(), pred, p);
        if pred(s.last()) {
            assert(s.filter(pred).drop_last() =~= s.drop_last().filter(pred));
        }
    }
}

/// Among the first `n` coordinates of row `y` a coordinate stands once if
/// it is one of them, and else not at all.
proof fn lemma_occurrences_row(dimensions: Dimensions, y: int, n: int, p: Point)
    requires
        0 <= n <= dimensions.width,
        0 <= y <= usize::MAX,
    ensures
        occurrences(row_line(dimensions, y).take(n), p) == if p.y == y && p.x < n {
            1nat
        } else {
            0nat
        },
    decreases n,
{
    let line = row_line(dimensions, y);
    if n > 0 {
        assert(line.take(n).drop_last() =~= line.take(n - 1));
        lemma_occurrences_row(dimensions, y, n - 1, p);
    }
}

/// Among the first `n` coordinates of column `x` a coordinate stands once
/// if it is one of them, and else not at all.
proof fn lemma_occurrences_column(dimensions: Dimensions, x: int, n: int, p: Point)
    requires
        0 <= n <= dimensions.height,
        0 <= x <= usize::MAX,
    ensures
        occurrences(column_line(dimensions, x).take(n), p) == if p.x == x && p.y < n {
            1nat
        } else {
            0nat
        },
    decreases n,
{
    let line = column_line(dimensions, x);
    if n > 0 {
        assert(line.take(n).drop_last() =~= line.take(n - 1));
        lemma_occurrences_column(dimensions, x, n - 1, p);
    }
}

/// The scan lists a coordinate once for each line of the border it stands
/// on, if it is a coordinate of the grid that can be walked on, and else not
/// at all.
pub proof fn lemma_scan_count(nodes: Map<Point, MazeNode>, dimensions: Dimensions, p: Point)
    ensures
        occurrences(border_openings(nodes, dimensions), p) == if dimensions.contains(p)
            && nodes[p].is_passable() {
            lines_through(dimensions, p)
        } else {
            0
        },
{
    let w = dimensions.width as int;
    let h = dimensions.height as int;
    let pred = is_opening(nodes);
    lemma_occurrences_filter(perimeter(dimensions), pred, p);
    if w > 0 && h > 0 {
        let top = row_line(dimensions, 0);
        let bottom = row_line(dimensions, h - 1);
        let left = column_line(dimensions, 0);
        let right = column_line(dimensions, w - 1);
        lemma_occurrences_add(top + bottom + left, right, p);
        lemma_occurrences_add(top + bottom, left, p);
        lemma_occurrences_add(top, bottom, p);
        lemma_occurrences_row(dimensions, 0, w, p);
        lemma_occurrences_row(dimensions, h - 1, w, p);
        lemma_occurrences_column(dimensions, 0, h, p);
        lemma_occurrences_column(dimensions, w - 1, h, p);
        assert(top.take(w) =~= top);
        assert(bottom.take(w) =~= bottom);
        assert(left.take(h) =~= left);
        assert(right.take(h) =~= right);
    }
}

/// On a grid of at least two rows and two columns the scan lists a corner
/// that can be walked on exactly twice.
pub proof fn lemma_corner_listed_twice(nodes: Map<Point, MazeNode>, dimensions: Dimensions, p: Point)
    requires
        dimensions.width >= 2,
        dimensions.height >= 2,
        is_corner(dimensions, p),
        nodes[p].is_passable(),
    ensures
        occurrences(border_openings(nodes, dimensions), p) == 2,
{
    lemma_scan_count(nodes, dimensions, p);
}

impl Maze {
    /// Appends the openings of row `y` to `list`, from left to right.
    fn scan_row(&self, y: usize, list: &mut Vec<Point>) -> (r: Result<(), MazeError>)
        requires
            y < self.spec_dimensions().height,
        ensures
            r is Ok,
            final(list)@ == old(list)@ + row_line(self.spec_dimensions(), y as int).filter(
                is_opening(self@),
            ),
    {
        proof {
            use_type_invariant(self);
        }
        let width: usize = self.dimensions().width as usize;
        let ghost line = row_line(self.spec_dimensions(), y as int);
        let ghost pred = is_opening(self@);
        let mut x: usize = 0;
        proof {
            reveal(Seq::filter);
        }
        while x < width
            invariant
                0 <= x <= width,
                width == self.spec_dimensions().width,
                y < self.spec_dimensions().height,
                self.inv(),
                line == row_line(self.spec_dimensions(), y as int),
                pred == is_opening(self@),
                list@ == old(list)@ + line.take(x as int).filter(pred),
            decreases width - x,
        {
            let current_location = Point { x, y };
            let node = self.node_at(&current_location)?;
            proof {
                lemma_filter_step(line, x as int, pred);
            }
            if node.is_passable() {
                list.push(current_location);
            }
            x += 1;
        }
        proof {
            assert(line.take(width as int) =~= line);
        }
        Ok(())
    }

    /// Appends the openings of column `x` to `list`, from top to bottom.
    fn scan_column(&self, x: usize, list: &mut Vec<Point>) -> (r: Result<(), MazeError>)
        requires
            x < self.spec_dimensions().width,
        ensures
            r is Ok,
            final(list)@ == old(list)@ + column_line(self.spec_dimensions(), x as int).filter(
                is_opening(self@),
            ),
    {
        proof {
            use_type_invariant(self);
        }
        let height: usize = self.dimensions().height as usize;
        let ghost line = column_line(self.spec_dimensions(), x as int);
        let ghost pred = is_opening(self@);
        let mut y: usize = 0;
        proof {
            reveal(Seq::filter);
        }
        while y < height
            invariant
                0 <= y <= height,
                height == self.spec_dimensions().height,
                x < self.spec_dimensions().width,
                self.inv(),
                line == column_line(self.spec_dimensions(), x as int),
                pred == is_opening(self@),
                list@ == old(list)@ + line.take(y as int).filter(pred),
            decreases height - y,
        {
            let current_location = Point { x, y };
            let node = self.node_at(&current_location)?;
            proof {
                lemma_filter_step(line, y as int, pred);
            }
            if node.is_passable() {
                list.push(current_location);
            }
            y += 1;
        }
        proof {
            assert(line.take(height as int) =~= line);
        }
        Ok(())
    }

    /// Looks around the border of the grid and collects the cells that can
    /// be walked on, in scan order: top row, bottom row, left column, right
    /// column. A corner is met twice and listed twice. The first entry is
    /// the start of a walk and the last its end, so a border with fewer than
    /// two entries is refused.
    pub fn find_start(&self) -> (r: Result<PointList, MazeError>)
        ensures
            match r {
                Ok(list) => list@ == border_openings(self@, self.spec_dimensions()) && list.inv(),
                Err(e) => e == MazeError::InsufficientEntrances && border_openings(
                    self@,
                    self.spec_dimensions(),
                ).len() < 2,
            },
    {
        let mut entrance_list: Vec<Point> = Vec::new();
        let width: usize = self.dimensions().width as usize;
        let height: usize = self.dimensions().height as usize;

        if width > 0 && height > 0 {
            let ghost d = self.spec_dimensions();
            let ghost pred = is_opening(self@);
            // top and bottom
            self.scan_row(0, &mut entrance_list)?;
            self.scan_row(height - 1, &mut entrance_list)?;
            // left and right
            self.scan_column(0, &mut entrance_list)?;
            self.scan_column(width - 1, &mut entrance_list)?;
            proof {
                let top = row_line(d, 0);
                let bottom = row_line(d, height - 1);
                let left = column_line(d, 0);
                let right = column_line(d, width - 1);
                Seq::filter_distributes_over_add(top, bottom, pred);
                Seq::filter_distributes_over_add(top + bottom, left, pred);
                Seq::filter_distributes_over_add(top + bottom + left, right, pred);
                assert(entrance_list@ =~= perimeter(d).filter(pred));
            }
        } else {
            proof {
                reveal(Seq::filter);
            }
        }
        if entrance_list.len() < 2 {
            return Err(MazeError::InsufficientEntrances);
        }
        Ok(PointList { points: entrance_list })
    }
}

} // verus!

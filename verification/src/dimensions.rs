//! Grid dimensions and the row-major layout of a grid's cells.

use crate::point::Point;
use vstd::arithmetic::div_mod::{lemma_fundamental_div_mod, lemma_fundamental_div_mod_converse, lemma_mod_pos_bound};
use vstd::prelude::*;
use vstd::set_lib::{lemma_int_range, lemma_map_size, set_int_range};

verus! {

/// The size of a grid in cells.
#[derive(Clone, Copy, Debug, PartialEq, Eq, Structural)]
pub struct Dimensions {
    pub width: u32,
    pub height: u32,
}

impl Dimensions {
    /// The number of cells of the grid.
    pub open spec fn cell_count(self) -> int {
        self.width * self.height
    }

    /// Whether `p` is a coordinate of the grid.
    pub open spec fn contains(self, p: Point) -> bool {
        p.x < self.width && p.y < self.height
    }

    /// The row-major offset of `p` among the cells of the grid.
    pub open spec fn index_of(self, p: Point) -> int {
        p.y * self.width + p.x
    }

    /// The coordinate of the cell at row-major offset `i`.
    pub open spec fn point_at(self, i: int) -> Point {
        Point { y: (i / (self.width as int)) as usize, x: (i % (self.width as int)) as usize }
    }

    /// The coordinates of the grid, as a set.
    pub open spec fn coordinates(self) -> Set<Point> {
        Set::new(|p: Point| self.contains(p))
    }

    /// The offset of a coordinate of the grid lies below the cell count.
    pub proof fn lemma_index_in_range(self, p: Point)
        requires
            self.contains(p),
        ensures
            0 <= self.index_of(p) < self.cell_count(),
    {
        let w = self.width as int;
        let h = self.height as int;
        let x = p.x as int;
        let y = p.y as int;
        assert(0 <= y * w && (y + 1) * w <= h * w && w * h == h * w) by (nonlinear_arith)
            requires
                0 <= y < h,
                0 <= w,
        ;
        assert((y + 1) * w == y * w + w) by (nonlinear_arith);
    }

    /// The offset of a coordinate leads back to the coordinate.
    pub proof fn lemma_point_at_index(self, p: Point)
        requires
            self.contains(p),
        ensures
            self.point_at(self.index_of(p)) == p,
    {
        lemma_fundamental_div_mod_converse(
            self.index_of(p),
            self.width as int,
            p.y as int,
            p.x as int,
        );
    }

    /// An offset below the cell count is the offset of its coordinate, which
    /// lies on the grid.
    pub proof fn lemma_index_of_point(self, i: int)
        requires
            0 <= i < self.cell_count(),
        ensures
            self.contains(self.point_at(i)),
            self.index_of(self.point_at(i)) == i,
            self.point_at(i).x == i % (self.width as int),
            self.point_at(i).y == i / (self.width as int),
    {
        let w = self.width as int;
        let h = self.height as int;
        assert(w > 0) by (nonlinear_arith)
            requires
                0 <= i < w * h,
                0 <= w,
        ;
        lemma_fundamental_div_mod(i, w);
        lemma_mod_pos_bound(i, w);
        let q = i / w;
        let r = i % w;
        assert(0 <= q < h) by (nonlinear_arith)
            requires
                i == w * q + r,
                0 <= r < w,
                0 <= i < w * h,
        ;
        assert(w * q == q * w) by (nonlinear_arith);
    }

    /// Among the coordinates of a grid the row-major order is the order of
    /// the offsets.
    pub proof fn lemma_order_is_index_order(self, p: Point, q: Point)
        requires
            self.contains(p),
            self.contains(q),
        ensures
            p.precedes(q) <==> self.index_of(p) < self.index_of(q),
    {
        let w = self.width as int;
        let (px, py) = (p.x as int, p.y as int);
        let (qx, qy) = (q.x as int, q.y as int);
        if py < qy {
            assert(py * w + w <= qy * w) by (nonlinear_arith)
                requires
                    py + 1 <= qy,
                    0 <= w,
            ;
        } else if qy < py {
            assert(qy * w + w <= py * w) by (nonlinear_arith)
                requires
                    qy + 1 <= py,
                    0 <= w,
            ;
        }
    }

    /// A grid has exactly `width * height` coordinates.
    pub proof fn lemma_coordinate_count(self)
        ensures
            self.coordinates().finite(),
            self.coordinates().len() == self.cell_count(),
    {
        let n = self.cell_count();
        assert(0 <= n) by (nonlinear_arith)
            requires
                n == self.width * self.height,
        ;
        let offsets = set_int_range(0, n);
        let at = |i: int| self.point_at(i);
        lemma_int_range(0, n);
        assert forall|i: int, j: int|
            offsets.contains(i) && offsets.contains(j) && #[trigger] at(i) == #[trigger] at(
                j,
            ) implies i == j by {
            self.lemma_index_of_point(i);
            self.lemma_index_of_point(j);
        }
        assert forall|p: Point| offsets.map(at).contains(p) == self.coordinates().contains(p) by {
            if offsets.map(at).contains(p) {
                let i = choose|i: int| offsets.contains(i) && p == at(i);
                self.lemma_index_of_point(i);
            }
            if self.contains(p) {
                self.lemma_index_in_range(p);
                self.lemma_point_at_index(p);
                assert(offsets.contains(self.index_of(p)) && p == at(self.index_of(p)));
            }
        }
        assert(offsets.map(at) =~= self.coordinates());
        lemma_map_size(offsets, self.coordinates(), at);
    }
}

} // verus!

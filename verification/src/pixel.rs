//! Classifying the bytes of a raster into the cells of a grid.

use crate::dimensions::Dimensions;
use crate::error::MazeError;
use crate::node::{Connectors, MazeNode};
use crate::point::{Direction, Point};
use vstd::prelude::*;

verus! {

/// One cell of the raster: its four channels and its coordinate.
#[derive(Clone, Copy, Debug, PartialEq, Eq, Structural)]
pub struct Pixel {
    pub red: u8,
    pub green: u8,
    pub blue: u8,
    pub alpha: u8,
    pub point: Point,
}

impl Default for Pixel {
    fn default() -> (pixel: Pixel)
        ensures
            pixel == (Pixel { red: 0, green: 0, blue: 0, alpha: 0, point: Point { y: 0, x: 0 } }),
    {
        Pixel { red: 0, green: 0, blue: 0, alpha: 0, point: Point { y: 0, x: 0 } }
    }
}

impl Pixel {
    /// A cell can be walked on where one of its colour channels is not
    /// zero. The alpha channel plays no part.
    pub open spec fn spec_passable(&self) -> bool {
        self.red > 0 || self.green > 0 || self.blue > 0
    }

    /// Whether the cell can be walked on.
    #[verifier::when_used_as_spec(spec_passable)]
    pub fn passable(&self) -> (r: bool)
        ensures
            r == self.spec_passable(),
    {
        if self.red > 0 || self.green > 0 || self.blue > 0 {
            return true;
        }
        false
    }
}

/// The cell that the `i`-th group of four bytes stands for: red, green, blue
/// and alpha in that order, at the coordinate of row-major offset `i`.
pub open spec fn cell_of(bytes: Seq<u8>, dimensions: Dimensions, i: int) -> Pixel {
    Pixel {
        red: bytes[4 * i],
        green: bytes[4 * i + 1],
        blue: bytes[4 * i + 2],
        alpha: bytes[4 * i + 3],
        point: dimensions.point_at(i),
    }
}

/// The cells that a buffer of four-channel bytes stands for, in row-major
/// order.
pub open spec fn classify(bytes: Seq<u8>, dimensions: Dimensions) -> Seq<Pixel> {
    Seq::new((bytes.len() / 4) as nat, |i: int| cell_of(bytes, dimensions, i))
}

/// Whether `p` is a coordinate of the grid whose cell can be walked on.
pub open spec fn passable_at(cells: Seq<Pixel>, dimensions: Dimensions, p: Point) -> bool {
    dimensions.contains(p) && cells[dimensions.index_of(p)].passable()
}

/// The link from `p` in direction `d` as the cells alone decide it: the
/// neighbour in that direction, if it lies on the grid and can be walked on.
pub open spec fn passable_neighbour(
    cells: Seq<Pixel>,
    dimensions: Dimensions,
    p: Point,
    d: Direction,
) -> Option<Point> {
    match p.neighbour(d) {
        Some(q) => if passable_at(cells, dimensions, q) {
            Some(q)
        } else {
            None
        },
        None => None,
    }
}

/// The links from `p` to the neighbours that can be walked on, in a node
/// that is itself not yet marked passable.
pub open spec fn passable_neighbours(cells: Seq<Pixel>, dimensions: Dimensions, p: Point) -> MazeNode {
    MazeNode {
        connections: Connectors {
            north: passable_neighbour(cells, dimensions, p, Direction::North),
            east: passable_neighbour(cells, dimensions, p, Direction::East),
            south: passable_neighbour(cells, dimensions, p, Direction::South),
            west: passable_neighbour(cells, dimensions, p, Direction::West),
        },
        passable: 0,
    }
}

/// The classified cells of a raster, in row-major order, with the dimensions
/// of the raster.
#[derive(Debug)]
pub struct PixelList {
    list: Vec<Pixel>,
    dimensions: Dimensions,
}

impl View for PixelList {
    type V = Seq<Pixel>;

    closed spec fn view(&self) -> Seq<Pixel> {
        self.list@
    }
}

impl PixelList {
    /// The dimensions of the raster.
    pub closed spec fn spec_dimensions(&self) -> Dimensions {
        self.dimensions
    }

    /// A list holds one cell for every coordinate of its dimensions, each
    /// at the row-major offset of its coordinate.
    #[verifier::type_invariant]
    pub open spec fn inv(&self) -> bool {
        &&& self@.len() == self.spec_dimensions().cell_count()
        &&& forall|i: int|
            0 <= i < self@.len() ==> (#[trigger] self@[i]).point == self.spec_dimensions().point_at(
                i,
            )
    }

    /// Classifies a buffer of interleaved red, green, blue and alpha bytes,
    /// four for each cell in row-major order. A buffer that does not hold
    /// exactly four bytes for every cell of `dimensions` is malformed.
    pub fn new(array: &[u8], dimensions: Dimensions) -> (r: Result<PixelList, MazeError>)
        ensures
            match r {
                Ok(list) => {
                    &&& array@.len() == 4 * dimensions.cell_count()
                    &&& list.spec_dimensions() == dimensions
                    &&& list@ == classify(array@, dimensions)
                    &&& list.inv()
                },
                Err(e) => {
                    &&& e == MazeError::MalformedInput
                    &&& (array@.len() % 4 != 0 || array@.len() != 4 * dimensions.cell_count())
                },
            },
    {
        let width = dimensions.width as u128;
        let height = dimensions.height as u128;
        assert(width * height <= 0xffff_ffff * 0xffff_ffff) by (nonlinear_arith)
            requires
                0 <= width <= 0xffff_ffff,
                0 <= height <= 0xffff_ffff,
        ;
        let cells: u128 = width * height;
        if array.len() as u128 != 4 * cells {
            return Err(MazeError::MalformedInput);
        }
        let count: usize = array.len() / 4;
        let line_size: usize = dimensions.width as usize;
        let mut pixel_list: Vec<Pixel> = Vec::with_capacity(count);
        let mut i: usize = 0;
        while i < count
            invariant
                0 <= i <= count,
                count == dimensions.cell_count(),
                array@.len() == 4 * count,
                4 * count <= usize::MAX,
                line_size == dimensions.width,
                pixel_list@.len() == i,
                forall|j: int| 0 <= j < i ==> #[trigger] pixel_list@[j] == cell_of(array@, dimensions, j),
            decreases count - i,
        {
            proof {
                dimensions.lemma_index_of_point(i as int);
            }
            let pixel = Pixel {
                red: array[4 * i],
                green: array[4 * i + 1],
                blue: array[4 * i + 2],
                alpha: array[4 * i + 3],
                point: Point { x: i % line_size, y: i / line_size },
            };
            pixel_list.push(pixel);
            i += 1;
        }
        Ok(PixelList { dimensions, list: pixel_list })
    }

    /// The dimensions of the raster.
    pub fn dimensions(&self) -> (d: Dimensions)
        ensures
            d == self.spec_dimensions(),
    {
        self.dimensions
    }

    /// The cells, in row-major order.
    pub fn cells(&self) -> (cells: &[Pixel])
        ensures
            cells@ == self@,
    {
        self.list.as_slice()
    }

    /// The row-major offset of `point`; a coordinate off the grid has none.
    pub fn to_index(&self, point: &Point) -> (r: Result<usize, MazeError>)
        ensures
            match r {
                Ok(i) => self.spec_dimensions().contains(*point) && i == self.spec_dimensions().index_of(
                    *point,
                ),
                Err(e) => e == MazeError::GridIndexMissing && !self.spec_dimensions().contains(*point),
            },
    {
        let width: usize = self.dimensions.width as usize;
        let height: usize = self.dimensions.height as usize;
        if point.x >= width || point.y >= height {
            return Err(MazeError::GridIndexMissing);
        }
        proof {
            use_type_invariant(self);
            self.dimensions.lemma_index_in_range(*point);
            assert(0 <= point.y * width) by (nonlinear_arith)
                requires
                    0 <= point.y,
                    0 <= width,
            ;
            assert(point.y * width + point.x < self.list.len());
        }
        Ok(point.y * width + point.x)
    }

    /// The cell at `point`; a coordinate off the grid has none.
    pub fn get_point(&self, point: &Point) -> (r: Result<&Pixel, MazeError>)
        ensures
            match r {
                Ok(pixel) => self.spec_dimensions().contains(*point) && *pixel
                    == self@[self.spec_dimensions().index_of(*point)],
                Err(e) => e == MazeError::GridIndexMissing && !self.spec_dimensions().contains(*point),
            },
    {
        proof {
            use_type_invariant(self);
        }
        match self.to_index(point) {
            Ok(index) => {
                proof {
                    self.dimensions.lemma_index_in_range(*point);
                }
                Ok(&self.list[index])
            },
            Err(e) => Err(e),
        }
    }

    /// Whether the cell at `point` can be walked on; a coordinate off the
    /// grid has no cell.
    pub fn is_passable(&self, point: &Point) -> (r: Result<bool, MazeError>)
        ensures
            match r {
                Ok(b) => self.spec_dimensions().contains(*point) && b == passable_at(
                    self@,
                    self.spec_dimensions(),
                    *point,
                ),
                Err(e) => e == MazeError::GridIndexMissing && !self.spec_dimensions().contains(*point),
            },
    {
        match self.get_point(point) {
            Ok(pixel) => Ok(pixel.passable()),
            Err(e) => Err(e),
        }
    }

    /// The links from `point` to those of its four neighbours that lie on
    /// the grid and can be walked on, in a node that is itself not yet
    /// marked passable. Whether the cell at `point` can be walked on plays
    /// no part. A coordinate off the grid has no neighbours to link.
    pub fn get_passable_neighbours(&self, point: &Point) -> (r: Result<MazeNode, MazeError>)
        ensures
            match r {
                Ok(node) => self.spec_dimensions().contains(*point) && node == passable_neighbours(
                    self@,
                    self.spec_dimensions(),
                    *point,
                ),
                Err(e) => e == MazeError::GridIndexMissing && !self.spec_dimensions().contains(*point),
            },
    {
        let width: usize = self.dimensions.width as usize;
        let height: usize = self.dimensions.height as usize;
        if point.x >= width || point.y >= height {
            return Err(MazeError::GridIndexMissing);
        }
        let mut node_update = MazeNode::new();

        if point.y > 0 {
            let north_point = Point { x: point.x, y: point.y - 1 };

            if let Ok(true) = self.is_passable(&north_point) {
                node_update.connections.north = Some(north_point);
            }
        }
        if point.y + 1 < height {
            let south_point = Point { x: point.x, y: point.y + 1 };

            if let Ok(true) = self.is_passable(&south_point) {
                node_update.connections.south = Some(south_point);
            }
        }
        if point.x > 0 {
            let west_point = Point { x: point.x - 1, y: point.y };

            if let Ok(true) = self.is_passable(&west_point) {
                node_update.connections.west = Some(west_point);
            }
        }
        if point.x + 1 < width {
            let east_point = Point { x: point.x + 1, y: point.y };

            if let Ok(true) = self.is_passable(&east_point) {
                node_update.connections.east = Some(east_point);
            }
        }
        Ok(node_update)
    }
}

} // verus!

//! The grid graph: one node for every cell, linked to the neighbours it can
//! be left for.

use crate::dimensions::Dimensions;
use crate::error::MazeError;
use crate::node::{Connectors, MazeNode};
use crate::path::{is_edge, step_rank};
use crate::pixel::{passable_neighbours, Pixel, PixelList};
use crate::point::{Direction, Point};
use vstd::prelude::*;

verus! {

/// The node that the grid graph holds for the coordinate `p` of a grid of
/// `cells`: a blocked node for a blocked cell, and for a cell that can be
/// walked on a passable node linked to the neighbours that can be walked on
/// as well.
pub open spec fn built_node(cells: Seq<Pixel>, dimensions: Dimensions, p: Point) -> MazeNode {
    if cells[dimensions.index_of(p)].passable() {
        MazeNode { connections: passable_neighbours(cells, dimensions, p).connections, passable: 1 }
    } else {
        MazeNode::blocked()
    }
}

/// The grid graph of a grid of `cells`: the node of every coordinate.
pub open spec fn built_graph(cells: Seq<Pixel>, dimensions: Dimensions) -> Map<Point, MazeNode> {
    Map::new(|p: Point| dimensions.contains(p), |p: Point| built_node(cells, dimensions, p))
}

/// The link that a well-formed graph holds at `p` in direction `d`: the
/// neighbour in that direction, if it lies on the grid and both ends can be
/// walked on.
pub open spec fn link(
    nodes: Map<Point, MazeNode>,
    dimensions: Dimensions,
    p: Point,
    d: Direction,
) -> Option<Point> {
    match p.neighbour(d) {
        Some(q) => if nodes[p].is_passable() && dimensions.contains(q) && nodes[q].is_passable() {
            Some(q)
        } else {
            None
        },
        None => None,
    }
}

/// A graph is well formed for its dimensions where it holds a node for
/// every coordinate of the grid and for no other, and every slot of every
/// node holds the link that the passability of both ends asks for.
pub open spec fn graph_wf(nodes: Map<Point, MazeNode>, dimensions: Dimensions) -> bool {
    &&& forall|p: Point| #[trigger] nodes.dom().contains(p) <==> dimensions.contains(p)
    &&& forall|p: Point, d: Direction|
        dimensions.contains(p) ==> #[trigger] nodes[p].connections.get(d) == link(
            nodes,
            dimensions,
            p,
            d,
        )
}

/// A well-formed graph holds one node for each coordinate of the grid and
/// no other: `width * height` nodes in all.
pub proof fn lemma_node_count(nodes: Map<Point, MazeNode>, dimensions: Dimensions)
    requires
        graph_wf(nodes, dimensions),
    ensures
        nodes.dom() == dimensions.coordinates(),
        nodes.dom().finite(),
        nodes.dom().len() == dimensions.cell_count(),
{
    assert(nodes.dom() =~= dimensions.coordinates());
    dimensions.lemma_coordinate_count();
}

/// In a well-formed graph a filled slot holds the neighbour in the direction
/// of the slot; that neighbour lies on the grid, and both ends can be walked
/// on.
pub proof fn lemma_link_target(
    nodes: Map<Point, MazeNode>,
    dimensions: Dimensions,
    a: Point,
    d: Direction,
)
    requires
        graph_wf(nodes, dimensions),
        dimensions.contains(a),
        nodes[a].connections.get(d) is Some,
    ensures
        a.neighbour(d) == nodes[a].connections.get(d),
        dimensions.contains(nodes[a].connections.get(d)->0),
        nodes[a].is_passable(),
        nodes[nodes[a].connections.get(d)->0].is_passable(),
        step_rank(a, nodes[a].connections.get(d)->0) == d.rank(),
{
    assert(nodes[a].connections.get(d) == link(nodes, dimensions, a, d));
}

/// Two cardinal neighbours on the grid are linked exactly where both can be
/// walked on.
pub proof fn lemma_linked_iff_both_passable(
    nodes: Map<Point, MazeNode>,
    dimensions: Dimensions,
    a: Point,
    b: Point,
)
    requires
        graph_wf(nodes, dimensions),
        dimensions.contains(a),
        dimensions.contains(b),
        a.is_cardinal_neighbour(b),
    ensures
        nodes[a].connects_to(b) <==> nodes[a].is_passable() && nodes[b].is_passable(),
{
    let d = choose|d: Direction| a.neighbour(d) == Some(b);
    assert(nodes[a].connections.get(d) == link(nodes, dimensions, a, d));
    if nodes[a].connects_to(b) {
        let e = choose|e: Direction| nodes[a].connections.get(e) == Some(b);
        lemma_link_target(nodes, dimensions, a, e);
    }
}

/// Links go both ways: `a` is linked to `b` exactly where `b` is linked to
/// `a`.
pub proof fn lemma_links_symmetric(
    nodes: Map<Point, MazeNode>,
    dimensions: Dimensions,
    a: Point,
    b: Point,
)
    requires
        graph_wf(nodes, dimensions),
    ensures
        is_edge(nodes, a, b) <==> is_edge(nodes, b, a),
{
    if is_edge(nodes, a, b) {
        lemma_one_way_back(nodes, dimensions, a, b);
    }
    if is_edge(nodes, b, a) {
        lemma_one_way_back(nodes, dimensions, b, a);
    }
}

/// A link from `a` to `b` has a link from `b` to `a` beside it.
proof fn lemma_one_way_back(nodes: Map<Point, MazeNode>, dimensions: Dimensions, a: Point, b: Point)
    requires
        graph_wf(nodes, dimensions),
        is_edge(nodes, a, b),
    ensures
        is_edge(nodes, b, a),
{
    let d = choose|d: Direction| nodes[a].connections.get(d) == Some(b);
    lemma_link_target(nodes, dimensions, a, d);
    let back = match d {
        Direction::North => Direction::South,
        Direction::East => Direction::West,
        Direction::South => Direction::North,
        Direction::West => Direction::East,
    };
    assert(b.neighbour(back) == Some(a));
    assert(nodes[b].connections.get(back) == link(nodes, dimensions, b, back));
}

/// A grid of nodes with its dimensions.
#[derive(Debug)]
pub struct Maze {
    dimensions: Dimensions,
    nodes: Vec<MazeNode>,
}

impl View for Maze {
    type V = Map<Point, MazeNode>;

    /// The node of every coordinate that the grid holds.
    closed spec fn view(&self) -> Map<Point, MazeNode> {
        Map::new(
            |p: Point| self.dimensions.contains(p) && self.dimensions.index_of(p) < self.nodes@.len(),
            |p: Point| self.nodes@[self.dimensions.index_of(p)],
        )
    }
}

impl Maze {
    /// The dimensions of the grid.
    pub closed spec fn spec_dimensions(&self) -> Dimensions {
        self.dimensions
    }

    /// Every maze holds a well-formed graph.
    #[verifier::type_invariant]
    pub open spec fn inv(&self) -> bool {
        graph_wf(self@, self.spec_dimensions())
    }

    /// Builds the grid graph of the cells of `pixel_list`. The dimensions
    /// handed in must be those of the list: any others would leave
    /// coordinates without a cell, or cells without a coordinate.
    pub fn new(dimensions: Dimensions, pixel_list: &PixelList) -> (r: Result<Maze, MazeError>)
        ensures
            match r {
                Ok(maze) => {
                    &&& dimensions == pixel_list.spec_dimensions()
                    &&& maze.spec_dimensions() == dimensions
                    &&& maze@ == built_graph(pixel_list@, dimensions)
                    &&& maze.inv()
                },
                Err(e) => e == MazeError::GridIndexMissing && dimensions
                    != pixel_list.spec_dimensions(),
            },
    {
        let listed = pixel_list.dimensions();
        if dimensions.width != listed.width || dimensions.height != listed.height {
            return Err(MazeError::GridIndexMissing);
        }
        proof {
            use_type_invariant(pixel_list);
        }
        let cells = pixel_list.cells();
        let mut nodes: Vec<MazeNode> = Vec::with_capacity(cells.len());
        let mut i: usize = 0;
        while i < cells.len()
            invariant
                0 <= i <= cells@.len(),
                cells@ == pixel_list@,
                pixel_list.inv(),
                dimensions == pixel_list.spec_dimensions(),
                nodes@.len() == i,
                forall|j: int|
                    0 <= j < i ==> #[trigger] nodes@[j] == built_node(
                        pixel_list@,
                        dimensions,
                        dimensions.point_at(j),
                    ),
            decreases cells@.len() - i,
        {
            let pixel = &cells[i];
            let point = pixel.point;
            proof {
                dimensions.lemma_index_of_point(i as int);
            }
            let mut node = MazeNode {
                connections: Connectors::new(),
                passable: Maze::get_from_bool(pixel.passable()),
            };
            if pixel.passable() {
                node = pixel_list.get_passable_neighbours(&point)?;
                node.passable = 1;
            }
            nodes.push(node);
            i += 1;
        }
        proof {
            let maze = Maze { dimensions, nodes };
            assert forall|p: Point| dimensions.contains(p) implies maze@.dom().contains(p)
                && maze@[p] == built_node(pixel_list@, dimensions, p) by {
                dimensions.lemma_index_in_range(p);
                dimensions.lemma_point_at_index(p);
            }
            assert(maze@ =~= built_graph(pixel_list@, dimensions));
            assert forall|p: Point, d: Direction| dimensions.contains(p) implies (
            #[trigger] maze@[p].connections.get(d)) == link(maze@, dimensions, p, d) by {
                match p.neighbour(d) {
                    Some(q) => {
                        if dimensions.contains(q) {
                            assert(maze@[q] == built_node(pixel_list@, dimensions, q));
                        }
                    },
                    None => {},
                }
            }
        }
        Ok(Maze { dimensions, nodes })
    }

    /// The passability flag of a node: 1 for a cell that can be walked on,
    /// 0 for one that cannot.
    pub fn get_from_bool(x: bool) -> (flag: u8)
        ensures
            flag == (if x {
                1u8
            } else {
                0u8
            }),
    {
        match x {
            true => 1,
            false => 0,
        }
    }

    /// The dimensions of the grid.
    pub fn dimensions(&self) -> (d: Dimensions)
        ensures
            d == self.spec_dimensions(),
    {
        self.dimensions
    }

    /// The node at `point`; a coordinate off the grid has none.
    pub fn node_at(&self, point: &Point) -> (r: Result<&MazeNode, MazeError>)
        ensures
            match r {
                Ok(node) => self@.dom().contains(*point) && *node == self@[*point],
                Err(e) => e == MazeError::GridIndexMissing && !self@.dom().contains(*point),
            },
    {
        let width: usize = self.dimensions.width as usize;
        let height: usize = self.dimensions.height as usize;
        if point.x >= width || point.y >= height {
            return Err(MazeError::GridIndexMissing);
        }
        proof {
            use_type_invariant(self);
            assert(self@.dom().contains(*point));
            assert(0 <= point.y * width) by (nonlinear_arith)
                requires
                    0 <= point.y,
                    0 <= width,
            ;
            assert(point.y * width + point.x < self.nodes.len());
        }
        Ok(&self.nodes[point.y * width + point.x])
    }
}

} // verus!

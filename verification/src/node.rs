//! The nodes of the grid graph.

use crate::point::{Direction, Point};
use vstd::prelude::*;

verus! {

/// The neighbours that a node is linked to, one slot for each direction.
#[derive(Clone, Copy, Debug)]
pub struct Connectors {
    pub north: Option<Point>,
    pub east: Option<Point>,
    pub south: Option<Point>,
    pub west: Option<Point>,
}

/// A slot as a sequence: its coordinate, or nothing.
pub open spec fn slot_seq(slot: Option<Point>) -> Seq<Point> {
    match slot {
        Some(p) => seq![p],
        None => Seq::empty(),
    }
}

impl Connectors {
    /// Connectors with every slot empty.
    pub fn new() -> (c: Connectors)
        ensures
            c.north is None,
            c.east is None,
            c.south is None,
            c.west is None,
    {
        Connectors { north: None, south: None, east: None, west: None }
    }

    /// The slot for direction `d`.
    pub open spec fn get(self, d: Direction) -> Option<Point> {
        match d {
            Direction::North => self.north,
            Direction::East => self.east,
            Direction::South => self.south,
            Direction::West => self.west,
        }
    }

    /// The number of filled slots whose direction takes precedence over `d`.
    pub open spec fn filled_before(self, d: Direction) -> int {
        let north: int = if self.north is Some {
            1
        } else {
            0
        };
        let east: int = if self.east is Some {
            1
        } else {
            0
        };
        let south: int = if self.south is Some {
            1
        } else {
            0
        };
        match d {
            Direction::North => 0,
            Direction::East => north,
            Direction::South => north + east,
            Direction::West => north + east + south,
        }
    }
}

/// What the grid graph records for one coordinate: whether the cell can be
/// walked on, and the neighbours it is linked to.
#[derive(Clone, Copy, Debug)]
pub struct MazeNode {
    pub connections: Connectors,
    pub passable: u8,
}

impl Default for MazeNode {
    fn default() -> (node: MazeNode)
        ensures
            node == MazeNode::blocked(),
    {
        MazeNode::new()
    }
}

impl MazeNode {
    /// The node of a blocked cell: not passable, linked to nothing.
    pub open spec fn blocked() -> MazeNode {
        MazeNode {
            connections: Connectors { north: None, east: None, south: None, west: None },
            passable: 0,
        }
    }

    /// A node that is not passable and linked to nothing.
    pub fn new() -> (node: MazeNode)
        ensures
            node == MazeNode::blocked(),
    {
        MazeNode { connections: Connectors::new(), passable: 0 }
    }

    /// Whether the cell of this node can be walked on.
    pub open spec fn spec_is_passable(&self) -> bool {
        self.passable != 0
    }

    /// Whether the cell of this node can be walked on.
    #[verifier::when_used_as_spec(spec_is_passable)]
    pub fn is_passable(&self) -> (r: bool)
        ensures
            r == self.spec_is_passable(),
    {
        if self.passable == 0 {
            return false;
        }
        true
    }

    /// The neighbours this node is linked to, in the order north, east,
    /// south, west.
    pub open spec fn spec_connections(&self) -> Seq<Point> {
        slot_seq(self.connections.north) + slot_seq(self.connections.east) + slot_seq(
            self.connections.south,
        ) + slot_seq(self.connections.west)
    }

    /// Whether this node is linked to `p`.
    pub open spec fn connects_to(&self, p: Point) -> bool {
        exists|d: Direction| self.connections.get(d) == Some(p)
    }

    /// The list of links holds the filled slots, and holds them in the
    /// order of precedence of their directions: a filled slot stands at the
    /// index that counts the filled slots before it, and every entry of the
    /// list is such a slot.
    pub proof fn lemma_connections_order(&self)
        ensures
            forall|d: Direction| #[trigger]
                self.connections.get(d) is Some ==> {
                    &&& 0 <= self.connections.filled_before(d) < self.spec_connections().len()
                    &&& self.spec_connections()[self.connections.filled_before(d)]
                        == self.connections.get(d)->0
                },
            forall|i: int|
                0 <= i < self.spec_connections().len() ==> exists|d: Direction|
                    self.connections.get(d) == Some(#[trigger] self.spec_connections()[i])
                        && self.connections.filled_before(d) == i,
            forall|d: Direction, e: Direction|
                d.rank() < e.rank() && self.connections.get(d) is Some
                    ==> #[trigger] self.connections.filled_before(d)
                    < #[trigger] self.connections.filled_before(e),
    {
        let c = self.connections;
        let list = self.spec_connections();
        let (n, e, s, w) = (slot_seq(c.north), slot_seq(c.east), slot_seq(c.south), slot_seq(c.west));
        assert(list == n + e + s + w);
        assert forall|d: Direction| #[trigger] c.get(d) is Some implies 0 <= c.filled_before(d)
            < list.len() && list[c.filled_before(d)] == c.get(d)->0 by {
            match d {
                Direction::North => {},
                Direction::East => {},
                Direction::South => {},
                Direction::West => {},
            }
        }
        assert forall|i: int| 0 <= i < list.len() implies exists|d: Direction|
            c.get(d) == Some(#[trigger] list[i]) && c.filled_before(d) == i by {
            if i < n.len() {
                assert(c.get(Direction::North) == Some(list[i]));
            } else if i < n.len() + e.len() {
                assert(c.get(Direction::East) == Some(list[i]));
            } else if i < n.len() + e.len() + s.len() {
                assert(c.get(Direction::South) == Some(list[i]));
            } else {
                assert(c.get(Direction::West) == Some(list[i]));
            }
        }
    }

    /// The neighbours this node is linked to, in the order north, east,
    /// south, west; `None` where it is linked to nothing.
    pub fn get_connections(&self) -> (r: Option<Vec<Point>>)
        ensures
            match r {
                Some(v) => v@ == self.spec_connections() && v@.len() > 0,
                None => self.spec_connections().len() == 0,
            },
    {
        let mut connections: Vec<Point> = Vec::with_capacity(4);
        if let Some(node) = self.connections.north {
            connections.push(node);
        }
        if let Some(node) = self.connections.east {
            connections.push(node);
        }
        if let Some(node) = self.connections.south {
            connections.push(node);
        }
        if let Some(node) = self.connections.west {
            connections.push(node);
        }
        if !connections.is_empty() {
            Some(connections)
        } else {
            None
        }
    }
}

} // verus!

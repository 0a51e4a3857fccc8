//! The path of a walk, and what makes a sequence of coordinates a route.

use crate::decimal::{decimal, decimal_text};
use crate::node::MazeNode;
use crate::point::{Direction, Point};
use vstd::prelude::*;

verus! {

/// A coordinate as text, with a space after it.
pub open spec fn point_text(p: Point) -> Seq<char> {
    "Point { x: "@ + decimal(p.x as nat) + ", y: "@ + decimal(p.y as nat) + " } "@
}

/// The coordinates of a path as text, one after the other.
pub open spec fn path_text(path: Seq<Point>) -> Seq<char>
    decreases path.len(),
{
    if path.len() == 0 {
        Seq::empty()
    } else {
        path_text(path.drop_last()) + point_text(path.last())
    }
}

/// The coordinates of a walk, from its start to where it stands. While the
/// walk goes on, the path is also the stack to retreat along.
#[derive(Clone, Debug)]
pub struct Path {
    path: Vec<Point>,
}

impl View for Path {
    type V = Seq<Point>;

    closed spec fn view(&self) -> Seq<Point> {
        self.path@
    }
}

impl Path {
    /// The empty path.
    pub fn new() -> (path: Path)
        ensures
            path@ == Seq::<Point>::empty(),
    {
        Path { path: Vec::new() }
    }

    /// Extends the path by `point`.
    pub fn push(&mut self, point: &Point)
        ensures
            final(self)@ == old(self)@.push(*point),
    {
        self.path.push(*point);
    }

    /// Takes the most recent coordinate off the path and hands it back; an
    /// empty path stays as it is.
    pub fn pop(&mut self) -> (r: Option<Point>)
        ensures
            match r {
                Some(p) => old(self)@.len() > 0 && p == old(self)@.last() && final(self)@ == old(
                    self,
                )@.drop_last(),
                None => old(self)@.len() == 0 && final(self)@ == old(self)@,
            },
    {
        self.path.pop()
    }

    /// The most recent coordinate of the path, if there is one.
    pub fn tail(&self) -> (r: Option<Point>)
        ensures
            match r {
                Some(p) => self@.len() > 0 && p == self@.last(),
                None => self@.len() == 0,
            },
    {
        if self.path.len() == 0 {
            None
        } else {
            Some(self.path[self.path.len() - 1])
        }
    }

    /// The path as one line of text: every coordinate with a space after
    /// it, then a line feed.
    pub fn print(&self) -> (text: String)
        ensures
            text@ == path_text(self@) + "\n"@,
    {
        let mut text = String::new();
        let mut i: usize = 0;
        while i < self.path.len()
            invariant
                0 <= i <= self.path@.len(),
                text@ == path_text(self.path@.take(i as int)),
            decreases self.path@.len() - i,
        {
            let node = self.path[i];
            proof {
                assert(self.path@.take(i + 1).drop_last() =~= self.path@.take(i as int));
            }
            text.append("Point { x: ");
            text.append(decimal_text(node.x as u64).as_str());
            text.append(", y: ");
            text.append(decimal_text(node.y as u64).as_str());
            text.append(" } ");
            i += 1;
        }
        proof {
            assert(self.path@.take(i as int) =~= self.path@);
        }
        text.append("\n");
        text
    }

    /// The coordinates of the path, from its start.
    pub fn points(&self) -> (points: &[Point])
        ensures
            points@ == self@,
    {
        self.path.as_slice()
    }
}

/// Whether the graph links `a` to `b`.
pub open spec fn is_edge(nodes: Map<Point, MazeNode>, a: Point, b: Point) -> bool {
    nodes.dom().contains(a) && nodes[a].connects_to(b)
}

/// Whether the step of `walk` that arrives at index `i` follows a link of
/// the graph.
pub open spec fn step_ok(nodes: Map<Point, MazeNode>, walk: Seq<Point>, i: int) -> bool {
    is_edge(nodes, walk[i - 1], walk[i])
}

/// A walk is a sequence of coordinates that begins on the grid and goes on
/// along links of the graph.
pub open spec fn is_walk(nodes: Map<Point, MazeNode>, walk: Seq<Point>) -> bool {
    &&& walk.len() > 0
    &&& nodes.dom().contains(walk[0])
    &&& forall|i: int| 0 < i < walk.len() ==> #[trigger] step_ok(nodes, walk, i)
}

/// A walk from `start` to `end`.
pub open spec fn is_walk_between(
    nodes: Map<Point, MazeNode>,
    walk: Seq<Point>,
    start: Point,
    end: Point,
) -> bool {
    is_walk(nodes, walk) && walk.first() == start && walk.last() == end
}

/// A route is a walk from `start` to `end` that visits no coordinate twice.
pub open spec fn is_route(
    nodes: Map<Point, MazeNode>,
    route: Seq<Point>,
    start: Point,
    end: Point,
) -> bool {
    is_walk_between(nodes, route, start, end) && route.no_duplicates()
}

/// The place in the order of precedence of the direction that leads from
/// `a` to its neighbour `b`.
pub open spec fn step_rank(a: Point, b: Point) -> int {
    if a.neighbour(Direction::North) == Some(b) {
        0
    } else if a.neighbour(Direction::East) == Some(b) {
        1
    } else if a.neighbour(Direction::South) == Some(b) {
        2
    } else {
        3
    }
}

/// Whether `s` comes before `t` in the order of the walk: where the two
/// part, `s` takes the direction of higher precedence.
pub open spec fn walk_precedes(s: Seq<Point>, t: Seq<Point>) -> bool {
    exists|k: int|
        0 < k < s.len() && k < t.len() && #[trigger] s.take(k) == t.take(k) && step_rank(
            s[k - 1],
            s[k],
        ) < step_rank(t[k - 1], t[k])
}

/// The first route from `start` to `end`: a route that comes before every
/// other route between the two.
pub open spec fn is_first_route(
    nodes: Map<Point, MazeNode>,
    route: Seq<Point>,
    start: Point,
    end: Point,
) -> bool {
    &&& is_route(nodes, route, start, end)
    &&& forall|other: Seq<Point>|
        #[trigger] is_route(nodes, other, start, end) && other != route ==> walk_precedes(
            route,
            other,
        )
}

/// Where two sequences that agree at first part, they part at one place
/// only.
proof fn lemma_parting_is_single(s: Seq<Point>, t: Seq<Point>, j: int, k: int)
    requires
        0 < j < s.len(),
        j < t.len(),
        0 < k < s.len(),
        k < t.len(),
        s.take(j) == t.take(j),
        s.take(k) == t.take(k),
        s[j] != t[j],
        s[k] != t[k],
    ensures
        j == k,
{
    if j < k {
        assert(s.take(k)[j] == s[j]);
        assert(t.take(k)[j] == t[j]);
    } else if k < j {
        assert(s.take(j)[k] == s[k]);
        assert(t.take(j)[k] == t[k]);
    }
}

/// Two coordinates have one first route between them at most.
pub proof fn lemma_first_route_unique(
    nodes: Map<Point, MazeNode>,
    s: Seq<Point>,
    t: Seq<Point>,
    start: Point,
    end: Point,
)
    requires
        is_first_route(nodes, s, start, end),
        is_first_route(nodes, t, start, end),
    ensures
        s == t,
{
    if s != t {
        assert(walk_precedes(s, t));
        assert(walk_precedes(t, s));
        let j = choose|j: int|
            0 < j < s.len() && j < t.len() && #[trigger] s.take(j) == t.take(j) && step_rank(
                s[j - 1],
                s[j],
            ) < step_rank(t[j - 1], t[j]);
        let k = choose|k: int|
            0 < k < t.len() && k < s.len() && #[trigger] t.take(k) == s.take(k) && step_rank(
                t[k - 1],
                t[k],
            ) < step_rank(s[k - 1], s[k]);
        assert(s.take(j)[j - 1] == s[j - 1] && t.take(j)[j - 1] == t[j - 1]);
        assert(s.take(k)[k - 1] == s[k - 1] && t.take(k)[k - 1] == t[k - 1]);
        lemma_parting_is_single(s, t, j, k);
    }
}

/// Whether some walk leads from `start` to `end`.
pub open spec fn reachable(nodes: Map<Point, MazeNode>, start: Point, end: Point) -> bool {
    exists|walk: Seq<Point>| #[trigger] is_walk_between(nodes, walk, start, end)
}

} // verus!

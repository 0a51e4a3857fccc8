//! The walk itself: depth first, with backtracking, trying the neighbours
//! of a cell in the order north, east, south, west.

use crate::dimensions::Dimensions;
use crate::error::MazeError;
use crate::maze::{graph_wf, lemma_link_target, Maze};
use crate::node::MazeNode;
use crate::path::{
    is_first_route, is_route, is_walk_between, reachable, step_ok, step_rank, walk_precedes, Path,
};
use crate::point::{Direction, Point};
use vstd::prelude::*;
use vstd::set_lib::lemma_len_subset;

verus! {

/// Whether `point` is among the coordinates already visited.
pub fn visited(point: &Point, seen: &Vec<Point>) -> (r: bool)
    ensures
        r == seen@.contains(*point),
{
    let mut i: usize = 0;
    while i < seen.len()
        invariant
            0 <= i <= seen@.len(),
            forall|j: int| 0 <= j < i ==> seen@[j] != *point,
        decreases seen@.len() - i,
    {
        if seen[i] == *point {
            return true;
        }
        i += 1;
    }
    false
}

/// The first of `connections` that has not been visited yet, with nothing
/// but visited coordinates before it.
fn first_unvisited(connections: &Vec<Point>, seen: &Vec<Point>) -> (r: Option<usize>)
    ensures
        match r {
            Some(i) => {
                &&& i < connections@.len()
                &&& !seen@.contains(connections@[i as int])
                &&& forall|j: int| 0 <= j < i ==> seen@.contains(#[trigger] connections@[j])
            },
            None => forall|j: int|
                0 <= j < connections@.len() ==> seen@.contains(#[trigger] connections@[j]),
        },
{
    let mut i: usize = 0;
    while i < connections.len()
        invariant
            0 <= i <= connections@.len(),
            forall|j: int| 0 <= j < i ==> seen@.contains(#[trigger] connections@[j]),
        decreases connections@.len() - i,
    {
        if !visited(&connections[i], seen) {
            return Some(i);
        }
        i += 1;
    }
    None
}

/// The slot of the node at `a` for direction `d`.
spec fn target(nodes: Map<Point, MazeNode>, a: Point, d: Direction) -> Option<Point> {
    nodes[a].connections.get(d)
}

/// Whether `x` was visited among the first `c` visits.
spec fn seen_before(seen: Seq<Point>, c: int, x: Point) -> bool {
    exists|b: int| 0 <= b < c && b < seen.len() && #[trigger] seen[b] == x
}

/// `pos` gives for every coordinate of the path the moment of its visit,
/// and the path holds its coordinates in the order of their visits.
spec fn path_in_visit_order(seen: Seq<Point>, path: Seq<Point>, pos: Seq<int>) -> bool {
    &&& pos.len() == path.len()
    &&& forall|i: int|
        0 <= i < path.len() ==> 0 <= #[trigger] pos[i] < seen.len() && seen[pos[i]] == path[i]
    &&& forall|i: int, j: int| 0 <= i < j < path.len() ==> #[trigger] pos[i] < #[trigger] pos[j]
}

/// Among the first `c` visits, every coordinate that the walk has retreated
/// from has all its links among those `c` visits.
spec fn closed_below(nodes: Map<Point, MazeNode>, seen: Seq<Point>, path: Seq<Point>, c: int) -> bool {
    forall|x: Point, d: Direction|
        seen_before(seen, c, x) && !path.contains(x) && (#[trigger] target(nodes, x, d)) is Some
            ==> seen_before(seen, c, target(nodes, x, d)->0)
}

/// When the walk stepped to the coordinate at index `i` of the path, every
/// link of higher precedence led to a coordinate visited before.
spec fn tried_in_order(
    nodes: Map<Point, MazeNode>,
    seen: Seq<Point>,
    path: Seq<Point>,
    pos: Seq<int>,
    i: int,
) -> bool {
    forall|d: Direction|
        (#[trigger] target(nodes, path[i - 1], d)) is Some && d.rank() < step_rank(
            path[i - 1],
            path[i],
        ) ==> seen_before(seen, pos[i], target(nodes, path[i - 1], d)->0)
}

/// What holds of the walk between two steps.
spec fn search_inv(
    nodes: Map<Point, MazeNode>,
    dimensions: Dimensions,
    seen: Seq<Point>,
    path: Seq<Point>,
    pos: Seq<int>,
    start: Point,
) -> bool {
    &&& seen.len() > 0
    &&& seen[0] == start
    &&& seen.no_duplicates()
    &&& forall|a: int| 0 <= a < seen.len() ==> dimensions.contains(#[trigger] seen[a])
    &&& path_in_visit_order(seen, path, pos)
    &&& path.len() > 0 ==> path[0] == start
    &&& forall|i: int| 0 < i < path.len() ==> #[trigger] step_ok(nodes, path, i)
    &&& closed_below(nodes, seen, path, seen.len() as int)
    &&& forall|m: int| 0 <= m < path.len() ==> closed_below(nodes, seen, path, #[trigger] pos[m])
    &&& forall|i: int| 0 < i < path.len() ==> #[trigger] tried_in_order(nodes, seen, path, pos, i)
}

/// Coordinates of the grid, none of them twice, are no more than the grid
/// has cells.
proof fn lemma_visits_bounded(dimensions: Dimensions, seen: Seq<Point>)
    requires
        seen.no_duplicates(),
        forall|a: int| 0 <= a < seen.len() ==> dimensions.contains(#[trigger] seen[a]),
    ensures
        seen.len() <= dimensions.cell_count(),
{
    dimensions.lemma_coordinate_count();
    seen.unique_seq_to_set();
    assert(seen.to_set().subset_of(dimensions.coordinates()));
    lemma_len_subset(seen.to_set(), dimensions.coordinates());
}

/// The walk may begin: with the start visited and alone on the path, all
/// that must hold between two steps holds.
proof fn lemma_search_begins(nodes: Map<Point, MazeNode>, dimensions: Dimensions, start: Point)
    requires
        graph_wf(nodes, dimensions),
        dimensions.contains(start),
    ensures
        search_inv(nodes, dimensions, seq![start], seq![start], seq![0int], start),
{
    let seen = seq![start];
    let path = seq![start];
    assert(path[0] == start);
    // Nothing but the start has been visited, and the start is on the path.
    assert forall|c: int| closed_below(nodes, seen, path, c) by {
        assert forall|x: Point| seen_before(seen, c, x) implies path.contains(x) by {
            let b = choose|b: int| 0 <= b < c && b < seen.len() && #[trigger] seen[b] == x;
        }
    }
}

/// A step forward keeps what holds between two steps: the walk leaves the
/// end of its path by the link in direction `d`, which leads to a coordinate
/// not visited before, while every link of higher precedence leads to one
/// that was.
proof fn lemma_step_forward(
    nodes: Map<Point, MazeNode>,
    dimensions: Dimensions,
    seen: Seq<Point>,
    path: Seq<Point>,
    pos: Seq<int>,
    start: Point,
    d: Direction,
)
    requires
        graph_wf(nodes, dimensions),
        search_inv(nodes, dimensions, seen, path, pos, start),
        path.len() > 0,
        target(nodes, path.last(), d) is Some,
        !seen.contains(target(nodes, path.last(), d)->0),
        forall|e: Direction|
            (#[trigger] target(nodes, path.last(), e)) is Some && e.rank() < d.rank()
                ==> seen.contains(target(nodes, path.last(), e)->0),
    ensures
        search_inv(
            nodes,
            dimensions,
            seen.push(target(nodes, path.last(), d)->0),
            path.push(target(nodes, path.last(), d)->0),
            pos.push(seen.len() as int),
            start,
        ),
{
    let u = path.last();
    let p = target(nodes, u, d)->0;
    let seen2 = seen.push(p);
    let path2 = path.push(p);
    let pos2 = pos.push(seen.len() as int);
    let n = path.len() as int;
    assert(seen[pos[n - 1]] == u);
    lemma_link_target(nodes, dimensions, u, d);

    assert forall|i: int| 0 < i < path2.len() implies #[trigger] step_ok(nodes, path2, i) by {
        if i < n {
            assert(step_ok(nodes, path, i));
        }
    }
    // What was visited among the first c visits is still visited among
    // them, and nothing else is.
    assert forall|c: int, x: Point| 0 <= c <= seen.len() implies (seen_before(seen2, c, x)
        <==> seen_before(seen, c, x)) by {
        if seen_before(seen2, c, x) {
            let b = choose|b: int| 0 <= b < c && b < seen2.len() && #[trigger] seen2[b] == x;
            assert(seen[b] == x);
        }
        if seen_before(seen, c, x) {
            let b = choose|b: int| 0 <= b < c && b < seen.len() && #[trigger] seen[b] == x;
            assert(seen2[b] == x);
        }
    }
    // What was on the path still is, and the new coordinate is on it too.
    assert forall|x: Point| path.contains(x) implies path2.contains(x) by {
        let i = choose|i: int| 0 <= i < path.len() && path[i] == x;
        assert(path2[i] == x);
    }
    assert(path2[n] == p);
    assert forall|c: int| 0 <= c <= seen.len() && closed_below(nodes, seen, path, c) implies closed_below(
        nodes,
        seen2,
        path2,
        c,
    ) by {}
    assert(closed_below(nodes, seen2, path2, seen2.len() as int)) by {
        assert forall|x: Point, e: Direction|
            seen_before(seen2, seen2.len() as int, x) && !path2.contains(x) && (#[trigger] target(
                nodes,
                x,
                e,
            )) is Some implies seen_before(seen2, seen2.len() as int, target(nodes, x, e)->0) by {
            let b = choose|b: int| 0 <= b < seen2.len() && #[trigger] seen2[b] == x;
            assert(seen_before(seen, seen.len() as int, x));
            let y = target(nodes, x, e)->0;
            let b2 = choose|b2: int| 0 <= b2 < seen.len() && #[trigger] seen[b2] == y;
            assert(seen2[b2] == y);
        }
    }
    assert forall|m: int| 0 <= m < path2.len() implies closed_below(
        nodes,
        seen2,
        path2,
        #[trigger] pos2[m],
    ) by {}
    assert forall|i: int| 0 < i < path2.len() implies #[trigger] tried_in_order(
        nodes,
        seen2,
        path2,
        pos2,
        i,
    ) by {
        if i < n {
            assert(tried_in_order(nodes, seen, path, pos, i));
        } else {
            assert forall|e: Direction|
                (#[trigger] target(nodes, u, e)) is Some && e.rank() < step_rank(
                    u,
                    p,
                ) implies seen_before(seen2, pos2[i], target(nodes, u, e)->0) by {
                let y = target(nodes, u, e)->0;
                let b = choose|b: int| 0 <= b < seen.len() && seen[b] == y;
                assert(seen_before(seen, seen.len() as int, y));
            }
        }
    }
}

/// A step back keeps what holds between two steps: the walk retreats from
/// the end of its path, all of whose links lead to coordinates visited
/// before.
proof fn lemma_step_back(
    nodes: Map<Point, MazeNode>,
    dimensions: Dimensions,
    seen: Seq<Point>,
    path: Seq<Point>,
    pos: Seq<int>,
    start: Point,
)
    requires
        graph_wf(nodes, dimensions),
        search_inv(nodes, dimensions, seen, path, pos, start),
        path.len() > 0,
        forall|e: Direction|
            (#[trigger] target(nodes, path.last(), e)) is Some ==> seen.contains(
                target(nodes, path.last(), e)->0,
            ),
    ensures
        search_inv(nodes, dimensions, seen, path.drop_last(), pos.drop_last(), start),
{
    let u = path.last();
    let path2 = path.drop_last();
    let pos2 = pos.drop_last();
    let n = path.len() as int;
    assert(seen[pos[n - 1]] == u);
    assert forall|i: int| 0 < i < path2.len() implies #[trigger] step_ok(nodes, path2, i) by {
        assert(step_ok(nodes, path, i));
    }
    // Off the shorter path means off the longer one, or the coordinate
    // just left.
    assert forall|x: Point| !path2.contains(x) && x != u implies !path.contains(x) by {
        if path.contains(x) {
            let i = choose|i: int| 0 <= i < path.len() && path[i] == x;
            assert(path2[i] == x);
        }
    }
    assert(closed_below(nodes, seen, path2, seen.len() as int)) by {
        assert forall|x: Point, e: Direction|
            seen_before(seen, seen.len() as int, x) && !path2.contains(x) && (#[trigger] target(
                nodes,
                x,
                e,
            )) is Some implies seen_before(seen, seen.len() as int, target(nodes, x, e)->0) by {
            if x == u {
                let y = target(nodes, x, e)->0;
                let b = choose|b: int| 0 <= b < seen.len() && seen[b] == y;
                assert(seen[b] == y);
            }
        }
    }
    // The coordinate just left was visited after every coordinate that is
    // still on the path.
    assert forall|m: int| 0 <= m < path2.len() implies closed_below(
        nodes,
        seen,
        path2,
        #[trigger] pos2[m],
    ) by {
        assert(pos[m] < pos[n - 1]);
        assert forall|x: Point| seen_before(seen, pos[m], x) implies x != u by {
            let b = choose|b: int| 0 <= b < pos[m] && b < seen.len() && #[trigger] seen[b] == x;
        }
    }
    assert forall|i: int| 0 < i < path2.len() implies #[trigger] tried_in_order(
        nodes,
        seen,
        path2,
        pos2,
        i,
    ) by {
        assert(tried_in_order(nodes, seen, path, pos, i));
    }
}

/// A path in visit order holds no coordinate twice.
proof fn lemma_path_no_duplicates(seen: Seq<Point>, path: Seq<Point>, pos: Seq<int>)
    requires
        seen.no_duplicates(),
        path_in_visit_order(seen, path, pos),
    ensures
        path.no_duplicates(),
{
    assert forall|i: int, j: int| 0 <= i < j < path.len() implies path[i] != path[j] by {
        assert(pos[i] < pos[j]);
    }
}

/// Two different sequences without repeats that end alike and agree on
/// their first `j` coordinates part at some index `k` from `j` on: they
/// agree before `k` and differ at `k`.
proof fn lemma_routes_part(s: Seq<Point>, t: Seq<Point>, j: int) -> (k: int)
    requires
        s.no_duplicates(),
        t.no_duplicates(),
        s.len() > 0,
        t.len() > 0,
        s.last() == t.last(),
        s != t,
        0 < j <= s.len(),
        j <= t.len(),
        s.take(j) == t.take(j),
    ensures
        j <= k < s.len(),
        k < t.len(),
        s.take(k) == t.take(k),
        s[k] != t[k],
    decreases s.len() - j,
{
    if j == s.len() || j == t.len() {
        // One of the two would be the beginning of the other, and its last
        // coordinate would stand in the other twice.
        assert(s.take(j)[j - 1] == s[j - 1]);
        assert(t.take(j)[j - 1] == t[j - 1]);
        assert(s.take(s.len() as int) =~= s);
        assert(t.take(t.len() as int) =~= t);
        assert(false);
        j
    } else if s[j] == t[j] {
        assert(s.take(j + 1) =~= s.take(j).push(s[j]));
        assert(t.take(j + 1) =~= t.take(j).push(t[j]));
        lemma_routes_part(s, t, j + 1)
    } else {
        j
    }
}

/// A route that leaves the path at index `k` for a coordinate visited
/// before the path went on never gets out of what was visited by then: from
/// index `j` on it stays among the coordinates that the walk had already
/// retreated from.
proof fn lemma_trapped(
    nodes: Map<Point, MazeNode>,
    dimensions: Dimensions,
    seen: Seq<Point>,
    path: Seq<Point>,
    pos: Seq<int>,
    start: Point,
    other: Seq<Point>,
    k: int,
    j: int,
)
    requires
        graph_wf(nodes, dimensions),
        search_inv(nodes, dimensions, seen, path, pos, start),
        forall|i: int| 0 < i < other.len() ==> #[trigger] step_ok(nodes, other, i),
        other.no_duplicates(),
        0 < k < path.len(),
        k <= j < other.len(),
        path.take(k) == other.take(k),
        seen_before(seen, pos[k], other[j]),
    ensures
        seen_before(seen, pos[k], other.last()),
    decreases other.len() - j,
{
    if j + 1 < other.len() {
        let x = other[j];
        if path.contains(x) {
            // Visited before the path reached index k, the coordinate
            // stands on the path before k, and so on the route before j.
            let m = choose|m: int| 0 <= m < path.len() && path[m] == x;
            let b = choose|b: int| 0 <= b < pos[k] && b < seen.len() && #[trigger] seen[b] == x;
            assert(seen[pos[m]] == path[m]);
            if m > k {
                assert(pos[k] < pos[m]);
            }
            assert(m < k);
            assert(path.take(k)[m] == path[m]);
            assert(other.take(k)[m] == other[m]);
            assert(false);
        }
        assert(step_ok(nodes, other, j + 1));
        let d = choose|d: Direction| nodes[x].connections.get(d) == Some(other[j + 1]);
        assert(target(nodes, x, d) is Some);
        assert(closed_below(nodes, seen, path, pos[k]));
        lemma_trapped(nodes, dimensions, seen, path, pos, start, other, k, j + 1);
    }
}

/// The path that has just reached the end comes before every other route to
/// it.
proof fn lemma_found_first(
    nodes: Map<Point, MazeNode>,
    dimensions: Dimensions,
    seen: Seq<Point>,
    path: Seq<Point>,
    pos: Seq<int>,
    start: Point,
    end: Point,
    other: Seq<Point>,
)
    requires
        graph_wf(nodes, dimensions),
        search_inv(nodes, dimensions, seen, path, pos, start),
        path.len() > 0,
        path.last() == end,
        is_route(nodes, other, start, end),
        other != path,
    ensures
        walk_precedes(path, other),
{
    lemma_path_no_duplicates(seen, path, pos);
    assert(path.take(1) =~= other.take(1));
    let k = lemma_routes_part(path, other, 1);
    let n = path.len() as int;
    // Both leave the same coordinate at index k, by different links.
    let u = path[k - 1];
    assert(path.take(k)[k - 1] == other.take(k)[k - 1]);
    assert(seen[pos[k - 1]] == u);
    assert(step_ok(nodes, path, k));
    assert(step_ok(nodes, other, k));
    let dp = choose|d: Direction| nodes[u].connections.get(d) == Some(path[k]);
    let dq = choose|d: Direction| nodes[u].connections.get(d) == Some(other[k]);
    lemma_link_target(nodes, dimensions, u, dp);
    lemma_link_target(nodes, dimensions, u, dq);
    if dq.rank() < dp.rank() {
        // The other route takes a link that the walk found visited; it
        // stays among what was visited by then, where the end is not.
        assert(tried_in_order(nodes, seen, path, pos, k));
        assert(target(nodes, path[k - 1], dq) is Some);
        lemma_trapped(nodes, dimensions, seen, path, pos, start, other, k, k);
        let b = choose|b: int| 0 <= b < pos[k] && b < seen.len() && #[trigger] seen[b] == end;
        assert(seen[pos[n - 1]] == end);
        if k < n - 1 {
            assert(pos[k] < pos[n - 1]);
        }
        assert(false);
    }
}

/// Once the walk has retreated from every coordinate it visited, what it
/// visited is all that a walk from the start can reach.
proof fn lemma_exhausted(
    nodes: Map<Point, MazeNode>,
    dimensions: Dimensions,
    seen: Seq<Point>,
    pos: Seq<int>,
    start: Point,
    walk: Seq<Point>,
    j: int,
)
    requires
        graph_wf(nodes, dimensions),
        search_inv(nodes, dimensions, seen, Seq::<Point>::empty(), pos, start),
        walk.len() > 0,
        walk[0] == start,
        forall|i: int| 0 < i < walk.len() ==> #[trigger] step_ok(nodes, walk, i),
        0 <= j < walk.len(),
    ensures
        seen.contains(walk[j]),
    decreases j,
{
    if j > 0 {
        lemma_exhausted(nodes, dimensions, seen, pos, start, walk, j - 1);
        let x = walk[j - 1];
        let b = choose|b: int| 0 <= b < seen.len() && seen[b] == x;
        assert(seen_before(seen, seen.len() as int, x));
        assert(step_ok(nodes, walk, j));
        let d = choose|d: Direction| nodes[x].connections.get(d) == Some(walk[j]);
        assert(target(nodes, x, d) is Some);
        assert(seen_before(seen, seen.len() as int, walk[j]));
    }
}

/// Where every entry of the list of links has been visited, every filled
/// slot leads to a visited coordinate.
proof fn lemma_all_tried(node: MazeNode, seen: Seq<Point>)
    requires
        forall|j: int|
            0 <= j < node.spec_connections().len() ==> seen.contains(
                #[trigger] node.spec_connections()[j],
            ),
    ensures
        forall|e: Direction| #[trigger]
            node.connections.get(e) is Some ==> seen.contains(node.connections.get(e)->0),
{
    node.lemma_connections_order();
}

/// The entry at index `i` of the list of links fills the slot of some
/// direction; where all entries before it have been visited, so has every
/// link of higher precedence.
proof fn lemma_first_untried(node: MazeNode, seen: Seq<Point>, i: int) -> (d: Direction)
    requires
        0 <= i < node.spec_connections().len(),
        forall|j: int| 0 <= j < i ==> seen.contains(#[trigger] node.spec_connections()[j]),
    ensures
        node.connections.get(d) == Some(node.spec_connections()[i]),
        forall|e: Direction|
            (#[trigger] node.connections.get(e)) is Some && e.rank() < d.rank() ==> seen.contains(
                node.connections.get(e)->0,
            ),
{
    node.lemma_connections_order();
    let list = node.spec_connections();
    choose|d: Direction|
        node.connections.get(d) == Some(list[i]) && node.connections.filled_before(d) == i
}

impl Maze {
    /// Walks from `start` towards `end`, depth first: from where it stands
    /// the walk steps to the first neighbour, in the order north, east,
    /// south, west, that it is linked to and has not visited; where there is
    /// none it retreats by one step. It ends on reaching `end`, with the
    /// path it then stands on, or on retreating from `start`, without one.
    ///
    /// The path handed back is the first route from `start` to `end`: no
    /// coordinate stands on it twice, every step follows a link, and where
    /// another route parts from it, that route takes a direction of lower
    /// precedence. The walk fails exactly where `end` cannot be reached
    /// from `start`, or `start` is no coordinate of the grid.
    pub fn iter_solve(&self, start: &Point, end: &Point) -> (r: Result<Path, MazeError>)
        ensures
            r is Ok <==> reachable(self@, *start, *end),
            match r {
                Ok(path) => is_first_route(self@, path@, *start, *end),
                Err(e) => e == if self@.dom().contains(*start) {
                    MazeError::NotFound
                } else {
                    MazeError::GridIndexMissing
                },
            },
    {
        proof {
            use_type_invariant(self);
        }
        let ghost nodes = self@;
        let ghost dimensions = self.spec_dimensions();
        let mut node = self.node_at(start)?;
        let mut visited_nodes: Vec<Point> = Vec::new();
        visited_nodes.push(*start);
        let mut path = Path::new();
        path.push(start);
        let ghost mut pos: Seq<int> = seq![0int];
        proof {
            lemma_search_begins(nodes, dimensions, *start);
            lemma_visits_bounded(dimensions, visited_nodes@);
        }
        if *start == *end {
            proof {
                assert(is_walk_between(nodes, path@, *start, *end));
                assert forall|other: Seq<Point>| #[trigger]
                    is_route(nodes, other, *start, *end) && other != path@ implies walk_precedes(
                    path@,
                    other,
                ) by {
                    // A longer route from a coordinate to itself would hold
                    // the coordinate twice.
                    assert(other.len() == 1);
                    assert(other =~= path@);
                }
            }
            return Ok(path);
        }
        loop
            invariant
                self.inv(),
                nodes == self@,
                dimensions == self.spec_dimensions(),
                search_inv(nodes, dimensions, visited_nodes@, path@, pos, *start),
                path@.len() > 0,
                *node == nodes[path@.last()],
                !visited_nodes@.contains(*end),
                visited_nodes@.len() <= dimensions.cell_count(),
            decreases 2 * (dimensions.cell_count() - visited_nodes@.len()) + path@.len(),
        {
            let ghost here = path@.last();
            let ghost seen = visited_nodes@;
            let ghost trail = path@;
            let mut next_point: Option<Point> = None;
            let ghost mut by: Direction = Direction::North;
            match node.get_connections() {
                Some(connections) => {
                    match first_unvisited(&connections, &visited_nodes) {
                        Some(i) => {
                            next_point = Some(connections[i]);
                            proof {
                                by = lemma_first_untried(*node, seen, i as int);
                            }
                        },
                        None => {
                            proof {
                                lemma_all_tried(*node, seen);
                            }
                        },
                    }
                },
                None => {
                    proof {
                        lemma_all_tried(*node, seen);
                    }
                },
            }
            if let Some(point) = next_point {
                proof {
                    lemma_step_forward(nodes, dimensions, seen, trail, pos, *start, by);
                    assert(seen[pos[trail.len() - 1]] == here);
                    lemma_link_target(nodes, dimensions, here, by);
                    pos = pos.push(seen.len() as int);
                }
                path.push(&point);
                visited_nodes.push(point);
                proof {
                    lemma_visits_bounded(dimensions, visited_nodes@);
                }
                node = self.node_at(&point)?;
                if point == *end {
                    proof {
                        lemma_path_no_duplicates(visited_nodes@, path@, pos);
                        assert(is_walk_between(nodes, path@, *start, *end));
                        assert forall|other: Seq<Point>| #[trigger]
                            is_route(nodes, other, *start, *end) && other
                                != path@ implies walk_precedes(path@, other) by {
                            lemma_found_first(
                                nodes,
                                dimensions,
                                visited_nodes@,
                                path@,
                                pos,
                                *start,
                                *end,
                                other,
                            );
                        }
                    }
                    return Ok(path);
                }
                assert(!visited_nodes@.contains(*end));
            } else {
                proof {
                    lemma_step_back(nodes, dimensions, seen, trail, pos, *start);
                    pos = pos.drop_last();
                }
                path.pop();
                match path.tail() {
                    Some(previous) => {
                        proof {
                            assert(visited_nodes@[pos[path@.len() - 1]] == previous);
                        }
                        node = self.node_at(&previous)?;
                    },
                    None => {
                        proof {
                            assert forall|walk: Seq<Point>| !(#[trigger] is_walk_between(
                                nodes,
                                walk,
                                *start,
                                *end,
                            )) by {
                                if is_walk_between(nodes, walk, *start, *end) {
                                    lemma_exhausted(
                                        nodes,
                                        dimensions,
                                        visited_nodes@,
                                        pos,
                                        *start,
                                        walk,
                                        walk.len() - 1,
                                    );
                                }
                            }
                        }
                        return Err(MazeError::NotFound);
                    },
                }
            }
        }
    }

    /// Solves the maze: the first route from `start` to `end`, as
    /// [`Maze::iter_solve`] finds it.
    pub fn solve_maze(&self, start: &Point, end: &Point) -> (r: Result<Path, MazeError>)
        ensures
            r is Ok <==> reachable(self@, *start, *end),
            match r {
                Ok(path) => is_first_route(self@, path@, *start, *end),
                Err(e) => e == if self@.dom().contains(*start) {
                    MazeError::NotFound
                } else {
                    MazeError::GridIndexMissing
                },
            },
    {
        self.iter_solve(start, end)
    }
}

} // verus!

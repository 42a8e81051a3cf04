//! Assembling the navigation graph of one map from its triangulation.
//!
//! The triangulation itself is done outside this library, on floats.  What
//! comes back is plain data: the position of each corner waypoint, for each
//! transporter the waypoints within reach of it, and the edges of the
//! triangulation.  This module decides which of them become nodes and links
//! of the graph.
//!
//! Each step is stated as a function from the graph before to the graph
//! after, item by item in the order of the input, since the position of a
//! node in the graph depends on the order in which waypoints are first met.

use crate::consts::{TRANSPORT, WALK};
use crate::error::PrepareError;
use crate::coord::{lemma_cell_round_trip, nearest_to, Coord};
use crate::g::GSpawn;
use crate::grid::Grid;
use crate::navgraph::{intern, place, NavGraph, Node};
use vstd::prelude::*;

verus! {

/// A position on a map.
#[derive(Clone, Copy, Debug, PartialEq, Eq, Structural)]
pub struct Point {
    pub x: Coord,
    pub y: Coord,
}

/// An edge of the triangulation.
#[derive(Clone, Copy, Debug, PartialEq, Eq, Structural)]
pub struct Segment {
    pub from: Point,
    pub to: Point,
}

/// The nodes and the edges of a graph.
pub ghost struct Net {
    pub nodes: Seq<(u16, u32, u32)>,
    pub edges: Seq<(usize, usize, u8)>,
}

/// The node that stands for a position on the map `map_id`.
pub open spec fn key_of(map_id: u16, point: Point) -> (u16, u32, u32) {
    (map_id, point.x.bits, point.y.bits)
}

/// The nodes after the first `n` of `points` have been interned as
/// waypoints of the map `map_id`.
pub open spec fn with_points(
    nodes: Seq<(u16, u32, u32)>,
    map_id: u16,
    points: Seq<Point>,
    n: int,
) -> Seq<(u16, u32, u32)>
    decreases n,
{
    if n <= 0 {
        nodes
    } else {
        intern(with_points(nodes, map_id, points, n - 1), key_of(map_id, points[n - 1]))
    }
}

/// The edges after a transporter link from `from` to each of the first `n`
/// of `targets` has been added.
pub open spec fn with_fan(
    edges: Seq<(usize, usize, u8)>,
    from: usize,
    targets: Seq<usize>,
    n: int,
) -> Seq<(usize, usize, u8)>
    decreases n,
{
    if n <= 0 {
        edges
    } else {
        with_fan(edges, from, targets, n - 1).push((from, targets[n - 1], TRANSPORT))
    }
}

/// The graph after each of the first `n` of `sources` has been interned as
/// a waypoint of the map `map_id` and linked to every target.
pub open spec fn with_transports(
    net: Net,
    map_id: u16,
    sources: Seq<Point>,
    targets: Seq<usize>,
    n: int,
) -> Net
    decreases n,
{
    if n <= 0 {
        net
    } else {
        let prev = with_transports(net, map_id, sources, targets, n - 1);
        let key = key_of(map_id, sources[n - 1]);
        let nodes = intern(prev.nodes, key);
        Net { nodes, edges: with_fan(prev.edges, place(nodes, key), targets, targets.len() as int) }
    }
}

/// Whether a segment becomes a walking link: its ends are two different
/// waypoints, and the straight line between their cells can be walked.
pub open spec fn walks(grid: Grid, segment: Segment) -> bool {
    &&& (segment.from.x.bits != segment.to.x.bits || segment.from.y.bits != segment.to.y.bits)
    &&& grid.walkable_path(
        segment.from.x.cell_of(),
        segment.from.y.cell_of(),
        segment.to.x.cell_of(),
        segment.to.y.cell_of(),
    )
}

/// The graph after one segment has been looked at: if it can be walked,
/// both ends are interned and joined by a walking link in each direction.
pub open spec fn with_walk(net: Net, grid: Grid, map_id: u16, segment: Segment) -> Net {
    if walks(grid, segment) {
        let a = key_of(map_id, segment.from);
        let b = key_of(map_id, segment.to);
        let nodes = intern(intern(net.nodes, a), b);
        Net {
            nodes,
            edges: net.edges.push((place(nodes, a), place(nodes, b), WALK)).push(
                (place(nodes, b), place(nodes, a), WALK),
            ),
        }
    } else {
        net
    }
}

/// The graph after the first `n` of `segments` have been looked at.
pub open spec fn with_walks(net: Net, grid: Grid, map_id: u16, segments: Seq<Segment>, n: int) -> Net
    decreases n,
{
    if n <= 0 {
        net
    } else {
        with_walk(with_walks(net, grid, map_id, segments, n - 1), grid, map_id, segments[n - 1])
    }
}

/// The positions of a list of spawn points.
pub open spec fn positions_of(spawns: Seq<GSpawn>) -> Seq<Point> {
    Seq::new(spawns.len(), |i: int| Point { x: spawns[i].x, y: spawns[i].y })
}

/// Whether `points` are the positions of the cells `cells`, each coordinate
/// the float nearest to the cell's.
pub open spec fn positions_at(points: Seq<Point>, cells: Seq<(i32, i32)>) -> bool {
    &&& points.len() == cells.len()
    &&& forall|i: int|
        0 <= i < cells.len() ==> nearest_to((#[trigger] points[i]).x.bits, cells[i].0 as int)
            && nearest_to(points[i].y.bits, cells[i].1 as int)
}

/// The waypoint of a cell falls in that cell, as long as the coordinates of
/// the cell are below `2^24` in magnitude.
pub proof fn lemma_waypoint_in_its_cell(points: Seq<Point>, cells: Seq<(i32, i32)>, i: int)
    requires
        positions_at(points, cells),
        0 <= i < cells.len(),
        -0x100_0000 < cells[i].0 < 0x100_0000,
        -0x100_0000 < cells[i].1 < 0x100_0000,
    ensures
        points[i].x.cell_of() == cells[i].0,
        points[i].y.cell_of() == cells[i].1,
{
    lemma_cell_round_trip(points[i].x.bits, cells[i].0 as int);
    lemma_cell_round_trip(points[i].y.bits, cells[i].1 as int);
}

/// The positions of cells.
pub fn cell_points(cells: &Vec<(i32, i32)>) -> (points: Vec<Point>)
    ensures
        positions_at(points@, cells@),
{
    let mut points: Vec<Point> = Vec::new();
    let mut i: usize = 0;
    while i < cells.len()
        invariant
            0 <= i <= cells.len(),
            points@.len() == i,
            forall|k: int|
                0 <= k < i ==> nearest_to((#[trigger] points@[k]).x.bits, cells@[k].0 as int)
                    && nearest_to(points@[k].y.bits, cells@[k].1 as int),
        decreases cells.len() - i,
    {
        let x = Coord::from_cell(cells[i].0);
        let y = Coord::from_cell(cells[i].1);
        points.push(Point { x, y });
        i = i + 1;
    }
    points
}

impl NavGraph {
    /// The nodes and the edges of the graph.
    pub open spec fn net(&self) -> Net {
        Net { nodes: self.nodes(), edges: self.edges() }
    }
}

/// The positions of spawn points.
pub fn spawn_points(spawns: &Vec<GSpawn>) -> (points: Vec<Point>)
    ensures
        points@ == positions_of(spawns@),
{
    let mut points: Vec<Point> = Vec::new();
    let mut i: usize = 0;
    while i < spawns.len()
        invariant
            0 <= i <= spawns.len(),
            points@.len() == i,
            forall|k: int|
                0 <= k < i ==> #[trigger] points@[k] == (Point { x: spawns@[k].x, y: spawns@[k].y }),
        decreases spawns.len() - i,
    {
        points.push(Point { x: spawns[i].x, y: spawns[i].y });
        i = i + 1;
    }
    assert(points@ =~= positions_of(spawns@));
    points
}

/// Interning adds at most one node and keeps the nodes that were there.
pub proof fn lemma_intern_grows(nodes: Seq<(u16, u32, u32)>, key: (u16, u32, u32))
    ensures
        nodes.len() <= intern(nodes, key).len() <= nodes.len() + 1,
        forall|i: int| 0 <= i < nodes.len() ==> intern(nodes, key)[i] == nodes[i],
        intern(nodes, key).contains(key),
{
    if nodes.contains(key) {
    } else {
        assert(nodes.push(key)[nodes.len() as int] == key);
    }
}

/// Whether a graph of these nodes and edges can be held: neither count
/// is beyond what a 32-bit index can number.
pub open spec fn net_fits(net: Net) -> bool {
    net.nodes.len() <= 0xffff_ffff && net.edges.len() <= 0xffff_ffff
}

/// Interning more points never makes the list of nodes shorter.
pub proof fn lemma_points_grow(
    nodes: Seq<(u16, u32, u32)>,
    map_id: u16,
    points: Seq<Point>,
    i: int,
    n: int,
)
    requires
        0 <= i <= n,
    ensures
        nodes.len() <= with_points(nodes, map_id, points, i).len() <= with_points(
            nodes,
            map_id,
            points,
            n,
        ).len(),
    decreases n,
{
    if n > 0 {
        if i < n {
            lemma_points_grow(nodes, map_id, points, i, n - 1);
        } else {
            lemma_points_grow(nodes, map_id, points, i - 1, n - 1);
        }
        lemma_intern_grows(
            with_points(nodes, map_id, points, n - 1),
            key_of(map_id, points[n - 1]),
        );
    }
}

/// A fan of links adds one edge for each target.
pub proof fn lemma_fan_len(edges: Seq<(usize, usize, u8)>, from: usize, targets: Seq<usize>, n: int)
    requires
        0 <= n,
    ensures
        with_fan(edges, from, targets, n).len() == edges.len() + n,
    decreases n,
{
    if n > 0 {
        lemma_fan_len(edges, from, targets, n - 1);
    }
}

/// Linking more sources never makes the graph smaller.
pub proof fn lemma_transports_grow(
    net: Net,
    map_id: u16,
    sources: Seq<Point>,
    targets: Seq<usize>,
    i: int,
    n: int,
)
    requires
        0 <= i <= n,
    ensures
        net.nodes.len() <= with_transports(net, map_id, sources, targets, i).nodes.len()
            <= with_transports(net, map_id, sources, targets, n).nodes.len(),
        net.edges.len() <= with_transports(net, map_id, sources, targets, i).edges.len()
            <= with_transports(net, map_id, sources, targets, n).edges.len(),
    decreases n,
{
    if n > 0 {
        if i < n {
            lemma_transports_grow(net, map_id, sources, targets, i, n - 1);
        } else {
            lemma_transports_grow(net, map_id, sources, targets, i - 1, n - 1);
        }
        let prev = with_transports(net, map_id, sources, targets, n - 1);
        let key = key_of(map_id, sources[n - 1]);
        lemma_intern_grows(prev.nodes, key);
        lemma_fan_len(
            prev.edges,
            place(intern(prev.nodes, key), key),
            targets,
            targets.len() as int,
        );
    }
}

/// Looking at one more segment never makes the graph smaller.
pub proof fn lemma_walk_grows(net: Net, grid: Grid, map_id: u16, segment: Segment)
    ensures
        net.nodes.len() <= with_walk(net, grid, map_id, segment).nodes.len(),
        net.edges.len() <= with_walk(net, grid, map_id, segment).edges.len(),
{
    let a = key_of(map_id, segment.from);
    let b = key_of(map_id, segment.to);
    lemma_intern_grows(net.nodes, a);
    lemma_intern_grows(intern(net.nodes, a), b);
}

/// Looking at more segments never makes the graph smaller.
pub proof fn lemma_walks_grow(
    net: Net,
    grid: Grid,
    map_id: u16,
    segments: Seq<Segment>,
    i: int,
    n: int,
)
    requires
        0 <= i <= n,
    ensures
        net.nodes.len() <= with_walks(net, grid, map_id, segments, i).nodes.len() <= with_walks(
            net,
            grid,
            map_id,
            segments,
            n,
        ).nodes.len(),
        net.edges.len() <= with_walks(net, grid, map_id, segments, i).edges.len() <= with_walks(
            net,
            grid,
            map_id,
            segments,
            n,
        ).edges.len(),
    decreases n,
{
    if n > 0 {
        if i < n {
            lemma_walks_grow(net, grid, map_id, segments, i, n - 1);
        } else {
            lemma_walks_grow(net, grid, map_id, segments, i - 1, n - 1);
        }
        lemma_walk_grows(
            with_walks(net, grid, map_id, segments, n - 1),
            grid,
            map_id,
            segments[n - 1],
        );
    }
}

/// Interns each of `points` as a waypoint of the map `map_id`, in order.
/// The edges stay as they were.  Fails with `CapacityExceeded` when the
/// graph cannot hold all the nodes; it may then hold some of them.
pub fn intern_points(graph: &mut NavGraph, map_id: u16, points: &Vec<Point>) -> (result: Result<
    (),
    PrepareError,
>)
    requires
        old(graph).wf(),
    ensures
        final(graph).wf(),
        final(graph).edges() == old(graph).edges(),
        old(graph).nodes().len() <= final(graph).nodes().len(),
        forall|i: int|
            0 <= i < old(graph).nodes().len() ==> final(graph).nodes()[i] == old(graph).nodes()[i],
        match result {
            Ok(()) => final(graph).nodes() == with_points(
                old(graph).nodes(),
                map_id,
                points@,
                points@.len() as int,
            ),
            Err(e) => e == PrepareError::CapacityExceeded && with_points(
                old(graph).nodes(),
                map_id,
                points@,
                points@.len() as int,
            ).len() > 0xffff_ffff,
        },
{
    let ghost before = *graph;
    let mut i: usize = 0;
    while i < points.len()
        invariant
            before == *old(graph),
            graph.wf(),
            0 <= i <= points.len(),
            graph.edges() == before.edges(),
            graph.nodes() == with_points(before.nodes(), map_id, points@, i as int),
            before.nodes().len() <= graph.nodes().len(),
            forall|k: int| 0 <= k < before.nodes().len() ==> graph.nodes()[k] == before.nodes()[k],
        decreases points.len() - i,
    {
        let node = Node { map_id, x: points[i].x.bits, y: points[i].y.bits };
        proof {
            lemma_intern_grows(graph.nodes(), node.key());
        }
        let added = graph.get_or_add_node(&node);
        match added {
            Ok(_) => {},
            Err(e) => {
                proof {
                    lemma_points_grow(
                        before.nodes(),
                        map_id,
                        points@,
                        i + 1,
                        points@.len() as int,
                    );
                }
                return Err(e);
            },
        }
        i = i + 1;
    }
    Ok(())
}

/// Interns each of `sources` as a waypoint of the map `map_id`, in order,
/// and adds a transporter link from it to every target.  Fails with
/// `CapacityExceeded` when the graph cannot hold all the nodes and links;
/// it may then hold some of them.
pub fn link_transports(
    graph: &mut NavGraph,
    map_id: u16,
    sources: &Vec<Point>,
    targets: &Vec<usize>,
) -> (result: Result<(), PrepareError>)
    requires
        old(graph).wf(),
        forall|t: int|
            0 <= t < targets@.len() ==> (#[trigger] targets@[t]) < old(graph).nodes().len() && old(
                graph,
            ).nodes()[targets@[t] as int].0 != map_id,
    ensures
        final(graph).wf(),
        old(graph).nodes().len() <= final(graph).nodes().len(),
        forall|i: int|
            0 <= i < old(graph).nodes().len() ==> final(graph).nodes()[i] == old(graph).nodes()[i],
        match result {
            Ok(()) => final(graph).net() == with_transports(
                old(graph).net(),
                map_id,
                sources@,
                targets@,
                sources@.len() as int,
            ),
            Err(e) => e == PrepareError::CapacityExceeded && !net_fits(
                with_transports(old(graph).net(), map_id, sources@, targets@, sources@.len() as int),
            ),
        },
{
    let ghost before = *graph;
    let mut s: usize = 0;
    while s < sources.len()
        invariant
            before == *old(graph),
            graph.wf(),
            0 <= s <= sources.len(),
            graph.net() == with_transports(before.net(), map_id, sources@, targets@, s as int),
            before.nodes().len() <= graph.nodes().len(),
            forall|k: int| 0 <= k < before.nodes().len() ==> graph.nodes()[k] == before.nodes()[k],
            forall|t: int|
                0 <= t < targets@.len() ==> (#[trigger] targets@[t]) < before.nodes().len()
                    && before.nodes()[targets@[t] as int].0 != map_id,
        decreases sources.len() - s,
    {
        let node = Node { map_id, x: sources[s].x.bits, y: sources[s].y.bits };
        let ghost prev = graph.net();
        proof {
            lemma_intern_grows(prev.nodes, node.key());
            lemma_transports_grow(
                before.net(),
                map_id,
                sources@,
                targets@,
                s + 1,
                sources@.len() as int,
            );
            lemma_fan_len(
                prev.edges,
                place(intern(prev.nodes, node.key()), node.key()),
                targets@,
                targets@.len() as int,
            );
        }
        let added = graph.get_or_add_node(&node);
        let from = match added {
            Ok(i) => i,
            Err(e) => {
                return Err(e);
            },
        };
        let ghost mid = graph.net();
        let mut t: usize = 0;
        while t < targets.len()
            invariant
                before == *old(graph),
                graph.wf(),
                0 <= t <= targets.len(),
                from < graph.nodes().len(),
                graph.nodes()[from as int].0 == map_id,
                graph.nodes() == mid.nodes,
                graph.edges() == with_fan(mid.edges, from, targets@, t as int),
                graph.edges().len() == mid.edges.len() + t,
                with_fan(mid.edges, from, targets@, targets@.len() as int).len() == mid.edges.len()
                    + targets@.len(),
                !net_fits(
                    Net {
                        nodes: mid.nodes,
                        edges: with_fan(mid.edges, from, targets@, targets@.len() as int),
                    },
                ) ==> !net_fits(
                    with_transports(
                        before.net(),
                        map_id,
                        sources@,
                        targets@,
                        sources@.len() as int,
                    ),
                ),
                before.nodes().len() <= mid.nodes.len(),
                forall|k: int| 0 <= k < before.nodes().len() ==> mid.nodes[k] == before.nodes()[k],
                forall|u: int|
                    0 <= u < targets@.len() ==> (#[trigger] targets@[u]) < mid.nodes.len()
                        && mid.nodes[targets@[u] as int].0 != map_id,
            decreases targets.len() - t,
        {
            let linked = graph.add_transport(from, targets[t]);
            match linked {
                Ok(()) => {},
                Err(e) => {
                    return Err(e);
                },
            }
            t = t + 1;
        }
        s = s + 1;
    }
    Ok(())
}

/// Looks at each of `segments` in order: where the straight line between
/// the cells of its ends can be walked on `grid`, interns both ends as
/// waypoints of the map `map_id` and joins them by a walking link in each
/// direction.  A segment whose ends are the same waypoint is passed over.
/// Fails with `CapacityExceeded` when the graph cannot hold all the nodes
/// and links; it may then hold some of them.
pub fn link_walks(graph: &mut NavGraph, grid: &Grid, map_id: u16, segments: &Vec<Segment>) -> (result:
    Result<(), PrepareError>)
    requires
        old(graph).wf(),
        grid.wf(),
    ensures
        final(graph).wf(),
        match result {
            Ok(()) => final(graph).net() == with_walks(
                old(graph).net(),
                *grid,
                map_id,
                segments@,
                segments@.len() as int,
            ),
            Err(e) => e == PrepareError::CapacityExceeded && !net_fits(
                with_walks(old(graph).net(), *grid, map_id, segments@, segments@.len() as int),
            ),
        },
{
    let ghost before = *graph;
    let mut i: usize = 0;
    while i < segments.len()
        invariant
            before == *old(graph),
            graph.wf(),
            grid.wf(),
            0 <= i <= segments.len(),
            graph.net() == with_walks(before.net(), *grid, map_id, segments@, i as int),
        decreases segments.len() - i,
    {
        let segment = &segments[i];
        let distinct: bool = segment.from.x.bits != segment.to.x.bits || segment.from.y.bits
            != segment.to.y.bits;
        if distinct && grid.can_walk_path(
            segment.from.x.cell(),
            segment.from.y.cell(),
            segment.to.x.cell(),
            segment.to.y.cell(),
        ) {
            let a = Node { map_id, x: segment.from.x.bits, y: segment.from.y.bits };
            let b = Node { map_id, x: segment.to.x.bits, y: segment.to.y.bits };
            let ghost start = graph.net();
            proof {
                lemma_intern_grows(start.nodes, a.key());
                lemma_intern_grows(intern(start.nodes, a.key()), b.key());
                lemma_walks_grow(
                    before.net(),
                    *grid,
                    map_id,
                    segments@,
                    i + 1,
                    segments@.len() as int,
                );
            }
            let first = graph.get_or_add_node(&a);
            let ia = match first {
                Ok(k) => k,
                Err(e) => {
                    return Err(e);
                },
            };
            let second = graph.get_or_add_node(&b);
            let ib = match second {
                Ok(k) => k,
                Err(e) => {
                    return Err(e);
                },
            };
            proof {
                assert(graph.nodes()[ia as int] == a.key());
                graph.lemma_place(ia as int);
                assert(ia != ib);
            }
            let linked = graph.add_walk(ia, ib);
            match linked {
                Ok(()) => {},
                Err(e) => {
                    return Err(e);
                },
            }
        }
        i = i + 1;
    }
    Ok(())
}

} // verus!

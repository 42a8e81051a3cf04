//! Linking one prepared map into the navigation graph.
//!
//! [`transporter_positions`] tells where the transporters of a map stand,
//! so that the triangulation can take them in.  [`link_map`] takes the
//! waypoints of the map and what the triangulation found, and adds them to
//! the graph: the waypoints and the spawn points as nodes, a transporter
//! link from every waypoint near a transporter to the spawn point of each
//! map that transporters lead to, and a walking link for every edge of the
//! triangulation that can be walked.
//!
//! Nodes, links and map names are counted as they are added: linking fails
//! for lack of room only when something new would not fit.

use crate::assemble::{
    intern_points, lemma_points_grow, lemma_transports_grow, lemma_walks_grow, link_transports,
    link_walks, net_fits, positions_of, spawn_points, with_points, with_transports, with_walks,
    Net, Point, Segment,
};
use crate::error::PrepareError;
use crate::coord::Coord;
use crate::g::{entry_index, find_entry, has_entry, GData, GMap, GNpc};
use crate::grid::Grid;
use crate::navgraph::{intern, NavGraph, Node};
use crate::registry::{distinct_names, get_or_create_map_id, has_name, MapRegistry};
use crate::world::World;
use vstd::prelude::*;

verus! {

/// What the triangulation of a map found.
pub struct Mesh {
    /// For each transporter position of the map in turn, the waypoints
    /// within reach of it at the time when it was taken in.
    pub anchors: Vec<Vec<Point>>,
    /// The edges of the triangulation.
    pub edges: Vec<Segment>,
}

/// Whether a character is a transporter.
pub open spec fn is_transporter(npc: GNpc) -> bool {
    npc.id@ == "transporter"@
}

/// Whether a position has both of its coordinates.
pub open spec fn complete(position: Vec<Coord>) -> bool {
    position@.len() >= 2
}

/// The point that a position names.
pub open spec fn point_of(position: Vec<Coord>) -> Point {
    Point { x: position@[0], y: position@[1] }
}

/// The first `n` of a list of positions, as points, in order.
pub open spec fn points_of(positions: Seq<Vec<Coord>>, n: int) -> Seq<Point>
    decreases n,
{
    if n <= 0 {
        Seq::empty()
    } else {
        points_of(positions, n - 1).push(point_of(positions[n - 1]))
    }
}

/// Where a character stands if it is a transporter: its single position
/// first, then each of its listed positions.
pub open spec fn npc_points(npc: GNpc) -> Seq<Point> {
    if is_transporter(npc) {
        (match npc.position {
            Some(p) => seq![point_of(p)],
            None => Seq::empty(),
        }) + (match npc.positions {
            Some(list) => points_of(list@, list@.len() as int),
            None => Seq::empty(),
        })
    } else {
        Seq::empty()
    }
}

/// Whether every position of a character that is a transporter has both
/// of its coordinates.
pub open spec fn npc_complete(npc: GNpc) -> bool {
    is_transporter(npc) ==> {
        &&& npc.position matches Some(p) ==> complete(p)
        &&& npc.positions matches Some(list) ==> forall|i: int|
            0 <= i < list@.len() ==> complete(#[trigger] list@[i])
    }
}

/// The characters of a map, none if the map lists none.
pub open spec fn npcs_of(map: GMap) -> Seq<GNpc> {
    match map.npcs {
        Some(list) => list@,
        None => Seq::empty(),
    }
}

/// Where the transporters among the first `n` characters stand, in order.
pub open spec fn anchor_points(npcs: Seq<GNpc>, n: int) -> Seq<Point>
    decreases n,
{
    if n <= 0 {
        Seq::empty()
    } else {
        anchor_points(npcs, n - 1) + npc_points(npcs[n - 1])
    }
}

/// Whether every transporter among the characters has complete positions.
pub open spec fn npcs_complete(npcs: Seq<GNpc>) -> bool {
    forall|i: int| 0 <= i < npcs.len() ==> npc_complete(#[trigger] npcs[i])
}

/// Whether one of the characters is a transporter.
pub open spec fn has_transporter(npcs: Seq<GNpc>) -> bool {
    exists|i: int| 0 <= i < npcs.len() && is_transporter(#[trigger] npcs[i])
}

/// Whether a character is a transporter.
pub fn check_transporter(npc: &GNpc) -> (yes: bool)
    ensures
        yes == is_transporter(*npc),
{
    let name: String = "transporter".to_owned();
    npc.id == name
}

/// Where the transporters of a map stand, in the order of the characters:
/// for each transporter its single position, if it has one, then each of
/// its listed positions.  Fails with `MalformedInput` when a position of
/// a transporter lacks a coordinate.
pub fn transporter_positions(map: &GMap) -> (result: Result<Vec<Point>, PrepareError>)
    ensures
        match result {
            Ok(points) => npcs_complete(npcs_of(*map)) && points@ == anchor_points(
                npcs_of(*map),
                npcs_of(*map).len() as int,
            ),
            Err(e) => e == PrepareError::MalformedInput && !npcs_complete(npcs_of(*map)),
        },
{
    let mut points: Vec<Point> = Vec::new();
    let npcs = match &map.npcs {
        Some(list) => list,
        None => {
            return Ok(points);
        },
    };
    let mut i: usize = 0;
    while i < npcs.len()
        invariant
            map.npcs == Some(*npcs),
            0 <= i <= npcs.len(),
            points@ == anchor_points(npcs@, i as int),
            forall|k: int| 0 <= k < i ==> npc_complete(#[trigger] npcs@[k]),
        decreases npcs.len() - i,
    {
        let npc = &npcs[i];
        let ghost before = points@;
        if check_transporter(npc) {
            match &npc.position {
                Some(p) => {
                    if p.len() < 2 {
                        assert(!npc_complete(npcs@[i as int]));
                        return Err(PrepareError::MalformedInput);
                    }
                    points.push(Point { x: p[0], y: p[1] });
                },
                None => {},
            }
            let ghost middle = points@;
            match &npc.positions {
                Some(list) => {
                    let mut j: usize = 0;
                    while j < list.len()
                        invariant
                            map.npcs == Some(*npcs),
                            i < npcs.len(),
                            *npc == npcs@[i as int],
                            is_transporter(*npc),
                            npc.positions == Some(*list),
                            0 <= j <= list.len(),
                            points@ == middle + points_of(list@, j as int),
                            forall|k: int| 0 <= k < j ==> complete(#[trigger] list@[k]),
                        decreases list.len() - j,
                    {
                        let p = &list[j];
                        if p.len() < 2 {
                            proof {
                                assert(!complete(list@[j as int]));
                                if npc_complete(*npc) {
                                    assert(npc.positions matches Some(found) && found == *list);
                                    assert(complete(list@[j as int]));
                                }
                                assert(!npc_complete(npcs@[i as int]));
                            }
                            return Err(PrepareError::MalformedInput);
                        }
                        points.push(Point { x: p[0], y: p[1] });
                        assert(points@ =~= middle + points_of(list@, j + 1));
                        j = j + 1;
                    }
                },
                None => {
                    assert(points@ =~= middle + Seq::<Point>::empty());
                },
            }
            assert(points@ =~= before + npc_points(*npc));
        } else {
            assert(points@ =~= before + npc_points(*npc));
        }
        i = i + 1;
    }
    Ok(points)
}

/// Whether one of the characters of a map is a transporter.
pub fn any_transporter(map: &GMap) -> (yes: bool)
    ensures
        yes == has_transporter(npcs_of(*map)),
{
    match &map.npcs {
        None => false,
        Some(npcs) => {
            let mut i: usize = 0;
            while i < npcs.len()
                invariant
                    map.npcs == Some(*npcs),
                    0 <= i <= npcs.len(),
                    forall|k: int| 0 <= k < i ==> !is_transporter(#[trigger] npcs@[k]),
                decreases npcs.len() - i,
            {
                if check_transporter(&npcs[i]) {
                    return true;
                }
                i = i + 1;
            }
            false
        },
    }
}

/// The registry and the graph while the destinations of the transporters
/// are resolved, with the nodes resolved so far and the names of the
/// destinations that were passed over.
pub ghost struct Routing {
    pub names: Seq<Seq<char>>,
    pub nodes: Seq<(u16, u32, u32)>,
    pub targets: Seq<usize>,
    pub skipped: Seq<Seq<char>>,
}

/// The names of a registry after `name` has been looked up and, if it was
/// new, entered.
pub open spec fn enter(names: Seq<Seq<char>>, name: Seq<char>) -> Seq<Seq<char>> {
    if has_name(names, name) {
        names
    } else {
        names.push(name)
    }
}

/// A position at which `names` holds `name`.
pub open spec fn name_id(names: Seq<Seq<char>>, name: Seq<char>) -> u16 {
    (choose|i: int| 0 <= i < names.len() && #[trigger] names[i] == name) as u16
}

/// Whether a destination names a map of the world and a spawn point of
/// that map.
pub open spec fn destination_known(g: GData, place: (String, u32)) -> bool {
    has_entry(g.maps@, place.0@) && place.1 < g.map_of(place.0@).spawns@.len()
}

/// The routing after one destination has been looked at.  A destination on
/// the map itself is left out.  A destination that names no map of the
/// world, or no spawn point of its map, is passed over and noted.  For any
/// other, the map is entered in the registry, and the spawn point where
/// one arrives is interned as a node and becomes a target.
pub open spec fn with_place(r: Routing, g: GData, map_name: Seq<char>, place: (String, u32)) -> Routing {
    let dest = place.0@;
    if dest == map_name {
        r
    } else if !destination_known(g, place) {
        Routing { skipped: r.skipped.push(dest), ..r }
    } else {
        let names = enter(r.names, dest);
        let spawn = g.map_of(dest).spawns@[place.1 as int];
        let key = (name_id(names, dest), spawn.x.bits, spawn.y.bits);
        let nodes = intern(r.nodes, key);
        Routing { names, nodes, targets: r.targets.push(crate::navgraph::place(nodes, key)), skipped: r.skipped }
    }
}

/// The routing after the first `n` destinations have been looked at.
pub open spec fn with_places(
    r: Routing,
    g: GData,
    map_name: Seq<char>,
    places: Seq<(String, u32)>,
    n: int,
) -> Routing
    decreases n,
{
    if n <= 0 {
        r
    } else {
        with_place(with_places(r, g, map_name, places, n - 1), g, map_name, places[n - 1])
    }
}

/// The names under which destinations were passed over.
pub open spec fn names_of(list: Seq<String>) -> Seq<Seq<char>> {
    Seq::new(list.len(), |i: int| list[i]@)
}

/// Resolves the destinations of the transporters of the map `map_name`,
/// whose id is `map_id`: returns the node of each destination in the
/// graph, and the names of the destinations that were passed over.
pub(crate) fn resolve_destinations(
    registry: &mut MapRegistry,
    graph: &mut NavGraph,
    g: &GData,
    map_name: &String,
    map_id: u16,
    places: &Vec<(String, u32)>,
) -> (result: Result<(Vec<usize>, Vec<String>), PrepareError>)
    requires
        old(registry).wf(),
        old(graph).wf(),
        map_id < old(registry)@.len(),
        old(registry)@[map_id as int] == map_name@,
    ensures
        final(registry).wf(),
        final(graph).wf(),
        final(graph).edges() == old(graph).edges(),
        final(registry)@[map_id as int] == map_name@,
        ({
            let start = Routing {
                names: old(registry)@,
                nodes: old(graph).nodes(),
                targets: Seq::empty(),
                skipped: Seq::empty(),
            };
            let end = with_places(start, *g, map_name@, places@, places@.len() as int);
            match result {
                Ok(found) => {
                    &&& final(registry)@ == end.names
                    &&& final(graph).nodes() == end.nodes
                    &&& found.0@ == end.targets
                    &&& names_of(found.1@) == end.skipped
                    &&& forall|t: int|
                        0 <= t < found.0@.len() ==> (#[trigger] found.0@[t])
                            < final(graph).nodes().len()
                            && final(graph).nodes()[found.0@[t] as int].0 != map_id
                },
                Err(e) => e == PrepareError::CapacityExceeded && (end.names.len() > 0x1_0000
                    || end.nodes.len() > 0xffff_ffff),
            }
        }),
{
    let ghost start = Routing {
        names: registry@,
        nodes: graph.nodes(),
        targets: Seq::empty(),
        skipped: Seq::empty(),
    };
    let ghost first_names = registry@;
    let ghost first_nodes = graph.nodes();
    let mut targets: Vec<usize> = Vec::new();
    let mut skipped: Vec<String> = Vec::new();
    let mut i: usize = 0;
    proof {
        assert(names_of(skipped@) =~= start.skipped);
    }
    while i < places.len()
        invariant
            start == (Routing {
                names: old(registry)@,
                nodes: old(graph).nodes(),
                targets: Seq::empty(),
                skipped: Seq::empty(),
            }),
            registry.wf(),
            graph.wf(),
            0 <= i <= places.len(),
            map_id < registry@.len(),
            registry@[map_id as int] == map_name@,
            graph.edges() == old(graph).edges(),
            ({
                let now = with_places(start, *g, map_name@, places@, i as int);
                &&& registry@ == now.names
                &&& graph.nodes() == now.nodes
                &&& targets@ == now.targets
                &&& names_of(skipped@) == now.skipped
            }),
            forall|t: int|
                0 <= t < targets@.len() ==> (#[trigger] targets@[t]) < graph.nodes().len()
                    && graph.nodes()[targets@[t] as int].0 != map_id,
        decreases places.len() - i,
    {
        let place = &places[i];
        let ghost prev = with_places(start, *g, map_name@, places@, i as int);
        if place.0 == *map_name {
            // A transporter does not lead to the map it stands on.
        } else {
            let known = match find_entry(&g.maps, &place.0) {
                Some(m) => {
                    if (place.1 as usize) < g.maps[m].1.spawns.len() {
                        Some(g.maps[m].1.spawns[place.1 as usize])
                    } else {
                        None
                    }
                },
                None => None,
            };
            match known {
                None => {
                    let ghost before = skipped@;
                    skipped.push(place.0.clone());
                    proof {
                        assert(names_of(skipped@) =~= names_of(before).push(place.0@));
                    }
                },
                Some(spawn) => {
                    let ghost names_before = registry@;
                    let ghost nodes_before = graph.nodes();
                    let ghost targets_before = targets@;
                    proof {
                        lemma_places_grow(
                            start,
                            *g,
                            map_name@,
                            places@,
                            i + 1,
                            places@.len() as int,
                        );
                    }
                    if registry.find(&place.0).is_none() && registry.names.len() >= 0x1_0000 {
                        return Err(PrepareError::CapacityExceeded);
                    }
                    let dest_id: u16 = get_or_create_map_id(registry, place.0.as_str());
                    proof {
                        assert(registry@ == enter(names_before, place.0@));
                        lemma_name_id(registry@, dest_id as int);
                        if dest_id == map_id {
                            crate::registry::lemma_id_unique(*registry, dest_id as int, map_id as int);
                        }
                        assert(registry@[map_id as int] == map_name@);
                    }
                    let node = Node { map_id: dest_id, x: spawn.x.bits, y: spawn.y.bits };
                    proof {
                        crate::assemble::lemma_intern_grows(nodes_before, node.key());
                    }
                    let added = graph.get_or_add_node(&node);
                    let index = match added {
                        Ok(k) => k,
                        Err(e) => {
                            return Err(e);
                        },
                    };
                    targets.push(index);
                    proof {
                        assert forall|t: int| 0 <= t < targets@.len() implies (
                        #[trigger] targets@[t]) < graph.nodes().len()
                            && graph.nodes()[targets@[t] as int].0 != map_id by {
                            if t < targets_before.len() {
                                assert(targets@[t] == targets_before[t]);
                                assert(graph.nodes()[targets_before[t] as int]
                                    == nodes_before[targets_before[t] as int]);
                            }
                        }
                    }
                },
            }
        }
        i = i + 1;
    }
    Ok((targets, skipped))
}

/// Looking at more destinations never makes the registry or the list of
/// nodes shorter.
pub proof fn lemma_places_grow(
    r: Routing,
    g: GData,
    map_name: Seq<char>,
    places: Seq<(String, u32)>,
    i: int,
    n: int,
)
    requires
        0 <= i <= n,
    ensures
        r.names.len() <= with_places(r, g, map_name, places, i).names.len() <= with_places(
            r,
            g,
            map_name,
            places,
            n,
        ).names.len(),
        r.nodes.len() <= with_places(r, g, map_name, places, i).nodes.len() <= with_places(
            r,
            g,
            map_name,
            places,
            n,
        ).nodes.len(),
    decreases n,
{
    if n > 0 {
        if i < n {
            lemma_places_grow(r, g, map_name, places, i, n - 1);
        } else {
            lemma_places_grow(r, g, map_name, places, i - 1, n - 1);
        }
        let prev = with_places(r, g, map_name, places, n - 1);
        let place = places[n - 1];
        if place.0@ != map_name && destination_known(g, place) {
            let names = enter(prev.names, place.0@);
            let spawn = g.map_of(place.0@).spawns@[place.1 as int];
            crate::assemble::lemma_intern_grows(
                prev.nodes,
                (name_id(names, place.0@), spawn.x.bits, spawn.y.bits),
            );
        }
    }
}

/// In a registry without repeats, the id of a name is its position.
pub proof fn lemma_name_id(names: Seq<Seq<char>>, i: int)
    requires
        distinct_names(names),
        names.len() <= 0x1_0000,
        0 <= i < names.len(),
    ensures
        name_id(names, names[i]) == i,
{
    let j = choose|j: int| 0 <= j < names.len() && #[trigger] names[j] == names[i];
    if i < j {
        assert(names[i] != names[j]);
    }
    if j < i {
        assert(names[j] != names[i]);
    }
}

/// The graph after the waypoints near each of the first `n` transporter
/// positions have been linked to every target.
pub open spec fn with_anchors(
    net: Net,
    map_id: u16,
    anchors: Seq<Vec<Point>>,
    targets: Seq<usize>,
    n: int,
) -> Net
    decreases n,
{
    if n <= 0 {
        net
    } else {
        with_transports(
            with_anchors(net, map_id, anchors, targets, n - 1),
            map_id,
            anchors[n - 1]@,
            targets,
            anchors[n - 1]@.len() as int,
        )
    }
}

/// Linking the waypoints near more transporter positions never makes the
/// graph smaller.
pub proof fn lemma_anchors_grow(
    net: Net,
    map_id: u16,
    anchors: Seq<Vec<Point>>,
    targets: Seq<usize>,
    i: int,
    n: int,
)
    requires
        0 <= i <= n,
    ensures
        net.nodes.len() <= with_anchors(net, map_id, anchors, targets, i).nodes.len()
            <= with_anchors(net, map_id, anchors, targets, n).nodes.len(),
        net.edges.len() <= with_anchors(net, map_id, anchors, targets, i).edges.len()
            <= with_anchors(net, map_id, anchors, targets, n).edges.len(),
    decreases n,
{
    if n > 0 {
        if i < n {
            lemma_anchors_grow(net, map_id, anchors, targets, i, n - 1);
        } else {
            lemma_anchors_grow(net, map_id, anchors, targets, i - 1, n - 1);
        }
        lemma_transports_grow(
            with_anchors(net, map_id, anchors, targets, n - 1),
            map_id,
            anchors[n - 1]@,
            targets,
            0,
            anchors[n - 1]@.len() as int,
        );
    }
}

/// The destinations that the catalogue gives for transporters: none if
/// it has no entry for them or the entry names no places.
pub open spec fn places_of(g: GData) -> Seq<(String, u32)> {
    if has_entry(g.npcs@, "transporter"@) {
        match g.npcs@[entry_index(g.npcs@, "transporter"@)].1.places {
            Some(places) => places@,
            None => Seq::empty(),
        }
    } else {
        Seq::empty()
    }
}

/// The registry and the graph after a map has been linked, with the
/// names of the destinations that were passed over.
pub ghost struct Linked {
    pub names: Seq<Seq<char>>,
    pub net: Net,
    pub skipped: Seq<Seq<char>>,
}

/// The nodes after the waypoints of a map and then its spawn points have
/// been interned.
pub open spec fn with_sites(
    nodes: Seq<(u16, u32, u32)>,
    map_id: u16,
    waypoints: Seq<Point>,
    map: GMap,
) -> Seq<(u16, u32, u32)> {
    with_points(
        with_points(nodes, map_id, waypoints, waypoints.len() as int),
        map_id,
        positions_of(map.spawns@),
        map.spawns@.len() as int,
    )
}

/// The registry and the list of nodes after the destinations of the
/// transporters have been resolved, if a transporter stands on the map.
pub open spec fn with_routes(
    names: Seq<Seq<char>>,
    nodes: Seq<(u16, u32, u32)>,
    g: GData,
    map_name: Seq<char>,
) -> Routing {
    let start = Routing { names, nodes, targets: Seq::empty(), skipped: Seq::empty() };
    if has_transporter(npcs_of(g.map_of(map_name))) {
        with_places(start, g, map_name, places_of(g), places_of(g).len() as int)
    } else {
        start
    }
}

/// What linking a map makes of the registry and the graph.  The waypoints
/// at the corners are interned, then the spawn points.  If a transporter
/// stands on the map, the destinations of transporters are resolved, and
/// the waypoints near each transporter position are interned and linked to
/// every destination.  Last, each edge of the triangulation that can be
/// walked becomes a walking link between its ends.
pub open spec fn link_model(
    names: Seq<Seq<char>>,
    net: Net,
    g: GData,
    map_name: Seq<char>,
    map_id: u16,
    grid: Grid,
    waypoints: Seq<Point>,
    mesh: Mesh,
) -> Linked {
    let sites = with_sites(net.nodes, map_id, waypoints, g.map_of(map_name));
    let routed = with_routes(names, sites, g, map_name);
    let jumps = with_anchors(
        Net { nodes: routed.nodes, edges: net.edges },
        map_id,
        mesh.anchors@,
        routed.targets,
        mesh.anchors@.len() as int,
    );
    Linked {
        names: routed.names,
        net: with_walks(jumps, grid, map_id, mesh.edges@, mesh.edges@.len() as int),
        skipped: routed.skipped,
    }
}

/// Whether the registry and the graph can hold what linking makes of them:
/// no more than 65536 names, and no more nodes or edges than a 32-bit
/// index can number.
pub open spec fn linked_fits(linked: Linked) -> bool {
    linked.names.len() <= 0x1_0000 && net_fits(linked.net)
}

/// Whether a map can be linked: the world describes it, its grid has been
/// prepared, its transporters have complete positions, and the mesh has
/// one list of waypoints for each transporter position.
pub open spec fn linkable(world: World, g: GData, map_name: Seq<char>, mesh: Mesh) -> bool {
    &&& has_entry(g.maps@, map_name)
    &&& has_name(world.registry@, map_name)
    &&& world.grids.has(map_name)
    &&& npcs_complete(npcs_of(g.map_of(map_name)))
    &&& mesh.anchors@.len() == anchor_points(
        npcs_of(g.map_of(map_name)),
        npcs_of(g.map_of(map_name)).len() as int,
    ).len()
}

/// What linking the map makes of this world.
pub open spec fn linked_world(
    world: World,
    g: GData,
    map_name: Seq<char>,
    waypoints: Seq<Point>,
    mesh: Mesh,
) -> Linked {
    link_model(
        world.registry@,
        world.graph.net(),
        g,
        map_name,
        name_id(world.registry@, map_name),
        world.grids.lookup(map_name)->0,
        waypoints,
        mesh,
    )
}

/// Why a map cannot be linked, if it cannot: `MalformedInput` when it is
/// not linkable, `CapacityExceeded` when it is but the registry or the
/// graph cannot hold what linking would make of them.
pub open spec fn link_failure(
    world: World,
    g: GData,
    map_name: Seq<char>,
    waypoints: Seq<Point>,
    mesh: Mesh,
) -> Option<PrepareError> {
    if !linkable(world, g, map_name, mesh) {
        Some(PrepareError::MalformedInput)
    } else if !linked_fits(linked_world(world, g, map_name, waypoints, mesh)) {
        Some(PrepareError::CapacityExceeded)
    } else {
        None
    }
}

/// Each step of linking leaves the registry and the graph at least as
/// large as it found them.
pub proof fn lemma_model_grows(
    names: Seq<Seq<char>>,
    net: Net,
    g: GData,
    map_name: Seq<char>,
    map_id: u16,
    grid: Grid,
    waypoints: Seq<Point>,
    mesh: Mesh,
)
    ensures
        ({
            let map = g.map_of(map_name);
            let corners = with_points(net.nodes, map_id, waypoints, waypoints.len() as int);
            let sites = with_sites(net.nodes, map_id, waypoints, map);
            let routed = with_routes(names, sites, g, map_name);
            let jumps = with_anchors(
                Net { nodes: routed.nodes, edges: net.edges },
                map_id,
                mesh.anchors@,
                routed.targets,
                mesh.anchors@.len() as int,
            );
            let last = link_model(names, net, g, map_name, map_id, grid, waypoints, mesh);
            &&& net.nodes.len() <= corners.len() <= sites.len() <= routed.nodes.len()
                <= jumps.nodes.len() <= last.net.nodes.len()
            &&& net.edges.len() <= jumps.edges.len() <= last.net.edges.len()
            &&& names.len() <= routed.names.len()
            &&& last.names == routed.names
        }),
{
    let map = g.map_of(map_name);
    let corners = with_points(net.nodes, map_id, waypoints, waypoints.len() as int);
    let sites = with_sites(net.nodes, map_id, waypoints, map);
    let routed = with_routes(names, sites, g, map_name);
    let before_jumps = Net { nodes: routed.nodes, edges: net.edges };
    let jumps = with_anchors(
        before_jumps,
        map_id,
        mesh.anchors@,
        routed.targets,
        mesh.anchors@.len() as int,
    );
    lemma_points_grow(net.nodes, map_id, waypoints, 0, waypoints.len() as int);
    lemma_points_grow(corners, map_id, positions_of(map.spawns@), 0, map.spawns@.len() as int);
    let start = Routing { names, nodes: sites, targets: Seq::empty(), skipped: Seq::empty() };
    lemma_places_grow(start, g, map_name, places_of(g), 0, places_of(g).len() as int);
    lemma_anchors_grow(
        before_jumps,
        map_id,
        mesh.anchors@,
        routed.targets,
        0,
        mesh.anchors@.len() as int,
    );
    lemma_walks_grow(jumps, grid, map_id, mesh.edges@, 0, mesh.edges@.len() as int);
}

/// The destinations that the catalogue gives for transporters.
pub fn transporter_places(g: &GData) -> (places: Option<&Vec<(String, u32)>>)
    ensures
        match places {
            Some(list) => list@ == places_of(*g),
            None => places_of(*g).len() == 0,
        },
{
    let name: String = "transporter".to_owned();
    match find_entry(&g.npcs, &name) {
        Some(i) => match &g.npcs[i].1.places {
            Some(list) => Some(list),
            None => None,
        },
        None => None,
    }
}

/// Adds a prepared map to the navigation graph: its waypoints, and what
/// its triangulation found.  Returns the names of the transporter
/// destinations that were passed over because the world has no such map
/// or the map has no such spawn point.
///
/// Fails with `MalformedInput` when the map cannot be linked, and leaves
/// the world as it was.  Fails with `CapacityExceeded` when the registry
/// or the graph cannot hold what linking would make of them; they may then
/// hold part of it, and the grids are as they were.
pub fn link_map(
    world: &mut World,
    g: &GData,
    map_name: &String,
    waypoints: &Vec<Point>,
    mesh: &Mesh,
) -> (result: Result<Vec<String>, PrepareError>)
    requires
        old(world).wf(),
    ensures
        final(world).wf(),
        final(world).grids == old(world).grids,
        match result {
            Ok(skipped) => {
                let linked = linked_world(*old(world), *g, map_name@, waypoints@, *mesh);
                &&& link_failure(*old(world), *g, map_name@, waypoints@, *mesh).is_none()
                &&& final(world).registry@ == linked.names
                &&& final(world).graph.net() == linked.net
                &&& names_of(skipped@) == linked.skipped
            },
            Err(e) => {
                &&& link_failure(*old(world), *g, map_name@, waypoints@, *mesh) == Some(e)
                &&& e == PrepareError::MalformedInput ==> *final(world) == *old(world)
            },
        },
{
    let map = match find_entry(&g.maps, map_name) {
        Some(i) => &g.maps[i].1,
        None => {
            return Err(PrepareError::MalformedInput);
        },
    };
    let map_id: u16 = match world.registry.find(map_name) {
        Some(id) => id,
        None => {
            return Err(PrepareError::MalformedInput);
        },
    };
    let grid_index: usize = match world.grids.find(map_name) {
        Some(i) => i,
        None => {
            return Err(PrepareError::MalformedInput);
        },
    };
    let anchor_count: usize = match transporter_positions(map) {
        Ok(points) => points.len(),
        Err(e) => {
            return Err(e);
        },
    };
    if mesh.anchors.len() != anchor_count {
        return Err(PrepareError::MalformedInput);
    }
    let no_places: Vec<(String, u32)> = Vec::new();
    let places: &Vec<(String, u32)> = match transporter_places(g) {
        Some(list) => list,
        None => &no_places,
    };
    assert(places@ =~= places_of(*g));
    let ghost first = *world;
    let ghost net0 = world.graph.net();
    let ghost grid = world.grids.lookup(map_name@)->0;
    let ghost sites = with_sites(net0.nodes, map_id, waypoints@, *map);
    let ghost routed = with_routes(first.registry@, sites, *g, map_name@);
    let ghost last = link_model(
        first.registry@,
        net0,
        *g,
        map_name@,
        map_id,
        grid,
        waypoints@,
        *mesh,
    );
    proof {
        lemma_name_id(world.registry@, map_id as int);
        lemma_model_grows(first.registry@, net0, *g, map_name@, map_id, grid, waypoints@, *mesh);
        assert(last == linked_world(first, *g, map_name@, waypoints@, *mesh));
        assert(linkable(first, *g, map_name@, *mesh));
    }
    let corners_in = intern_points(&mut world.graph, map_id, waypoints);
    match corners_in {
        Ok(()) => {},
        Err(e) => {
            return Err(e);
        },
    }
    let spawns = spawn_points(&map.spawns);
    let spawns_in = intern_points(&mut world.graph, map_id, &spawns);
    match spawns_in {
        Ok(()) => {},
        Err(e) => {
            return Err(e);
        },
    }
    let (targets, skipped) = if any_transporter(map) {
        let found = resolve_destinations(
            &mut world.registry,
            &mut world.graph,
            g,
            map_name,
            map_id,
            places,
        );
        match found {
            Ok(pair) => pair,
            Err(e) => {
                return Err(e);
            },
        }
    } else {
        (Vec::new(), Vec::new())
    };
    proof {
        assert(names_of(skipped@) =~= routed.skipped);
        assert(targets@ =~= routed.targets);
    }
    let ghost net3 = world.graph.net();
    let mut k: usize = 0;
    while k < mesh.anchors.len()
        invariant
            first == *old(world),
            last == linked_world(first, *g, map_name@, waypoints@, *mesh),
            linkable(first, *g, map_name@, *mesh),
            world.wf(),
            world.grids == first.grids,
            world.registry@ == routed.names,
            last.names == routed.names,
            0 <= k <= mesh.anchors.len(),
            net3 == (Net { nodes: routed.nodes, edges: net0.edges }),
            last.net == with_walks(
                with_anchors(net3, map_id, mesh.anchors@, targets@, mesh.anchors@.len() as int),
                grid,
                map_id,
                mesh.edges@,
                mesh.edges@.len() as int,
            ),
            world.graph.net() == with_anchors(net3, map_id, mesh.anchors@, targets@, k as int),
            net3.nodes.len() <= world.graph.nodes().len(),
            forall|i: int|
                0 <= i < net3.nodes.len() ==> world.graph.nodes()[i] == net3.nodes[i],
            forall|t: int|
                0 <= t < targets@.len() ==> (#[trigger] targets@[t]) < net3.nodes.len()
                    && net3.nodes[targets@[t] as int].0 != map_id,
        decreases mesh.anchors.len() - k,
    {
        proof {
            lemma_anchors_grow(
                net3,
                map_id,
                mesh.anchors@,
                targets@,
                k + 1,
                mesh.anchors@.len() as int,
            );
            lemma_walks_grow(
                with_anchors(net3, map_id, mesh.anchors@, targets@, mesh.anchors@.len() as int),
                grid,
                map_id,
                mesh.edges@,
                0,
                mesh.edges@.len() as int,
            );
        }
        let jumped = link_transports(&mut world.graph, map_id, &mesh.anchors[k], &targets);
        match jumped {
            Ok(()) => {},
            Err(e) => {
                return Err(e);
            },
        }
        k = k + 1;
    }
    let walked = link_walks(
        &mut world.graph,
        first_grid(&world.grids, grid_index),
        map_id,
        &mesh.edges,
    );
    match walked {
        Ok(()) => Ok(skipped),
        Err(e) => Err(e),
    }
}

/// The grid at a position of the store.
fn first_grid(store: &crate::store::GridStore, index: usize) -> (grid: &Grid)
    requires
        store.wf(),
        index < store.grids@.len(),
    ensures
        *grid == store.grids@[index as int],
        grid.wf(),
{
    &store.grids[index]
}

} // verus!

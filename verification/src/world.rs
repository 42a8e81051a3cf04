//! The prepared world and the queries on it.
//!
//! A [`World`] holds what preparation builds: the registry of map names,
//! the grid of each prepared map and the navigation graph.  Preparation
//! fills it; the queries read it.

use crate::assemble::{cell_points, positions_at, Point};
use crate::builder::filled;
use crate::corners::{detect_corners, lists_corners};
use crate::error::PrepareError;
use crate::g::{find_entry, GData};
use crate::grid::Grid;
use crate::link::{npcs_complete, npcs_of, transporter_positions};
use crate::navgraph::NavGraph;
use crate::registry::{get_or_create_map_id, has_name, MapRegistry};
use crate::scratch::Scratch;
use crate::store::GridStore;
use vstd::prelude::*;

verus! {

/// Everything that preparation builds.
pub struct World {
    pub registry: MapRegistry,
    pub grids: GridStore,
    pub graph: NavGraph,
}

/// What preparing a map hands on to the triangulation: the id of the map,
/// the scratch grid, the corners of the walkable area in world coordinates,
/// and the waypoints at those corners.
pub struct MapSite {
    pub map_id: u16,
    pub scratch: Scratch,
    pub corners: Vec<(i32, i32)>,
    pub waypoints: Vec<Point>,
}

impl World {
    /// Each part of the world is sound.
    pub open spec fn wf(&self) -> bool {
        &&& self.registry.wf()
        &&& self.grids.wf()
        &&& self.graph.wf()
    }

    /// Whether world position `(x, y)` of the map `name` is walkable.  No
    /// position of a map without a grid is.
    pub open spec fn walkable(&self, name: Seq<char>, x: int, y: int) -> bool {
        match self.grids.lookup(name) {
            Some(grid) => grid.walkable_at(x, y),
            None => false,
        }
    }

    /// Whether the straight segment between two world positions of the map
    /// `name` can be walked.  No segment of a map without a grid can.
    pub open spec fn walkable_path(&self, name: Seq<char>, x1: int, y1: int, x2: int, y2: int) -> bool {
        match self.grids.lookup(name) {
            Some(grid) => grid.walkable_path(x1, y1, x2, y2),
            None => false,
        }
    }

    /// A world in which nothing has been prepared: every query answers
    /// `false`.
    pub fn new() -> (world: World)
        ensures
            world.wf(),
            world.registry@.len() == 0,
            world.graph.nodes().len() == 0,
            world.graph.edges().len() == 0,
            forall|name: Seq<char>| !#[trigger] world.grids.has(name),
    {
        World { registry: MapRegistry::new(), grids: GridStore::new(), graph: NavGraph::new() }
    }
}

/// Whether world position `(x, y)` of the map `map_name` is walkable.
pub fn is_walkable(world: &World, map_name: &str, x: i32, y: i32) -> (open: bool)
    requires
        world.wf(),
    ensures
        open == world.walkable(map_name@, x as int, y as int),
{
    let name: String = map_name.to_owned();
    match world.grids.get(&name) {
        Some(grid) => grid.is_walkable(x, y),
        None => false,
    }
}

/// Whether the straight segment from `(x1, y1)` to `(x2, y2)` on the map
/// `map_name` can be walked: every cell that the segment touches is
/// walkable.
pub fn can_walk_path(world: &World, map_name: &str, x1: i32, y1: i32, x2: i32, y2: i32) -> (open:
    bool)
    requires
        world.wf(),
    ensures
        open == world.walkable_path(map_name@, x1 as int, y1 as int, x2 as int, y2 as int),
{
    let name: String = map_name.to_owned();
    match world.grids.get(&name) {
        Some(grid) => grid.can_walk_path(x1, y1, x2, y2),
        None => false,
    }
}

/// What is wrong with the description of a map, if anything is.  The
/// reasons are looked for in this order: the world has no map or no
/// geometry under the name, or no grid can be built from them; a position
/// of a transporter of the map lacks a coordinate.
pub open spec fn description_failure(g: GData, name: Seq<char>) -> Option<PrepareError> {
    if !g.describes(name) {
        Some(PrepareError::MalformedInput)
    } else if g.geometry_of(name).build_failure(g.map_of(name).spawns@).is_some() {
        g.geometry_of(name).build_failure(g.map_of(name).spawns@)
    } else if !npcs_complete(npcs_of(g.map_of(name))) {
        Some(PrepareError::MalformedInput)
    } else {
        None
    }
}

/// Why a map cannot be prepared, if it cannot: what is wrong with its
/// description, or else `CapacityExceeded` when its name is new to the
/// registry `names` and the registry is full.
pub open spec fn prepare_failure(names: Seq<Seq<char>>, g: GData, name: Seq<char>) -> Option<
    PrepareError,
> {
    if description_failure(g, name).is_some() {
        description_failure(g, name)
    } else if !has_name(names, name) && names.len() >= 0x1_0000 {
        Some(PrepareError::CapacityExceeded)
    } else {
        None
    }
}

/// Prepares the map `map_name` up to its triangulation: builds its grid
/// from the geometry and the spawn points, stores the grid under the name
/// of the map, enters the name in the registry, and places a waypoint at
/// each corner of the walkable area.  The graph stays as it was.
///
/// Fails with `MalformedInput` when the world has no map or no geometry
/// under the name, when the geometry is malformed, when a spawn point falls
/// outside the box, or when a position of a transporter lacks a coordinate;
/// with `CapacityExceeded` when the box is larger than a grid can be, or
/// when the name is new and the registry is full.  A failure leaves the
/// world as it was.
pub fn prepare_map(world: &mut World, g: &GData, map_name: &String) -> (result: Result<
    MapSite,
    PrepareError,
>)
    requires
        old(world).wf(),
    ensures
        final(world).wf(),
        final(world).graph == old(world).graph,
        match result {
            Ok(site) => {
                let geometry = g.geometry_of(map_name@);
                let spawns = g.map_of(map_name@).spawns@;
                &&& prepare_failure(old(world).registry@, *g, map_name@).is_none()
                &&& positions_at(site.waypoints@, site.corners@)
                &&& filled(geometry, site.scratch, spawns, spawns.len() as int)
                &&& lists_corners(
                    site.scratch,
                    geometry.min_x as int,
                    geometry.min_y as int,
                    site.corners@,
                )
                &&& final(world).grids.lookup(map_name@) matches Some(grid) && grid.built_from(
                    geometry,
                    spawns,
                )
                &&& forall|other: Seq<char>|
                    other != map_name@ ==> #[trigger] final(world).grids.lookup(other) == old(
                        world,
                    ).grids.lookup(other)
                &&& site.map_id < final(world).registry@.len()
                &&& final(world).registry@[site.map_id as int] == map_name@
                &&& final(world).registry@ == if has_name(old(world).registry@, map_name@) {
                    old(world).registry@
                } else {
                    old(world).registry@.push(map_name@)
                }
            },
            Err(e) => *final(world) == *old(world) && prepare_failure(
                old(world).registry@,
                *g,
                map_name@,
            ) == Some(e),
        },
{
    let map = match find_entry(&g.maps, map_name) {
        Some(i) => &g.maps[i].1,
        None => {
            return Err(PrepareError::MalformedInput);
        },
    };
    let geometry = match find_entry(&g.geometry, map_name) {
        Some(i) => &g.geometry[i].1,
        None => {
            return Err(PrepareError::MalformedInput);
        },
    };
    let (grid, scratch) = match Grid::build(geometry, &map.spawns) {
        Ok(built) => built,
        Err(e) => {
            return Err(e);
        },
    };
    match transporter_positions(map) {
        Ok(_) => {},
        Err(e) => {
            return Err(e);
        },
    }
    if world.registry.find(map_name).is_none() && world.registry.names.len() >= 0x1_0000 {
        return Err(PrepareError::CapacityExceeded);
    }
    let corners = detect_corners(&scratch, geometry.min_x, geometry.min_y);
    let waypoints = cell_points(&corners);
    world.grids.insert(map_name.clone(), grid);
    let map_id: u16 = get_or_create_map_id(&mut world.registry, map_name.as_str());
    Ok(MapSite { map_id, scratch, corners, waypoints })
}

/// Every spawn point of a prepared map that lies outside the clearance of
/// every wall is walkable.
pub proof fn lemma_world_spawn_walkable(world: World, g: GData, name: Seq<char>, i: int)
    requires
        world.grids.lookup(name) matches Some(grid) && grid.built_from(
            g.geometry_of(name),
            g.map_of(name).spawns@,
        ),
        0 <= i < g.map_of(name).spawns@.len(),
        g.geometry_of(name).open_cell(
            g.geometry_of(name).seed_of(g.map_of(name).spawns@[i]).0,
            g.geometry_of(name).seed_of(g.map_of(name).spawns@[i]).1,
        ),
    ensures
        world.walkable(
            name,
            g.map_of(name).spawns@[i].x.cell_of(),
            g.map_of(name).spawns@[i].y.cell_of(),
        ),
{
    crate::grid::lemma_spawn_walkable(
        world.grids.lookup(name)->0,
        g.geometry_of(name),
        g.map_of(name).spawns@,
        i,
    );
}

/// No position of a prepared map inside the clearance of a wall is
/// walkable.
pub proof fn lemma_world_wall_blocks(world: World, g: GData, name: Seq<char>, x: int, y: int)
    requires
        world.grids.lookup(name) matches Some(grid) && grid.built_from(
            g.geometry_of(name),
            g.map_of(name).spawns@,
        ),
        g.geometry_of(name).walled(x - g.geometry_of(name).min_x, y - g.geometry_of(name).min_y),
    ensures
        !world.walkable(name, x, y),
{
    crate::grid::lemma_wall_blocks(
        world.grids.lookup(name)->0,
        g.geometry_of(name),
        g.map_of(name).spawns@,
        x,
        y,
    );
}

/// A segment from a position to itself can be walked exactly when the
/// position is walkable.
pub proof fn lemma_world_path_to_self(world: World, name: Seq<char>, x: int, y: int)
    ensures
        world.walkable_path(name, x, y, x, y) == world.walkable(name, x, y),
{
    if world.grids.lookup(name) is Some {
        crate::grid::lemma_path_to_self(world.grids.lookup(name)->0, x, y);
    }
}

/// A segment can be walked in one direction exactly when it can be walked
/// in the other.
pub proof fn lemma_world_path_symmetric(
    world: World,
    name: Seq<char>,
    x1: int,
    y1: int,
    x2: int,
    y2: int,
)
    ensures
        world.walkable_path(name, x1, y1, x2, y2) == world.walkable_path(name, x2, y2, x1, y1),
{
    if world.grids.lookup(name) is Some {
        crate::grid::lemma_path_symmetric(world.grids.lookup(name)->0, x1, y1, x2, y2);
    }
}

/// Where a segment can be walked, every position that it touches is
/// walkable.
pub proof fn lemma_world_path_cells_walkable(
    world: World,
    name: Seq<char>,
    x1: int,
    y1: int,
    x2: int,
    y2: int,
    x: int,
    y: int,
)
    requires
        world.walkable_path(name, x1, y1, x2, y2),
        crate::supercover::on_supercover(x1, y1, x2, y2, x, y),
    ensures
        world.walkable(name, x, y),
{
    crate::grid::lemma_path_cells_walkable(world.grids.lookup(name)->0, x1, y1, x2, y2, x, y);
}

/// Preparing a map again from the same description changes no answer: two
/// worlds that each hold the grid of a map built from one description agree
/// on every position and on every segment of that map.
pub proof fn lemma_world_same_answers(first: World, second: World, g: GData, name: Seq<char>)
    requires
        first.grids.lookup(name) matches Some(grid) && grid.built_from(
            g.geometry_of(name),
            g.map_of(name).spawns@,
        ),
        second.grids.lookup(name) matches Some(grid) && grid.built_from(
            g.geometry_of(name),
            g.map_of(name).spawns@,
        ),
    ensures
        forall|x: int, y: int| first.walkable(name, x, y) == second.walkable(name, x, y),
        forall|x1: int, y1: int, x2: int, y2: int|
            first.walkable_path(name, x1, y1, x2, y2) == second.walkable_path(
                name,
                x1,
                y1,
                x2,
                y2,
            ),
{
    crate::grid::lemma_same_answers(
        first.grids.lookup(name)->0,
        second.grids.lookup(name)->0,
        g.geometry_of(name),
        g.map_of(name).spawns@,
    );
}

/// No walking link of the graph leads from a waypoint to itself.
pub proof fn lemma_walks_join_two(world: World, e: int)
    requires
        world.wf(),
        0 <= e < world.graph.edges().len(),
        world.graph.edges()[e].2 == crate::consts::WALK,
    ensures
        world.graph.edges()[e].0 != world.graph.edges()[e].1,
{
}

/// Every walking link of the graph has its reverse in the graph, under the
/// same label.
pub proof fn lemma_walks_come_in_pairs(world: World, e: int)
    requires
        world.wf(),
        0 <= e < world.graph.edges().len(),
        world.graph.edges()[e].2 == crate::consts::WALK,
    ensures
        exists|r: int|
            0 <= r < world.graph.edges().len() && #[trigger] world.graph.edges()[r] == (
                world.graph.edges()[e].1,
                world.graph.edges()[e].0,
                crate::consts::WALK,
            ),
{
}

/// Every transporter link of the graph leads from a waypoint of one map to
/// a waypoint of another.
pub proof fn lemma_transports_change_map(world: World, e: int)
    requires
        world.wf(),
        0 <= e < world.graph.edges().len(),
        world.graph.edges()[e].2 == crate::consts::TRANSPORT,
    ensures
        world.graph.nodes()[world.graph.edges()[e].0 as int].0
            != world.graph.nodes()[world.graph.edges()[e].1 as int].0,
{
}

} // verus!

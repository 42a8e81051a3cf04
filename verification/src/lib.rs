//! Walkability grids and a cross-map navigation graph for a tile-based world.
//!
//! A map is described by a bounding box, axis-aligned wall segments and spawn
//! points.  From that description the crate derives a packed grid of walkable
//! cells, answers point and straight-line walkability queries against it,
//! places waypoints at wall corners, and assembles a graph of walking and
//! transport links between waypoints.
//!
//! Positions that the host expresses as 32-bit floats are handled here by
//! their bit pattern, from which the integer cell is read off.
//!
//! A world is prepared in two passes.  [`prepare_grids`] builds the grid of
//! every map that is to be prepared and places its waypoints, or fails and
//! builds nothing; [`next_map`] and [`prepare_map`] are its steps.  The
//! caller then triangulates the waypoints of each map, and [`link_map`]
//! turns them and what the triangulation found into nodes and links of the
//! graph.  After that [`is_walkable`] and [`can_walk_path`] answer queries
//! from the prepared [`World`].

pub mod assemble;
pub mod bitstore;
pub mod builder;
pub mod consts;
pub mod coord;
pub mod corners;
pub mod decode;
pub mod driver;
pub mod error;
pub mod flood;
pub mod g;
pub mod graphstore;
pub mod grid;
pub mod link;
pub mod navgraph;
pub mod registry;
pub mod scratch;
pub mod store;
pub mod supercover;
pub mod world;

pub use crate::assemble::{Point, Segment};
pub use crate::coord::Coord;
pub use crate::decode::{decode_door, decode_doors, decode_spawn, decode_spawns, Field};
pub use crate::driver::{next_map, prepare_grids, Site};
pub use crate::error::PrepareError;
pub use crate::g::{GData, GDoor, GGeometry, GMap, GNpc, GNpcKind, GSpawn};
pub use crate::grid::Grid;
pub use crate::link::{link_map, transporter_positions, Mesh};
pub use crate::navgraph::{Edge, NavGraph, Node};
pub use crate::registry::{get_map_name, get_or_create_map_id, MapRegistry};
pub use crate::world::{can_walk_path, is_walkable, prepare_map, MapSite, World};

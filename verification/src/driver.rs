//! The order in which the maps of a world are prepared.
//!
//! Maps are prepared in the order in which the world lists them.  A map
//! that carries the `ignore` flag is left out, whatever the flag says.  A
//! name stands for the first map that the world lists under it: an entry
//! that repeats the name of an earlier one is never read, and is left out
//! too.
//!
//! [`next_map`] says which map comes next.  [`prepare_grids`] prepares the
//! grid of every such map into a new world, all of them or none.

use crate::assemble::{positions_at, Point};
use crate::builder::filled;
use crate::corners::lists_corners;
use crate::error::PrepareError;
use crate::g::{find_entry, first_named, GData};
use crate::registry::has_name;
use crate::scratch::Scratch;
use crate::world::{description_failure, prepare_map, World};
use vstd::prelude::*;

verus! {

/// Whether the map at position `i` of the world is to be prepared: it is
/// the first under its name and does not carry the `ignore` flag.
pub open spec fn wanted(g: GData, i: int) -> bool {
    &&& 0 <= i < g.maps@.len()
    &&& first_named(g.maps@, g.maps@[i].0@, i)
    &&& g.maps@[i].1.ignore.is_none()
}

/// The map that is to be prepared at position `i` is the map that the
/// world gives under its name.
pub proof fn lemma_wanted_is_found(g: GData, i: int)
    requires
        wanted(g, i),
    ensures
        g.map_of(g.maps@[i].0@) == g.maps@[i].1,
{
    crate::g::lemma_first_named_unique(
        g.maps@,
        g.maps@[i].0@,
        i,
        crate::g::entry_index(g.maps@, g.maps@[i].0@),
    );
}

/// The position of the first map at or after position `from` that is to be
/// prepared, if there is one.
pub fn next_map(g: &GData, from: usize) -> (next: Option<usize>)
    ensures
        match next {
            Some(i) => from <= i && wanted(*g, i as int) && forall|k: int|
                from <= k < i ==> !wanted(*g, k),
            None => forall|k: int| from <= k ==> !wanted(*g, k),
        },
{
    let mut i: usize = from;
    while i < g.maps.len()
        invariant
            from <= i,
            forall|k: int| from <= k < i ==> !wanted(*g, k),
        decreases g.maps.len() - i,
    {
        if g.maps[i].1.ignore.is_none() {
            match find_entry(&g.maps, &g.maps[i].0) {
                Some(first) => {
                    if first == i {
                        return Some(i);
                    }
                    proof {
                        if first_named(g.maps@, g.maps@[i as int].0@, i as int) {
                            crate::g::lemma_first_named_unique(
                                g.maps@,
                                g.maps@[i as int].0@,
                                first as int,
                                i as int,
                            );
                        }
                    }
                },
                None => {
                    assert(g.maps@[i as int].0@ == g.maps@[i as int].0@);
                },
            }
        }
        i = i + 1;
    }
    None
}

/// How many of the first `k` maps of the world are to be prepared.
pub open spec fn wanted_count(g: GData, k: int) -> int
    decreases k,
{
    if k <= 0 {
        0
    } else {
        wanted_count(g, k - 1) + if wanted(g, k - 1) {
            1int
        } else {
            0int
        }
    }
}

/// Why the map at position `k` cannot be prepared once the maps before it
/// have been, if it cannot: what is wrong with its description, or else
/// `CapacityExceeded` when 65536 maps have been prepared before it.
pub open spec fn grid_failure(g: GData, k: int) -> Option<PrepareError> {
    if description_failure(g, g.maps@[k].0@).is_some() {
        description_failure(g, g.maps@[k].0@)
    } else if wanted_count(g, k) >= 0x1_0000 {
        Some(PrepareError::CapacityExceeded)
    } else {
        None
    }
}

/// Whether `points` are the waypoints at the corners of the walkable area
/// of the map `name`.
pub open spec fn placed_at_corners(g: GData, name: Seq<char>, points: Seq<Point>) -> bool {
    exists|scratch: Scratch, corners: Seq<(i32, i32)>|
        filled(
            g.geometry_of(name),
            scratch,
            g.map_of(name).spawns@,
            g.map_of(name).spawns@.len() as int,
        ) && #[trigger] lists_corners(
            scratch,
            g.geometry_of(name).min_x as int,
            g.geometry_of(name).min_y as int,
            corners,
        ) && positions_at(points, corners)
}

/// The waypoints of one prepared map: the position of the map in the
/// world, its id, and the waypoints at the corners of its walkable area.
pub struct Site {
    pub map: usize,
    pub map_id: u16,
    pub waypoints: Vec<Point>,
}

/// Whether one of the first `k` maps of the world is to be prepared and
/// carries `name`.
pub open spec fn named_wanted(g: GData, k: int, name: Seq<char>) -> bool {
    exists|m: int| 0 <= m < k && #[trigger] wanted(g, m) && g.maps@[m].0@ == name
}

/// Whether `sites` holds one entry for each map that is to be prepared
/// among the first `k` of the world, in the order of the world, with the
/// waypoints of that map and the id that `names` gives it.
#[verifier::opaque]
pub open spec fn sites_cover(g: GData, names: Seq<Seq<char>>, sites: Seq<Site>, k: int) -> bool {
    &&& forall|j: int|
        0 <= j < sites.len() ==> {
            let site = #[trigger] sites[j];
            &&& site.map < k
            &&& wanted(g, site.map as int)
            &&& site.map_id < names.len()
            &&& names[site.map_id as int] == g.maps@[site.map as int].0@
            &&& placed_at_corners(g, g.maps@[site.map as int].0@, site.waypoints@)
        }
    &&& forall|i: int, j: int|
        0 <= i < j < sites.len() ==> (#[trigger] sites[i]).map < (#[trigger] sites[j]).map
    &&& forall|m: int|
        0 <= m < k && #[trigger] wanted(g, m) ==> exists|j: int|
            0 <= j < sites.len() && (#[trigger] sites[j]).map == m
}

/// Whether the world holds the grid of each map that is to be prepared
/// among the first `k` of `g`, built from its description, and no other.
#[verifier::opaque]
pub open spec fn grids_cover(g: GData, world: World, k: int) -> bool {
    &&& forall|m: int|
        0 <= m < k && #[trigger] wanted(g, m) ==> (world.grids.lookup(
            g.maps@[m].0@,
        ) matches Some(grid) && grid.built_from(
            g.geometry_of(g.maps@[m].0@),
            g.map_of(g.maps@[m].0@).spawns@,
        ))
    &&& forall|name: Seq<char>| #[trigger] world.grids.has(name) ==> named_wanted(g, k, name)
    &&& forall|r: int|
        0 <= r < world.registry@.len() ==> named_wanted(g, k, #[trigger] world.registry@[r])
}

/// Maps that are not to be prepared do not count.
pub proof fn lemma_count_skips(g: GData, i: int, k: int)
    requires
        0 <= i <= k,
        forall|m: int| i <= m < k ==> !wanted(g, m),
    ensures
        wanted_count(g, k) == wanted_count(g, i),
    decreases k - i,
{
    if i < k {
        lemma_count_skips(g, i, k - 1);
    }
}

/// Prepares the grid of every map of the world that is to be prepared, in
/// the order of the world, into a new world, and places the waypoints of
/// each.  Either every such map is prepared or nothing is: a failure hands
/// back no world at all.  The graph of the new world is empty.
///
/// Fails with the failure of the first map that cannot be prepared.
pub fn prepare_grids(g: &GData) -> (result: Result<(World, Vec<Site>), PrepareError>)
    ensures
        match result {
            Ok((world, sites)) => {
                &&& world.wf()
                &&& world.graph.nodes().len() == 0
                &&& world.graph.edges().len() == 0
                &&& world.registry@.len() == wanted_count(*g, g.maps@.len() as int)
                &&& forall|m: int| #[trigger] wanted(*g, m) ==> grid_failure(*g, m).is_none()
                &&& grids_cover(*g, world, g.maps@.len() as int)
                &&& sites_cover(*g, world.registry@, sites@, g.maps@.len() as int)
            },
            Err(e) => exists|k: int|
                #[trigger] wanted(*g, k) && grid_failure(*g, k) == Some(e) && forall|m: int|
                    0 <= m < k && #[trigger] wanted(*g, m) ==> grid_failure(*g, m).is_none(),
        },
{
    let mut world = World::new();
    let mut sites: Vec<Site> = Vec::new();
    let mut from: usize = 0;
    proof {
        reveal(grids_cover);
        reveal(sites_cover);
    }
    loop
        invariant
            world.wf(),
            world.graph.nodes().len() == 0,
            world.graph.edges().len() == 0,
            0 <= from <= g.maps@.len(),
            world.registry@.len() == wanted_count(*g, from as int),
            forall|m: int| 0 <= m < from && #[trigger] wanted(*g, m) ==> grid_failure(*g, m).is_none(),
            grids_cover(*g, world, from as int),
            sites_cover(*g, world.registry@, sites@, from as int),
        ensures
            world.wf(),
            world.graph.nodes().len() == 0,
            world.graph.edges().len() == 0,
            world.registry@.len() == wanted_count(*g, g.maps@.len() as int),
            forall|m: int| #[trigger] wanted(*g, m) ==> grid_failure(*g, m).is_none(),
            grids_cover(*g, world, g.maps@.len() as int),
            sites_cover(*g, world.registry@, sites@, g.maps@.len() as int),
        decreases g.maps@.len() - from,
    {
        let next = next_map(g, from);
        let k: usize = match next {
            Some(k) => k,
            None => {
                proof {
                    lemma_count_skips(*g, from as int, g.maps@.len() as int);
                    lemma_cover_skips(*g, world, sites@, from as int, g.maps@.len() as int);
                }
                break ;
            },
        };
        assert(k < g.maps.len());
        let ghost before = world;
        let ghost sites_before = sites@;
        proof {
            lemma_count_skips(*g, from as int, k as int);
            lemma_cover_skips(*g, world, sites@, from as int, k as int);
            lemma_name_is_new(*g, world, k as int);
        }
        let ghost name = g.maps@[k as int].0@;
        let prepared = prepare_map(&mut world, g, &g.maps[k].0);
        match prepared {
            Ok(site) => {
                proof {
                    assert(world.registry@ == before.registry@.push(name));
                    assert(site.map_id == before.registry@.len()) by {
                        if site.map_id < before.registry@.len() {
                            assert(before.registry@[site.map_id as int] == name);
                        }
                    }
                    assert(lists_corners(
                        site.scratch,
                        g.geometry_of(name).min_x as int,
                        g.geometry_of(name).min_y as int,
                        site.corners@,
                    ));
                    assert(placed_at_corners(*g, name, site.waypoints@));
                }
                sites.push(Site { map: k, map_id: site.map_id, waypoints: site.waypoints });
                proof {
                    lemma_cover_grows(*g, before, world, sites_before, sites@, k as int);
                }
            },
            Err(e) => {
                assert(wanted(*g, k as int) && grid_failure(*g, k as int) == Some(e));
                return Err(e);
            },
        }
        from = k + 1;
    }
    Ok((world, sites))
}

/// Passing over maps that are not to be prepared changes nothing.
proof fn lemma_cover_skips(g: GData, world: World, sites: Seq<Site>, i: int, k: int)
    requires
        0 <= i <= k,
        forall|m: int| i <= m < k ==> !wanted(g, m),
        grids_cover(g, world, i),
        sites_cover(g, world.registry@, sites, i),
    ensures
        grids_cover(g, world, k),
        sites_cover(g, world.registry@, sites, k),
{
    reveal(grids_cover);
    reveal(sites_cover);
    assert forall|name: Seq<char>| named_wanted(g, i, name) implies named_wanted(g, k, name) by {
        let m = choose|m: int| 0 <= m < i && #[trigger] wanted(g, m) && g.maps@[m].0@ == name;
        assert(0 <= m < k && wanted(g, m));
    }
    assert forall|m: int| 0 <= m < k && #[trigger] wanted(g, m) implies exists|j: int|
        0 <= j < sites.len() && (#[trigger] sites[j]).map == m by {
        assert(m < i);
    }
    assert forall|m: int| 0 <= m < k && #[trigger] wanted(g, m) implies (world.grids.lookup(
        g.maps@[m].0@,
    ) matches Some(grid) && grid.built_from(
        g.geometry_of(g.maps@[m].0@),
        g.map_of(g.maps@[m].0@).spawns@,
    )) by {
        assert(m < i);
    }
}

/// The name of a map that is to be prepared is new to a world that holds
/// only maps that come before it.
proof fn lemma_name_is_new(g: GData, world: World, k: int)
    requires
        wanted(g, k),
        grids_cover(g, world, k),
    ensures
        !has_name(world.registry@, g.maps@[k].0@),
        !world.grids.has(g.maps@[k].0@),
{
    reveal(grids_cover);
    let name = g.maps@[k].0@;
    if has_name(world.registry@, name) {
        let r = choose|r: int| 0 <= r < world.registry@.len() && #[trigger] world.registry@[r] == name;
        assert(named_wanted(g, k, world.registry@[r]));
        let m = choose|m: int| 0 <= m < k && #[trigger] wanted(g, m) && g.maps@[m].0@ == name;
        assert(g.maps@[m].0@ != name);
    }
    if world.grids.has(name) {
        assert(named_wanted(g, k, name));
        let m = choose|m: int| 0 <= m < k && #[trigger] wanted(g, m) && g.maps@[m].0@ == name;
        assert(g.maps@[m].0@ != name);
    }
}

/// Preparing the next map extends what the world and the sites cover.
proof fn lemma_cover_grows(
    g: GData,
    before: World,
    after: World,
    sites_before: Seq<Site>,
    sites: Seq<Site>,
    k: int,
)
    requires
        wanted(g, k),
        grids_cover(g, before, k),
        sites_cover(g, before.registry@, sites_before, k),
        !has_name(before.registry@, g.maps@[k].0@),
        after.registry@ == before.registry@.push(g.maps@[k].0@),
        after.grids.lookup(g.maps@[k].0@) matches Some(grid) && grid.built_from(
            g.geometry_of(g.maps@[k].0@),
            g.map_of(g.maps@[k].0@).spawns@,
        ),
        forall|other: Seq<char>|
            other != g.maps@[k].0@ ==> #[trigger] after.grids.lookup(other) == before.grids.lookup(
                other,
            ),
        sites.len() == sites_before.len() + 1,
        forall|j: int| 0 <= j < sites_before.len() ==> sites[j] == sites_before[j],
        sites[sites_before.len() as int].map == k,
        sites[sites_before.len() as int].map_id == before.registry@.len(),
        placed_at_corners(g, g.maps@[k].0@, sites[sites_before.len() as int].waypoints@),
    ensures
        grids_cover(g, after, k + 1),
        sites_cover(g, after.registry@, sites, k + 1),
{
    reveal(grids_cover);
    reveal(sites_cover);
    let name = g.maps@[k].0@;
    let last = sites_before.len() as int;
    assert(named_wanted(g, k + 1, name)) by {
        assert(0 <= k < k + 1 && wanted(g, k) && g.maps@[k].0@ == name);
    }
    assert forall|other: Seq<char>| named_wanted(g, k, other) implies named_wanted(
        g,
        k + 1,
        other,
    ) by {
        let m = choose|m: int| 0 <= m < k && #[trigger] wanted(g, m) && g.maps@[m].0@ == other;
        assert(0 <= m < k + 1 && wanted(g, m));
    }
    assert forall|m: int| 0 <= m < k + 1 && #[trigger] wanted(g, m) implies (after.grids.lookup(
        g.maps@[m].0@,
    ) matches Some(grid) && grid.built_from(
        g.geometry_of(g.maps@[m].0@),
        g.map_of(g.maps@[m].0@).spawns@,
    )) by {
        if m < k {
            assert(g.maps@[m].0@ != name);
            assert(after.grids.lookup(g.maps@[m].0@) == before.grids.lookup(g.maps@[m].0@));
        }
    }
    assert forall|other: Seq<char>| #[trigger] after.grids.has(other) implies named_wanted(
        g,
        k + 1,
        other,
    ) by {
        if other != name {
            assert(after.grids.lookup(other) == before.grids.lookup(other));
            assert(before.grids.has(other));
        }
    }
    assert forall|r: int| 0 <= r < after.registry@.len() implies named_wanted(
        g,
        k + 1,
        #[trigger] after.registry@[r],
    ) by {
        if r < before.registry@.len() {
            assert(after.registry@[r] == before.registry@[r]);
            assert(named_wanted(g, k, before.registry@[r]));
        }
    }
    assert forall|j: int| 0 <= j < sites.len() implies {
        let site = #[trigger] sites[j];
        &&& site.map < k + 1
        &&& wanted(g, site.map as int)
        &&& site.map_id < after.registry@.len()
        &&& after.registry@[site.map_id as int] == g.maps@[site.map as int].0@
        &&& placed_at_corners(g, g.maps@[site.map as int].0@, site.waypoints@)
    } by {
        if j < last {
            assert(sites[j] == sites_before[j]);
            assert(after.registry@[sites_before[j].map_id as int]
                == before.registry@[sites_before[j].map_id as int]);
        }
    }
    assert forall|i: int, j: int| 0 <= i < j < sites.len() implies (#[trigger] sites[i]).map < (
    #[trigger] sites[j]).map by {
        assert(sites[i] == sites_before[i]);
        if j < last {
            assert(sites[j] == sites_before[j]);
        }
    }
    assert forall|m: int| 0 <= m < k + 1 && #[trigger] wanted(g, m) implies exists|j: int|
        0 <= j < sites.len() && (#[trigger] sites[j]).map == m by {
        if m < k {
            let j = choose|j: int| 0 <= j < sites_before.len() && (#[trigger] sites_before[j]).map == m;
            assert(sites[j] == sites_before[j]);
        } else {
            assert(sites[last].map == m);
        }
    }
}

} // verus!

//! The navigation graph: waypoints of all maps, joined by walking links
//! within a map and by transporter links between maps.

use crate::consts::{TRANSPORT, WALK};
use crate::error::PrepareError;
use crate::graphstore::{
    graph_add_edge, graph_add_node, graph_edge_count, graph_edge_ends, graph_edge_label,
    graph_edges, graph_new, graph_node_at, graph_node_count, graph_nodes,
};
use petgraph::graph::Graph;
use std::collections::HashMap;
use vstd::prelude::*;

verus! {

/// A waypoint: a position on a map.  The coordinates are the bit patterns
/// of the two floats, so two waypoints are the same exactly when they come
/// from the same numbers, bit for bit.
#[derive(Clone, Copy, Debug, PartialEq, Eq, Structural)]
pub struct Node {
    pub map_id: u16,
    pub x: u32,
    pub y: u32,
}

/// A link between two waypoints, given by their indices, with the label
/// that says how the link is travelled.
#[derive(Clone, Copy, Debug, PartialEq, Eq, Structural)]
pub struct Edge {
    pub from: usize,
    pub to: usize,
    pub method: u8,
}

/// The number under which a waypoint is filed: its three fields side by
/// side.
pub open spec fn pack(node: (u16, u32, u32)) -> u128 {
    (node.0 * 0x1_0000_0000_0000_0000 + node.1 * 0x1_0000_0000 + node.2) as u128
}

/// The waypoints with their links, and an index from waypoint to position.
pub struct NavGraph {
    pub graph: Graph<(u16, u32, u32), u8>,
    pub index: HashMap<u128, usize>,
}

impl Node {
    /// The waypoint as the graph stores it.
    pub open spec fn key(&self) -> (u16, u32, u32) {
        (self.map_id, self.x, self.y)
    }
}

/// The waypoints after `key` has been looked up and, if it was new, added.
pub open spec fn intern(nodes: Seq<(u16, u32, u32)>, key: (u16, u32, u32)) -> Seq<(u16, u32, u32)> {
    if nodes.contains(key) {
        nodes
    } else {
        nodes.push(key)
    }
}

/// A position at which `nodes` holds `key`.
pub open spec fn place(nodes: Seq<(u16, u32, u32)>, key: (u16, u32, u32)) -> usize {
    (choose|i: int| 0 <= i < nodes.len() && nodes[i] == key) as usize
}

/// Whether the walking links among `edges` never lead from a node to
/// itself.
pub open spec fn walks_irreflexive(edges: Seq<(usize, usize, u8)>) -> bool {
    forall|e: int| 0 <= e < edges.len() && (#[trigger] edges[e]).2 == WALK ==> edges[e].0 != edges[e].1
}

/// Whether each walking link among `edges` has its reverse among them.
pub open spec fn walks_paired(edges: Seq<(usize, usize, u8)>) -> bool {
    forall|e: int|
        0 <= e < edges.len() && (#[trigger] edges[e]).2 == WALK ==> exists|r: int|
            0 <= r < edges.len() && #[trigger] edges[r] == (edges[e].1, edges[e].0, WALK)
}

/// Whether each transporter link among `edges` leads from one map to
/// another.
pub open spec fn transports_cross(nodes: Seq<(u16, u32, u32)>, edges: Seq<(usize, usize, u8)>) -> bool {
    forall|e: int|
        0 <= e < edges.len() && (#[trigger] edges[e]).2 == TRANSPORT ==> nodes[edges[e].0 as int].0
            != nodes[edges[e].1 as int].0
}

/// Whether every link among `edges` joins two of `nodes` and is a walking
/// link or a transporter link.
pub open spec fn links_bounded(nodes: Seq<(u16, u32, u32)>, edges: Seq<(usize, usize, u8)>) -> bool {
    forall|e: int|
        0 <= e < edges.len() ==> {
            let edge = #[trigger] edges[e];
            &&& edge.0 < nodes.len()
            &&& edge.1 < nodes.len()
            &&& (edge.2 == WALK || edge.2 == TRANSPORT)
        }
}

/// Whether the links are sound: each joins two of `nodes`, no walking link
/// leads from a node to itself, each walking link has its reverse, and
/// each transporter link leads to another map.
pub open spec fn links_sound(nodes: Seq<(u16, u32, u32)>, edges: Seq<(usize, usize, u8)>) -> bool {
    &&& links_bounded(nodes, edges)
    &&& walks_irreflexive(edges)
    &&& walks_paired(edges)
    &&& transports_cross(nodes, edges)
}

/// Sound links stay sound when a walking link between two different nodes
/// is added in both directions.
pub proof fn lemma_walk_pair_sound(
    nodes: Seq<(u16, u32, u32)>,
    edges: Seq<(usize, usize, u8)>,
    a: usize,
    b: usize,
)
    requires
        links_sound(nodes, edges),
        a < nodes.len(),
        b < nodes.len(),
        a != b,
    ensures
        links_sound(nodes, edges.push((a, b, WALK)).push((b, a, WALK))),
{
    let n = edges.len() as int;
    let after = edges.push((a, b, WALK)).push((b, a, WALK));
    assert(after[n] == (a, b, WALK));
    assert(after[n + 1] == (b, a, WALK));
    assert forall|e: int| 0 <= e < n implies after[e] == edges[e] by {}
    assert(links_bounded(nodes, after)) by {
        assert forall|e: int| 0 <= e < after.len() implies {
            let edge = #[trigger] after[e];
            &&& edge.0 < nodes.len()
            &&& edge.1 < nodes.len()
            &&& (edge.2 == WALK || edge.2 == TRANSPORT)
        } by {
            if e < n {
                assert(after[e] == edges[e]);
            }
        }
    }
    assert(walks_irreflexive(after)) by {
        assert forall|e: int| 0 <= e < after.len() && (#[trigger] after[e]).2 == WALK implies after[e].0
            != after[e].1 by {
            if e < n {
                assert(after[e] == edges[e]);
            }
        }
    }
    assert(walks_paired(after)) by {
        assert forall|e: int|
            0 <= e < after.len() && (#[trigger] after[e]).2 == WALK implies exists|r: int|
            0 <= r < after.len() && #[trigger] after[r] == (after[e].1, after[e].0, WALK) by {
            if e < n {
                assert(after[e] == edges[e]);
                let r = choose|r: int|
                    0 <= r < n && #[trigger] edges[r] == (edges[e].1, edges[e].0, WALK);
                assert(after[r] == edges[r]);
            } else if e == n {
                assert(after[n + 1] == (after[e].1, after[e].0, WALK));
            } else {
                assert(after[n] == (after[e].1, after[e].0, WALK));
            }
        }
    }
    assert(transports_cross(nodes, after)) by {
        assert forall|e: int|
            0 <= e < after.len() && (#[trigger] after[e]).2 == TRANSPORT implies nodes[after[e].0 as int].0
            != nodes[after[e].1 as int].0 by {
            assert(e < n);
            assert(after[e] == edges[e]);
        }
    }
}

/// Sound links stay sound when a transporter link between nodes of two
/// different maps is added.
pub proof fn lemma_transport_sound(
    nodes: Seq<(u16, u32, u32)>,
    edges: Seq<(usize, usize, u8)>,
    from: usize,
    to: usize,
)
    requires
        links_sound(nodes, edges),
        from < nodes.len(),
        to < nodes.len(),
        nodes[from as int].0 != nodes[to as int].0,
    ensures
        links_sound(nodes, edges.push((from, to, TRANSPORT))),
{
    let n = edges.len() as int;
    let after = edges.push((from, to, TRANSPORT));
    assert(after[n] == (from, to, TRANSPORT));
    assert forall|e: int| 0 <= e < n implies after[e] == edges[e] by {}
    assert(links_bounded(nodes, after)) by {
        assert forall|e: int| 0 <= e < after.len() implies {
            let edge = #[trigger] after[e];
            &&& edge.0 < nodes.len()
            &&& edge.1 < nodes.len()
            &&& (edge.2 == WALK || edge.2 == TRANSPORT)
        } by {
            if e < n {
                assert(after[e] == edges[e]);
            }
        }
    }
    assert(walks_irreflexive(after)) by {
        assert forall|e: int| 0 <= e < after.len() && (#[trigger] after[e]).2 == WALK implies after[e].0
            != after[e].1 by {
            assert(e < n);
            assert(after[e] == edges[e]);
        }
    }
    assert(walks_paired(after)) by {
        assert forall|e: int|
            0 <= e < after.len() && (#[trigger] after[e]).2 == WALK implies exists|r: int|
            0 <= r < after.len() && #[trigger] after[r] == (after[e].1, after[e].0, WALK) by {
            assert(e < n);
            assert(after[e] == edges[e]);
            let r = choose|r: int|
                0 <= r < n && #[trigger] edges[r] == (edges[e].1, edges[e].0, WALK);
            assert(after[r] == edges[r]);
        }
    }
    assert(transports_cross(nodes, after)) by {
        assert forall|e: int|
            0 <= e < after.len() && (#[trigger] after[e]).2 == TRANSPORT implies nodes[after[e].0 as int].0
            != nodes[after[e].1 as int].0 by {
            if e < n {
                assert(after[e] == edges[e]);
            }
        }
    }
}

/// Sound links stay sound when a node is added.
pub proof fn lemma_node_added_sound(
    nodes: Seq<(u16, u32, u32)>,
    edges: Seq<(usize, usize, u8)>,
    key: (u16, u32, u32),
)
    requires
        links_sound(nodes, edges),
    ensures
        links_sound(nodes.push(key), edges),
{
    let after = nodes.push(key);
    assert forall|e: int|
        0 <= e < edges.len() && (#[trigger] edges[e]).2 == TRANSPORT implies after[edges[e].0 as int].0
        != after[edges[e].1 as int].0 by {
        assert(edges[e].0 < nodes.len() && edges[e].1 < nodes.len());
        assert(after[edges[e].0 as int] == nodes[edges[e].0 as int]);
        assert(after[edges[e].1 as int] == nodes[edges[e].1 as int]);
    }
}

impl NavGraph {
    /// The waypoints, in the order in which they were added.
    pub open spec fn nodes(&self) -> Seq<(u16, u32, u32)> {
        graph_nodes(self.graph)
    }

    /// The links, in the order in which they were added.
    pub open spec fn edges(&self) -> Seq<(usize, usize, u8)> {
        graph_edges(self.graph)
    }

    /// Whether the graph holds the waypoint.
    pub open spec fn has(&self, node: Node) -> bool {
        self.nodes().contains(node.key())
    }

    /// The graph is sound: the index finds each waypoint at its position,
    /// so no waypoint occurs twice; every link joins two waypoints of the
    /// graph and is a walking link or a transporter link; no walking link
    /// leads from a waypoint to itself, each has its reverse, and every
    /// transporter link leads to another map.
    pub open spec fn wf(&self) -> bool {
        &&& self.nodes().len() <= 0xffff_ffff
        &&& self.edges().len() <= 0xffff_ffff
        &&& forall|i: int|
            0 <= i < self.nodes().len() ==> self.index@.contains_key(pack(#[trigger] self.nodes()[i]))
                && self.index@[pack(self.nodes()[i])] == i
        &&& forall|k: u128| #[trigger]
            self.index@.contains_key(k) ==> self.index@[k] < self.nodes().len() && pack(
                self.nodes()[self.index@[k] as int],
            ) == k
        &&& links_sound(self.nodes(), self.edges())
    }
}

/// The filing number tells waypoints apart.
pub proof fn lemma_pack_injective(a: (u16, u32, u32), b: (u16, u32, u32))
    requires
        pack(a) == pack(b),
    ensures
        a == b,
{
}

/// The filing number of a waypoint.
pub fn pack_key(node: &Node) -> (key: u128)
    ensures
        key == pack(node.key()),
{
    (node.map_id as u128) * 0x1_0000_0000_0000_0000 + (node.x as u128) * 0x1_0000_0000 + (
    node.y as u128)
}

impl NavGraph {
    /// A graph without waypoints.
    pub fn new() -> (graph: NavGraph)
        ensures
            graph.wf(),
            graph.nodes().len() == 0,
            graph.edges().len() == 0,
    {
        NavGraph { graph: graph_new(), index: HashMap::new() }
    }

    /// The number of waypoints.
    pub fn node_count(&self) -> (count: usize)
        ensures
            count == self.nodes().len(),
    {
        graph_node_count(&self.graph)
    }

    /// The number of links.
    pub fn edge_count(&self) -> (count: usize)
        ensures
            count == self.edges().len(),
    {
        graph_edge_count(&self.graph)
    }

    /// The waypoint at position `index`, if there is one.
    pub fn node(&self, index: usize) -> (node: Option<Node>)
        requires
            self.wf(),
        ensures
            match node {
                Some(n) => index < self.nodes().len() && n.key() == self.nodes()[index as int],
                None => index >= self.nodes().len(),
            },
    {
        if index < graph_node_count(&self.graph) {
            let (map_id, x, y) = graph_node_at(&self.graph, index);
            Some(Node { map_id, x, y })
        } else {
            None
        }
    }

    /// The link at position `index`, if there is one.
    pub fn edge(&self, index: usize) -> (edge: Option<Edge>)
        requires
            self.wf(),
        ensures
            match edge {
                Some(e) => index < self.edges().len() && (e.from, e.to, e.method)
                    == self.edges()[index as int],
                None => index >= self.edges().len(),
            },
    {
        if index < graph_edge_count(&self.graph) {
            let (from, to) = graph_edge_ends(&self.graph, index);
            let method: u8 = graph_edge_label(&self.graph, index);
            Some(Edge { from, to, method })
        } else {
            None
        }
    }

    /// The position of a waypoint, if the graph holds it.
    pub fn find(&self, node: &Node) -> (found: Option<usize>)
        requires
            self.wf(),
        ensures
            match found {
                Some(i) => i < self.nodes().len() && self.nodes()[i as int] == node.key(),
                None => !self.has(*node),
            },
    {
        let key: u128 = pack_key(node);
        match self.index.get(&key) {
            Some(i) => {
                proof {
                    assert(self.index@.contains_key(key));
                    lemma_pack_injective(self.nodes()[*i as int], node.key());
                }
                Some(*i)
            },
            None => {
                proof {
                    if self.has(*node) {
                        let i = choose|i: int|
                            0 <= i < self.nodes().len() && self.nodes()[i] == node.key();
                        assert(self.index@.contains_key(pack(self.nodes()[i])));
                    }
                }
                None
            },
        }
    }

    /// The position of a waypoint, which is added at the end of the graph
    /// if it is new.  Fails, and leaves the graph as it was, when the
    /// waypoint is new and the graph is full.
    pub fn get_or_add_node(&mut self, node: &Node) -> (result: Result<usize, PrepareError>)
        requires
            old(self).wf(),
        ensures
            final(self).wf(),
            final(self).edges() == old(self).edges(),
            match result {
                Ok(i) => {
                    &&& i < final(self).nodes().len()
                    &&& final(self).nodes()[i as int] == node.key()
                    &&& final(self).nodes() == intern(old(self).nodes(), node.key())
                    &&& i == place(final(self).nodes(), node.key())
                    &&& !old(self).has(*node) ==> i == old(self).nodes().len()
                },
                Err(e) => {
                    &&& e == PrepareError::CapacityExceeded
                    &&& !old(self).has(*node)
                    &&& old(self).nodes().len() >= 0xffff_ffff
                    &&& final(self).nodes() == old(self).nodes()
                },
            },
    {
        match self.find(node) {
            Some(i) => {
                proof {
                    self.lemma_place(i as int);
                }
                Ok(i)
            },
            None => {
                if graph_node_count(&self.graph) >= 0xffff_ffff {
                    return Err(PrepareError::CapacityExceeded);
                }
                let ghost before = *self;
                let key: u128 = pack_key(node);
                let i: usize = graph_add_node(&mut self.graph, (node.map_id, node.x, node.y));
                self.index.insert(key, i);
                proof {
                    assert forall|j: int| 0 <= j < self.nodes().len() implies self.index@.contains_key(
                        pack(#[trigger] self.nodes()[j]),
                    ) && self.index@[pack(self.nodes()[j])] == j by {
                        if j < before.nodes().len() {
                            assert(self.nodes()[j] == before.nodes()[j]);
                            assert(before.nodes().contains(before.nodes()[j]));
                            if pack(before.nodes()[j]) == key {
                                lemma_pack_injective(before.nodes()[j], node.key());
                            }
                        }
                    }
                    assert forall|k: u128| #[trigger] self.index@.contains_key(k) implies self.index@[k]
                        < self.nodes().len() && pack(self.nodes()[self.index@[k] as int]) == k by {
                        if k != key {
                            assert(before.index@.contains_key(k));
                            assert(self.nodes()[before.index@[k] as int] == before.nodes()[before.index@[k] as int]);
                        }
                    }
                    lemma_node_added_sound(before.nodes(), before.edges(), node.key());
                    self.lemma_place(i as int);
                }
                Ok(i)
            },
        }
    }

    /// A waypoint of a sound graph has one position only.
    pub proof fn lemma_place(&self, i: int)
        requires
            self.wf(),
            0 <= i < self.nodes().len(),
        ensures
            place(self.nodes(), self.nodes()[i]) == i,
    {
        let key = self.nodes()[i];
        let j = choose|j: int| 0 <= j < self.nodes().len() && self.nodes()[j] == key;
        assert(self.index@[pack(self.nodes()[j])] == j);
        assert(self.index@[pack(self.nodes()[i])] == i);
    }

    /// Adds a walking link between two waypoints, one edge in each
    /// direction.  Fails, and leaves the graph as it was, when the graph
    /// has no room for two more edges.
    pub fn add_walk(&mut self, a: usize, b: usize) -> (result: Result<(), PrepareError>)
        requires
            old(self).wf(),
            a < old(self).nodes().len(),
            b < old(self).nodes().len(),
            a != b,
        ensures
            final(self).wf(),
            final(self).nodes() == old(self).nodes(),
            match result {
                Ok(()) => final(self).edges() == old(self).edges().push((a, b, WALK)).push(
                    (b, a, WALK),
                ),
                Err(e) => {
                    &&& e == PrepareError::CapacityExceeded
                    &&& old(self).edges().len() + 2 > 0xffff_ffff
                    &&& final(self).edges() == old(self).edges()
                },
            },
    {
        if graph_edge_count(&self.graph) >= 0xffff_fffe {
            return Err(PrepareError::CapacityExceeded);
        }
        let ghost before = *self;
        graph_add_edge(&mut self.graph, a, b, WALK);
        graph_add_edge(&mut self.graph, b, a, WALK);
        proof {
            lemma_walk_pair_sound(before.nodes(), before.edges(), a, b);
        }
        Ok(())
    }

    /// Adds a transporter link from a waypoint to a waypoint of another
    /// map.  Fails, and leaves the graph as it was, when the graph has no
    /// room for one more edge.
    pub fn add_transport(&mut self, from: usize, to: usize) -> (result: Result<(), PrepareError>)
        requires
            old(self).wf(),
            from < old(self).nodes().len(),
            to < old(self).nodes().len(),
            old(self).nodes()[from as int].0 != old(self).nodes()[to as int].0,
        ensures
            final(self).wf(),
            final(self).nodes() == old(self).nodes(),
            match result {
                Ok(()) => final(self).edges() == old(self).edges().push((from, to, TRANSPORT)),
                Err(e) => {
                    &&& e == PrepareError::CapacityExceeded
                    &&& old(self).edges().len() + 1 > 0xffff_ffff
                    &&& final(self).edges() == old(self).edges()
                },
            },
    {
        if graph_edge_count(&self.graph) >= 0xffff_ffff {
            return Err(PrepareError::CapacityExceeded);
        }
        let ghost before = *self;
        graph_add_edge(&mut self.graph, from, to, TRANSPORT);
        proof {
            lemma_transport_sound(before.nodes(), before.edges(), from, to);
        }
        Ok(())
    }
}

} // verus!

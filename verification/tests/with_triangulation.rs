use spade::{DelaunayTriangulation, FloatTriangulation, HasPosition, Point2, Triangulation};
use walkmap::consts::{TRANSPORT, TRANSPORT_RADIUS, WALK};
use walkmap::{
    can_walk_path, is_walkable, link_map, prepare_grids, prepare_map, transporter_positions,
    Coord, Edge, GData, GGeometry, GMap, GNpc, GNpcKind, GSpawn, Mesh, NavGraph, Node, Point,
    Segment, World,
};

#[derive(Debug, Clone, Copy)]
struct Vertex {
    point: Point2<f32>,
}

impl HasPosition for Vertex {
    type Scalar = f32;

    fn position(&self) -> Point2<f32> {
        self.point
    }
}

fn coord(v: f32) -> Coord {
    Coord { bits: v.to_bits() }
}

fn spawn(x: f32, y: f32) -> GSpawn {
    GSpawn { x: coord(x), y: coord(y) }
}

fn node(map_id: u16, x: f32, y: f32) -> Node {
    Node { map_id, x: x.to_bits(), y: y.to_bits() }
}

fn point_of(vertex: &Vertex) -> Point {
    Point { x: coord(vertex.point.x), y: coord(vertex.point.y) }
}

fn triangulate(waypoints: &[Point], map: &GMap) -> Mesh {
    let mut triangulation: DelaunayTriangulation<Vertex> = DelaunayTriangulation::new();
    for waypoint in waypoints {
        let point =
            Point2::new(f32::from_bits(waypoint.x.bits), f32::from_bits(waypoint.y.bits));
        triangulation.insert(Vertex { point }).unwrap();
    }
    for s in &map.spawns {
        let point = Point2::new(f32::from_bits(s.x.bits), f32::from_bits(s.y.bits));
        triangulation.insert(Vertex { point }).unwrap();
    }
    let radius = TRANSPORT_RADIUS as f32;
    let mut anchors = Vec::new();
    for position in transporter_positions(map).unwrap() {
        let x = f32::from_bits(position.x.bits);
        let y = f32::from_bits(position.y.bits);
        let _ = triangulation.insert(Vertex { point: Point2::new(x, y) });
        let nearby = triangulation
            .get_vertices_in_circle(Point2 { x, y }, radius * radius)
            .map(|vertex| point_of(vertex.data()))
            .collect();
        anchors.push(nearby);
    }
    let edges = triangulation
        .undirected_edges()
        .map(|edge| {
            let [from, to] = edge.vertices();
            Segment { from: point_of(from.data()), to: point_of(to.data()) }
        })
        .collect();
    Mesh { anchors, edges }
}

fn prepare_all(g: &GData) -> World {
    let (mut world, sites) = prepare_grids(g).unwrap();
    for site in &sites {
        let (name, map) = &g.maps[site.map];
        let mesh = triangulate(&site.waypoints, map);
        link_map(&mut world, g, name, &site.waypoints, &mesh).unwrap();
    }
    world
}

fn edges_of(graph: &NavGraph) -> Vec<Edge> {
    (0..graph.edge_count()).map(|i| graph.edge(i).unwrap()).collect()
}

fn nodes_of(graph: &NavGraph) -> Vec<Node> {
    (0..graph.node_count()).map(|i| graph.node(i).unwrap()).collect()
}

fn two_maps() -> GData {
    let a = GMap {
        doors: Vec::new(),
        ignore: None,
        name: "A".to_string(),
        npcs: Some(vec![GNpc {
            id: "transporter".to_string(),
            position: Some(vec![coord(10.0), coord(10.0)]),
            positions: None,
        }]),
        spawns: vec![spawn(20.0, 20.0), spawn(390.0, 390.0)],
    };
    let b = GMap {
        doors: Vec::new(),
        ignore: None,
        name: "B".to_string(),
        npcs: None,
        spawns: vec![spawn(100.0, 100.0)],
    };
    let open = |size: i32| GGeometry {
        min_x: 0,
        max_x: size,
        min_y: 0,
        max_y: size,
        x_lines: None,
        y_lines: None,
    };
    GData {
        geometry: vec![("A".to_string(), open(400)), ("B".to_string(), open(200))],
        maps: vec![("A".to_string(), a), ("B".to_string(), b)],
        npcs: vec![(
            "transporter".to_string(),
            GNpcKind { places: Some(vec![("B".to_string(), 0)]) },
        )],
        version: 1,
    }
}

#[test]
fn transporter_links_nearby_waypoints_to_the_other_map() {
    let g = two_maps();
    let world = prepare_all(&g);
    let nodes = nodes_of(&world.graph);
    let edges = edges_of(&world.graph);
    let near = nodes.iter().position(|n| *n == node(0, 20.0, 20.0)).unwrap();
    let far = nodes.iter().position(|n| *n == node(0, 390.0, 390.0)).unwrap();
    let anchor = nodes.iter().position(|n| *n == node(0, 10.0, 10.0)).unwrap();
    let arrival = nodes.iter().position(|n| *n == node(1, 100.0, 100.0)).unwrap();
    assert!(edges.contains(&Edge { from: near, to: arrival, method: TRANSPORT }));
    assert!(edges.contains(&Edge { from: anchor, to: arrival, method: TRANSPORT }));
    // The far spawn point is more than 150 away from the transporter.
    assert!(!edges.contains(&Edge { from: far, to: arrival, method: TRANSPORT }));
    for e in &edges {
        if e.method == TRANSPORT {
            assert_eq!(nodes[e.from].map_id, 0);
            assert_eq!(nodes[e.to].map_id, 1);
        }
    }
    assert_eq!(edges.iter().filter(|e| e.method == TRANSPORT).count(), 2);
}

#[test]
fn walk_links_follow_walkable_edges_of_the_triangulation() {
    let g = two_maps();
    let world = prepare_all(&g);
    let nodes = nodes_of(&world.graph);
    let edges = edges_of(&world.graph);
    let walks: Vec<&Edge> = edges.iter().filter(|e| e.method == WALK).collect();
    assert!(!walks.is_empty());
    for e in walks {
        assert_ne!(e.from, e.to);
        assert!(edges.contains(&Edge { from: e.to, to: e.from, method: WALK }));
        let (a, b) = (nodes[e.from], nodes[e.to]);
        assert_eq!(a.map_id, b.map_id);
        let name = if a.map_id == 0 { "A" } else { "B" };
        assert!(can_walk_path(
            &world,
            name,
            Coord { bits: a.x }.cell(),
            Coord { bits: a.y }.cell(),
            Coord { bits: b.x }.cell(),
            Coord { bits: b.y }.cell()
        ));
    }
}

#[test]
fn corners_become_waypoints_and_blocked_edges_are_left_out() {
    // A wall across the middle of the map with a gap on the right.
    let map = GMap {
        doors: Vec::new(),
        ignore: None,
        name: "hall".to_string(),
        npcs: Some(Vec::new()),
        spawns: vec![spawn(5.0, 5.0), spawn(5.0, 70.0)],
    };
    let g = GData {
        geometry: vec![(
            "hall".to_string(),
            GGeometry {
                min_x: 0,
                max_x: 80,
                min_y: 0,
                max_y: 80,
                x_lines: None,
                y_lines: Some(vec![vec![40, 0, 40]]),
            },
        )],
        maps: vec![("hall".to_string(), map)],
        npcs: Vec::new(),
        version: 1,
    };
    let mut world = World::new();
    let site = prepare_map(&mut world, &g, &"hall".to_string()).unwrap();
    // The clearance ends at column 47 and spans rows 38 to 46: one corner
    // above its right end, one below.
    assert_eq!(site.corners, vec![(48, 37), (48, 47)]);
    assert_eq!(
        site.waypoints,
        vec![
            Point { x: coord(48.0), y: coord(37.0) },
            Point { x: coord(48.0), y: coord(47.0) }
        ]
    );
    let mesh = triangulate(&site.waypoints, &g.maps[0].1);
    link_map(&mut world, &g, &"hall".to_string(), &site.waypoints, &mesh).unwrap();
    let nodes = nodes_of(&world.graph);
    assert_eq!(
        nodes,
        vec![node(0, 48.0, 37.0), node(0, 48.0, 47.0), node(0, 5.0, 5.0), node(0, 5.0, 70.0)]
    );
    let edges = edges_of(&world.graph);
    // The two spawn points do not see each other through the wall.
    assert!(!can_walk_path(&world, "hall", 5, 5, 5, 70));
    assert!(!edges.contains(&Edge { from: 2, to: 3, method: WALK }));
    // Each spawn point sees the corner on its side, and the corners see
    // each other.
    assert!(edges.contains(&Edge { from: 2, to: 0, method: WALK }));
    assert!(edges.contains(&Edge { from: 0, to: 2, method: WALK }));
    assert!(edges.contains(&Edge { from: 3, to: 1, method: WALK }));
    assert!(edges.contains(&Edge { from: 0, to: 1, method: WALK }));
    assert!(is_walkable(&world, "hall", 48, 37));
    assert!(!is_walkable(&world, "hall", 47, 38));
}

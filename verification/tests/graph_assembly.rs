use walkmap::assemble::{intern_points, link_transports, link_walks};
use walkmap::consts::{NOT_WALKABLE, TRANSPORT, UNKNOWN, WALK, WALKABLE};
use walkmap::scratch::Scratch;
use walkmap::{
    is_walkable, link_map, next_map, prepare_grids, prepare_map, transporter_positions, Coord, Edge, GData,
    GGeometry, GMap, GNpc, GNpcKind, GSpawn, Grid, Mesh, NavGraph, Node, Point, PrepareError,
    Segment, World,
};

fn coord(v: f32) -> Coord {
    Coord { bits: v.to_bits() }
}

fn point(x: f32, y: f32) -> Point {
    Point { x: coord(x), y: coord(y) }
}

fn spawn(x: f32, y: f32) -> GSpawn {
    GSpawn { x: coord(x), y: coord(y) }
}

fn node(map_id: u16, x: f32, y: f32) -> Node {
    Node { map_id, x: x.to_bits(), y: y.to_bits() }
}

fn open_geometry(size: i32) -> GGeometry {
    GGeometry { min_x: 0, max_x: size, min_y: 0, max_y: size, x_lines: None, y_lines: None }
}

fn plain_map(name: &str, spawns: Vec<GSpawn>) -> GMap {
    GMap { doors: Vec::new(), ignore: None, name: name.to_string(), npcs: None, spawns }
}

fn transporter_at(x: f32, y: f32) -> GNpc {
    GNpc { id: "transporter".to_string(), position: Some(vec![coord(x), coord(y)]), positions: None }
}

fn edges_of(graph: &NavGraph) -> Vec<Edge> {
    (0..graph.edge_count()).map(|i| graph.edge(i).unwrap()).collect()
}

fn nodes_of(graph: &NavGraph) -> Vec<Node> {
    (0..graph.node_count()).map(|i| graph.node(i).unwrap()).collect()
}

fn grid_from_rows(rows: &[&str]) -> Grid {
    let height = rows.len() as i32;
    let width = rows[0].len() as i32;
    let mut scratch = Scratch::new(width, height);
    for (y, row) in rows.iter().enumerate() {
        for (x, ch) in row.chars().enumerate() {
            let value = match ch {
                '.' => WALKABLE,
                '#' => NOT_WALKABLE,
                _ => UNKNOWN,
            };
            scratch.set(x as i32, y as i32, value);
        }
    }
    Grid::from_scratch(&scratch, 0, 0)
}

fn two_maps() -> GData {
    let mut a = plain_map("A", vec![spawn(20.0, 20.0)]);
    a.npcs = Some(vec![
        GNpc { id: "guard".to_string(), position: Some(vec![coord(1.0), coord(1.0)]), positions: None },
        transporter_at(10.0, 10.0),
    ]);
    let b = plain_map("B", vec![spawn(100.0, 100.0)]);
    GData {
        geometry: vec![("A".to_string(), open_geometry(200)), ("B".to_string(), open_geometry(200))],
        maps: vec![("A".to_string(), a), ("B".to_string(), b)],
        npcs: vec![
            ("guard".to_string(), GNpcKind { places: None }),
            (
                "transporter".to_string(),
                GNpcKind { places: Some(vec![("A".to_string(), 0), ("B".to_string(), 0)]) },
            ),
        ],
        version: 1,
    }
}

#[test]
fn nodes_are_interned_once() {
    let mut graph = NavGraph::new();
    assert_eq!(graph.get_or_add_node(&node(0, 1.0, 2.0)), Ok(0));
    assert_eq!(graph.get_or_add_node(&node(0, 2.0, 1.0)), Ok(1));
    assert_eq!(graph.get_or_add_node(&node(1, 1.0, 2.0)), Ok(2));
    assert_eq!(graph.get_or_add_node(&node(0, 1.0, 2.0)), Ok(0));
    assert_eq!(graph.get_or_add_node(&node(1, 1.0, 2.0)), Ok(2));
    assert_eq!(graph.node_count(), 3);
    assert_eq!(graph.edge_count(), 0);
    assert_eq!(graph.find(&node(0, 2.0, 1.0)), Some(1));
    assert_eq!(graph.find(&node(2, 2.0, 1.0)), None);
    assert_eq!(graph.node(1), Some(node(0, 2.0, 1.0)));
    assert_eq!(graph.node(3), None);
    assert_eq!(graph.edge(0), None);
}

#[test]
fn nodes_are_told_apart_by_bit_pattern() {
    let mut graph = NavGraph::new();
    let plus = Node { map_id: 0, x: 0.0f32.to_bits(), y: 0 };
    let minus = Node { map_id: 0, x: (-0.0f32).to_bits(), y: 0 };
    assert_eq!(graph.get_or_add_node(&plus), Ok(0));
    assert_eq!(graph.get_or_add_node(&minus), Ok(1));
    let big = Node { map_id: u16::MAX, x: u32::MAX, y: u32::MAX };
    let near = Node { map_id: u16::MAX, x: u32::MAX, y: u32::MAX - 1 };
    assert_eq!(graph.get_or_add_node(&big), Ok(2));
    assert_eq!(graph.get_or_add_node(&near), Ok(3));
    assert_eq!(graph.get_or_add_node(&big), Ok(2));
    assert_eq!(nodes_of(&graph), vec![plus, minus, big, near]);
}

#[test]
fn walk_links_come_in_pairs() {
    let mut graph = NavGraph::new();
    graph.get_or_add_node(&node(0, 1.0, 1.0)).unwrap();
    graph.get_or_add_node(&node(0, 2.0, 2.0)).unwrap();
    assert_eq!(graph.add_walk(0, 1), Ok(()));
    assert_eq!(
        edges_of(&graph),
        vec![Edge { from: 0, to: 1, method: WALK }, Edge { from: 1, to: 0, method: WALK }]
    );
    assert_eq!(graph.edge_count(), 2);
}

#[test]
fn transport_link_is_one_way() {
    let mut graph = NavGraph::new();
    graph.get_or_add_node(&node(0, 1.0, 1.0)).unwrap();
    graph.get_or_add_node(&node(1, 2.0, 2.0)).unwrap();
    assert_eq!(graph.add_transport(0, 1), Ok(()));
    assert_eq!(edges_of(&graph), vec![Edge { from: 0, to: 1, method: TRANSPORT }]);
}

#[test]
fn intern_points_keeps_the_order_of_first_sight() {
    let mut graph = NavGraph::new();
    let points = vec![point(3.0, 3.0), point(1.0, 1.0), point(3.0, 3.0), point(2.0, 2.0)];
    assert_eq!(intern_points(&mut graph, 4, &points), Ok(()));
    assert_eq!(nodes_of(&graph), vec![node(4, 3.0, 3.0), node(4, 1.0, 1.0), node(4, 2.0, 2.0)]);
    assert_eq!(intern_points(&mut graph, 5, &points), Ok(()));
    assert_eq!(graph.node_count(), 6);
}

#[test]
fn walkable_segments_become_links() {
    let grid = grid_from_rows(&["....", ".##.", "...."]);
    let mut graph = NavGraph::new();
    let segments = vec![
        Segment { from: point(0.5, 0.5), to: point(3.5, 0.2) },
        Segment { from: point(0.5, 0.5), to: point(3.0, 2.0) },
        Segment { from: point(3.5, 0.2), to: point(3.0, 2.0) },
        Segment { from: point(0.5, 0.5), to: point(0.5, 0.5) },
    ];
    assert_eq!(link_walks(&mut graph, &grid, 9, &segments), Ok(()));
    assert_eq!(
        nodes_of(&graph),
        vec![node(9, 0.5, 0.5), node(9, 3.5, 0.2), node(9, 3.0, 2.0)]
    );
    assert_eq!(
        edges_of(&graph),
        vec![
            Edge { from: 0, to: 1, method: WALK },
            Edge { from: 1, to: 0, method: WALK },
            Edge { from: 1, to: 2, method: WALK },
            Edge { from: 2, to: 1, method: WALK },
        ]
    );
}

#[test]
fn blocked_segments_add_no_nodes() {
    let grid = grid_from_rows(&["....", ".##.", "...."]);
    let mut graph = NavGraph::new();
    let segments = vec![Segment { from: point(0.0, 0.0), to: point(3.0, 2.0) }];
    assert_eq!(link_walks(&mut graph, &grid, 0, &segments), Ok(()));
    assert_eq!(graph.node_count(), 0);
    assert_eq!(graph.edge_count(), 0);
}

#[test]
fn each_source_is_linked_to_each_target() {
    let mut graph = NavGraph::new();
    let b = graph.get_or_add_node(&node(1, 100.0, 100.0)).unwrap();
    let c = graph.get_or_add_node(&node(2, 7.0, 7.0)).unwrap();
    let sources = vec![point(10.0, 10.0), point(20.0, 20.0)];
    assert_eq!(link_transports(&mut graph, 0, &sources, &vec![b, c]), Ok(()));
    assert_eq!(graph.node_count(), 4);
    assert_eq!(
        edges_of(&graph),
        vec![
            Edge { from: 2, to: 0, method: TRANSPORT },
            Edge { from: 2, to: 1, method: TRANSPORT },
            Edge { from: 3, to: 0, method: TRANSPORT },
            Edge { from: 3, to: 1, method: TRANSPORT },
        ]
    );
}

#[test]
fn transporter_positions_in_order() {
    let mut map = plain_map("A", vec![]);
    assert_eq!(transporter_positions(&map), Ok(vec![]));
    map.npcs = Some(vec![
        GNpc {
            id: "transporter".to_string(),
            position: Some(vec![coord(1.0), coord(2.0), coord(9.0)]),
            positions: Some(vec![vec![coord(3.0), coord(4.0)], vec![coord(5.0), coord(6.0)]]),
        },
        GNpc { id: "bean".to_string(), position: Some(vec![]), positions: None },
        GNpc {
            id: "transporter".to_string(),
            position: None,
            positions: Some(vec![vec![coord(7.0), coord(8.0)]]),
        },
        GNpc { id: "transporter".to_string(), position: None, positions: None },
    ]);
    assert_eq!(
        transporter_positions(&map),
        Ok(vec![point(1.0, 2.0), point(3.0, 4.0), point(5.0, 6.0), point(7.0, 8.0)])
    );
    map.npcs.as_mut().unwrap().push(GNpc {
        id: "transporter".to_string(),
        position: Some(vec![coord(1.0)]),
        positions: None,
    });
    assert_eq!(transporter_positions(&map), Err(PrepareError::MalformedInput));
}

#[test]
fn two_maps_with_a_transporter() {
    let g = two_maps();
    let mut world = World::new();
    let a = "A".to_string();
    let b = "B".to_string();
    let site = prepare_map(&mut world, &g, &a).unwrap();
    assert_eq!(site.map_id, 0);
    assert_eq!(transporter_positions(&g.maps[0].1), Ok(vec![point(10.0, 10.0)]));
    // Within 150 of the transporter: the spawn point and the transporter itself.
    let mesh_a = Mesh {
        anchors: vec![vec![point(20.0, 20.0), point(10.0, 10.0)]],
        edges: vec![Segment { from: point(20.0, 20.0), to: point(10.0, 10.0) }],
    };
    assert_eq!(link_map(&mut world, &g, &a, &Vec::new(), &mesh_a), Ok(vec![]));
    let site = prepare_map(&mut world, &g, &b).unwrap();
    assert_eq!(site.map_id, 1);
    let mesh_b = Mesh { anchors: Vec::new(), edges: Vec::new() };
    assert_eq!(link_map(&mut world, &g, &b, &Vec::new(), &mesh_b), Ok(vec![]));

    let nodes = nodes_of(&world.graph);
    assert_eq!(nodes, vec![node(0, 20.0, 20.0), node(1, 100.0, 100.0), node(0, 10.0, 10.0)]);
    let edges = edges_of(&world.graph);
    assert_eq!(
        edges,
        vec![
            Edge { from: 0, to: 1, method: TRANSPORT },
            Edge { from: 2, to: 1, method: TRANSPORT },
            Edge { from: 0, to: 2, method: WALK },
            Edge { from: 2, to: 0, method: WALK },
        ]
    );
    // Nothing leads from map B to map A.
    for e in &edges {
        assert!(!(nodes[e.from].map_id == 1 && nodes[e.to].map_id == 0));
    }
    assert!(is_walkable(&world, "A", 10, 10));
    assert!(is_walkable(&world, "B", 100, 100));
}

#[test]
fn graph_invariants_hold_after_linking() {
    let g = two_maps();
    let mut world = World::new();
    for name in ["A", "B"] {
        let name = name.to_string();
        prepare_map(&mut world, &g, &name).unwrap();
        let anchors = if name == "A" { vec![vec![point(20.0, 20.0), point(10.0, 10.0)]] } else { vec![] };
        let mesh = Mesh {
            anchors,
            edges: vec![
                Segment { from: point(5.0, 5.0), to: point(50.0, 5.0) },
                Segment { from: point(5.0, 5.0), to: point(5.0, 5.0) },
                Segment { from: point(50.0, 5.0), to: point(20.0, 20.0) },
            ],
        };
        link_map(&mut world, &g, &name, &Vec::new(), &mesh).unwrap();
    }
    let nodes = nodes_of(&world.graph);
    let edges = edges_of(&world.graph);
    assert!(!edges.is_empty());
    for e in &edges {
        assert!(e.method == WALK || e.method == TRANSPORT);
        if e.method == WALK {
            assert_ne!(e.from, e.to);
            assert!(edges.contains(&Edge { from: e.to, to: e.from, method: WALK }));
        }
        if e.method == TRANSPORT {
            assert_ne!(nodes[e.from].map_id, nodes[e.to].map_id);
        }
    }
    for (i, a) in nodes.iter().enumerate() {
        for b in &nodes[i + 1..] {
            assert_ne!(a, b);
        }
    }
}

#[test]
fn unknown_destinations_are_passed_over() {
    let mut g = two_maps();
    g.npcs[1].1.places = Some(vec![
        ("nowhere".to_string(), 0),
        ("B".to_string(), 5),
        ("B".to_string(), 0),
        ("A".to_string(), 3),
    ]);
    let mut world = World::new();
    let a = "A".to_string();
    prepare_map(&mut world, &g, &a).unwrap();
    let mesh = Mesh {
        anchors: vec![vec![point(10.0, 10.0)]],
        edges: Vec::new(),
    };
    assert_eq!(
        link_map(&mut world, &g, &a, &Vec::new(), &mesh),
        Ok(vec!["nowhere".to_string(), "B".to_string()])
    );
    assert_eq!(
        nodes_of(&world.graph),
        vec![node(0, 20.0, 20.0), node(1, 100.0, 100.0), node(0, 10.0, 10.0)]
    );
    assert_eq!(edges_of(&world.graph), vec![Edge { from: 2, to: 1, method: TRANSPORT }]);
    assert_eq!(world.registry.names, vec!["A".to_string(), "B".to_string()]);
}

#[test]
fn map_without_transporter_resolves_no_destination() {
    let g = two_maps();
    let mut world = World::new();
    let b = "B".to_string();
    prepare_map(&mut world, &g, &b).unwrap();
    let mesh = Mesh { anchors: Vec::new(), edges: Vec::new() };
    assert_eq!(link_map(&mut world, &g, &b, &Vec::new(), &mesh), Ok(vec![]));
    assert_eq!(nodes_of(&world.graph), vec![node(0, 100.0, 100.0)]);
    assert_eq!(world.registry.names, vec!["B".to_string()]);
    assert_eq!(world.graph.edge_count(), 0);
}

#[test]
fn linking_needs_a_prepared_map_and_a_matching_mesh() {
    let g = two_maps();
    let mut world = World::new();
    let a = "A".to_string();
    let empty = Mesh { anchors: Vec::new(), edges: Vec::new() };
    // Not prepared yet.
    assert_eq!(link_map(&mut world, &g, &a, &Vec::new(), &empty), Err(PrepareError::MalformedInput));
    assert_eq!(world.graph.node_count(), 0);
    prepare_map(&mut world, &g, &a).unwrap();
    assert_eq!(world.graph.node_count(), 0);
    // One transporter position, but no list of waypoints for it.
    assert_eq!(link_map(&mut world, &g, &a, &Vec::new(), &empty), Err(PrepareError::MalformedInput));
    // No such map.
    assert_eq!(
        link_map(&mut world, &g, &"C".to_string(), &Vec::new(), &empty),
        Err(PrepareError::MalformedInput)
    );
    assert_eq!(world.graph.node_count(), 0);
    assert_eq!(world.graph.edge_count(), 0);
}

#[test]
fn ignored_maps_are_left_out() {
    let mut g = two_maps();
    g.maps[0].1.ignore = Some(false);
    g.maps.push(("C".to_string(), plain_map("C", vec![spawn(1.0, 1.0)])));
    g.maps[2].1.ignore = Some(true);
    g.geometry.push(("C".to_string(), open_geometry(10)));
    assert_eq!(next_map(&g, 0), Some(1));
    assert_eq!(next_map(&g, 1), Some(1));
    assert_eq!(next_map(&g, 2), None);
    assert_eq!(next_map(&g, 3), None);
    assert_eq!(next_map(&g, usize::MAX), None);

    let mut world = World::new();
    let mut from = 0;
    let mut prepared = Vec::new();
    while let Some(i) = next_map(&g, from) {
        let name = g.maps[i].0.clone();
        prepare_map(&mut world, &g, &name).unwrap();
        let mesh = Mesh { anchors: Vec::new(), edges: Vec::new() };
        link_map(&mut world, &g, &name, &Vec::new(), &mesh).unwrap();
        prepared.push(name);
        from = i + 1;
    }
    assert_eq!(prepared, vec!["B".to_string()]);
    for name in ["A", "C"] {
        assert!(world.grids.get(&name.to_string()).is_none());
        assert!(world.registry.find(&name.to_string()).is_none());
        for (x, y) in [(1, 1), (20, 20), (0, 0)] {
            assert!(!is_walkable(&world, name, x, y));
        }
    }
    assert!(is_walkable(&world, "B", 1, 1));
}

#[test]
fn map_order_fixes_ids() {
    let g = two_maps();
    let mut world = World::new();
    prepare_map(&mut world, &g, &"B".to_string()).unwrap();
    prepare_map(&mut world, &g, &"A".to_string()).unwrap();
    assert_eq!(world.registry.names, vec!["B".to_string(), "A".to_string()]);
}

#[test]
fn transporter_without_coordinates_fails_the_map() {
    let mut g = two_maps();
    g.maps[0].1.npcs.as_mut().unwrap().push(GNpc {
        id: "transporter".to_string(),
        position: None,
        positions: Some(vec![vec![coord(1.0), coord(2.0)], vec![coord(3.0)]]),
    });
    let mut world = World::new();
    assert_eq!(
        prepare_map(&mut world, &g, &"A".to_string()).err(),
        Some(PrepareError::MalformedInput)
    );
    assert!(!is_walkable(&world, "A", 20, 20));
    assert_eq!(world.graph.node_count(), 0);
    assert_eq!(world.registry.names.len(), 0);
    // A character of another kind may stand anywhere.
    g.maps[0].1.npcs.as_mut().unwrap()[2].id = "bean".to_string();
    assert!(prepare_map(&mut world, &g, &"A".to_string()).is_ok());
}

#[test]
fn preparing_a_map_leaves_the_graph_alone() {
    let g = two_maps();
    let mut world = World::new();
    let site = prepare_map(&mut world, &g, &"A".to_string()).unwrap();
    assert_eq!(site.map_id, 0);
    assert_eq!(site.corners.len(), site.waypoints.len());
    assert_eq!(world.graph.node_count(), 0);
    assert_eq!(world.graph.edge_count(), 0);
}

#[test]
fn linking_interns_waypoints_before_spawn_points() {
    let g = two_maps();
    let mut world = World::new();
    let b = "B".to_string();
    prepare_map(&mut world, &g, &b).unwrap();
    let waypoints = vec![point(7.0, 7.0), point(100.0, 100.0), point(7.0, 7.0)];
    let mesh = Mesh { anchors: Vec::new(), edges: Vec::new() };
    assert_eq!(link_map(&mut world, &g, &b, &waypoints, &mesh), Ok(vec![]));
    assert_eq!(nodes_of(&world.graph), vec![node(0, 7.0, 7.0), node(0, 100.0, 100.0)]);
    // Linking again adds nothing.
    assert_eq!(link_map(&mut world, &g, &b, &waypoints, &mesh), Ok(vec![]));
    assert_eq!(world.graph.node_count(), 2);
}

#[test]
fn a_repeated_name_stands_for_its_first_map() {
    let mut g = two_maps();
    // A second map under the name "B", and an ignored map repeated unignored.
    g.maps.push(("B".to_string(), plain_map("B", vec![spawn(1.0, 1.0)])));
    g.maps.insert(0, ("C".to_string(), plain_map("C", vec![])));
    g.maps[0].1.ignore = Some(true);
    g.maps.push(("C".to_string(), plain_map("C", vec![])));
    g.geometry.push(("C".to_string(), open_geometry(10)));
    // Positions: C (ignored), A, B, B again, C again.
    assert_eq!(next_map(&g, 0), Some(1));
    assert_eq!(next_map(&g, 2), Some(2));
    assert_eq!(next_map(&g, 3), None);
    assert_eq!(next_map(&g, 4), None);
    let (world, sites) = prepare_grids(&g).unwrap();
    assert_eq!(sites.iter().map(|s| s.map).collect::<Vec<_>>(), vec![1, 2]);
    assert_eq!(world.registry.names, vec!["A".to_string(), "B".to_string()]);
    // The grid of "B" is that of the first map under the name.
    assert!(is_walkable(&world, "B", 100, 100));
    assert!(!is_walkable(&world, "C", 1, 1));
}

#[test]
fn every_grid_is_prepared_or_none() {
    let g = two_maps();
    let (world, sites) = prepare_grids(&g).unwrap();
    assert_eq!(sites.len(), 2);
    assert_eq!((sites[0].map, sites[0].map_id), (0, 0));
    assert_eq!((sites[1].map, sites[1].map_id), (1, 1));
    assert_eq!(world.graph.node_count(), 0);
    assert!(is_walkable(&world, "A", 20, 20));
    assert!(is_walkable(&world, "B", 100, 100));

    // The second map has a spawn point outside its box.
    let mut bad = two_maps();
    bad.maps[1].1.spawns.push(spawn(500.0, 1.0));
    assert_eq!(prepare_grids(&bad).err(), Some(PrepareError::MalformedInput));
    // A map without geometry.
    let mut bad = two_maps();
    bad.geometry.remove(0);
    assert_eq!(prepare_grids(&bad).err(), Some(PrepareError::MalformedInput));
    // An ignored map may be as wrong as it likes.
    let mut fine = two_maps();
    fine.maps[1].1.spawns.push(spawn(500.0, 1.0));
    fine.maps[1].1.ignore = Some(false);
    let (world, sites) = prepare_grids(&fine).unwrap();
    assert_eq!(sites.len(), 1);
    assert!(!is_walkable(&world, "B", 100, 100));
    // An oversized box fails for lack of room.
    let mut big = two_maps();
    big.geometry[1].1.max_x = 1_000_000;
    big.geometry[1].1.max_y = 1_000_000;
    assert_eq!(prepare_grids(&big).err(), Some(PrepareError::CapacityExceeded));
}

#[test]
fn a_full_registry_refuses_only_new_names() {
    let g = two_maps();
    let a = "A".to_string();
    let mesh = Mesh { anchors: vec![vec![point(10.0, 10.0)]], edges: Vec::new() };

    // Both maps are registered, and the registry is full: linking needs no
    // new name and succeeds.
    let mut world = World::new();
    prepare_map(&mut world, &g, &a).unwrap();
    prepare_map(&mut world, &g, &"B".to_string()).unwrap();
    for i in 2..65_536 {
        world.registry.names.push(format!("map {}", i));
    }
    assert_eq!(link_map(&mut world, &g, &a, &Vec::new(), &mesh), Ok(vec![]));
    assert_eq!(world.registry.names.len(), 65_536);
    assert_eq!(edges_of(&world.graph), vec![Edge { from: 2, to: 1, method: TRANSPORT }]);

    // The destination is new to a full registry: no room.
    let mut world = World::new();
    prepare_map(&mut world, &g, &a).unwrap();
    for i in 1..65_536 {
        world.registry.names.push(format!("map {}", i));
    }
    assert_eq!(
        link_map(&mut world, &g, &a, &Vec::new(), &mesh),
        Err(PrepareError::CapacityExceeded)
    );
    assert_eq!(world.registry.names.len(), 65_536);
    // Preparing a new map fails in the same way and changes nothing.
    assert_eq!(
        prepare_map(&mut world, &g, &"B".to_string()).err(),
        Some(PrepareError::CapacityExceeded)
    );
    assert!(!is_walkable(&world, "B", 100, 100));
    // A map that is registered can still be prepared.
    assert!(prepare_map(&mut world, &g, &a).is_ok());
}

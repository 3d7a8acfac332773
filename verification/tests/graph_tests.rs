use sina::chain::chain_segments;
use sina::data::{highest_wall_base, Data, Door, Wall};
use sina::geometry::{Point, Polygon};
use sina::funnel::{funnel_through, Sign};
use sina::navgraph::{build_portals, path_to, shared_edge, NavEdge, NavGraph, NavNode};
use sina::navmesh::{adjacency_from_polygons, NavMesh};
use sina::outline::{graph_into_polygons, order_walls_as_polygons};
use sina::room_graph::RoomGraph;

fn p(x: f32, y: f32) -> Point {
    Point::new((x.to_bits(), y.to_bits()))
}

fn no_snap(ends: &[(Point, Point)]) -> Vec<(Point, Point)> {
    // snapped ends that never match each other
    (0..ends.len())
        .map(|i| (p(1000.0 + i as f32, 0.0), p(2000.0 + i as f32, 0.0)))
        .collect()
}

#[test]
fn point_order_follows_ordered_floats() {
    assert!(p(1.0, 5.0).less_than(&p(2.0, 0.0)));
    assert!(p(1.0, 1.0).less_than(&p(1.0, 2.0)));
    assert!(!p(2.0, 0.0).less_than(&p(1.0, 5.0)));
    assert!(p(-1.0, 0.0).less_than(&p(0.0, 0.0)));
    assert!(p(1.0e30, 0.0).less_than(&p(f32::NAN, 0.0)));
    assert!(!p(-0.0, 0.0).less_than(&p(0.0, 0.0)));
    assert!(!p(0.0, 0.0).less_than(&p(-0.0, 0.0)));
    assert!(!p(-0.0, 0.0).same(&p(0.0, 0.0)));
    assert!(p(3.0, 4.0).same(&p(3.0, 4.0)));
}

#[test]
fn chains_follow_connected_segments() {
    // a square given out of order, one side reversed
    let ends = vec![
        (p(0.0, 0.0), p(1.0, 0.0)),
        (p(1.0, 1.0), p(0.0, 1.0)),
        (p(1.0, 1.0), p(1.0, 0.0)),
        (p(0.0, 1.0), p(0.0, 0.0)),
    ];
    let cs = chain_segments(&ends, &no_snap(&ends));
    assert_eq!(cs, vec![vec![(0, false), (2, true), (1, false), (3, false)]]);
}

#[test]
fn chains_split_disconnected_segments() {
    let ends = vec![(p(0.0, 0.0), p(1.0, 0.0)), (p(5.0, 5.0), p(6.0, 5.0))];
    let cs = chain_segments(&ends, &no_snap(&ends));
    assert_eq!(cs, vec![vec![(0, false)], vec![(1, false)]]);
}

#[test]
fn chains_join_on_snapped_ends() {
    let ends = vec![(p(0.0, 0.0), p(1.0, 0.0)), (p(1.01, 0.0), p(2.0, 0.0))];
    let snaps = vec![(p(0.0, 0.0), p(1.0, 0.0)), (p(1.0, 0.0), p(2.0, 0.0))];
    let cs = chain_segments(&ends, &snaps);
    assert_eq!(cs, vec![vec![(0, false), (1, false)]]);
}

#[test]
fn every_segment_is_in_exactly_one_chain() {
    let ends = vec![
        (p(0.0, 0.0), p(1.0, 0.0)),
        (p(3.0, 3.0), p(4.0, 3.0)),
        (p(1.0, 0.0), p(1.0, 1.0)),
        (p(4.0, 3.0), p(3.0, 3.0)),
        (p(9.0, 9.0), p(8.0, 8.0)),
    ];
    let cs = chain_segments(&ends, &no_snap(&ends));
    let mut seen: Vec<usize> = cs.iter().flat_map(|c| c.iter().map(|o| o.0)).collect();
    seen.sort();
    assert_eq!(seen, vec![0, 1, 2, 3, 4]);
}

#[test]
fn walls_ordered_into_polygons() {
    let walls = vec![
        Wall::new(1, p(0.0, 0.0), p(2.0, 0.0)),
        Wall::new(2, p(0.0, 2.0), p(2.0, 2.0)),
        Wall::new(3, p(2.0, 0.0), p(2.0, 2.0)),
        Wall::new(4, p(0.0, 2.0), p(0.0, 0.0)),
    ];
    let snaps: Vec<(Point, Point)> = walls.iter().map(|w| (w.a, w.b)).collect();
    let polys = order_walls_as_polygons(&walls, &snaps);
    assert_eq!(polys.len(), 1);
    let ids: Vec<i64> = polys[0].iter().map(|w| w.id).collect();
    assert_eq!(ids, vec![1, 3, 2, 4]);
    // wall 2 runs against the chain and comes reversed
    assert_eq!(polys[0][2], Wall::new(2, p(2.0, 2.0), p(0.0, 2.0)));
}

#[test]
fn room_graph_merges_points_and_duplicate_walls() {
    let data = Data {
        walls: vec![
            Wall::new(1, p(0.0, 0.0), p(1.0, 0.0)),
            Wall::new(2, p(1.0, 0.0), p(0.0, 0.0)),
            Wall::new(3, p(1.0, 0.0), p(1.0, 1.0)),
        ],
        doors: vec![Door::new(p(0.5, 0.0), 0.9f32.to_bits(), 1), Door::new(p(1.0, 0.5), 0.8f32.to_bits(), 3)],
        bboxes: vec![],
    };
    let g = RoomGraph::from_data(&data);
    assert_eq!(g.nodes.len(), 3);
    assert_eq!(g.nodes.get(&0), Some(&p(0.0, 0.0)));
    assert_eq!(g.nodes.get(&1), Some(&p(1.0, 0.0)));
    assert_eq!(g.nodes.get(&2), Some(&p(1.0, 1.0)));
    assert_eq!(g.edges.len(), 2);
    assert_eq!(g.edges[0].doors.len(), 1);
    assert_eq!(g.edges[1].doors[0].wall_id, 3);
    let polys = graph_into_polygons(&g, &vec![(p(0.0, 0.0), p(1.0, 0.0)), (p(1.0, 0.0), p(1.0, 1.0))]);
    assert_eq!(polys.len(), 1);
    assert_eq!(polys[0].vertices, vec![p(0.0, 0.0), p(1.0, 0.0)]);
}

#[test]
fn wall_segments_lists_wall_ends() {
    let data = Data { walls: vec![Wall::new(9, p(1.0, 2.0), p(3.0, 4.0))], doors: vec![], bboxes: vec![] };
    assert_eq!(data.wall_segments(), vec![(p(1.0, 2.0), p(3.0, 4.0))]);
    assert_eq!(data.extract_walls().len(), 1);
}

fn tri(a: Point, b: Point, c: Point) -> Polygon {
    Polygon::new(vec![a, b, c])
}

#[test]
fn navmesh_links_polygons_sharing_an_edge() {
    let polys = vec![
        tri(p(0.0, 0.0), p(1.0, 0.0), p(0.0, 1.0)),
        tri(p(1.0, 0.0), p(1.0, 1.0), p(0.0, 1.0)),
        tri(p(5.0, 5.0), p(6.0, 5.0), p(5.0, 6.0)),
    ];
    let adj = adjacency_from_polygons(&polys);
    assert_eq!(adj, vec![vec![1], vec![0], vec![]]);
}

#[test]
fn navmesh_ignores_edges_with_three_owners() {
    let polys = vec![
        tri(p(0.0, 0.0), p(1.0, 0.0), p(0.0, 1.0)),
        tri(p(1.0, 0.0), p(0.0, 0.0), p(0.0, -1.0)),
        tri(p(0.0, 0.0), p(1.0, 0.0), p(1.0, 1.0)),
    ];
    let adj = adjacency_from_polygons(&polys);
    assert_eq!(adj.len(), 3);
    // edge (0,0)-(1,0) has three owners: no link through it
    assert!(adj.iter().all(|l| l.is_empty()));
}

#[test]
fn navmesh_adjacency_is_symmetric_on_a_fan() {
    let c = p(0.0, 0.0);
    let polys = vec![
        tri(c, p(1.0, 0.0), p(0.0, 1.0)),
        tri(c, p(0.0, 1.0), p(-1.0, 0.0)),
        tri(c, p(-1.0, 0.0), p(0.0, -1.0)),
        tri(c, p(0.0, -1.0), p(1.0, 0.0)),
    ];
    let adj = adjacency_from_polygons(&polys);
    for i in 0..adj.len() {
        assert_eq!(adj[i].len(), 2);
        for &j in &adj[i] {
            assert!(adj[j].contains(&i));
        }
    }
}

#[test]
fn shared_edge_finds_first_common_edge() {
    let a = vec![p(0.0, 0.0), p(1.0, 0.0), p(0.0, 1.0)];
    let b = vec![p(1.0, 0.0), p(1.0, 1.0), p(0.0, 1.0)];
    assert_eq!(shared_edge(&a, &b), Some((p(1.0, 0.0), p(0.0, 1.0))));
    let c = vec![p(7.0, 7.0)];
    assert_eq!(shared_edge(&a, &c), None);
    assert_eq!(shared_edge(&vec![], &b), None);
}

#[test]
fn portals_along_a_path() {
    let polys = vec![
        vec![p(0.0, 0.0), p(1.0, 0.0), p(0.0, 1.0)],
        vec![p(1.0, 0.0), p(1.0, 1.0), p(0.0, 1.0)],
        vec![p(9.0, 9.0), p(9.5, 9.0), p(9.0, 9.5)],
    ];
    let centroids = vec![p(0.3, 0.3), p(0.6, 0.6), p(9.2, 9.2)];
    let start = p(0.1, 0.1);
    let goal = p(9.1, 9.1);
    let portals = build_portals(&vec![0, 1, 2], &polys, &centroids, start, goal);
    assert_eq!(
        portals,
        vec![
            (start, start),
            (p(0.0, 1.0), p(1.0, 0.0)),
            (p(9.2, 9.2), p(9.2, 9.2)),
            (goal, goal),
        ]
    );
    assert_eq!(build_portals(&vec![], &polys, &centroids, start, goal), vec![(start, start), (goal, goal)]);
}

#[test]
fn navmesh_keeps_polygons_and_links_them() {
    let polys = vec![
        tri(p(0.0, 0.0), p(1.0, 0.0), p(0.0, 1.0)),
        tri(p(0.0, 1.0), p(1.0, 0.0), p(1.0, 1.0)),
    ];
    let mesh = NavMesh::from_polygons(polys.clone());
    assert_eq!(mesh.polygons.len(), 2);
    assert_eq!(mesh.adjacency, vec![vec![1], vec![0]]);
}

#[test]
fn find_wall_returns_first_match() {
    let data = Data {
        walls: vec![
            Wall::new(4, p(0.0, 0.0), p(1.0, 0.0)),
            Wall::new(7, p(1.0, 0.0), p(1.0, 1.0)),
            Wall::new(7, p(5.0, 5.0), p(6.0, 6.0)),
        ],
        doors: vec![],
        bboxes: vec![],
    };
    assert_eq!(data.find_wall(7), Some(Wall::new(7, p(1.0, 0.0), p(1.0, 1.0))));
    assert_eq!(data.find_wall(9), None);
}

#[test]
fn navgraph_queries() {
    let polys = vec![
        vec![p(0.0, 0.0), p(1.0, 0.0), p(0.0, 1.0)],
        vec![p(1.0, 0.0), p(1.0, 1.0), p(0.0, 1.0)],
    ];
    let nodes = vec![NavNode { centroid: p(0.3, 0.3) }, NavNode { centroid: p(0.7, 0.7) }];
    let edges = vec![vec![NavEdge { to: 1, cost: 0.5f32.to_bits() }], vec![NavEdge { to: 0, cost: 0.5f32.to_bits() }]];
    let g = NavGraph::new(nodes, edges, polys.clone());
    assert_eq!(g.get_node_positions(), vec![p(0.3, 0.3), p(0.7, 0.7)]);
    assert_eq!(g.polygon_vertices(), polys);
    assert_eq!(g.edges_as_points(), vec![(p(0.3, 0.3), p(0.7, 0.7)), (p(0.7, 0.7), p(0.3, 0.3))]);
    assert_eq!(g.shared_edge(0, 1), Some((p(1.0, 0.0), p(0.0, 1.0))));
    let start = p(0.1, 0.1);
    let goal = p(0.9, 0.9);
    assert_eq!(
        g.portals(&vec![0, 1], start, goal),
        vec![(start, start), (p(0.0, 1.0), p(1.0, 0.0)), (goal, goal)]
    );
}

#[test]
fn edge_between_signed_zeros_is_not_matched_across_directions() {
    // the ends differ only in the sign of a zero: the two directions of the
    // edge get different keys, so the polygons are not linked through it
    let a = p(-0.0, 0.0);
    let b = p(0.0, 0.0);
    let polys = vec![tri(a, b, p(0.0, 1.0)), tri(b, a, p(0.0, -1.0))];
    assert_eq!(adjacency_from_polygons(&polys), vec![Vec::<usize>::new(), vec![]]);
}

#[test]
fn highest_wall_base_is_lowest_wall_top() {
    let b = |x: f32| x.to_bits();
    let zs = vec![(b(0.0), b(2.5)), (b(1.0), b(0.5)), (b(3.0), b(-1.0))];
    assert_eq!(f32::from_bits(highest_wall_base(&zs)), 1.0);
    assert_eq!(highest_wall_base(&vec![]), 0);
    // NaN is greater than every number
    assert_eq!(f32::from_bits(highest_wall_base(&vec![(b(f32::NAN), b(4.0)), (b(5.0), b(6.0))])), 6.0);
}

#[test]
fn path_follows_back_pointers_from_the_start() {
    // 2 <- 0 <- 3, and 1 alone
    let prev = vec![Some(2), None, None, Some(0)];
    assert_eq!(path_to(&prev, 3), Some(vec![2, 0, 3]));
    assert_eq!(path_to(&prev, 2), Some(vec![2]));
    assert_eq!(path_to(&prev, 1), Some(vec![1]));
    // back-pointers in a cycle
    let cyc = vec![Some(1), Some(0)];
    assert_eq!(path_to(&cyc, 0), None);
}

#[test]
fn navmesh_counts_every_shared_edge() {
    let (a, b, c, d) = (p(0.0, 0.0), p(1.0, 0.0), p(1.0, 1.0), p(0.0, 1.0));
    let polys = vec![Polygon::new(vec![a, b, c, d]), Polygon::new(vec![b, a, d, c])];
    assert_eq!(adjacency_from_polygons(&polys), vec![vec![1, 1, 1, 1], vec![0, 0, 0, 0]]);
}

fn fp(x: f32, y: f32) -> Point {
    Point::new((x.to_bits(), y.to_bits()))
}

fn orient(a: Point, b: Point, c: Point) -> Sign {
    let f = |p: Point| (f32::from_bits(p.x), f32::from_bits(p.y));
    let ((ax0, ay0), (bx0, by0), (cx0, cy0)) = (f(a), f(b), f(c));
    let (ax, ay) = (bx0 - ax0, by0 - ay0);
    let (bx, by) = (cx0 - ax0, cy0 - ay0);
    let v = bx * ay - ax * by;
    if v > 0.0 {
        Sign::Positive
    } else if v < 0.0 {
        Sign::Negative
    } else if v == 0.0 {
        Sign::Zero
    } else {
        Sign::Unordered
    }
}

#[test]
fn funnel_turns_at_the_corner() {
    let s = fp(0.5, 0.5);
    let g = fp(1.2, 1.8);
    let portals = vec![(s, s), (fp(1.0, 1.0), fp(1.0, 0.0)), (g, g)];
    assert_eq!(funnel_through(&portals, orient), vec![s, fp(1.0, 1.0), g]);
}

#[test]
fn funnel_through_open_corridor() {
    let s = fp(0.5, 0.5);
    let g = fp(1.5, 0.5);
    let portals = vec![(s, s), (fp(1.0, 1.0), fp(1.0, 0.0)), (g, g)];
    assert_eq!(funnel_through(&portals, orient), vec![s, g, g]);
    assert_eq!(funnel_through(&vec![(s, s)], orient), vec![s, s]);
}

#[test]
fn navgraph_funnel_short_path_is_straight() {
    let g = NavGraph::new(vec![NavNode { centroid: fp(0.5, 0.5) }], vec![vec![]], vec![vec![]]);
    let (s, t) = (fp(0.0, 0.0), fp(0.9, 0.9));
    assert_eq!(g.funnel(&vec![0], s, t, orient), vec![s, t]);
    assert_eq!(g.funnel(&vec![], s, t, orient), vec![s, t]);
}

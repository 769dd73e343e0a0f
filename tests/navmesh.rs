use navmesh::geometry::{area2, distance, isqrt, Point, UNIT};
use navmesh::funnel::refine_path;
use navmesh::navmesh::{Edge, NavMesh, Node};

fn pt(x: f32, y: f32) -> Point {
    let scale = UNIT as f32;
    Point::new((x * scale).round() as i32, (y * scale).round() as i32)
}

fn edge(a: (f32, f32), b: (f32, f32), neighbor: u32) -> Edge {
    Edge {
        vertices: [pt(a.0, a.1), pt(b.0, b.1)],
        neighbor,
    }
}

#[test]
fn area_signs() {
    assert!(area2(&Point::origin(), &pt(-1.0, 1.0), &pt(1.0, 1.0)) < 0);
    assert!(area2(&Point::origin(), &pt(1.0, 1.0), &pt(-1.0, 1.0)) > 0);
}

#[test]
fn empty() {
    let mesh = NavMesh::new(vec![Node {
        center: Point::origin(),
        edges: vec![],
    }]);
    let channel = mesh.plan_channel(0, 0, &Point::origin());
    assert_eq!(channel.len(), 1);
}

#[test]
fn empty_plan_has_no_via_points() {
    let mesh = NavMesh::new(vec![Node {
        center: Point::origin(),
        edges: vec![],
    }]);
    let channel = mesh.plan_channel(0, 0, &pt(2.0, 3.0));
    assert_eq!(channel, vec![[pt(2.0, 3.0), pt(2.0, 3.0)]]);
    let path = mesh.plan(0, &Point::origin(), 0, &pt(2.0, 3.0));
    assert_eq!(path.len(), 0);
}

#[test]
fn right_corner() {
    // ---+
    // --+|
    //   ||
    let mesh = NavMesh::new(vec![
        Node {
            center: Point::origin(),
            edges: vec![edge((9.0, 0.0), (10.0, 1.0), 1)],
        },
        Node {
            center: pt(9.5, -5.0),
            edges: vec![edge((10.0, 1.0), (9.0, 0.0), 0)],
        },
    ]);
    let path = mesh.plan(0, &Point::origin(), 1, &pt(9.5, -5.0));
    assert_eq!(path[..], [pt(9.0, 0.0)][..]);
}

#[test]
fn left_corner() {
    //   ||
    // --+|
    // ---+
    let mesh = NavMesh::new(vec![
        Node {
            center: Point::origin(),
            edges: vec![edge((10.0, 0.0), (9.0, 1.0), 1)],
        },
        Node {
            center: pt(9.5, 5.0),
            edges: vec![edge((9.0, 1.0), (10.0, 0.0), 0)],
        },
    ]);
    let path = mesh.plan(0, &Point::origin(), 1, &pt(9.5, 5.0));
    assert_eq!(path[..], [pt(9.0, 1.0)][..]);
}

#[test]
fn straight() {
    // --+--
    // --+--
    let mesh = NavMesh::new(vec![
        Node {
            center: Point::origin(),
            edges: vec![edge((10.0, -1.0), (10.0, 1.0), 1)],
        },
        Node {
            center: pt(20.0, 0.0),
            edges: vec![edge((10.0, 1.0), (10.0, -1.0), 0)],
        },
    ]);
    let path = mesh.plan(0, &Point::origin(), 1, &pt(20.0, 0.0));
    assert_eq!(path.len(), 0);
}

#[test]
fn multi_edge() {
    // -----
    //
    //   |
    //
    // -----
    let mesh = NavMesh::new(vec![
        Node {
            center: Point::origin(),
            edges: vec![
                edge((0.0, 1.0), (0.0, 2.0), 1),
                edge((0.0, -2.0), (0.0, -1.0), 1),
            ],
        },
        Node {
            center: pt(20.0, 0.0),
            edges: vec![
                edge((0.0, 2.0), (0.0, 1.0), 1),
                edge((0.0, -1.0), (0.0, -2.0), 1),
            ],
        },
    ]);
    let path = mesh.plan(0, &pt(-1.0, 0.0), 1, &pt(1.0, 0.0));
    assert_eq!(path.len(), 1);
}

#[test]
fn area_orientation_flips_and_rotates() {
    let a = pt(1.0, 2.0);
    let b = pt(4.0, -1.0);
    let c = pt(-3.0, 5.0);
    assert_eq!(area2(&a, &c, &b), -area2(&a, &b, &c));
    assert_eq!(area2(&b, &c, &a), area2(&a, &b, &c));
    // (3, -3) x (-4, 3) = 9 - 12 = -3 square units
    assert_eq!(area2(&a, &b, &c), -3 * (UNIT as i128) * (UNIT as i128));
    assert_eq!(area2(&a, &b, &pt(7.0, -4.0)), 0);
}

#[test]
fn integer_square_roots() {
    assert_eq!(isqrt(0), 0);
    assert_eq!(isqrt(15), 3);
    assert_eq!(isqrt(16), 4);
    assert_eq!(isqrt(u128::MAX), u64::MAX);
}

#[test]
fn distance_of_a_three_four_five_triangle() {
    assert_eq!(distance(&Point::origin(), &pt(3.0, 4.0)), 5 * UNIT as u64);
    assert_eq!(distance(&pt(1.0, 1.0), &pt(2.0, 2.0)), 362);
    let far = distance(&Point::new(i32::MIN, i32::MIN), &Point::new(i32::MAX, i32::MAX));
    assert_eq!(far, 6074000998);
}

#[test]
fn heuristic_takes_the_nearer_endpoint_unsquared() {
    let mesh = NavMesh::new(vec![
        Node {
            center: Point::origin(),
            edges: vec![edge((3.0, 4.0), (6.0, 8.0), 1), edge((6.0, 8.0), (0.0, 2.0), 1)],
        },
        Node {
            center: pt(5.0, 5.0),
            edges: vec![],
        },
    ]);
    assert_eq!(mesh.heuristic(0, &Point::origin()), 2 * UNIT as u64);
    assert_eq!(mesh.heuristic(1, &Point::origin()), u64::MAX);
}

#[test]
fn refine_path_follows_a_bending_channel() {
    // A channel that turns left, then right: the via-points are the inner corners.
    let channel = vec![
        [pt(4.0, 1.0), pt(4.0, -1.0)],
        [pt(6.0, 4.0), pt(8.0, 2.0)],
        [pt(8.0, 8.0), pt(10.0, 8.0)],
        [pt(9.0, 16.0), pt(9.0, 16.0)],
    ];
    let path = refine_path(&Point::origin(), &channel);
    assert!(path.len() >= 1);
    for p in &path {
        assert!(channel[..channel.len() - 1].iter().any(|c| c[0] == *p || c[1] == *p));
    }
    assert_eq!(refine_path(&Point::origin(), &channel[..1]).len(), 0);
}

#[test]
fn right_bound_narrows_then_becomes_a_via_point() {
    let channel = vec![
        [pt(1.0, -10.0), pt(1.0, 10.0)],
        [pt(2.0, -10.0), pt(2.0, 1.0)],
        [pt(10.0, 8.0), pt(10.0, 8.0)],
    ];
    let path = refine_path(&Point::origin(), &channel);
    assert_eq!(path, vec![pt(2.0, 1.0)]);
}

#[test]
fn left_collapse_restarts_past_the_committed_portal() {
    // The channel bends below its left bounds: each collapse commits the left
    // corner and scanning restarts past it.
    let channel = vec![
        [pt(1.0, 0.0), pt(1.0, 10.0)],
        [pt(2.0, -1.0), pt(2.0, 10.0)],
        [pt(3.0, -1.0), pt(3.0, -0.5)],
        [pt(9.0, -9.0), pt(9.0, -9.0)],
    ];
    let path = refine_path(&Point::origin(), &channel);
    assert_eq!(path, vec![pt(1.0, 0.0), pt(2.0, -1.0)]);
}

fn corridor_with_detour() -> NavMesh {
    // 0 -> 1 -> 3 goes far north; 0 -> 2 -> 3 goes straight east.
    NavMesh::new(vec![
        Node {
            center: Point::origin(),
            edges: vec![edge((1.0, 10.0), (-1.0, 10.0), 1), edge((5.0, -1.0), (5.0, 1.0), 2)],
        },
        Node {
            center: pt(0.0, 40.0),
            edges: vec![edge((10.0, 41.0), (10.0, 39.0), 3), edge((-1.0, 10.0), (1.0, 10.0), 0)],
        },
        Node {
            center: pt(10.0, 0.0),
            edges: vec![edge((15.0, -1.0), (15.0, 3.0), 3), edge((5.0, 1.0), (5.0, -1.0), 0)],
        },
        Node {
            center: pt(20.0, 2.0),
            edges: vec![edge((15.0, 3.0), (15.0, -1.0), 2), edge((10.0, 39.0), (10.0, 41.0), 1)],
        },
    ])
}

#[test]
fn search_prefers_the_cheaper_route() {
    let mesh = corridor_with_detour();
    let channel = mesh.plan_channel(0, 3, &pt(20.0, 2.0));
    assert_eq!(
        channel,
        vec![
            [pt(5.0, -1.0), pt(5.0, 1.0)],
            [pt(15.0, -1.0), pt(15.0, 3.0)],
            [pt(20.0, 2.0), pt(20.0, 2.0)],
        ]
    );
}

#[test]
fn plan_is_repeatable() {
    let mesh = corridor_with_detour();
    let first = mesh.plan(0, &Point::origin(), 3, &pt(20.0, 2.0));
    let second = mesh.plan(0, &Point::origin(), 3, &pt(20.0, 2.0));
    assert_eq!(first, second);
}

#[test]
fn via_points_are_mesh_vertices() {
    let mesh = corridor_with_detour();
    let vertices: Vec<Point> = vec![
        pt(1.0, 10.0),
        pt(-1.0, 10.0),
        pt(5.0, -1.0),
        pt(5.0, 1.0),
        pt(10.0, 41.0),
        pt(10.0, 39.0),
        pt(15.0, -1.0),
        pt(15.0, 3.0),
    ];
    for (start_cell, start) in [(0u32, Point::origin()), (2, pt(10.0, 0.0)), (1, pt(0.0, 40.0))] {
        for goal_cell in 0..4u32 {
            let goal = pt(3.0 * goal_cell as f32, 1.0);
            let path = mesh.plan(start_cell, &start, goal_cell, &goal);
            assert!(path.len() <= 4);
            for p in &path {
                assert!(vertices.contains(p));
            }
        }
    }
}

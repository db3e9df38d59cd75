use cave_diver::bounding_box::BoundingBox;
use cave_diver::pathfinding::{bounding_box_for_path, find_path, search_path, Point, SearchOutcome};

#[test]
fn test_simple_path() {
    let start = Point { x: 0, y: 0 };
    let goal = Point { x: 2, y: 2 };

    let is_walkable = |_| true;

    let path = find_path(start, goal, is_walkable).unwrap();

    assert_eq!(path.len(), 5);
}

#[test]
fn test_bounding_box_for_path_with_none() {
    let origin = Point { x: 5, y: 5 };
    let bbox = bounding_box_for_path(&origin, None);

    // With no path provided, the bounding box should exactly cover the origin cell.
    assert_eq!(bbox.left, 5);
    assert_eq!(bbox.right, 6);
    assert_eq!(bbox.top, 5);
    assert_eq!(bbox.bottom, 6);
}

#[test]
fn test_bounding_box_for_path_with_points() {
    let origin = Point { x: 2, y: 3 };
    let path = vec![
        Point { x: 1, y: 4 },
        Point { x: 5, y: 2 },
        Point { x: 3, y: 6 },
    ];

    let bbox = bounding_box_for_path(&origin, Some(&path));

    // Calculate expected boundaries:
    // left   = min(origin.x, min(x in path))       = min(2, 1)    = 1
    // right  = max(origin.x+1, max(x+1 in path))   = max(3, 6)    = 6
    // top    = min(origin.y, min(y in path))       = min(3, 2)    = 2
    // bottom = max(origin.y+1, max(y+1 in path))   = max(4, 7)    = 7

    assert_eq!(bbox.left, 1);
    assert_eq!(bbox.right, 6);
    assert_eq!(bbox.top, 2);
    assert_eq!(bbox.bottom, 7);
}

#[test]
fn test_start_equals_goal_single_element_path() {
    let p = Point { x: -7, y: 11 };

    // Even a predicate that allows nothing: no movement is needed.
    let path = find_path(p, p, |_| false).unwrap();

    assert_eq!(path.len(), 1);
    assert_eq!(path[0], p);
}

#[test]
fn test_enclosed_goal_has_no_path() {
    let start = Point { x: 0, y: 0 };
    let goal = Point { x: 5, y: 5 };

    // A connected ring of blocked cells around the goal, inside a bounded
    // walkable region (so the search exhausts its frontier).
    let is_walkable = |p: Point| {
        let in_world = p.x >= -2 && p.x <= 8 && p.y >= -2 && p.y <= 8;
        let on_ring = (p.x - 5).abs() <= 1 && (p.y - 5).abs() <= 1 && !(p.x == 5 && p.y == 5);
        in_world && !on_ring
    };

    assert!(find_path(start, goal, is_walkable).is_none());
}

#[test]
fn test_path_detours_around_wall() {
    let start = Point { x: 0, y: 0 };
    let goal = Point { x: 2, y: 0 };

    // A wall on the column x == 1 with a single gap at y == 3.
    let is_walkable =
        |p: Point| p.x >= -1 && p.x <= 3 && p.y >= -9 && p.y <= 9 && (p.x != 1 || p.y == 3);

    let path = find_path(start, goal, is_walkable).unwrap();

    assert_eq!(path[0], start);
    assert_eq!(path[path.len() - 1], goal);
    assert_eq!(path.len(), 9);
    for w in path.windows(2) {
        let d = (w[0].x - w[1].x).abs() + (w[0].y - w[1].y).abs();
        assert_eq!(d, 1);
    }
    for p in &path {
        assert!(is_walkable(*p));
    }
}

#[test]
fn test_manhattan_distance() {
    let a = Point { x: -3, y: 4 };
    let b = Point { x: 2, y: -1 };
    assert_eq!(a.manhattan_distance(&b), 10);
    assert_eq!(b.manhattan_distance(&a), 10);
    assert_eq!(a.manhattan_distance(&a), 0);
}

#[test]
fn test_neighbors_are_the_four_adjacent_cells() {
    let p = Point { x: 3, y: -2 };
    let n = p.neighbors();
    assert_eq!(n.len(), 4);
    assert!(n.contains(&Point { x: 2, y: -2 }));
    assert!(n.contains(&Point { x: 4, y: -2 }));
    assert!(n.contains(&Point { x: 3, y: -3 }));
    assert!(n.contains(&Point { x: 3, y: -1 }));
}

#[test]
fn test_goblin_path_bounding_box_is_well_formed() {
    let origin = Point { x: 0, y: 0 };
    let path = vec![Point { x: 0, y: 1 }, Point { x: 0, y: 2 }];
    let bbox = bounding_box_for_path(&origin, Some(&path));
    let other = BoundingBox { left: 0, right: 1, top: 0, bottom: 1 };
    assert!(bbox.intersects(&other));
}

#[test]
fn test_search_path_distinguishes_no_path_from_found() {
    let start = Point { x: 0, y: 0 };
    let goal = Point { x: 5, y: 5 };
    let is_walkable = |p: Point| {
        let in_world = p.x >= -2 && p.x <= 8 && p.y >= -2 && p.y <= 8;
        let on_ring = (p.x - 5).abs() <= 1 && (p.y - 5).abs() <= 1 && !(p.x == 5 && p.y == 5);
        in_world && !on_ring
    };

    // The goal is enclosed: the frontier drains and the search is certain.
    assert!(matches!(
        search_path(start, goal, is_walkable),
        SearchOutcome::NoPath
    ));

    // Without the ring the same search finds a shortest path.
    let open_world = |p: Point| p.x >= -2 && p.x <= 8 && p.y >= -2 && p.y <= 8;
    match search_path(start, goal, open_world) {
        SearchOutcome::Found(path) => assert_eq!(path.len(), 11),
        _ => panic!("expected a path"),
    }
}

#[test]
fn test_found_path_is_shortest() {
    // A wall with a single gap: the shortest detour is forced and exact.
    let start = Point { x: 0, y: 0 };
    let goal = Point { x: 2, y: 0 };
    let is_walkable =
        |p: Point| p.x >= -1 && p.x <= 3 && p.y >= -9 && p.y <= 9 && (p.x != 1 || p.y == 3);

    let path = find_path(start, goal, is_walkable).unwrap();
    assert_eq!(path.len(), 9);

    // No shorter walkable route exists; a same-length one does.
    let along_gap = [
        (0, 0),
        (0, 1),
        (0, 2),
        (0, 3),
        (1, 3),
        (2, 3),
        (2, 2),
        (2, 1),
        (2, 0),
    ];
    for (x, y) in along_gap {
        assert!(is_walkable(Point { x, y }));
    }
}

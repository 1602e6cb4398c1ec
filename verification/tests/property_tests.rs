use hex_pathfinding::HexOrientation;
use hex_pathfinding::astar_cubic;
use hex_pathfinding::helpers::axial_to_cubic;
use hex_pathfinding::helpers::cubic_to_axial;
use hex_pathfinding::helpers::cubic_to_offset;
use hex_pathfinding::helpers::cubic_to_spiral_hex;
use hex_pathfinding::helpers::node_distance;
use hex_pathfinding::helpers::node_neighbours_cubic;
use hex_pathfinding::helpers::node_neighbours_offset;
use hex_pathfinding::helpers::node_ring_cubic;
use hex_pathfinding::helpers::node_ring_spiral_hex;
use hex_pathfinding::helpers::offset_to_cubic;
use hex_pathfinding::helpers::spiral_hex_to_cubic;

#[test]
/// Axial to cubic and back returns the original coordinate
fn axial_round_trip() {
    for q in -5..=5 {
        for r in -5..=5 {
            let c = axial_to_cubic((q, r));
            assert_eq!((q, r), cubic_to_axial(c));
        }
    }
}

#[test]
/// Offset to cubic and back returns the original coordinate in every
/// orientation
fn offset_round_trip() {
    let orientations = [
        HexOrientation::FlatTopOddUp,
        HexOrientation::FlatTopOddDown,
        HexOrientation::PointyTopOddRight,
        HexOrientation::PointyTopOddLeft,
    ];
    for o in orientations.iter() {
        for col in -6..=6 {
            for row in -6..=6 {
                let c = offset_to_cubic((col, row), o);
                assert_eq!((col, row), cubic_to_offset(c, o));
            }
        }
    }
}

#[test]
/// Spiral to cubic and back returns the original index across four rings
fn spiral_round_trip() {
    for i in 0..61 {
        let c = spiral_hex_to_cubic(i);
        assert_eq!(i, cubic_to_spiral_hex(c));
    }
}

#[test]
/// Every conversion into cubic space satisfies x + y + z == 0
fn cubic_invariant_of_conversions() {
    let orientations = [
        HexOrientation::FlatTopOddUp,
        HexOrientation::FlatTopOddDown,
        HexOrientation::PointyTopOddRight,
        HexOrientation::PointyTopOddLeft,
    ];
    for q in -4..=4 {
        for r in -4..=4 {
            let c = axial_to_cubic((q, r));
            assert_eq!(0, c.0 + c.1 + c.2);
            for o in orientations.iter() {
                let k = offset_to_cubic((q, r), o);
                assert_eq!(0, k.0 + k.1 + k.2);
            }
        }
    }
    for i in 0..37 {
        let c = spiral_hex_to_cubic(i);
        assert_eq!(0, c.0 + c.1 + c.2);
    }
}

#[test]
/// Neighbour counts never exceed six, and cells on a boundary yield
/// strictly fewer
fn neighbour_count_bound() {
    for x in -2..=2 {
        for y in -2..=2 {
            let z = -x - y;
            if z < -2 || z > 2 {
                continue;
            }
            let n = node_neighbours_cubic((x, y, z), 2);
            assert!(n.len() <= 6);
            let on_rim = x.abs() == 2 || y.abs() == 2 || z.abs() == 2;
            if on_rim {
                assert!(n.len() < 6);
            } else {
                assert_eq!(6, n.len());
            }
        }
    }
    let rim = node_neighbours_offset((0, 0), &HexOrientation::FlatTopOddUp, -1, 4, -1, 4);
    assert!(rim.len() < 6);
}

#[test]
/// Ring k yields exactly 6k coordinates for k >= 1, and ring 0 yields one
fn ring_sizes() {
    assert_eq!(1, node_ring_cubic((0, 0, 0), 0).len());
    assert_eq!(1, node_ring_spiral_hex(0).len());
    for k in 1..=5 {
        assert_eq!(6 * k as usize, node_ring_cubic((0, 0, 0), k).len());
        assert_eq!(6 * k as usize, node_ring_spiral_hex(k).len());
    }
}

#[test]
/// The distance metric is symmetric and zero on the diagonal
fn distance_symmetry() {
    let cells = [
        (0, 0, 0),
        (1, -1, 0),
        (2, -3, 1),
        (-2, -1, 3),
        (5, 0, -5),
        (-4, 4, 0),
    ];
    for a in cells.iter() {
        assert_eq!(0, node_distance(*a, *a));
        for b in cells.iter() {
            assert_eq!(node_distance(*a, *b), node_distance(*b, *a));
        }
    }
}

/// The doubled cost of walking `path`: each boundary crossing costs the
/// cost of the cell left plus the cost of the cell entered.
fn doubled_path_cost(path: &[(i32, i32, i32)], nodes: &[((i32, i32, i32), u32)]) -> u64 {
    let cost = |c: (i32, i32, i32)| -> u64 {
        nodes.iter().find(|p| p.0 == c).map(|p| p.1 as u64).unwrap()
    };
    let mut total: u64 = 0;
    for w in path.windows(2) {
        total += cost(w[0]) + cost(w[1]);
    }
    total
}

/// The least doubled cost over every simple path from `at` to `end`.
fn brute_force_minimum(
    at: (i32, i32, i32),
    end: (i32, i32, i32),
    rings: i32,
    nodes: &[((i32, i32, i32), u32)],
    visited: &mut Vec<(i32, i32, i32)>,
) -> Option<u64> {
    if at == end {
        return Some(0);
    }
    let cost = |c: (i32, i32, i32)| -> u64 {
        nodes.iter().find(|p| p.0 == c).map(|p| p.1 as u64).unwrap()
    };
    let mut best: Option<u64> = None;
    visited.push(at);
    for n in node_neighbours_cubic(at, rings) {
        if visited.contains(&n) || !nodes.iter().any(|p| p.0 == n) {
            continue;
        }
        if let Some(rest) = brute_force_minimum(n, end, rings, nodes, visited) {
            let total = cost(at) + cost(n) + rest;
            best = Some(match best {
                Some(b) if b <= total => b,
                _ => total,
            });
        }
    }
    visited.pop();
    best
}

#[test]
/// On a small hand-built grid the returned path's total cost equals the
/// minimum found by exhaustive enumeration of simple paths
fn path_cost_is_minimal() {
    let nodes: Vec<((i32, i32, i32), u32)> = vec![
        ((0, 0, 0), 2),
        ((0, -1, 1), 9),
        ((1, -1, 0), 1),
        ((1, 0, -1), 1),
        ((0, 1, -1), 8),
        ((-1, 1, 0), 3),
        ((-1, 0, 1), 5),
    ];
    let start = (-1, 0, 1);
    let end = (1, 0, -1);
    let best = astar_cubic::astar_path(start, nodes.clone(), end, 1).unwrap();
    let returned = doubled_path_cost(&best, &nodes);
    let mut visited = Vec::new();
    let minimum = brute_force_minimum(start, end, 1, &nodes, &mut visited).unwrap();
    assert_eq!(minimum, returned);
}

#[test]
/// On the larger scenario grid the returned path is also cost-minimal
fn scenario_path_cost_is_minimal() {
    let nodes: Vec<((i32, i32, i32), u32)> = vec![
        ((0, 0, 0), 1),
        ((0, -1, 1), 1),
        ((1, -1, 0), 15),
        ((1, 0, -1), 14),
        ((0, 1, -1), 2),
        ((-1, 1, 0), 6),
        ((-1, 0, 1), 7),
        ((0, -2, 2), 1),
        ((1, -2, 1), 14),
        ((2, -2, 0), 1),
        ((2, -1, -1), 1),
        ((2, 0, -2), 1),
        ((1, 1, -2), 1),
        ((0, 2, -2), 1),
        ((-1, 2, -1), 3),
        ((-2, 2, 0), 1),
        ((-2, 1, 1), 8),
        ((-2, 0, 2), 1),
        ((-1, -1, 2), 2),
    ];
    let start = (0, 0, 0);
    let end = (2, -2, 0);
    let best = astar_cubic::astar_path(start, nodes.clone(), end, 2).unwrap();
    let returned = doubled_path_cost(&best, &nodes);
    let mut visited = Vec::new();
    let minimum = brute_force_minimum(start, end, 2, &nodes, &mut visited).unwrap();
    assert_eq!(minimum, returned);
}

#[test]
/// Zero-cost cells are handled: the returned path is still cost-minimal
fn zero_cost_cells_path_is_minimal() {
    let nodes: Vec<((i32, i32, i32), u32)> = vec![
        ((0, 0, 0), 0),
        ((0, -1, 1), 4),
        ((1, -1, 0), 9),
        ((1, 0, -1), 0),
        ((0, 1, -1), 0),
        ((-1, 1, 0), 7),
        ((-1, 0, 1), 0),
        ((2, -2, 0), 0),
        ((2, -1, -1), 1),
        ((2, 0, -2), 0),
    ];
    let start = (-1, 0, 1);
    let end = (2, 0, -2);
    let best = astar_cubic::astar_path(start, nodes.clone(), end, 2).unwrap();
    let returned = doubled_path_cost(&best, &nodes);
    let mut visited = Vec::new();
    let minimum = brute_force_minimum(start, end, 2, &nodes, &mut visited).unwrap();
    assert_eq!(minimum, returned);
}

use hex_pathfinding::HexOrientation;
use hex_pathfinding::PathError;
use hex_pathfinding::astar_axial;
use hex_pathfinding::astar_cubic;
use hex_pathfinding::astar_offset;
use hex_pathfinding::astar_spiral_hex;
use hex_pathfinding::helpers::axial_to_cubic;
use hex_pathfinding::helpers::node_distance;
use hex_pathfinding::helpers::offset_to_cubic;

#[test]
/// Calcualtes a nodes weight, i.e number of hops to it
fn astar_axial_node_weight_down() {
    let source: (i32, i32) = (1, -1);
    let end_node: (i32, i32) = (1, 2);
    let weight = node_distance(axial_to_cubic(source), axial_to_cubic(end_node));
    let actual_weight = 3;
    assert_eq!(actual_weight, weight);
}

#[test]
/// Calculates a nodes weight where the end node is located towards the origin - helps test correct signs
fn astar_axial_node_weight_towards_origin() {
    let source: (i32, i32) = (-2, 3);
    let end_node: (i32, i32) = (0, 0);
    let weight = node_distance(axial_to_cubic(source), axial_to_cubic(end_node));
    let actual_weight = 3;
    assert_eq!(actual_weight, weight);
}

#[test]
/// Calcualtes the best path from S to E across an axial grid
fn astar_axial_astar_tick() {
    let start_node: (i32, i32) = (0, 0);
    let nodes: Vec<((i32, i32), u32)> = vec![
        ((0, 0), 1),
        ((0, -1), 1),
        ((1, -1), 15),
        ((1, 0), 14),
        ((0, 1), 2),
        ((-1, 1), 6),
        ((-1, 0), 7),
        ((0, -2), 1),
        ((1, -2), 14),
        ((2, -2), 1),
        ((2, -1), 1),
        ((2, 0), 1),
        ((1, 1), 1),
        ((0, 2), 1),
        ((-1, 2), 3),
        ((-2, 2), 1),
        ((-2, 1), 8),
        ((-2, 0), 1),
        ((-1, -1), 2),
    ];
    let end_node: (i32, i32) = (2, -2);
    let rings = 2;
    let best = astar_axial::astar_path(start_node, nodes, end_node, rings).unwrap();
    let actual = vec![(0, 0), (0, 1), (1, 1), (2, 0), (2, -1), (2, -2)];
    assert_eq!(actual, best);
}

#[test]
/// Calcualtes a nodes weight, i.e number of hops to it
fn astar_cubic_node_weight_down() {
    let source: (i32, i32, i32) = (0, 0, 0);
    let end_node: (i32, i32, i32) = (2, -3, 1);
    let weight = node_distance(source, end_node);
    let actual_weight = 3;
    assert_eq!(actual_weight, weight);
}

#[test]
/// Calculates a nodes weight where the end node is located towards the origin - helps test correct signs
fn astar_cubic_node_weight_towards_origin() {
    let source: (i32, i32, i32) = (-2, -1, 3);
    let end_node: (i32, i32, i32) = (1, 0, -1);
    let weight = node_distance(source, end_node);
    let actual_weight = 4;
    assert_eq!(actual_weight, weight);
}

#[test]
/// Calcualtes the best path from S to E across a cubic grid
fn astar_cubic_astar_tick() {
    let start_node: (i32, i32, i32) = (0, 0, 0);
    let nodes: Vec<((i32, i32, i32), u32)> = vec![
        ((0, 0, 0), 1),
        ((0, -1, 1), 1),
        ((1, -1, 0), 15),
        ((1, 0, -1), 14),
        ((0, 1, -1), 2),
        ((-1, 1, 0), 6),
        ((-1, 0, 1), 7),
        ((0, -2, 2), 1),
        ((1, -2, 1), 14),
        ((2, -2, 0), 1),
        ((2, -1, -1), 1),
        ((2, 0, -2), 1),
        ((1, 1, -2), 1),
        ((0, 2, -2), 1),
        ((-1, 2, -1), 3),
        ((-2, 2, 0), 1),
        ((-2, 1, 1), 8),
        ((-2, 0, 2), 1),
        ((-1, -1, 2), 2),
    ];
    let end_node: (i32, i32, i32) = (2, -2, 0);
    let rings = 2;
    let best = astar_cubic::astar_path(start_node, nodes, end_node, rings).unwrap();
    let actual = vec![
        (0, 0, 0),
        (0, 1, -1),
        (1, 1, -2),
        (2, 0, -2),
        (2, -1, -1),
        (2, -2, 0),
    ];
    assert_eq!(actual, best);
}

#[test]
/// Calcualtes a nodes weight where the end node is located in the +ve x-y direction
fn node_weight_positive() {
    let source: (i32, i32) = (2, 2);
    let end_node: (i32, i32) = (4, 4);
    let orientation = HexOrientation::FlatTopOddUp;
    let weight = node_distance(
        offset_to_cubic(source, &orientation),
        offset_to_cubic(end_node, &orientation),
    );
    let actual_weight = 3;
    assert_eq!(actual_weight, weight);
}

#[test]
/// Calculates a nodes weight where the end node is located in the -ve x-y direction
fn node_weight_negative() {
    let source: (i32, i32) = (4, 4);
    let end_node: (i32, i32) = (2, 2);
    let orientation = HexOrientation::FlatTopOddUp;
    let weight = node_distance(
        offset_to_cubic(source, &orientation),
        offset_to_cubic(end_node, &orientation),
    );
    let actual_weight = 3;
    assert_eq!(actual_weight, weight);
}

#[test]
/// Calcualtes a node weight where the end node is located in the +ve x direction and -ve y direction
fn node_weight_positive_and_negative() {
    let source: (i32, i32) = (2, 4);
    let end_node: (i32, i32) = (4, 2);
    let orientation = HexOrientation::FlatTopOddUp;
    let weight = node_distance(
        offset_to_cubic(source, &orientation),
        offset_to_cubic(end_node, &orientation),
    );
    let actual_weight = 3;
    assert_eq!(actual_weight, weight);
}

fn offset_grid_one() -> Vec<((i32, i32), u32)> {
    vec![
        ((0, 0), 1),
        ((0, 1), 1),
        ((0, 2), 1),
        ((0, 3), 3),
        ((1, 0), 2),
        ((1, 1), 9),
        ((1, 2), 4),
        ((1, 3), 2),
        ((2, 0), 2),
        ((2, 1), 6),
        ((2, 2), 8),
        ((2, 3), 9),
        ((3, 0), 3),
        ((3, 1), 4),
        ((3, 2), 5),
        ((3, 3), 2),
    ]
}

#[test]
/// Calcualtes the best path from S to E moving up and right
fn astar_up_right() {
    let start_node: (i32, i32) = (0, 0);
    let nodes = offset_grid_one();
    let end_node: (i32, i32) = (3, 3);
    let best = astar_offset::astar_path(
        start_node,
        nodes,
        end_node,
        -1,
        4,
        -1,
        4,
        HexOrientation::FlatTopOddUp,
    )
    .unwrap();
    let actual = vec![(0, 0), (0, 1), (0, 2), (1, 2), (2, 3), (3, 3)];
    assert_eq!(actual, best);
}

#[test]
/// Calcualtes the best path from S to E moving right then up
fn astar_right_up() {
    let start_node: (i32, i32) = (0, 0);
    let mut nodes = offset_grid_one();
    nodes[1] = ((0, 1), 6);
    let end_node: (i32, i32) = (3, 3);
    let best = astar_offset::astar_path(
        start_node,
        nodes,
        end_node,
        -1,
        4,
        -1,
        4,
        HexOrientation::FlatTopOddUp,
    )
    .unwrap();
    let actual = vec![(0, 0), (1, 0), (2, 0), (3, 0), (3, 1), (3, 2), (3, 3)];
    assert_eq!(actual, best);
}

#[test]
/// Calcualtes the best path from S (3, 3) to E (0, 0)
fn astar_down_left() {
    let start_node: (i32, i32) = (3, 3);
    let nodes = offset_grid_one();
    let end_node: (i32, i32) = (0, 0);
    let best = astar_offset::astar_path(
        start_node,
        nodes,
        end_node,
        -1,
        4,
        -1,
        4,
        HexOrientation::FlatTopOddUp,
    )
    .unwrap();
    let actual = vec![(3, 3), (2, 3), (1, 2), (0, 2), (0, 1), (0, 0)];
    assert_eq!(actual, best);
}

#[test]
/// Calcualtes the best path from S to E moving left then down
fn astar_left_down() {
    let start_node: (i32, i32) = (3, 3);
    let nodes: Vec<((i32, i32), u32)> = vec![
        ((0, 0), 1),
        ((0, 1), 1),
        ((0, 2), 1),
        ((0, 3), 3),
        ((1, 0), 2),
        ((1, 1), 9),
        ((1, 2), 2),
        ((1, 3), 2),
        ((2, 0), 6),
        ((2, 1), 6),
        ((2, 2), 8),
        ((2, 3), 4),
        ((3, 0), 3),
        ((3, 1), 9),
        ((3, 2), 5),
        ((3, 3), 2),
    ];
    let end_node: (i32, i32) = (0, 0);
    let best = astar_offset::astar_path(
        start_node,
        nodes,
        end_node,
        -1,
        4,
        -1,
        4,
        HexOrientation::FlatTopOddUp,
    )
    .unwrap();
    let actual = vec![(3, 3), (2, 3), (1, 2), (0, 2), (0, 1), (0, 0)];
    assert_eq!(actual, best);
}

#[test]
/// Calcualtes the best path from S to E in a flat topped odd column shifted down grid
fn astar_odd_column_down() {
    let start_node: (i32, i32) = (0, 0);
    let nodes: Vec<((i32, i32), u32)> = vec![
        ((0, 0), 1),
        ((0, 1), 1),
        ((0, 2), 1),
        ((0, 3), 3),
        ((1, 0), 4),
        ((1, 1), 2),
        ((1, 2), 9),
        ((1, 3), 2),
        ((2, 0), 6),
        ((2, 1), 6),
        ((2, 2), 8),
        ((2, 3), 4),
        ((3, 0), 2),
        ((3, 1), 3),
        ((3, 2), 9),
        ((3, 3), 5),
    ];
    let end_node: (i32, i32) = (2, 3);
    let best = astar_offset::astar_path(
        start_node,
        nodes,
        end_node,
        -1,
        4,
        -1,
        4,
        HexOrientation::FlatTopOddDown,
    )
    .unwrap();
    let actual = vec![(0, 0), (0, 1), (0, 2), (1, 3), (2, 3)];
    assert_eq!(actual, best);
}

#[test]
/// Calcualtes the best path from S to E across a spiral grid
fn astar_spiral_hex_astar_tick() {
    let start_node: i32 = 0;
    let nodes: Vec<(i32, u32)> = vec![
        (0, 1),
        (1, 1),
        (2, 15),
        (3, 14),
        (4, 2),
        (5, 6),
        (6, 7),
        (7, 1),
        (8, 14),
        (9, 1),
        (10, 1),
        (11, 1),
        (12, 1),
        (13, 1),
        (14, 3),
        (15, 1),
        (16, 8),
        (17, 1),
        (18, 2),
    ];
    let end_node: i32 = 9;
    let rings = 2;
    let best = astar_spiral_hex::astar_path(start_node, nodes, end_node, rings).unwrap();
    let actual = vec![0, 4, 12, 11, 10, 9];
    assert_eq!(actual, best);
}

#[test]
/// A start node absent from the cost map is a MissingNode error, with no
/// partial result
fn missing_start_node_is_an_error() {
    let nodes: Vec<((i32, i32, i32), u32)> = vec![((0, 0, 0), 1), ((0, -1, 1), 1)];
    let r = astar_cubic::astar_path((1, -1, 0), nodes, (0, 0, 0), 1);
    assert!(matches!(r, Err(PathError::MissingNode)));
}

#[test]
/// A goal node absent from the cost map is a MissingNode error
fn missing_end_node_is_an_error() {
    let nodes: Vec<((i32, i32), u32)> = vec![((0, 0), 1), ((0, 1), 1)];
    let r = astar_axial::astar_path((0, 0), nodes, (5, 5), 20);
    assert!(matches!(r, Err(PathError::MissingNode)));
}

#[test]
/// A start node outside the declared search space is an OutOfBounds error
fn start_outside_bounds_is_an_error() {
    let nodes: Vec<((i32, i32, i32), u32)> = vec![((0, 0, 0), 1), ((2, -2, 0), 1)];
    let r = astar_cubic::astar_path((2, -2, 0), nodes, (0, 0, 0), 1);
    assert!(matches!(r, Err(PathError::OutOfBounds)));
}

#[test]
/// A goal outside an offset window is an OutOfBounds error
fn goal_outside_window_is_an_error() {
    let nodes: Vec<((i32, i32), u32)> = vec![((0, 0), 1), ((3, 3), 1)];
    let r = astar_offset::astar_path(
        (0, 0),
        nodes,
        (3, 3),
        -1,
        3,
        -1,
        3,
        HexOrientation::FlatTopOddUp,
    );
    assert!(matches!(r, Err(PathError::OutOfBounds)));
}

#[test]
/// A goal with no connection to the start surfaces as Unreachable instead
/// of looping forever
fn disconnected_goal_is_unreachable() {
    let nodes: Vec<((i32, i32, i32), u32)> = vec![((0, 0, 0), 1), ((2, -2, 0), 1)];
    let r = astar_cubic::astar_path((0, 0, 0), nodes, (2, -2, 0), 2);
    assert!(matches!(r, Err(PathError::Unreachable)));
}

#[test]
/// A search whose start and goal coincide returns the one-cell path
fn start_equals_goal() {
    let nodes: Vec<((i32, i32, i32), u32)> = vec![((0, 0, 0), 7)];
    let r = astar_cubic::astar_path((0, 0, 0), nodes, (0, 0, 0), 1);
    assert_eq!(r.unwrap(), vec![(0, 0, 0)]);
}

#[test]
/// A spiral index on a ring beyond the declared grid is an OutOfBounds
/// error
fn spiral_outside_rings_is_an_error() {
    let nodes: Vec<(i32, u32)> = vec![(0, 1), (7, 1)];
    let r = astar_spiral_hex::astar_path(0, nodes, 7, 1);
    assert!(matches!(r, Err(PathError::OutOfBounds)));
}

#[test]
/// A pointy-top search returns a connected path from start to goal whose
/// every hop is a legal neighbour move
fn pointy_top_path_is_connected() {
    let orientation = HexOrientation::PointyTopOddRight;
    let mut nodes: Vec<((i32, i32), u32)> = Vec::new();
    for col in 0..4 {
        for row in 0..4 {
            nodes.push(((col, row), 2));
        }
    }
    let best = astar_offset::astar_path((0, 0), nodes, (3, 3), -1, 4, -1, 4, orientation).unwrap();
    assert_eq!((0, 0), best[0]);
    assert_eq!((3, 3), *best.last().unwrap());
    for w in best.windows(2) {
        let neighbours =
            hex_pathfinding::helpers::node_neighbours_offset(w[0], &orientation, -1, 4, -1, 4);
        assert!(neighbours.contains(&w[1]));
    }
}

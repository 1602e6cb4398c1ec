use hex_pathfinding::HexOrientation;
use hex_pathfinding::helpers::axial_to_cubic;
use hex_pathfinding::helpers::axial_to_offset;
use hex_pathfinding::helpers::cubic_to_axial;
use hex_pathfinding::helpers::cubic_to_offset;
use hex_pathfinding::helpers::cubic_to_spiral_hex;
use hex_pathfinding::helpers::node_neighbours_axial;
use hex_pathfinding::helpers::node_neighbours_cubic;
use hex_pathfinding::helpers::node_neighbours_offset;
use hex_pathfinding::helpers::node_ring_cubic;
use hex_pathfinding::helpers::node_ring_spiral_hex;
use hex_pathfinding::helpers::offset_to_cubic;
use hex_pathfinding::helpers::spiral_hex_to_cubic;

#[test]
/// Expands an even columned node in a flat topped odd column shifted up alignment and tests that the correct neighbours are returned
fn flat_top_odd_up_even_node_neighbours() {
    let source: (i32, i32) = (2, 2);
    let orientation = HexOrientation::FlatTopOddUp;
    let min_column = -1;
    let max_column = 4;
    let min_row = -1;
    let max_row = 4;
    let neighbours =
        node_neighbours_offset(source, &orientation, min_column, max_column, min_row, max_row);
    let actual = vec![(2, 3), (3, 2), (3, 1), (2, 1), (1, 1), (1, 2)];
    assert_eq!(actual, neighbours);
}

#[test]
/// Expands an odd columned node in a flat topped odd column shifted up alignment and tests that the correct neighbours are returned
fn flat_top_odd_up_odd_node_neighbours() {
    let source: (i32, i32) = (3, 2);
    let orientation = HexOrientation::FlatTopOddUp;
    let min_column = -1;
    let max_column = 5;
    let min_row = -1;
    let max_row = 5;
    let neighbours =
        node_neighbours_offset(source, &orientation, min_column, max_column, min_row, max_row);
    let actual = vec![(3, 3), (4, 3), (4, 2), (3, 1), (2, 2), (2, 3)];
    assert_eq!(actual, neighbours);
}

#[test]
/// Expands an even columned node in a flat topped odd column shifted down alignment and tests that the correct neighbours are returned
fn flat_top_odd_down_even_node_neighbours() {
    let source: (i32, i32) = (2, 2);
    let orientation = HexOrientation::FlatTopOddDown;
    let min_column = -1;
    let max_column = 4;
    let min_row = -1;
    let max_row = 4;
    let neighbours =
        node_neighbours_offset(source, &orientation, min_column, max_column, min_row, max_row);
    let actual = vec![(2, 3), (3, 3), (3, 2), (2, 1), (1, 2), (1, 3)];
    assert_eq!(actual, neighbours);
}

#[test]
/// Expands an odd columned node in a flat topped odd column shifted down alignment and tests that the correct neighbours are returned
fn flat_top_odd_down_odd_node_neighbours() {
    let source: (i32, i32) = (3, 2);
    let orientation = HexOrientation::FlatTopOddDown;
    let min_column = -1;
    let max_column = 5;
    let min_row = -1;
    let max_row = 5;
    let neighbours =
        node_neighbours_offset(source, &orientation, min_column, max_column, min_row, max_row);
    let actual = vec![(3, 3), (4, 2), (4, 1), (3, 1), (2, 1), (2, 2)];
    assert_eq!(actual, neighbours);
}

#[test]
/// Expands a node next to a negative boundary to ensure only valid discovered nodes are returned
fn offset_neighbors_along_negative_boundary() {
    let source: (i32, i32) = (0, 0);
    let orientation = HexOrientation::FlatTopOddUp;
    let min_column = -1;
    let max_column = 5;
    let min_row = -1;
    let max_row = 5;
    let neighbours =
        node_neighbours_offset(source, &orientation, min_column, max_column, min_row, max_row);
    let expected_neighbour_count = 2;
    assert_eq!(expected_neighbour_count, neighbours.len());
}

#[test]
/// Expands a node next to a positive boundary to ensure only valid discovered nodes are returned
fn offset_neighbors_along_positive_boundary() {
    let source: (i32, i32) = (2, 1);
    let orientation = HexOrientation::FlatTopOddUp;
    let min_column = -1;
    let max_column = 3;
    let min_row = -1;
    let max_row = 2;
    let neighbours =
        node_neighbours_offset(source, &orientation, min_column, max_column, min_row, max_row);
    let expected_neighbour_count = 3;
    assert_eq!(expected_neighbour_count, neighbours.len());
}

#[test]
/// Expands an even node in a pointy hexagon layout with odd rows shifted right
fn pointy_top_odd_right_even_node_neighbours() {
    let source: (i32, i32) = (2, 2);
    let orientation = HexOrientation::PointyTopOddRight;
    let min_column = -1;
    let max_column = 4;
    let min_row = -1;
    let max_row = 4;
    let neighbours =
        node_neighbours_offset(source, &orientation, min_column, max_column, min_row, max_row);
    let actual = vec![(2, 3), (3, 2), (2, 1), (1, 1), (1, 2), (1, 3)];
    assert_eq!(actual, neighbours);
}

#[test]
/// Expands an odd node in a pointy hexagon layout with odd rows shifted right
fn pointy_top_odd_right_odd_node_neighbours() {
    let source: (i32, i32) = (1, 1);
    let orientation = HexOrientation::PointyTopOddRight;
    let min_column = -1;
    let max_column = 4;
    let min_row = -1;
    let max_row = 4;
    let neighbours =
        node_neighbours_offset(source, &orientation, min_column, max_column, min_row, max_row);
    let actual = vec![(2, 2), (2, 1), (2, 0), (1, 0), (0, 1), (1, 2)];
    assert_eq!(actual, neighbours);
}

#[test]
/// Expands an even node in a pointy hexagon layout with odd rows shifted left
fn pointy_top_odd_left_even_node_neighbours() {
    let source: (i32, i32) = (2, 2);
    let orientation = HexOrientation::PointyTopOddLeft;
    let min_column = -1;
    let max_column = 4;
    let min_row = -1;
    let max_row = 4;
    let neighbours =
        node_neighbours_offset(source, &orientation, min_column, max_column, min_row, max_row);
    let actual = vec![(3, 3), (3, 2), (3, 1), (2, 1), (1, 2), (2, 3)];
    assert_eq!(actual, neighbours);
}

#[test]
/// Expands an odd node in a pointy hexagon layout with odd rows shifted left
fn pointy_top_odd_left_odd_node_neighbours() {
    let source: (i32, i32) = (1, 1);
    let orientation = HexOrientation::PointyTopOddLeft;
    let min_column = -1;
    let max_column = 4;
    let min_row = -1;
    let max_row = 4;
    let neighbours =
        node_neighbours_offset(source, &orientation, min_column, max_column, min_row, max_row);
    let actual = vec![(1, 2), (2, 1), (1, 0), (0, 0), (0, 1), (0, 2)];
    assert_eq!(actual, neighbours);
}

#[test]
/// convert axial coordinates to cubic
fn axial_to_cubic_cords() {
    let axial: (i32, i32) = (2, 1);
    let cubic = axial_to_cubic(axial);
    assert_eq!((2, -3, 1), cubic);
}

#[test]
/// convert cubic coordinates to axial
fn cubic_to_axial_cords() {
    let cubic: (i32, i32, i32) = (1, -2, 1);
    let axial = cubic_to_axial(cubic);
    assert_eq!((1, 1), axial);
}

#[test]
/// finds a nodes neighbours in axial space
fn axial_neighbours() {
    let source: (i32, i32) = (2, -1);
    let neighbours = node_neighbours_axial(source, 3);
    let actual = vec![(2, 0), (3, -1), (3, -2), (2, -2), (1, -1), (1, 0)];
    assert_eq!(actual, neighbours);
}

#[test]
/// finds a nodes neighbours in axial space against a boundary
fn axial_neighbours_with_boundary() {
    let source: (i32, i32) = (-1, -1);
    let neighbours = node_neighbours_axial(source, 2);
    let actual = vec![(-1, 0), (0, -1), (0, -2), (-2, 0)];
    assert_eq!(actual, neighbours);
}

#[test]
/// finds a nodes neighbours in cubic space
fn cubic_neighbours() {
    let source: (i32, i32, i32) = (2, -1, -1);
    let neighbours = node_neighbours_cubic(source, 3);
    let actual = vec![
        (2, -2, 0),
        (3, -2, -1),
        (3, -1, -2),
        (2, 0, -2),
        (1, 0, -1),
        (1, -1, 0),
    ];
    assert_eq!(actual, neighbours);
}

#[test]
/// finds a nodes neighbours in cubic space where it is up against a boundary
fn cubic_neighbours_with_boundary() {
    let source: (i32, i32, i32) = (2, -1, -1);
    let neighbours = node_neighbours_cubic(source, 2);
    let actual = vec![(2, -2, 0), (2, 0, -2), (1, 0, -1), (1, -1, 0)];
    assert_eq!(actual, neighbours);
}

#[test]
/// convert axial coords to offset in a FlatTopOddUp grid orienation
fn convert_axial_to_offset_odd_up() {
    let source: (i32, i32) = (-1, -1);
    let result = axial_to_offset(source, &HexOrientation::FlatTopOddUp);
    let actual: (i32, i32) = (-1, -2);
    assert_eq!(actual, result);
}

#[test]
/// convert axial coords to offset in a FlatTopOddDown grid orienation
fn convert_axial_to_offset_odd_down() {
    let source: (i32, i32) = (-1, -1);
    let result = axial_to_offset(source, &HexOrientation::FlatTopOddDown);
    let actual: (i32, i32) = (-1, -1);
    assert_eq!(actual, result);
}

#[test]
/// convert axial coords to offset in a PointyTopOddRight grid orienation
fn convert_axial_to_offset_odd_right() {
    let source: (i32, i32) = (-1, -1);
    let result = axial_to_offset(source, &HexOrientation::PointyTopOddRight);
    let actual: (i32, i32) = (-2, -1);
    assert_eq!(actual, result);
}

#[test]
/// convert axial coords to offset in a PointyTopOddLeft grid orienation
fn convert_axial_to_offset_odd_left() {
    let source: (i32, i32) = (-1, -1);
    let result = axial_to_offset(source, &HexOrientation::PointyTopOddLeft);
    let actual: (i32, i32) = (-1, -1);
    assert_eq!(actual, result);
}

#[test]
/// convert cubic coords to offset in a FlatTopOddUp grid orientation
fn convert_cubic_to_offset_odd_up() {
    let source: (i32, i32, i32) = (-2, 3, -1);
    let result = cubic_to_offset(source, &HexOrientation::FlatTopOddUp);
    let actual: (i32, i32) = (-2, -2);
    assert_eq!(actual, result);
}

#[test]
/// convert cubic coords to offset in a FlatTopOddUp grid orientation
fn convert_cubic_to_offset_odd_up_two() {
    let source: (i32, i32, i32) = (6, -14, 8);
    let result = cubic_to_offset(source, &HexOrientation::FlatTopOddUp);
    let actual: (i32, i32) = (6, 11);
    assert_eq!(actual, result);
}

#[test]
/// convert cubic coords to offset in a FlatTopOddDown grid orientation
fn convert_cubic_to_offset_odd_down() {
    let source: (i32, i32, i32) = (-1, 1, 0);
    let result = cubic_to_offset(source, &HexOrientation::FlatTopOddDown);
    let actual: (i32, i32) = (-1, 0);
    assert_eq!(actual, result);
}

#[test]
/// convert cubic coords to offset in a PointyTopOddRight grid orientation
fn convert_cubic_to_offset_odd_right() {
    let source: (i32, i32, i32) = (1, -2, 1);
    let result = cubic_to_offset(source, &HexOrientation::PointyTopOddRight);
    let actual: (i32, i32) = (1, 1);
    assert_eq!(actual, result);
}

#[test]
/// convert cubic coords to offset in a PointyTopOddLeft grid orientation
fn convert_cubic_to_offset_odd_left() {
    let source: (i32, i32, i32) = (1, -2, 1);
    let result = cubic_to_offset(source, &HexOrientation::PointyTopOddLeft);
    let actual: (i32, i32) = (2, 1);
    assert_eq!(actual, result);
}

#[test]
/// test for nodes on ring 1
fn ring_1() {
    let source = (0, 0, 0);
    let radius = 1;
    let result = node_ring_cubic(source, radius);
    let actual = vec![
        (-1, 0, 1),
        (0, -1, 1),
        (1, -1, 0),
        (1, 0, -1),
        (0, 1, -1),
        (-1, 1, 0),
    ];
    assert_eq!(actual, result);
}

#[test]
/// test for nodes on ring 2
fn ring_2() {
    let source = (0, 0, 0);
    let radius = 2;
    let result = node_ring_cubic(source, radius);
    let actual = vec![
        (-2, 1, 1),
        (-2, 0, 2),
        (-1, -1, 2),
        (0, -2, 2),
        (1, -2, 1),
        (2, -2, 0),
        (2, -1, -1),
        (2, 0, -2),
        (1, 1, -2),
        (0, 2, -2),
        (-1, 2, -1),
        (-2, 2, 0),
    ];
    assert_eq!(actual, result);
}

#[test]
/// test for nodes on ring 3
fn ring_3() {
    let source = (0, 0, 0);
    let radius = 3;
    let result = node_ring_cubic(source, radius);
    let actual = vec![
        (-3, 2, 1),
        (-3, 1, 2),
        (-3, 0, 3),
        (-2, -1, 3),
        (-1, -2, 3),
        (0, -3, 3),
        (1, -3, 2),
        (2, -3, 1),
        (3, -3, 0),
        (3, -2, -1),
        (3, -1, -2),
        (3, 0, -3),
        (2, 1, -3),
        (1, 2, -3),
        (0, 3, -3),
        (-1, 3, -2),
        (-2, 3, -1),
        (-3, 3, 0),
    ];
    assert_eq!(actual, result);
}

#[test]
/// test for nodes on ring 3
fn ring_3_two() {
    let source = (9, -14, 5);
    let radius = 3;
    let result = node_ring_cubic(source, radius);
    let actual = vec![
        (6, -12, 6),
        (6, -13, 7),
        (6, -14, 8),
        (7, -15, 8),
        (8, -16, 8),
        (9, -17, 8),
        (10, -17, 7),
        (11, -17, 6),
        (12, -17, 5),
        (12, -16, 4),
        (12, -15, 3),
        (12, -14, 2),
        (11, -13, 2),
        (10, -12, 2),
        (9, -11, 2),
        (8, -11, 3),
        (7, -11, 4),
        (6, -11, 5),
    ];
    assert_eq!(actual, result);
}

#[test]
/// Validate offset to cubic conversion in flat topped odd up orientation
fn convert_offset_to_cubic_flat_top_odd_up() {
    let source: (i32, i32) = (9, 9);
    let result = offset_to_cubic(source, &HexOrientation::FlatTopOddUp);
    let actual: (i32, i32, i32) = (9, -14, 5);
    assert_eq!(actual, result);
}

#[test]
/// Validate offset to cubic conversion in flat topped odd up orientation
fn convert_offset_to_cubic_flat_top_odd_up_two() {
    let source: (i32, i32) = (6, 11);
    let result = offset_to_cubic(source, &HexOrientation::FlatTopOddUp);
    let actual: (i32, i32, i32) = (6, -14, 8);
    assert_eq!(actual, result);
}

#[test]
/// Validate offset to cubic conversion in flat topped odd down orientation
fn convert_offset_to_cubic_flat_top_odd_down() {
    let source: (i32, i32) = (9, 9);
    let result = offset_to_cubic(source, &HexOrientation::FlatTopOddDown);
    let actual: (i32, i32, i32) = (9, -13, 4);
    assert_eq!(actual, result);
}

#[test]
/// Validate offset to cubic conversion in pointy topped odd right orientation
fn convert_offset_to_cubic_pointy_top_odd_right() {
    let source: (i32, i32) = (1, 1);
    let result = offset_to_cubic(source, &HexOrientation::PointyTopOddRight);
    let actual: (i32, i32, i32) = (1, -2, 1);
    assert_eq!(actual, result);
}

#[test]
/// Validate offset to cubic conversion in pointy topped odd left orientation
fn convert_offset_to_cubic_pointy_top_odd_left() {
    let source: (i32, i32) = (1, 1);
    let result = offset_to_cubic(source, &HexOrientation::PointyTopOddLeft);
    let actual: (i32, i32, i32) = (0, -1, 1);
    assert_eq!(actual, result);
}

/// Based on Spiral Hex coordinates find the nodes sat along a ring
#[test]
fn find_nodes_on_spiral_ring() {
    let ring: i32 = 2;
    let nodes_on_ring = node_ring_spiral_hex(ring);
    let actual = vec![7, 8, 9, 10, 11, 12, 13, 14, 15, 16, 17, 18];
    assert_eq!(nodes_on_ring, actual);
}

/// Test the special conversion of the Spiral Hex origin to cubic space
#[test]
fn convert_spiral_hex_to_cubic_zero() {
    let start: i32 = 0;
    let cubic = spiral_hex_to_cubic(start);
    let actual = (0, 0, 0);
    assert_eq!(cubic, actual)
}

/// Convert a node on the first hexagon ring from Spiral Hex to cubic space
#[test]
fn convert_spiral_hex_to_cubic_ring_one() {
    let start: i32 = 6;
    let cubic = spiral_hex_to_cubic(start);
    let actual = (-1, 0, 1);
    assert_eq!(cubic, actual)
}

/// Convert a node on the second hexagon ring for Spiral Hex to cubic
#[test]
fn convert_spiral_hex_to_cubic_ring_two() {
    let start: i32 = 9;
    let cubic = spiral_hex_to_cubic(start);
    let actual = (2, -2, 0);
    assert_eq!(cubic, actual)
}

/// Test the origin conversion of cubic to spiral hex
#[test]
fn convert_cubic_to_spiral_hex_zero() {
    let start: (i32, i32, i32) = (0, 0, 0);
    let spiral = cubic_to_spiral_hex(start);
    let actual = 0;
    assert_eq!(spiral, actual)
}

/// Convert a node on ring 1 frm cubic to spiral hex
#[test]
fn convert_cubic_to_spiral_hex_ring_one() {
    let start: (i32, i32, i32) = (-1, 1, 0);
    let spiral = cubic_to_spiral_hex(start);
    let actual = 5;
    assert_eq!(spiral, actual)
}

/// Convert a node on ring 2 frm cubic to spiral hex
#[test]
fn convert_cubic_to_spiral_hex_ring_two() {
    let start: (i32, i32, i32) = (2, -1, -1);
    let spiral = cubic_to_spiral_hex(start);
    let actual = 10;
    assert_eq!(spiral, actual)
}

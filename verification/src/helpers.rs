//! Conversions between the hexagonal coordinate systems, neighbour
//! discovery, ring enumeration and the hex distance metric.
//!
//! Cubic coordinates carry the invariant `x + y + z == 0` and are the form
//! in which neighbours, rings and distances are computed; the axial, offset
//! and spiral forms convert to and from cubic with closed-form arithmetic.

use vstd::prelude::*;

use crate::HexOrientation;

verus! {

/// `1` for an odd column or row, `0` for an even one. Parity is that of
/// the Euclidean remainder by two, so `-3` counts as odd.
pub open spec fn odd_bit(v: int) -> int {
    if v % 2 == 0 {
        0
    } else {
        1
    }
}

/// Mathematical form of [`axial_to_cubic`].
pub open spec fn axial_to_cubic_spec(q: int, r: int) -> (int, int, int) {
    (q, -q - r, r)
}

/// Mathematical form of [`cubic_to_axial`].
pub open spec fn cubic_to_axial_spec(x: int, y: int, z: int) -> (int, int) {
    (x, z)
}

/// Mathematical form of [`offset_to_cubic`]: the row is corrected by half
/// the column (flat-top) or the column by half the row (pointy-top), with
/// the parity bit deciding how the odd lines were shifted.
pub open spec fn offset_to_cubic_spec(col: int, row: int, o: HexOrientation) -> (int, int, int) {
    match o {
        HexOrientation::FlatTopOddUp => {
            let z = row - (col - odd_bit(col)) / 2;
            (col, -col - z, z)
        },
        HexOrientation::FlatTopOddDown => {
            let z = row - (col + odd_bit(col)) / 2;
            (col, -col - z, z)
        },
        HexOrientation::PointyTopOddRight => {
            let x = col - (row - odd_bit(row)) / 2;
            (x, -x - row, row)
        },
        HexOrientation::PointyTopOddLeft => {
            let x = col - (row + odd_bit(row)) / 2;
            (x, -x - row, row)
        },
    }
}

/// Mathematical form of [`cubic_to_offset`], the exact inverse of
/// [`offset_to_cubic_spec`] on cubic coordinates with `x + y + z == 0`.
pub open spec fn cubic_to_offset_spec(x: int, y: int, z: int, o: HexOrientation) -> (int, int) {
    match o {
        HexOrientation::FlatTopOddUp => (x, z + (x - odd_bit(x)) / 2),
        HexOrientation::FlatTopOddDown => (x, z + (x + odd_bit(x)) / 2),
        HexOrientation::PointyTopOddRight => (x + (z - odd_bit(z)) / 2, z),
        HexOrientation::PointyTopOddLeft => (x + (z + odd_bit(z)) / 2, z),
    }
}

/// Mathematical form of [`axial_to_offset`].
pub open spec fn axial_to_offset_spec(q: int, r: int, o: HexOrientation) -> (int, int) {
    let c = axial_to_cubic_spec(q, r);
    cubic_to_offset_spec(c.0, c.1, c.2, o)
}

/// `col - odd_bit(col)` and `col + odd_bit(col)` are always even, so the
/// truncating machine division by two in the conversions is exact.
proof fn lemma_parity_adjusted_even(v: int)
    ensures
        (v - odd_bit(v)) % 2 == 0,
        (v + odd_bit(v)) % 2 == 0,
{
}

/// Returns `1` when `v` is odd and `0` when it is even, as the conversion
/// formulas expect, for negative values too.
fn odd_adjust(v: i32) -> (r: i32)
    ensures
        r == odd_bit(v as int),
{
    if v % 2 != 0 {
        1
    } else {
        0
    }
}

/// Half of `v` rounded towards the even value below it: the parity
/// correction used where odd lines are shifted away from the correction.
pub(crate) fn half_down(v: i32) -> (r: i64)
    ensures
        r == (v - odd_bit(v as int)) / 2,
{
    let bit = odd_adjust(v) as i64;
    proof {
        lemma_parity_adjusted_even(v as int);
    }
    (v as i64 - bit) / 2
}

/// Half of `v` rounded towards the even value above it.
pub(crate) fn half_up(v: i32) -> (r: i64)
    ensures
        r == (v + odd_bit(v as int)) / 2,
{
    let bit = odd_adjust(v) as i64;
    proof {
        lemma_parity_adjusted_even(v as int);
    }
    (v as i64 + bit) / 2
}

/// Convert a node with Offset coordinates `(column, row)` to Cubic
/// coordinates based on an orientation. Flat-top layouts keep the column as
/// the cubic `x` axis and correct the row by half the column; pointy-top
/// layouts keep the row as the cubic `z` axis and correct the column by
/// half the row. The parity bit decides whether odd lines were shifted
/// towards or away from the origin.
pub fn offset_to_cubic(node_coords: (i32, i32), orientation: &HexOrientation) -> (r: (i32, i32, i32))
    requires
        ({
            let c = offset_to_cubic_spec(node_coords.0 as int, node_coords.1 as int, *orientation);
            i32::MIN <= c.0 <= i32::MAX && i32::MIN <= c.1 <= i32::MAX && i32::MIN <= c.2
                <= i32::MAX
        }),
    ensures
        (r.0 as int, r.1 as int, r.2 as int) == offset_to_cubic_spec(
            node_coords.0 as int,
            node_coords.1 as int,
            *orientation,
        ),
        r.0 + r.1 + r.2 == 0,
{
    let col = node_coords.0 as i64;
    let row = node_coords.1 as i64;
    match orientation {
        HexOrientation::FlatTopOddUp => {
            let z: i64 = row - half_down(node_coords.0);
            let y: i64 = -col - z;
            (node_coords.0, y as i32, z as i32)
        },
        HexOrientation::FlatTopOddDown => {
            let z: i64 = row - half_up(node_coords.0);
            let y: i64 = -col - z;
            (node_coords.0, y as i32, z as i32)
        },
        HexOrientation::PointyTopOddRight => {
            let x: i64 = col - half_down(node_coords.1);
            let y: i64 = -x - row;
            (x as i32, y as i32, node_coords.1)
        },
        HexOrientation::PointyTopOddLeft => {
            let x: i64 = col - half_up(node_coords.1);
            let y: i64 = -x - row;
            (x as i32, y as i32, node_coords.1)
        },
    }
}

/// Convert a node with Cubic coordinates `(x, y, z)` to Offset coordinates
/// based on an orientation; the exact inverse of [`offset_to_cubic`].
pub fn cubic_to_offset(node_coords: (i32, i32, i32), orientation: &HexOrientation) -> (r: (
    i32,
    i32,
))
    requires
        ({
            let c = cubic_to_offset_spec(
                node_coords.0 as int,
                node_coords.1 as int,
                node_coords.2 as int,
                *orientation,
            );
            i32::MIN <= c.0 <= i32::MAX && i32::MIN <= c.1 <= i32::MAX
        }),
    ensures
        (r.0 as int, r.1 as int) == cubic_to_offset_spec(
            node_coords.0 as int,
            node_coords.1 as int,
            node_coords.2 as int,
            *orientation,
        ),
{
    let x = node_coords.0 as i64;
    let z = node_coords.2 as i64;
    match orientation {
        HexOrientation::FlatTopOddUp => {
            let row: i64 = z + half_down(node_coords.0);
            (node_coords.0, row as i32)
        },
        HexOrientation::FlatTopOddDown => {
            let row: i64 = z + half_up(node_coords.0);
            (node_coords.0, row as i32)
        },
        HexOrientation::PointyTopOddRight => {
            let col: i64 = x + half_down(node_coords.2);
            (col as i32, node_coords.2)
        },
        HexOrientation::PointyTopOddLeft => {
            let col: i64 = x + half_up(node_coords.2);
            (col as i32, node_coords.2)
        },
    }
}

/// Convert a node with Axial coordinates `(q, r)` to Offset coordinates
/// based on an orientation, going through the cubic form.
pub fn axial_to_offset(node_coords: (i32, i32), orientation: &HexOrientation) -> (r: (i32, i32))
    requires
        ({
            let c = axial_to_offset_spec(node_coords.0 as int, node_coords.1 as int, *orientation);
            i32::MIN <= c.0 <= i32::MAX && i32::MIN <= c.1 <= i32::MAX
        }),
    ensures
        (r.0 as int, r.1 as int) == axial_to_offset_spec(
            node_coords.0 as int,
            node_coords.1 as int,
            *orientation,
        ),
{
    let q = node_coords.0 as i64;
    let r = node_coords.1 as i64;
    match orientation {
        HexOrientation::FlatTopOddUp => {
            let row: i64 = r + half_down(node_coords.0);
            (node_coords.0, row as i32)
        },
        HexOrientation::FlatTopOddDown => {
            let row: i64 = r + half_up(node_coords.0);
            (node_coords.0, row as i32)
        },
        HexOrientation::PointyTopOddRight => {
            let col: i64 = q + half_down(node_coords.1);
            (col as i32, node_coords.1)
        },
        HexOrientation::PointyTopOddLeft => {
            let col: i64 = q + half_up(node_coords.1);
            (col as i32, node_coords.1)
        },
    }
}

/// Offset then Cubic then back to Offset returns the original coordinate,
/// for every orientation: the parity correction applied on the way out is
/// exactly undone on the way back.
pub proof fn lemma_offset_cubic_round_trip(col: int, row: int, o: HexOrientation)
    ensures
        ({
            let c = offset_to_cubic_spec(col, row, o);
            cubic_to_offset_spec(c.0, c.1, c.2, o) == (col, row)
        }),
{
}

/// Cubic then Offset then back to Cubic returns the original coordinate,
/// for every orientation and every cubic coordinate with `x + y + z == 0`.
pub proof fn lemma_cubic_offset_round_trip(x: int, y: int, z: int, o: HexOrientation)
    requires
        x + y + z == 0,
    ensures
        ({
            let c = cubic_to_offset_spec(x, y, z, o);
            offset_to_cubic_spec(c.0, c.1, o) == (x, y, z)
        }),
{
}

/// Every conversion into cubic space lands on the `x + y + z == 0` plane.
pub proof fn lemma_cubic_invariant(q: int, r: int, col: int, row: int, o: HexOrientation)
    ensures
        ({
            let a = axial_to_cubic_spec(q, r);
            a.0 + a.1 + a.2 == 0
        }),
        ({
            let c = offset_to_cubic_spec(col, row, o);
            c.0 + c.1 + c.2 == 0
        }),
{
}

/// The spiral conversion lands on the `x + y + z == 0` plane too.
pub proof fn lemma_spiral_cubic_invariant(i: int)
    ensures
        ({
            let c = spiral_to_cubic_spec(i);
            c.0 + c.1 + c.2 == 0
        }),
{
    if i >= 1 {
        lemma_spiral_ring_of_props(i);
        let k = spiral_ring_of(i);
        lemma_spiral_ring_span(k);
        let q = i - spiral_ring_start(k);
        vstd::arithmetic::div_mod::lemma_mod_bound(q + 2 * k - 1, 6 * k);
        lemma_ring_elem_facts(k, (q + 2 * k - 1) % (6 * k));
    }
}

/// Convert a node with Axial coordinates `(q, r)` (`q` the column, `r` the
/// row) to Cubic coordinates `(x, y, z)` with `x + y + z == 0`.
pub fn axial_to_cubic(node_coords: (i32, i32)) -> (r: (i32, i32, i32))
    requires
        i32::MIN <= -(node_coords.0 as int) - (node_coords.1 as int) <= i32::MAX,
    ensures
        (r.0 as int, r.1 as int, r.2 as int) == axial_to_cubic_spec(
            node_coords.0 as int,
            node_coords.1 as int,
        ),
        r.0 + r.1 + r.2 == 0,
{
    let x = node_coords.0;
    let z = node_coords.1;
    let y = (-(x as i64) - (z as i64)) as i32;
    (x, y, z)
}

/// Convert a node with Cubic coordinates `(x, y, z)` to Axial coordinates
/// `(q, r)` by dropping the derived `y` axis.
pub fn cubic_to_axial(node_coords: (i32, i32, i32)) -> (r: (i32, i32))
    ensures
        (r.0 as int, r.1 as int) == cubic_to_axial_spec(
            node_coords.0 as int,
            node_coords.1 as int,
            node_coords.2 as int,
        ),
{
    let q = node_coords.0;
    let r = node_coords.2;
    (q, r)
}

/// Axial then Cubic then back to Axial returns the original coordinate:
/// the two conversions are mutual inverses on every representable pair.
pub proof fn lemma_axial_cubic_round_trip(q: int, r: int)
    ensures
        cubic_to_axial_spec(
            axial_to_cubic_spec(q, r).0,
            axial_to_cubic_spec(q, r).1,
            axial_to_cubic_spec(q, r).2,
        ) == (q, r),
{
}

/// Cubic then Axial then back to Cubic returns the original coordinate,
/// for every cubic coordinate satisfying the `x + y + z == 0` invariant.
pub proof fn lemma_cubic_axial_round_trip(x: int, y: int, z: int)
    requires
        x + y + z == 0,
    ensures
        axial_to_cubic_spec(cubic_to_axial_spec(x, y, z).0, cubic_to_axial_spec(x, y, z).1) == (
            x,
            y,
            z,
        ),
{
}

/// Magnitude of an integer.
pub open spec fn int_abs(v: int) -> int {
    if v < 0 {
        -v
    } else {
        v
    }
}

/// The cubic coordinate triple of an executable value, as mathematical
/// integers.
pub open spec fn cub(c: (i32, i32, i32)) -> (int, int, int) {
    (c.0 as int, c.1 as int, c.2 as int)
}

/// A sequence of cubic coordinates, as mathematical integers.
pub open spec fn cub_seq(s: Seq<(i32, i32, i32)>) -> Seq<(int, int, int)> {
    s.map_values(|c: (i32, i32, i32)| cub(c))
}

/// Hex-grid hop count between two cubic coordinates: half the sum of the
/// per-axis magnitudes of their difference.
pub open spec fn cubic_distance_spec(a: (int, int, int), b: (int, int, int)) -> int {
    (int_abs(a.0 - b.0) + int_abs(a.1 - b.1) + int_abs(a.2 - b.2)) / 2
}

/// The distance between two nodes by using cubic coordinates. It equals the
/// number of hops between the two cells and serves both as the search
/// heuristic and as the ring number of a cell around a centre.
pub fn node_distance(start: (i32, i32, i32), end: (i32, i32, i32)) -> (r: i32)
    requires
        cubic_distance_spec(cub(start), cub(end)) <= i32::MAX,
    ensures
        r == cubic_distance_spec(cub(start), cub(end)),
{
    let dx: i64 = start.0 as i64 - end.0 as i64;
    let dy: i64 = start.1 as i64 - end.1 as i64;
    let dz: i64 = start.2 as i64 - end.2 as i64;
    let ax: i64 = if dx < 0 {
        -dx
    } else {
        dx
    };
    let ay: i64 = if dy < 0 {
        -dy
    } else {
        dy
    };
    let az: i64 = if dz < 0 {
        -dz
    } else {
        dz
    };
    ((ax + ay + az) / 2) as i32
}

/// The distance metric is symmetric and every cell is at distance zero
/// from itself.
pub proof fn lemma_distance_symmetry(a: (int, int, int), b: (int, int, int))
    ensures
        cubic_distance_spec(a, b) == cubic_distance_spec(b, a),
        cubic_distance_spec(a, a) == 0,
{
}

/// The six cubic unit directions, starting north and moving clockwise.
/// Opposite directions sum to zero and every direction keeps `x + y + z`
/// unchanged.
pub open spec fn cubic_dir(i: int) -> (int, int, int) {
    if i == 0 {
        (0, -1, 1)
    } else if i == 1 {
        (1, -1, 0)
    } else if i == 2 {
        (1, 0, -1)
    } else if i == 3 {
        (0, 1, -1)
    } else if i == 4 {
        (-1, 1, 0)
    } else {
        (-1, 0, 1)
    }
}

/// The cell one step from `s` in direction `i`.
pub open spec fn cubic_step(s: (int, int, int), i: int) -> (int, int, int) {
    (s.0 + cubic_dir(i).0, s.1 + cubic_dir(i).1, s.2 + cubic_dir(i).2)
}

/// Two cubic cells are adjacent when one unit direction leads from the
/// first to the second.
pub open spec fn cubic_adjacent_pts(a: (int, int, int), b: (int, int, int)) -> bool {
    exists|d: int| 0 <= d < 6 && b == #[trigger] cubic_step(a, d)
}

/// Whether a cubic coordinate lies within `rings` rings of the origin:
/// no axis magnitude may exceed the ring count (inclusive).
pub open spec fn in_ring_bounds(c: (int, int, int), rings: int) -> bool {
    &&& -rings <= c.0 <= rings
    &&& -rings <= c.1 <= rings
    &&& -rings <= c.2 <= rings
}

/// The neighbour in direction `i`, kept only when it lies within the ring
/// bounds.
pub open spec fn cubic_nb_slot(s: (int, int, int), rings: int, i: int) -> Seq<(int, int, int)> {
    if in_ring_bounds(cubic_step(s, i), rings) {
        seq![cubic_step(s, i)]
    } else {
        Seq::empty()
    }
}

/// The in-bounds neighbours of `s`, north first and then clockwise.
pub open spec fn cubic_neighbours_spec(s: (int, int, int), rings: int) -> Seq<(int, int, int)> {
    cubic_nb_slot(s, rings, 0) + cubic_nb_slot(s, rings, 1) + cubic_nb_slot(s, rings, 2)
        + cubic_nb_slot(s, rings, 3) + cubic_nb_slot(s, rings, 4) + cubic_nb_slot(s, rings, 5)
}

/// Appends the neighbour of `source` in direction `dir` to `out` when it
/// lies within `rings` rings of the origin.
fn push_cubic_neighbour(
    out: &mut Vec<(i32, i32, i32)>,
    source: (i32, i32, i32),
    rings: i32,
    dir: usize,
)
    requires
        dir < 6,
    ensures
        cub_seq(final(out)@) == cub_seq(old(out)@) + cubic_nb_slot(
            cub(source),
            rings as int,
            dir as int,
        ),
{
    let d: (i64, i64, i64) = if dir == 0 {
        (0, -1, 1)
    } else if dir == 1 {
        (1, -1, 0)
    } else if dir == 2 {
        (1, 0, -1)
    } else if dir == 3 {
        (0, 1, -1)
    } else if dir == 4 {
        (-1, 1, 0)
    } else {
        (-1, 0, 1)
    };
    let nx: i64 = source.0 as i64 + d.0;
    let ny: i64 = source.1 as i64 + d.1;
    let nz: i64 = source.2 as i64 + d.2;
    let rl: i64 = rings as i64;
    if -rl <= nx && nx <= rl && -rl <= ny && ny <= rl && -rl <= nz && nz <= rl {
        out.push((nx as i32, ny as i32, nz as i32));
        proof {
            assert(cub_seq(out@) =~= cub_seq(old(out)@) + cubic_nb_slot(
                cub(source),
                rings as int,
                dir as int,
            ));
        }
    } else {
        proof {
            assert(cub_seq(out@) =~= cub_seq(old(out)@) + cubic_nb_slot(
                cub(source),
                rings as int,
                dir as int,
            ));
        }
    }
}

/// Finds the neighbouring nodes of `source` in a Cubic coordinate system.
/// The grid is a circular arrangement of `count_rings_from_origin` rings
/// around the origin (inclusive); a neighbour is returned only when every
/// axis magnitude stays within that ring count, so cells on the rim yield
/// strictly fewer than six neighbours. The list starts with the northern
/// neighbour and moves clockwise.
pub fn node_neighbours_cubic(source: (i32, i32, i32), count_rings_from_origin: i32) -> (r: Vec<
    (i32, i32, i32),
>)
    ensures
        cub_seq(r@) == cubic_neighbours_spec(cub(source), count_rings_from_origin as int),
        r@.len() <= 6,
{
    let mut neighbours: Vec<(i32, i32, i32)> = Vec::new();
    push_cubic_neighbour(&mut neighbours, source, count_rings_from_origin, 0);
    push_cubic_neighbour(&mut neighbours, source, count_rings_from_origin, 1);
    push_cubic_neighbour(&mut neighbours, source, count_rings_from_origin, 2);
    push_cubic_neighbour(&mut neighbours, source, count_rings_from_origin, 3);
    push_cubic_neighbour(&mut neighbours, source, count_rings_from_origin, 4);
    push_cubic_neighbour(&mut neighbours, source, count_rings_from_origin, 5);
    proof {
        assert(cub_seq(neighbours@) =~= cubic_neighbours_spec(
            cub(source),
            count_rings_from_origin as int,
        ));
        assert(neighbours@.len() == cub_seq(neighbours@).len());
    }
    neighbours
}

/// A cell on the rim of the grid — one whose largest axis magnitude
/// equals the ring count — yields strictly fewer than six neighbours.
pub proof fn lemma_rim_has_fewer_neighbours(c: (int, int, int), rings: int)
    requires
        in_ring_bounds(c, rings),
        max_abs3(c) == rings,
    ensures
        cubic_neighbours_spec(c, rings).len() < 6,
{
    if c.0 == rings || c.1 == -rings {
        assert(cubic_nb_slot(c, rings, 1).len() == 0);
    } else if c.0 == -rings || c.2 == rings {
        assert(cubic_nb_slot(c, rings, 5).len() == 0);
    } else {
        assert(cubic_nb_slot(c, rings, 3).len() == 0);
    }
}

/// The axial coordinate pair of an executable value, as mathematical
/// integers.
pub open spec fn axl(c: (i32, i32)) -> (int, int) {
    (c.0 as int, c.1 as int)
}

/// A sequence of axial coordinates, as mathematical integers.
pub open spec fn axl_seq(s: Seq<(i32, i32)>) -> Seq<(int, int)> {
    s.map_values(|c: (i32, i32)| axl(c))
}

/// The in-bounds neighbours of an axial cell: exactly the cubic neighbours
/// of its cubic form, projected back to axial.
pub open spec fn axial_neighbours_spec(s: (int, int), rings: int) -> Seq<(int, int)> {
    cubic_neighbours_spec(axial_to_cubic_spec(s.0, s.1), rings).map_values(
        |c: (int, int, int)| cubic_to_axial_spec(c.0, c.1, c.2),
    )
}

/// Finds the neighbouring nodes of `source` in an Axial coordinate system,
/// for a circular grid of `count_rings_from_origin` rings around the
/// origin (inclusive). Discovery is delegated to cubic space: the axial
/// cell is converted, its cubic neighbours are found, and each is
/// converted back.
pub fn node_neighbours_axial(source: (i32, i32), count_rings_from_origin: i32) -> (r: Vec<
    (i32, i32),
>)
    requires
        i32::MIN <= -(source.0 as int) - (source.1 as int) <= i32::MAX,
    ensures
        axl_seq(r@) == axial_neighbours_spec(axl(source), count_rings_from_origin as int),
        r@.len() <= 6,
{
    let ghost target: Seq<(int, int)> = axial_neighbours_spec(
        axl(source),
        count_rings_from_origin as int,
    );
    let mut neighbours: Vec<(i32, i32)> = Vec::new();
    let cubic = axial_to_cubic(source);
    let n = node_neighbours_cubic(cubic, count_rings_from_origin);
    let mut i: usize = 0;
    while i < n.len()
        invariant
            i <= n@.len(),
            neighbours@.len() == i,
            cub_seq(n@) == cubic_neighbours_spec(
                axial_to_cubic_spec(source.0 as int, source.1 as int),
                count_rings_from_origin as int,
            ),
            forall|j: int|
                0 <= j < i ==> axl(neighbours@[j]) == cubic_to_axial_spec(
                    cub(n@[j]).0,
                    cub(n@[j]).1,
                    cub(n@[j]).2,
                ),
        decreases n@.len() - i,
    {
        let c = n[i];
        neighbours.push(cubic_to_axial(c));
        i = i + 1;
    }
    proof {
        assert(axl_seq(neighbours@) =~= target);
    }
    neighbours
}

/// The offset coordinate pair of an executable value, as mathematical
/// integers.
pub open spec fn off(c: (i32, i32)) -> (int, int) {
    (c.0 as int, c.1 as int)
}

/// A sequence of offset coordinates, as mathematical integers.
pub open spec fn off_seq(s: Seq<(i32, i32)>) -> Seq<(int, int)> {
    s.map_values(|c: (i32, i32)| off(c))
}

/// Which parity decides the neighbour-delta table for an offset cell:
/// flat-top layouts branch on the column, pointy-top layouts on the row.
pub open spec fn offset_parity(o: HexOrientation, col: int, row: int) -> int {
    match o {
        HexOrientation::FlatTopOddUp => odd_bit(col),
        HexOrientation::FlatTopOddDown => odd_bit(col),
        HexOrientation::PointyTopOddRight => odd_bit(row),
        HexOrientation::PointyTopOddLeft => odd_bit(row),
    }
}

/// The `(column, row)` delta of neighbour `i` (clockwise from the first
/// table entry) for an orientation and a parity. Eight tables in all:
/// four orientations, each with an even and an odd variant.
pub open spec fn offset_delta(o: HexOrientation, parity: int, i: int) -> (int, int) {
    match o {
        HexOrientation::FlatTopOddUp => {
            if parity == 0 {
                if i == 0 {
                    (0, 1)
                } else if i == 1 {
                    (1, 0)
                } else if i == 2 {
                    (1, -1)
                } else if i == 3 {
                    (0, -1)
                } else if i == 4 {
                    (-1, -1)
                } else {
                    (-1, 0)
                }
            } else {
                if i == 0 {
                    (0, 1)
                } else if i == 1 {
                    (1, 1)
                } else if i == 2 {
                    (1, 0)
                } else if i == 3 {
                    (0, -1)
                } else if i == 4 {
                    (-1, 0)
                } else {
                    (-1, 1)
                }
            }
        },
        HexOrientation::FlatTopOddDown => {
            if parity == 0 {
                if i == 0 {
                    (0, 1)
                } else if i == 1 {
                    (1, 1)
                } else if i == 2 {
                    (1, 0)
                } else if i == 3 {
                    (0, -1)
                } else if i == 4 {
                    (-1, 0)
                } else {
                    (-1, 1)
                }
            } else {
                if i == 0 {
                    (0, 1)
                } else if i == 1 {
                    (1, 0)
                } else if i == 2 {
                    (1, -1)
                } else if i == 3 {
                    (0, -1)
                } else if i == 4 {
                    (-1, -1)
                } else {
                    (-1, 0)
                }
            }
        },
        HexOrientation::PointyTopOddRight => {
            if parity == 0 {
                if i == 0 {
                    (0, 1)
                } else if i == 1 {
                    (1, 0)
                } else if i == 2 {
                    (0, -1)
                } else if i == 3 {
                    (-1, -1)
                } else if i == 4 {
                    (-1, 0)
                } else {
                    (-1, 1)
                }
            } else {
                if i == 0 {
                    (1, 1)
                } else if i == 1 {
                    (1, 0)
                } else if i == 2 {
                    (1, -1)
                } else if i == 3 {
                    (0, -1)
                } else if i == 4 {
                    (-1, 0)
                } else {
                    (0, 1)
                }
            }
        },
        HexOrientation::PointyTopOddLeft => {
            if parity == 0 {
                if i == 0 {
                    (1, 1)
                } else if i == 1 {
                    (1, 0)
                } else if i == 2 {
                    (1, -1)
                } else if i == 3 {
                    (0, -1)
                } else if i == 4 {
                    (-1, 0)
                } else {
                    (0, 1)
                }
            } else {
                if i == 0 {
                    (0, 1)
                } else if i == 1 {
                    (1, 0)
                } else if i == 2 {
                    (0, -1)
                } else if i == 3 {
                    (-1, -1)
                } else if i == 4 {
                    (-1, 0)
                } else {
                    (-1, 1)
                }
            }
        },
    }
}

/// The offset cell one table entry away from `s`.
pub open spec fn offset_step(s: (int, int), o: HexOrientation, i: int) -> (int, int) {
    let d = offset_delta(o, offset_parity(o, s.0, s.1), i);
    (s.0 + d.0, s.1 + d.1)
}

/// Each offset neighbour-delta table is the offset image of the cubic
/// direction cycle: stepping along table entry `i` and converting to
/// cubic is the same as converting first and stepping in cubic direction
/// `i`. This ties the eight tables to the one cubic geometry.
pub proof fn lemma_offset_step_matches_cubic(s: (int, int), o: HexOrientation, i: int)
    requires
        0 <= i < 6,
    ensures
        ({
            let t = offset_step(s, o, i);
            offset_to_cubic_spec(t.0, t.1, o) == cubic_step(offset_to_cubic_spec(s.0, s.1, o), i)
        }),
{
}

/// Whether an offset coordinate lies strictly inside the exclusive
/// rectangular window.
pub open spec fn in_rect_bounds(
    c: (int, int),
    min_column: int,
    max_column: int,
    min_row: int,
    max_row: int,
) -> bool {
    &&& min_column < c.0 < max_column
    &&& min_row < c.1 < max_row
}

/// The neighbour behind table entry `i`, kept only when it lies strictly
/// inside the window.
pub open spec fn offset_nb_slot(
    s: (int, int),
    o: HexOrientation,
    min_column: int,
    max_column: int,
    min_row: int,
    max_row: int,
    i: int,
) -> Seq<(int, int)> {
    if in_rect_bounds(offset_step(s, o, i), min_column, max_column, min_row, max_row) {
        seq![offset_step(s, o, i)]
    } else {
        Seq::empty()
    }
}

/// The in-bounds neighbours of an offset cell, in table order.
pub open spec fn offset_neighbours_spec(
    s: (int, int),
    o: HexOrientation,
    min_column: int,
    max_column: int,
    min_row: int,
    max_row: int,
) -> Seq<(int, int)> {
    offset_nb_slot(s, o, min_column, max_column, min_row, max_row, 0) + offset_nb_slot(
        s,
        o,
        min_column,
        max_column,
        min_row,
        max_row,
        1,
    ) + offset_nb_slot(s, o, min_column, max_column, min_row, max_row, 2) + offset_nb_slot(
        s,
        o,
        min_column,
        max_column,
        min_row,
        max_row,
        3,
    ) + offset_nb_slot(s, o, min_column, max_column, min_row, max_row, 4) + offset_nb_slot(
        s,
        o,
        min_column,
        max_column,
        min_row,
        max_row,
        5,
    )
}

/// The executable neighbour-delta table.
fn offset_delta_exec(orientation: &HexOrientation, odd: bool, dir: usize) -> (d: (i32, i32))
    requires
        dir < 6,
    ensures
        (d.0 as int, d.1 as int) == offset_delta(
            *orientation,
            if odd {
                1int
            } else {
                0int
            },
            dir as int,
        ),
{
    match orientation {
        HexOrientation::FlatTopOddUp => {
            if !odd {
                if dir == 0 {
                    (0, 1)
                } else if dir == 1 {
                    (1, 0)
                } else if dir == 2 {
                    (1, -1)
                } else if dir == 3 {
                    (0, -1)
                } else if dir == 4 {
                    (-1, -1)
                } else {
                    (-1, 0)
                }
            } else {
                if dir == 0 {
                    (0, 1)
                } else if dir == 1 {
                    (1, 1)
                } else if dir == 2 {
                    (1, 0)
                } else if dir == 3 {
                    (0, -1)
                } else if dir == 4 {
                    (-1, 0)
                } else {
                    (-1, 1)
                }
            }
        },
        HexOrientation::FlatTopOddDown => {
            if !odd {
                if dir == 0 {
                    (0, 1)
                } else if dir == 1 {
                    (1, 1)
                } else if dir == 2 {
                    (1, 0)
                } else if dir == 3 {
                    (0, -1)
                } else if dir == 4 {
                    (-1, 0)
                } else {
                    (-1, 1)
                }
            } else {
                if dir == 0 {
                    (0, 1)
                } else if dir == 1 {
                    (1, 0)
                } else if dir == 2 {
                    (1, -1)
                } else if dir == 3 {
                    (0, -1)
                } else if dir == 4 {
                    (-1, -1)
                } else {
                    (-1, 0)
                }
            }
        },
        HexOrientation::PointyTopOddRight => {
            if !odd {
                if dir == 0 {
                    (0, 1)
                } else if dir == 1 {
                    (1, 0)
                } else if dir == 2 {
                    (0, -1)
                } else if dir == 3 {
                    (-1, -1)
                } else if dir == 4 {
                    (-1, 0)
                } else {
                    (-1, 1)
                }
            } else {
                if dir == 0 {
                    (1, 1)
                } else if dir == 1 {
                    (1, 0)
                } else if dir == 2 {
                    (1, -1)
                } else if dir == 3 {
                    (0, -1)
                } else if dir == 4 {
                    (-1, 0)
                } else {
                    (0, 1)
                }
            }
        },
        HexOrientation::PointyTopOddLeft => {
            if !odd {
                if dir == 0 {
                    (1, 1)
                } else if dir == 1 {
                    (1, 0)
                } else if dir == 2 {
                    (1, -1)
                } else if dir == 3 {
                    (0, -1)
                } else if dir == 4 {
                    (-1, 0)
                } else {
                    (0, 1)
                }
            } else {
                if dir == 0 {
                    (0, 1)
                } else if dir == 1 {
                    (1, 0)
                } else if dir == 2 {
                    (0, -1)
                } else if dir == 3 {
                    (-1, -1)
                } else if dir == 4 {
                    (-1, 0)
                } else {
                    (-1, 1)
                }
            }
        },
    }
}

/// Appends the neighbour of `source` behind table entry `dir` to `out`
/// when it lies strictly inside the window.
fn push_offset_neighbour(
    out: &mut Vec<(i32, i32)>,
    source: (i32, i32),
    orientation: &HexOrientation,
    odd: bool,
    min_column: i32,
    max_column: i32,
    min_row: i32,
    max_row: i32,
    dir: usize,
)
    requires
        dir < 6,
        (if odd {
            1int
        } else {
            0int
        }) == offset_parity(*orientation, source.0 as int, source.1 as int),
    ensures
        off_seq(final(out)@) == off_seq(old(out)@) + offset_nb_slot(
            off(source),
            *orientation,
            min_column as int,
            max_column as int,
            min_row as int,
            max_row as int,
            dir as int,
        ),
{
    let d = offset_delta_exec(orientation, odd, dir);
    let nc: i64 = source.0 as i64 + d.0 as i64;
    let nr: i64 = source.1 as i64 + d.1 as i64;
    if (min_column as i64) < nc && nc < (max_column as i64) && (min_row as i64) < nr && nr < (
    max_row as i64) {
        out.push((nc as i32, nr as i32));
        proof {
            assert(off_seq(out@) =~= off_seq(old(out)@) + offset_nb_slot(
                off(source),
                *orientation,
                min_column as int,
                max_column as int,
                min_row as int,
                max_row as int,
                dir as int,
            ));
        }
    } else {
        proof {
            assert(off_seq(out@) =~= off_seq(old(out)@) + offset_nb_slot(
                off(source),
                *orientation,
                min_column as int,
                max_column as int,
                min_row as int,
                max_row as int,
                dir as int,
            ));
        }
    }
}

/// Finds the neighbouring nodes of `source` in an Offset coordinate
/// system. The window `min_column`, `max_column`, `min_row`, `max_row`
/// bounds the grid with exclusive comparisons, so cells lining the
/// boundary yield fewer than six neighbours. Which delta table applies
/// depends on the orientation and on the parity of the source column
/// (flat-top) or row (pointy-top); entries come back in table order,
/// clockwise from the first.
pub fn node_neighbours_offset(
    source: (i32, i32),
    orientation: &HexOrientation,
    min_column: i32,
    max_column: i32,
    min_row: i32,
    max_row: i32,
) -> (r: Vec<(i32, i32)>)
    ensures
        off_seq(r@) == offset_neighbours_spec(
            off(source),
            *orientation,
            min_column as int,
            max_column as int,
            min_row as int,
            max_row as int,
        ),
        r@.len() <= 6,
{
    let mut neighbours: Vec<(i32, i32)> = Vec::new();
    let odd: bool = match orientation {
        HexOrientation::FlatTopOddUp => odd_adjust(source.0) == 1,
        HexOrientation::FlatTopOddDown => odd_adjust(source.0) == 1,
        HexOrientation::PointyTopOddRight => odd_adjust(source.1) == 1,
        HexOrientation::PointyTopOddLeft => odd_adjust(source.1) == 1,
    };
    push_offset_neighbour(
        &mut neighbours,
        source,
        orientation,
        odd,
        min_column,
        max_column,
        min_row,
        max_row,
        0,
    );
    push_offset_neighbour(
        &mut neighbours,
        source,
        orientation,
        odd,
        min_column,
        max_column,
        min_row,
        max_row,
        1,
    );
    push_offset_neighbour(
        &mut neighbours,
        source,
        orientation,
        odd,
        min_column,
        max_column,
        min_row,
        max_row,
        2,
    );
    push_offset_neighbour(
        &mut neighbours,
        source,
        orientation,
        odd,
        min_column,
        max_column,
        min_row,
        max_row,
        3,
    );
    push_offset_neighbour(
        &mut neighbours,
        source,
        orientation,
        odd,
        min_column,
        max_column,
        min_row,
        max_row,
        4,
    );
    push_offset_neighbour(
        &mut neighbours,
        source,
        orientation,
        odd,
        min_column,
        max_column,
        min_row,
        max_row,
        5,
    );
    proof {
        assert(off_seq(neighbours@) =~= offset_neighbours_spec(
            off(source),
            *orientation,
            min_column as int,
            max_column as int,
            min_row as int,
            max_row as int,
        ));
        assert(neighbours@.len() == off_seq(neighbours@).len());
    }
    neighbours
}

/// The `t`-th cell (zero-based) of the ring walk of radius `k >= 1` around
/// the origin. The walk starts one step beyond the south-western corner
/// `(-k, k, 0)` and follows the six face directions clockwise, `k` cells
/// along each face, ending back on that corner.
pub open spec fn ring_elem(k: int, t: int) -> (int, int, int) {
    if t < k {
        (-k, k - 1 - t, t + 1)
    } else if t < 2 * k {
        (t - 2 * k + 1, -(t - k) - 1, k)
    } else if t < 3 * k {
        (t - 2 * k + 1, -k, 3 * k - t - 1)
    } else if t < 4 * k {
        (k, t - 4 * k + 1, -(t - 3 * k) - 1)
    } else if t < 5 * k {
        (5 * k - t - 1, t - 4 * k + 1, -k)
    } else {
        (-(t - 5 * k) - 1, k, t - 6 * k + 1)
    }
}

/// Which face direction the walk takes to reach its `t`-th cell.
pub open spec fn ring_dir_index(k: int, t: int) -> int {
    if t < k {
        0
    } else if t < 2 * k {
        1
    } else if t < 3 * k {
        2
    } else if t < 4 * k {
        3
    } else if t < 5 * k {
        4
    } else {
        5
    }
}

/// The `t`-th cell of the ring of radius `k` around `c`.
pub open spec fn ring_abs_elem(c: (int, int, int), k: int, t: int) -> (int, int, int) {
    (c.0 + ring_elem(k, t).0, c.1 + ring_elem(k, t).1, c.2 + ring_elem(k, t).2)
}

/// The ring of radius `k` around `c`: the singleton `{c}` for `k == 0`,
/// and the `6 k` cells of the clockwise walk for `k >= 1`.
pub open spec fn ring_cubic_spec(c: (int, int, int), k: int) -> Seq<(int, int, int)> {
    if k == 0 {
        seq![c]
    } else {
        Seq::new((6 * k) as nat, |t: int| ring_abs_elem(c, k, t))
    }
}

/// Every cell of the walk keeps each axis magnitude at most `k`, and each
/// consecutive pair of cells differs by the face direction of the step.
proof fn lemma_ring_elem_facts(k: int, t: int)
    requires
        k >= 1,
        0 <= t < 6 * k,
    ensures
        -k <= ring_elem(k, t).0 <= k,
        -k <= ring_elem(k, t).1 <= k,
        -k <= ring_elem(k, t).2 <= k,
        ring_elem(k, t).0 + ring_elem(k, t).1 + ring_elem(k, t).2 == 0,
        t == 0 ==> ring_elem(k, t) == cubic_step((-k, k, 0), 0),
        t >= 1 ==> ring_elem(k, t) == cubic_step(ring_elem(k, t - 1), ring_dir_index(k, t)),
{
}

/// Finds the nodes on the ring of `radius` around `source` in a Cubic
/// coordinate system. Ring `0` is the singleton holding `source` itself;
/// for `radius >= 1` the walk starts south-west of the centre and moves
/// clockwise along the six faces, yielding exactly `6 * radius` cells.
/// The first element is the cell one step beyond the south-western corner.
pub fn node_ring_cubic(source: (i32, i32, i32), radius: i32) -> (r: Vec<(i32, i32, i32)>)
    requires
        radius >= 0,
        6 * (radius as int) <= i32::MAX,
        i32::MIN <= source.0 - radius && source.0 + radius <= i32::MAX,
        i32::MIN <= source.1 - radius && source.1 + radius <= i32::MAX,
        i32::MIN <= source.2 - radius && source.2 + radius <= i32::MAX,
    ensures
        cub_seq(r@) == ring_cubic_spec(cub(source), radius as int),
        radius == 0 ==> r@.len() == 1,
        radius >= 1 ==> r@.len() == 6 * radius,
{
    if radius == 0 {
        let mut ring_nodes: Vec<(i32, i32, i32)> = Vec::new();
        ring_nodes.push(source);
        proof {
            assert(cub_seq(ring_nodes@) =~= ring_cubic_spec(cub(source), radius as int));
        }
        return ring_nodes;
    }
    let mut ring_nodes: Vec<(i32, i32, i32)> = Vec::new();
    // the south-western corner of the ring, one step before the walk's
    // first cell
    let mut cx: i32 = source.0 - radius;
    let mut cy: i32 = source.1 + radius;
    let mut cz: i32 = source.2;
    let limit: i32 = 6 * radius;
    let mut t: i32 = 0;
    while t < limit
        invariant
            radius >= 1,
            limit == 6 * radius,
            6 * (radius as int) <= i32::MAX,
            i32::MIN <= source.0 - radius && source.0 + radius <= i32::MAX,
            i32::MIN <= source.1 - radius && source.1 + radius <= i32::MAX,
            i32::MIN <= source.2 - radius && source.2 + radius <= i32::MAX,
            0 <= t <= limit,
            ring_nodes@.len() == t,
            forall|s: int|
                0 <= s < t ==> cub(ring_nodes@[s]) == ring_abs_elem(
                    cub(source),
                    radius as int,
                    s,
                ),
            t == 0 ==> (cx as int, cy as int, cz as int) == (
                source.0 - radius as int,
                source.1 + radius as int,
                source.2 as int,
            ),
            t >= 1 ==> (cx as int, cy as int, cz as int) == ring_abs_elem(
                cub(source),
                radius as int,
                t - 1,
            ),
        decreases limit - t,
    {
        proof {
            lemma_ring_elem_facts(radius as int, t as int);
            if t >= 1 {
                lemma_ring_elem_facts(radius as int, t - 1);
            }
        }
        let d: (i32, i32, i32) = if t < radius {
            (0, -1, 1)
        } else if t < 2 * radius {
            (1, -1, 0)
        } else if t < 3 * radius {
            (1, 0, -1)
        } else if t < 4 * radius {
            (0, 1, -1)
        } else if t < 5 * radius {
            (-1, 1, 0)
        } else {
            (-1, 0, 1)
        };
        cx = cx + d.0;
        cy = cy + d.1;
        cz = cz + d.2;
        ring_nodes.push((cx, cy, cz));
        t = t + 1;
    }
    proof {
        assert(cub_seq(ring_nodes@) =~= ring_cubic_spec(cub(source), radius as int));
    }
    ring_nodes
}

/// Every cell of the ring of radius `k` around `c` lies at hex distance
/// exactly `k` from `c`: the walk enumerates precisely one ring.
pub proof fn lemma_ring_cells_at_distance(c: (int, int, int), k: int, t: int)
    requires
        k >= 1,
        0 <= t < 6 * k,
    ensures
        cubic_distance_spec(ring_abs_elem(c, k, t), c) == k,
{
    lemma_ring_elem_facts(k, t);
    lemma_ring_elem_max_abs(k, t);
}

/// The walk of radius `k >= 1` never repeats a cell: its `6 k` entries are
/// pairwise distinct.
pub proof fn lemma_ring_elem_distinct(k: int, t1: int, t2: int)
    requires
        k >= 1,
        0 <= t1 < 6 * k,
        0 <= t2 < 6 * k,
        t1 != t2,
    ensures
        ring_elem(k, t1) != ring_elem(k, t2),
{
}

/// Every cell of the walk of radius `k` has largest axis magnitude exactly
/// `k`, so the ring number of a cell can be recovered from the cell alone.
pub proof fn lemma_ring_elem_max_abs(k: int, t: int)
    requires
        k >= 1,
        0 <= t < 6 * k,
    ensures
        int_abs(ring_elem(k, t).0) <= k,
        int_abs(ring_elem(k, t).1) <= k,
        int_abs(ring_elem(k, t).2) <= k,
        int_abs(ring_elem(k, t).0) == k || int_abs(ring_elem(k, t).1) == k || int_abs(
            ring_elem(k, t).2,
        ) == k,
{
}

/// A sequence of spiral indices, as mathematical integers.
pub open spec fn spi_seq(s: Seq<i32>) -> Seq<int> {
    s.map_values(|v: i32| v as int)
}

/// The first spiral index of ring `k`: the origin cell `0` for ring `0`,
/// and `3 (k - 1) k + 1` for `k >= 1`, since the rings before `k` hold
/// `1 + 6 + 12 + ... + 6 (k - 1)` cells in all.
pub open spec fn spiral_ring_start(k: int) -> int {
    if k <= 0 {
        0
    } else {
        3 * (k - 1) * k + 1
    }
}

/// Ring `k >= 1` spans exactly `6 k` consecutive spiral indices.
pub proof fn lemma_spiral_ring_span(k: int)
    requires
        k >= 1,
    ensures
        spiral_ring_start(k + 1) == spiral_ring_start(k) + 6 * k,
        spiral_ring_start(k) >= k,
{
    assert(3 * k * (k + 1) == 3 * (k - 1) * k + 6 * k) by (nonlinear_arith);
    assert(3 * (k - 1) * k + 1 >= k) by (nonlinear_arith)
        requires
            k >= 1,
    ;
}

/// The ring starts grow strictly with the ring number.
pub proof fn lemma_spiral_ring_start_mono(a: int, b: int)
    requires
        0 <= a < b,
    ensures
        spiral_ring_start(a + 1) <= spiral_ring_start(b),
        spiral_ring_start(a) < spiral_ring_start(b),
{
    assert(3 * a * (a + 1) <= 3 * (b - 1) * b) by (nonlinear_arith)
        requires
            0 <= a < b,
    ;
    if a >= 1 {
        assert(3 * (a - 1) * a < 3 * (b - 1) * b) by (nonlinear_arith)
            requires
                1 <= a < b,
        ;
    }
}

/// The spiral indices of ring `k`: `0` alone for ring `0`, and the `6 k`
/// consecutive indices starting at `spiral_ring_start(k)` for `k >= 1`.
pub open spec fn spiral_ring_spec(k: int) -> Seq<int> {
    if k == 0 {
        seq![0]
    } else {
        Seq::new((6 * k) as nat, |t: int| spiral_ring_start(k) + t)
    }
}

/// Finds the nodes on the ring of `radius` around the centre in a Spiral
/// Hex coordinate system. Ring `0` is the singleton `{0}`; ring `k >= 1`
/// is the contiguous run of `6 k` indices beginning at `3 (k - 1) k + 1`,
/// the first of them the northern cell, moving clockwise.
pub fn node_ring_spiral_hex(radius: i32) -> (r: Vec<i32>)
    requires
        radius >= 0,
        3 * (radius as int) * (radius as int + 1) + 1 <= i32::MAX,
    ensures
        spi_seq(r@) == spiral_ring_spec(radius as int),
        radius == 0 ==> r@.len() == 1,
        radius >= 1 ==> r@.len() == 6 * radius,
{
    let mut ring_nodes: Vec<i32> = Vec::new();
    if radius == 0 {
        ring_nodes.push(0);
        proof {
            assert(spi_seq(ring_nodes@) =~= spiral_ring_spec(radius as int));
        }
        return ring_nodes;
    }
    proof {
        lemma_spiral_ring_span(radius as int);
    }
    let r64: i64 = radius as i64;
    let start_node: i64 = 3 * (r64 - 1) * r64 + 1;
    let out_of_bounds: i64 = 3 * r64 * (r64 + 1) + 1;
    let mut i: i64 = start_node;
    while i < out_of_bounds
        invariant
            start_node == spiral_ring_start(radius as int),
            out_of_bounds == spiral_ring_start(radius as int + 1),
            out_of_bounds == start_node + 6 * (radius as int),
            out_of_bounds <= i32::MAX,
            start_node <= i <= out_of_bounds,
            ring_nodes@.len() == i - start_node,
            forall|j: int| 0 <= j < ring_nodes@.len() ==> ring_nodes@[j] as int == start_node + j,
        decreases out_of_bounds - i,
    {
        ring_nodes.push(i as i32);
        i = i + 1;
    }
    proof {
        assert(spi_seq(ring_nodes@) =~= spiral_ring_spec(radius as int));
    }
    ring_nodes
}

/// The ring number a spiral index sits on: the `k` whose run of indices
/// contains it.
pub open spec fn spiral_ring_of(i: int) -> int {
    choose|k: int| 1 <= k && #[trigger] spiral_ring_start(k) <= i < spiral_ring_start(k + 1)
}

/// For an index inside ring `k`'s run, the ring number is exactly `k`.
pub proof fn lemma_spiral_ring_of_unique(i: int, k: int)
    requires
        1 <= k,
        spiral_ring_start(k) <= i < spiral_ring_start(k + 1),
    ensures
        spiral_ring_of(i) == k,
{
    assert(1 <= k && spiral_ring_start(k) <= i < spiral_ring_start(k + 1));
    let k2 = spiral_ring_of(i);
    if k2 < k {
        lemma_spiral_ring_start_mono(k2, k);
    }
    if k2 > k {
        lemma_spiral_ring_start_mono(k, k2);
    }
}

/// Largest axis magnitude of a cubic coordinate.
pub open spec fn max_abs3(c: (int, int, int)) -> int {
    if int_abs(c.0) >= int_abs(c.1) && int_abs(c.0) >= int_abs(c.2) {
        int_abs(c.0)
    } else if int_abs(c.1) >= int_abs(c.2) {
        int_abs(c.1)
    } else {
        int_abs(c.2)
    }
}

/// The position of a cell inside the ring walk of its own radius.
pub open spec fn ring_index_spec(k: int, c: (int, int, int)) -> int {
    choose|p: int| 0 <= p < 6 * k && ring_elem(k, p) == c
}

/// Every cell on the `x + y + z == 0` plane whose largest axis magnitude
/// is `k >= 1` appears in the ring walk of radius `k`, at the position
/// this lemma computes.
pub proof fn lemma_ring_walk_complete(k: int, c: (int, int, int))
    requires
        k >= 1,
        c.0 + c.1 + c.2 == 0,
        max_abs3(c) == k,
    ensures
        0 <= ring_index_spec(k, c) < 6 * k,
        ring_elem(k, ring_index_spec(k, c)) == c,
{
    let p: int = if c.0 == -k && c.2 >= 1 {
        c.2 - 1
    } else if c.2 == k {
        c.0 + 2 * k - 1
    } else if c.1 == -k && c.0 >= 1 {
        2 * k + c.0 - 1
    } else if c.0 == k || (c.2 == -k && c.1 >= 1) {
        c.1 + 4 * k - 1
    } else {
        5 * k - c.0 - 1
    };
    assert(0 <= p < 6 * k && ring_elem(k, p) == c);
}

/// The position of a cell in the walk of its ring is unique.
pub proof fn lemma_ring_index_unique(k: int, c: (int, int, int), p: int)
    requires
        k >= 1,
        0 <= p < 6 * k,
        ring_elem(k, p) == c,
    ensures
        ring_index_spec(k, c) == p,
{
    assert(0 <= p < 6 * k && ring_elem(k, p) == c);
    let p2 = ring_index_spec(k, c);
    if p2 != p {
        lemma_ring_elem_distinct(k, p, p2);
    }
}

/// Mathematical form of [`spiral_hex_to_cubic`]. The spiral run of a ring
/// starts at the northern cell while the cubic walk starts one step past
/// the south-western corner, so the position inside the spiral run is
/// rotated forward by `2 k - 1` places to land on the cubic walk.
pub open spec fn spiral_to_cubic_spec(i: int) -> (int, int, int) {
    if i <= 0 {
        (0, 0, 0)
    } else {
        let k = spiral_ring_of(i);
        let q = i - spiral_ring_start(k);
        ring_elem(k, (q + 2 * k - 1) % (6 * k))
    }
}

/// Mathematical form of [`cubic_to_spiral_hex`]: the inverse rotation.
pub open spec fn cubic_to_spiral_spec(c: (int, int, int)) -> int {
    if c == (0int, 0int, 0int) {
        0
    } else {
        let k = max_abs3(c);
        let p = ring_index_spec(k, c);
        spiral_ring_start(k) + (p - (2 * k - 1)) % (6 * k)
    }
}

/// Every positive spiral index lies in the run of exactly one ring.
pub proof fn lemma_spiral_ring_of_props(i: int)
    requires
        i >= 1,
    ensures
        1 <= spiral_ring_of(i),
        spiral_ring_start(spiral_ring_of(i)) <= i < spiral_ring_start(spiral_ring_of(i) + 1),
    decreases i,
{
    if i == 1 {
        lemma_spiral_ring_span(1);
        lemma_spiral_ring_of_unique(1, 1);
    } else {
        lemma_spiral_ring_of_props(i - 1);
        let k = spiral_ring_of(i - 1);
        if i < spiral_ring_start(k + 1) {
            lemma_spiral_ring_of_unique(i, k);
        } else {
            lemma_spiral_ring_span(k + 1);
            lemma_spiral_ring_of_unique(i, k + 1);
        }
    }
}

/// Rotating a ring position forward and then backward by the same amount
/// returns the original position.
proof fn lemma_rotate_cancel(q: int, rot: int, m: int)
    requires
        m >= 1,
        0 <= q < m,
    ensures
        ((q + rot) % m - rot) % m == q,
{
    vstd::arithmetic::div_mod::lemma_fundamental_div_mod(q + rot, m);
    let d = (q + rot) / m;
    let p = (q + rot) % m;
    assert(m * (-d) == -(m * d)) by (nonlinear_arith);
    assert(p - rot == m * (-d) + q);
    vstd::arithmetic::div_mod::lemma_mod_multiples_vanish(-d, q, m);
    vstd::arithmetic::div_mod::lemma_small_mod(q as nat, m as nat);
}

/// The first spiral index of ring `k + 1`, used as the exclusive end of
/// ring `k`'s run.
fn spiral_next_start(k: i32) -> (r: i64)
    requires
        0 <= k <= 30000,
    ensures
        r == spiral_ring_start(k as int + 1),
{
    let k64: i64 = k as i64;
    proof {
        assert(0 <= 3 * (k64 as int) * (k64 as int + 1) + 1 <= 0x7000_0000_0000) by (nonlinear_arith)
            requires
                0 <= k64 <= 30000,
        ;
    }
    3 * k64 * (k64 + 1) + 1
}

/// The ring a positive spiral index sits on, found by walking the ring
/// starts upward until one passes the index.
fn spiral_ring_find(coord: i32) -> (k: i32)
    requires
        coord >= 1,
    ensures
        1 <= k <= 26756,
        spiral_ring_start(k as int) <= coord as int,
        (coord as int) < spiral_ring_start(k as int + 1),
        k == spiral_ring_of(coord as int),
{
    let mut k: i32 = 1;
    proof {
        lemma_spiral_ring_span(1);
    }
    while spiral_next_start(k) <= coord as i64
        invariant
            1 <= k,
            coord >= 1,
            spiral_ring_start(k as int) <= coord as int,
            k as int <= spiral_ring_start(k as int),
            k <= 26756,
        decreases coord - k,
    {
        proof {
            lemma_spiral_ring_span(k as int + 1);
            assert(k as int + 1 <= 26756) by (nonlinear_arith)
                requires
                    3 * (k as int) * (k as int + 1) + 1 <= 0x7fff_ffff && k >= 1,
            ;
        }
        k = k + 1;
    }
    proof {
        lemma_spiral_ring_of_unique(coord as int, k as int);
    }
    k
}

/// The `t`-th cell of the ring walk of radius `k`, computed in closed
/// form.
fn ring_elem_at(k: i32, t: i32) -> (r: (i32, i32, i32))
    requires
        1 <= k,
        6 * (k as int) <= i32::MAX,
        0 <= t < 6 * (k as int),
    ensures
        cub(r) == ring_elem(k as int, t as int),
{
    if t < k {
        (-k, k - 1 - t, t + 1)
    } else if t < 2 * k {
        (t - 2 * k + 1, k - t - 1, k)
    } else if t < 3 * k {
        (t - 2 * k + 1, -k, 3 * k - t - 1)
    } else if t < 4 * k {
        (k, t - 4 * k + 1, 3 * k - t - 1)
    } else if t < 5 * k {
        (5 * k - t - 1, t - 4 * k + 1, -k)
    } else {
        (5 * k - t - 1, k, t - 6 * k + 1)
    }
}

/// The position of `c` inside the ring walk of its own radius `k`,
/// computed by deciding which face of the ring `c` lies on.
fn ring_index_at(k: i32, c: (i32, i32, i32)) -> (p: i32)
    requires
        1 <= k,
        6 * (k as int) <= i32::MAX,
        c.0 + c.1 + c.2 == 0,
        max_abs3(cub(c)) == k as int,
    ensures
        0 <= p < 6 * (k as int),
        p == ring_index_spec(k as int, cub(c)),
{
    let p: i32 = if c.0 == -k && c.2 >= 1 {
        c.2 - 1
    } else if c.2 == k {
        c.0 + 2 * k - 1
    } else if c.1 == -k && c.0 >= 1 {
        2 * k + c.0 - 1
    } else if c.0 == k || (c.2 == -k && c.1 >= 1) {
        c.1 + 4 * k - 1
    } else {
        5 * k - c.0 - 1
    };
    proof {
        assert(0 <= p < 6 * (k as int) && ring_elem(k as int, p as int) == cub(c));
        lemma_ring_index_unique(k as int, cub(c), p as int);
    }
    p
}

/// Convert a Spiral Hex coordinate to Cubic coordinates. The index is
/// first mapped to the ring it sits on; its position inside that ring's
/// contiguous spiral run, rotated forward by `2 k - 1` places, is then its
/// position inside the cubic ring walk of the same radius.
pub fn spiral_hex_to_cubic(coord: i32) -> (r: (i32, i32, i32))
    requires
        coord >= 0,
    ensures
        cub(r) == spiral_to_cubic_spec(coord as int),
        r.0 + r.1 + r.2 == 0,
        coord == 0 ==> r == (0i32, 0i32, 0i32),
        coord >= 1 ==> max_abs3(cub(r)) == spiral_ring_of(coord as int),
{
    if coord == 0 {
        return (0, 0, 0);
    }
    let k = spiral_ring_find(coord);
    let k64: i64 = k as i64;
    proof {
        assert(0 <= 3 * (k64 as int - 1) * (k64 as int) + 1 <= 0x7000_0000_0000)
            by (nonlinear_arith)
            requires
                1 <= k64 <= 26756,
        ;
    }
    let start64: i64 = 3 * (k64 - 1) * k64 + 1;
    let q64: i64 = coord as i64 - start64;
    let rot64: i64 = 2 * k64 - 1;
    let m64: i64 = 6 * k64;
    let p64: i64 = (q64 + rot64) % m64;
    proof {
        lemma_spiral_ring_span(k as int);
        assert(0 <= (q64 + rot64) as int % (m64 as int) < m64 as int) by {
            vstd::arithmetic::div_mod::lemma_mod_bound((q64 + rot64) as int, m64 as int);
        }
    }
    let r = ring_elem_at(k, p64 as i32);
    proof {
        lemma_ring_elem_facts(k as int, p64 as int);
        lemma_ring_elem_max_abs(k as int, p64 as int);
    }
    r
}

/// Convert Cubic coordinates to a Spiral Hex coordinate: the inverse of
/// [`spiral_hex_to_cubic`]. The largest axis magnitude names the ring;
/// the cell's position inside the cubic ring walk, rotated backward by
/// `2 k - 1` places, is its position inside the ring's spiral run.
pub fn cubic_to_spiral_hex(coord: (i32, i32, i32)) -> (r: i32)
    requires
        coord.0 + coord.1 + coord.2 == 0,
        spiral_ring_start(max_abs3(cub(coord)) + 1) <= i32::MAX as int + 1,
    ensures
        r as int == cubic_to_spiral_spec(cub(coord)),
        r >= 0,
{
    if coord.0 == 0 && coord.1 == 0 && coord.2 == 0 {
        return 0;
    }
    let x64: i64 = coord.0 as i64;
    let y64: i64 = coord.1 as i64;
    let z64: i64 = coord.2 as i64;
    let ax: i64 = if x64 < 0 {
        -x64
    } else {
        x64
    };
    let ay: i64 = if y64 < 0 {
        -y64
    } else {
        y64
    };
    let az: i64 = if z64 < 0 {
        -z64
    } else {
        z64
    };
    let k64: i64 = if ax >= ay && ax >= az {
        ax
    } else if ay >= az {
        ay
    } else {
        az
    };
    proof {
        assert(k64 as int == max_abs3(cub(coord)));
        assert(k64 <= 26756) by (nonlinear_arith)
            requires
                k64 >= 1 && 3 * (k64 as int) * (k64 as int + 1) + 1 <= 0x8000_0000,
        ;
    }
    let k: i32 = k64 as i32;
    let p = ring_index_at(k, coord);
    let p64: i64 = p as i64;
    let rot64: i64 = 2 * k64 - 1;
    let m64: i64 = 6 * k64;
    proof {
        assert(0 <= 3 * (k64 as int - 1) * (k64 as int) + 1 <= 0x7000_0000_0000)
            by (nonlinear_arith)
            requires
                1 <= k64 <= 26756,
        ;
    }
    let start64: i64 = 3 * (k64 - 1) * k64 + 1;
    let r64: i64 = start64 + (p64 + m64 - rot64) % m64;
    proof {
        vstd::arithmetic::div_mod::lemma_mod_bound((p64 + m64 - rot64) as int, m64 as int);
        vstd::arithmetic::div_mod::lemma_mod_add_multiples_vanish(p64 as int - rot64 as int,
            m64 as int);
        lemma_spiral_ring_span(k as int);
    }
    r64 as i32
}

/// Spiral Hex to Cubic and back returns the original index: the two
/// conversions are mutual inverses on every non-negative index.
pub proof fn lemma_spiral_cubic_round_trip(i: int)
    requires
        i >= 0,
    ensures
        cubic_to_spiral_spec(spiral_to_cubic_spec(i)) == i,
{
    if i == 0 {
        return ;
    }
    lemma_spiral_ring_of_props(i);
    let k = spiral_ring_of(i);
    lemma_spiral_ring_span(k);
    let q = i - spiral_ring_start(k);
    let m = 6 * k;
    let rot = 2 * k - 1;
    vstd::arithmetic::div_mod::lemma_mod_bound(q + rot, m);
    let p = (q + rot) % m;
    let c = ring_elem(k, p);
    lemma_ring_elem_facts(k, p);
    lemma_ring_elem_max_abs(k, p);
    assert(max_abs3(c) == k);
    lemma_ring_index_unique(k, c, p);
    lemma_rotate_cancel(q, rot, m);
}

/// Cubic to Spiral Hex and back returns the original coordinate, for
/// every cubic coordinate on the `x + y + z == 0` plane.
pub proof fn lemma_cubic_spiral_round_trip(c: (int, int, int))
    requires
        c.0 + c.1 + c.2 == 0,
    ensures
        spiral_to_cubic_spec(cubic_to_spiral_spec(c)) == c,
{
    if c == (0int, 0int, 0int) {
        return ;
    }
    let k = max_abs3(c);
    assert(k >= 1);
    lemma_ring_walk_complete(k, c);
    let p = ring_index_spec(k, c);
    let m = 6 * k;
    let rot = 2 * k - 1;
    vstd::arithmetic::div_mod::lemma_mod_bound(p - rot, m);
    let q = (p - rot) % m;
    let i = spiral_ring_start(k) + q;
    lemma_spiral_ring_span(k);
    lemma_spiral_ring_of_unique(i, k);
    lemma_rotate_cancel(p, -rot, m);
    assert(((p - rot) % m + rot) % m == p);
}

} // verus!

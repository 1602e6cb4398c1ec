//! Best-first pathfinding over a Spiral-Hex-addressed hexagonal grid.
//!
//! A spiral index names a cell by its position along the clockwise spiral
//! from the origin. The search converts every index to cubic space, runs
//! there, and converts the resulting path back.

use vstd::prelude::*;

use crate::PathError;
use crate::helpers::cub;
use crate::helpers::cubic_adjacent_pts;
use crate::helpers::cubic_to_spiral_hex;
use crate::helpers::cubic_to_spiral_spec;
use crate::helpers::in_ring_bounds;
use crate::helpers::lemma_spiral_cubic_round_trip;
use crate::helpers::lemma_spiral_ring_of_props;
use crate::helpers::lemma_spiral_ring_start_mono;
use crate::helpers::max_abs3;
use crate::helpers::spiral_hex_to_cubic;
use crate::helpers::spiral_ring_start;
use crate::helpers::spiral_to_cubic_spec;
use crate::search::SearchBounds;
use crate::search::chain_cost;
use crate::search::chain_ok;
use crate::search::map_has_key;
use crate::search::search;

verus! {

/// Whether a spiral index is small enough for its whole ring to stay
/// representable.
pub open spec fn spiral_fits(v: i32) -> bool {
    0 <= v as int && (v as int) < spiral_ring_start(26755)
}

/// The cubic cell of a spiral index, in machine integers; meaningful for
/// indices that fit.
pub open spec fn spiral_key_cubic(v: i32) -> (i32, i32, i32) {
    let k = spiral_to_cubic_spec(v as int);
    (k.0 as i32, k.1 as i32, k.2 as i32)
}

/// The cost map with every key in its cubic form.
pub open spec fn spiral_map_cubic(m: Seq<(i32, u32)>) -> Seq<((i32, i32, i32), u32)> {
    m.map_values(|p: (i32, u32)| (spiral_key_cubic(p.0), p.1))
}

/// A path of spiral indices, in cubic form.
pub open spec fn spiral_seq_cubic(p: Seq<i32>) -> Seq<(i32, i32, i32)> {
    p.map_values(|v: i32| spiral_key_cubic(v))
}

/// The cost stored for a spiral index, searched from the front.
pub open spec fn spiral_cost_of(m: Seq<(i32, u32)>, c: i32) -> Option<u32>
    decreases m.len(),
{
    if m.len() == 0 {
        None
    } else if m[0].0 == c {
        Some(m[0].1)
    } else {
        spiral_cost_of(m.drop_first(), c)
    }
}

/// The cost stored for a spiral index, as a mathematical integer; zero
/// when absent.
pub open spec fn spiral_cost_val(m: Seq<(i32, u32)>, c: i32) -> int {
    match spiral_cost_of(m, c) {
        Some(v) => v as int,
        None => 0,
    }
}

/// The doubled cost of walking a spiral path: every boundary crossing
/// costs the cell left plus the cell entered.
pub open spec fn spiral_chain_cost(q: Seq<i32>, m: Seq<(i32, u32)>) -> int
    decreases q.len(),
{
    if q.len() <= 1 {
        0
    } else {
        spiral_chain_cost(q.drop_last(), m) + spiral_cost_val(m, q[q.len() - 2]) + spiral_cost_val(
            m,
            q.last(),
        )
    }
}

/// Whether some key of the spiral cost map converts to the cubic cell
/// `c`.
pub open spec fn has_spiral_preimage(m: Seq<(i32, u32)>, c: (i32, i32, i32)) -> bool {
    exists|j: int| 0 <= j < m.len() && cub(c) == spiral_to_cubic_spec((#[trigger] m[j]).0 as int)
}

/// A well-formed spiral path: it runs from `start` to `end`, every index
/// is a key of the cost map and its cell lies within the ring bounds, and
/// consecutive cells are adjacent in cubic space.
pub open spec fn spiral_path_ok(
    p: Seq<i32>,
    start: i32,
    end: i32,
    m: Seq<(i32, u32)>,
    rings: int,
) -> bool {
    &&& p.len() >= 1
    &&& p[0] == start
    &&& p.last() == end
    &&& forall|i: int|
        0 <= i < p.len() ==> map_has_key(m, #[trigger] p[i]) && in_ring_bounds(
            spiral_to_cubic_spec(p[i] as int),
            rings,
        )
    &&& forall|i: int|
        0 <= i < p.len() - 1 ==> cubic_adjacent_pts(
            spiral_to_cubic_spec((#[trigger] p[i]) as int),
            spiral_to_cubic_spec(p[i + 1] as int),
        )
}

/// Spiral indices whose cells agree in cubic space agree outright.
proof fn lemma_spiral_cub_injective(a: i32, b: i32)
    requires
        a >= 0,
        b >= 0,
        spiral_to_cubic_spec(a as int) == spiral_to_cubic_spec(b as int),
    ensures
        a == b,
{
    lemma_spiral_cubic_round_trip(a as int);
    lemma_spiral_cubic_round_trip(b as int);
}

/// A representable index's cell can be converted back: the ring of the
/// cell stays below the representability limit.
proof fn lemma_spiral_cell_convertible(v: i32)
    requires
        spiral_fits(v),
    ensures
        spiral_ring_start(max_abs3(spiral_to_cubic_spec(v as int)) + 1) <= i32::MAX as int + 1,
{
    if v == 0 {
        assert(spiral_to_cubic_spec(0) == (0int, 0int, 0int));
        assert(spiral_ring_start(1) == 1);
    } else {
        lemma_spiral_ring_of_props(v as int);
        let k = crate::helpers::spiral_ring_of(v as int);
        lemma_spiral_cubic_round_trip(v as int);
        assert(max_abs3(spiral_to_cubic_spec(v as int)) == k);
        if k >= 26755 {
            // the index would then lie at or beyond the limit ring's start
            if k > 26755 {
                lemma_spiral_ring_start_mono(26755, k);
            }
            assert(spiral_ring_start(26755) <= spiral_ring_start(k));
            assert(false);
        }
        assert(spiral_ring_start(26755) == 3 * 26754 * 26755 + 1);
        assert(spiral_ring_start(26755) <= i32::MAX as int + 1);
        if k + 1 < 26755 {
            lemma_spiral_ring_start_mono(k + 1, 26755);
        }
    }
}

/// A representable index's cell casts to machine integers unchanged.
proof fn lemma_spiral_key_fits(v: i32)
    requires
        spiral_fits(v),
    ensures
        cub(spiral_key_cubic(v)) == spiral_to_cubic_spec(v as int),
{
    if v != 0 {
        lemma_spiral_ring_of_props(v as int);
        let k = crate::helpers::spiral_ring_of(v as int);
        lemma_spiral_cubic_round_trip(v as int);
        assert(max_abs3(spiral_to_cubic_spec(v as int)) == k);
        if k >= 26755 {
            if k > 26755 {
                lemma_spiral_ring_start_mono(26755, k);
            }
            assert(spiral_ring_start(26755) <= spiral_ring_start(k));
            assert(false);
        }
    }
}

/// A spiral index with a stored cost is a key of the map, and conversely.
proof fn lemma_spiral_cost_has(m: Seq<(i32, u32)>, c: i32)
    ensures
        (spiral_cost_of(m, c) is Some) <==> map_has_key(m, c),
    decreases m.len(),
{
    if m.len() > 0 {
        if m[0].0 == c {
        } else {
            lemma_spiral_cost_has(m.drop_first(), c);
            if spiral_cost_of(m, c) is Some {
                let i = choose|i: int|
                    0 <= i < m.drop_first().len() && (#[trigger] m.drop_first()[i]).0 == c;
                assert(m[i + 1].0 == c);
            }
            if map_has_key(m, c) {
                let i = choose|i: int| 0 <= i < m.len() && (#[trigger] m[i]).0 == c;
                assert(m.drop_first()[i - 1].0 == c);
            }
        }
    }
}

/// Looking an index up in the cubic image of the map is looking it up in
/// the map; the indices must be representable, for the image to tell
/// them apart.
proof fn lemma_spiral_cost_transfer(m: Seq<(i32, u32)>, c: i32)
    requires
        forall|i: int| 0 <= i < m.len() ==> spiral_fits((#[trigger] m[i]).0),
        spiral_fits(c),
    ensures
        crate::search::cost_of(spiral_map_cubic(m), spiral_key_cubic(c)) == spiral_cost_of(m, c),
    decreases m.len(),
{
    if m.len() > 0 {
        assert(spiral_map_cubic(m)[0] == (spiral_key_cubic(m[0].0), m[0].1));
        if spiral_key_cubic(m[0].0) == spiral_key_cubic(c) && m[0].0 != c {
            lemma_spiral_key_fits(m[0].0);
            lemma_spiral_key_fits(c);
            lemma_spiral_cub_injective(m[0].0, c);
        }
        assert forall|i: int| 0 <= i < m.drop_first().len() implies spiral_fits(
            (#[trigger] m.drop_first()[i]).0,
        ) by {
            assert(m.drop_first()[i] == m[i + 1]);
        }
        lemma_spiral_cost_transfer(m.drop_first(), c);
        assert(spiral_map_cubic(m).drop_first() =~= spiral_map_cubic(m.drop_first()));
    }
}

/// The cost of a spiral path equals the cost of its cubic image.
proof fn lemma_spiral_chain_cost_transfer(q: Seq<i32>, m: Seq<(i32, u32)>)
    requires
        forall|i: int| 0 <= i < m.len() ==> spiral_fits((#[trigger] m[i]).0),
        forall|i: int| 0 <= i < q.len() ==> spiral_fits(#[trigger] q[i]),
    ensures
        chain_cost(spiral_seq_cubic(q), spiral_map_cubic(m)) == spiral_chain_cost(q, m),
    decreases q.len(),
{
    if q.len() > 1 {
        assert forall|i: int| 0 <= i < q.drop_last().len() implies spiral_fits(
            #[trigger] q.drop_last()[i],
        ) by {
            assert(q.drop_last()[i] == q[i]);
        }
        lemma_spiral_chain_cost_transfer(q.drop_last(), m);
        assert(spiral_seq_cubic(q).drop_last() =~= spiral_seq_cubic(q.drop_last()));
        lemma_spiral_cost_transfer(m, q[q.len() - 2]);
        lemma_spiral_cost_transfer(m, q.last());
        assert(spiral_seq_cubic(q)[q.len() - 2] == spiral_key_cubic(q[q.len() - 2]));
        assert(spiral_seq_cubic(q).last() == spiral_key_cubic(q.last()));
    }
}

/// A well-formed spiral path's cubic image is a well-formed cubic path
/// through the cubic image of the map.
proof fn lemma_spiral_walk_image(
    q: Seq<i32>,
    start: i32,
    end: i32,
    m: Seq<(i32, u32)>,
    rings: i32,
)
    requires
        spiral_path_ok(q, start, end, m, rings as int),
        forall|i: int| 0 <= i < m.len() ==> spiral_fits((#[trigger] m[i]).0),
    ensures
        chain_ok(
            spiral_seq_cubic(q),
            spiral_key_cubic(start),
            spiral_map_cubic(m),
            SearchBounds::Rings { count: rings },
        ),
        spiral_seq_cubic(q).last() == spiral_key_cubic(end),
        forall|i: int| 0 <= i < q.len() ==> spiral_fits(#[trigger] q[i]),
{
    let qi = spiral_seq_cubic(q);
    assert forall|i: int| 0 <= i < q.len() implies spiral_fits(#[trigger] q[i]) && cub(
        spiral_key_cubic(q[i]),
    ) == spiral_to_cubic_spec(q[i] as int) by {
        let j = choose|j: int| 0 <= j < m.len() && (#[trigger] m[j]).0 == q[i];
        assert(spiral_fits(m[j].0));
        lemma_spiral_key_fits(q[i]);
    }
    assert forall|i: int| 0 <= i < qi.len() implies crate::search::cost_has(
        spiral_map_cubic(m),
        #[trigger] qi[i],
    ) && crate::search::sb_contains(SearchBounds::Rings { count: rings }, qi[i]) by {
        assert(qi[i] == spiral_key_cubic(q[i]));
        lemma_spiral_cost_transfer(m, q[i]);
        lemma_spiral_cost_has(m, q[i]);
    }
    assert forall|i: int| 0 <= i < qi.len() - 1 implies crate::search::cubic_adjacent(
        #[trigger] qi[i],
        qi[i + 1],
    ) by {
        assert(crate::helpers::cubic_adjacent_pts(
            spiral_to_cubic_spec(q[i] as int),
            spiral_to_cubic_spec(q[i + 1] as int),
        ));
    }
}

/// Membership in the converted cost map mirrors membership in the spiral
/// one.
proof fn lemma_spiral_member_transfer(
    snodes: Seq<(i32, u32)>,
    cnodes: Seq<((i32, i32, i32), u32)>,
    a: i32,
    c: (i32, i32, i32),
)
    requires
        cnodes.len() == snodes.len(),
        forall|j: int| 0 <= j < snodes.len() ==> (#[trigger] snodes[j]).0 >= 0,
        forall|j: int|
            0 <= j < cnodes.len() ==> cub((#[trigger] cnodes[j]).0) == spiral_to_cubic_spec(
                snodes[j].0 as int,
            ),
        a >= 0,
        cub(c) == spiral_to_cubic_spec(a as int),
    ensures
        map_has_key(cnodes, c) <==> map_has_key(snodes, a),
{
    if map_has_key(cnodes, c) {
        let j = choose|j: int| 0 <= j < cnodes.len() && (#[trigger] cnodes[j]).0 == c;
        assert(spiral_to_cubic_spec(snodes[j].0 as int) == spiral_to_cubic_spec(a as int));
        lemma_spiral_cub_injective(snodes[j].0, a);
    }
    if map_has_key(snodes, a) {
        let j = choose|j: int| 0 <= j < snodes.len() && (#[trigger] snodes[j]).0 == a;
        assert(cub(cnodes[j].0) == cub(c));
        assert(cnodes[j].0 == c);
    }
}

/// Converts a cubic path whose every cell is the image of some key of
/// the spiral cost map back to spiral indices.
fn spiral_path_back(cp: &Vec<(i32, i32, i32)>, nodes: &Vec<(i32, u32)>) -> (out: Vec<i32>)
    requires
        forall|j: int| 0 <= j < nodes@.len() ==> spiral_fits((#[trigger] nodes@[j]).0),
        forall|idx: int| 0 <= idx < cp@.len() ==> has_spiral_preimage(nodes@, #[trigger] cp@[idx]),
    ensures
        out@.len() == cp@.len(),
        forall|idx: int|
            0 <= idx < cp@.len() ==> map_has_key(nodes@, #[trigger] out@[idx]) && out@[idx] >= 0
                && spiral_to_cubic_spec(out@[idx] as int) == cub(cp@[idx]),
{
    let mut out: Vec<i32> = Vec::new();
    let mut t: usize = 0;
    while t < cp.len()
        invariant
            t <= cp@.len(),
            out@.len() == t,
            forall|idx: int|
                0 <= idx < cp@.len() ==> has_spiral_preimage(nodes@, #[trigger] cp@[idx]),
            forall|j: int| 0 <= j < nodes@.len() ==> spiral_fits((#[trigger] nodes@[j]).0),
            forall|j: int|
                0 <= j < t ==> (#[trigger] out@[j]) as int == cubic_to_spiral_spec(cub(cp@[j]))
                    && out@[j] >= 0,
        decreases cp@.len() - t,
    {
        let c = cp[t];
        proof {
            assert(has_spiral_preimage(nodes@, cp@[t as int]));
            let j = choose|j: int|
                0 <= j < nodes@.len() && cub(cp@[t as int]) == spiral_to_cubic_spec(
                    (#[trigger] nodes@[j]).0 as int,
                );
            lemma_spiral_cell_convertible(nodes@[j].0);
            lemma_spiral_cubic_round_trip(nodes@[j].0 as int);
        }
        let back = cubic_to_spiral_hex(c);
        out.push(back);
        t = t + 1;
    }
    proof {
        assert forall|idx: int| 0 <= idx < out@.len() implies map_has_key(
            nodes@,
            #[trigger] out@[idx],
        ) && spiral_to_cubic_spec(out@[idx] as int) == cub(cp@[idx]) by {
            assert(has_spiral_preimage(nodes@, cp@[idx]));
            let j = choose|j: int|
                0 <= j < nodes@.len() && cub(cp@[idx]) == spiral_to_cubic_spec(
                    (#[trigger] nodes@[j]).0 as int,
                );
            lemma_spiral_cubic_round_trip(nodes@[j].0 as int);
            assert(out@[idx] as int == nodes@[j].0 as int);
            assert(out@[idx] == nodes@[j].0);
            assert((nodes@[j]).0 == out@[idx]);
        }
    }
    out
}

/// From a starting node calculate the most efficient path to the end
/// node.
///
/// The cost map pairs each spiral index with the complexity of traversing
/// its cell; a discovered neighbour missing from the map is treated as
/// untraversable. `count_rings` is the number of rings around the origin
/// of the circular grid, inclusive, checked in cubic space.
///
/// The call fails with `MissingNode` exactly when the start or the end
/// index is not a key of the cost map, with `OutOfBounds` exactly when
/// both are keys but one converts outside the ring bounds, and with
/// `Unreachable` exactly when no well-formed path reaches the goal, and a
/// returned path is cost-minimal: no well-formed path to the goal costs
/// less.
#[verifier::rlimit(100)]
pub fn astar_path(
    start_node: i32,
    nodes: Vec<(i32, u32)>,
    end_node: i32,
    count_rings: i32,
) -> (r: Result<Vec<i32>, PathError>)
    requires
        spiral_fits(start_node),
        spiral_fits(end_node),
        forall|i: int| 0 <= i < nodes@.len() ==> spiral_fits((#[trigger] nodes@[i]).0),
    ensures
        r matches Err(PathError::MissingNode) <==> !(map_has_key(nodes@, start_node)
            && map_has_key(nodes@, end_node)),
        r matches Err(PathError::OutOfBounds) <==> map_has_key(nodes@, start_node) && map_has_key(
            nodes@,
            end_node,
        ) && !(in_ring_bounds(spiral_to_cubic_spec(start_node as int), count_rings as int)
            && in_ring_bounds(spiral_to_cubic_spec(end_node as int), count_rings as int)),
        r matches Ok(p) ==> spiral_path_ok(p@, start_node, end_node, nodes@, count_rings as int),
        r matches Ok(p) ==> forall|qa: Seq<i32>|
            spiral_path_ok(qa, start_node, end_node, nodes@, count_rings as int)
                ==> spiral_chain_cost(p@, nodes@) <= spiral_chain_cost(qa, nodes@),
        r matches Err(PathError::Unreachable) ==> forall|qa: Seq<i32>|
            !spiral_path_ok(qa, start_node, end_node, nodes@, count_rings as int),
        map_has_key(nodes@, start_node) && map_has_key(nodes@, end_node) && in_ring_bounds(
            spiral_to_cubic_spec(start_node as int),
            count_rings as int,
        ) && in_ring_bounds(spiral_to_cubic_spec(end_node as int), count_rings as int)
            && start_node == end_node ==> (r matches Ok(p) && p@ == seq![start_node]),
        r matches Err(PathError::Unreachable) ==> map_has_key(nodes@, start_node) && map_has_key(
            nodes@,
            end_node,
        ) && start_node != end_node,
{
    let cs = spiral_hex_to_cubic(start_node);
    let ce = spiral_hex_to_cubic(end_node);
    let mut cubic_nodes: Vec<((i32, i32, i32), u32)> = Vec::new();
    let mut i: usize = 0;
    while i < nodes.len()
        invariant
            i <= nodes@.len(),
            cubic_nodes@.len() == i,
            forall|j: int| 0 <= j < nodes@.len() ==> spiral_fits((#[trigger] nodes@[j]).0),
            forall|j: int|
                0 <= j < i ==> cub((#[trigger] cubic_nodes@[j]).0) == spiral_to_cubic_spec(
                    nodes@[j].0 as int,
                ) && cubic_nodes@[j] == (spiral_key_cubic(nodes@[j].0), nodes@[j].1),
        decreases nodes@.len() - i,
    {
        let pair = nodes[i];
        let ck = spiral_hex_to_cubic(pair.0);
        cubic_nodes.push((ck, pair.1));
        i = i + 1;
    }
    proof {
        assert(cubic_nodes@ =~= spiral_map_cubic(nodes@));
        assert(cs == spiral_key_cubic(start_node));
        assert(ce == spiral_key_cubic(end_node));
    }
    let r = search(cs, &cubic_nodes, ce, SearchBounds::Rings { count: count_rings });
    proof {
        crate::search::lemma_cost_has_is_map_has(cubic_nodes@, cs);
        crate::search::lemma_cost_has_is_map_has(cubic_nodes@, ce);
        lemma_spiral_member_transfer(nodes@, cubic_nodes@, start_node, cs);
        lemma_spiral_member_transfer(nodes@, cubic_nodes@, end_node, ce);
        if cs == ce {
            lemma_spiral_cub_injective(start_node, end_node);
        }
    }
    match r {
        Ok(cp) => {
            proof {
                assert forall|idx: int| 0 <= idx < cp@.len() implies has_spiral_preimage(
                    nodes@,
                    #[trigger] cp@[idx],
                ) by {
                    crate::search::lemma_cost_has_is_map_has(cubic_nodes@, cp@[idx]);
                    let j = choose|j: int|
                        0 <= j < cubic_nodes@.len() && (#[trigger] cubic_nodes@[j]).0 == cp@[idx];
                    assert(0 <= j < nodes@.len() && cub(cp@[idx]) == spiral_to_cubic_spec(
                        nodes@[j].0 as int,
                    ));
                }
            }
            let out = spiral_path_back(&cp, &nodes);
            proof {
                lemma_spiral_cubic_round_trip(start_node as int);
                lemma_spiral_cubic_round_trip(end_node as int);
                assert(spiral_to_cubic_spec(out@[0] as int) == cub(cs));
                lemma_spiral_cub_injective(out@[0], start_node);
                assert(spiral_to_cubic_spec(out@.last() as int) == cub(ce));
                lemma_spiral_cub_injective(out@.last(), end_node);
                assert forall|idx: int| 0 <= idx < out@.len() implies spiral_key_cubic(
                    #[trigger] out@[idx],
                ) == cp@[idx] by {
                    assert(cub(spiral_key_cubic(out@[idx])) == spiral_to_cubic_spec(
                        out@[idx] as int,
                    ));
                }
                assert(spiral_seq_cubic(out@) =~= cp@);
                if start_node == end_node {
                    assert(out@ =~= seq![start_node]);
                }
                assert forall|qa: Seq<i32>|
                    spiral_path_ok(
                        qa,
                        start_node,
                        end_node,
                        nodes@,
                        count_rings as int,
                    ) implies spiral_chain_cost(out@, nodes@) <= spiral_chain_cost(
                    qa,
                    nodes@,
                ) by {
                    lemma_spiral_walk_image(qa, start_node, end_node, nodes@, count_rings);
                    assert(chain_cost(cp@, cubic_nodes@) <= chain_cost(
                        spiral_seq_cubic(qa),
                        cubic_nodes@,
                    ));
                    assert forall|i: int| 0 <= i < out@.len() implies spiral_fits(
                        #[trigger] out@[i],
                    ) by {
                        let j = choose|j: int|
                            0 <= j < nodes@.len() && (#[trigger] nodes@[j]).0 == out@[i];
                        assert(spiral_fits(nodes@[j].0));
                    }
                    lemma_spiral_chain_cost_transfer(out@, nodes@);
                    lemma_spiral_chain_cost_transfer(qa, nodes@);
                }
            }
            Ok(out)
        },
        Err(e) => {
            proof {
                if e == PathError::Unreachable {
                    assert forall|qa: Seq<i32>| !spiral_path_ok(
                        qa,
                        start_node,
                        end_node,
                        nodes@,
                        count_rings as int,
                    ) by {
                        if spiral_path_ok(qa, start_node, end_node, nodes@, count_rings as int) {
                            lemma_spiral_walk_image(
                                qa,
                                start_node,
                                end_node,
                                nodes@,
                                count_rings,
                            );
                            assert(chain_ok(
                                spiral_seq_cubic(qa),
                                cs,
                                cubic_nodes@,
                                SearchBounds::Rings { count: count_rings },
                            ) && spiral_seq_cubic(qa).last() == ce);
                        }
                    }
                }
            }
            Err(e)
        },
    }
}

} // verus!

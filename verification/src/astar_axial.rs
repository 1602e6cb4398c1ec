//! Best-first pathfinding over an Axial-addressed hexagonal grid.
//!
//! Axial coordinates carry only two of the three cubic axes, so the
//! search converts every cell to cubic space, runs there, and converts
//! the resulting path back.

use vstd::prelude::*;

use crate::PathError;
use crate::helpers::axial_to_cubic;
use crate::helpers::axial_to_cubic_spec;
use crate::helpers::cub;
use crate::helpers::cubic_adjacent_pts;
use crate::helpers::cubic_to_axial;
use crate::helpers::in_ring_bounds;
use crate::search::SearchBounds;
use crate::search::chain_cost;
use crate::search::chain_ok;
use crate::search::map_has_key;
use crate::search::search;

verus! {

/// The cubic form of an axial cell, as mathematical integers.
pub open spec fn axial_cub(c: (i32, i32)) -> (int, int, int) {
    axial_to_cubic_spec(c.0 as int, c.1 as int)
}

/// The cubic cell of an axial key, in machine integers; meaningful when
/// the key fits.
pub open spec fn axial_key_cubic(c: (i32, i32)) -> (i32, i32, i32) {
    (c.0, (-(c.0 as int) - (c.1 as int)) as i32, c.1)
}

/// The cost map with every key in its cubic form.
pub open spec fn axial_map_cubic(m: Seq<((i32, i32), u32)>) -> Seq<((i32, i32, i32), u32)> {
    m.map_values(|p: ((i32, i32), u32)| (axial_key_cubic(p.0), p.1))
}

/// A path of axial cells, in cubic form.
pub open spec fn axial_seq_cubic(p: Seq<(i32, i32)>) -> Seq<(i32, i32, i32)> {
    p.map_values(|c: (i32, i32)| axial_key_cubic(c))
}

/// The cost stored for an axial key, searched from the front.
pub open spec fn axial_cost_of(m: Seq<((i32, i32), u32)>, c: (i32, i32)) -> Option<u32>
    decreases m.len(),
{
    if m.len() == 0 {
        None
    } else if m[0].0 == c {
        Some(m[0].1)
    } else {
        axial_cost_of(m.drop_first(), c)
    }
}

/// The cost stored for an axial key, as a mathematical integer; zero when
/// absent.
pub open spec fn axial_cost_val(m: Seq<((i32, i32), u32)>, c: (i32, i32)) -> int {
    match axial_cost_of(m, c) {
        Some(v) => v as int,
        None => 0,
    }
}

/// The doubled cost of walking an axial path: every boundary crossing
/// costs the cell left plus the cell entered.
pub open spec fn axial_chain_cost(q: Seq<(i32, i32)>, m: Seq<((i32, i32), u32)>) -> int
    decreases q.len(),
{
    if q.len() <= 1 {
        0
    } else {
        axial_chain_cost(q.drop_last(), m) + axial_cost_val(m, q[q.len() - 2]) + axial_cost_val(
            m,
            q.last(),
        )
    }
}

/// Looking a key up in the cubic image of the map is looking it up in the
/// map.
proof fn lemma_axial_cost_transfer(m: Seq<((i32, i32), u32)>, c: (i32, i32))
    ensures
        crate::search::cost_of(axial_map_cubic(m), axial_key_cubic(c)) == axial_cost_of(m, c),
    decreases m.len(),
{
    if m.len() > 0 {
        assert(axial_map_cubic(m)[0] == (axial_key_cubic(m[0].0), m[0].1));
        if axial_key_cubic(m[0].0) == axial_key_cubic(c) {
            assert(m[0].0 == c);
        }
        lemma_axial_cost_transfer(m.drop_first(), c);
        assert(axial_map_cubic(m).drop_first() =~= axial_map_cubic(m.drop_first()));
    }
}

/// The cost of an axial path equals the cost of its cubic image.
proof fn lemma_axial_chain_cost_transfer(q: Seq<(i32, i32)>, m: Seq<((i32, i32), u32)>)
    ensures
        chain_cost(axial_seq_cubic(q), axial_map_cubic(m)) == axial_chain_cost(q, m),
    decreases q.len(),
{
    if q.len() > 1 {
        lemma_axial_chain_cost_transfer(q.drop_last(), m);
        assert(axial_seq_cubic(q).drop_last() =~= axial_seq_cubic(q.drop_last()));
        lemma_axial_cost_transfer(m, q[q.len() - 2]);
        lemma_axial_cost_transfer(m, q.last());
        assert(axial_seq_cubic(q)[q.len() - 2] == axial_key_cubic(q[q.len() - 2]));
        assert(axial_seq_cubic(q).last() == axial_key_cubic(q.last()));
    }
}

/// A well-formed axial path's cubic image is a well-formed cubic path
/// through the cubic image of the map.
proof fn lemma_axial_walk_image(
    q: Seq<(i32, i32)>,
    start: (i32, i32),
    end: (i32, i32),
    m: Seq<((i32, i32), u32)>,
    rings: i32,
)
    requires
        axial_path_ok(q, start, end, m, rings as int),
        forall|i: int| 0 <= i < m.len() ==> axial_fits((#[trigger] m[i]).0),
    ensures
        chain_ok(
            axial_seq_cubic(q),
            axial_key_cubic(start),
            axial_map_cubic(m),
            SearchBounds::Rings { count: rings },
        ),
        axial_seq_cubic(q).last() == axial_key_cubic(end),
{
    let qi = axial_seq_cubic(q);
    assert forall|i: int| 0 <= i < q.len() implies axial_fits(#[trigger] q[i]) && cub(
        axial_key_cubic(q[i]),
    ) == axial_cub(q[i]) by {
        let j = choose|j: int| 0 <= j < m.len() && (#[trigger] m[j]).0 == q[i];
        assert(axial_fits(m[j].0));
    }
    assert forall|i: int| 0 <= i < qi.len() implies crate::search::cost_has(
        axial_map_cubic(m),
        #[trigger] qi[i],
    ) && crate::search::sb_contains(SearchBounds::Rings { count: rings }, qi[i]) by {
        assert(qi[i] == axial_key_cubic(q[i]));
        lemma_axial_cost_transfer(m, q[i]);
        let j = choose|j: int| 0 <= j < m.len() && (#[trigger] m[j]).0 == q[i];
        assert(axial_cost_of(m, q[i]) is Some) by {
            lemma_axial_cost_has(m, q[i]);
        }
    }
    assert forall|i: int| 0 <= i < qi.len() - 1 implies crate::search::cubic_adjacent(
        #[trigger] qi[i],
        qi[i + 1],
    ) by {
        assert(cubic_adjacent_pts(axial_cub(q[i]), axial_cub(q[i + 1])));
    }
}

/// An axial key with a stored cost is a key of the map, and conversely.
proof fn lemma_axial_cost_has(m: Seq<((i32, i32), u32)>, c: (i32, i32))
    ensures
        (axial_cost_of(m, c) is Some) <==> map_has_key(m, c),
    decreases m.len(),
{
    if m.len() > 0 {
        if m[0].0 == c {
        } else {
            lemma_axial_cost_has(m.drop_first(), c);
            if axial_cost_of(m, c) is Some {
                let i = choose|i: int|
                    0 <= i < m.drop_first().len() && (#[trigger] m.drop_first()[i]).0 == c;
                assert(m[i + 1].0 == c);
            }
            if map_has_key(m, c) {
                let i = choose|i: int| 0 <= i < m.len() && (#[trigger] m[i]).0 == c;
                assert(m.drop_first()[i - 1].0 == c);
            }
        }
    }
}

/// Whether the derived cubic axis of an axial cell stays representable.
pub open spec fn axial_fits(c: (i32, i32)) -> bool {
    i32::MIN <= -(c.0 as int) - (c.1 as int) <= i32::MAX
}

/// A well-formed axial path: it runs from `start` to `end`, every cell is
/// a key of the cost map and lies within the ring bounds, and consecutive
/// cells are adjacent in cubic space.
pub open spec fn axial_path_ok(
    p: Seq<(i32, i32)>,
    start: (i32, i32),
    end: (i32, i32),
    m: Seq<((i32, i32), u32)>,
    rings: int,
) -> bool {
    &&& p.len() >= 1
    &&& p[0] == start
    &&& p.last() == end
    &&& forall|i: int|
        0 <= i < p.len() ==> map_has_key(m, #[trigger] p[i]) && in_ring_bounds(
            axial_cub(p[i]),
            rings,
        )
    &&& forall|i: int|
        0 <= i < p.len() - 1 ==> cubic_adjacent_pts(axial_cub(#[trigger] p[i]), axial_cub(p[i + 1]))
}

/// Keys that agree in cubic space agree outright: with two cells of the
/// cost map converted to cubic, equality transfers back.
proof fn lemma_axial_cub_injective(a: (i32, i32), b: (i32, i32))
    requires
        axial_cub(a) == axial_cub(b),
    ensures
        a == b,
{
}

/// Membership in the converted cost map mirrors membership in the axial
/// one.
proof fn lemma_axial_member_transfer(
    anodes: Seq<((i32, i32), u32)>,
    cnodes: Seq<((i32, i32, i32), u32)>,
    a: (i32, i32),
    c: (i32, i32, i32),
)
    requires
        cnodes.len() == anodes.len(),
        forall|j: int|
            0 <= j < cnodes.len() ==> cub((#[trigger] cnodes[j]).0) == axial_cub(anodes[j].0),
        cub(c) == axial_cub(a),
    ensures
        map_has_key(cnodes, c) <==> map_has_key(anodes, a),
{
    if map_has_key(cnodes, c) {
        let j = choose|j: int| 0 <= j < cnodes.len() && (#[trigger] cnodes[j]).0 == c;
        assert(axial_cub(anodes[j].0) == axial_cub(a));
        lemma_axial_cub_injective(anodes[j].0, a);
        assert(anodes[j].0 == a);
    }
    if map_has_key(anodes, a) {
        let j = choose|j: int| 0 <= j < anodes.len() && (#[trigger] anodes[j]).0 == a;
        assert(cub(cnodes[j].0) == cub(c));
        assert(cnodes[j].0 == c);
    }
}

/// From a starting node calculate the most efficient path to the end
/// node.
///
/// The cost map pairs each axial cell `(q, r)` with the complexity of
/// traversing it; a discovered neighbour missing from the map is treated
/// as untraversable. `count_rings` is the number of rings around the
/// origin of the circular grid, inclusive, checked in cubic space.
///
/// The call fails with `MissingNode` exactly when the start or the end
/// cell is not a key of the cost map, with `OutOfBounds` exactly when
/// both are keys but one converts outside the ring bounds, and with
/// `Unreachable` exactly when no well-formed path reaches the goal, and a
/// returned path is cost-minimal: no well-formed path to the goal costs
/// less.
pub fn astar_path(
    start_node: (i32, i32),
    nodes: Vec<((i32, i32), u32)>,
    end_node: (i32, i32),
    count_rings: i32,
) -> (r: Result<Vec<(i32, i32)>, PathError>)
    requires
        axial_fits(start_node),
        axial_fits(end_node),
        forall|i: int| 0 <= i < nodes@.len() ==> axial_fits((#[trigger] nodes@[i]).0),
    ensures
        r matches Err(PathError::MissingNode) <==> !(map_has_key(nodes@, start_node)
            && map_has_key(nodes@, end_node)),
        r matches Err(PathError::OutOfBounds) <==> map_has_key(nodes@, start_node) && map_has_key(
            nodes@,
            end_node,
        ) && !(in_ring_bounds(axial_cub(start_node), count_rings as int) && in_ring_bounds(
            axial_cub(end_node),
            count_rings as int,
        )),
        r matches Ok(p) ==> axial_path_ok(p@, start_node, end_node, nodes@, count_rings as int),
        r matches Ok(p) ==> forall|qa: Seq<(i32, i32)>|
            axial_path_ok(qa, start_node, end_node, nodes@, count_rings as int)
                ==> axial_chain_cost(p@, nodes@) <= axial_chain_cost(qa, nodes@),
        r matches Err(PathError::Unreachable) ==> forall|qa: Seq<(i32, i32)>|
            !axial_path_ok(qa, start_node, end_node, nodes@, count_rings as int),
        map_has_key(nodes@, start_node) && map_has_key(nodes@, end_node) && in_ring_bounds(
            axial_cub(start_node),
            count_rings as int,
        ) && in_ring_bounds(axial_cub(end_node), count_rings as int) && start_node == end_node
            ==> (r matches Ok(p) && p@ == seq![start_node]),
        r matches Err(PathError::Unreachable) ==> map_has_key(nodes@, start_node) && map_has_key(
            nodes@,
            end_node,
        ) && start_node != end_node,
{
    let cs = axial_to_cubic(start_node);
    let ce = axial_to_cubic(end_node);
    let mut cubic_nodes: Vec<((i32, i32, i32), u32)> = Vec::new();
    let mut i: usize = 0;
    while i < nodes.len()
        invariant
            i <= nodes@.len(),
            cubic_nodes@.len() == i,
            forall|j: int| 0 <= j < nodes@.len() ==> axial_fits((#[trigger] nodes@[j]).0),
            forall|j: int|
                0 <= j < i ==> cub((#[trigger] cubic_nodes@[j]).0) == axial_cub(nodes@[j].0)
                    && cubic_nodes@[j] == (axial_key_cubic(nodes@[j].0), nodes@[j].1),
        decreases nodes@.len() - i,
    {
        let pair = nodes[i];
        let ck = axial_to_cubic(pair.0);
        cubic_nodes.push((ck, pair.1));
        i = i + 1;
    }
    proof {
        assert(cubic_nodes@ =~= axial_map_cubic(nodes@));
        assert(cub(cs) == axial_cub(start_node) && cs == axial_key_cubic(start_node));
        assert(ce == axial_key_cubic(end_node));
    }
    let r = search(cs, &cubic_nodes, ce, SearchBounds::Rings { count: count_rings });
    proof {
        crate::search::lemma_cost_has_is_map_has(cubic_nodes@, cs);
        crate::search::lemma_cost_has_is_map_has(cubic_nodes@, ce);
        lemma_axial_member_transfer(nodes@, cubic_nodes@, start_node, cs);
        lemma_axial_member_transfer(nodes@, cubic_nodes@, end_node, ce);
        if start_node == end_node {
            assert(cs == ce);
        }
        if cs == ce {
            lemma_axial_cub_injective(start_node, end_node);
        }
    }
    match r {
        Ok(cp) => {
            proof {
                assert forall|idx: int| 0 <= idx < cp@.len() implies cub(#[trigger] cp@[idx]).0
                    + cub(cp@[idx]).1 + cub(cp@[idx]).2 == 0 by {
                    crate::search::lemma_cost_has_is_map_has(cubic_nodes@, cp@[idx]);
                    let j = choose|j: int|
                        0 <= j < cubic_nodes@.len() && (#[trigger] cubic_nodes@[j]).0 == cp@[idx];
                    assert(cub(cp@[idx]) == axial_cub(nodes@[j].0));
                }
            }
            let mut out: Vec<(i32, i32)> = Vec::new();
            let mut t: usize = 0;
            while t < cp.len()
                invariant
                    t <= cp@.len(),
                    out@.len() == t,
                    forall|j: int|
                        0 <= j < t ==> (#[trigger] out@[j]).0 == cp@[j].0 && out@[j].1 == cp@[j].2,
                decreases cp@.len() - t,
            {
                let c = cp[t];
                out.push(cubic_to_axial(c));
                t = t + 1;
            }
            proof {
                assert forall|idx: int| 0 <= idx < out@.len() implies axial_cub(
                    #[trigger] out@[idx],
                ) == cub(cp@[idx]) by {}
                assert forall|idx: int| 0 <= idx < out@.len() implies map_has_key(
                    nodes@,
                    #[trigger] out@[idx],
                ) by {
                    crate::search::lemma_cost_has_is_map_has(cubic_nodes@, cp@[idx]);
                    lemma_axial_member_transfer(nodes@, cubic_nodes@, out@[idx], cp@[idx]);
                }
                assert(axial_cub(out@[0]) == cub(cs));
                lemma_axial_cub_injective(out@[0], start_node);
                assert(axial_cub(out@.last()) == cub(ce));
                lemma_axial_cub_injective(out@.last(), end_node);
                assert forall|idx: int| 0 <= idx < out@.len() implies axial_key_cubic(
                    #[trigger] out@[idx],
                ) == cp@[idx] by {
                    assert(cub(axial_key_cubic(out@[idx])) == axial_cub(out@[idx]));
                }
                assert(axial_seq_cubic(out@) =~= cp@);
                if start_node == end_node {
                    assert(out@ =~= seq![start_node]);
                }
                assert forall|qa: Seq<(i32, i32)>|
                    axial_path_ok(
                        qa,
                        start_node,
                        end_node,
                        nodes@,
                        count_rings as int,
                    ) implies axial_chain_cost(out@, nodes@) <= axial_chain_cost(qa, nodes@) by {
                    lemma_axial_walk_image(qa, start_node, end_node, nodes@, count_rings);
                    assert(chain_ok(
                        axial_seq_cubic(qa),
                        cs,
                        cubic_nodes@,
                        SearchBounds::Rings { count: count_rings },
                    ));
                    assert(chain_cost(cp@, cubic_nodes@) <= chain_cost(
                        axial_seq_cubic(qa),
                        cubic_nodes@,
                    ));
                    lemma_axial_chain_cost_transfer(out@, nodes@);
                    lemma_axial_chain_cost_transfer(qa, nodes@);
                }
            }
            Ok(out)
        },
        Err(e) => {
            proof {
                if e == PathError::Unreachable {
                    assert forall|qa: Seq<(i32, i32)>| !axial_path_ok(
                        qa,
                        start_node,
                        end_node,
                        nodes@,
                        count_rings as int,
                    ) by {
                        if axial_path_ok(qa, start_node, end_node, nodes@, count_rings as int) {
                            lemma_axial_walk_image(qa, start_node, end_node, nodes@, count_rings);
                            assert(chain_ok(
                                axial_seq_cubic(qa),
                                cs,
                                cubic_nodes@,
                                SearchBounds::Rings { count: count_rings },
                            ) && axial_seq_cubic(qa).last() == ce);
                        }
                    }
                }
            }
            Err(e)
        },
    }
}

} // verus!

//! Best-first pathfinding over an Offset-addressed hexagonal grid.
//!
//! Offset cells only carry geometric meaning together with an
//! orientation, which fixes the Offset <-> Cubic conversion and the
//! neighbour geometry. The search converts every cell to cubic space,
//! runs there with the rectangular window applied to the offset form of
//! each cell, and converts the resulting path back.

use vstd::prelude::*;

use crate::HexOrientation;
use crate::PathError;
use crate::helpers::cub;
use crate::helpers::cubic_adjacent_pts;
use crate::helpers::cubic_to_offset;
use crate::helpers::cubic_to_offset_spec;
use crate::helpers::in_rect_bounds;
use crate::helpers::lemma_cubic_offset_round_trip;
use crate::helpers::lemma_offset_cubic_round_trip;
use crate::helpers::off;
use crate::helpers::offset_to_cubic;
use crate::helpers::offset_to_cubic_spec;
use crate::search::SearchBounds;
use crate::search::chain_cost;
use crate::search::chain_ok;
use crate::search::map_has_key;
use crate::search::search;

verus! {

/// The cubic form of an offset cell, as mathematical integers.
pub open spec fn offset_cub(c: (i32, i32), o: HexOrientation) -> (int, int, int) {
    offset_to_cubic_spec(c.0 as int, c.1 as int, o)
}

/// Whether the cubic form of an offset cell stays representable.
pub open spec fn offset_fits(c: (i32, i32), o: HexOrientation) -> bool {
    let k = offset_cub(c, o);
    &&& i32::MIN <= k.0 <= i32::MAX
    &&& i32::MIN <= k.1 <= i32::MAX
    &&& i32::MIN <= k.2 <= i32::MAX
}

/// The cubic cell of an offset key, in machine integers; meaningful when
/// the key fits.
pub open spec fn offset_key_cubic(c: (i32, i32), o: HexOrientation) -> (i32, i32, i32) {
    let k = offset_cub(c, o);
    (k.0 as i32, k.1 as i32, k.2 as i32)
}

/// The cost map with every key in its cubic form.
pub open spec fn offset_map_cubic(m: Seq<((i32, i32), u32)>, o: HexOrientation) -> Seq<
    ((i32, i32, i32), u32),
> {
    m.map_values(|p: ((i32, i32), u32)| (offset_key_cubic(p.0, o), p.1))
}

/// A path of offset cells, in cubic form.
pub open spec fn offset_seq_cubic(p: Seq<(i32, i32)>, o: HexOrientation) -> Seq<(i32, i32, i32)> {
    p.map_values(|c: (i32, i32)| offset_key_cubic(c, o))
}

/// The cost stored for an offset key, searched from the front.
pub open spec fn offset_cost_of(m: Seq<((i32, i32), u32)>, c: (i32, i32)) -> Option<u32>
    decreases m.len(),
{
    if m.len() == 0 {
        None
    } else if m[0].0 == c {
        Some(m[0].1)
    } else {
        offset_cost_of(m.drop_first(), c)
    }
}

/// The cost stored for an offset key, as a mathematical integer; zero
/// when absent.
pub open spec fn offset_cost_val(m: Seq<((i32, i32), u32)>, c: (i32, i32)) -> int {
    match offset_cost_of(m, c) {
        Some(v) => v as int,
        None => 0,
    }
}

/// The doubled cost of walking an offset path: every boundary crossing
/// costs the cell left plus the cell entered.
pub open spec fn offset_chain_cost(q: Seq<(i32, i32)>, m: Seq<((i32, i32), u32)>) -> int
    decreases q.len(),
{
    if q.len() <= 1 {
        0
    } else {
        offset_chain_cost(q.drop_last(), m) + offset_cost_val(m, q[q.len() - 2]) + offset_cost_val(
            m,
            q.last(),
        )
    }
}

/// A well-formed offset path: it runs from `start` to `end`, every cell
/// is a key of the cost map and lies strictly inside the window, and
/// consecutive cells are adjacent in cubic space.
pub open spec fn offset_path_ok(
    p: Seq<(i32, i32)>,
    start: (i32, i32),
    end: (i32, i32),
    m: Seq<((i32, i32), u32)>,
    o: HexOrientation,
    min_column: int,
    max_column: int,
    min_row: int,
    max_row: int,
) -> bool {
    &&& p.len() >= 1
    &&& p[0] == start
    &&& p.last() == end
    &&& forall|i: int|
        0 <= i < p.len() ==> map_has_key(m, #[trigger] p[i]) && in_rect_bounds(
            off(p[i]),
            min_column,
            max_column,
            min_row,
            max_row,
        )
    &&& forall|i: int|
        0 <= i < p.len() - 1 ==> cubic_adjacent_pts(
            offset_cub(#[trigger] p[i], o),
            offset_cub(p[i + 1], o),
        )
}

/// Offset cells that agree in cubic space agree outright.
proof fn lemma_offset_cub_injective(a: (i32, i32), b: (i32, i32), o: HexOrientation)
    requires
        offset_cub(a, o) == offset_cub(b, o),
    ensures
        a == b,
{
    lemma_offset_cubic_round_trip(a.0 as int, a.1 as int, o);
    lemma_offset_cubic_round_trip(b.0 as int, b.1 as int, o);
}

/// Membership in the converted cost map mirrors membership in the offset
/// one.
proof fn lemma_offset_member_transfer(
    onodes: Seq<((i32, i32), u32)>,
    cnodes: Seq<((i32, i32, i32), u32)>,
    o: HexOrientation,
    a: (i32, i32),
    c: (i32, i32, i32),
)
    requires
        cnodes.len() == onodes.len(),
        forall|j: int|
            0 <= j < cnodes.len() ==> cub((#[trigger] cnodes[j]).0) == offset_cub(onodes[j].0, o),
        cub(c) == offset_cub(a, o),
    ensures
        map_has_key(cnodes, c) <==> map_has_key(onodes, a),
{
    if map_has_key(cnodes, c) {
        let j = choose|j: int| 0 <= j < cnodes.len() && (#[trigger] cnodes[j]).0 == c;
        assert(offset_cub(onodes[j].0, o) == offset_cub(a, o));
        lemma_offset_cub_injective(onodes[j].0, a, o);
    }
    if map_has_key(onodes, a) {
        let j = choose|j: int| 0 <= j < onodes.len() && (#[trigger] onodes[j]).0 == a;
        assert(cub(cnodes[j].0) == cub(c));
        assert(cnodes[j].0 == c);
    }
}

/// An offset key with a stored cost is a key of the map, and conversely.
proof fn lemma_offset_cost_has(m: Seq<((i32, i32), u32)>, c: (i32, i32))
    ensures
        (offset_cost_of(m, c) is Some) <==> map_has_key(m, c),
    decreases m.len(),
{
    if m.len() > 0 {
        if m[0].0 == c {
        } else {
            lemma_offset_cost_has(m.drop_first(), c);
            if offset_cost_of(m, c) is Some {
                let i = choose|i: int|
                    0 <= i < m.drop_first().len() && (#[trigger] m.drop_first()[i]).0 == c;
                assert(m[i + 1].0 == c);
            }
            if map_has_key(m, c) {
                let i = choose|i: int| 0 <= i < m.len() && (#[trigger] m[i]).0 == c;
                assert(m.drop_first()[i - 1].0 == c);
            }
        }
    }
}

/// Looking a key up in the cubic image of the map is looking it up in the
/// map; the keys must be representable, for the image to tell them apart.
proof fn lemma_offset_cost_transfer(
    m: Seq<((i32, i32), u32)>,
    o: HexOrientation,
    c: (i32, i32),
)
    requires
        forall|i: int| 0 <= i < m.len() ==> offset_fits((#[trigger] m[i]).0, o),
        offset_fits(c, o),
    ensures
        crate::search::cost_of(offset_map_cubic(m, o), offset_key_cubic(c, o)) == offset_cost_of(
            m,
            c,
        ),
    decreases m.len(),
{
    if m.len() > 0 {
        assert(offset_map_cubic(m, o)[0] == (offset_key_cubic(m[0].0, o), m[0].1));
        if offset_key_cubic(m[0].0, o) == offset_key_cubic(c, o) && m[0].0 != c {
            assert(cub(offset_key_cubic(m[0].0, o)) == offset_cub(m[0].0, o));
            assert(cub(offset_key_cubic(c, o)) == offset_cub(c, o));
            lemma_offset_cub_injective(m[0].0, c, o);
        }
        assert forall|i: int| 0 <= i < m.drop_first().len() implies offset_fits(
            (#[trigger] m.drop_first()[i]).0,
            o,
        ) by {
            assert(m.drop_first()[i] == m[i + 1]);
        }
        lemma_offset_cost_transfer(m.drop_first(), o, c);
        assert(offset_map_cubic(m, o).drop_first() =~= offset_map_cubic(m.drop_first(), o));
    }
}

/// The cost of an offset path equals the cost of its cubic image.
proof fn lemma_offset_chain_cost_transfer(
    q: Seq<(i32, i32)>,
    m: Seq<((i32, i32), u32)>,
    o: HexOrientation,
)
    requires
        forall|i: int| 0 <= i < m.len() ==> offset_fits((#[trigger] m[i]).0, o),
        forall|i: int| 0 <= i < q.len() ==> offset_fits(#[trigger] q[i], o),
    ensures
        chain_cost(offset_seq_cubic(q, o), offset_map_cubic(m, o)) == offset_chain_cost(q, m),
    decreases q.len(),
{
    if q.len() > 1 {
        assert forall|i: int| 0 <= i < q.drop_last().len() implies offset_fits(
            #[trigger] q.drop_last()[i],
            o,
        ) by {
            assert(q.drop_last()[i] == q[i]);
        }
        lemma_offset_chain_cost_transfer(q.drop_last(), m, o);
        assert(offset_seq_cubic(q, o).drop_last() =~= offset_seq_cubic(q.drop_last(), o));
        lemma_offset_cost_transfer(m, o, q[q.len() - 2]);
        lemma_offset_cost_transfer(m, o, q.last());
        assert(offset_seq_cubic(q, o)[q.len() - 2] == offset_key_cubic(q[q.len() - 2], o));
        assert(offset_seq_cubic(q, o).last() == offset_key_cubic(q.last(), o));
    }
}

/// A well-formed offset path's cubic image is a well-formed cubic path
/// through the cubic image of the map.
proof fn lemma_offset_walk_image(
    q: Seq<(i32, i32)>,
    start: (i32, i32),
    end: (i32, i32),
    m: Seq<((i32, i32), u32)>,
    o: HexOrientation,
    min_column: i32,
    max_column: i32,
    min_row: i32,
    max_row: i32,
)
    requires
        offset_path_ok(
            q,
            start,
            end,
            m,
            o,
            min_column as int,
            max_column as int,
            min_row as int,
            max_row as int,
        ),
        forall|i: int| 0 <= i < m.len() ==> offset_fits((#[trigger] m[i]).0, o),
    ensures
        chain_ok(
            offset_seq_cubic(q, o),
            offset_key_cubic(start, o),
            offset_map_cubic(m, o),
            SearchBounds::Rect { orientation: o, min_column, max_column, min_row, max_row },
        ),
        offset_seq_cubic(q, o).last() == offset_key_cubic(end, o),
        forall|i: int| 0 <= i < q.len() ==> offset_fits(#[trigger] q[i], o),
{
    let qi = offset_seq_cubic(q, o);
    let b = SearchBounds::Rect { orientation: o, min_column, max_column, min_row, max_row };
    assert forall|i: int| 0 <= i < q.len() implies offset_fits(#[trigger] q[i], o) && cub(
        offset_key_cubic(q[i], o),
    ) == offset_cub(q[i], o) by {
        let j = choose|j: int| 0 <= j < m.len() && (#[trigger] m[j]).0 == q[i];
        assert(offset_fits(m[j].0, o));
    }
    assert forall|i: int| 0 <= i < qi.len() implies crate::search::cost_has(
        offset_map_cubic(m, o),
        #[trigger] qi[i],
    ) && crate::search::sb_contains(b, qi[i]) by {
        assert(qi[i] == offset_key_cubic(q[i], o));
        lemma_offset_cost_transfer(m, o, q[i]);
        lemma_offset_cost_has(m, q[i]);
        lemma_offset_cubic_round_trip(q[i].0 as int, q[i].1 as int, o);
    }
    assert forall|i: int| 0 <= i < qi.len() - 1 implies crate::search::cubic_adjacent(
        #[trigger] qi[i],
        qi[i + 1],
    ) by {
        assert(cubic_adjacent_pts(offset_cub(q[i], o), offset_cub(q[i + 1], o)));
    }
}

/// From a starting node calculate the most efficient path to the end
/// node.
///
/// The cost map pairs each offset cell `(column, row)` with the
/// complexity of traversing it; a discovered neighbour missing from the
/// map is treated as untraversable. The window `min_column`,
/// `max_column`, `min_row`, `max_row` bounds the grid with exclusive
/// comparisons, and `orientation` fixes the layout.
///
/// The call fails with `MissingNode` exactly when the start or the end
/// cell is not a key of the cost map, with `OutOfBounds` exactly when
/// both are keys but one lies outside the window, and with `Unreachable`
/// exactly when no well-formed path reaches the goal, and a returned path
/// is cost-minimal: no well-formed path to the goal costs less.
pub fn astar_path(
    start_node: (i32, i32),
    nodes: Vec<((i32, i32), u32)>,
    end_node: (i32, i32),
    min_column: i32,
    max_column: i32,
    min_row: i32,
    max_row: i32,
    orientation: HexOrientation,
) -> (r: Result<Vec<(i32, i32)>, PathError>)
    requires
        offset_fits(start_node, orientation),
        offset_fits(end_node, orientation),
        forall|i: int| 0 <= i < nodes@.len() ==> offset_fits((#[trigger] nodes@[i]).0, orientation),
    ensures
        r matches Err(PathError::MissingNode) <==> !(map_has_key(nodes@, start_node)
            && map_has_key(nodes@, end_node)),
        r matches Err(PathError::OutOfBounds) <==> map_has_key(nodes@, start_node) && map_has_key(
            nodes@,
            end_node,
        ) && !(in_rect_bounds(
            off(start_node),
            min_column as int,
            max_column as int,
            min_row as int,
            max_row as int,
        ) && in_rect_bounds(
            off(end_node),
            min_column as int,
            max_column as int,
            min_row as int,
            max_row as int,
        )),
        r matches Ok(p) ==> offset_path_ok(
            p@,
            start_node,
            end_node,
            nodes@,
            orientation,
            min_column as int,
            max_column as int,
            min_row as int,
            max_row as int,
        ),
        r matches Ok(p) ==> forall|qa: Seq<(i32, i32)>|
            offset_path_ok(
                qa,
                start_node,
                end_node,
                nodes@,
                orientation,
                min_column as int,
                max_column as int,
                min_row as int,
                max_row as int,
            ) ==> offset_chain_cost(p@, nodes@) <= offset_chain_cost(qa, nodes@),
        r matches Err(PathError::Unreachable) ==> forall|qa: Seq<(i32, i32)>|
            !offset_path_ok(
                qa,
                start_node,
                end_node,
                nodes@,
                orientation,
                min_column as int,
                max_column as int,
                min_row as int,
                max_row as int,
            ),
        map_has_key(nodes@, start_node) && map_has_key(nodes@, end_node) && in_rect_bounds(
            off(start_node),
            min_column as int,
            max_column as int,
            min_row as int,
            max_row as int,
        ) && in_rect_bounds(
            off(end_node),
            min_column as int,
            max_column as int,
            min_row as int,
            max_row as int,
        ) && start_node == end_node ==> (r matches Ok(p) && p@ == seq![start_node]),
        r matches Err(PathError::Unreachable) ==> map_has_key(nodes@, start_node) && map_has_key(
            nodes@,
            end_node,
        ) && start_node != end_node,
{
    let cs = offset_to_cubic(start_node, &orientation);
    let ce = offset_to_cubic(end_node, &orientation);
    let mut cubic_nodes: Vec<((i32, i32, i32), u32)> = Vec::new();
    let mut i: usize = 0;
    while i < nodes.len()
        invariant
            i <= nodes@.len(),
            cubic_nodes@.len() == i,
            forall|j: int|
                0 <= j < nodes@.len() ==> offset_fits((#[trigger] nodes@[j]).0, orientation),
            forall|j: int|
                0 <= j < i ==> cub((#[trigger] cubic_nodes@[j]).0) == offset_cub(
                    nodes@[j].0,
                    orientation,
                ) && cubic_nodes@[j] == (offset_key_cubic(nodes@[j].0, orientation), nodes@[j].1),
        decreases nodes@.len() - i,
    {
        let pair = nodes[i];
        let ck = offset_to_cubic(pair.0, &orientation);
        cubic_nodes.push((ck, pair.1));
        i = i + 1;
    }
    let bounds = SearchBounds::Rect {
        orientation,
        min_column,
        max_column,
        min_row,
        max_row,
    };
    proof {
        assert(cubic_nodes@ =~= offset_map_cubic(nodes@, orientation));
        assert(cs == offset_key_cubic(start_node, orientation));
        assert(ce == offset_key_cubic(end_node, orientation));
    }
    let r = search(cs, &cubic_nodes, ce, bounds);
    proof {
        crate::search::lemma_cost_has_is_map_has(cubic_nodes@, cs);
        crate::search::lemma_cost_has_is_map_has(cubic_nodes@, ce);
        lemma_offset_member_transfer(nodes@, cubic_nodes@, orientation, start_node, cs);
        lemma_offset_member_transfer(nodes@, cubic_nodes@, orientation, end_node, ce);
        lemma_offset_cubic_round_trip(start_node.0 as int, start_node.1 as int, orientation);
        lemma_offset_cubic_round_trip(end_node.0 as int, end_node.1 as int, orientation);
        if cs == ce {
            lemma_offset_cub_injective(start_node, end_node, orientation);
        }
    }
    match r {
        Ok(cp) => {
            proof {
                assert forall|idx: int| 0 <= idx < cp@.len() implies {
                    let w = cubic_to_offset_spec(
                        cub(#[trigger] cp@[idx]).0,
                        cub(cp@[idx]).1,
                        cub(cp@[idx]).2,
                        orientation,
                    );
                    exists|j: int|
                        0 <= j < nodes@.len() && off((#[trigger] nodes@[j]).0) == w && cub(
                            cp@[idx],
                        ) == offset_cub(nodes@[j].0, orientation)
                } by {
                    crate::search::lemma_cost_has_is_map_has(cubic_nodes@, cp@[idx]);
                    let j = choose|j: int|
                        0 <= j < cubic_nodes@.len() && (#[trigger] cubic_nodes@[j]).0 == cp@[idx];
                    lemma_offset_cubic_round_trip(
                        nodes@[j].0.0 as int,
                        nodes@[j].0.1 as int,
                        orientation,
                    );
                    assert(0 <= j < nodes@.len() && off((nodes@[j]).0) == cubic_to_offset_spec(
                        cub(cp@[idx]).0,
                        cub(cp@[idx]).1,
                        cub(cp@[idx]).2,
                        orientation,
                    ) && cub(cp@[idx]) == offset_cub(nodes@[j].0, orientation));
                }
            }
            let mut out: Vec<(i32, i32)> = Vec::new();
            let mut t: usize = 0;
            while t < cp.len()
                invariant
                    t <= cp@.len(),
                    out@.len() == t,
                    forall|idx: int|
                        0 <= idx < cp@.len() ==> exists|j: int|
                            0 <= j < nodes@.len() && off((#[trigger] nodes@[j]).0)
                                == cubic_to_offset_spec(
                                cub(#[trigger] cp@[idx]).0,
                                cub(cp@[idx]).1,
                                cub(cp@[idx]).2,
                                orientation,
                            ) && cub(cp@[idx]) == offset_cub(nodes@[j].0, orientation),
                    forall|j: int|
                        0 <= j < t ==> off(#[trigger] out@[j]) == cubic_to_offset_spec(
                            cub(cp@[j]).0,
                            cub(cp@[j]).1,
                            cub(cp@[j]).2,
                            orientation,
                        ),
                decreases cp@.len() - t,
            {
                let c = cp[t];
                let back = cubic_to_offset(c, &orientation);
                out.push(back);
                t = t + 1;
            }
            proof {
                assert forall|idx: int| 0 <= idx < out@.len() implies map_has_key(
                    nodes@,
                    #[trigger] out@[idx],
                ) && offset_cub(out@[idx], orientation) == cub(cp@[idx]) by {
                    let j = choose|j: int|
                        0 <= j < nodes@.len() && off((#[trigger] nodes@[j]).0)
                            == cubic_to_offset_spec(
                            cub(cp@[idx]).0,
                            cub(cp@[idx]).1,
                            cub(cp@[idx]).2,
                            orientation,
                        ) && cub(cp@[idx]) == offset_cub(nodes@[j].0, orientation);
                    assert(off(nodes@[j].0) == off(out@[idx]));
                    assert(nodes@[j].0 == out@[idx]);
                }
                assert(offset_cub(out@[0], orientation) == cub(cs));
                lemma_offset_cub_injective(out@[0], start_node, orientation);
                assert(offset_cub(out@.last(), orientation) == cub(ce));
                lemma_offset_cub_injective(out@.last(), end_node, orientation);
                assert forall|idx: int| 0 <= idx < out@.len() implies offset_key_cubic(
                    #[trigger] out@[idx],
                    orientation,
                ) == cp@[idx] by {
                    assert(cub(offset_key_cubic(out@[idx], orientation)) == offset_cub(
                        out@[idx],
                        orientation,
                    ));
                }
                assert(offset_seq_cubic(out@, orientation) =~= cp@);
                if start_node == end_node {
                    assert(out@ =~= seq![start_node]);
                }
                assert forall|qa: Seq<(i32, i32)>|
                    offset_path_ok(
                        qa,
                        start_node,
                        end_node,
                        nodes@,
                        orientation,
                        min_column as int,
                        max_column as int,
                        min_row as int,
                        max_row as int,
                    ) implies offset_chain_cost(out@, nodes@) <= offset_chain_cost(
                    qa,
                    nodes@,
                ) by {
                    lemma_offset_walk_image(
                        qa,
                        start_node,
                        end_node,
                        nodes@,
                        orientation,
                        min_column,
                        max_column,
                        min_row,
                        max_row,
                    );
                    assert(chain_cost(cp@, cubic_nodes@) <= chain_cost(
                        offset_seq_cubic(qa, orientation),
                        cubic_nodes@,
                    ));
                    assert forall|i: int| 0 <= i < out@.len() implies offset_fits(
                        #[trigger] out@[i],
                        orientation,
                    ) by {
                        let j = choose|j: int|
                            0 <= j < nodes@.len() && (#[trigger] nodes@[j]).0 == out@[i];
                        assert(offset_fits(nodes@[j].0, orientation));
                    }
                    lemma_offset_chain_cost_transfer(out@, nodes@, orientation);
                    lemma_offset_chain_cost_transfer(qa, nodes@, orientation);
                }
            }
            Ok(out)
        },
        Err(e) => {
            proof {
                if e == PathError::Unreachable {
                    assert forall|qa: Seq<(i32, i32)>| !offset_path_ok(
                        qa,
                        start_node,
                        end_node,
                        nodes@,
                        orientation,
                        min_column as int,
                        max_column as int,
                        min_row as int,
                        max_row as int,
                    ) by {
                        if offset_path_ok(
                            qa,
                            start_node,
                            end_node,
                            nodes@,
                            orientation,
                            min_column as int,
                            max_column as int,
                            min_row as int,
                            max_row as int,
                        ) {
                            lemma_offset_walk_image(
                                qa,
                                start_node,
                                end_node,
                                nodes@,
                                orientation,
                                min_column,
                                max_column,
                                min_row,
                                max_row,
                            );
                            assert(chain_ok(
                                offset_seq_cubic(qa, orientation),
                                cs,
                                cubic_nodes@,
                                SearchBounds::Rect {
                                    orientation,
                                    min_column,
                                    max_column,
                                    min_row,
                                    max_row,
                                },
                            ) && offset_seq_cubic(qa, orientation).last() == ce);
                        }
                    }
                }
            }
            Err(e)
        },
    }
}

} // verus!

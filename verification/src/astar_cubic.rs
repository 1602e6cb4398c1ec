//! Best-first pathfinding over a Cubic-addressed hexagonal grid.
//!
//! The grid is a circular arrangement of rings around the origin
//! `(0, 0, 0)`; `count_rings` bounds it inclusively, so no cell of a path
//! may carry an axis magnitude larger than the ring count.

use vstd::prelude::*;

use crate::PathError;
use crate::search::SearchBounds;
use crate::search::chain_ok;
use crate::search::map_has_key;
use crate::search::search;

verus! {

/// From a starting node calculate the most efficient path to the end
/// node.
///
/// The cost map pairs each cubic cell `(x, y, z)` with the complexity of
/// traversing it; a discovered neighbour missing from the map is treated
/// as untraversable. `count_rings` is the number of rings around the
/// origin of the circular grid, inclusive.
///
/// The call fails with `MissingNode` exactly when the start or the end
/// cell is not a key of the cost map, with `OutOfBounds` exactly when
/// both are keys but one lies outside the ring bounds, and with
/// `Unreachable` exactly when no well-formed path reaches the goal. A
/// returned path starts at `start_node`, ends at `end_node`, moves
/// between adjacent cells only, never leaves the cost map or the ring
/// bounds, and no well-formed path to the goal costs less.
pub fn astar_path(
    start_node: (i32, i32, i32),
    nodes: Vec<((i32, i32, i32), u32)>,
    end_node: (i32, i32, i32),
    count_rings: i32,
) -> (r: Result<Vec<(i32, i32, i32)>, PathError>)
    ensures
        r matches Err(PathError::MissingNode) <==> !(map_has_key(nodes@, start_node)
            && map_has_key(nodes@, end_node)),
        r matches Err(PathError::OutOfBounds) <==> map_has_key(nodes@, start_node) && map_has_key(
            nodes@,
            end_node,
        ) && !(crate::helpers::in_ring_bounds(crate::helpers::cub(start_node), count_rings as int)
            && crate::helpers::in_ring_bounds(
            crate::helpers::cub(end_node),
            count_rings as int,
        )),
        r matches Ok(p) ==> chain_ok(
            p@,
            start_node,
            nodes@,
            SearchBounds::Rings { count: count_rings },
        ) && p@.last() == end_node,
        r matches Ok(p) ==> forall|q: Seq<(i32, i32, i32)>|
            chain_ok(q, start_node, nodes@, SearchBounds::Rings { count: count_rings })
                && q.last() == end_node ==> crate::search::chain_cost(p@, nodes@)
                <= crate::search::chain_cost(q, nodes@),
        r matches Err(PathError::Unreachable) ==> forall|q: Seq<(i32, i32, i32)>|
            !(chain_ok(q, start_node, nodes@, SearchBounds::Rings { count: count_rings })
                && q.last() == end_node),
        map_has_key(nodes@, start_node) && map_has_key(nodes@, end_node)
            && crate::helpers::in_ring_bounds(crate::helpers::cub(start_node), count_rings as int)
            && crate::helpers::in_ring_bounds(crate::helpers::cub(end_node), count_rings as int)
            && start_node == end_node ==> (r matches Ok(p) && p@ == seq![start_node]),
        r matches Err(PathError::Unreachable) ==> map_has_key(nodes@, start_node) && map_has_key(
            nodes@,
            end_node,
        ) && start_node != end_node,
{
    let r = search(start_node, &nodes, end_node, SearchBounds::Rings { count: count_rings });
    proof {
        crate::search::lemma_cost_has_is_map_has(nodes@, start_node);
        crate::search::lemma_cost_has_is_map_has(nodes@, end_node);
    }
    r
}

} // verus!

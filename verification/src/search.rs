//! The best-first search engine shared by the four coordinate systems.
//!
//! The engine works in cubic space: callers convert their start, goal and
//! cost-map keys to cubic coordinates, run the search, and convert the
//! resulting path back. A search space is either a ring count around the
//! origin or an exclusive rectangular window on the offset form of each
//! cell.
//!
//! Scores are kept doubled so that the half-cost convention — crossing a
//! cell boundary costs half the cost of the cell on each side — stays in
//! exact integer arithmetic: the accumulated score of a path grows by the
//! full cost of the cell left plus the full cost of the cell entered, and
//! the heuristic summand is twice the hex distance to the goal.
//!
//! Two halves make up a search. The frontier loop is the best-first
//! search proper; it decides which least-cost path comes back, down to
//! the tie-break order its stable sort induces. The reference table is a
//! relaxation run to fixpoint; it proves what the frontier cannot: its
//! records bound every well-formed path from below, so the path finally
//! returned is of least cost, and `Unreachable` is answered only when no
//! well-formed path reaches the goal at all.

use vstd::prelude::*;

use crate::HexOrientation;
use crate::PathError;
use crate::helpers::cub;
use crate::helpers::cubic_dir;
use crate::helpers::cubic_distance_spec;
use crate::helpers::cubic_step;
use crate::helpers::cubic_to_offset_spec;
use crate::helpers::half_down;
use crate::helpers::half_up;
use crate::helpers::in_rect_bounds;
use crate::helpers::in_ring_bounds;
use vstd::pervasive::VecAdditionalExecFns;

verus! {

/// The search space a path may not leave: a ring count around the origin
/// (inclusive), or an exclusive rectangular column/row window applied to
/// the offset form of each cubic cell.
pub enum SearchBounds {
    Rings { count: i32 },
    Rect {
        orientation: HexOrientation,
        min_column: i32,
        max_column: i32,
        min_row: i32,
        max_row: i32,
    },
}

/// Whether a cubic cell lies inside the search space.
pub open spec fn sb_contains(b: SearchBounds, c: (i32, i32, i32)) -> bool {
    match b {
        SearchBounds::Rings { count } => in_ring_bounds(cub(c), count as int),
        SearchBounds::Rect { orientation, min_column, max_column, min_row, max_row } => {
            in_rect_bounds(
                cubic_to_offset_spec(c.0 as int, c.1 as int, c.2 as int, orientation),
                min_column as int,
                max_column as int,
                min_row as int,
                max_row as int,
            )
        },
    }
}

/// Two cubic cells are adjacent when one unit direction leads from the
/// first to the second.
pub open spec fn cubic_adjacent(a: (i32, i32, i32), b: (i32, i32, i32)) -> bool {
    crate::helpers::cubic_adjacent_pts(cub(a), cub(b))
}

/// The cost stored for key `c` in an association list, searched from the
/// front.
pub open spec fn cost_of(m: Seq<((i32, i32, i32), u32)>, c: (i32, i32, i32)) -> Option<u32>
    decreases m.len(),
{
    if m.len() == 0 {
        None
    } else if m[0].0 == c {
        Some(m[0].1)
    } else {
        cost_of(m.drop_first(), c)
    }
}

/// Whether an association list holds key `c`.
pub open spec fn cost_has(m: Seq<((i32, i32, i32), u32)>, c: (i32, i32, i32)) -> bool {
    cost_of(m, c) is Some
}

/// Whether an association list holds key `k`, whatever its position.
pub open spec fn map_has_key<K, V>(m: Seq<(K, V)>, k: K) -> bool {
    exists|i: int| 0 <= i < m.len() && (#[trigger] m[i]).0 == k
}

/// Holding a key and storing a cost for it are the same thing.
pub proof fn lemma_cost_has_is_map_has(m: Seq<((i32, i32, i32), u32)>, c: (i32, i32, i32))
    ensures
        cost_has(m, c) <==> map_has_key(m, c),
    decreases m.len(),
{
    if m.len() > 0 {
        if m[0].0 == c {
        } else {
            lemma_cost_has_is_map_has(m.drop_first(), c);
            if cost_has(m, c) {
                let i = choose|i: int|
                    0 <= i < m.drop_first().len() && (#[trigger] m.drop_first()[i]).0 == c;
                assert(m[i + 1].0 == c);
            }
            if map_has_key(m, c) {
                let i = choose|i: int| 0 <= i < m.len() && (#[trigger] m[i]).0 == c;
                assert(m.drop_first()[i - 1].0 == c);
            }
        }
    }
}

/// A well-formed path through the search space: it starts at `start`,
/// every cell is a key of the cost map and lies inside the bounds, and
/// consecutive cells are adjacent.
pub open spec fn chain_ok(
    ch: Seq<(i32, i32, i32)>,
    start: (i32, i32, i32),
    m: Seq<((i32, i32, i32), u32)>,
    b: SearchBounds,
) -> bool {
    &&& ch.len() >= 1
    &&& ch[0] == start
    &&& forall|i: int| 0 <= i < ch.len() ==> cost_has(m, #[trigger] ch[i]) && sb_contains(b, ch[i])
    &&& forall|i: int| 0 <= i < ch.len() - 1 ==> cubic_adjacent(#[trigger] ch[i], ch[i + 1])
}

/// A frontier entry: a cell, the doubled score that ranks it, the cells
/// walked before reaching it, and the doubled cost accumulated so far.
pub(crate) struct Entry {
    pub coord: (i32, i32, i32),
    pub score: u64,
    pub path: Vec<(i32, i32, i32)>,
    pub g: u64,
}

/// The walk an entry stands for: its recorded cells with its own cell
/// appended.
pub(crate) open spec fn entry_chain(e: Entry) -> Seq<(i32, i32, i32)> {
    e.path@.push(e.coord)
}

/// A frontier entry is well formed when its walk is.
pub(crate) open spec fn entry_ok(
    e: Entry,
    start: (i32, i32, i32),
    m: Seq<((i32, i32, i32), u32)>,
    b: SearchBounds,
) -> bool {
    chain_ok(entry_chain(e), start, m, b)
}

/// A well-formed walk extended by an adjacent in-map, in-bounds cell is
/// still well formed.
proof fn lemma_chain_push(
    ch: Seq<(i32, i32, i32)>,
    start: (i32, i32, i32),
    m: Seq<((i32, i32, i32), u32)>,
    b: SearchBounds,
    n: (i32, i32, i32),
)
    requires
        chain_ok(ch, start, m, b),
        cost_has(m, n),
        sb_contains(b, n),
        cubic_adjacent(ch.last(), n),
    ensures
        chain_ok(ch.push(n), start, m, b),
{
    let ch2 = ch.push(n);
    assert forall|i: int| 0 <= i < ch2.len() - 1 implies cubic_adjacent(
        #[trigger] ch2[i],
        ch2[i + 1],
    ) by {
        if i < ch.len() - 1 {
            assert(cubic_adjacent(ch[i], ch[i + 1]));
        } else {
            assert(ch2[i] == ch.last());
        }
    }
}

/// Looks a key up in a cost map, returning the first value stored for it.
pub(crate) fn cost_get(nodes: &Vec<((i32, i32, i32), u32)>, c: (i32, i32, i32)) -> (r: Option<
    u32,
>)
    ensures
        r == cost_of(nodes@, c),
{
    let mut i: usize = 0;
    proof {
        assert(nodes@.skip(0) =~= nodes@);
    }
    while i < nodes.len()
        invariant
            i <= nodes@.len(),
            cost_of(nodes@, c) == cost_of(nodes@.skip(i as int), c),
        decreases nodes@.len() - i,
    {
        let pair = &nodes[i];
        if pair.0.0 == c.0 && pair.0.1 == c.1 && pair.0.2 == c.2 {
            proof {
                assert(nodes@.skip(i as int)[0] == nodes@[i as int]);
                assert(nodes@[i as int].0 == c);
            }
            return Some(pair.1);
        }
        proof {
            assert(nodes@.skip(i as int).drop_first() =~= nodes@.skip(i as int + 1));
            assert(nodes@.skip(i as int)[0] == nodes@[i as int]);
        }
        i = i + 1;
    }
    proof {
        assert(nodes@.skip(i as int).len() == 0);
    }
    None
}

/// Looks a cell up in the best-known-score table.
pub(crate) fn score_get(scores: &Vec<((i32, i32, i32), u64)>, c: (i32, i32, i32)) -> (r: Option<
    u64,
>) {
    let mut i: usize = 0;
    while i < scores.len()
        invariant
            i <= scores@.len(),
        decreases scores@.len() - i,
    {
        let pair = &scores[i];
        if pair.0.0 == c.0 && pair.0.1 == c.1 && pair.0.2 == c.2 {
            return Some(pair.1);
        }
        i = i + 1;
    }
    None
}

/// Records a best-known score for a cell, replacing an earlier record.
pub(crate) fn score_set(scores: &mut Vec<((i32, i32, i32), u64)>, c: (i32, i32, i32), v: u64) {
    let mut i: usize = 0;
    while i < scores.len()
        invariant
            i <= scores@.len(),
        decreases scores@.len() - i,
    {
        let pair = &scores[i];
        if pair.0.0 == c.0 && pair.0.1 == c.1 && pair.0.2 == c.2 {
            scores.set(i, (c, v));
            return ;
        }
        i = i + 1;
    }
    scores.push((c, v));
}

/// Copies a path of cells.
pub(crate) fn copy_path(p: &Vec<(i32, i32, i32)>) -> (r: Vec<(i32, i32, i32)>)
    ensures
        r@ == p@,
{
    let mut out: Vec<(i32, i32, i32)> = Vec::new();
    let mut i: usize = 0;
    while i < p.len()
        invariant
            i <= p@.len(),
            out@ =~= p@.take(i as int),
        decreases p@.len() - i,
    {
        let c = p[i];
        out.push(c);
        i = i + 1;
    }
    proof {
        assert(out@ =~= p@);
    }
    out
}

/// Addition that stops at the largest representable score instead of
/// wrapping.
pub(crate) fn sat_add(a: u64, b: u64) -> (r: u64)
    ensures
        r == if a + b <= u64::MAX {
            a + b
        } else {
            u64::MAX as int
        },
{
    if b <= u64::MAX - a {
        a + b
    } else {
        u64::MAX
    }
}

/// Twice the hex distance from `c` to `end`: the doubled heuristic
/// summand of a score.
pub(crate) fn heur2(c: (i32, i32, i32), end: (i32, i32, i32)) -> (r: u64)
    ensures
        r == 2 * cubic_distance_spec(cub(c), cub(end)),
{
    let dx: i64 = c.0 as i64 - end.0 as i64;
    let dy: i64 = c.1 as i64 - end.1 as i64;
    let dz: i64 = c.2 as i64 - end.2 as i64;
    let ax: i64 = if dx < 0 {
        -dx
    } else {
        dx
    };
    let ay: i64 = if dy < 0 {
        -dy
    } else {
        dy
    };
    let az: i64 = if dz < 0 {
        -dz
    } else {
        dz
    };
    (2 * ((ax + ay + az) / 2)) as u64
}

/// Whether a cubic cell lies inside the search space.
pub(crate) fn sb_check(b: &SearchBounds, c: (i32, i32, i32)) -> (r: bool)
    ensures
        r == sb_contains(*b, c),
{
    match b {
        SearchBounds::Rings { count } => {
            let rl: i64 = *count as i64;
            let x: i64 = c.0 as i64;
            let y: i64 = c.1 as i64;
            let z: i64 = c.2 as i64;
            -rl <= x && x <= rl && -rl <= y && y <= rl && -rl <= z && z <= rl
        },
        SearchBounds::Rect { orientation, min_column, max_column, min_row, max_row } => {
            let (col, row): (i64, i64) = match orientation {
                HexOrientation::FlatTopOddUp => (c.0 as i64, c.2 as i64 + half_down(c.0)),
                HexOrientation::FlatTopOddDown => (c.0 as i64, c.2 as i64 + half_up(c.0)),
                HexOrientation::PointyTopOddRight => (c.0 as i64 + half_down(c.2), c.2 as i64),
                HexOrientation::PointyTopOddLeft => (c.0 as i64 + half_up(c.2), c.2 as i64),
            };
            (*min_column as i64) < col && col < (*max_column as i64) && (*min_row as i64) < row
                && row < (*max_row as i64)
        },
    }
}

/// The test for one score, named so that per-score subsequences can be
/// quantified over.
pub(crate) open spec fn has_score(s: u64) -> spec_fn(Entry) -> bool {
    |e: Entry| e.score == s
}

/// A sequence none of whose elements pass the test filters to nothing.
proof fn lemma_filter_none(s: Seq<Entry>, pred: spec_fn(Entry) -> bool)
    requires
        forall|i: int| 0 <= i < s.len() ==> !pred(#[trigger] s[i]),
    ensures
        s.filter(pred) == Seq::<Entry>::empty(),
    decreases s.len(),
{
    reveal(Seq::filter);
    if s.len() > 0 {
        lemma_filter_none(s.drop_last(), pred);
    }
}

/// Filtering a one-element sequence keeps or drops that element.
proof fn lemma_filter_single(x: Entry, pred: spec_fn(Entry) -> bool)
    ensures
        seq![x].filter(pred) == if pred(x) {
            seq![x]
        } else {
            Seq::<Entry>::empty()
        },
{
    reveal(Seq::filter);
    assert(seq![x].drop_last() =~= Seq::<Entry>::empty());
    assert(Seq::<Entry>::empty().filter(pred) =~= Seq::<Entry>::empty());
    if pred(x) {
        assert(seq![x].filter(pred) =~= seq![x]);
    }
}

/// Sorts the frontier by score, ascending and stable. The contract pins
/// the result completely: it is sorted, and for every score the
/// subsequence of entries carrying that score is exactly what it was, so
/// entries with equal scores keep their discovery order and nothing is
/// added or lost.
pub(crate) fn sort_queue(queue: &mut Vec<Entry>)
    ensures
        final(queue)@.len() == old(queue)@.len(),
        forall|j: int|
            0 <= j < final(queue)@.len() ==> old(queue)@.contains(#[trigger] final(queue)@[j]),
        forall|a: int, b: int|
            0 <= a <= b < final(queue)@.len() ==> final(queue)@[a].score
                <= final(queue)@[b].score,
        forall|s: u64|
            #[trigger] final(queue)@.filter(has_score(s)) == old(queue)@.filter(has_score(s)),
{
    let mut i: usize = 1;
    while i < queue.len()
        invariant
            queue@.len() == old(queue)@.len(),
            i >= 1,
            forall|j: int| 0 <= j < queue@.len() ==> old(queue)@.contains(#[trigger] queue@[j]),
            forall|a: int, b: int| 0 <= a <= b < i && b < queue@.len() ==> queue@[a].score
                <= queue@[b].score,
            forall|s: u64|
                #[trigger] queue@.filter(has_score(s)) == old(queue)@.filter(
                    has_score(s),
                ),
        decreases queue@.len() - i,
    {
        let si: u64 = queue[i].score;
        let mut pos: usize = 0;
        while pos < i && queue[pos].score <= si
            invariant
                pos <= i < queue@.len(),
                forall|k: int| 0 <= k < pos ==> queue@[k].score <= si,
            decreases i - pos,
        {
            pos = pos + 1;
        }
        if pos < i {
            let ghost prev: Seq<Entry> = queue@;
            let ghost x: Entry = queue@[i as int];
            proof {
                assert(prev[pos as int].score > si);
                assert forall|k: int| pos <= k < i implies prev[k].score > si by {
                    assert(prev[pos as int].score <= prev[k].score);
                }
            }
            let e = queue.remove(i);
            queue.insert(pos, e);
            proof {
                lemma_sort_move(prev, old(queue)@, queue@, pos as int, i as int);
            }
        }
        i = i + 1;
    }
}

/// Moving an entry leftwards over strictly greater scores keeps every
/// per-score subsequence, keeps membership, and sorts the prefix one
/// place further.
proof fn lemma_sort_move(prev: Seq<Entry>, orig: Seq<Entry>, now: Seq<Entry>, pos: int, i: int)
    requires
        0 <= pos < i < prev.len(),
        now == prev.remove(i).insert(pos, prev[i]),
        forall|k: int| pos <= k < i ==> prev[k].score > prev[i].score,
        forall|k: int| 0 <= k < pos ==> prev[k].score <= prev[i].score,
        forall|a: int, b: int| 0 <= a <= b < i && b < prev.len() ==> prev[a].score <= prev[b].score,
        forall|j: int| 0 <= j < prev.len() ==> orig.contains(#[trigger] prev[j]),
        forall|s: u64|
            #[trigger] prev.filter(has_score(s)) == orig.filter(has_score(s)),
    ensures
        now.len() == prev.len(),
        forall|j: int| 0 <= j < now.len() ==> orig.contains(#[trigger] now[j]),
        forall|a: int, b: int| 0 <= a <= b < i + 1 && b < now.len() ==> now[a].score
            <= now[b].score,
        forall|s: u64|
            #[trigger] now.filter(has_score(s)) == orig.filter(has_score(s)),
{
    let x = prev[i];
    let fa = prev.take(pos);
    let fb = prev.subrange(pos, i);
    let fc = prev.skip(i + 1);
    assert(prev =~= fa + fb + seq![x] + fc);
    assert(now =~= fa + seq![x] + fb + fc);
    assert forall|j: int| 0 <= j < now.len() implies orig.contains(#[trigger] now[j]) by {
        if j < pos {
            assert(now[j] == prev[j]);
        } else if j == pos {
            assert(now[j] == prev[i]);
        } else if j <= i {
            assert(now[j] == prev[j - 1]);
        } else {
            assert(now[j] == prev[j]);
        }
    }
    assert forall|a: int, b: int| 0 <= a <= b < i + 1 && b < now.len() implies now[a].score
        <= now[b].score by {
        if b < pos {
            assert(now[a] == prev[a] && now[b] == prev[b]);
        } else if a < pos && b == pos {
            assert(now[a] == prev[a] && now[b] == x);
        } else if a < pos && b > pos {
            assert(now[a] == prev[a] && now[b] == prev[b - 1]);
            assert(prev[a].score <= x.score);
            assert(prev[b - 1].score > x.score);
        } else if a == pos {
            assert(now[a] == x);
            if b > pos {
                assert(now[b] == prev[b - 1]);
                assert(prev[b - 1].score > x.score);
            }
        } else {
            assert(now[a] == prev[a - 1] && now[b] == prev[b - 1]);
        }
    }
    assert forall|s: u64|
        #[trigger] now.filter(has_score(s)) == orig.filter(
            has_score(s),
        ) by {
        let pred = has_score(s);
        broadcast use vstd::seq_lib::group_filter_ensures;

        Seq::filter_distributes_over_add(fa + fb, seq![x], pred);
        Seq::filter_distributes_over_add(fa, fb, pred);
        Seq::filter_distributes_over_add(fa + fb + seq![x], fc, pred);
        Seq::filter_distributes_over_add(fa, seq![x], pred);
        Seq::filter_distributes_over_add(fa + seq![x], fb, pred);
        Seq::filter_distributes_over_add(fa + seq![x] + fb, fc, pred);
        lemma_filter_single(x, pred);
        if s == x.score {
            lemma_filter_none(fb, pred);
            assert(fb.filter(pred) == Seq::<Entry>::empty());
            assert((fa + fb + seq![x]).filter(pred) =~= fa.filter(pred) + seq![x].filter(pred));
            assert((fa + seq![x] + fb).filter(pred) =~= fa.filter(pred) + seq![x].filter(pred));
        } else {
            assert(seq![x].filter(pred) == Seq::<Entry>::empty());
            assert((fa + fb + seq![x]).filter(pred) =~= fa.filter(pred) + fb.filter(pred));
            assert((fa + seq![x] + fb).filter(pred) =~= fa.filter(pred) + fb.filter(pred));
        }
        assert(now.filter(pred) =~= prev.filter(pred));
        assert(prev.filter(pred) == orig.filter(pred));
    }
}

/// The `d`-th cubic unit direction.
pub(crate) fn dir_delta(d: usize) -> (r: (i32, i32, i32))
    requires
        d < 6,
    ensures
        cub(r) == cubic_dir(d as int),
{
    if d == 0 {
        (0, -1, 1)
    } else if d == 1 {
        (1, -1, 0)
    } else if d == 2 {
        (1, 0, -1)
    } else if d == 3 {
        (0, 1, -1)
    } else if d == 4 {
        (-1, 1, 0)
    } else {
        (-1, 0, 1)
    }
}

/// The best-first frontier loop: the half of the search that decides
/// which path comes back and in which tie-break order.
///
/// The frontier seeds with the start cell at doubled score equal to twice
/// its distance from the goal. Each round removes the best-scoring entry,
/// expands its six neighbours (skipping cells outside the bounds or
/// absent from the cost map), scores each neighbour by the accumulated
/// doubled cost plus twice its distance to the goal, and replaces an
/// already-pending entry for the same cell when the new score is not
/// worse; the frontier is then re-sorted, stably, so equal scores keep
/// discovery order. The loop ends when the best entry is the goal, when
/// the frontier empties, or when the expansion budget runs out; the last
/// two come back empty-handed, and [`search`] then consults the
/// reference table.
fn frontier_search(
    start: (i32, i32, i32),
    nodes: &Vec<((i32, i32, i32), u32)>,
    end: (i32, i32, i32),
    bounds: &SearchBounds,
) -> (r: Option<Vec<(i32, i32, i32)>>)
    requires
        cost_has(nodes@, start),
        cost_has(nodes@, end),
        sb_contains(*bounds, start),
        sb_contains(*bounds, end),
        start != end,
    ensures
        r matches Some(p) ==> chain_ok(p@, start, nodes@, *bounds) && p@.last() == end,
{
    let f_start = heur2(start, end);
    let mut scores: Vec<((i32, i32, i32), u64)> = Vec::new();
    scores.push((start, f_start));
    let mut queue: Vec<Entry> = Vec::new();
    let start_entry = Entry { coord: start, score: f_start, path: Vec::new(), g: 0 };
    proof {
        assert(entry_chain(start_entry) =~= seq![start]);
        assert(entry_ok(start_entry, start, nodes@, *bounds));
    }
    queue.push(start_entry);
    let n64: u64 = nodes.len() as u64;
    let mut fuel: u64 = if n64 > 1000000 {
        10_000_000_000_000
    } else {
        proof {
            assert(7 * (n64 as int + 1) * (n64 as int + 1) <= 0x7000_0000_0000_0000)
                by (nonlinear_arith)
                requires
                    0 <= n64 <= 1000000,
            ;
        }
        7 * (n64 + 1) * (n64 + 1)
    };
    while fuel > 0
        invariant
            cost_has(nodes@, start),
            cost_has(nodes@, end),
            sb_contains(*bounds, start),
            sb_contains(*bounds, end),
            start != end,
            forall|j: int|
                0 <= j < queue@.len() ==> entry_ok(#[trigger] queue@[j], start, nodes@, *bounds),
        decreases fuel,
    {
        if queue.len() == 0 {
            return None;
        }
        let first_coord: (i32, i32, i32) = queue[0].coord;
        if first_coord.0 == end.0 && first_coord.1 == end.1 && first_coord.2 == end.2 {
            let mut best = copy_path(&queue[0].path);
            best.push(end);
            proof {
                assert(best@ =~= entry_chain(queue@[0]));
                assert(chain_ok(best@, start, nodes@, *bounds));
            }
            return Some(best);
        }
        fuel = fuel - 1;
        let cur: Entry = queue.swap_remove(0);
        proof {
            assert(entry_ok(cur, start, nodes@, *bounds));
            assert forall|j: int| 0 <= j < queue@.len() implies entry_ok(
                #[trigger] queue@[j],
                start,
                nodes@,
                *bounds,
            ) by {}
        }
        let cur_cost: u32 = match cost_get(nodes, cur.coord) {
            Some(v) => v,
            None => {
                proof {
                    assert(entry_chain(cur).last() == cur.coord);
                    assert(cost_has(nodes@, cur.coord));
                }
                vstd::pervasive::unreached()
            },
        };
        let mut d: usize = 0;
        while d < 6
            invariant
                d <= 6,
                cost_has(nodes@, start),
                cost_has(nodes@, end),
                sb_contains(*bounds, start),
                sb_contains(*bounds, end),
                start != end,
                chain_ok(entry_chain(cur), start, nodes@, *bounds),
                forall|j: int|
                    0 <= j < queue@.len() ==> entry_ok(
                        #[trigger] queue@[j],
                        start,
                        nodes@,
                        *bounds,
                    ),
            decreases 6 - d,
        {
            let delta = dir_delta(d);
            let nx: i64 = cur.coord.0 as i64 + delta.0 as i64;
            let ny: i64 = cur.coord.1 as i64 + delta.1 as i64;
            let nz: i64 = cur.coord.2 as i64 + delta.2 as i64;
            let lo: i64 = -0x8000_0000;
            let hi: i64 = 0x7fff_ffff;
            if lo <= nx && nx <= hi && lo <= ny && ny <= hi && lo <= nz && nz <= hi {
                let n: (i32, i32, i32) = (nx as i32, ny as i32, nz as i32);
                proof {
                    assert(cub(n) == cubic_step(cub(cur.coord), d as int));
                }
                if sb_check(bounds, n) {
                    match cost_get(nodes, n) {
                        Some(cn) => {
                            let edge = sat_add(cur_cost as u64, cn as u64);
                            let g2 = sat_add(cur.g, edge);
                            let f2 = sat_add(g2, heur2(n, end));
                            let mut new_path = copy_path(&cur.path);
                            new_path.push(cur.coord);
                            proof {
                                assert(cubic_adjacent(cur.coord, n));
                                lemma_chain_push(
                                    entry_chain(cur),
                                    start,
                                    nodes@,
                                    *bounds,
                                    n,
                                );
                                assert(new_path@.push(n) =~= entry_chain(cur).push(n));
                            }
                            match score_get(&scores, n) {
                                Some(s) => {
                                    if s >= f2 {
                                        score_set(&mut scores, n, f2);
                                        let mut replaced = false;
                                        let mut j: usize = 0;
                                        while j < queue.len()
                                            invariant
                                                j <= queue@.len(),
                                                chain_ok(
                                                    new_path@.push(n),
                                                    start,
                                                    nodes@,
                                                    *bounds,
                                                ),
                                                forall|jj: int|
                                                    0 <= jj < queue@.len() ==> entry_ok(
                                                        #[trigger] queue@[jj],
                                                        start,
                                                        nodes@,
                                                        *bounds,
                                                    ),
                                            decreases queue@.len() - j,
                                        {
                                            let same = queue[j].coord.0 == n.0 && queue[j].coord.1
                                                == n.1 && queue[j].coord.2 == n.2;
                                            if same && queue[j].score >= f2 {
                                                let path_copy = copy_path(&new_path);
                                                let fresh = Entry {
                                                    coord: n,
                                                    score: f2,
                                                    path: path_copy,
                                                    g: g2,
                                                };
                                                proof {
                                                    assert(entry_chain(fresh) =~= new_path@.push(
                                                        n,
                                                    ));
                                                }
                                                queue.set(j, fresh);
                                                replaced = true;
                                            }
                                            j = j + 1;
                                        }
                                        if !replaced {
                                            let fresh = Entry {
                                                coord: n,
                                                score: f2,
                                                path: new_path,
                                                g: g2,
                                            };
                                            proof {
                                                assert(entry_chain(fresh) =~= entry_chain(
                                                    cur,
                                                ).push(n));
                                            }
                                            queue.push(fresh);
                                        }
                                    }
                                },
                                None => {
                                    score_set(&mut scores, n, f2);
                                    let fresh = Entry { coord: n, score: f2, path: new_path, g: g2 };
                                    proof {
                                        assert(entry_chain(fresh) =~= entry_chain(cur).push(n));
                                    }
                                    queue.push(fresh);
                                },
                            }
                        },
                        None => {},
                    }
                }
            }
            d = d + 1;
        }
        sort_queue(&mut queue);
        proof {
            assert forall|j: int| 0 <= j < queue@.len() implies entry_ok(
                #[trigger] queue@[j],
                start,
                nodes@,
                *bounds,
            ) by {}
        }
    }
    None
}


/// The cost stored for `c`, as a mathematical integer; zero when `c` is
/// not a key.
pub open spec fn cost_val(m: Seq<((i32, i32, i32), u32)>, c: (i32, i32, i32)) -> int {
    match cost_of(m, c) {
        Some(v) => v as int,
        None => 0,
    }
}

/// The doubled cost of walking a path: every boundary crossing costs the
/// cell left plus the cell entered, and a path that never moves costs
/// nothing.
pub open spec fn chain_cost(q: Seq<(i32, i32, i32)>, m: Seq<((i32, i32, i32), u32)>) -> int
    decreases q.len(),
{
    if q.len() <= 1 {
        0
    } else {
        chain_cost(q.drop_last(), m) + cost_val(m, q[q.len() - 2]) + cost_val(m, q.last())
    }
}

/// Walking costs nothing or more: every path cost is non-negative.
pub proof fn lemma_chain_cost_nonneg(q: Seq<(i32, i32, i32)>, m: Seq<((i32, i32, i32), u32)>)
    ensures
        chain_cost(q, m) >= 0,
    decreases q.len(),
{
    if q.len() > 1 {
        lemma_chain_cost_nonneg(q.drop_last(), m);
    }
}

/// Extending a path by one cell adds one boundary crossing.
proof fn lemma_chain_cost_push(
    q: Seq<(i32, i32, i32)>,
    m: Seq<((i32, i32, i32), u32)>,
    w: (i32, i32, i32),
)
    requires
        q.len() >= 1,
    ensures
        chain_cost(q.push(w), m) == chain_cost(q, m) + cost_val(m, q.last()) + cost_val(m, w),
{
    assert(q.push(w).drop_last() =~= q);
}

/// A path cost grows by less than `2^33` per cell.
proof fn lemma_chain_cost_bound(q: Seq<(i32, i32, i32)>, m: Seq<((i32, i32, i32), u32)>)
    ensures
        chain_cost(q, m) <= q.len() * 0x2_0000_0000,
    decreases q.len(),
{
    if q.len() > 1 {
        lemma_chain_cost_bound(q.drop_last(), m);
    }
}

/// A well-formed path shorn of its final cell is still well formed.
proof fn lemma_chain_ok_drop_last(
    q: Seq<(i32, i32, i32)>,
    start: (i32, i32, i32),
    m: Seq<((i32, i32, i32), u32)>,
    b: SearchBounds,
)
    requires
        chain_ok(q, start, m, b),
        q.len() >= 2,
    ensures
        chain_ok(q.drop_last(), start, m, b),
{
    let qp = q.drop_last();
    assert forall|i: int| 0 <= i < qp.len() implies cost_has(m, #[trigger] qp[i]) && sb_contains(
        b,
        qp[i],
    ) by {
        assert(qp[i] == q[i]);
    }
    assert forall|i: int| 0 <= i < qp.len() - 1 implies cubic_adjacent(
        #[trigger] qp[i],
        qp[i + 1],
    ) by {
        assert(cubic_adjacent(q[i], q[i + 1]));
    }
}

/// Sums the doubled cost of a path.
pub(crate) fn path_cost(p: &Vec<(i32, i32, i32)>, nodes: &Vec<((i32, i32, i32), u32)>) -> (r:
    u128)
    ensures
        r == chain_cost(p@, nodes@),
{
    let mut acc: u128 = 0;
    if p.len() == 0 {
        return 0;
    }
    let mut i: usize = 1;
    while i < p.len()
        invariant
            1 <= i <= p@.len(),
            acc == chain_cost(p@.take(i as int), nodes@),
        decreases p@.len() - i,
    {
        proof {
            lemma_chain_cost_bound(p@.take(i as int), nodes@);
            lemma_chain_cost_nonneg(p@.take(i as int), nodes@);
            assert(p@.take(i as int + 1).drop_last() =~= p@.take(i as int));
        }
        let ca: u64 = match cost_get(nodes, p[i - 1]) {
            Some(v) => v as u64,
            None => 0,
        };
        let cb: u64 = match cost_get(nodes, p[i]) {
            Some(v) => v as u64,
            None => 0,
        };
        acc = acc + ca as u128 + cb as u128;
        i = i + 1;
    }
    proof {
        assert(p@.take(i as int) =~= p@);
    }
    acc
}


/// A record of the reference table: a cell, the least doubled cost known
/// for reaching it, and a path attaining that cost.
pub(crate) struct DistRec {
    pub cell: (i32, i32, i32),
    pub d: u128,
    pub path: Vec<(i32, i32, i32)>,
}

/// Whether the table holds a record for `c`.
pub(crate) open spec fn tbl_has(t: Seq<DistRec>, c: (i32, i32, i32)) -> bool {
    exists|i: int| 0 <= i < t.len() && (#[trigger] t[i]).cell == c
}

/// The position of `c`'s record.
pub(crate) open spec fn tbl_idx(t: Seq<DistRec>, c: (i32, i32, i32)) -> int {
    choose|i: int| 0 <= i < t.len() && (#[trigger] t[i]).cell == c
}

/// No cell has two records.
pub(crate) open spec fn tbl_unique(t: Seq<DistRec>) -> bool {
    forall|i: int, j: int|
        0 <= i < j < t.len() ==> (#[trigger] t[i]).cell != (#[trigger] t[j]).cell
}

/// With unique cells, a held cell's position is the one index bearing it.
proof fn lemma_tbl_idx(t: Seq<DistRec>, c: (i32, i32, i32))
    requires
        tbl_unique(t),
        tbl_has(t, c),
    ensures
        0 <= tbl_idx(t, c) < t.len(),
        t[tbl_idx(t, c)].cell == c,
        forall|j: int| 0 <= j < t.len() && (#[trigger] t[j]).cell == c ==> j == tbl_idx(t, c),
{
    let i = tbl_idx(t, c);
    assert(0 <= i < t.len() && t[i].cell == c);
    assert forall|j: int| 0 <= j < t.len() && (#[trigger] t[j]).cell == c implies j == i by {
        if j < i {
            assert(t[j].cell != t[i].cell);
        }
        if j > i {
            assert(t[i].cell != t[j].cell);
        }
    }
}

/// Every record is attained: its path is a well-formed walk from the
/// start to its cell whose doubled cost is exactly its recorded cost, and
/// no recorded cost outgrows what the table size allows.
pub(crate) open spec fn tbl_wf(
    t: Seq<DistRec>,
    start: (i32, i32, i32),
    m: Seq<((i32, i32, i32), u32)>,
    b: SearchBounds,
) -> bool {
    &&& t.len() >= 1
    &&& t[0].cell == start
    &&& t[0].d == 0
    &&& tbl_unique(t)
    &&& forall|i: int|
        0 <= i < t.len() ==> {
            let e = #[trigger] t[i];
            chain_ok(e.path@, start, m, b) && e.path@.last() == e.cell && chain_cost(e.path@, m)
                == e.d && cost_has(m, e.cell) && e.d <= t.len() * 0x4_0000_0000
        }
}

/// The table is relaxed: stepping from any recorded cell to an adjacent
/// in-map, in-bounds cell never beats the cost already recorded there.
pub(crate) open spec fn tbl_feasible(
    t: Seq<DistRec>,
    m: Seq<((i32, i32, i32), u32)>,
    b: SearchBounds,
) -> bool {
    forall|i: int, w: (i32, i32, i32)|
        0 <= i < t.len() && #[trigger] cubic_adjacent(t[i].cell, w) && cost_has(m, w)
            && sb_contains(b, w) ==> tbl_has(t, w) && t[tbl_idx(t, w)].d <= t[i].d + cost_val(
            m,
            t[i].cell,
        ) + cost_val(m, w)
}

/// Over a relaxed table that records the start at cost zero, every
/// well-formed walk ends at a recorded cell and costs at least the cost
/// recorded there. This is the lower bound that makes a recorded path a
/// least-cost path.
pub(crate) proof fn lemma_chain_bounded(
    t: Seq<DistRec>,
    m: Seq<((i32, i32, i32), u32)>,
    b: SearchBounds,
    start: (i32, i32, i32),
    q: Seq<(i32, i32, i32)>,
)
    requires
        tbl_unique(t),
        tbl_feasible(t, m, b),
        tbl_has(t, start),
        t[tbl_idx(t, start)].d == 0,
        chain_ok(q, start, m, b),
    ensures
        tbl_has(t, q.last()),
        t[tbl_idx(t, q.last())].d <= chain_cost(q, m),
    decreases q.len(),
{
    if q.len() == 1 {
        assert(q.last() == start);
        lemma_tbl_idx(t, start);
        lemma_chain_cost_nonneg(q, m);
    } else {
        let qp = q.drop_last();
        lemma_chain_ok_drop_last(q, start, m, b);
        lemma_chain_bounded(t, m, b, start, qp);
        let u = qp.last();
        assert(u == q[q.len() - 2]);
        let iu = tbl_idx(t, u);
        lemma_tbl_idx(t, u);
        assert(cubic_adjacent(q[q.len() - 2], q[q.len() - 1]));
        assert(cubic_adjacent(t[iu].cell, q.last()));
        assert(cost_has(m, q.last()) && sb_contains(b, q.last()));
        assert(tbl_has(t, q.last()) && t[tbl_idx(t, q.last())].d <= t[iu].d + cost_val(m, u)
            + cost_val(m, q.last()));
    }
}

/// The recorded costs, summed; the termination measure of the relaxation.
pub(crate) open spec fn sum_d(t: Seq<DistRec>) -> int
    decreases t.len(),
{
    if t.len() == 0 {
        0
    } else {
        sum_d(t.drop_last()) + t.last().d
    }
}

/// The sum of recorded costs is never negative.
proof fn lemma_sum_d_nonneg(t: Seq<DistRec>)
    ensures
        sum_d(t) >= 0,
    decreases t.len(),
{
    if t.len() > 0 {
        lemma_sum_d_nonneg(t.drop_last());
    }
}

/// Lowering one record lowers the sum.
proof fn lemma_sum_d_update(t: Seq<DistRec>, j: int, r: DistRec)
    requires
        0 <= j < t.len(),
        r.d < t[j].d,
    ensures
        sum_d(t.update(j, r)) < sum_d(t),
    decreases t.len(),
{
    let t2 = t.update(j, r);
    if j == t.len() - 1 {
        assert(t2.drop_last() =~= t.drop_last());
        assert(t2.last() == r);
    } else {
        assert(t2.drop_last() =~= t.drop_last().update(j, r));
        lemma_sum_d_update(t.drop_last(), j, r);
        assert(t2.last() == t.last());
    }
}

/// Appending a record adds its cost to the sum.
proof fn lemma_sum_d_push(t: Seq<DistRec>, r: DistRec)
    ensures
        sum_d(t.push(r)) == sum_d(t) + r.d,
{
    assert(t.push(r).drop_last() =~= t);
}

/// Distinct cells that are all keys of the cost map are no more numerous
/// than the map's entries.
proof fn lemma_tbl_len_bound(cells: Seq<(i32, i32, i32)>, m: Seq<((i32, i32, i32), u32)>)
    requires
        forall|i: int, j: int| 0 <= i < j < cells.len() ==> cells[i] != cells[j],
        forall|i: int| 0 <= i < cells.len() ==> map_has_key(m, #[trigger] cells[i]),
    ensures
        cells.len() <= m.len(),
    decreases cells.len(),
{
    if cells.len() > 0 {
        let c0 = cells[0];
        let k = choose|k: int| 0 <= k < m.len() && (#[trigger] m[k]).0 == c0;
        let m2 = m.remove(k);
        let cells2 = cells.drop_first();
        assert forall|i: int| 0 <= i < cells2.len() implies map_has_key(
            m2,
            #[trigger] cells2[i],
        ) by {
            assert(cells2[i] == cells[i + 1]);
            assert(cells[i + 1] != c0);
            let k2 = choose|k2: int| 0 <= k2 < m.len() && (#[trigger] m[k2]).0 == cells[i + 1];
            if k2 < k {
                assert(m2[k2].0 == cells[i + 1]);
            } else {
                assert(k2 != k);
                assert(m2[k2 - 1].0 == cells[i + 1]);
            }
        }
        assert forall|i: int, j: int| 0 <= i < j < cells2.len() implies cells2[i] != cells2[j] by {
            assert(cells[i + 1] != cells[j + 1]);
        }
        lemma_tbl_len_bound(cells2, m2);
    }
}


/// A well-formed table never outgrows the cost map.
proof fn lemma_tbl_within(t: Seq<DistRec>, m: Seq<((i32, i32, i32), u32)>)
    requires
        tbl_unique(t),
        forall|i: int| 0 <= i < t.len() ==> cost_has(m, (#[trigger] t[i]).cell),
    ensures
        t.len() <= m.len(),
{
    let cells = Seq::new(t.len(), |i: int| t[i].cell);
    assert forall|i: int| 0 <= i < cells.len() implies map_has_key(m, #[trigger] cells[i]) by {
        lemma_cost_has_is_map_has(m, t[i].cell);
    }
    lemma_tbl_len_bound(cells, m);
}

/// Whether a mathematical cubic triple is representable in `i32`s.
pub(crate) open spec fn fits3(c: (int, int, int)) -> bool {
    &&& i32::MIN <= c.0 <= i32::MAX
    &&& i32::MIN <= c.1 <= i32::MAX
    &&& i32::MIN <= c.2 <= i32::MAX
}

/// A representable triple, as `i32`s.
pub(crate) open spec fn cast3(c: (int, int, int)) -> (i32, i32, i32) {
    (c.0 as i32, c.1 as i32, c.2 as i32)
}

/// The cost recorded for `w` does not beat stepping there from record
/// `u_idx`.
pub(crate) open spec fn relaxed_at(
    t: Seq<DistRec>,
    m: Seq<((i32, i32, i32), u32)>,
    u_idx: int,
    w: (i32, i32, i32),
) -> bool {
    tbl_has(t, w) && t[tbl_idx(t, w)].d <= t[u_idx].d + cost_val(m, t[u_idx].cell) + cost_val(m, w)
}

/// Finds the record of a cell.
pub(crate) fn tbl_find(t: &Vec<DistRec>, c: (i32, i32, i32)) -> (r: Option<usize>)
    ensures
        r matches Some(j) ==> j < t@.len() && t@[j as int].cell == c,
        r is None ==> !tbl_has(t@, c),
{
    let mut i: usize = 0;
    while i < t.len()
        invariant
            i <= t@.len(),
            forall|j: int| 0 <= j < i ==> (#[trigger] t@[j]).cell != c,
        decreases t@.len() - i,
    {
        let e = &t[i];
        if e.cell.0 == c.0 && e.cell.1 == c.1 && e.cell.2 == c.2 {
            return Some(i);
        }
        i = i + 1;
    }
    None
}

/// Relaxes one edge: if stepping from record `i` to the adjacent cell `w`
/// is strictly cheaper than `w`'s record (or `w` has none), the table is
/// updated; otherwise it certifies the edge relaxed.
#[verifier::rlimit(60)]
fn relax_edge(
    t: &mut Vec<DistRec>,
    nodes: &Vec<((i32, i32, i32), u32)>,
    bounds: &SearchBounds,
    start: (i32, i32, i32),
    i: usize,
    w: (i32, i32, i32),
    wc: u32,
    ucost: u32,
) -> (changed: bool)
    requires
        tbl_wf(old(t)@, start, nodes@, *bounds),
        i < old(t)@.len(),
        cost_of(nodes@, old(t)@[i as int].cell) == Some(ucost),
        cubic_adjacent(old(t)@[i as int].cell, w),
        w != old(t)@[i as int].cell,
        cost_of(nodes@, w) == Some(wc),
        sb_contains(*bounds, w),
    ensures
        tbl_wf(final(t)@, start, nodes@, *bounds),
        final(t)@.len() >= old(t)@.len(),
        final(t)@[i as int] == old(t)@[i as int],
        !changed ==> final(t)@ == old(t)@ && relaxed_at(final(t)@, nodes@, i as int, w),
        changed ==> final(t)@.len() > old(t)@.len() || (final(t)@.len() == old(t)@.len() && sum_d(
            final(t)@,
        ) < sum_d(old(t)@)),
{
    let tl: usize = t.len();
    let ucell: (i32, i32, i32) = t[i].cell;
    let ud: u128 = t[i].d;
    proof {
        assert(ud <= t@.len() * 0x4_0000_0000);
        assert(t@.len() * 0x4_0000_0000 <= usize::MAX as int * 0x4_0000_0000);
    }
    let cand: u128 = ud + ucost as u128 + wc as u128;
    match tbl_find(t, w) {
        Some(j) => {
            proof {
                lemma_tbl_idx(t@, w);
                assert(tbl_idx(t@, w) == j);
            }
            let jd: u128 = t[j].d;
            if cand < jd {
                let mut np2 = copy_path(&t[i].path);
                np2.push(w);
                let fresh = DistRec { cell: w, d: cand, path: np2 };
                proof {
                    let up = t@[i as int].path@;
                    lemma_chain_push(up, start, nodes@, *bounds, w);
                    lemma_chain_cost_push(up, nodes@, w);
                    lemma_sum_d_update(t@, j as int, fresh);
                    if j == 0 {
                        assert(t@[0].d == 0);
                        assert(false);
                    }
                }
                t.set(j, fresh);
                proof {
                    assert forall|ii2: int| 0 <= ii2 < t@.len() implies {
                        let e = #[trigger] t@[ii2];
                        chain_ok(e.path@, start, nodes@, *bounds) && e.path@.last() == e.cell
                            && chain_cost(e.path@, nodes@) == e.d && cost_has(nodes@, e.cell)
                            && e.d <= t@.len() * 0x4_0000_0000
                    } by {}
                }
                true
            } else {
                false
            }
        },
        None => {
            let mut np2 = copy_path(&t[i].path);
            np2.push(w);
            let fresh = DistRec { cell: w, d: cand, path: np2 };
            proof {
                let up = t@[i as int].path@;
                lemma_chain_push(up, start, nodes@, *bounds, w);
                lemma_chain_cost_push(up, nodes@, w);
                lemma_sum_d_push(t@, fresh);
                lemma_sum_d_nonneg(t@);
            }
            t.push(fresh);
            proof {
                assert forall|ii2: int| 0 <= ii2 < t@.len() implies {
                    let e = #[trigger] t@[ii2];
                    chain_ok(e.path@, start, nodes@, *bounds) && e.path@.last() == e.cell
                        && chain_cost(e.path@, nodes@) == e.d && cost_has(nodes@, e.cell) && e.d
                        <= t@.len() * 0x4_0000_0000
                } by {}
                assert forall|i2: int, j2: int| 0 <= i2 < j2 < t@.len() implies (
                #[trigger] t@[i2]).cell != (#[trigger] t@[j2]).cell by {
                    if j2 == t@.len() - 1 {
                        assert(!tbl_has(t@.drop_last(), w));
                        assert(t@.drop_last()[i2] == t@[i2]);
                    }
                }
            }
            true
        },
    }
}

/// One relaxation pass over the records present when the pass starts: for
/// each, every adjacent in-map, in-bounds cell gets a record, lowered to
/// the cost of stepping there whenever that is strictly cheaper. A pass
/// that changes nothing certifies the table relaxed.
#[verifier::rlimit(100)]
fn relax_sweep(
    t: &mut Vec<DistRec>,
    nodes: &Vec<((i32, i32, i32), u32)>,
    bounds: &SearchBounds,
    start: (i32, i32, i32),
) -> (changed: bool)
    requires
        tbl_wf(old(t)@, start, nodes@, *bounds),
    ensures
        tbl_wf(final(t)@, start, nodes@, *bounds),
        final(t)@.len() >= old(t)@.len(),
        !changed ==> final(t)@ == old(t)@ && tbl_feasible(final(t)@, nodes@, *bounds),
        changed ==> final(t)@.len() > old(t)@.len() || (final(t)@.len() == old(t)@.len() && sum_d(
            final(t)@,
        ) < sum_d(old(t)@)),
{
    let mut changed = false;
    let limit = t.len();
    let ghost snap: Seq<DistRec> = t@;
    let mut i: usize = 0;
    while i < limit
        invariant
            limit == snap.len(),
            i <= limit,
            snap == old(t)@,
            tbl_wf(t@, start, nodes@, *bounds),
            t@.len() >= snap.len(),
            !changed ==> t@ == snap,
            changed ==> t@.len() > snap.len() || (t@.len() == snap.len() && sum_d(t@) < sum_d(
                snap,
            )),
            !changed ==> forall|ii: int, w: (i32, i32, i32)|
                0 <= ii < i && #[trigger] cubic_adjacent(t@[ii].cell, w) && cost_has(nodes@, w)
                    && sb_contains(*bounds, w) ==> relaxed_at(t@, nodes@, ii, w),
        decreases limit - i,
    {
        let ucell: (i32, i32, i32) = t[i].cell;
        let ud: u128 = t[i].d;
        let ucost: u32 = match cost_get(nodes, ucell) {
            Some(v) => v,
            None => {
                proof {
                    assert(cost_has(nodes@, t@[i as int].cell));
                }
                vstd::pervasive::unreached()
            },
        };
        let mut dd: usize = 0;
        while dd < 6
            invariant
                limit == snap.len(),
                i < limit,
                dd <= 6,
                snap == old(t)@,
                tbl_wf(t@, start, nodes@, *bounds),
                t@.len() >= snap.len(),
                t@[i as int].cell == ucell,
                t@[i as int].d == ud,
                ud <= t@.len() * 0x4_0000_0000,
                cost_of(nodes@, ucell) == Some(ucost),
                !changed ==> t@ == snap,
                changed ==> t@.len() > snap.len() || (t@.len() == snap.len() && sum_d(t@) < sum_d(
                    snap,
                )),
                !changed ==> forall|ii: int, w: (i32, i32, i32)|
                    0 <= ii < i && #[trigger] cubic_adjacent(t@[ii].cell, w) && cost_has(
                        nodes@,
                        w,
                    ) && sb_contains(*bounds, w) ==> relaxed_at(t@, nodes@, ii, w),
                !changed ==> forall|d2: int|
                    0 <= d2 < dd && fits3(#[trigger] cubic_step(cub(ucell), d2)) && cost_has(
                        nodes@,
                        cast3(cubic_step(cub(ucell), d2)),
                    ) && sb_contains(*bounds, cast3(cubic_step(cub(ucell), d2))) ==> relaxed_at(
                        t@,
                        nodes@,
                        i as int,
                        cast3(cubic_step(cub(ucell), d2)),
                    ),
            decreases 6 - dd,
        {
            let delta = dir_delta(dd);
            let wx: i64 = ucell.0 as i64 + delta.0 as i64;
            let wy: i64 = ucell.1 as i64 + delta.1 as i64;
            let wz: i64 = ucell.2 as i64 + delta.2 as i64;
            let lo: i64 = -0x8000_0000;
            let hi: i64 = 0x7fff_ffff;
            if lo <= wx && wx <= hi && lo <= wy && wy <= hi && lo <= wz && wz <= hi {
                let w: (i32, i32, i32) = (wx as i32, wy as i32, wz as i32);
                proof {
                    assert(cub(w) == cubic_step(cub(ucell), dd as int));
                    assert(w == cast3(cubic_step(cub(ucell), dd as int)));
                    assert(cubic_adjacent(ucell, w));
                    assert(w != ucell);
                }
                if sb_check(bounds, w) {
                    match cost_get(nodes, w) {
                        Some(wc) => {
                            let c2 = relax_edge(t, nodes, bounds, start, i, w, wc, ucost);
                            if c2 {
                                changed = true;
                            }
                        },
                        None => {},
                    }
                }
            }
            dd = dd + 1;
        }
        proof {
            if !changed {
                assert forall|ii: int, w: (i32, i32, i32)|
                    0 <= ii < i + 1 && #[trigger] cubic_adjacent(t@[ii].cell, w) && cost_has(
                        nodes@,
                        w,
                    ) && sb_contains(*bounds, w) implies relaxed_at(t@, nodes@, ii, w) by {
                    if ii == i {
                        let d2 = choose|d2: int|
                            0 <= d2 < 6 && cub(w) == #[trigger] cubic_step(cub(ucell), d2);
                        assert(fits3(cubic_step(cub(ucell), d2)));
                        assert(cast3(cubic_step(cub(ucell), d2)) == w);
                    }
                }
            }
        }
        i = i + 1;
    }
    proof {
        if !changed {
            assert forall|ii: int, w: (i32, i32, i32)|
                0 <= ii < t@.len() && #[trigger] cubic_adjacent(t@[ii].cell, w) && cost_has(
                    nodes@,
                    w,
                ) && sb_contains(*bounds, w) implies tbl_has(t@, w) && t@[tbl_idx(t@, w)].d
                <= t@[ii].d + cost_val(nodes@, t@[ii].cell) + cost_val(nodes@, w) by {
                assert(relaxed_at(t@, nodes@, ii, w));
            }
        }
    }
    changed
}

/// Builds the reference table for a search: relaxation passes run until a
/// pass changes nothing, so the final table is relaxed and every record
/// carries a path attaining its cost.
fn relax_table(
    start: (i32, i32, i32),
    nodes: &Vec<((i32, i32, i32), u32)>,
    bounds: &SearchBounds,
) -> (t: Vec<DistRec>)
    requires
        cost_has(nodes@, start),
        sb_contains(*bounds, start),
    ensures
        tbl_wf(t@, start, nodes@, *bounds),
        tbl_feasible(t@, nodes@, *bounds),
{
    let mut t: Vec<DistRec> = Vec::new();
    let mut p0: Vec<(i32, i32, i32)> = Vec::new();
    p0.push(start);
    let first = DistRec { cell: start, d: 0, path: p0 };
    proof {
        assert(first.path@ =~= seq![start]);
        assert(chain_ok(first.path@, start, nodes@, *bounds));
    }
    t.push(first);
    loop
        invariant
            tbl_wf(t@, start, nodes@, *bounds),
        ensures
            tbl_wf(t@, start, nodes@, *bounds),
            tbl_feasible(t@, nodes@, *bounds),
        decreases nodes@.len() + 1 - t@.len(), sum_d(t@),
    {
        proof {
            let cells = Seq::new(t@.len(), |i: int| t@[i].cell);
            assert forall|i: int| 0 <= i < cells.len() implies map_has_key(
                nodes@,
                #[trigger] cells[i],
            ) by {
                lemma_cost_has_is_map_has(nodes@, t@[i].cell);
            }
            lemma_tbl_len_bound(cells, nodes@);
            lemma_sum_d_nonneg(t@);
        }
        let changed = relax_sweep(&mut t, nodes, bounds, start);
        proof {
            lemma_tbl_within(t@, nodes@);
            lemma_sum_d_nonneg(t@);
        }
        if !changed {
            break;
        }
    }
    t
}


/// Best-first search from `start` to `end` over a cubic cost map.
///
/// The frontier loop picks the path — and with it the tie-break order the
/// stable sort induces — and the reference table certifies it: a path
/// comes back only if no well-formed path through the cost map and the
/// bounds is cheaper, and `Unreachable` comes back only if no well-formed
/// path reaches the goal at all. On the rare inputs where the frontier
/// loop gives up early or returns a path that is not of least cost, the
/// table's own least-cost path is returned instead.
pub(crate) fn search(
    start: (i32, i32, i32),
    nodes: &Vec<((i32, i32, i32), u32)>,
    end: (i32, i32, i32),
    bounds: SearchBounds,
) -> (r: Result<Vec<(i32, i32, i32)>, PathError>)
    ensures
        r matches Err(PathError::MissingNode) <==> !(cost_has(nodes@, start) && cost_has(
            nodes@,
            end,
        )),
        r matches Err(PathError::OutOfBounds) <==> cost_has(nodes@, start) && cost_has(
            nodes@,
            end,
        ) && !(sb_contains(bounds, start) && sb_contains(bounds, end)),
        r matches Ok(p) ==> chain_ok(p@, start, nodes@, bounds) && p@.last() == end,
        r matches Ok(p) ==> forall|q: Seq<(i32, i32, i32)>|
            chain_ok(q, start, nodes@, bounds) && q.last() == end ==> chain_cost(p@, nodes@)
                <= chain_cost(q, nodes@),
        r matches Err(PathError::Unreachable) ==> forall|q: Seq<(i32, i32, i32)>|
            !(chain_ok(q, start, nodes@, bounds) && q.last() == end),
        cost_has(nodes@, start) && cost_has(nodes@, end) && sb_contains(bounds, start)
            && sb_contains(bounds, end) && start == end ==> (r matches Ok(p) && p@ == seq![start]),
        r matches Err(PathError::Unreachable) ==> cost_has(nodes@, start) && cost_has(nodes@, end)
            && sb_contains(bounds, start) && sb_contains(bounds, end) && start != end,
{
    let start_in = cost_get(nodes, start);
    let end_in = cost_get(nodes, end);
    if start_in.is_none() || end_in.is_none() {
        return Err(PathError::MissingNode);
    }
    if !sb_check(&bounds, start) || !sb_check(&bounds, end) {
        return Err(PathError::OutOfBounds);
    }
    if start.0 == end.0 && start.1 == end.1 && start.2 == end.2 {
        let mut only: Vec<(i32, i32, i32)> = Vec::new();
        only.push(start);
        proof {
            assert(only@ =~= seq![start]);
            assert(chain_ok(only@, start, nodes@, bounds));
            assert(chain_cost(only@, nodes@) == 0);
            assert forall|q: Seq<(i32, i32, i32)>|
                chain_ok(q, start, nodes@, bounds) && q.last() == end implies chain_cost(
                only@,
                nodes@,
            ) <= chain_cost(q, nodes@) by {
                lemma_chain_cost_nonneg(q, nodes@);
            }
        }
        return Ok(only);
    }
    let found = frontier_search(start, nodes, end, &bounds);
    let table = relax_table(start, nodes, &bounds);
    proof {
        lemma_tbl_idx(table@, start);
        assert(tbl_idx(table@, start) == 0);
    }
    match tbl_find(&table, end) {
        None => {
            proof {
                assert forall|q: Seq<(i32, i32, i32)>| !(chain_ok(q, start, nodes@, bounds)
                    && q.last() == end) by {
                    if chain_ok(q, start, nodes@, bounds) && q.last() == end {
                        lemma_chain_bounded(table@, nodes@, bounds, start, q);
                    }
                }
            }
            Err(PathError::Unreachable)
        },
        Some(j) => {
            proof {
                lemma_tbl_idx(table@, end);
                assert(tbl_idx(table@, end) == j);
                assert forall|q: Seq<(i32, i32, i32)>|
                    chain_ok(q, start, nodes@, bounds) && q.last() == end implies table@[
                    j as int].d <= chain_cost(q, nodes@) by {
                    lemma_chain_bounded(table@, nodes@, bounds, start, q);
                }
            }
            let d_end: u128 = table[j].d;
            match found {
                Some(p) => {
                    let c = path_cost(&p, nodes);
                    if c == d_end {
                        Ok(p)
                    } else {
                        let entry = &table[j];
                        let pb = copy_path(&entry.path);
                        Ok(pb)
                    }
                },
                None => {
                    let entry = &table[j];
                    let pb = copy_path(&entry.path);
                    Ok(pb)
                },
            }
        },
    }
}

} // verus!

//! Finding a way for the worker to a cell without pushing crates, and following it.
use vstd::prelude::*;

use crate::current_level::{CurrentLevel, Play, record_all, play_move};
use crate::current_level::rules::{
    Board, Entities, board_wf, interior, free, entities_wf, spec_move_events, lemma_board_dims,
    lemma_interior_neighbours,
};
use crate::direction::{Direction, spec_reverse, lemma_neighbour_reverse};
use crate::event::Event;
use crate::grid::{lemma_index_bound, lemma_index_div_mod};
use crate::level::{cell_index, in_grid};
use crate::move_::Move;
use crate::position::{Position, spec_neighbour, has_all_neighbours};

verus! {

/// A sequence of moves starting at a given position.
pub struct Path {
    pub start: Position,
    pub steps: Vec<Move>,
}

/// Where following the moves `ms` from `p` leads when every step enters a free cell and pushes
/// nothing, or `None` if a step does not.
pub open spec fn walk_from(b: Board, e: Entities, p: Position, ms: Seq<Move>) -> Option<Position>
    decreases ms.len(),
{
    if ms.len() == 0 {
        Some(p)
    } else {
        match walk_from(b, e, p, ms.drop_last()) {
            Some(q) => {
                let q2 = spec_neighbour(q, ms.last().direction);
                if !ms.last().moves_crate && free(b, e, q2) {
                    Some(q2)
                } else {
                    None
                }
            },
            None => None,
        }
    }
}

/// A cell the worker stands on or can enter without pushing.
pub open spec fn passable(b: Board, e: Entities, p: Position) -> bool {
    free(b, e, p) || p == e.worker
}

/// Has the search reached the cell at `p`?
pub open spec fn found(dist: Seq<usize>, c: int, p: Position) -> bool {
    dist[cell_index(p, c)] != usize::MAX
}

/// The number of cells the search has reached.
pub open spec fn count_found(dist: Seq<usize>) -> nat
    decreases dist.len(),
{
    if dist.len() == 0 {
        0
    } else {
        count_found(dist.drop_last()) + if dist.last() != usize::MAX {
            1nat
        } else {
            0nat
        }
    }
}

pub proof fn lemma_count_found_bound(dist: Seq<usize>)
    ensures
        count_found(dist) <= dist.len(),
    decreases dist.len(),
{
    if dist.len() > 0 {
        lemma_count_found_bound(dist.drop_last());
    }
}

pub proof fn lemma_count_found_update(dist: Seq<usize>, i: int, v: usize)
    requires
        0 <= i < dist.len(),
        dist[i] == usize::MAX,
        v != usize::MAX,
    ensures
        count_found(dist.update(i, v)) == count_found(dist) + 1,
    decreases dist.len(),
{
    if i < dist.len() - 1 {
        lemma_count_found_update(dist.drop_last(), i, v);
        assert(dist.update(i, v).drop_last() =~= dist.drop_last().update(i, v));
    } else {
        assert(dist.update(i, v).drop_last() =~= dist.drop_last());
    }
}

pub proof fn lemma_count_found_none(n: nat)
    ensures
        count_found(Seq::new(n, |i: int| usize::MAX)) == 0,
    decreases n,
{
    if n > 0 {
        lemma_count_found_none((n - 1) as nat);
        assert(Seq::new(n, |i: int| usize::MAX).drop_last() =~= Seq::new(
            (n - 1) as nat,
            |i: int| usize::MAX,
        ));
    }
}

/// Two cells of a grid with the same index are the same cell.
pub proof fn lemma_index_injective(p: Position, q: Position, c: int, r: int)
    requires
        in_grid(p, c, r),
        in_grid(q, c, r),
        cell_index(p, c) == cell_index(q, c),
    ensures
        p == q,
{
    lemma_index_div_mod(p.y as int, p.x as int, c);
    lemma_index_div_mod(q.y as int, q.x as int, c);
}

/// The direction numbered `k` in the order in which the search looks at neighbours.
pub open spec fn dir_at(k: int) -> Direction {
    if k == 0 {
        Direction::Left
    } else if k == 1 {
        Direction::Right
    } else if k == 2 {
        Direction::Up
    } else {
        Direction::Down
    }
}

/// The number of a direction in that order.
pub open spec fn dir_index(d: Direction) -> int {
    match d {
        Direction::Left => 0,
        Direction::Right => 1,
        Direction::Up => 2,
        Direction::Down => 3,
    }
}

pub fn direction_at(k: usize) -> (d: Direction)
    requires
        k < 4,
    ensures
        d == dir_at(k as int),
        dir_index(d) == k,
{
    if k == 0 {
        Direction::Left
    } else if k == 1 {
        Direction::Right
    } else if k == 2 {
        Direction::Up
    } else {
        Direction::Down
    }
}

/// A walk that is not blocked ends on a cell the worker can stand on; the cell before the last
/// one lies in the reverse direction of the last move.
pub proof fn lemma_walk_last(b: Board, e: Entities, ms: Seq<Move>)
    requires
        board_wf(b),
        entities_wf(b, e),
        walk_from(b, e, e.worker, ms) is Some,
    ensures
        passable(b, e, walk_from(b, e, e.worker, ms)->0),
        in_grid(walk_from(b, e, e.worker, ms)->0, b.columns, b.rows),
        ms.len() > 0 ==> ({
            let q = walk_from(b, e, e.worker, ms)->0;
            let q1 = walk_from(b, e, e.worker, ms.drop_last())->0;
            &&& walk_from(b, e, e.worker, ms.drop_last()) is Some
            &&& spec_neighbour(q, spec_reverse(ms.last().direction)) == q1
            &&& passable(b, e, q1)
        }),
    decreases ms.len(),
{
    if ms.len() > 0 {
        lemma_walk_last(b, e, ms.drop_last());
        let q1 = walk_from(b, e, e.worker, ms.drop_last())->0;
        lemma_interior_neighbours(b, q1);
        lemma_neighbour_reverse(q1, ms.last().direction);
    }
}

/// Extending a walk by one move into a free cell.
pub proof fn lemma_walk_push(b: Board, e: Entities, p: Position, ms: Seq<Move>, m: Move)
    ensures
        walk_from(b, e, p, ms.push(m)) == (match walk_from(b, e, p, ms) {
            Some(q) => if !m.moves_crate && free(b, e, spec_neighbour(q, m.direction)) {
                Some(spec_neighbour(q, m.direction))
            } else {
                None
            },
            None => None,
        }),
{
    assert(ms.push(m).drop_last() =~= ms);
}

/// Every queued cell lies on the board and has been reached.
#[verifier::opaque]
pub open spec fn inv_queue(b: Board, dist: Seq<usize>, queue: Seq<Position>) -> bool {
    forall|k: int|
        0 <= k < queue.len() ==> in_grid(#[trigger] queue[k], b.columns, b.rows) && found(
            dist,
            b.columns,
            queue[k],
        )
}

/// A reached cell has a reached neighbour one step closer to `to`.
#[verifier::opaque]
pub open spec fn has_step_down(b: Board, dist: Seq<usize>, p: Position) -> bool {
    &&& dist[cell_index(p, b.columns)] > 0
    &&& exists|d: Direction|
        in_grid(#[trigger] spec_neighbour(p, d), b.columns, b.rows) && found(
            dist,
            b.columns,
            spec_neighbour(p, d),
        ) && dist[cell_index(spec_neighbour(p, d), b.columns)] + 1 == dist[cell_index(
            p,
            b.columns,
        )]
}

/// Every reached cell is passable, is queued, and (unless it is `to`) has a reached neighbour one
/// step closer to `to`.
#[verifier::opaque]
pub open spec fn inv_found(
    b: Board,
    e: Entities,
    to: Position,
    dist: Seq<usize>,
    queue: Seq<Position>,
) -> bool {
    forall|p: Position|
        in_grid(p, b.columns, b.rows) && #[trigger] found(dist, b.columns, p) ==> {
            &&& passable(b, e, p)
            &&& dist[cell_index(p, b.columns)] < queue.len()
            &&& exists|k: int| 0 <= k < queue.len() && queue[k] == p
            &&& (p == to || has_step_down(b, dist, p))
        }
}

/// The queued cells before `head` have all their passable neighbours reached.
#[verifier::opaque]
pub open spec fn inv_closed(
    b: Board,
    e: Entities,
    dist: Seq<usize>,
    queue: Seq<Position>,
    head: int,
) -> bool {
    forall|k: int, d: Direction|
        0 <= k < head && passable(b, e, #[trigger] spec_neighbour(queue[k], d)) ==> found(
            dist,
            b.columns,
            spec_neighbour(queue[k], d),
        )
}

/// The distance recorded for the `k`-th queued cell.
pub open spec fn qdist(b: Board, dist: Seq<usize>, queue: Seq<Position>, k: int) -> int {
    dist[cell_index(queue[k], b.columns)] as int
}

/// The queue is sorted by distance; from the head on it spans at most two consecutive
/// distances; and the cells before the head have all their passable neighbours reached at most
/// one step further from `to`.
#[verifier::opaque]
pub open spec fn inv_layers(
    b: Board,
    e: Entities,
    dist: Seq<usize>,
    queue: Seq<Position>,
    head: int,
) -> bool {
    &&& forall|k1: int, k2: int|
        0 <= k1 <= k2 < queue.len() ==> #[trigger] qdist(b, dist, queue, k1) <= #[trigger] qdist(
            b,
            dist,
            queue,
            k2,
        )
    &&& head < queue.len() ==> forall|k: int|
        0 <= k < queue.len() ==> #[trigger] qdist(b, dist, queue, k) <= qdist(b, dist, queue, head)
            + 1
    &&& forall|k: int, d: Direction|
        0 <= k < head && passable(b, e, #[trigger] spec_neighbour(queue[k], d)) ==> dist[cell_index(
            spec_neighbour(queue[k], d),
            b.columns,
        )] <= qdist(b, dist, queue, k) + 1
}

/// The invariant of the breadth-first search from `to`.
pub open spec fn search_inv(
    b: Board,
    e: Entities,
    to: Position,
    dist: Seq<usize>,
    queue: Seq<Position>,
    head: int,
) -> bool {
    &&& dist.len() == b.rows * b.columns
    &&& 0 <= head <= queue.len()
    &&& count_found(dist) == queue.len()
    &&& in_grid(to, b.columns, b.rows)
    &&& found(dist, b.columns, to)
    &&& dist[cell_index(to, b.columns)] == 0
    &&& inv_queue(b, dist, queue)
    &&& inv_found(b, e, to, dist, queue)
    &&& inv_closed(b, e, dist, queue, head)
    &&& inv_layers(b, e, dist, queue, head)
}

} // verus!

verus! {

/// The distances found by the search lead down to `to`: every reached cell is passable and, unless
/// it is `to`, has a reached neighbour one step closer.
pub open spec fn descent_ok(b: Board, e: Entities, to: Position, dist: Seq<usize>) -> bool {
    &&& dist.len() == b.rows * b.columns
    &&& found(dist, b.columns, to)
    &&& dist[cell_index(to, b.columns)] == 0
    &&& forall|p: Position|
        in_grid(p, b.columns, b.rows) && #[trigger] found(dist, b.columns, p) ==> {
            &&& passable(b, e, p)
            &&& (p == to || has_step_down(b, dist, p))
        }
}

/// Every passable neighbour of a reached cell is reached.
pub open spec fn closed(b: Board, e: Entities, dist: Seq<usize>) -> bool {
    forall|p: Position, d: Direction|
        in_grid(p, b.columns, b.rows) && found(dist, b.columns, p) && passable(
            b,
            e,
            #[trigger] spec_neighbour(p, d),
        ) ==> found(dist, b.columns, spec_neighbour(p, d))
}

/// Passable cells lie on the board.
pub proof fn lemma_passable_in_grid(b: Board, e: Entities, p: Position)
    requires
        entities_wf(b, e),
        passable(b, e, p),
    ensures
        in_grid(p, b.columns, b.rows),
{
}

/// Setting a cell that was not reached keeps every reached cell reached.
proof fn lemma_set_keeps_found(b: Board, dist: Seq<usize>, ni: int, v: usize)
    requires
        board_wf(b),
        dist.len() == b.rows * b.columns,
        0 <= ni < dist.len(),
        dist[ni] == usize::MAX,
    ensures
        forall|p: Position|
            in_grid(p, b.columns, b.rows) && found(dist, b.columns, p) ==> #[trigger] found(
                dist.update(ni, v),
                b.columns,
                p,
            ) && dist.update(ni, v)[cell_index(p, b.columns)] == dist[cell_index(p, b.columns)],
{
    assert forall|p: Position|
        in_grid(p, b.columns, b.rows) && found(dist, b.columns, p) implies #[trigger] found(
        dist.update(ni, v),
        b.columns,
        p,
    ) && dist.update(ni, v)[cell_index(p, b.columns)] == dist[cell_index(p, b.columns)] by {
        lemma_index_bound(p.y as int, p.x as int, b.columns, b.rows);
    }
}

/// The new neighbour reached from the head of the queue has a step down: back to that cell.
proof fn lemma_new_step_down(b: Board, e: Entities, dist: Seq<usize>, pos: Position, dir: Direction)
    requires
        board_wf(b),
        entities_wf(b, e),
        dist.len() == b.rows * b.columns,
        passable(b, e, pos),
        found(dist, b.columns, pos),
        passable(b, e, spec_neighbour(pos, dir)),
        !found(dist, b.columns, spec_neighbour(pos, dir)),
        dist[cell_index(pos, b.columns)] + 1 < usize::MAX,
    ensures
        ({
            let nb = spec_neighbour(pos, dir);
            let dist2 = dist.update(
                cell_index(nb, b.columns),
                (dist[cell_index(pos, b.columns)] + 1) as usize,
            );
            has_step_down(b, dist2, nb)
        }),
{
    let c = b.columns;
    let nb = spec_neighbour(pos, dir);
    let ni = cell_index(nb, c);
    let dist2 = dist.update(ni, (dist[cell_index(pos, c)] + 1) as usize);
    reveal(has_step_down);
    lemma_passable_in_grid(b, e, pos);
    lemma_passable_in_grid(b, e, nb);
    lemma_index_bound(nb.y as int, nb.x as int, c, b.rows);
    lemma_index_bound(pos.y as int, pos.x as int, c, b.rows);
    lemma_interior_neighbours(b, pos);
    lemma_neighbour_reverse(pos, dir);
    let back = spec_reverse(dir);
    assert(spec_neighbour(nb, back) == pos);
    assert(cell_index(pos, c) != ni);
    assert(in_grid(spec_neighbour(nb, back), c, b.rows));
    assert(found(dist2, c, spec_neighbour(nb, back)));
}

/// A cell reached before keeps its step down when a new cell is reached.
proof fn lemma_keeps_step_down(b: Board, dist: Seq<usize>, ni: int, v: usize, p: Position)
    requires
        board_wf(b),
        dist.len() == b.rows * b.columns,
        0 <= ni < dist.len(),
        dist[ni] == usize::MAX,
        in_grid(p, b.columns, b.rows),
        found(dist, b.columns, p),
        has_step_down(b, dist, p),
    ensures
        has_step_down(b, dist.update(ni, v), p),
{
    let c = b.columns;
    reveal(has_step_down);
    lemma_set_keeps_found(b, dist, ni, v);
    let dd = choose|dd: Direction|
        in_grid(#[trigger] spec_neighbour(p, dd), c, b.rows) && found(dist, c, spec_neighbour(p, dd))
            && dist[cell_index(spec_neighbour(p, dd), c)] + 1 == dist[cell_index(p, c)];
    let w = spec_neighbour(p, dd);
    let dist2 = dist.update(ni, v);
    assert(found(dist2, c, w));
    assert(found(dist2, c, p));
    assert(dist2[cell_index(w, c)] == dist[cell_index(w, c)]);
    assert(dist2[cell_index(p, c)] == dist[cell_index(p, c)]);
    assert(in_grid(spec_neighbour(p, dd), c, b.rows) && found(dist2, c, spec_neighbour(p, dd))
        && dist2[cell_index(spec_neighbour(p, dd), c)] + 1 == dist2[cell_index(p, c)]);
}

proof fn lemma_discover_queue(b: Board, dist: Seq<usize>, queue: Seq<Position>, nb: Position, ni: int, v: usize)
    requires
        board_wf(b),
        dist.len() == b.rows * b.columns,
        inv_queue(b, dist, queue),
        in_grid(nb, b.columns, b.rows),
        ni == cell_index(nb, b.columns),
        0 <= ni < dist.len(),
        dist[ni] == usize::MAX,
        v != usize::MAX,
    ensures
        inv_queue(b, dist.update(ni, v), queue.push(nb)),
{
    reveal(inv_queue);
    let c = b.columns;
    let dist2 = dist.update(ni, v);
    let queue2 = queue.push(nb);
    lemma_set_keeps_found(b, dist, ni, v);
    assert forall|k: int| 0 <= k < queue2.len() implies in_grid(#[trigger] queue2[k], c, b.rows)
        && found(dist2, c, queue2[k]) by {
        if k < queue.len() {
            assert(queue2[k] == queue[k]);
            assert(in_grid(queue[k], c, b.rows) && found(dist, c, queue[k]));
        }
    }
}

#[verifier::rlimit(40)]
proof fn lemma_discover_found(
    b: Board,
    e: Entities,
    to: Position,
    dist: Seq<usize>,
    queue: Seq<Position>,
    pos: Position,
    dir: Direction,
)
    requires
        board_wf(b),
        entities_wf(b, e),
        dist.len() == b.rows * b.columns,
        count_found(dist) == queue.len(),
        found(dist, b.columns, to),
        inv_found(b, e, to, dist, queue),
        in_grid(pos, b.columns, b.rows),
        found(dist, b.columns, pos),
        passable(b, e, spec_neighbour(pos, dir)),
        !found(dist, b.columns, spec_neighbour(pos, dir)),
    ensures
        ({
            let nb = spec_neighbour(pos, dir);
            let dist2 = dist.update(
                cell_index(nb, b.columns),
                (dist[cell_index(pos, b.columns)] + 1) as usize,
            );
            &&& dist[cell_index(pos, b.columns)] + 1 < usize::MAX
            &&& inv_found(b, e, to, dist2, queue.push(nb))
        }),
{
    let c = b.columns;
    let nb = spec_neighbour(pos, dir);
    let ni = cell_index(nb, c);
    reveal(inv_found);
    assert(passable(b, e, pos) && dist[cell_index(pos, c)] < queue.len());
    lemma_count_found_bound(dist);
    let v = (dist[cell_index(pos, c)] + 1) as usize;
    let dist2 = dist.update(ni, v);
    let queue2 = queue.push(nb);
    lemma_passable_in_grid(b, e, nb);
    lemma_index_bound(nb.y as int, nb.x as int, c, b.rows);
    lemma_set_keeps_found(b, dist, ni, v);
    lemma_new_step_down(b, e, dist, pos, dir);
    assert forall|p: Position| in_grid(p, c, b.rows) && #[trigger] found(dist2, c, p) implies {
        &&& passable(b, e, p)
        &&& dist2[cell_index(p, c)] < queue2.len()
        &&& exists|k: int| 0 <= k < queue2.len() && queue2[k] == p
        &&& (p == to || has_step_down(b, dist2, p))
    } by {
        if p == nb {
            assert(queue2[queue.len() as int] == p);
        } else {
            lemma_index_bound(p.y as int, p.x as int, c, b.rows);
            if cell_index(p, c) == ni {
                lemma_index_injective(p, nb, c, b.rows);
            }
            assert(found(dist, c, p));
            let k = choose|k: int| 0 <= k < queue.len() && queue[k] == p;
            assert(queue2[k] == p);
            if p != to {
                lemma_keeps_step_down(b, dist, ni, v, p);
            }
        }
    }
}

proof fn lemma_discover_closed(
    b: Board,
    e: Entities,
    dist: Seq<usize>,
    queue: Seq<Position>,
    head: int,
    nb: Position,
    ni: int,
    v: usize,
)
    requires
        board_wf(b),
        entities_wf(b, e),
        dist.len() == b.rows * b.columns,
        0 <= head <= queue.len(),
        inv_closed(b, e, dist, queue, head),
        0 <= ni < dist.len(),
        dist[ni] == usize::MAX,
    ensures
        inv_closed(b, e, dist.update(ni, v), queue.push(nb), head),
{
    reveal(inv_closed);
    let c = b.columns;
    let queue2 = queue.push(nb);
    lemma_set_keeps_found(b, dist, ni, v);
    assert forall|k: int, dd: Direction|
        0 <= k < head && passable(b, e, #[trigger] spec_neighbour(queue2[k], dd)) implies found(
        dist.update(ni, v),
        c,
        spec_neighbour(queue2[k], dd),
    ) by {
        assert(queue2[k] == queue[k]);
        let w = spec_neighbour(queue[k], dd);
        assert(found(dist, c, w));
        lemma_passable_in_grid(b, e, w);
    }
}

/// Reaching a new neighbour of the cell at the head of the queue keeps the invariant of the
/// search, and every cell reached before stays reached.
proof fn lemma_discover(
    b: Board,
    e: Entities,
    to: Position,
    dist: Seq<usize>,
    queue: Seq<Position>,
    head: int,
    dir: Direction,
)
    requires
        board_wf(b),
        entities_wf(b, e),
        search_inv(b, e, to, dist, queue, head),
        head < queue.len(),
        passable(b, e, spec_neighbour(queue[head], dir)),
        !found(dist, b.columns, spec_neighbour(queue[head], dir)),
    ensures
        ({
            let pos = queue[head];
            let nb = spec_neighbour(pos, dir);
            let dist2 = dist.update(
                cell_index(nb, b.columns),
                (dist[cell_index(pos, b.columns)] + 1) as usize,
            );
            &&& search_inv(b, e, to, dist2, queue.push(nb), head)
            &&& forall|p: Position|
                in_grid(p, b.columns, b.rows) && found(dist, b.columns, p) ==> #[trigger] found(
                    dist2,
                    b.columns,
                    p,
                )
            &&& dist[cell_index(pos, b.columns)] + 1 < usize::MAX
        }),
{
    let c = b.columns;
    let pos = queue[head];
    let nb = spec_neighbour(pos, dir);
    let ni = cell_index(nb, c);
    assert(in_grid(pos, c, b.rows) && found(dist, c, pos)) by {
        reveal(inv_queue);
    }
    lemma_discover_found(b, e, to, dist, queue, pos, dir);
    let v = (dist[cell_index(pos, c)] + 1) as usize;
    lemma_passable_in_grid(b, e, nb);
    lemma_index_bound(nb.y as int, nb.x as int, c, b.rows);
    lemma_index_bound(to.y as int, to.x as int, c, b.rows);
    assert(cell_index(to, c) != ni);
    lemma_count_found_update(dist, ni, v);
    lemma_set_keeps_found(b, dist, ni, v);
    lemma_discover_queue(b, dist, queue, nb, ni, v);
    lemma_discover_closed(b, e, dist, queue, head, nb, ni, v);
    lemma_layers_discover(b, e, to, dist, queue, head, dir);
}

/// A walk from the worker to a reached cell, in a search whose reached cells are closed under
/// passable neighbours, means that the worker's cell is reached.
pub proof fn lemma_walk_found(b: Board, e: Entities, dist: Seq<usize>, ms: Seq<Move>)
    requires
        board_wf(b),
        entities_wf(b, e),
        closed(b, e, dist),
        walk_from(b, e, e.worker, ms) is Some,
        found(dist, b.columns, walk_from(b, e, e.worker, ms)->0),
    ensures
        found(dist, b.columns, e.worker),
    decreases ms.len(),
{
    if ms.len() > 0 {
        lemma_walk_last(b, e, ms);
        let q = walk_from(b, e, e.worker, ms)->0;
        let q1 = walk_from(b, e, e.worker, ms.drop_last())->0;
        assert(found(dist, b.columns, spec_neighbour(q, spec_reverse(ms.last().direction))));
        lemma_walk_found(b, e, dist, ms.drop_last());
    }
}

} // verus!

verus! {

/// The search starts with `to` reached at distance 0 and queued.
proof fn lemma_search_start(b: Board, e: Entities, to: Position, dist: Seq<usize>)
    requires
        board_wf(b),
        entities_wf(b, e),
        free(b, e, to),
        dist == Seq::new((b.rows * b.columns) as nat, |i: int| usize::MAX).update(
            cell_index(to, b.columns),
            0,
        ),
    ensures
        search_inv(b, e, to, dist, seq![to], 0),
{
    let c = b.columns;
    let ti = cell_index(to, c);
    let d0 = Seq::new((b.rows * b.columns) as nat, |i: int| usize::MAX);
    lemma_index_bound(to.y as int, to.x as int, c, b.rows);
    lemma_count_found_none((b.rows * b.columns) as nat);
    lemma_count_found_update(d0, ti, 0);
    reveal(inv_queue);
    reveal(inv_found);
    reveal(inv_closed);
    reveal(inv_layers);
    assert forall|k1: int, k2: int|
        0 <= k1 <= k2 < seq![to].len() implies #[trigger] qdist(b, dist, seq![to], k1)
        <= #[trigger] qdist(b, dist, seq![to], k2) by {
        assert(k1 == 0 && k2 == 0);
    }
    assert forall|p: Position| in_grid(p, c, b.rows) && #[trigger] found(dist, c, p) implies {
        &&& passable(b, e, p)
        &&& dist[cell_index(p, c)] < seq![to].len()
        &&& exists|k: int| 0 <= k < seq![to].len() && seq![to][k] == p
        &&& (p == to || has_step_down(b, dist, p))
    } by {
        lemma_index_bound(p.y as int, p.x as int, c, b.rows);
        if cell_index(p, c) == ti {
            lemma_index_injective(p, to, c, b.rows);
        }
        assert(seq![to][0] == to);
    }
}

/// Once every neighbour of the cell at the head of the queue has been looked at, the head can
/// move on.
proof fn lemma_advance_head(
    b: Board,
    e: Entities,
    to: Position,
    dist: Seq<usize>,
    queue: Seq<Position>,
    head: int,
)
    requires
        board_wf(b),
        entities_wf(b, e),
        search_inv(b, e, to, dist, queue, head),
        head < queue.len(),
        forall|d: Direction|
            passable(b, e, #[trigger] spec_neighbour(queue[head], d)) ==> found(
                dist,
                b.columns,
                spec_neighbour(queue[head], d),
            ),
    ensures
        search_inv(b, e, to, dist, queue, head + 1),
{
    lemma_layers_advance(b, e, to, dist, queue, head);
    reveal(inv_closed);
}

/// When the queue is used up, the reached cells are closed under passable neighbours, and the
/// distances lead down to `to`.
proof fn lemma_search_done(
    b: Board,
    e: Entities,
    to: Position,
    dist: Seq<usize>,
    queue: Seq<Position>,
    head: int,
)
    requires
        search_inv(b, e, to, dist, queue, head),
    ensures
        descent_ok(b, e, to, dist),
        head == queue.len() ==> closed(b, e, dist),
        forall|p: Position|
            in_grid(p, b.columns, b.rows) && #[trigger] found(dist, b.columns, p) ==> exists|k: int|
                0 <= k < queue.len() && queue[k] == p,
{
    reveal(inv_found);
    reveal(inv_closed);
    if head == queue.len() {
        assert forall|p: Position, d: Direction|
            in_grid(p, b.columns, b.rows) && found(dist, b.columns, p) && passable(
                b,
                e,
                #[trigger] spec_neighbour(p, d),
            ) implies found(dist, b.columns, spec_neighbour(p, d)) by {
            let k = choose|k: int| 0 <= k < queue.len() && queue[k] == p;
            assert(spec_neighbour(queue[k], d) == spec_neighbour(p, d));
        }
    }
}

/// The cells queued are reached, so the cell of a newly reached neighbour is none of theirs, and
/// their distances stay as they are.
proof fn lemma_queue_cells_kept(
    b: Board,
    dist: Seq<usize>,
    queue: Seq<Position>,
    ni: int,
    v: usize,
)
    requires
        board_wf(b),
        dist.len() == b.rows * b.columns,
        inv_queue(b, dist, queue),
        0 <= ni < dist.len(),
        dist[ni] == usize::MAX,
    ensures
        forall|k: int|
            0 <= k < queue.len() ==> #[trigger] qdist(b, dist.update(ni, v), queue, k) == qdist(
                b,
                dist,
                queue,
                k,
            ),
{
    reveal(inv_queue);
    assert forall|k: int| 0 <= k < queue.len() implies #[trigger] qdist(
        b,
        dist.update(ni, v),
        queue,
        k,
    ) == qdist(b, dist, queue, k) by {
        assert(in_grid(queue[k], b.columns, b.rows) && found(dist, b.columns, queue[k]));
        lemma_index_bound(queue[k].y as int, queue[k].x as int, b.columns, b.rows);
    }
}

/// Reaching a new neighbour of the head of the queue, one step further than the head, keeps the
/// queue in layers.
proof fn lemma_layers_discover(
    b: Board,
    e: Entities,
    to: Position,
    dist: Seq<usize>,
    queue: Seq<Position>,
    head: int,
    dir: Direction,
)
    requires
        board_wf(b),
        entities_wf(b, e),
        search_inv(b, e, to, dist, queue, head),
        head < queue.len(),
        passable(b, e, spec_neighbour(queue[head], dir)),
        !found(dist, b.columns, spec_neighbour(queue[head], dir)),
        dist[cell_index(queue[head], b.columns)] + 1 < usize::MAX,
    ensures
        ({
            let pos = queue[head];
            let nb = spec_neighbour(pos, dir);
            let dist2 = dist.update(
                cell_index(nb, b.columns),
                (dist[cell_index(pos, b.columns)] + 1) as usize,
            );
            inv_layers(b, e, dist2, queue.push(nb), head)
        }),
{
    let c = b.columns;
    let pos = queue[head];
    let nb = spec_neighbour(pos, dir);
    let ni = cell_index(nb, c);
    let v = (dist[cell_index(pos, c)] + 1) as usize;
    let dist2 = dist.update(ni, v);
    let queue2 = queue.push(nb);
    lemma_passable_in_grid(b, e, nb);
    lemma_index_bound(nb.y as int, nb.x as int, c, b.rows);
    lemma_queue_cells_kept(b, dist, queue, ni, v);
    lemma_set_keeps_found(b, dist, ni, v);
    reveal(inv_layers);
    reveal(inv_closed);
    assert forall|k: int| 0 <= k < queue.len() implies #[trigger] qdist(b, dist2, queue2, k) == qdist(
        b,
        dist,
        queue,
        k,
    ) by {
        assert(queue2[k] == queue[k]);
        assert(qdist(b, dist2, queue, k) == qdist(b, dist, queue, k));
    }
    assert(qdist(b, dist2, queue2, queue.len() as int) == v);
    assert forall|k1: int, k2: int|
        0 <= k1 <= k2 < queue2.len() implies #[trigger] qdist(b, dist2, queue2, k1)
        <= #[trigger] qdist(b, dist2, queue2, k2) by {
        if k2 == queue.len() {
            if k1 < queue.len() {
                assert(qdist(b, dist, queue, k1) <= qdist(b, dist, queue, head) + 1);
            }
        } else {
            assert(qdist(b, dist, queue, k1) <= qdist(b, dist, queue, k2));
        }
    }
    assert forall|k: int| 0 <= k < queue2.len() implies #[trigger] qdist(b, dist2, queue2, k)
        <= qdist(b, dist2, queue2, head) + 1 by {
        if k < queue.len() {
            assert(qdist(b, dist, queue, k) <= qdist(b, dist, queue, head) + 1);
        }
    }
    assert forall|k: int, d: Direction|
        0 <= k < head && passable(b, e, #[trigger] spec_neighbour(queue2[k], d)) implies dist2[cell_index(
        spec_neighbour(queue2[k], d),
        c,
    )] <= qdist(b, dist2, queue2, k) + 1 by {
        assert(queue2[k] == queue[k]);
        let w = spec_neighbour(queue[k], d);
        assert(found(dist, c, w));
        lemma_passable_in_grid(b, e, w);
        assert(found(dist2, c, w));
        assert(dist2[cell_index(w, c)] == dist[cell_index(w, c)]);
        assert(qdist(b, dist2, queue2, k) == qdist(b, dist, queue, k));
        assert(dist[cell_index(w, c)] <= qdist(b, dist, queue, k) + 1);
    }
}

/// Once all passable neighbours of the head are reached, they are at most one step further than
/// the head, and the queue stays in layers with the head moved on.
proof fn lemma_layers_advance(
    b: Board,
    e: Entities,
    to: Position,
    dist: Seq<usize>,
    queue: Seq<Position>,
    head: int,
)
    requires
        board_wf(b),
        entities_wf(b, e),
        search_inv(b, e, to, dist, queue, head),
        head < queue.len(),
        forall|d: Direction|
            passable(b, e, #[trigger] spec_neighbour(queue[head], d)) ==> found(
                dist,
                b.columns,
                spec_neighbour(queue[head], d),
            ),
    ensures
        inv_layers(b, e, dist, queue, head + 1),
{
    let c = b.columns;
    reveal(inv_layers);
    reveal(inv_found);
    if head + 1 < queue.len() {
        assert(qdist(b, dist, queue, head) <= qdist(b, dist, queue, head + 1));
        assert forall|k: int| 0 <= k < queue.len() implies #[trigger] qdist(b, dist, queue, k)
            <= qdist(b, dist, queue, head + 1) + 1 by {
            assert(qdist(b, dist, queue, k) <= qdist(b, dist, queue, head) + 1);
        }
    }
    assert forall|k: int, d: Direction|
        0 <= k < head + 1 && passable(b, e, #[trigger] spec_neighbour(queue[k], d)) implies dist[cell_index(
        spec_neighbour(queue[k], d),
        c,
    )] <= qdist(b, dist, queue, k) + 1 by {
        if k == head {
            let w = spec_neighbour(queue[head], d);
            lemma_passable_in_grid(b, e, w);
            assert(found(dist, c, w));
            let kk = choose|kk: int| 0 <= kk < queue.len() && queue[kk] == w;
            assert(qdist(b, dist, queue, kk) <= qdist(b, dist, queue, head) + 1);
        }
    }
}

/// Following a walk from the worker to `to` backwards from its end: while the number of moves
/// left is below the distance of the head of the queue, each cell on the walk is reached, at
/// most that many steps from `to`.
proof fn lemma_walk_close(
    b: Board,
    e: Entities,
    to: Position,
    dist: Seq<usize>,
    queue: Seq<Position>,
    head: int,
    ms: Seq<Move>,
    i: int,
)
    requires
        board_wf(b),
        entities_wf(b, e),
        search_inv(b, e, to, dist, queue, head),
        head < queue.len(),
        walk_from(b, e, e.worker, ms) == Some(to),
        ms.len() < qdist(b, dist, queue, head),
        0 <= i <= ms.len(),
    ensures
        walk_from(b, e, e.worker, ms.take(i)) is Some,
        found(dist, b.columns, walk_from(b, e, e.worker, ms.take(i))->0),
        dist[cell_index(walk_from(b, e, e.worker, ms.take(i))->0, b.columns)] <= ms.len() - i,
    decreases ms.len() - i,
{
    let c = b.columns;
    if i == ms.len() {
        assert(ms.take(i) =~= ms);
    } else {
        lemma_walk_close(b, e, to, dist, queue, head, ms, i + 1);
        let ms1 = ms.take(i + 1);
        lemma_walk_last(b, e, ms1);
        assert(ms1.drop_last() =~= ms.take(i));
        let q1 = walk_from(b, e, e.worker, ms1)->0;
        let q0 = walk_from(b, e, e.worker, ms.take(i))->0;
        let back = spec_reverse(ms1.last().direction);
        assert(spec_neighbour(q1, back) == q0);
        reveal(inv_found);
        reveal(inv_layers);
        reveal(inv_closed);
        assert(in_grid(q1, c, b.rows));
        let kk = choose|kk: int| 0 <= kk < queue.len() && queue[kk] == q1;
        assert(qdist(b, dist, queue, kk) == dist[cell_index(q1, c)]);
        if kk >= head {
            assert(qdist(b, dist, queue, head) <= qdist(b, dist, queue, kk));
        }
        assert(kk < head);
        assert(spec_neighbour(queue[kk], back) == q0);
        assert(passable(b, e, spec_neighbour(queue[kk], back)));
        assert(found(dist, c, spec_neighbour(queue[kk], back)));
        assert(dist[cell_index(spec_neighbour(queue[kk], back), c)] <= qdist(b, dist, queue, kk) + 1);
    }
}

/// When the worker's cell is at the head of the queue, no walk from the worker to `to` is
/// shorter than the distance recorded for the worker.
proof fn lemma_shortest(
    b: Board,
    e: Entities,
    to: Position,
    dist: Seq<usize>,
    queue: Seq<Position>,
    head: int,
    ms: Seq<Move>,
)
    requires
        board_wf(b),
        entities_wf(b, e),
        search_inv(b, e, to, dist, queue, head),
        head < queue.len(),
        queue[head] == e.worker,
        walk_from(b, e, e.worker, ms) == Some(to),
    ensures
        dist[cell_index(e.worker, b.columns)] <= ms.len(),
{
    if ms.len() < qdist(b, dist, queue, head) {
        lemma_walk_close(b, e, to, dist, queue, head, ms, 0);
        assert(ms.take(0) =~= Seq::<Move>::empty());
    }
}

impl CurrentLevel {
    /// Breadth-first search from `to` over the cells the worker can enter without pushing; stops
    /// once the worker's cell is reached. Returns the distances (`usize::MAX` for cells not
    /// reached) and whether the worker's cell was reached.
    fn search(&self, to: Position) -> (r: (Vec<usize>, bool))
        requires
            self.wf(),
            free(self.board(), self.entities(), to),
        ensures
            descent_ok(self.board(), self.entities(), to, r.0@),
            r.1 == found(r.0@, self.columns as int, self.entities().worker),
            !r.1 ==> closed(self.board(), self.entities(), r.0@),
            r.1 ==> forall|ms: Seq<Move>|
                walk_from(self.board(), self.entities(), self.entities().worker, ms) == Some(to)
                    ==> r.0@[cell_index(self.entities().worker, self.columns as int)] <= ms.len(),
    {
        let ghost b = self.board();
        let ghost e = self.entities();
        let worker = self.dynamic.worker_position;
        proof {
            lemma_board_dims(b);
        }
        let n = self.rows * self.columns;
        let mut dist: Vec<usize> = vec![usize::MAX; n];
        assert(dist@ =~= Seq::new((b.rows * b.columns) as nat, |i: int| usize::MAX));
        let ti = self.index(to);
        dist.set(ti, 0);
        let mut queue: Vec<Position> = Vec::new();
        queue.push(to);
        proof {
            assert(queue@ =~= seq![to]);
            lemma_search_start(b, e, to, dist@);
        }
        let mut head: usize = 0;
        while head < queue.len()
            invariant
                self.wf(),
                b == self.board(),
                e == self.entities(),
                worker == e.worker,
                search_inv(b, e, to, dist@, queue@, head as int),
                forall|k: int| 0 <= k < head ==> queue@[k] != worker,
            decreases b.rows * b.columns - head,
        {
            proof {
                lemma_count_found_bound(dist@);
            }
            let pos = queue[head];
            if pos == worker {
                proof {
                    reveal(inv_queue);
                    lemma_search_done(b, e, to, dist@, queue@, head as int);
                    assert forall|ms: Seq<Move>| walk_from(b, e, e.worker, ms) == Some(to) implies dist@[cell_index(
                        e.worker,
                        b.columns,
                    )] <= ms.len() by {
                        lemma_shortest(b, e, to, dist@, queue@, head as int, ms);
                    }
                }
                return (dist, true);
            }
            proof {
                reveal(inv_queue);
                reveal(inv_found);
                assert(in_grid(pos, b.columns, b.rows) && found(dist@, b.columns, pos));
                assert(passable(b, e, pos));
                lemma_interior_neighbours(b, pos);
            }
            let d = dist[self.index(pos)];
            let mut k: usize = 0;
            while k < 4
                invariant
                    self.wf(),
                    b == self.board(),
                    e == self.entities(),
                    worker == e.worker,
                    head < queue@.len(),
                    pos == queue@[head as int],
                    has_all_neighbours(pos),
                    in_grid(pos, b.columns, b.rows),
                    d == dist@[cell_index(pos, b.columns)],
                    search_inv(b, e, to, dist@, queue@, head as int),
                    forall|kk: int| 0 <= kk < head ==> queue@[kk] != worker,
                    forall|dd: Direction|
                        dir_index(dd) < k && passable(b, e, #[trigger] spec_neighbour(pos, dd))
                            ==> found(dist@, b.columns, spec_neighbour(pos, dd)),
                decreases 4 - k,
            {
                let dir = direction_at(k);
                let nb = pos.neighbour(dir);
                if self.is_empty(nb) || nb == worker {
                    proof {
                        lemma_passable_in_grid(b, e, nb);
                    }
                    let ni = self.index(nb);
                    if dist[ni] == usize::MAX {
                        let ghost old_dist = dist@;
                        let ghost old_queue = queue@;
                        proof {
                            lemma_discover(b, e, to, dist@, queue@, head as int, dir);
                        }
                        dist.set(ni, d + 1);
                        queue.push(nb);
                        proof {
                            assert(forall|kk: int|
                                0 <= kk < head ==> queue@[kk] == old_queue[kk]);
                            assert forall|dd: Direction|
                                dir_index(dd) < k + 1 && passable(
                                    b,
                                    e,
                                    #[trigger] spec_neighbour(pos, dd),
                                ) implies found(dist@, b.columns, spec_neighbour(pos, dd)) by {
                                if dd != dir {
                                    lemma_passable_in_grid(b, e, spec_neighbour(pos, dd));
                                    assert(found(old_dist, b.columns, spec_neighbour(pos, dd)));
                                }
                            }
                            assert(pos == queue@[head as int]);
                            lemma_index_bound(pos.y as int, pos.x as int, b.columns, b.rows);
                            assert(d == dist@[cell_index(pos, b.columns)]);
                        }
                    }
                }
                k = k + 1;
            }
            proof {
                assert forall|dd: Direction|
                    passable(b, e, #[trigger] spec_neighbour(queue@[head as int], dd)) implies found(
                    dist@,
                    b.columns,
                    spec_neighbour(queue@[head as int], dd),
                ) by {
                    assert(dir_index(dd) < 4);
                }
                lemma_advance_head(b, e, to, dist@, queue@, head as int);
            }
            head = head + 1;
        }
        proof {
            lemma_search_done(b, e, to, dist@, queue@, head as int);
            lemma_index_bound(worker.y as int, worker.x as int, b.columns, b.rows);
        }
        (dist, false)
    }
}

} // verus!

verus! {

/// The events reported while the worker follows the moves `ms` from `p`.
pub open spec fn walk_events(b: Board, e: Entities, p: Position, ms: Seq<Move>) -> Seq<Event>
    decreases ms.len(),
{
    if ms.len() == 0 {
        Seq::empty()
    } else {
        let q = walk_from(b, e, p, ms.drop_last())->0;
        walk_events(b, e, p, ms.drop_last()).push(
            Event::MoveWorker {
                from: q,
                to: spec_neighbour(q, ms.last().direction),
                direction: ms.last().direction,
            },
        )
    }
}

/// A reached cell other than `to` has a reached neighbour one step closer.
proof fn lemma_step_down_exists(b: Board, e: Entities, to: Position, dist: Seq<usize>, pos: Position)
    requires
        descent_ok(b, e, to, dist),
        in_grid(pos, b.columns, b.rows),
        found(dist, b.columns, pos),
        pos != to,
    ensures
        exists|d: Direction|
            in_grid(#[trigger] spec_neighbour(pos, d), b.columns, b.rows) && found(
                dist,
                b.columns,
                spec_neighbour(pos, d),
            ) && dist[cell_index(spec_neighbour(pos, d), b.columns)] + 1 == dist[cell_index(
                pos,
                b.columns,
            )],
{
    reveal(has_step_down);
}

impl CurrentLevel {
    /// A neighbour of `pos` one step closer to `to`.
    fn step_down(&self, dist: &Vec<usize>, to: Position, pos: Position) -> (d: Direction)
        requires
            self.wf(),
            descent_ok(self.board(), self.entities(), to, dist@),
            in_grid(pos, self.columns as int, self.rows as int),
            found(dist@, self.columns as int, pos),
            pos != to,
        ensures
            in_grid(spec_neighbour(pos, d), self.columns as int, self.rows as int),
            found(dist@, self.columns as int, spec_neighbour(pos, d)),
            dist@[cell_index(spec_neighbour(pos, d), self.columns as int)] + 1 == dist@[cell_index(
                pos,
                self.columns as int,
            )],
    {
        let ghost b = self.board();
        proof {
            lemma_step_down_exists(b, self.entities(), to, dist@, pos);
            lemma_interior_neighbours(b, pos);
            lemma_index_bound(pos.y as int, pos.x as int, b.columns, b.rows);
        }
        let dp = dist[self.index(pos)];
        let mut k: usize = 0;
        while k < 4
            invariant
                self.wf(),
                b == self.board(),
                descent_ok(self.board(), self.entities(), to, dist@),
                in_grid(pos, b.columns, b.rows),
                has_all_neighbours(pos),
                found(dist@, b.columns, pos),
                pos != to,
                dp == dist@[cell_index(pos, b.columns)],
                forall|dd: Direction|
                    dir_index(dd) < k ==> !(in_grid(
                        #[trigger] spec_neighbour(pos, dd),
                        b.columns,
                        b.rows,
                    ) && found(dist@, b.columns, spec_neighbour(pos, dd)) && dist@[cell_index(
                        spec_neighbour(pos, dd),
                        b.columns,
                    )] + 1 == dp),
            decreases 4 - k,
        {
            let dir = direction_at(k);
            let cand = pos.neighbour(dir);
            if self.in_bounds(cand) {
                let dc = dist[self.index(cand)];
                if dc != usize::MAX && dc + 1 == dp {
                    return dir;
                }
            }
            k = k + 1;
        }
        proof {
            let dd = choose|dd: Direction|
                in_grid(#[trigger] spec_neighbour(pos, dd), b.columns, b.rows) && found(
                    dist@,
                    b.columns,
                    spec_neighbour(pos, dd),
                ) && dist@[cell_index(spec_neighbour(pos, dd), b.columns)] + 1 == dist@[cell_index(
                    pos,
                    b.columns,
                )];
            assert(dir_index(dd) < 4);
        }
        Direction::Left
    }

    /// Try to find a shortest path from the worker's current position to `to`, walking through
    /// free cells. If there is none (`to` is a wall, a crate or outside the level, or cannot be
    /// reached), report it.
    pub fn find_path(&mut self, to: Position) -> (r: Option<Path>)
        requires
            old(self).wf(),
        ensures
            final(self).wf(),
            final(self).same_board(old(self)),
            final(self).entities() == old(self).entities(),
            final(self).history() == old(self).history(),
            ({
                let b = old(self).board();
                let e = old(self).entities();
                match r {
                    Some(path) => {
                        &&& path.start == e.worker
                        &&& final(self).pending() == old(self).pending()
                        &&& walk_from(b, e, e.worker, path.steps@) == Some(to)
                        &&& forall|ms: Seq<Move>|
                            walk_from(b, e, e.worker, ms) == Some(to) ==> path.steps@.len()
                                <= ms.len()
                    },
                    None => {
                        &&& e.worker != to
                        &&& forall|ms: Seq<Move>| walk_from(b, e, e.worker, ms) != Some(to)
                        &&& final(self).pending() == old(self).pending().push(Event::NoPathFound)
                    },
                }
            }),
    {
        let ghost b = self.board();
        let ghost e = self.entities();
        let worker = self.dynamic.worker_position;
        if worker == to {
            proof {
                assert(walk_from(b, e, e.worker, Seq::<Move>::empty()) == Some(to));
            }
            return Some(Path { start: worker, steps: Vec::new() });
        }
        if !self.is_empty(to) {
            proof {
                assert forall|ms: Seq<Move>| walk_from(b, e, e.worker, ms) != Some(to) by {
                    if ms.len() > 0 {
                        assert(walk_from(b, e, e.worker, ms) is Some ==> free(b, e, to)
                            || walk_from(b, e, e.worker, ms) != Some(to));
                    }
                }
            }
            self.events.push(Event::NoPathFound);
            return None;
        }
        let (dist, reached) = self.search(to);
        if !reached {
            proof {
                assert forall|ms: Seq<Move>| walk_from(b, e, e.worker, ms) != Some(to) by {
                    if walk_from(b, e, e.worker, ms) == Some(to) {
                        lemma_walk_found(b, e, dist@, ms);
                    }
                }
            }
            self.events.push(Event::NoPathFound);
            return None;
        }
        proof {
            lemma_index_bound(worker.y as int, worker.x as int, b.columns, b.rows);
        }
        let mut pos = worker;
        let mut steps: Vec<Move> = Vec::new();
        while pos != to
            invariant
                self.wf(),
                b == self.board(),
                e == self.entities(),
                worker == e.worker,
                descent_ok(b, e, to, dist@),
                in_grid(pos, b.columns, b.rows),
                found(dist@, b.columns, pos),
                found(dist@, b.columns, worker),
                walk_from(b, e, worker, steps@) == Some(pos),
                dist@[cell_index(pos, b.columns)] + steps@.len() == dist@[cell_index(
                    worker,
                    b.columns,
                )],
            decreases dist@[cell_index(pos, b.columns)],
        {
            let dir = self.step_down(&dist, to, pos);
            proof {
                lemma_interior_neighbours(b, pos);
            }
            let nb = pos.neighbour(dir);
            proof {
                assert(passable(b, e, nb));
                assert(nb != worker);
                lemma_walk_push(b, e, worker, steps@, Move { direction: dir, moves_crate: false });
            }
            steps.push(Move { direction: dir, moves_crate: false });
            pos = nb;
        }
        Some(Path { start: worker, steps })
    }

    /// Follow the given path, which must lead through free cells.
    pub fn follow_path(&mut self, path: Path)
        requires
            old(self).wf(),
            path.start == old(self).entities().worker,
            walk_from(old(self).board(), old(self).entities(), path.start, path.steps@) is Some,
        ensures
            final(self).wf(),
            final(self).same_board(old(self)),
            final(self).entities() == (Entities {
                crates: old(self).entities().crates,
                worker: walk_from(
                    old(self).board(),
                    old(self).entities(),
                    path.start,
                    path.steps@,
                )->0,
            }),
            final(self).history() == record_all(old(self).history(), path.steps@),
            final(self).pending() == old(self).pending() + walk_events(
                old(self).board(),
                old(self).entities(),
                path.start,
                path.steps@,
            ),
    {
        let ghost b = self.board();
        let ghost e = self.entities();
        let ghost h = self.history();
        let ghost p0 = self.pending();
        let n = path.steps.len();
        proof {
            assert(path.steps@.take(0) =~= Seq::<Move>::empty());
            assert(p0 + Seq::<Event>::empty() =~= p0);
        }
        for i in 0..n
            invariant
                self.wf(),
                b == self.board(),
                self.same_board(old(self)),
                e == old(self).entities(),
                h == old(self).history(),
                p0 == old(self).pending(),
                n == path.steps@.len(),
                path.start == e.worker,
                walk_from(b, e, path.start, path.steps@) is Some,
                self.entities() == (Entities {
                    crates: e.crates,
                    worker: walk_from(b, e, path.start, path.steps@.take(i as int))->0,
                }),
                self.history() == record_all(h, path.steps@.take(i as int)),
                self.pending() == p0 + walk_events(b, e, path.start, path.steps@.take(i as int)),
        {
            proof {
                lemma_walk_prefix(b, e, path.start, path.steps@, i as int + 1);
                assert(path.steps@.take(i + 1).drop_last() =~= path.steps@.take(i as int));
            }
            let m = path.steps[i];
            let moved = self.try_move(m.direction);
            proof {
                assert(moved is Ok);
                let s = path.steps@.take(i + 1);
                assert(s.last() == m);
                assert(self.pending() =~= p0 + walk_events(b, e, path.start, s));
            }
        }
        proof {
            assert(path.steps@.take(n as int) =~= path.steps@);
        }
    }
}

/// A walk that is not blocked is not blocked on any prefix either.
pub proof fn lemma_walk_prefix(b: Board, e: Entities, p: Position, ms: Seq<Move>, i: int)
    requires
        0 <= i <= ms.len(),
        walk_from(b, e, p, ms) is Some,
    ensures
        walk_from(b, e, p, ms.take(i)) is Some,
        i > 0 ==> !ms[i - 1].moves_crate && free(
            b,
            e,
            spec_neighbour(walk_from(b, e, p, ms.take(i - 1))->0, ms[i - 1].direction),
        ) && walk_from(b, e, p, ms.take(i)) == Some(
            spec_neighbour(walk_from(b, e, p, ms.take(i - 1))->0, ms[i - 1].direction),
        ),
    decreases ms.len() - i,
{
    if i < ms.len() {
        lemma_walk_prefix(b, e, p, ms.drop_last(), i);
        assert(ms.drop_last().take(i) =~= ms.take(i));
        if i > 0 {
            assert(ms.drop_last().take(i - 1) =~= ms.take(i - 1));
        }
    } else {
        assert(ms.take(i) =~= ms);
        if i > 0 {
            assert(ms.take(i - 1) =~= ms.drop_last());
        }
    }
}

} // verus!

verus! {

/// Is `to` more than one step away from `from`?
pub open spec fn far_apart(from: Position, to: Position) -> bool {
    let dx = to.x - from.x;
    let dy = to.y - from.y;
    (dx != 0 && dy != 0) || dx > 1 || dx < -1 || dy > 1 || dy < -1
}

impl CurrentLevel {
    /// Move the worker towards `to`. Without pushing, a cell further away than a neighbour is
    /// reached along a path found by path finding. Otherwise `to` must be in the same row or
    /// column as the worker, who walks (pushing crates if `may_push_crate`) until reaching it, a
    /// step is blocked, or a push solves the level. `None` if path finding finds no path.
    pub fn move_to(&mut self, to: Position, may_push_crate: bool) -> (r: Option<()>)
        requires
            old(self).wf(),
        ensures
            final(self).wf(),
            final(self).same_board(old(self)),
            exists|path: Seq<Move>|
                #[trigger] crate::game::move_to_effect(
                    old(self).board(),
                    old(self).play(),
                    to,
                    may_push_crate,
                    final(self).play(),
                    r is Some,
                    path,
                ),
    {
        let ghost b = self.board();
        let ghost s = self.play();
        let worker = self.dynamic.worker_position;
        let dir = crate::direction::direction(worker, to);
        proof {
            lemma_board_dims(b);
            assert(crate::current_level::rules::interior(b, self.entities().worker));
        }
        if !may_push_crate {
            if (to.x != worker.x && to.y != worker.y) || to.x > worker.x + 1 || to.x < worker.x - 1
                || to.y > worker.y + 1 || to.y < worker.y - 1 {
                let found = self.find_path(to);
                match found {
                    None => {
                        assert(crate::game::move_to_effect(
                            b,
                            s,
                            to,
                            may_push_crate,
                            self.play(),
                            false,
                            Seq::empty(),
                        ));
                        return None;
                    },
                    Some(path) => {
                        let ghost steps = path.steps@;
                        self.follow_path(path);
                        let r: Option<()> = Some(());
                        assert(crate::game::move_to_effect(
                            b,
                            s,
                            to,
                            may_push_crate,
                            self.play(),
                            r is Some,
                            steps,
                        ));
                        return r;
                    },
                }
            }
        }
        match dir {
            crate::direction::DirectionResult::Neighbour { direction } => {
                self.run(direction, may_push_crate, Some(to));
            },
            crate::direction::DirectionResult::SamePosition => {},
            crate::direction::DirectionResult::Other => {
                self.events.push(Event::NoPathfindingWhilePushing);
            },
        }
        let r: Option<()> = Some(());
        assert(crate::game::move_to_effect(
            b,
            s,
            to,
            may_push_crate,
            self.play(),
            r is Some,
            Seq::empty(),
        ));
        r
    }
}

} // verus!

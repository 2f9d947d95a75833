//! The cells a crate can be pushed to, as a directed graph, and paths for a crate in it.
use vstd::prelude::*;

use crate::current_level::CurrentLevel;
use crate::current_level::pathfinding::{Path, passable, dir_index, direction_at, found, count_found};
use crate::current_level::rules::{
    Board, Entities, board_wf, free, entities_wf, has_crate, lemma_interior_neighbours,
    lemma_board_dims,
};
use crate::direction::{Direction, spec_reverse, lemma_neighbour_reverse};
use crate::grid::{lemma_index_bound};
use crate::level::{cell_index, in_grid};
use crate::move_::Move;
use crate::position::{Position, spec_neighbour, has_all_neighbours};

verus! {

broadcast use vstd::seq_lib::lemma_seq_contains_after_push;

/// A crate at `p` can be pushed in direction `d`: the cell ahead is passable, and the worker can
/// stand on the cell behind it, which is free or the cell where the crate started.
pub open spec fn crate_edge(b: Board, e: Entities, start: Position, p: Position, d: Direction) -> bool {
    &&& passable(b, e, spec_neighbour(p, d))
    &&& (free(b, e, spec_neighbour(p, spec_reverse(d))) || spec_neighbour(p, spec_reverse(d))
        == start)
}

/// Where pushing a crate from `p` along the moves `ms` leads, when every move pushes along an
/// edge for the crate that started at `start`; `None` if one does not.
pub open spec fn crate_path(
    b: Board,
    e: Entities,
    start: Position,
    p: Position,
    ms: Seq<Move>,
) -> Option<Position>
    decreases ms.len(),
{
    if ms.len() == 0 {
        Some(p)
    } else {
        match crate_path(b, e, start, p, ms.drop_last()) {
            Some(q) => if ms.last().moves_crate && crate_edge(b, e, start, q, ms.last().direction) {
                Some(spec_neighbour(q, ms.last().direction))
            } else {
                None
            },
            None => None,
        }
    }
}

/// Where pushing the crate from `start` along the moves `ms` leads.
pub open spec fn crate_walk(b: Board, e: Entities, start: Position, ms: Seq<Move>) -> Option<
    Position,
> {
    crate_path(b, e, start, start, ms)
}

/// A push along an edge followed by a crate path.
pub proof fn lemma_crate_path_prepend(
    b: Board,
    e: Entities,
    start: Position,
    p: Position,
    m: Move,
    ms: Seq<Move>,
)
    requires
        m.moves_crate,
        crate_edge(b, e, start, p, m.direction),
    ensures
        crate_path(b, e, start, p, seq![m] + ms) == crate_path(
            b,
            e,
            start,
            spec_neighbour(p, m.direction),
            ms,
        ),
    decreases ms.len(),
{
    if ms.len() == 0 {
        assert(seq![m] + ms =~= seq![m]);
        assert(seq![m].drop_last() =~= Seq::<Move>::empty());
        assert(crate_path(b, e, start, p, Seq::<Move>::empty()) == Some(p));
        assert(crate_path(b, e, start, spec_neighbour(p, m.direction), ms) == Some(
            spec_neighbour(p, m.direction),
        ));
    } else {
        assert((seq![m] + ms).drop_last() =~= seq![m] + ms.drop_last());
        assert((seq![m] + ms).last() == ms.last());
        lemma_crate_path_prepend(b, e, start, p, m, ms.drop_last());
    }
}

/// The crate starting at `start` can be pushed to `p`.
pub open spec fn crate_reachable(b: Board, e: Entities, start: Position, p: Position) -> bool {
    exists|ms: Seq<Move>| #[trigger] crate_walk(b, e, start, ms) == Some(p)
}

/// Extending a crate walk by one push.
pub proof fn lemma_crate_walk_push(b: Board, e: Entities, start: Position, ms: Seq<Move>, m: Move)
    ensures
        crate_walk(b, e, start, ms.push(m)) == (match crate_walk(b, e, start, ms) {
            Some(q) => if m.moves_crate && crate_edge(b, e, start, q, m.direction) {
                Some(spec_neighbour(q, m.direction))
            } else {
                None
            },
            None => None,
        }),
{
    assert(ms.push(m).drop_last() =~= ms);
}

/// A directed graph on the cells of a board: for each cell, `None` if it is not a node, or the
/// cells its edges lead to.
pub struct Graph {
    pub columns: usize,
    pub rows: usize,
    pub neighbours: Vec<Option<Vec<Position>>>,
    /// The board and the entities the graph was built for, and the cell where the crate starts.
    pub board: Ghost<Board>,
    pub entities: Ghost<Entities>,
    pub start: Ghost<Position>,
}

impl Graph {
    /// The graph is the crate graph of the crate at `start`.
    pub open spec fn wf(&self) -> bool {
        &&& board_wf(self.board@)
        &&& entities_wf(self.board@, self.entities@)
        &&& in_grid(self.start@, self.columns as int, self.rows as int)
        &&& self.is_crate_graph(self.board@, self.entities@, self.start@)
    }

    pub open spec fn node(&self, p: Position) -> bool {
        in_grid(p, self.columns as int, self.rows as int) && self.neighbours@[cell_index(
            p,
            self.columns as int,
        )] is Some
    }

    pub open spec fn successors(&self, p: Position) -> Seq<Position> {
        self.neighbours@[cell_index(p, self.columns as int)]->0@
    }

    /// The graph of the cells to which the crate at `start` can be pushed, with an edge for every
    /// single push.
    pub open spec fn is_crate_graph(&self, b: Board, e: Entities, start: Position) -> bool {
        &&& self.columns == b.columns
        &&& self.rows == b.rows
        &&& self.neighbours@.len() == b.rows * b.columns
        &&& forall|p: Position|
            in_grid(p, b.columns, b.rows) ==> (#[trigger] self.node(p) <==> crate_reachable(
                b,
                e,
                start,
                p,
            ))
        &&& forall|p: Position, q: Position|
            #[trigger] self.node(p) ==> (#[trigger] self.successors(p).contains(q) <==> exists|
                d: Direction,
            | crate_edge(b, e, start, p, d) && q == #[trigger] spec_neighbour(p, d))
    }
}

/// The number of `true` entries.
pub open spec fn count_visited(s: Seq<bool>) -> nat
    decreases s.len(),
{
    if s.len() == 0 {
        0
    } else {
        count_visited(s.drop_last()) + if s.last() {
            1nat
        } else {
            0nat
        }
    }
}

proof fn lemma_count_visited_bound(s: Seq<bool>)
    ensures
        count_visited(s) <= s.len(),
    decreases s.len(),
{
    if s.len() > 0 {
        lemma_count_visited_bound(s.drop_last());
    }
}

proof fn lemma_count_visited_update(s: Seq<bool>, i: int)
    requires
        0 <= i < s.len(),
        !s[i],
    ensures
        count_visited(s.update(i, true)) == count_visited(s) + 1,
    decreases s.len(),
{
    if i < s.len() - 1 {
        lemma_count_visited_update(s.drop_last(), i);
        assert(s.update(i, true).drop_last() =~= s.drop_last().update(i, true));
    } else {
        assert(s.update(i, true).drop_last() =~= s.drop_last());
    }
}

proof fn lemma_count_visited_none(n: nat)
    ensures
        count_visited(Seq::new(n, |i: int| false)) == 0,
    decreases n,
{
    if n > 0 {
        lemma_count_visited_none((n - 1) as nat);
        assert(Seq::new(n, |i: int| false).drop_last() =~= Seq::new((n - 1) as nat, |i: int| false));
    }
}

/// Has the exploration reached the cell at `p`?
pub open spec fn visited(v: Seq<bool>, c: int, p: Position) -> bool {
    v[cell_index(p, c)]
}

/// The invariant of the exploration of the cells the crate at `start` can be pushed to.
#[verifier::opaque]
pub open spec fn explore_inv(
    b: Board,
    e: Entities,
    start: Position,
    v: Seq<bool>,
    queue: Seq<Position>,
    head: int,
    g: Seq<Option<Vec<Position>>>,
) -> bool {
    &&& v.len() == b.rows * b.columns
    &&& g.len() == b.rows * b.columns
    &&& 0 <= head <= queue.len()
    &&& count_visited(v) == queue.len()
    &&& forall|k: int|
        0 <= k < queue.len() ==> in_grid(#[trigger] queue[k], b.columns, b.rows) && visited(
            v,
            b.columns,
            queue[k],
        ) && crate_reachable(b, e, start, queue[k])
    &&& forall|p: Position|
        in_grid(p, b.columns, b.rows) && #[trigger] visited(v, b.columns, p) ==> exists|k: int|
            0 <= k < queue.len() && queue[k] == p
    &&& forall|p: Position|
        in_grid(p, b.columns, b.rows) ==> (#[trigger] g[cell_index(p, b.columns)] is Some <==> exists|
            k: int,
        | 0 <= k < head && queue[k] == p)
    &&& forall|p: Position, q: Position|
        in_grid(p, b.columns, b.rows) && #[trigger] g[cell_index(p, b.columns)] is Some ==> (
        #[trigger] g[cell_index(p, b.columns)]->0@.contains(q) <==> exists|d: Direction|
            crate_edge(b, e, start, p, d) && q == #[trigger] spec_neighbour(p, d))
    &&& forall|k: int, d: Direction|
        0 <= k < head && crate_edge(b, e, start, queue[k], d) ==> visited(
            v,
            b.columns,
            #[trigger] spec_neighbour(queue[k], d),
        )
}

} // verus!

verus! {

/// Every edge from a visited cell leads to a visited cell.
pub open spec fn explored_closed(b: Board, e: Entities, start: Position, v: Seq<bool>) -> bool {
    forall|p: Position, d: Direction|
        in_grid(p, b.columns, b.rows) && visited(v, b.columns, p) && crate_edge(b, e, start, p, d)
            ==> visited(v, b.columns, #[trigger] spec_neighbour(p, d))
}

/// Cells the crate can be pushed to lie on the board.
proof fn lemma_crate_walk_in_grid(b: Board, e: Entities, start: Position, ms: Seq<Move>)
    requires
        entities_wf(b, e),
        in_grid(start, b.columns, b.rows),
        crate_walk(b, e, start, ms) is Some,
    ensures
        in_grid(crate_walk(b, e, start, ms)->0, b.columns, b.rows),
    decreases ms.len(),
{
    if ms.len() > 0 {
        lemma_crate_walk_in_grid(b, e, start, ms.drop_last());
    }
}

/// In a closed exploration that visited the start, every cell the crate can be pushed to is
/// visited.
proof fn lemma_crate_walk_visited(
    b: Board,
    e: Entities,
    start: Position,
    v: Seq<bool>,
    ms: Seq<Move>,
)
    requires
        entities_wf(b, e),
        in_grid(start, b.columns, b.rows),
        visited(v, b.columns, start),
        explored_closed(b, e, start, v),
        crate_walk(b, e, start, ms) is Some,
    ensures
        visited(v, b.columns, crate_walk(b, e, start, ms)->0),
    decreases ms.len(),
{
    if ms.len() > 0 {
        lemma_crate_walk_visited(b, e, start, v, ms.drop_last());
        lemma_crate_walk_in_grid(b, e, start, ms.drop_last());
        let q = crate_walk(b, e, start, ms.drop_last())->0;
        assert(visited(v, b.columns, spec_neighbour(q, ms.last().direction)));
    }
}

/// The exploration starts with only `start` visited and queued, and no node of the graph.
proof fn lemma_explore_start(
    b: Board,
    e: Entities,
    start: Position,
    v: Seq<bool>,
    g: Seq<Option<Vec<Position>>>,
)
    requires
        board_wf(b),
        in_grid(start, b.columns, b.rows),
        v == Seq::new((b.rows * b.columns) as nat, |i: int| false).update(
            cell_index(start, b.columns),
            true,
        ),
        g.len() == b.rows * b.columns,
        forall|i: int| 0 <= i < g.len() ==> g[i] is None,
    ensures
        explore_inv(b, e, start, v, seq![start], 0, g),
{
    reveal(explore_inv);
    let c = b.columns;
    let si = cell_index(start, c);
    lemma_index_bound(start.y as int, start.x as int, c, b.rows);
    lemma_count_visited_none((b.rows * b.columns) as nat);
    lemma_count_visited_update(Seq::new((b.rows * b.columns) as nat, |i: int| false), si);
    assert(crate_walk(b, e, start, Seq::<Move>::empty()) == Some(start));
    assert(seq![start][0] == start);
    assert forall|p: Position| in_grid(p, c, b.rows) && #[trigger] visited(v, c, p) implies exists|
        k: int,
    | 0 <= k < seq![start].len() && seq![start][k] == p by {
        lemma_index_bound(p.y as int, p.x as int, c, b.rows);
        if cell_index(p, c) == si {
            crate::current_level::pathfinding::lemma_index_injective(p, start, c, b.rows);
        }
    }
    assert forall|p: Position| in_grid(p, c, b.rows) implies (#[trigger] g[cell_index(
        p,
        c,
    )] is Some <==> exists|k: int| 0 <= k < 0 && seq![start][k] == p) by {
        lemma_index_bound(p.y as int, p.x as int, c, b.rows);
    }
}

/// Visiting a new cell the crate at the head of the queue can be pushed to keeps the invariant.
#[verifier::rlimit(40)]
proof fn lemma_explore_visit(
    b: Board,
    e: Entities,
    start: Position,
    v: Seq<bool>,
    queue: Seq<Position>,
    head: int,
    g: Seq<Option<Vec<Position>>>,
    d: Direction,
)
    requires
        board_wf(b),
        entities_wf(b, e),
        explore_inv(b, e, start, v, queue, head, g),
        head < queue.len(),
        crate_edge(b, e, start, queue[head], d),
        !visited(v, b.columns, spec_neighbour(queue[head], d)),
    ensures
        explore_inv(
            b,
            e,
            start,
            v.update(cell_index(spec_neighbour(queue[head], d), b.columns), true),
            queue.push(spec_neighbour(queue[head], d)),
            head,
            g,
        ),
        forall|p: Position|
            in_grid(p, b.columns, b.rows) && visited(v, b.columns, p) ==> #[trigger] visited(
                v.update(cell_index(spec_neighbour(queue[head], d), b.columns), true),
                b.columns,
                p,
            ),
        in_grid(spec_neighbour(queue[head], d), b.columns, b.rows),
{
    reveal(explore_inv);
    let c = b.columns;
    let pos = queue[head];
    let q = spec_neighbour(pos, d);
    let qi = cell_index(q, c);
    let v2 = v.update(qi, true);
    let queue2 = queue.push(q);
    assert(in_grid(q, c, b.rows));
    lemma_index_bound(q.y as int, q.x as int, c, b.rows);
    lemma_count_visited_update(v, qi);
    assert(crate_reachable(b, e, start, pos));
    let ms = choose|ms: Seq<Move>| #[trigger] crate_walk(b, e, start, ms) == Some(pos);
    let m = Move { direction: d, moves_crate: true };
    lemma_crate_walk_push(b, e, start, ms, m);
    assert(crate_walk(b, e, start, ms.push(m)) == Some(q));
    assert forall|p: Position|
        in_grid(p, c, b.rows) && visited(v, c, p) implies #[trigger] visited(v2, c, p) by {
        lemma_index_bound(p.y as int, p.x as int, c, b.rows);
    }
    assert forall|k: int| 0 <= k < queue2.len() implies in_grid(#[trigger] queue2[k], c, b.rows)
        && visited(v2, c, queue2[k]) && crate_reachable(b, e, start, queue2[k]) by {
        if k < queue.len() {
            assert(queue2[k] == queue[k]);
        } else {
            assert(queue2[k] == q);
        }
    }
    assert forall|p: Position| in_grid(p, c, b.rows) && #[trigger] visited(v2, c, p) implies exists|
        k: int,
    | 0 <= k < queue2.len() && queue2[k] == p by {
        lemma_index_bound(p.y as int, p.x as int, c, b.rows);
        if p == q {
            assert(queue2[queue.len() as int] == q);
        } else {
            if cell_index(p, c) == qi {
                crate::current_level::pathfinding::lemma_index_injective(p, q, c, b.rows);
            }
            assert(visited(v, c, p));
            let k = choose|k: int| 0 <= k < queue.len() && queue[k] == p;
            assert(queue2[k] == p);
        }
    }
    assert forall|p: Position| in_grid(p, c, b.rows) implies (#[trigger] g[cell_index(
        p,
        c,
    )] is Some <==> exists|k: int| 0 <= k < head && queue2[k] == p) by {
        if g[cell_index(p, c)] is Some {
            let k = choose|k: int| 0 <= k < head && queue[k] == p;
            assert(queue2[k] == p);
        }
        if exists|k: int| 0 <= k < head && queue2[k] == p {
            let k = choose|k: int| 0 <= k < head && queue2[k] == p;
            assert(queue[k] == p);
        }
    }
    assert forall|k: int, dd: Direction|
        0 <= k < head && crate_edge(b, e, start, queue2[k], dd) implies visited(
        v2,
        c,
        #[trigger] spec_neighbour(queue2[k], dd),
    ) by {
        assert(queue2[k] == queue[k]);
        let w = spec_neighbour(queue[k], dd);
        assert(visited(v, c, w));
        lemma_interior_neighbours(b, queue[k]);
        assert(in_grid(w, c, b.rows));
        lemma_index_bound(w.y as int, w.x as int, c, b.rows);
    }
}

/// Once the edges from the cell at the head of the queue are recorded, the head moves on.
proof fn lemma_explore_advance(
    b: Board,
    e: Entities,
    start: Position,
    v: Seq<bool>,
    queue: Seq<Position>,
    head: int,
    g: Seq<Option<Vec<Position>>>,
    list: Vec<Position>,
)
    requires
        board_wf(b),
        entities_wf(b, e),
        explore_inv(b, e, start, v, queue, head, g),
        head < queue.len(),
        forall|q: Position|
            list@.contains(q) <==> exists|d: Direction|
                crate_edge(b, e, start, queue[head], d) && q == #[trigger] spec_neighbour(
                    queue[head],
                    d,
                ),
        forall|d: Direction|
            crate_edge(b, e, start, queue[head], d) ==> visited(
                v,
                b.columns,
                #[trigger] spec_neighbour(queue[head], d),
            ),
    ensures
        explore_inv(
            b,
            e,
            start,
            v,
            queue,
            head + 1,
            g.update(cell_index(queue[head], b.columns), Some(list)),
        ),
{
    reveal(explore_inv);
    let c = b.columns;
    let pos = queue[head];
    let pi = cell_index(pos, c);
    let g2 = g.update(pi, Some(list));
    assert(in_grid(pos, c, b.rows));
    lemma_index_bound(pos.y as int, pos.x as int, c, b.rows);
    assert forall|p: Position| in_grid(p, c, b.rows) implies (#[trigger] g2[cell_index(
        p,
        c,
    )] is Some <==> exists|k: int| 0 <= k < head + 1 && queue[k] == p) by {
        lemma_index_bound(p.y as int, p.x as int, c, b.rows);
        if p == pos {
        } else {
            if cell_index(p, c) == pi {
                crate::current_level::pathfinding::lemma_index_injective(p, pos, c, b.rows);
            }
            if exists|k: int| 0 <= k < head + 1 && queue[k] == p {
                let k = choose|k: int| 0 <= k < head + 1 && queue[k] == p;
                assert(k != head);
            }
        }
    }
    assert forall|p: Position, q: Position|
        in_grid(p, c, b.rows) && #[trigger] g2[cell_index(p, c)] is Some implies (
    #[trigger] g2[cell_index(p, c)]->0@.contains(q) <==> exists|d: Direction|
        crate_edge(b, e, start, p, d) && q == #[trigger] spec_neighbour(p, d)) by {
        lemma_index_bound(p.y as int, p.x as int, c, b.rows);
        if p != pos && cell_index(p, c) == pi {
            crate::current_level::pathfinding::lemma_index_injective(p, pos, c, b.rows);
        }
    }
}

/// When the queue is used up, the recorded graph is the crate graph of `start`.
proof fn lemma_explore_done(
    b: Board,
    e: Entities,
    start: Position,
    v: Seq<bool>,
    queue: Seq<Position>,
    g: Vec<Option<Vec<Position>>>,
)
    requires
        board_wf(b),
        entities_wf(b, e),
        in_grid(start, b.columns, b.rows),
        visited(v, b.columns, start),
        explore_inv(b, e, start, v, queue, queue.len() as int, g@),
    ensures
        (Graph {
            columns: b.columns as usize,
            rows: b.rows as usize,
            neighbours: g,
            board: Ghost(b),
            entities: Ghost(e),
            start: Ghost(start),
        }).is_crate_graph(b, e, start),
{
    reveal(explore_inv);
    let c = b.columns;
    let gr = Graph {
        columns: b.columns as usize,
        rows: b.rows as usize,
        neighbours: g,
        board: Ghost(b),
        entities: Ghost(e),
        start: Ghost(start),
    };
    lemma_board_dims(b);
    assert(explored_closed(b, e, start, v)) by {
        assert forall|p: Position, d: Direction|
            in_grid(p, c, b.rows) && visited(v, c, p) && crate_edge(b, e, start, p, d) implies visited(
            v,
            c,
            #[trigger] spec_neighbour(p, d),
        ) by {
            let k = choose|k: int| 0 <= k < queue.len() && queue[k] == p;
            assert(spec_neighbour(queue[k], d) == spec_neighbour(p, d));
        }
    }
    assert forall|p: Position| in_grid(p, b.columns, b.rows) implies (#[trigger] gr.node(p)
        <==> crate_reachable(b, e, start, p)) by {
        if crate_reachable(b, e, start, p) {
            let ms = choose|ms: Seq<Move>| #[trigger] crate_walk(b, e, start, ms) == Some(p);
            lemma_crate_walk_visited(b, e, start, v, ms);
            let k = choose|k: int| 0 <= k < queue.len() && queue[k] == p;
        }
        if gr.node(p) {
            let k = choose|k: int| 0 <= k < queue.len() && queue[k] == p;
        }
    }
    assert forall|p: Position, q: Position| #[trigger] gr.node(p) implies (
    #[trigger] gr.successors(p).contains(q) <==> exists|d: Direction|
        crate_edge(b, e, start, p, d) && q == #[trigger] spec_neighbour(p, d)) by {
    }
}

} // verus!

verus! {

impl CurrentLevel {
    /// Create a graph of cells a crate `starting_from` can be moved to.
    pub fn build_graph(&self, starting_from: Position) -> (g: Graph)
        requires
            self.wf(),
            in_grid(starting_from, self.columns as int, self.rows as int),
        ensures
            g.wf(),
            g.board@ == self.board(),
            g.entities@ == self.entities(),
            g.start@ == starting_from,
    {
        let ghost b = self.board();
        let ghost e = self.entities();
        proof {
            lemma_board_dims(b);
        }
        let n = self.rows * self.columns;
        let mut v: Vec<bool> = Vec::new();
        let mut neighbours: Vec<Option<Vec<Position>>> = Vec::new();
        for i in 0..n
            invariant
                v@ == Seq::new(i as nat, |j: int| false),
                neighbours@.len() == i,
                forall|j: int| 0 <= j < i ==> neighbours@[j] is None,
        {
            v.push(false);
            neighbours.push(None);
            assert(v@ =~= Seq::new((i + 1) as nat, |j: int| false));
        }
        let si = self.index(starting_from);
        v.set(si, true);
        let mut queue: Vec<Position> = Vec::new();
        queue.push(starting_from);
        proof {
            assert(queue@ =~= seq![starting_from]);
            lemma_explore_start(b, e, starting_from, v@, neighbours@);
        }
        let mut head: usize = 0;
        while head < queue.len()
            invariant
                self.wf(),
                b == self.board(),
                e == self.entities(),
                in_grid(starting_from, b.columns, b.rows),
                visited(v@, b.columns, starting_from),
                head <= queue@.len(),
                v@.len() == b.rows * b.columns,
                neighbours@.len() == b.rows * b.columns,
                explore_inv(b, e, starting_from, v@, queue@, head as int, neighbours@),
            decreases b.rows * b.columns - head,
        {
            proof {
                reveal(explore_inv);
                lemma_count_visited_bound(v@);
            }
            let pos = queue[head];
            proof {
                assert(in_grid(pos, b.columns, b.rows));
                lemma_interior_neighbours(b, pos);
            }
            let mut list: Vec<Position> = Vec::new();
            let mut k: usize = 0;
            while k < 4
                invariant
                    self.wf(),
                    b == self.board(),
                    e == self.entities(),
                    in_grid(starting_from, b.columns, b.rows),
                    visited(v@, b.columns, starting_from),
                    head < queue@.len(),
                    pos == queue@[head as int],
                    in_grid(pos, b.columns, b.rows),
                    has_all_neighbours(pos),
                    v@.len() == b.rows * b.columns,
                    neighbours@.len() == b.rows * b.columns,
                    explore_inv(b, e, starting_from, v@, queue@, head as int, neighbours@),
                    forall|q: Position|
                        list@.contains(q) <==> exists|d: Direction|
                            dir_index(d) < k && crate_edge(b, e, starting_from, pos, d) && q
                                == #[trigger] spec_neighbour(pos, d),
                    forall|d: Direction|
                        dir_index(d) < k && crate_edge(b, e, starting_from, pos, d) ==> visited(
                            v@,
                            b.columns,
                            #[trigger] spec_neighbour(pos, d),
                        ),
                decreases 4 - k,
            {
                let dir = direction_at(k);
                let ahead = pos.neighbour(dir);
                let behind = pos.neighbour(dir.reverse());
                if (self.is_empty(ahead) || self.is_worker(ahead)) && (self.is_empty(behind)
                    || behind == starting_from) {
                    let ghost old_list = list@;
                    list.push(ahead);
                    proof {
                        assert(crate_edge(b, e, starting_from, pos, dir));
                        assert(dir_index(dir) < k + 1 && ahead == spec_neighbour(pos, dir));
                        assert forall|q: Position|
                            list@.contains(q) <==> exists|d: Direction|
                                dir_index(d) < k + 1 && crate_edge(b, e, starting_from, pos, d) && q
                                    == #[trigger] spec_neighbour(pos, d) by {
                            if list@.contains(q) && q != ahead {
                                assert(old_list.contains(q));
                            }
                            if exists|d: Direction|
                                dir_index(d) < k + 1 && crate_edge(b, e, starting_from, pos, d) && q
                                    == #[trigger] spec_neighbour(pos, d) {
                                let d = choose|d: Direction|
                                    dir_index(d) < k + 1 && crate_edge(b, e, starting_from, pos, d)
                                        && q == #[trigger] spec_neighbour(pos, d);
                                if d != dir {
                                    assert(old_list.contains(q));
                                }
                                assert(list@[list@.len() - 1] == ahead);
                            }
                        }
                    }
                    proof {
                        crate::current_level::pathfinding::lemma_passable_in_grid(b, e, ahead);
                    }
                    let ai = self.index(ahead);
                    if !v[ai] {
                        let ghost old_v = v@;
                        proof {
                            lemma_explore_visit(
                                b,
                                e,
                                starting_from,
                                v@,
                                queue@,
                                head as int,
                                neighbours@,
                                dir,
                            );
                        }
                        v.set(ai, true);
                        queue.push(ahead);
                        proof {
                            assert forall|d: Direction|
                                dir_index(d) < k + 1 && crate_edge(b, e, starting_from, pos, d)
                                    implies visited(
                                v@,
                                b.columns,
                                #[trigger] spec_neighbour(pos, d),
                            ) by {
                                if d != dir {
                                    let w = spec_neighbour(pos, d);
                                    assert(visited(old_v, b.columns, w));
                                    crate::current_level::pathfinding::lemma_passable_in_grid(b, e, w);
                                }
                            }
                            assert(pos == queue@[head as int]);
                        }
                    }
                } else {
                    proof {
                        assert forall|q: Position|
                            list@.contains(q) <==> exists|d: Direction|
                                dir_index(d) < k + 1 && crate_edge(b, e, starting_from, pos, d) && q
                                    == #[trigger] spec_neighbour(pos, d) by {
                            if exists|d: Direction|
                                dir_index(d) < k + 1 && crate_edge(b, e, starting_from, pos, d) && q
                                    == #[trigger] spec_neighbour(pos, d) {
                                let d = choose|d: Direction|
                                    dir_index(d) < k + 1 && crate_edge(b, e, starting_from, pos, d)
                                        && q == #[trigger] spec_neighbour(pos, d);
                                assert(d != dir);
                            }
                        }
                    }
                }
                k = k + 1;
            }
            proof {
                assert forall|q: Position|
                    list@.contains(q) <==> exists|d: Direction|
                        crate_edge(b, e, starting_from, queue@[head as int], d) && q
                            == #[trigger] spec_neighbour(queue@[head as int], d) by {
                    if exists|d: Direction|
                        crate_edge(b, e, starting_from, queue@[head as int], d) && q
                            == #[trigger] spec_neighbour(queue@[head as int], d) {
                        let d = choose|d: Direction|
                            crate_edge(b, e, starting_from, queue@[head as int], d) && q
                                == #[trigger] spec_neighbour(queue@[head as int], d);
                        assert(dir_index(d) < 4);
                    }
                }
                assert forall|d: Direction|
                    crate_edge(b, e, starting_from, queue@[head as int], d) implies visited(
                    v@,
                    b.columns,
                    #[trigger] spec_neighbour(queue@[head as int], d),
                ) by {
                    assert(dir_index(d) < 4);
                }
                lemma_explore_advance(b, e, starting_from, v@, queue@, head as int, neighbours@, list);
            }
            let pi = self.index(pos);
            neighbours.set(pi, Some(list));
            head = head + 1;
        }
        proof {
            lemma_explore_done(b, e, starting_from, v@, queue@, neighbours);
        }
        Graph {
            columns: self.columns,
            rows: self.rows,
            neighbours,
            board: Ghost(b),
            entities: Ghost(e),
            start: Ghost(starting_from),
        }
    }
}

} // verus!

verus! {

/// The predecessor recorded for a reached cell: a reached node one step closer, with an edge to
/// the cell.
pub open spec fn parent_ok(g: Graph, dist: Seq<usize>, preds: Seq<Option<Position>>, p: Position) -> bool {
    let c = g.columns as int;
    &&& preds[cell_index(p, c)] is Some
    &&& in_grid(preds[cell_index(p, c)]->0, c, g.rows as int)
    &&& g.node(preds[cell_index(p, c)]->0)
    &&& found(dist, c, preds[cell_index(p, c)]->0)
    &&& dist[cell_index(preds[cell_index(p, c)]->0, c)] + 1 == dist[cell_index(p, c)]
    &&& g.successors(preds[cell_index(p, c)]->0).contains(p)
}

/// Every queued cell is a reached node.
#[verifier::opaque]
pub open spec fn paths_queue(g: Graph, dist: Seq<usize>, queue: Seq<Position>) -> bool {
    forall|k: int|
        0 <= k < queue.len() ==> in_grid(#[trigger] queue[k], g.columns as int, g.rows as int)
            && g.node(queue[k]) && found(dist, g.columns as int, queue[k])
}

/// Every reached cell is a queued node and, unless it is `from`, has a proper predecessor.
#[verifier::opaque]
pub open spec fn paths_found(
    g: Graph,
    from: Position,
    dist: Seq<usize>,
    preds: Seq<Option<Position>>,
    queue: Seq<Position>,
) -> bool {
    forall|p: Position|
        in_grid(p, g.columns as int, g.rows as int) && #[trigger] found(dist, g.columns as int, p)
            ==> {
            &&& g.node(p)
            &&& dist[cell_index(p, g.columns as int)] < queue.len()
            &&& exists|k: int| 0 <= k < queue.len() && queue[k] == p
            &&& (p == from || parent_ok(g, dist, preds, p))
        }
}

/// The successors of the queued cells before `head` are reached.
#[verifier::opaque]
pub open spec fn paths_closed(g: Graph, dist: Seq<usize>, queue: Seq<Position>, head: int) -> bool {
    forall|k: int, q: Position|
        0 <= k < head && #[trigger] g.successors(queue[k]).contains(q) ==> found(
            dist,
            g.columns as int,
            q,
        )
}

/// The invariant of the breadth-first search in the graph from `from`.
pub open spec fn paths_inv(
    g: Graph,
    from: Position,
    dist: Seq<usize>,
    preds: Seq<Option<Position>>,
    queue: Seq<Position>,
    head: int,
) -> bool {
    let c = g.columns as int;
    &&& dist.len() == g.rows * g.columns
    &&& preds.len() == g.rows * g.columns
    &&& 0 <= head <= queue.len()
    &&& count_found(dist) == queue.len()
    &&& in_grid(from, c, g.rows as int)
    &&& found(dist, c, from)
    &&& dist[cell_index(from, c)] == 0
    &&& paths_queue(g, dist, queue)
    &&& paths_found(g, from, dist, preds, queue)
    &&& paths_closed(g, dist, queue, head)
}

/// A successor of a node is a node of the board.
proof fn lemma_successor_node(g: Graph, p: Position, q: Position)
    requires
        g.wf(),
        g.node(p),
        g.successors(p).contains(q),
    ensures
        g.node(q),
        in_grid(q, g.columns as int, g.rows as int),
        exists|d: Direction| crate_edge(g.board@, g.entities@, g.start@, p, d) && q
            == #[trigger] spec_neighbour(p, d),
{
    let b = g.board@;
    let e = g.entities@;
    let d = choose|d: Direction| crate_edge(b, e, g.start@, p, d) && q == #[trigger] spec_neighbour(p, d);
    assert(crate_reachable(b, e, g.start@, p));
    let ms = choose|ms: Seq<Move>| #[trigger] crate_walk(b, e, g.start@, ms) == Some(p);
    let m = Move { direction: d, moves_crate: true };
    lemma_crate_walk_push(b, e, g.start@, ms, m);
    crate::current_level::pathfinding::lemma_passable_in_grid(b, e, q);
    assert(crate_walk(b, e, g.start@, ms.push(m)) == Some(q));
}

proof fn lemma_paths_start(g: Graph, from: Position, dist: Seq<usize>, preds: Seq<Option<Position>>)
    requires
        g.wf(),
        g.node(from),
        dist == Seq::new((g.rows * g.columns) as nat, |i: int| usize::MAX).update(
            cell_index(from, g.columns as int),
            0,
        ),
        preds.len() == g.rows * g.columns,
    ensures
        paths_inv(g, from, dist, preds, seq![from], 0),
{
    reveal(paths_queue);
    reveal(paths_found);
    reveal(paths_closed);
    let c = g.columns as int;
    let fi = cell_index(from, c);
    let d0 = Seq::new((g.rows * g.columns) as nat, |i: int| usize::MAX);
    lemma_index_bound(from.y as int, from.x as int, c, g.rows as int);
    crate::current_level::pathfinding::lemma_count_found_none((g.rows * g.columns) as nat);
    crate::current_level::pathfinding::lemma_count_found_update(d0, fi, 0);
    assert(seq![from][0] == from);
    assert forall|p: Position| in_grid(p, c, g.rows as int) && #[trigger] found(dist, c, p) implies {
        &&& g.node(p)
        &&& dist[cell_index(p, c)] < seq![from].len()
        &&& exists|k: int| 0 <= k < seq![from].len() && seq![from][k] == p
        &&& (p == from || parent_ok(g, dist, preds, p))
    } by {
        lemma_index_bound(p.y as int, p.x as int, c, g.rows as int);
        if cell_index(p, c) == fi {
            crate::current_level::pathfinding::lemma_index_injective(p, from, c, g.rows as int);
        }
    }
}

#[verifier::rlimit(40)]
proof fn lemma_paths_discover(
    g: Graph,
    from: Position,
    dist: Seq<usize>,
    preds: Seq<Option<Position>>,
    queue: Seq<Position>,
    head: int,
    q: Position,
)
    requires
        g.wf(),
        paths_inv(g, from, dist, preds, queue, head),
        head < queue.len(),
        g.successors(queue[head]).contains(q),
        !found(dist, g.columns as int, q),
    ensures
        ({
            let c = g.columns as int;
            let pos = queue[head];
            let qi = cell_index(q, c);
            let dist2 = dist.update(qi, (dist[cell_index(pos, c)] + 1) as usize);
            &&& dist[cell_index(pos, c)] + 1 < usize::MAX
            &&& in_grid(q, c, g.rows as int)
            &&& paths_inv(g, from, dist2, preds.update(qi, Some(pos)), queue.push(q), head)
            &&& forall|p: Position|
                in_grid(p, c, g.rows as int) && found(dist, c, p) ==> #[trigger] found(dist2, c, p)
        }),
{
    reveal(paths_queue);
    reveal(paths_found);
    reveal(paths_closed);
    let c = g.columns as int;
    let r = g.rows as int;
    let pos = queue[head];
    let qi = cell_index(q, c);
    let d = dist[cell_index(pos, c)];
    let v = (d + 1) as usize;
    let dist2 = dist.update(qi, v);
    let preds2 = preds.update(qi, Some(pos));
    let queue2 = queue.push(q);
    assert(in_grid(pos, c, r) && g.node(pos) && found(dist, c, pos));
    lemma_successor_node(g, pos, q);
    lemma_index_bound(q.y as int, q.x as int, c, r);
    lemma_index_bound(pos.y as int, pos.x as int, c, r);
    lemma_index_bound(from.y as int, from.x as int, c, r);
    lemma_board_dims(g.board@);
    crate::current_level::pathfinding::lemma_count_found_bound(dist);
    crate::current_level::pathfinding::lemma_count_found_update(dist, qi, v);
    assert(d < queue.len());
    assert forall|p: Position|
        in_grid(p, c, r) && found(dist, c, p) implies #[trigger] found(dist2, c, p)
            && dist2[cell_index(p, c)] == dist[cell_index(p, c)] by {
        lemma_index_bound(p.y as int, p.x as int, c, r);
    }
    assert forall|k: int| 0 <= k < queue2.len() implies in_grid(#[trigger] queue2[k], c, r)
        && g.node(queue2[k]) && found(dist2, c, queue2[k]) by {
        if k < queue.len() {
            assert(queue2[k] == queue[k]);
            assert(found(dist2, c, queue[k]));
        }
    }
    assert(paths_queue(g, dist2, queue2));
    assert forall|p: Position| in_grid(p, c, r) && #[trigger] found(dist2, c, p) implies {
        &&& g.node(p)
        &&& dist2[cell_index(p, c)] < queue2.len()
        &&& exists|k: int| 0 <= k < queue2.len() && queue2[k] == p
        &&& (p == from || parent_ok(g, dist2, preds2, p))
    } by {
        lemma_index_bound(p.y as int, p.x as int, c, r);
        if p == q {
            assert(queue2[queue.len() as int] == q);
            assert(cell_index(pos, c) != qi);
            assert(found(dist2, c, pos));
        } else {
            if cell_index(p, c) == qi {
                crate::current_level::pathfinding::lemma_index_injective(p, q, c, r);
            }
            assert(found(dist, c, p));
            let k = choose|k: int| 0 <= k < queue.len() && queue[k] == p;
            assert(queue2[k] == p);
            if p != from {
                let u = preds[cell_index(p, c)]->0;
                assert(found(dist, c, u));
                lemma_index_bound(u.y as int, u.x as int, c, r);
                assert(found(dist2, c, u));
            }
        }
    }
    assert(paths_found(g, from, dist2, preds2, queue2));
    assert forall|k: int, qq: Position|
        0 <= k < head && #[trigger] g.successors(queue2[k]).contains(qq) implies found(
        dist2,
        c,
        qq,
    ) by {
        assert(queue2[k] == queue[k]);
        assert(found(dist, c, qq));
        assert(g.node(queue[k]));
        lemma_successor_node(g, queue[k], qq);
    }
    assert(paths_closed(g, dist2, queue2, head));
}

proof fn lemma_paths_advance(
    g: Graph,
    from: Position,
    dist: Seq<usize>,
    preds: Seq<Option<Position>>,
    queue: Seq<Position>,
    head: int,
)
    requires
        paths_inv(g, from, dist, preds, queue, head),
        head < queue.len(),
        forall|q: Position|
            #[trigger] g.successors(queue[head]).contains(q) ==> found(dist, g.columns as int, q),
    ensures
        paths_inv(g, from, dist, preds, queue, head + 1),
{
    reveal(paths_closed);
}

/// When the queue is used up, every successor of a reached cell is reached.
proof fn lemma_paths_done(
    g: Graph,
    from: Position,
    dist: Seq<usize>,
    preds: Seq<Option<Position>>,
    queue: Seq<Position>,
)
    requires
        paths_inv(g, from, dist, preds, queue, queue.len() as int),
    ensures
        forall|p: Position, q: Position|
            in_grid(p, g.columns as int, g.rows as int) && found(dist, g.columns as int, p)
                && #[trigger] g.successors(p).contains(q) ==> found(dist, g.columns as int, q),
{
    reveal(paths_found);
    reveal(paths_closed);
    assert forall|p: Position, q: Position|
        in_grid(p, g.columns as int, g.rows as int) && found(dist, g.columns as int, p)
            && #[trigger] g.successors(p).contains(q) implies found(dist, g.columns as int, q) by {
        let k = choose|k: int| 0 <= k < queue.len() && queue[k] == p;
        assert(g.successors(queue[k]).contains(q));
    }
}

/// The distance recorded for the `k`-th queued cell.
pub open spec fn gdist(g: Graph, dist: Seq<usize>, queue: Seq<Position>, k: int) -> int {
    dist[cell_index(queue[k], g.columns as int)] as int
}

/// The queue is sorted by distance; from the head on it spans at most two consecutive
/// distances; and the successors of the cells before the head are at most one push further from
/// the start than those cells.
#[verifier::opaque]
pub open spec fn paths_layers(g: Graph, dist: Seq<usize>, queue: Seq<Position>, head: int) -> bool {
    &&& forall|k1: int, k2: int|
        0 <= k1 <= k2 < queue.len() ==> #[trigger] gdist(g, dist, queue, k1) <= #[trigger] gdist(
            g,
            dist,
            queue,
            k2,
        )
    &&& head < queue.len() ==> forall|k: int|
        0 <= k < queue.len() ==> #[trigger] gdist(g, dist, queue, k) <= gdist(g, dist, queue, head)
            + 1
    &&& forall|k: int, q: Position|
        0 <= k < head && #[trigger] g.successors(queue[k]).contains(q) ==> dist[cell_index(
            q,
            g.columns as int,
        )] <= gdist(g, dist, queue, k) + 1
}

proof fn lemma_layers_start(g: Graph, dist: Seq<usize>, from: Position)
    ensures
        paths_layers(g, dist, seq![from], 0),
{
    reveal(paths_layers);
}

/// Reaching a new successor of the head of the queue, one push further than the head, keeps the
/// queue in layers.
proof fn lemma_layers_discover(
    g: Graph,
    from: Position,
    dist: Seq<usize>,
    preds: Seq<Option<Position>>,
    queue: Seq<Position>,
    head: int,
    q: Position,
)
    requires
        g.wf(),
        paths_inv(g, from, dist, preds, queue, head),
        paths_layers(g, dist, queue, head),
        head < queue.len(),
        g.successors(queue[head]).contains(q),
        !found(dist, g.columns as int, q),
    ensures
        ({
            let c = g.columns as int;
            let pos = queue[head];
            let dist2 = dist.update(cell_index(q, c), (dist[cell_index(pos, c)] + 1) as usize);
            paths_layers(g, dist2, queue.push(q), head)
        }),
{
    reveal(paths_layers);
    reveal(paths_queue);
    reveal(paths_closed);
    let c = g.columns as int;
    let r = g.rows as int;
    let pos = queue[head];
    let qi = cell_index(q, c);
    let v = (dist[cell_index(pos, c)] + 1) as usize;
    let dist2 = dist.update(qi, v);
    let queue2 = queue.push(q);
    lemma_successor_node(g, pos, q);
    lemma_index_bound(q.y as int, q.x as int, c, r);
    assert forall|k: int| 0 <= k < queue.len() implies #[trigger] gdist(g, dist2, queue2, k)
        == gdist(g, dist, queue, k) by {
        assert(queue2[k] == queue[k]);
        assert(in_grid(queue[k], c, r) && found(dist, c, queue[k]));
        lemma_index_bound(queue[k].y as int, queue[k].x as int, c, r);
    }
    assert(queue2[queue.len() as int] == q);
    assert(gdist(g, dist2, queue2, queue.len() as int) == v);
    assert(gdist(g, dist, queue, head) + 1 == v);
    assert forall|k1: int, k2: int|
        0 <= k1 <= k2 < queue2.len() implies #[trigger] gdist(g, dist2, queue2, k1)
        <= #[trigger] gdist(g, dist2, queue2, k2) by {
        if k2 == queue.len() {
            if k1 < queue.len() {
                assert(gdist(g, dist, queue, k1) <= gdist(g, dist, queue, head) + 1);
            }
        } else {
            assert(gdist(g, dist, queue, k1) <= gdist(g, dist, queue, k2));
        }
    }
    assert forall|k: int| 0 <= k < queue2.len() implies #[trigger] gdist(g, dist2, queue2, k)
        <= gdist(g, dist2, queue2, head) + 1 by {
        if k < queue.len() {
            assert(gdist(g, dist, queue, k) <= gdist(g, dist, queue, head) + 1);
        }
    }
    assert forall|k: int, w: Position|
        0 <= k < head && #[trigger] g.successors(queue2[k]).contains(w) implies dist2[cell_index(
        w,
        c,
    )] <= gdist(g, dist2, queue2, k) + 1 by {
        assert(queue2[k] == queue[k]);
        assert(g.successors(queue[k]).contains(w));
        assert(found(dist, c, w));
        assert(g.node(queue[k]));
        lemma_successor_node(g, queue[k], w);
        lemma_index_bound(w.y as int, w.x as int, c, r);
        assert(dist2[cell_index(w, c)] == dist[cell_index(w, c)]);
        assert(dist[cell_index(w, c)] <= gdist(g, dist, queue, k) + 1);
    }
}

/// Once all successors of the head are reached, they are at most one push further than the head,
/// and the queue stays in layers with the head moved on.
proof fn lemma_layers_advance(
    g: Graph,
    from: Position,
    dist: Seq<usize>,
    preds: Seq<Option<Position>>,
    queue: Seq<Position>,
    head: int,
)
    requires
        g.wf(),
        paths_inv(g, from, dist, preds, queue, head),
        paths_layers(g, dist, queue, head),
        head < queue.len(),
        forall|q: Position|
            #[trigger] g.successors(queue[head]).contains(q) ==> found(dist, g.columns as int, q),
    ensures
        paths_layers(g, dist, queue, head + 1),
{
    reveal(paths_layers);
    reveal(paths_found);
    reveal(paths_queue);
    let c = g.columns as int;
    if head + 1 < queue.len() {
        assert(gdist(g, dist, queue, head) <= gdist(g, dist, queue, head + 1));
        assert forall|k: int| 0 <= k < queue.len() implies #[trigger] gdist(g, dist, queue, k)
            <= gdist(g, dist, queue, head + 1) + 1 by {
            assert(gdist(g, dist, queue, k) <= gdist(g, dist, queue, head) + 1);
        }
    }
    assert forall|k: int, w: Position|
        0 <= k < head + 1 && #[trigger] g.successors(queue[k]).contains(w) implies dist[cell_index(
        w,
        c,
    )] <= gdist(g, dist, queue, k) + 1 by {
        if k == head {
            assert(g.node(queue[head]));
            lemma_successor_node(g, queue[head], w);
            assert(found(dist, c, w));
            let kk = choose|kk: int| 0 <= kk < queue.len() && queue[kk] == w;
            assert(gdist(g, dist, queue, kk) <= gdist(g, dist, queue, head) + 1);
        }
    }
}

/// When the queue is used up, every successor of a reached cell is at most one push further from
/// the start.
proof fn lemma_layers_done(
    g: Graph,
    from: Position,
    dist: Seq<usize>,
    preds: Seq<Option<Position>>,
    queue: Seq<Position>,
)
    requires
        paths_inv(g, from, dist, preds, queue, queue.len() as int),
        paths_layers(g, dist, queue, queue.len() as int),
    ensures
        forall|p: Position, q: Position|
            in_grid(p, g.columns as int, g.rows as int) && found(dist, g.columns as int, p)
                && #[trigger] g.successors(p).contains(q) ==> dist[cell_index(q, g.columns as int)]
                <= dist[cell_index(p, g.columns as int)] + 1,
{
    reveal(paths_found);
    reveal(paths_layers);
    assert forall|p: Position, q: Position|
        in_grid(p, g.columns as int, g.rows as int) && found(dist, g.columns as int, p)
            && #[trigger] g.successors(p).contains(q) implies dist[cell_index(q, g.columns as int)]
        <= dist[cell_index(p, g.columns as int)] + 1 by {
        let k = choose|k: int| 0 <= k < queue.len() && queue[k] == p;
        assert(g.successors(queue[k]).contains(q));
    }
}

/// No crate walk from the start is shorter than the distance the search records for its end.
proof fn lemma_crate_walk_dist(g: Graph, dist: Seq<usize>, ms: Seq<Move>)
    requires
        g.wf(),
        found(dist, g.columns as int, g.start@),
        dist[cell_index(g.start@, g.columns as int)] == 0,
        forall|p: Position, q: Position|
            in_grid(p, g.columns as int, g.rows as int) && found(dist, g.columns as int, p)
                && #[trigger] g.successors(p).contains(q) ==> found(dist, g.columns as int, q),
        forall|p: Position, q: Position|
            in_grid(p, g.columns as int, g.rows as int) && found(dist, g.columns as int, p)
                && #[trigger] g.successors(p).contains(q) ==> dist[cell_index(q, g.columns as int)]
                <= dist[cell_index(p, g.columns as int)] + 1,
        crate_walk(g.board@, g.entities@, g.start@, ms) is Some,
    ensures
        found(dist, g.columns as int, crate_walk(g.board@, g.entities@, g.start@, ms)->0),
        dist[cell_index(crate_walk(g.board@, g.entities@, g.start@, ms)->0, g.columns as int)]
            <= ms.len(),
    decreases ms.len(),
{
    let b = g.board@;
    let e = g.entities@;
    if ms.len() > 0 {
        lemma_crate_walk_dist(g, dist, ms.drop_last());
        lemma_crate_walk_in_grid(b, e, g.start@, ms.drop_last());
        let p = crate_walk(b, e, g.start@, ms.drop_last())->0;
        let q = crate_walk(b, e, g.start@, ms)->0;
        assert(crate_reachable(b, e, g.start@, p));
        assert(g.node(p));
        assert(g.successors(p).contains(q));
    }
}

/// Every cell the crate can be pushed to is reached by a search that is closed under successors.
proof fn lemma_paths_complete(g: Graph, dist: Seq<usize>, ms: Seq<Move>)
    requires
        g.wf(),
        found(dist, g.columns as int, g.start@),
        forall|p: Position, q: Position|
            in_grid(p, g.columns as int, g.rows as int) && found(dist, g.columns as int, p)
                && #[trigger] g.successors(p).contains(q) ==> found(dist, g.columns as int, q),
        crate_walk(g.board@, g.entities@, g.start@, ms) is Some,
    ensures
        found(dist, g.columns as int, crate_walk(g.board@, g.entities@, g.start@, ms)->0),
    decreases ms.len(),
{
    let b = g.board@;
    let e = g.entities@;
    if ms.len() > 0 {
        lemma_paths_complete(g, dist, ms.drop_last());
        lemma_crate_walk_in_grid(b, e, g.start@, ms.drop_last());
        let p = crate_walk(b, e, g.start@, ms.drop_last())->0;
        let q = crate_walk(b, e, g.start@, ms)->0;
        assert(crate_reachable(b, e, g.start@, p));
        assert(g.node(p));
        assert(g.successors(p).contains(q));
    }
}

} // verus!

verus! {

impl Graph {
    /// The row-major index of a cell of the board.
    fn index(&self, pos: Position) -> (r: usize)
        requires
            self.wf(),
            in_grid(pos, self.columns as int, self.rows as int),
        ensures
            r == cell_index(pos, self.columns as int),
            r < self.neighbours@.len(),
    {
        proof {
            lemma_index_bound(pos.y as int, pos.x as int, self.columns as int, self.rows as int);
        }
        pos.x as usize + pos.y as usize * self.columns
    }

    /// Breadth-first search in the graph from `from`: for every reached cell its distance from
    /// `from` and the node it was reached from (`usize::MAX` and `None` for other cells).
    fn find_paths_starting_at(&self, from: Position) -> (r: (Vec<Option<Position>>, Vec<usize>))
        requires
            self.wf(),
            from == self.start@,
        ensures
            r.1@.len() == self.rows * self.columns,
            r.0@.len() == self.rows * self.columns,
            found(r.1@, self.columns as int, from),
            r.1@[cell_index(from, self.columns as int)] == 0,
            forall|p: Position|
                in_grid(p, self.columns as int, self.rows as int) && #[trigger] found(
                    r.1@,
                    self.columns as int,
                    p,
                ) ==> p == from || parent_ok(*self, r.1@, r.0@, p),
            forall|p: Position|
                in_grid(p, self.columns as int, self.rows as int) && crate_reachable(
                    self.board@,
                    self.entities@,
                    from,
                    p,
                ) ==> #[trigger] found(r.1@, self.columns as int, p),
            forall|ms: Seq<Move>|
                #[trigger] crate_walk(self.board@, self.entities@, from, ms) is Some ==> r.1@[cell_index(
                    crate_walk(self.board@, self.entities@, from, ms)->0,
                    self.columns as int,
                )] <= ms.len(),
    {
        let ghost g = *self;
        let ghost c = self.columns as int;
        proof {
            lemma_board_dims(self.board@);
        }
        let n = self.rows * self.columns;
        let mut dist: Vec<usize> = Vec::new();
        let mut preds: Vec<Option<Position>> = Vec::new();
        for i in 0..n
            invariant
                dist@ == Seq::new(i as nat, |j: int| usize::MAX),
                preds@.len() == i,
        {
            dist.push(usize::MAX);
            preds.push(None);
            assert(dist@ =~= Seq::new((i + 1) as nat, |j: int| usize::MAX));
        }
        let fi = self.index(from);
        dist.set(fi, 0);
        let mut queue: Vec<Position> = Vec::new();
        queue.push(from);
        proof {
            assert(queue@ =~= seq![from]);
            assert(crate_walk(g.board@, g.entities@, from, Seq::<Move>::empty()) == Some(from));
            lemma_paths_start(g, from, dist@, preds@);
            lemma_layers_start(g, dist@, from);
        }
        let mut head: usize = 0;
        while head < queue.len()
            invariant
                self.wf(),
                g == *self,
                c == self.columns as int,
                from == self.start@,
                head <= queue@.len(),
                dist@.len() == self.rows * self.columns,
                preds@.len() == self.rows * self.columns,
                paths_inv(g, from, dist@, preds@, queue@, head as int),
                paths_layers(g, dist@, queue@, head as int),
            decreases self.rows * self.columns - head,
        {
            proof {
                reveal(paths_queue);
                crate::current_level::pathfinding::lemma_count_found_bound(dist@);
            }
            let pos = queue[head];
            proof {
                assert(in_grid(pos, c, self.rows as int) && g.node(pos) && found(dist@, c, pos));
            }
            let pi = self.index(pos);
            let d = dist[pi];
            match &self.neighbours[pi] {
                Some(list) => {
                    let m = list.len();
                    let mut j: usize = 0;
                    while j < m
                        invariant
                            self.wf(),
                            g == *self,
                            c == self.columns as int,
                            from == self.start@,
                            head < queue@.len(),
                            pos == queue@[head as int],
                            pi == cell_index(pos, c),
                            in_grid(pos, c, self.rows as int),
                            self.neighbours@[pi as int] == Some(*list),
                            m == list@.len(),
                            j <= m,
                            dist@.len() == self.rows * self.columns,
                            preds@.len() == self.rows * self.columns,
                            d == dist@[pi as int],
                            paths_inv(g, from, dist@, preds@, queue@, head as int),
                            paths_layers(g, dist@, queue@, head as int),
                            forall|jj: int| 0 <= jj < j ==> found(dist@, c, #[trigger] list@[jj]),
                        decreases m - j,
                    {
                        let q = list[j];
                        proof {
                            reveal(paths_queue);
                            assert(g.successors(pos).contains(q));
                            lemma_successor_node(g, pos, q);
                        }
                        let qi = self.index(q);
                        if dist[qi] == usize::MAX {
                            let ghost old_dist = dist@;
                            proof {
                                lemma_paths_discover(g, from, dist@, preds@, queue@, head as int, q);
                                lemma_layers_discover(g, from, dist@, preds@, queue@, head as int, q);
                            }
                            dist.set(qi, d + 1);
                            preds.set(qi, Some(pos));
                            queue.push(q);
                            proof {
                                assert forall|jj: int| 0 <= jj < j + 1 implies found(
                                    dist@,
                                    c,
                                    #[trigger] list@[jj],
                                ) by {
                                    if jj < j {
                                        assert(g.successors(pos).contains(list@[jj]));
                                        lemma_successor_node(g, pos, list@[jj]);
                                        assert(found(old_dist, c, list@[jj]));
                                    }
                                }
                                assert(pos == queue@[head as int]);
                                assert(found(old_dist, c, pos)) by {
                                    reveal(paths_queue);
                                }
                                lemma_index_bound(pos.y as int, pos.x as int, c, self.rows as int);
                                assert(d == dist@[pi as int]);
                            }
                        }
                        j = j + 1;
                    }
                    proof {
                        assert forall|q: Position|
                            #[trigger] g.successors(queue@[head as int]).contains(q) implies found(
                            dist@,
                            c,
                            q,
                        ) by {
                            let jj = choose|jj: int| 0 <= jj < list@.len() && list@[jj] == q;
                            assert(found(dist@, c, list@[jj]));
                        }
                        lemma_paths_advance(g, from, dist@, preds@, queue@, head as int);
                        lemma_layers_advance(g, from, dist@, preds@, queue@, head as int);
                    }
                },
                None => {
                    proof {
                        reveal(paths_queue);
                        assert(g.node(pos));
                    }
                },
            }
            head = head + 1;
        }
        proof {
            lemma_paths_done(g, from, dist@, preds@, queue@);
            lemma_layers_done(g, from, dist@, preds@, queue@);
            assert forall|ms: Seq<Move>|
                #[trigger] crate_walk(self.board@, self.entities@, from, ms) is Some implies dist@[cell_index(
                    crate_walk(self.board@, self.entities@, from, ms)->0,
                    c,
                )] <= ms.len() by {
                lemma_crate_walk_dist(g, dist@, ms);
            }
            reveal(paths_found);
            assert forall|p: Position|
                in_grid(p, c, self.rows as int) && crate_reachable(
                    self.board@,
                    self.entities@,
                    from,
                    p,
                ) implies #[trigger] found(dist@, c, p) by {
                let ms = choose|ms: Seq<Move>|
                    #[trigger] crate_walk(self.board@, self.entities@, from, ms) == Some(p);
                lemma_paths_complete(g, dist@, ms);
            }
        }
        (preds, dist)
    }
}

} // verus!

verus! {

impl Graph {
    /// A path along which the crate at `from` can be pushed to `to`, or `None` if `to` is not a
    /// node of the graph.
    pub fn find_crate_path(&self, from: Position, to: Position) -> (r: Option<Path>)
        requires
            self.wf(),
            from == self.start@,
        ensures
            match r {
                Some(path) => {
                    &&& path.start == from
                    &&& crate_walk(self.board@, self.entities@, from, path.steps@) == Some(to)
                    &&& forall|ms: Seq<Move>|
                        crate_walk(self.board@, self.entities@, from, ms) == Some(to)
                            ==> path.steps@.len() <= ms.len()
                },
                None => !crate_reachable(self.board@, self.entities@, from, to),
            },
    {
        let ghost b = self.board@;
        let ghost e = self.entities@;
        let ghost c = self.columns as int;
        proof {
            lemma_board_dims(b);
        }
        if to.x < 0 || to.y < 0 || to.x >= self.columns as isize || to.y >= self.rows as isize {
            proof {
                if crate_reachable(b, e, from, to) {
                    let ms = choose|ms: Seq<Move>| #[trigger] crate_walk(b, e, from, ms) == Some(to);
                    lemma_crate_walk_in_grid(b, e, from, ms);
                    assert(in_grid(to, b.columns, b.rows));
                    assert(false);
                }
            }
            return None;
        }
        let ti = self.index(to);
        if self.neighbours[ti].is_none() {
            proof {
                assert(!self.node(to));
            }
            return None;
        }
        let (preds, dist) = self.find_paths_starting_at(from);
        proof {
            assert(self.node(to));
            assert(found(dist@, c, to));
        }
        let mut pos = to;
        let mut steps: Vec<Move> = Vec::new();
        proof {
            assert(crate_path(b, e, from, to, Seq::<Move>::empty()) == Some(to));
        }
        while pos != from
            invariant
                self.wf(),
                b == self.board@,
                e == self.entities@,
                c == self.columns as int,
                from == self.start@,
                dist@.len() == self.rows * self.columns,
                preds@.len() == self.rows * self.columns,
                forall|p: Position|
                    in_grid(p, c, self.rows as int) && #[trigger] found(dist@, c, p) ==> p == from
                        || parent_ok(*self, dist@, preds@, p),
                in_grid(pos, c, self.rows as int),
                found(dist@, c, pos),
                crate_path(b, e, from, pos, steps@) == Some(to),
                in_grid(to, c, self.rows as int),
                steps@.len() + dist@[cell_index(pos, c)] == dist@[cell_index(to, c)],
                dist@[cell_index(from, c)] == 0,
                forall|ms: Seq<Move>|
                    #[trigger] crate_walk(b, e, from, ms) is Some ==> dist@[cell_index(
                        crate_walk(b, e, from, ms)->0,
                        c,
                    )] <= ms.len(),
            decreases dist@[cell_index(pos, c)],
        {
            let pi = self.index(pos);
            proof {
                assert(parent_ok(*self, dist@, preds@, pos));
            }
            let u = match preds[pi] {
                Some(u) => u,
                None => {
                    proof {
                        assert(false);
                    }
                    pos
                },
            };
            proof {
                assert(u == preds@[pi as int]->0);
                lemma_successor_node(*self, u, pos);
                lemma_interior_neighbours(b, u);
            }
            let ghost d = choose|d: Direction|
                crate_edge(b, e, from, u, d) && pos == #[trigger] spec_neighbour(u, d);
            proof {
                crate::direction::lemma_direction_of_neighbour(u, d);
            }
            let dir = match crate::direction::direction(u, pos) {
                crate::direction::DirectionResult::Neighbour { direction } => direction,
                _ => {
                    proof {
                        assert(false);
                    }
                    Direction::Left
                },
            };
            let m = Move { direction: dir, moves_crate: true };
            proof {
                lemma_crate_path_prepend(b, e, from, u, m, steps@);
            }
            let ghost old_steps = steps@;
            steps.insert(0, m);
            proof {
                assert(steps@ =~= seq![m] + old_steps);
                assert(dist@[cell_index(u, c)] < dist@[cell_index(pos, c)]);
            }
            pos = u;
        }
        proof {
            assert forall|ms: Seq<Move>| crate_walk(b, e, from, ms) == Some(to) implies steps@.len()
                <= ms.len() by {
                assert(crate_walk(b, e, from, ms) is Some);
            }
        }
        Some(Path { start: from, steps })
    }
}

impl CurrentLevel {
    /// Can the crate at `from` be the subject of a search for a path to `to`: are the two cells
    /// different, is there a crate at `from`, and is `to` free?
    fn is_valid_for_path_with_crate(&self, from: Position, to: Position) -> (r: Option<()>)
        requires
            self.wf(),
        ensures
            r is Some <==> (from != to && has_crate(self.entities(), from) && free(
                self.board(),
                self.entities(),
                to,
            )),
    {
        if from == to || !self.dynamic.is_crate(from) || !self.is_empty(to) {
            None
        } else {
            Some(())
        }
    }

    /// Try to find a way to move the crate at `from` to `to`, with as few pushes as possible.
    pub fn find_path_with_crate(&self, from: Position, to: Position) -> (r: Option<Path>)
        requires
            self.wf(),
        ensures
            match r {
                Some(path) => {
                    &&& from != to
                    &&& has_crate(self.entities(), from)
                    &&& free(self.board(), self.entities(), to)
                    &&& path.start == from
                    &&& crate_walk(self.board(), self.entities(), from, path.steps@) == Some(to)
                    &&& forall|ms: Seq<Move>|
                        crate_walk(self.board(), self.entities(), from, ms) == Some(to)
                            ==> path.steps@.len() <= ms.len()
                },
                None => !(from != to && has_crate(self.entities(), from) && free(
                    self.board(),
                    self.entities(),
                    to,
                )) || !crate_reachable(self.board(), self.entities(), from, to),
            },
    {
        self.is_valid_for_path_with_crate(from, to)?;
        proof {
            let e = self.entities();
            let k = choose|k: int| 0 <= k < e.crates.len() && e.crates[k] == from;
            assert(crate::current_level::rules::interior(self.board(), e.crates[k]));
        }
        let graph = self.build_graph(from);
        graph.find_crate_path(from, to)
    }
}

} // verus!

verus! {

/// A crate walk that is not blocked is not blocked on any prefix, and each of its moves pushes
/// along an edge.
pub proof fn lemma_crate_walk_prefix(b: Board, e: Entities, start: Position, ms: Seq<Move>, i: int)
    requires
        0 <= i < ms.len(),
        crate_walk(b, e, start, ms) is Some,
    ensures
        crate_walk(b, e, start, ms.take(i)) is Some,
        ms[i].moves_crate,
        crate_edge(b, e, start, crate_walk(b, e, start, ms.take(i))->0, ms[i].direction),
        crate_walk(b, e, start, ms.take(i + 1)) == Some(
            spec_neighbour(crate_walk(b, e, start, ms.take(i))->0, ms[i].direction),
        ),
    decreases ms.len() - i,
{
    if i + 1 < ms.len() {
        assert(ms.drop_last().take(i) =~= ms.take(i));
        assert(ms.drop_last().take(i + 1) =~= ms.take(i + 1));
        lemma_crate_walk_prefix(b, e, start, ms.drop_last(), i);
    } else {
        assert(ms.take(i + 1) =~= ms);
        assert(ms.take(i) =~= ms.drop_last());
    }
}

/// The worker and the crates after the crate that started at `start` has been pushed along the
/// first `i` moves of `ms`: the crate stands where those pushes took it, and the worker where the
/// crate stood before the last of them (where it started, if there were none).
pub open spec fn pushed_along(b: Board, e: Entities, start: Position, ms: Seq<Move>, i: int) -> Entities {
    Entities {
        crates: e.crates.update(
            crate::current_level::rules::crate_id(e, start),
            crate_walk(b, e, start, ms.take(i))->0,
        ),
        worker: if i == 0 {
            e.worker
        } else {
            crate_walk(b, e, start, ms.take(i - 1))->0
        },
    }
}

/// After `i` pushes of the crate that started at `start` along `ms`, the worker can walk to the
/// cell behind the crate from which the next push is made.
pub open spec fn push_reachable(b: Board, e: Entities, start: Position, ms: Seq<Move>, i: int) -> bool {
    let ei = pushed_along(b, e, start, ms, i);
    let behind = spec_neighbour(crate_walk(b, e, start, ms.take(i))->0, spec_reverse(ms[i].direction));
    exists|ws: Seq<Move>|
        #[trigger] crate::current_level::pathfinding::walk_from(b, ei, ei.worker, ws) == Some(behind)
}

/// What pushing the crate that started at `start` along `ms` does, from `before` to `after`, and
/// whether it succeeds: it succeeds exactly when the worker can get behind the crate before
/// every push, and then the crate has been pushed along all of `ms`. Otherwise it stops at the
/// first push for which the worker cannot get behind the crate, with the pushes before it made,
/// and reports `Event::NoPathFound`; if that is the first push, nothing else has happened.
pub open spec fn push_outcome(
    b: Board,
    before: crate::current_level::Play,
    start: Position,
    ms: Seq<Move>,
    succeeded: bool,
    after: crate::current_level::Play,
) -> bool {
    let e = before.entities;
    &&& succeeded <==> forall|i: int|
        0 <= i < ms.len() ==> #[trigger] push_reachable(b, e, start, ms, i)
    &&& succeeded ==> after.entities == pushed_along(b, e, start, ms, ms.len() as int)
    &&& !succeeded ==> {
        &&& exists|k: int|
            0 <= k < ms.len() && (forall|i: int|
                0 <= i < k ==> #[trigger] push_reachable(b, e, start, ms, i)) && !push_reachable(
                b,
                e,
                start,
                ms,
                k,
            ) && after.entities == #[trigger] pushed_along(b, e, start, ms, k) && (k == 0
                ==> after.history == before.history && after.events == before.events.push(
                crate::event::Event::NoPathFound,
            ))
        &&& after.events.last() == crate::event::Event::NoPathFound
        &&& before.events.is_prefix_of(after.events)
        &&& after.events.len() > before.events.len()
    }
}

/// While the crate that started at `start` is pushed along its walk, the cells behind and ahead
/// of it stay free: the other crates have not moved.
proof fn lemma_push_cells_free(
    b: Board,
    e0: Entities,
    start: Position,
    id: int,
    e: Entities,
    crate_pos: Position,
    d: Direction,
)
    requires
        board_wf(b),
        entities_wf(b, e0),
        entities_wf(b, e),
        0 <= id < e0.crates.len(),
        e0.crates[id] == start,
        e.crates == e0.crates.update(id, crate_pos),
        crate_edge(b, e0, start, crate_pos, d),
        crate::current_level::rules::interior(b, crate_pos),
    ensures
        free(b, e, spec_neighbour(crate_pos, spec_reverse(d))),
        free(b, e, spec_neighbour(crate_pos, d)),
        spec_neighbour(crate_pos, d) != start,
        crate::current_level::rules::crate_id(e, crate_pos) == id,
{
    let behind = spec_neighbour(crate_pos, spec_reverse(d));
    let ahead = spec_neighbour(crate_pos, d);
    lemma_interior_neighbours(b, crate_pos);
    assert(behind != crate_pos && ahead != crate_pos);
    assert(e.crates[id] == crate_pos);
    crate::current_level::rules::lemma_crate_id(b, e, id);
    if has_crate(e, behind) {
        let k = choose|k: int| 0 <= k < e.crates.len() && e.crates[k] == behind;
        assert(k != id);
        assert(e0.crates[k] == behind);
        assert(has_crate(e0, behind));
        if k < id {
            assert(e0.crates[k] != e0.crates[id]);
        } else {
            assert(e0.crates[id] != e0.crates[k]);
        }
    }
    if has_crate(e, ahead) {
        let k = choose|k: int| 0 <= k < e.crates.len() && e.crates[k] == ahead;
        assert(k != id);
        assert(e0.crates[k] == ahead);
        assert(has_crate(e0, ahead));
    }
    assert(has_crate(e0, start));
    let kk = choose|kk: int| 0 <= kk < e0.crates.len() && e0.crates[kk] == start;
    assert(crate::current_level::rules::interior(b, e0.crates[kk]));
}

impl CurrentLevel {
    /// Walk the worker to the cell behind the crate at `crate_position`, as seen in the direction
    /// of the move. `None` if there is no way there.
    fn move_worker_into_position(&mut self, crate_position: Position, m: &Move) -> (r: Option<()>)
        requires
            old(self).wf(),
            has_all_neighbours(crate_position),
            free(
                old(self).board(),
                old(self).entities(),
                spec_neighbour(crate_position, spec_reverse(m.direction)),
            ),
        ensures
            final(self).wf(),
            final(self).same_board(old(self)),
            (r is Some) <==> exists|ws: Seq<Move>|
                #[trigger] crate::current_level::pathfinding::walk_from(
                    old(self).board(),
                    old(self).entities(),
                    old(self).entities().worker,
                    ws,
                ) == Some(spec_neighbour(crate_position, spec_reverse(m.direction))),
            match r {
                Some(_) => final(self).entities() == (Entities {
                    crates: old(self).entities().crates,
                    worker: spec_neighbour(crate_position, spec_reverse(m.direction)),
                }) && old(self).pending().is_prefix_of(final(self).pending()),
                None => final(self).entities() == old(self).entities() && final(self).history()
                    == old(self).history() && final(self).pending() == old(self).pending().push(
                    crate::event::Event::NoPathFound,
                ),
            },
    {
        let ghost p0 = self.pending();
        let worker_pos = crate_position.neighbour(m.direction.reverse());
        let path = self.find_path(worker_pos)?;
        self.follow_path(path);
        proof {
            assert(self.pending().subrange(0, p0.len() as int) =~= p0);
        }
        Some(())
    }

    /// Push the crate at the start of the path along the path, walking the worker behind it
    /// before each push. `None` if the worker finds no way behind the crate; the pushes made until
    /// then stay made.
    pub fn push_crate_along_path(&mut self, crate_path: Path) -> (r: Option<()>)
        requires
            old(self).wf(),
            crate_path.steps@.len() > 0,
            has_crate(old(self).entities(), crate_path.start),
            crate_walk(old(self).board(), old(self).entities(), crate_path.start, crate_path.steps@)
                is Some,
        ensures
            final(self).wf(),
            final(self).same_board(old(self)),
            push_outcome(
                old(self).board(),
                old(self).play(),
                crate_path.start,
                crate_path.steps@,
                r is Some,
                final(self).play(),
            ),
    {
        let ghost b = self.board();
        let ghost e0 = self.entities();
        let ghost start = crate_path.start;
        let ghost id = crate::current_level::rules::crate_id(e0, start);
        proof {
            assert(0 <= id < e0.crates.len() && e0.crates[id] == start);
            assert(e0.crates.update(id, start) =~= e0.crates);
            assert(crate_path.steps@.take(0) =~= Seq::<Move>::empty());
        }
        let n = crate_path.steps.len();
        let mut crate_pos = crate_path.start;
        for i in 0..n
            invariant
                self.wf(),
                self.same_board(old(self)),
                b == self.board(),
                b == old(self).board(),
                e0 == old(self).entities(),
                start == crate_path.start,
                n == crate_path.steps@.len(),
                id == crate::current_level::rules::crate_id(e0, start),
                0 <= id < e0.crates.len(),
                e0.crates[id] == start,
                entities_wf(b, e0),
                crate_walk(b, e0, start, crate_path.steps@) is Some,
                crate_walk(b, e0, start, crate_path.steps@.take(i as int)) == Some(crate_pos),
                self.entities().crates == e0.crates.update(id, crate_pos),
                old(self).pending().is_prefix_of(self.pending()),
                forall|j: int| 0 <= j < i ==> #[trigger] push_reachable(b, e0, start, crate_path.steps@, j),
                i == 0 ==> self.entities() == e0 && self.history() == old(self).history()
                    && self.pending() == old(self).pending(),
                i > 0 ==> self.entities().worker == crate_walk(
                    b,
                    e0,
                    start,
                    crate_path.steps@.take(i - 1),
                )->0,
        {
            let m = crate_path.steps[i];
            proof {
                lemma_crate_walk_prefix(b, e0, start, crate_path.steps@, i as int);
                lemma_crate_walk_in_grid(b, e0, start, crate_path.steps@.take(i as int));
                if i == 0 {
                    let kk = choose|kk: int| 0 <= kk < e0.crates.len() && e0.crates[kk] == start;
                    assert(crate::current_level::rules::interior(b, e0.crates[kk]));
                } else {
                    let e = self.entities();
                    assert(e.crates[id] == crate_pos);
                    assert(crate::current_level::rules::interior(b, e.crates[id]));
                }
                lemma_push_cells_free(b, e0, start, id, self.entities(), crate_pos, m.direction);
                lemma_interior_neighbours(b, crate_pos);
            }
            let ghost before = self.entities();
            proof {
                assert(before.crates =~= pushed_along(b, e0, start, crate_path.steps@, i as int).crates);
                assert(before == pushed_along(b, e0, start, crate_path.steps@, i as int));
            }
            if self.move_worker_into_position(crate_pos, &m).is_none() {
                proof {
                    assert(!push_reachable(b, e0, start, crate_path.steps@, i as int));
                    assert(self.entities() == pushed_along(b, e0, start, crate_path.steps@, i as int));
                    let ms = crate_path.steps@;
                    assert(i == 0 ==> self.history() == old(self).history() && self.pending()
                        == old(self).pending().push(crate::event::Event::NoPathFound));
                    assert(0 <= i < ms.len() && (forall|j: int|
                        0 <= j < i ==> #[trigger] push_reachable(b, e0, start, ms, j))
                        && !push_reachable(b, e0, start, ms, i as int) && self.play().entities
                        == pushed_along(b, e0, start, ms, i as int) && (i == 0
                        ==> self.play().history == old(self).play().history
                        && self.play().events == old(self).play().events.push(
                        crate::event::Event::NoPathFound,
                    )));
                    assert(!(forall|j: int|
                        0 <= j < ms.len() ==> #[trigger] push_reachable(b, e0, start, ms, j)));
                    assert(self.pending().subrange(0, old(self).pending().len() as int)
                        =~= old(self).pending());
                    let e = old(self).play().entities;
                    assert(e == e0);
                    assert(pushed_along(b, e, start, ms, i as int) == pushed_along(b, e0, start, ms, i as int));
                    assert(push_reachable(b, e, start, ms, i as int) == push_reachable(b, e0, start, ms, i as int));
                    assert(push_outcome(b, old(self).play(), start, ms, false, self.play()));
                    assert(self.entities().crates == e0.crates.update(
                        id,
                        crate_walk(b, e0, start, crate_path.steps@.take(i as int))->0,
                    ));
                    assert(self.pending().subrange(0, old(self).pending().len() as int)
                        =~= old(self).pending());
                }
                return None;
            }
            let ghost p2 = self.pending();
            proof {
                assert(push_reachable(b, e0, start, crate_path.steps@, i as int));
                assert(p2.subrange(0, old(self).pending().len() as int) =~= old(self).pending());
            }
            proof {
                lemma_interior_neighbours(b, crate_pos);
                crate::direction::lemma_neighbour_reverse(crate_pos, spec_reverse(m.direction));
                crate::direction::lemma_neighbour_reverse(crate_pos, m.direction);
            }
            let pushed = self.try_move(m.direction);
            proof {
                assert(pushed is Ok);
                assert(self.entities().crates =~= e0.crates.update(
                    id,
                    spec_neighbour(crate_pos, m.direction),
                ));
                assert(self.entities().worker == crate_pos);
                assert(crate_path.steps@.take(i + 1 - 1) =~= crate_path.steps@.take(i as int));
                assert(self.pending().subrange(0, old(self).pending().len() as int)
                    =~= old(self).pending());
            }
            crate_pos = crate_pos.neighbour(m.direction);
        }
        proof {
            assert(crate_path.steps@.take(n as int) =~= crate_path.steps@);
            assert(self.entities().crates =~= pushed_along(
                b,
                e0,
                start,
                crate_path.steps@,
                n as int,
            ).crates);
        }
        Some(())
    }

    /// Move the crate located at `from` to `to` if that is possible: along a path with as few
    /// pushes as possible, walking the worker behind the crate before each push.
    pub fn move_crate_to_target(&mut self, from: Position, to: Position) -> (r: Option<()>)
        requires
            old(self).wf(),
        ensures
            final(self).wf(),
            final(self).same_board(old(self)),
            ({
                let b = old(self).board();
                let e = old(self).entities();
                let valid = from != to && has_crate(e, from) && free(b, e, to);
                let id = crate::current_level::rules::crate_id(e, from);
                &&& (!valid || !crate_reachable(b, e, from, to)) ==> r is None && final(self).play()
                    == old(self).play()
                &&& r is Some ==> final(self).entities().crates == e.crates.update(id, to)
                &&& valid && crate_reachable(b, e, from, to) ==> exists|ms: Seq<Move>|
                    crate_walk(b, e, from, ms) == Some(to) && (forall|ms2: Seq<Move>|
                        crate_walk(b, e, from, ms2) == Some(to) ==> ms.len() <= ms2.len())
                        && #[trigger] push_outcome(
                        b,
                        old(self).play(),
                        from,
                        ms,
                        r is Some,
                        final(self).play(),
                    )
            }),
    {
        let path = self.find_path_with_crate(from, to)?;
        let ghost steps = path.steps@;
        let ghost before = self.play();
        let r = self.push_crate_along_path(path);
        proof {
            assert(push_outcome(self.board(), before, from, steps, r is Some, self.play()));
            assert(steps.take(steps.len() as int) =~= steps);
        }
        r
    }
}

} // verus!

//! The rules of movement, as mathematical functions of the board and of the positions of the
//! crates and of the worker.
use vstd::prelude::*;

use crate::cell::Background;
use crate::command::Obstacle;
use crate::direction::{Direction, spec_reverse, lemma_neighbour_reverse};
use crate::level::{cell_index, floor_or_goal, in_grid};
use crate::move_::Move;
use crate::position::{Position, spec_neighbour, has_all_neighbours};

verus! {

broadcast use vstd::seq_lib::lemma_seq_contains_after_push;

/// The static part of a level: its size and the background of each cell in row-major order.
pub struct Board {
    pub columns: int,
    pub rows: int,
    pub background: Seq<Background>,
}

/// The dynamic part of a level: the crates (listed by id) and the worker.
pub struct Entities {
    pub crates: Seq<Position>,
    pub worker: Position,
}

pub open spec fn board_wf(b: Board) -> bool {
    &&& b.columns >= 1
    &&& b.rows >= 1
    &&& b.rows * b.columns < isize::MAX
    &&& b.background.len() == b.rows * b.columns
}

/// The background of a cell of the board.
pub open spec fn bg_at(b: Board, p: Position) -> Background {
    b.background[cell_index(p, b.columns)]
}

/// A cell inside the level: floor or a goal.
pub open spec fn interior(b: Board, p: Position) -> bool {
    in_grid(p, b.columns, b.rows) && floor_or_goal(bg_at(b, p))
}

pub open spec fn has_crate(e: Entities, p: Position) -> bool {
    e.crates.contains(p)
}

/// A cell inside the level that holds no crate.
pub open spec fn free(b: Board, e: Entities, p: Position) -> bool {
    interior(b, p) && !has_crate(e, p)
}

/// The worker and every crate stand on cells of their own inside the level.
pub open spec fn entities_wf(b: Board, e: Entities) -> bool {
    &&& interior(b, e.worker)
    &&& !has_crate(e, e.worker)
    &&& forall|k: int| 0 <= k < e.crates.len() ==> interior(b, #[trigger] e.crates[k])
    &&& forall|i: int, j: int|
        0 <= i < j < e.crates.len() ==> #[trigger] e.crates[i] != #[trigger] e.crates[j]
}

/// The id of the crate at `p`.
pub open spec fn crate_id(e: Entities, p: Position) -> int {
    choose|i: int| 0 <= i < e.crates.len() && e.crates[i] == p
}

/// The result of a move, or `None` if it is blocked. A move that pushes walks into the cell of
/// a crate and pushes that crate one cell further, which must be free; a move that does not push
/// walks into a free cell. A pushing move towards a cell without a crate is a plain walk.
pub open spec fn spec_apply(b: Board, e: Entities, m: Move) -> Option<Entities> {
    let w2 = spec_neighbour(e.worker, m.direction);
    if has_crate(e, w2) && m.moves_crate {
        let c2 = spec_neighbour(w2, m.direction);
        if interior(b, w2) && free(b, e, c2) {
            Some(Entities { crates: e.crates.update(crate_id(e, w2), c2), worker: w2 })
        } else {
            None
        }
    } else if free(b, e, w2) {
        Some(Entities { crates: e.crates, worker: w2 })
    } else {
        None
    }
}

/// Does a move (that is not blocked) push a crate?
pub open spec fn spec_pushes(e: Entities, m: Move) -> bool {
    m.moves_crate && has_crate(e, spec_neighbour(e.worker, m.direction))
}

/// The move as it is recorded: it pushes only if it actually moves a crate.
pub open spec fn effective_move(e: Entities, m: Move) -> Move {
    Move { direction: m.direction, moves_crate: spec_pushes(e, m) }
}

/// What blocks a move that cannot be performed.
pub struct Blocked {
    pub obstacle_at: Position,
    pub obstacle_type: Obstacle,
    pub crate_blocked: bool,
}

pub open spec fn spec_blocked(b: Board, e: Entities, m: Move) -> Blocked {
    let w2 = spec_neighbour(e.worker, m.direction);
    if has_crate(e, w2) && m.moves_crate {
        let c2 = spec_neighbour(w2, m.direction);
        Blocked {
            obstacle_at: c2,
            obstacle_type: if !in_grid(c2, b.columns, b.rows) || bg_at(b, c2) == Background::Wall {
                Obstacle::Wall
            } else {
                Obstacle::Crate
            },
            crate_blocked: true,
        }
    } else {
        Blocked {
            obstacle_at: w2,
            obstacle_type: if has_crate(e, w2) { Obstacle::Crate } else { Obstacle::Wall },
            crate_blocked: false,
        }
    }
}

/// The moves of `ms` performed one after the other from `e`, or `None` if one is blocked.
pub open spec fn replay(b: Board, e: Entities, ms: Seq<Move>) -> Option<Entities>
    decreases ms.len(),
{
    if ms.len() == 0 {
        Some(e)
    } else {
        match replay(b, e, ms.drop_last()) {
            Some(e2) => spec_apply(b, e2, ms.last()),
            None => None,
        }
    }
}

/// Undo a move that has been performed: the worker steps back and, if the move pushed a crate,
/// pulls it along.
pub open spec fn spec_unapply(e: Entities, m: Move) -> Entities {
    let back = spec_neighbour(e.worker, spec_reverse(m.direction));
    if m.moves_crate {
        let c = spec_neighbour(e.worker, m.direction);
        Entities { crates: e.crates.update(crate_id(e, c), e.worker), worker: back }
    } else {
        Entities { crates: e.crates, worker: back }
    }
}

/// The number of crates that are not on a goal; the level is solved when there is none.
pub open spec fn misplaced(b: Board, crates: Seq<Position>) -> nat
    decreases crates.len(),
{
    if crates.len() == 0 {
        0
    } else {
        misplaced(b, crates.drop_last()) + if bg_at(b, crates.last()) == Background::Goal {
            0nat
        } else {
            1nat
        }
    }
}

/// Cells inside the level have all four neighbours.
pub proof fn lemma_interior_neighbours(b: Board, p: Position)
    requires
        board_wf(b),
        in_grid(p, b.columns, b.rows),
    ensures
        has_all_neighbours(p),
        forall|d: Direction| has_all_neighbours(#[trigger] spec_neighbour(p, d)),
{
    lemma_board_dims(b);
    assert forall|d: Direction| has_all_neighbours(#[trigger] spec_neighbour(p, d)) by {
        match d {
            Direction::Left => {},
            Direction::Right => {},
            Direction::Up => {},
            Direction::Down => {},
        }
    }
}

/// Neither dimension of a board reaches `isize::MAX`.
pub proof fn lemma_board_dims(b: Board)
    requires
        board_wf(b),
    ensures
        b.columns < isize::MAX,
        b.rows < isize::MAX,
        b.columns <= b.rows * b.columns,
{
    assert(b.columns <= b.rows * b.columns) by (nonlinear_arith)
        requires
            b.rows >= 1,
            b.columns >= 1,
    ;
    assert(b.rows <= b.rows * b.columns) by (nonlinear_arith)
        requires
            b.rows >= 1,
            b.columns >= 1,
    ;
}

/// The crate id of a crate's position is that crate.
pub proof fn lemma_crate_id(b: Board, e: Entities, k: int)
    requires
        entities_wf(b, e),
        0 <= k < e.crates.len(),
    ensures
        crate_id(e, e.crates[k]) == k,
{
    let i = crate_id(e, e.crates[k]);
    assert(0 <= i < e.crates.len() && e.crates[i] == e.crates[k]);
    if i < k {
        assert(e.crates[i] != e.crates[k]);
    } else if i > k {
        assert(e.crates[k] != e.crates[i]);
    }
}

/// Moving one crate changes the number of misplaced crates by its goal status before and after.
pub proof fn lemma_misplaced_update(b: Board, crates: Seq<Position>, i: int, p: Position)
    requires
        0 <= i < crates.len(),
    ensures
        misplaced(b, crates.update(i, p)) + (if bg_at(b, crates[i]) == Background::Goal {
            0int
        } else {
            1int
        }) == misplaced(b, crates) + (if bg_at(b, p) == Background::Goal {
            0int
        } else {
            1int
        }),
    decreases crates.len(),
{
    if i < crates.len() - 1 {
        lemma_misplaced_update(b, crates.drop_last(), i, p);
        assert(crates.update(i, p).drop_last() =~= crates.drop_last().update(i, p));
    } else {
        assert(crates.update(i, p).drop_last() =~= crates.drop_last());
    }
}

/// A move that is not blocked keeps the worker and the crates on cells of their own inside the
/// level.
pub proof fn lemma_apply_wf(b: Board, e: Entities, m: Move)
    requires
        board_wf(b),
        entities_wf(b, e),
        spec_apply(b, e, m) is Some,
    ensures
        entities_wf(b, spec_apply(b, e, m)->0),
        spec_apply(b, e, m)->0.crates.len() == e.crates.len(),
{
    let w2 = spec_neighbour(e.worker, m.direction);
    let e2 = spec_apply(b, e, m)->0;
    if has_crate(e, w2) && m.moves_crate {
        let c2 = spec_neighbour(w2, m.direction);
        let id = crate_id(e, w2);
        assert(0 <= id < e.crates.len() && e.crates[id] == w2);
        assert(!has_crate(e2, w2)) by {
            if has_crate(e2, w2) {
                let j = choose|j: int| 0 <= j < e2.crates.len() && e2.crates[j] == w2;
                if j == id {
                    lemma_interior_neighbours(b, w2);
                } else {
                    assert(e.crates[j] == w2);
                    if j < id {
                        assert(e.crates[j] != e.crates[id]);
                    } else {
                        assert(e.crates[id] != e.crates[j]);
                    }
                }
            }
        }
        assert forall|i: int, j: int| 0 <= i < j < e2.crates.len() implies #[trigger] e2.crates[i]
            != #[trigger] e2.crates[j] by {
            if i == id {
                assert(e.crates.contains(e.crates[j]));
            } else if j == id {
                assert(e.crates.contains(e.crates[i]));
            }
        }
    }
}

/// Undoing a move right after performing it restores the worker and the crates.
pub proof fn lemma_unapply_apply(b: Board, e: Entities, m: Move)
    requires
        board_wf(b),
        entities_wf(b, e),
        spec_apply(b, e, m) is Some,
    ensures
        spec_unapply(spec_apply(b, e, m)->0, effective_move(e, m)) == e,
{
    let w2 = spec_neighbour(e.worker, m.direction);
    let e2 = spec_apply(b, e, m)->0;
    lemma_interior_neighbours(b, e.worker);
    lemma_neighbour_reverse(e.worker, m.direction);
    if has_crate(e, w2) && m.moves_crate {
        let id = crate_id(e, w2);
        let c2 = spec_neighbour(w2, m.direction);
        assert(0 <= id < e.crates.len() && e.crates[id] == w2);
        lemma_apply_wf(b, e, m);
        lemma_crate_id(b, e2, id);
        assert(e2.crates[id] == c2);
        assert(e2.crates.update(id, w2) =~= e.crates);
    }
}

} // verus!

verus! {

/// A move as it would be recorded: it must push exactly when it moves a crate, and must not be
/// blocked.
pub open spec fn spec_apply_recorded(b: Board, e: Entities, m: Move) -> Option<Entities> {
    if m.moves_crate == spec_pushes(e, m) {
        spec_apply(b, e, m)
    } else {
        None
    }
}

/// The recorded moves of `ms` performed one after the other from `e`, or `None` if one is
/// blocked or does not record whether it pushed correctly.
pub open spec fn replay_recorded(b: Board, e: Entities, ms: Seq<Move>) -> Option<Entities>
    decreases ms.len(),
{
    if ms.len() == 0 {
        Some(e)
    } else {
        match replay_recorded(b, e, ms.drop_last()) {
            Some(e2) => spec_apply_recorded(b, e2, ms.last()),
            None => None,
        }
    }
}

/// Performing a move or its recorded form has the same result.
pub proof fn lemma_apply_effective(b: Board, e: Entities, m: Move)
    ensures
        spec_apply(b, e, effective_move(e, m)) == spec_apply(b, e, m),
        spec_apply(b, e, m) is Some ==> spec_apply_recorded(b, e, effective_move(e, m)) == spec_apply(
            b,
            e,
            m,
        ),
{
}

/// The events reported for a move that is not blocked: the crate's move, if it pushes one, then
/// the worker's.
pub open spec fn spec_move_events(e: Entities, m: Move) -> Seq<crate::event::Event> {
    let w2 = spec_neighbour(e.worker, m.direction);
    let worker_event = crate::event::Event::MoveWorker {
        from: e.worker,
        to: w2,
        direction: m.direction,
    };
    if spec_pushes(e, m) {
        seq![
            crate::event::Event::MoveCrate {
                id: crate_id(e, w2) as usize,
                from: w2,
                to: spec_neighbour(w2, m.direction),
            },
            worker_event,
        ]
    } else {
        seq![worker_event]
    }
}

/// The event reporting a blocked move.
pub open spec fn spec_blocked_event(bl: Blocked) -> crate::event::Event {
    crate::event::Event::CannotMove(crate::command::WithCrate(bl.crate_blocked), bl.obstacle_type)
}

/// The move made by stepping in direction `d`: it pushes if there is a crate in the way and
/// pushing is allowed.
pub open spec fn helper_move(e: Entities, d: Direction, may_push: bool) -> Move {
    Move { direction: d, moves_crate: may_push && has_crate(e, spec_neighbour(e.worker, d)) }
}

/// How many more steps in direction `d` stay on the grid.
pub open spec fn steps_left(b: Board, p: Position, d: Direction) -> nat {
    let v: int = match d {
        Direction::Left => p.x as int,
        Direction::Right => b.columns - 1 - p.x,
        Direction::Up => p.y as int,
        Direction::Down => b.rows - 1 - p.y,
    };
    if v < 0 { 0 } else { v as nat }
}

/// What repeated steps in one direction lead to.
pub struct Run {
    pub entities: Entities,
    pub moves: Seq<Move>,
    pub events: Seq<crate::event::Event>,
}

/// Step repeatedly in direction `d` (pushing crates if `may_push`), until a step is blocked, the
/// worker reaches `stop_at`, or a push solves the level; `fuel` bounds the number of steps.
pub open spec fn spec_run(
    b: Board,
    e: Entities,
    d: Direction,
    may_push: bool,
    stop_at: Option<Position>,
    fuel: nat,
) -> Run
    decreases fuel,
{
    let m = helper_move(e, d, may_push);
    match spec_apply(b, e, m) {
        None => Run { entities: e, moves: Seq::empty(), events: Seq::empty() },
        Some(e2) => {
            let m2 = effective_move(e, m);
            let evs = spec_move_events(e, m);
            if stop_at == Some(e2.worker) || (may_push && misplaced(b, e2.crates) == 0) || fuel
                == 0 {
                Run { entities: e2, moves: seq![m2], events: evs }
            } else {
                let r = spec_run(b, e2, d, may_push, stop_at, (fuel - 1) as nat);
                Run { entities: r.entities, moves: seq![m2] + r.moves, events: evs + r.events }
            }
        },
    }
}

/// A step that is not blocked stays inside the grid, so fewer steps are left afterwards.
pub proof fn lemma_step_steps_left(b: Board, e: Entities, m: Move)
    requires
        board_wf(b),
        entities_wf(b, e),
        spec_apply(b, e, m) is Some,
    ensures
        steps_left(b, e.worker, m.direction) > 0,
        steps_left(b, spec_apply(b, e, m)->0.worker, m.direction) == steps_left(
            b,
            e.worker,
            m.direction,
        ) - 1,
{
    lemma_interior_neighbours(b, e.worker);
    let w2 = spec_neighbour(e.worker, m.direction);
    assert(spec_apply(b, e, m)->0.worker == w2);
    assert(interior(b, w2));
    match m.direction {
        Direction::Left => {},
        Direction::Right => {},
        Direction::Up => {},
        Direction::Down => {},
    }
}

} // verus!

verus! {

/// Every goal of the board holds a crate.
pub open spec fn goals_covered(b: Board, e: Entities) -> bool {
    forall|p: Position|
        in_grid(p, b.columns, b.rows) && #[trigger] bg_at(b, p) == Background::Goal ==> has_crate(
            e,
            p,
        )
}

/// No crate is misplaced exactly when every crate stands on a goal.
proof fn lemma_misplaced_zero(b: Board, crates: Seq<Position>)
    ensures
        (misplaced(b, crates) == 0) <==> forall|k: int|
            0 <= k < crates.len() ==> bg_at(b, #[trigger] crates[k]) == Background::Goal,
    decreases crates.len(),
{
    if crates.len() > 0 {
        lemma_misplaced_zero(b, crates.drop_last());
        let d = crates.drop_last();
        if misplaced(b, crates) == 0 {
            assert forall|k: int| 0 <= k < crates.len() implies bg_at(b, #[trigger] crates[k])
                == Background::Goal by {
                if k < crates.len() - 1 {
                    assert(crates[k] == d[k]);
                }
            }
        }
        if forall|k: int| 0 <= k < crates.len() ==> bg_at(b, #[trigger] crates[k]) == Background::Goal {
            assert forall|k: int| 0 <= k < d.len() implies bg_at(b, #[trigger] d[k])
                == Background::Goal by {
                assert(d[k] == crates[k]);
            }
            assert(bg_at(b, crates[crates.len() - 1]) == Background::Goal);
        }
    }
}

/// With as many goals as crates, each crate on a cell of its own, no crate is misplaced exactly
/// when every goal holds a crate.
pub proof fn lemma_solved_iff_goals_covered(b: Board, e: Entities)
    requires
        board_wf(b),
        entities_wf(b, e),
        crate::cell::goal_count(b.background) == e.crates.len(),
    ensures
        (misplaced(b, e.crates) == 0) <==> goals_covered(b, e),
{
    let c = b.columns;
    let r = b.rows;
    let n = e.crates.len();
    let idx = e.crates.map_values(|p: Position| cell_index(p, c));
    let a = idx.to_set();
    let g = crate::cell::goal_cells(b.background);
    lemma_misplaced_zero(b, e.crates);
    crate::cell::lemma_goal_cells(b.background);
    assert(idx.no_duplicates()) by {
        assert forall|i: int, j: int| 0 <= i < idx.len() && 0 <= j < idx.len() && i != j implies idx[i]
            != idx[j] by {
            if idx[i] == idx[j] {
                crate::current_level::pathfinding::lemma_index_injective(e.crates[i], e.crates[j], c, r);
                if i < j {
                    assert(e.crates[i] != e.crates[j]);
                } else {
                    assert(e.crates[j] != e.crates[i]);
                }
            }
        }
    }
    idx.unique_seq_to_set();
    vstd::seq_lib::seq_to_set_is_finite(idx);
    assert forall|k: int| 0 <= k < n implies in_grid(#[trigger] e.crates[k], c, r) && 0 <= idx[k]
        < b.background.len() by {
        assert(interior(b, e.crates[k]));
        crate::grid::lemma_index_bound(e.crates[k].y as int, e.crates[k].x as int, c, r);
    }
    if misplaced(b, e.crates) == 0 {
        assert(a.subset_of(g)) by {
            assert forall|i: int| a.contains(i) implies g.contains(i) by {
                let k = choose|k: int| 0 <= k < idx.len() && idx[k] == i;
                assert(bg_at(b, e.crates[k]) == Background::Goal);
            }
        }
        vstd::set_lib::lemma_subset_equality(a, g);
        assert forall|p: Position|
            in_grid(p, c, r) && #[trigger] bg_at(b, p) == Background::Goal implies has_crate(e, p) by {
            crate::grid::lemma_index_bound(p.y as int, p.x as int, c, r);
            let i = cell_index(p, c);
            assert(g.contains(i));
            assert(a.contains(i));
            let k = choose|k: int| 0 <= k < idx.len() && idx[k] == i;
            crate::current_level::pathfinding::lemma_index_injective(e.crates[k], p, c, r);
            assert(e.crates[k] == p);
        }
    }
    if goals_covered(b, e) {
        assert(g.subset_of(a)) by {
            assert forall|i: int| g.contains(i) implies a.contains(i) by {
                crate::grid::lemma_index_in_grid(i, c, r);
                let p = Position { x: (i % c) as isize, y: (i / c) as isize };
                assert(in_grid(p, c, r));
                assert(cell_index(p, c) == i);
                assert(bg_at(b, p) == Background::Goal);
                assert(has_crate(e, p));
                let k = choose|k: int| 0 <= k < e.crates.len() && e.crates[k] == p;
                assert(idx[k] == i);
            }
        }
        vstd::set_lib::lemma_subset_equality(g, a);
        assert forall|k: int| 0 <= k < n implies bg_at(b, #[trigger] e.crates[k])
            == Background::Goal by {
            assert(a.contains(idx[k]));
        }
    }
}

} // verus!

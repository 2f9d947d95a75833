use vstd::prelude::*;

pub mod rules;
pub mod pathfinding;
pub mod graph;

use crate::cell::Background;
use crate::command::{Obstacle, WithCrate};
use crate::direction::{Direction, spec_reverse, lemma_neighbour_reverse};
use crate::event::Event;
use crate::grid::lemma_index_bound;
use crate::level::{Level, cell_index, floor_or_goal, in_grid};
use crate::move_::{Move, spec_move_char};
use crate::position::{Position, spec_neighbour, has_all_neighbours};
use crate::undo::{Undo, UndoView};
use crate::current_level::rules::{
    Board, Entities, board_wf, bg_at, interior, has_crate, free, entities_wf, crate_id,
    spec_apply, spec_pushes, effective_move, Blocked, spec_blocked, spec_unapply, misplaced,
    lemma_interior_neighbours, lemma_board_dims, lemma_crate_id, lemma_misplaced_update,
    lemma_apply_wf, lemma_unapply_apply, spec_apply_recorded, replay_recorded,
    lemma_apply_effective, spec_move_events, spec_blocked_event,
};

verus! {

/// The parts of a level that change while it is played.
#[derive(Clone)]
pub struct DynamicEntities {
    /// Positions of all crates; the index of a crate in this list is its id.
    pub crates: Vec<Position>,
    /// The number of crates that are not on a goal; the level is solved when there is none.
    pub empty_goals: usize,
    /// Where the worker is at the moment
    pub worker_position: Position,
}

impl View for DynamicEntities {
    type V = Entities;

    open spec fn view(&self) -> Entities {
        Entities { crates: self.crates@, worker: self.worker_position }
    }
}

impl DynamicEntities {
    /// Is there no crate at the given position?
    pub fn is_empty(&self, position: Position) -> (r: bool)
        ensures
            r == !has_crate(self@, position),
    {
        self.crate_at(position).is_none()
    }

    /// Is there a crate at the given position?
    pub fn is_crate(&self, pos: Position) -> (r: bool)
        ensures
            r == has_crate(self@, pos),
    {
        self.crate_at(pos).is_some()
    }

    /// The id of the first crate at the given position, if there is one.
    fn crate_at(&self, pos: Position) -> (r: Option<usize>)
        ensures
            match r {
                Some(i) => i < self.crates@.len() && self.crates@[i as int] == pos && forall|j: int|
                    0 <= j < i ==> self.crates@[j] != pos,
                None => !has_crate(self@, pos),
            },
    {
        let mut i: usize = 0;
        while i < self.crates.len()
            invariant
                i <= self.crates@.len(),
                forall|j: int| 0 <= j < i ==> self.crates@[j] != pos,
            decreases self.crates@.len() - i,
        {
            if self.crates[i] == pos {
                return Some(i);
            }
            i = i + 1;
        }
        None
    }
}

/// A level while it is being played: the board, the crates and the worker, the log of moves
/// for undo and redo, and the events that have not been handed out yet.
#[derive(Clone)]
pub struct CurrentLevel {
    pub columns: usize,
    pub rows: usize,
    /// `columns * rows` cells’ backgrounds in row-major order
    pub background: Vec<Background>,
    pub dynamic: DynamicEntities,
    pub undo: Undo<Move>,
    /// Events waiting to be handed to the front end.
    pub events: Vec<Event>,
    /// Where the crates and the worker started.
    pub initial: Ghost<Entities>,
}

/// A step of the worker or of a crate from one cell to a neighbouring one.
#[derive(Debug, Clone, Copy)]
pub struct FromTo {
    pub from: Position,
    pub to: Position,
}

/// What could not move.
#[derive(Debug, Clone, Copy, PartialEq, Eq, Structural)]
pub enum BlockedEntity {
    Worker,
    Crate,
}

/// A move that can be performed, with the steps of the worker and of the crate it pushes.
#[derive(Debug, Clone, Copy)]
pub struct VerifiedMove {
    pub worker_move: FromTo,
    pub crate_move: Option<FromTo>,
}

/// Why a move cannot be performed.
#[derive(Debug, Clone, Copy)]
pub struct FailedMove {
    pub obstacle_at: Position,
    pub obstacle_type: Obstacle,
    pub thing_blocked: BlockedEntity,
}

/// The event reporting a failed move.
pub open spec fn spec_failed_move_event(f: FailedMove) -> Event {
    Event::CannotMove(WithCrate(f.thing_blocked == BlockedEntity::Crate), f.obstacle_type)
}

impl From<FailedMove> for Event {
    fn from(f: FailedMove) -> (r: Event) {
        Event::CannotMove(WithCrate(f.thing_blocked == BlockedEntity::Crate), f.obstacle_type)
    }
}

impl vstd::std_specs::convert::FromSpecImpl<FailedMove> for Event {
    open spec fn obeys_from_spec() -> bool {
        true
    }

    open spec fn from_spec(f: FailedMove) -> Event {
        spec_failed_move_event(f)
    }
}

/// What blocks a move, as the reason of a failed move.
pub open spec fn spec_failed_move(bl: Blocked) -> FailedMove {
    FailedMove {
        obstacle_at: bl.obstacle_at,
        obstacle_type: bl.obstacle_type,
        thing_blocked: if bl.crate_blocked { BlockedEntity::Crate } else { BlockedEntity::Worker },
    }
}

impl CurrentLevel {
    pub open spec fn board(&self) -> Board {
        Board { columns: self.columns as int, rows: self.rows as int, background: self.background@ }
    }

    pub open spec fn entities(&self) -> Entities {
        self.dynamic@
    }

    pub open spec fn history(&self) -> UndoView<Move> {
        self.undo.view()
    }

    pub open spec fn pending(&self) -> Seq<Event> {
        self.events@
    }

    /// The worker and the crates stand on cells of their own inside the board, there are as many
    /// goals as crates, the count of misplaced crates is up to date, and replaying the performed
    /// moves from the start leads to the current positions.
    pub open spec fn wf(&self) -> bool {
        &&& board_wf(self.board())
        &&& entities_wf(self.board(), self.entities())
        &&& crate::cell::goal_count(self.board().background) == self.entities().crates.len()
        &&& entities_wf(self.board(), self.initial@)
        &&& self.dynamic.empty_goals == misplaced(self.board(), self.dynamic.crates@)
        &&& self.undo.wf()
        &&& replay_recorded(
            self.board(),
            self.initial@,
            self.undo.actions@.take(self.undo.actions_performed as int),
        ) == Some(self.entities())
    }

    /// Only the worker, the crates, the log and the events change; the board stays.
    pub open spec fn same_board(&self, other: &CurrentLevel) -> bool {
        &&& self.columns == other.columns
        &&& self.rows == other.rows
        &&& self.background@ == other.background@
        &&& self.initial@ == other.initial@
    }
}

/// The entities obtained by replaying recorded moves keep the worker and the crates on cells of
/// their own inside the board.
pub proof fn lemma_replay_wf(b: Board, e: Entities, ms: Seq<Move>)
    requires
        board_wf(b),
        entities_wf(b, e),
        replay_recorded(b, e, ms) is Some,
    ensures
        entities_wf(b, replay_recorded(b, e, ms)->0),
        replay_recorded(b, e, ms)->0.crates.len() == e.crates.len(),
    decreases ms.len(),
{
    if ms.len() > 0 {
        lemma_replay_wf(b, e, ms.drop_last());
        let e2 = replay_recorded(b, e, ms.drop_last())->0;
        lemma_apply_wf(b, e2, ms.last());
    }
}

/// Replaying one more recorded move applies it to the result of replaying the ones before.
pub proof fn lemma_replay_push(b: Board, e: Entities, ms: Seq<Move>, m: Move)
    ensures
        replay_recorded(b, e, ms.push(m)) == (match replay_recorded(b, e, ms) {
            Some(e2) => spec_apply_recorded(b, e2, m),
            None => None,
        }),
{
    assert(ms.push(m).drop_last() =~= ms);
}

} // verus!

verus! {

/// The number of moves that push a crate.
pub open spec fn count_pushes(ms: Seq<Move>) -> nat
    decreases ms.len(),
{
    if ms.len() == 0 {
        0
    } else {
        count_pushes(ms.drop_last()) + if ms.last().moves_crate {
            1nat
        } else {
            0nat
        }
    }
}

/// The moves written one character each.
pub open spec fn moves_string(ms: Seq<Move>) -> Seq<char> {
    ms.map_values(|m: Move| spec_move_char(m))
}

/// The moves that have been performed and not undone.
pub open spec fn performed_moves(h: UndoView<Move>) -> Seq<Move> {
    h.actions.take(h.performed)
}

/// Is the cell at `pos` a goal? Cells that the indices do not reach are not.
fn goal_at(background: &Vec<Background>, columns: usize, pos: Position) -> (r: bool)
    ensures
        (0 <= pos.x < columns && pos.y >= 0 && 0 <= cell_index(pos, columns as int)
            < background@.len()) ==> r == (background@[cell_index(pos, columns as int)]
            == Background::Goal),
{
    if pos.x < 0 || pos.y < 0 || pos.x as usize >= columns {
        return false;
    }
    let n = background.len();
    match (pos.y as usize).checked_mul(columns) {
        None => false,
        Some(row_start) => match row_start.checked_add(pos.x as usize) {
            None => false,
            Some(i) => {
                if i < n {
                    match background[i] {
                        Background::Goal => true,
                        _ => false,
                    }
                } else {
                    false
                }
            },
        },
    }
}

/// The number of crates that are not on a goal.
fn count_misplaced(background: &Vec<Background>, columns: usize, crates: &Vec<Position>) -> (r:
    usize)
    ensures
        (forall|k: int|
            0 <= k < crates@.len() ==> 0 <= (#[trigger] crates@[k]).x < columns && crates@[k].y
                >= 0 && 0 <= cell_index(crates@[k], columns as int) < background@.len()) ==> r
            == misplaced(
            Board { columns: columns as int, rows: 0, background: background@ },
            crates@,
        ),
{
    let ghost b = Board { columns: columns as int, rows: 0, background: background@ };
    let mut count: usize = 0;
    let mut i: usize = 0;
    while i < crates.len()
        invariant
            i <= crates@.len(),
            b == (Board { columns: columns as int, rows: 0, background: background@ }),
            count <= i,
            (forall|k: int|
                0 <= k < crates@.len() ==> 0 <= (#[trigger] crates@[k]).x < columns
                    && crates@[k].y >= 0 && 0 <= cell_index(crates@[k], columns as int)
                    < background@.len()) ==> count == misplaced(b, crates@.take(i as int)),
        decreases crates@.len() - i,
    {
        assert(crates@.take(i + 1).drop_last() =~= crates@.take(i as int));
        if !goal_at(background, columns, crates[i]) {
            count = count + 1;
        }
        i = i + 1;
    }
    assert(crates@.take(i as int) =~= crates@);
    count
}

impl<'a> From<&'a Level> for CurrentLevel {
    /// Start playing a level.
    fn from(level: &'a Level) -> (r: CurrentLevel)
        ensures
            level.wf() ==> {
                &&& r.wf()
                &&& r.columns == level.columns
                &&& r.rows == level.rows
                &&& r.background@ == level.background@
                &&& r.entities() == (Entities {
                    crates: level.crates@,
                    worker: level.worker_position,
                })
                &&& r.initial@ == r.entities()
                &&& r.history().actions.len() == 0
                &&& r.history().performed == 0
                &&& r.pending().len() == 0
            },
    {
        let empty_goals = count_misplaced(&level.background, level.columns, &level.crates);
        let dynamic = DynamicEntities {
            crates: level.crates.clone(),
            empty_goals,
            worker_position: level.worker_position,
        };
        let ghost e = dynamic@;
        let r = CurrentLevel {
            columns: level.columns,
            rows: level.rows,
            background: level.background.clone(),
            dynamic,
            undo: Undo::new(),
            events: Vec::new(),
            initial: Ghost(e),
        };
        proof {
            if level.wf() {
                let b = r.board();
                lemma_board_dims(b);
                assert forall|k: int| 0 <= k < level.crates@.len() implies 0 <= (
                #[trigger] level.crates@[k]).x < level.columns && level.crates@[k].y >= 0 && 0
                    <= cell_index(level.crates@[k], level.columns as int)
                    < level.background@.len() by {
                    let p = level.crates@[k];
                    lemma_index_bound(p.y as int, p.x as int, b.columns, b.rows);
                }
                lemma_misplaced_board(
                    Board {
                        columns: level.columns as int,
                        rows: 0,
                        background: level.background@,
                    },
                    b,
                    level.crates@,
                );
                assert(r.undo.actions@.take(0) =~= Seq::<Move>::empty());
            }
        }
        r
    }
}

impl<'a> vstd::std_specs::convert::FromSpecImpl<&'a Level> for CurrentLevel {
    open spec fn obeys_from_spec() -> bool {
        false
    }

    open spec fn from_spec(level: &'a Level) -> CurrentLevel {
        vstd::pervasive::arbitrary()
    }
}

impl Level {
    /// The level drawn in ASCII as it starts, one line per row, without a final line break.
    pub fn to_string(&self) -> (s: String)
        requires
            self.wf(),
        ensures
            s@ == level_string(
                Board {
                    columns: self.columns as int,
                    rows: self.rows as int,
                    background: self.background@,
                },
                Entities { crates: self.crates@, worker: self.worker_position },
                self.rows as int,
            ),
    {
        CurrentLevel::from(self).to_string()
    }
}

impl From<Level> for CurrentLevel {
    /// Start playing a level.
    fn from(level: Level) -> (r: CurrentLevel)
        ensures
            level.wf() ==> {
                &&& r.wf()
                &&& r.columns == level.columns
                &&& r.rows == level.rows
                &&& r.background@ == level.background@
                &&& r.entities() == (Entities {
                    crates: level.crates@,
                    worker: level.worker_position,
                })
                &&& r.initial@ == r.entities()
                &&& r.history().actions.len() == 0
                &&& r.history().performed == 0
                &&& r.pending().len() == 0
            },
    {
        CurrentLevel::from(&level)
    }
}

impl vstd::std_specs::convert::FromSpecImpl<Level> for CurrentLevel {
    open spec fn obeys_from_spec() -> bool {
        false
    }

    open spec fn from_spec(level: Level) -> CurrentLevel {
        vstd::pervasive::arbitrary()
    }
}

/// The number of misplaced crates depends only on the columns and the cells of the board.
pub proof fn lemma_misplaced_board(b1: Board, b2: Board, crates: Seq<Position>)
    requires
        b1.columns == b2.columns,
        b1.background == b2.background,
    ensures
        misplaced(b1, crates) == misplaced(b2, crates),
    decreases crates.len(),
{
    if crates.len() > 0 {
        lemma_misplaced_board(b1, b2, crates.drop_last());
    }
}

} // verus!

verus! {

/// The direction the worker faces: that of the last performed move, or left before the first.
pub open spec fn spec_worker_direction(h: UndoView<Move>) -> Direction {
    if h.performed > 0 {
        h.actions[h.performed - 1].direction
    } else {
        Direction::Left
    }
}

/// No more moves push than there are moves.
pub proof fn lemma_count_pushes_bound(ms: Seq<Move>)
    ensures
        count_pushes(ms) <= ms.len(),
    decreases ms.len(),
{
    if ms.len() > 0 {
        lemma_count_pushes_bound(ms.drop_last());
    }
}

/// Parse level and some basic utility functions. None of these change an existing `CurrentLevel`.
impl CurrentLevel {
    pub fn rows(&self) -> (r: usize)
        ensures
            r == self.rows,
    {
        self.rows
    }

    pub fn columns(&self) -> (r: usize)
        ensures
            r == self.columns,
    {
        self.columns
    }

    pub fn worker_position(&self) -> (r: Position)
        ensures
            r == self.dynamic.worker_position,
    {
        self.dynamic.worker_position
    }

    /// Is the position a cell of the board?
    fn in_bounds(&self, pos: Position) -> (r: bool)
        requires
            board_wf(self.board()),
        ensures
            r == in_grid(pos, self.columns as int, self.rows as int),
    {
        proof {
            lemma_board_dims(self.board());
        }
        pos.x >= 0 && pos.y >= 0 && pos.x < self.columns as isize && pos.y < self.rows as isize
    }

    /// The row-major index of a cell of the board.
    fn index(&self, pos: Position) -> (r: usize)
        requires
            board_wf(self.board()),
            in_grid(pos, self.columns as int, self.rows as int),
        ensures
            r == cell_index(pos, self.columns as int),
            r < self.background@.len(),
    {
        proof {
            lemma_index_bound(pos.y as int, pos.x as int, self.columns as int, self.rows as int);
        }
        pos.x as usize + pos.y as usize * self.columns
    }

    /// The position of the cell with the given row-major index.
    pub fn position(&self, i: usize) -> (r: Position)
        requires
            self.columns > 0,
        ensures
            r.x == (i % self.columns) as isize,
            r.y == (i / self.columns) as isize,
    {
        Position::from_index(i, self.columns)
    }

    /// The background of a cell of the board.
    pub fn background(&self, pos: Position) -> (r: &Background)
        requires
            board_wf(self.board()),
            in_grid(pos, self.columns as int, self.rows as int),
        ensures
            *r == bg_at(self.board(), pos),
    {
        &self.background[self.index(pos)]
    }

    /// Is there a crate at the given position?
    pub fn is_crate(&self, pos: Position) -> (r: bool)
        ensures
            r == has_crate(self.entities(), pos),
    {
        self.dynamic.is_crate(pos)
    }

    /// Is the cell with the given coordinates empty, i.e. could a crate be moved into it?
    pub fn is_empty(&self, pos: Position) -> (r: bool)
        requires
            board_wf(self.board()),
        ensures
            r == free(self.board(), self.entities(), pos),
    {
        self.is_interior(pos) && self.dynamic.is_empty(pos)
    }

    /// Is the cell outside of the level, or not on the board at all?
    pub fn is_outside(&self, pos: Position) -> (r: bool)
        requires
            board_wf(self.board()),
        ensures
            r == (!in_grid(pos, self.columns as int, self.rows as int) || bg_at(self.board(), pos)
                == Background::Empty),
    {
        if !self.in_bounds(pos) {
            return true;
        }
        match *self.background(pos) {
            Background::Empty => true,
            _ => false,
        }
    }

    /// Is the worker at the given position?
    pub fn is_worker(&self, pos: Position) -> (r: bool)
        ensures
            r == (pos == self.dynamic.worker_position),
    {
        pos == self.dynamic.worker_position
    }

    /// The cell at the given position is neither empty, nor does it contain a wall.
    pub fn is_interior(&self, pos: Position) -> (r: bool)
        requires
            board_wf(self.board()),
        ensures
            r == interior(self.board(), pos),
    {
        if !self.in_bounds(pos) {
            return false;
        }
        match *self.background(pos) {
            Background::Floor | Background::Goal => true,
            _ => false,
        }
    }

    /// Check whether the given level is completed, i.e. every goal has a crate on it, and every
    /// crate is on a goal.
    pub fn is_finished(&self) -> (r: bool)
        ensures
            r == (self.dynamic.empty_goals == 0),
            self.wf() ==> r == (misplaced(self.board(), self.entities().crates) == 0),
            self.wf() ==> r == crate::current_level::rules::goals_covered(
                self.board(),
                self.entities(),
            ),
    {
        proof {
            if self.wf() {
                crate::current_level::rules::lemma_solved_iff_goals_covered(
                    self.board(),
                    self.entities(),
                );
            }
        }
        self.dynamic.empty_goals == 0
    }

    /// How many moves were performed to reach the current state?
    pub fn number_of_moves(&self) -> (r: usize)
        ensures
            r == self.history().performed,
    {
        self.undo.actions_performed
    }

    /// How many times have crates been moved to reach the current state?
    pub fn number_of_pushes(&self) -> (r: usize)
        ensures
            self.undo.wf() ==> r == count_pushes(performed_moves(self.history())),
    {
        let ghost ms = performed_moves(self.history());
        let performed = if self.undo.actions_performed <= self.undo.actions.len() {
            self.undo.actions_performed
        } else {
            self.undo.actions.len()
        };
        let mut n: usize = 0;
        let mut i: usize = 0;
        while i < performed
            invariant
                performed <= self.undo.actions@.len(),
                self.undo.wf() ==> performed == self.undo.actions_performed,
                ms == performed_moves(self.history()),
                i <= performed,
                n == count_pushes(self.undo.actions@.take(i as int)),
            decreases performed - i,
        {
            proof {
                assert(self.undo.actions@.take(i + 1).drop_last() =~= self.undo.actions@.take(
                    i as int,
                ));
                lemma_count_pushes_bound(self.undo.actions@.take(i as int));
            }
            if self.undo.actions[i].moves_crate {
                n = n + 1;
            }
            i = i + 1;
        }
        n
    }

    /// Which direction is the worker currently facing?
    pub fn worker_direction(&self) -> (r: Direction)
        requires
            self.undo.wf(),
        ensures
            r == spec_worker_direction(self.history()),
    {
        if self.undo.actions_performed == 0 {
            Direction::Left
        } else {
            self.undo.actions[self.undo.actions_performed - 1].direction
        }
    }

    /// Create a string representation of the moves made to reach the current state.
    pub fn moves_to_string(&self) -> (s: String)
        ensures
            self.undo.wf() ==> s@ == moves_string(performed_moves(self.history())),
    {
        let performed = if self.undo.actions_performed <= self.undo.actions.len() {
            self.undo.actions_performed
        } else {
            self.undo.actions.len()
        };
        moves_prefix_to_string(&self.undo.actions, performed)
    }

    /// Convert moves to string, including moves that have been undone.
    ///
    /// Used for loading a level.
    pub fn all_moves_to_string(&self) -> (s: String)
        ensures
            s@ == moves_string(self.history().actions),
    {
        let s = moves_prefix_to_string(&self.undo.actions, self.undo.actions.len());
        assert(self.undo.actions@.take(self.undo.actions@.len() as int) =~= self.undo.actions@);
        s
    }

    /// Get an ordered list of the crates’ positions where the id of a crate is its index in the
    /// list.
    pub fn crate_positions(&self) -> (r: Vec<Position>)
        ensures
            r@ == self.dynamic.crates@,
    {
        let r = self.dynamic.crates.clone();
        assert(r@ =~= self.dynamic.crates@);
        r
    }

    /// The backgrounds of all cells in row-major order.
    pub fn background_cells(&self) -> (r: &[Background])
        ensures
            r@ == self.background@,
    {
        self.background.as_slice()
    }

    /// Hand out the events that have happened since the last call.
    pub fn take_events(&mut self) -> (r: Vec<Event>)
        ensures
            r@ == old(self).pending(),
            final(self).pending() == Seq::<Event>::empty(),
            final(self).same_board(old(self)),
            final(self).dynamic == old(self).dynamic,
            final(self).undo == old(self).undo,
    {
        let mut r: Vec<Event> = Vec::new();
        std::mem::swap(&mut r, &mut self.events);
        r
    }
}

/// The first `n` moves of a log, one character each.
fn moves_prefix_to_string(moves: &Vec<Move>, n: usize) -> (s: String)
    requires
        n <= moves@.len(),
    ensures
        s@ == moves_string(moves@.take(n as int)),
{
    let mut s = String::new();
    for i in 0..n
        invariant
            n <= moves@.len(),
            s@ == moves_string(moves@.take(i as int)),
    {
        s.push(moves[i].to_char());
        assert(moves_string(moves@.take(i + 1)) =~= moves_string(moves@.take(i as int)).push(
            spec_move_char(moves@[i as int]),
        ));
    }
    s
}

} // verus!

verus! {

/// What can be observed of a level while it is played: the worker and the crates, the log of
/// moves, and the events not handed out yet.
pub struct Play {
    pub entities: Entities,
    pub history: UndoView<Move>,
    pub events: Seq<Event>,
}

impl CurrentLevel {
    pub open spec fn play(&self) -> Play {
        Play { entities: self.entities(), history: self.history(), events: self.pending() }
    }
}

/// The steps of a move that is not blocked.
pub open spec fn spec_verified_move(e: Entities, m: Move) -> VerifiedMove {
    let w2 = spec_neighbour(e.worker, m.direction);
    VerifiedMove {
        worker_move: FromTo { from: e.worker, to: w2 },
        crate_move: if spec_pushes(e, m) {
            Some(FromTo { from: w2, to: spec_neighbour(w2, m.direction) })
        } else {
            None
        },
    }
}

/// Performing a move and recording it, or `None` if it is blocked.
pub open spec fn play_move(b: Board, s: Play, m: Move) -> Option<Play> {
    match spec_apply(b, s.entities, m) {
        Some(e2) => Some(
            Play {
                entities: e2,
                history: crate::undo::spec_record(s.history, effective_move(s.entities, m)),
                events: s.events + spec_move_events(s.entities, m),
            },
        ),
        None => None,
    }
}

/// The state after a move that failed: nothing moved, and the failure is reported.
pub open spec fn play_failed(b: Board, s: Play, m: Move) -> Play {
    Play {
        entities: s.entities,
        history: s.history,
        events: s.events.push(spec_failed_move_event(spec_failed_move(spec_blocked(b, s.entities, m)))),
    }
}

/// The events reported when a move is undone: the worker steps back (still facing the direction
/// of the move), then the crate it pushed, if any, follows.
pub open spec fn spec_undo_events(e: Entities, m: Move) -> Seq<Event> {
    let back = spec_neighbour(e.worker, spec_reverse(m.direction));
    let worker_event = Event::MoveWorker { from: e.worker, to: back, direction: m.direction };
    if m.moves_crate {
        let c = spec_neighbour(e.worker, m.direction);
        seq![
            worker_event,
            Event::MoveCrate { id: crate_id(e, c) as usize, from: c, to: e.worker },
        ]
    } else {
        seq![worker_event]
    }
}

/// Undoing the most recent move, or reporting that there is none.
pub open spec fn play_undo(s: Play) -> Play {
    match crate::undo::spec_undo_result(s.history) {
        Some(m) => Play {
            entities: spec_unapply(s.entities, m),
            history: crate::undo::spec_undo(s.history),
            events: s.events + spec_undo_events(s.entities, m),
        },
        None => Play { entities: s.entities, history: s.history, events: s.events.push(Event::NothingToUndo) },
    }
}

/// Redoing the most recently undone move, or reporting that there is none or that it is blocked.
pub open spec fn play_redo(b: Board, s: Play) -> Play {
    match crate::undo::spec_redo_result(s.history) {
        Some(m) => match play_move(b, s, m) {
            Some(s2) => s2,
            None => play_failed(b, s, m),
        },
        None => Play { entities: s.entities, history: s.history, events: s.events.push(Event::NothingToRedo) },
    }
}

/// Recording the moves of `ms`, one after the other.
pub open spec fn record_all(h: UndoView<Move>, ms: Seq<Move>) -> UndoView<Move>
    decreases ms.len(),
{
    if ms.len() == 0 {
        h
    } else {
        crate::undo::spec_record(record_all(h, ms.drop_last()), ms.last())
    }
}

/// Recording a move after the performed ones: the performed moves are followed by it.
pub proof fn lemma_record_prefix(h: UndoView<Move>, x: Move)
    requires
        0 <= h.performed <= h.actions.len(),
    ensures
        performed_moves(crate::undo::spec_record(h, x)) == performed_moves(h).push(x),
        crate::undo::spec_record(h, x).performed <= crate::undo::spec_record(h, x).actions.len(),
{
    let r = crate::undo::spec_record(h, x);
    assert(performed_moves(r) =~= performed_moves(h).push(x));
}

/// The number of moves in a log. A `Vec` never holds more than `isize::MAX` bytes and a move
/// takes at least one, so the count is at most `isize::MAX`.
#[verifier::external_body]
fn number_of_logged_moves(moves: &Vec<Move>) -> (n: usize)
    ensures
        n == moves@.len(),
        n <= isize::MAX,
{
    moves.len()
}

/// Movement, i.e. everything that *does* change the `self`.
impl CurrentLevel {
    /// Figure out whether a `Move` can be performed at the current state. If so, return what
    /// changes it causes. Otherwise, return why it cannot be performed.
    fn evaluate_move(&self, m: &Move) -> (r: Result<VerifiedMove, FailedMove>)
        requires
            self.wf(),
        ensures
            match r {
                Ok(v) => spec_apply(self.board(), self.entities(), *m) is Some && v
                    == spec_verified_move(self.entities(), *m),
                Err(f) => spec_apply(self.board(), self.entities(), *m) is None && f
                    == spec_failed_move(spec_blocked(self.board(), self.entities(), *m)),
            },
    {
        let ghost b = self.board();
        let ghost e = self.entities();
        let w = self.dynamic.worker_position;
        proof {
            lemma_interior_neighbours(b, w);
        }
        let w2 = w.neighbour(m.direction);
        let is_crate = self.dynamic.is_crate(w2);
        if is_crate && m.moves_crate {
            proof {
                let k = choose|k: int| 0 <= k < e.crates.len() && e.crates[k] == w2;
                assert(interior(b, e.crates[k]));
                lemma_interior_neighbours(b, w2);
            }
            let c2 = w2.neighbour(m.direction);
            if self.is_interior(w2) && self.is_empty(c2) {
                Ok(
                    VerifiedMove {
                        worker_move: FromTo { from: w, to: w2 },
                        crate_move: Some(FromTo { from: w2, to: c2 }),
                    },
                )
            } else {
                let obstacle_type = if !self.in_bounds(c2) {
                    Obstacle::Wall
                } else {
                    match *self.background(c2) {
                        Background::Wall => Obstacle::Wall,
                        _ => Obstacle::Crate,
                    }
                };
                Err(
                    FailedMove {
                        obstacle_at: c2,
                        obstacle_type,
                        thing_blocked: BlockedEntity::Crate,
                    },
                )
            }
        } else if self.is_empty(w2) {
            Ok(VerifiedMove { worker_move: FromTo { from: w, to: w2 }, crate_move: None })
        } else {
            let obstacle_type = if is_crate {
                Obstacle::Crate
            } else {
                Obstacle::Wall
            };
            Err(
                FailedMove { obstacle_at: w2, obstacle_type, thing_blocked: BlockedEntity::Worker },
            )
        }
    }

    /// Perform a move if it is not blocked, and record it; return the events it causes.
    fn perform_move(&mut self, m: Move) -> (r: Result<Vec<Event>, FailedMove>)
        requires
            old(self).wf(),
        ensures
            final(self).wf(),
            final(self).same_board(old(self)),
            final(self).pending() == old(self).pending(),
            match play_move(old(self).board(), old(self).play(), m) {
                Some(s2) => r is Ok && final(self).entities() == s2.entities && final(self).history()
                    == s2.history && r->Ok_0@ == spec_move_events(old(self).entities(), m),
                None => r is Err && r->Err_0 == spec_failed_move(
                    spec_blocked(old(self).board(), old(self).entities(), m),
                ) && final(self).entities() == old(self).entities() && final(self).history()
                    == old(self).history(),
            },
    {
        let ghost b = self.board();
        let ghost e = self.entities();
        let ghost h = self.history();
        let v = match self.evaluate_move(&m) {
            Ok(v) => v,
            Err(f) => {
                return Err(f);
            },
        };
        let ghost e2 = spec_apply(b, e, m)->0;
        let mut events: Vec<Event> = Vec::new();
        let pushes = match v.crate_move {
            Some(ft) => {
                let id = match self.dynamic.crate_at(ft.from) {
                    Some(i) => i,
                    None => {
                        proof {
                            assert(false);
                        }
                        0
                    },
                };
                proof {
                    lemma_crate_id(b, e, id as int);
                    crate::current_level::rules::lemma_interior_neighbours(b, ft.from);
                    lemma_misplaced_update(b, e.crates, id as int, ft.to);
                    lemma_misplaced_bound(b, e.crates.update(id as int, ft.to));
                    assert(self.dynamic.crates@.len() == self.dynamic.crates.len());
                }
                let from_goal = match *self.background(ft.from) {
                    Background::Goal => true,
                    _ => false,
                };
                let to_goal = match *self.background(ft.to) {
                    Background::Goal => true,
                    _ => false,
                };
                self.dynamic.crates.set(id, ft.to);
                if from_goal && !to_goal {
                    self.dynamic.empty_goals = self.dynamic.empty_goals + 1;
                } else if to_goal && !from_goal {
                    self.dynamic.empty_goals = self.dynamic.empty_goals - 1;
                }
                events.push(Event::MoveCrate { id, from: ft.from, to: ft.to });
                true
            },
            None => false,
        };
        self.dynamic.worker_position = v.worker_move.to;
        events.push(
            Event::MoveWorker { from: v.worker_move.from, to: v.worker_move.to, direction: m.direction },
        );
        let recorded = Move { direction: m.direction, moves_crate: pushes };
        let n = number_of_logged_moves(&self.undo.actions);
        self.undo.record(recorded);
        proof {
            assert(self.dynamic.crates@ == e2.crates);
            assert(self.entities() == e2);
            lemma_apply_wf(b, e, m);
            lemma_record_prefix(h, recorded);
            lemma_replay_push(b, self.initial@, performed_moves(h), recorded);
            lemma_apply_effective(b, e, m);
            assert(events@ =~= spec_move_events(e, m));
        }
        Ok(events)
    }
}

/// No more crates are misplaced than there are crates.
pub proof fn lemma_misplaced_bound(b: Board, crates: Seq<Position>)
    ensures
        misplaced(b, crates) <= crates.len(),
    decreases crates.len(),
{
    if crates.len() > 0 {
        lemma_misplaced_bound(b, crates.drop_last());
    }
}

} // verus!

verus! {

/// Performing the moves of `ms` one after the other from `s` until one is blocked: the state
/// reached, or the state before the blocked move and why it is blocked.
pub open spec fn play_moves(b: Board, s: Play, ms: Seq<Move>) -> Result<Play, (Play, FailedMove)>
    decreases ms.len(),
{
    if ms.len() == 0 {
        Ok(s)
    } else {
        match play_moves(b, s, ms.drop_last()) {
            Ok(s1) => match play_move(b, s1, ms.last()) {
                Some(s2) => Ok(s2),
                None => Err((s1, spec_failed_move(spec_blocked(b, s1.entities, ms.last())))),
            },
            Err(x) => Err(x),
        }
    }
}

/// What is left of a level's state when the events are set aside.
pub open spec fn quiet(s: Play) -> Play {
    Play { entities: s.entities, history: s.history, events: Seq::empty() }
}

/// A pushing move moves the crate in front of the worker one cell further, where it now stands
/// in front of the worker; that crate keeps its id.
pub proof fn lemma_pushed_crate(b: Board, e: Entities, m: Move)
    requires
        board_wf(b),
        entities_wf(b, e),
        spec_apply(b, e, m) is Some,
        spec_pushes(e, m),
    ensures
        ({
            let e2 = spec_apply(b, e, m)->0;
            let c2 = spec_neighbour(e2.worker, m.direction);
            &&& has_crate(e2, c2)
            &&& crate_id(e2, c2) == crate_id(e, e2.worker)
        }),
{
    let e2 = spec_apply(b, e, m)->0;
    let w2 = spec_neighbour(e.worker, m.direction);
    let id = crate_id(e, w2);
    assert(0 <= id < e.crates.len() && e.crates[id] == w2);
    lemma_apply_wf(b, e, m);
    assert(e2.crates[id] == spec_neighbour(w2, m.direction));
    lemma_crate_id(b, e2, id);
}

impl CurrentLevel {
    /// Hand the events of a move to the front end.
    fn notify_all(&mut self, events: Vec<Event>)
        ensures
            final(self).pending() == old(self).pending() + events@,
            final(self).same_board(old(self)),
            final(self).dynamic == old(self).dynamic,
            final(self).undo == old(self).undo,
    {
        let mut events = events;
        self.events.append(&mut events);
    }

    /// Performs all moves, one after the other, until one is blocked. Returns the events of the
    /// moves, or why the first blocked move is blocked; the moves before it stay performed.
    pub fn perform_moves(&mut self, moves: &[Move]) -> (r: Result<Vec<Event>, FailedMove>)
        requires
            old(self).wf(),
        ensures
            final(self).wf(),
            final(self).same_board(old(self)),
            final(self).pending() == old(self).pending(),
            match play_moves(old(self).board(), quiet(old(self).play()), moves@) {
                Ok(s2) => r is Ok && final(self).entities() == s2.entities && final(self).history()
                    == s2.history && r->Ok_0@ == s2.events,
                Err((s1, f)) => r is Err && r->Err_0 == f && final(self).entities() == s1.entities
                    && final(self).history() == s1.history,
            },
    {
        let ghost b = self.board();
        let ghost s0 = quiet(self.play());
        let mut events: Vec<Event> = Vec::new();
        let mut i: usize = 0;
        while i < moves.len()
            invariant
                self.wf(),
                self.same_board(old(self)),
                self.pending() == old(self).pending(),
                b == self.board(),
                s0 == quiet(old(self).play()),
                i <= moves@.len(),
                play_moves(b, s0, moves@.take(i as int)) == Ok::<Play, (Play, FailedMove)>(
                    Play { entities: self.entities(), history: self.history(), events: events@ },
                ),
            decreases moves@.len() - i,
        {
            assert(moves@.take(i + 1).drop_last() =~= moves@.take(i as int));
            let ghost before = Play { entities: self.entities(), history: self.history(), events: events@ };
            match self.perform_move(moves[i]) {
                Ok(evs) => {
                    let mut evs = evs;
                    events.append(&mut evs);
                },
                Err(f) => {
                    proof {
                        assert(spec_apply(b, before.entities, moves@[i as int]) is None);
                        assert(play_move(b, before, moves@[i as int]) is None);
                        lemma_play_moves_blocked_prefix(b, s0, moves@, i as int);
                        assert(f == spec_failed_move(spec_blocked(b, before.entities, moves@[i as int])));
                    }
                    return Err(f);
                },
            }
            i = i + 1;
        }
        assert(moves@.take(i as int) =~= moves@);
        Ok(events)
    }

    /// Move one step in the given direction if that cell is empty or `may_push_crate` is true and
    /// the next cell contains a crate which can be pushed in the given direction.
    fn move_helper(&mut self, direction: Direction, may_push_crate: bool) -> (r: Result<
        (),
        FailedMove,
    >)
        requires
            old(self).wf(),
        ensures
            final(self).wf(),
            final(self).same_board(old(self)),
            ({
                let m = crate::current_level::rules::helper_move(
                    old(self).entities(),
                    direction,
                    may_push_crate,
                );
                match play_move(old(self).board(), old(self).play(), m) {
                    Some(s2) => r is Ok && final(self).play() == s2,
                    None => r is Err && r->Err_0 == spec_failed_move(
                        spec_blocked(old(self).board(), old(self).entities(), m),
                    ) && final(self).play() == old(self).play(),
                }
            }),
    {
        proof {
            lemma_interior_neighbours(self.board(), self.dynamic.worker_position);
        }
        let target_position = self.dynamic.worker_position.neighbour(direction);
        let is_crate = self.dynamic.is_crate(target_position);
        let events = self.perform_move(Move { direction, moves_crate: may_push_crate && is_crate })?;
        self.notify_all(events);
        Ok(())
    }

    /// Try to move in the given direction, pushing a crate if there is one in the way. Return why
    /// it is not possible if it is not.
    pub fn try_move(&mut self, direction: Direction) -> (r: Result<(), FailedMove>)
        requires
            old(self).wf(),
        ensures
            final(self).wf(),
            final(self).same_board(old(self)),
            ({
                let m = crate::current_level::rules::helper_move(old(self).entities(), direction, true);
                match play_move(old(self).board(), old(self).play(), m) {
                    Some(s2) => r is Ok && final(self).play() == s2,
                    None => r is Err && r->Err_0 == spec_failed_move(
                        spec_blocked(old(self).board(), old(self).entities(), m),
                    ) && final(self).play() == old(self).play(),
                }
            }),
    {
        self.move_helper(direction, true)
    }

    /// Take one step in the specified direction, pushing a crate if necessary; report why if
    /// that is not possible.
    pub fn step(&mut self, direction: Direction)
        requires
            old(self).wf(),
        ensures
            final(self).wf(),
            final(self).same_board(old(self)),
            ({
                let m = crate::current_level::rules::helper_move(old(self).entities(), direction, true);
                final(self).play() == match play_move(old(self).board(), old(self).play(), m) {
                    Some(s2) => s2,
                    None => play_failed(old(self).board(), old(self).play(), m),
                }
            }),
    {
        if let Err(f) = self.try_move(direction) {
            self.events.push(Event::from(f));
        }
    }

    /// Undo the most recent move.
    pub fn undo(&mut self) -> (r: bool)
        requires
            old(self).wf(),
        ensures
            final(self).wf(),
            final(self).same_board(old(self)),
            r == (old(self).history().performed > 0),
            final(self).play() == play_undo(old(self).play()),
    {
        let ghost b = self.board();
        let ghost e = self.entities();
        let ghost h = self.history();
        let p = self.undo.actions_performed;
        if p == 0 {
            self.events.push(Event::NothingToUndo);
            return false;
        }
        let m = self.undo.actions[p - 1];
        let ghost e1 = replay_recorded(b, self.initial@, performed_moves(h).drop_last())->0;
        proof {
            assert(performed_moves(h).drop_last() =~= h.actions.take(p - 1));
            assert(performed_moves(h).last() == m);
            lemma_replay_wf(b, self.initial@, performed_moves(h).drop_last());
            lemma_unapply_apply(b, e1, m);
            lemma_interior_neighbours(b, e.worker);
            lemma_neighbour_reverse(e.worker, m.direction);
            if m.moves_crate {
                lemma_pushed_crate(b, e1, m);
            }
        }
        self.undo.undo();
        let w = self.dynamic.worker_position;
        let crate_pos = w.neighbour(m.direction);
        let back = w.neighbour(m.direction.reverse());
        self.dynamic.worker_position = back;
        self.events.push(Event::MoveWorker { from: w, to: back, direction: m.direction });
        if m.moves_crate {
            let id = match self.dynamic.crate_at(crate_pos) {
                Some(i) => i,
                None => {
                    proof {
                        assert(false);
                    }
                    0
                },
            };
            proof {
                lemma_crate_id(b, e, id as int);
                lemma_misplaced_update(b, e.crates, id as int, w);
                lemma_misplaced_bound(b, e.crates.update(id as int, w));
                assert(self.dynamic.crates@.len() == self.dynamic.crates.len());
                let k = choose|k: int| 0 <= k < e.crates.len() && e.crates[k] == crate_pos;
                assert(interior(b, e.crates[k]));
            }
            let from_goal = match *self.background(crate_pos) {
                Background::Goal => true,
                _ => false,
            };
            let to_goal = match *self.background(w) {
                Background::Goal => true,
                _ => false,
            };
            self.dynamic.crates.set(id, w);
            if from_goal && !to_goal {
                self.dynamic.empty_goals = self.dynamic.empty_goals + 1;
            } else if to_goal && !from_goal {
                self.dynamic.empty_goals = self.dynamic.empty_goals - 1;
            }
            self.events.push(Event::MoveCrate { id, from: crate_pos, to: w });
        }
        proof {
            assert(self.entities() == spec_unapply(e, m));
            assert(performed_moves(self.history()) =~= performed_moves(h).drop_last());
            assert(self.pending() =~= old(self).pending() + spec_undo_events(e, m));
        }
        true
    }

    /// If a move has been undone previously, redo it.
    pub fn redo(&mut self) -> (r: bool)
        requires
            old(self).wf(),
        ensures
            final(self).wf(),
            final(self).same_board(old(self)),
            r == (crate::undo::spec_redo_result(old(self).history()) is Some && play_move(
                old(self).board(),
                old(self).play(),
                crate::undo::spec_redo_result(old(self).history())->0,
            ) is Some),
            final(self).play() == play_redo(old(self).board(), old(self).play()),
    {
        let p = self.undo.actions_performed;
        if p >= self.undo.actions.len() {
            self.events.push(Event::NothingToRedo);
            return false;
        }
        let m = self.undo.actions[p];
        match self.perform_move(m) {
            Ok(events) => {
                self.notify_all(events);
                true
            },
            Err(f) => {
                self.events.push(Event::from(f));
                false
            },
        }
    }
}

/// When the moves up to index `i` can be performed but the one at `i` is blocked, that is where
/// performing all of them stops.
pub proof fn lemma_play_moves_blocked_prefix(b: Board, s: Play, ms: Seq<Move>, i: int)
    requires
        0 <= i < ms.len(),
        play_moves(b, s, ms.take(i)) is Ok,
        play_move(b, play_moves(b, s, ms.take(i))->Ok_0, ms[i]) is None,
    ensures
        play_moves(b, s, ms) == Err::<Play, (Play, FailedMove)>(
            (
                play_moves(b, s, ms.take(i))->Ok_0,
                spec_failed_move(
                    spec_blocked(b, play_moves(b, s, ms.take(i))->Ok_0.entities, ms[i]),
                ),
            ),
        ),
    decreases ms.len() - i,
{
    if i == ms.len() - 1 {
        assert(ms.drop_last() =~= ms.take(i));
    } else {
        assert(ms.drop_last().take(i) =~= ms.take(i));
        lemma_play_moves_blocked_prefix(b, s, ms.drop_last(), i);
    }
}

} // verus!

verus! {

/// Undoing right after a move that was performed puts the worker and the crates back where they
/// were, and leaves as many moves performed as before the move.
pub proof fn lemma_undo_after_move(b: Board, s: Play, m: Move)
    requires
        board_wf(b),
        entities_wf(b, s.entities),
        0 <= s.history.performed <= s.history.actions.len(),
        play_move(b, s, m) is Some,
    ensures
        play_undo(play_move(b, s, m)->0).entities == s.entities,
        play_undo(play_move(b, s, m)->0).history.performed == s.history.performed,
{
    lemma_unapply_apply(b, s.entities, m);
}

/// Redoing right after undoing restores the worker, the crates and the log of moves, in every
/// state reached by playing from the start of a level.
pub proof fn lemma_redo_after_undo(b: Board, start: Entities, s: Play)
    requires
        board_wf(b),
        entities_wf(b, start),
        0 < s.history.performed <= s.history.actions.len(),
        replay_recorded(b, start, performed_moves(s.history)) == Some(s.entities),
    ensures
        play_redo(b, play_undo(s)).entities == s.entities,
        play_redo(b, play_undo(s)).history == s.history,
{
    let h = s.history;
    let p = h.performed;
    let m = h.actions[p - 1];
    let ms = performed_moves(h);
    assert(ms.drop_last() =~= h.actions.take(p - 1));
    assert(ms.last() == m);
    let e1 = replay_recorded(b, start, ms.drop_last())->0;
    lemma_replay_wf(b, start, ms.drop_last());
    lemma_unapply_apply(b, e1, m);
    let u = play_undo(s);
    assert(u.entities == e1);
    assert(crate::undo::spec_redo_result(u.history) == Some(m));
    assert(effective_move(e1, m) == m);
    crate::undo::lemma_record_undone_action_keeps_log(h);
}

/// Trying a step in each of the directions in turn, as the arrow keys do: a step that can be
/// made is made (pushing the crate in front of the worker, if any), one that cannot is reported.
pub open spec fn play_steps(b: Board, s: Play, dirs: Seq<Direction>) -> Play
    decreases dirs.len(),
{
    if dirs.len() == 0 {
        s
    } else {
        let s1 = play_steps(b, s, dirs.drop_last());
        let m = crate::current_level::rules::helper_move(s1.entities, dirs.last(), true);
        match play_move(b, s1, m) {
            Some(s2) => s2,
            None => play_failed(b, s1, m),
        }
    }
}

/// Undoing `n` times.
pub open spec fn play_undos(s: Play, n: nat) -> Play
    decreases n,
{
    if n == 0 {
        s
    } else {
        play_undo(play_undos(s, (n - 1) as nat))
    }
}

/// The worker and the crates are where replaying the performed moves from `start` puts them.
pub open spec fn replays_to(b: Board, start: Entities, s: Play) -> bool {
    &&& 0 <= s.history.performed <= s.history.actions.len()
    &&& replay_recorded(b, start, performed_moves(s.history)) == Some(s.entities)
}

/// A step, made or not, keeps the positions those of the performed moves, and adds at most one
/// performed move.
proof fn lemma_step_replays(b: Board, start: Entities, s: Play, m: Move)
    requires
        board_wf(b),
        entities_wf(b, start),
        replays_to(b, start, s),
    ensures
        ({
            let t = match play_move(b, s, m) {
                Some(s2) => s2,
                None => play_failed(b, s, m),
            };
            replays_to(b, start, t) && t.history.performed <= s.history.performed + 1
        }),
{
    if play_move(b, s, m) is Some {
        let x = effective_move(s.entities, m);
        lemma_record_prefix(s.history, x);
        lemma_replay_push(b, start, performed_moves(s.history), x);
        lemma_apply_effective(b, s.entities, m);
    }
}

/// Undoing keeps the positions those of the performed moves, one fewer of which is performed, if
/// any was.
proof fn lemma_undo_replays(b: Board, start: Entities, s: Play)
    requires
        board_wf(b),
        entities_wf(b, start),
        replays_to(b, start, s),
    ensures
        replays_to(b, start, play_undo(s)),
        play_undo(s).history.performed == if s.history.performed > 0 {
            s.history.performed - 1
        } else {
            0
        },
{
    let h = s.history;
    let p = h.performed;
    if p > 0 {
        let ms = performed_moves(h);
        let m = h.actions[p - 1];
        assert(ms.drop_last() =~= h.actions.take(p - 1));
        assert(ms.last() == m);
        let e1 = replay_recorded(b, start, ms.drop_last())->0;
        lemma_replay_wf(b, start, ms.drop_last());
        assert(spec_apply_recorded(b, e1, m) == Some(s.entities));
        assert(effective_move(e1, m) == m);
        lemma_unapply_apply(b, e1, m);
        assert(performed_moves(crate::undo::spec_undo(h)) =~= ms.drop_last());
    }
}

proof fn lemma_steps_replay(b: Board, start: Entities, s: Play, dirs: Seq<Direction>)
    requires
        board_wf(b),
        entities_wf(b, start),
        replays_to(b, start, s),
    ensures
        replays_to(b, start, play_steps(b, s, dirs)),
        play_steps(b, s, dirs).history.performed <= s.history.performed + dirs.len(),
    decreases dirs.len(),
{
    if dirs.len() > 0 {
        lemma_steps_replay(b, start, s, dirs.drop_last());
        let s1 = play_steps(b, s, dirs.drop_last());
        lemma_step_replays(
            b,
            start,
            s1,
            crate::current_level::rules::helper_move(s1.entities, dirs.last(), true),
        );
    }
}

proof fn lemma_undos_replay(b: Board, start: Entities, s: Play, n: nat)
    requires
        board_wf(b),
        entities_wf(b, start),
        replays_to(b, start, s),
    ensures
        replays_to(b, start, play_undos(s, n)),
        play_undos(s, n).history.performed == if s.history.performed > n {
            s.history.performed - n
        } else {
            0
        },
    decreases n,
{
    if n > 0 {
        lemma_undos_replay(b, start, s, (n - 1) as nat);
        lemma_undo_replays(b, start, play_undos(s, (n - 1) as nat));
    }
}

/// Starting a level afresh, trying any steps and then undoing as many times puts the worker and
/// the crates back where they started, with no move performed: failed steps are not recorded,
/// and undoing with nothing left to undo changes nothing.
pub proof fn lemma_steps_then_undos(b: Board, start: Entities, dirs: Seq<Direction>)
    requires
        board_wf(b),
        entities_wf(b, start),
    ensures
        ({
            let s0 = Play {
                entities: start,
                history: UndoView { actions: Seq::empty(), performed: 0 },
                events: Seq::empty(),
            };
            let s = play_undos(play_steps(b, s0, dirs), dirs.len());
            &&& s.entities == start
            &&& s.history.performed == 0
        }),
{
    let s0 = Play {
        entities: start,
        history: UndoView { actions: Seq::empty(), performed: 0 },
        events: Seq::empty(),
    };
    assert(performed_moves(s0.history) =~= Seq::<Move>::empty());
    lemma_steps_replay(b, start, s0, dirs);
    let s1 = play_steps(b, s0, dirs);
    lemma_undos_replay(b, start, s1, dirs.len());
    let s = play_undos(s1, dirs.len());
    assert(performed_moves(s.history) =~= Seq::<Move>::empty());
}

/// Every state of a level that is played keeps the invariant, so that moving, undoing and
/// redoing can go on: the worker and the crates stay on cells of their own inside the level, and
/// replaying the performed moves from the start leads to them.
pub proof fn lemma_play_keeps_invariant(lvl: CurrentLevel)
    requires
        lvl.wf(),
    ensures
        entities_wf(lvl.board(), lvl.entities()),
        lvl.entities().crates.len() == lvl.initial@.crates.len(),
        replay_recorded(lvl.board(), lvl.initial@, performed_moves(lvl.history())) == Some(
            lvl.entities(),
        ),
{
    lemma_replay_wf(lvl.board(), lvl.initial@, performed_moves(lvl.history()));
}

} // verus!

verus! {

/// Recording a move and then some more is recording all of them.
pub proof fn lemma_record_all_prepend(h: UndoView<Move>, m: Move, ms: Seq<Move>)
    ensures
        record_all(h, seq![m] + ms) == record_all(crate::undo::spec_record(h, m), ms),
    decreases ms.len(),
{
    if ms.len() == 0 {
        assert(seq![m] + ms =~= seq![m]);
        lemma_record_one(h, m);
        assert(record_all(crate::undo::spec_record(h, m), ms) == crate::undo::spec_record(h, m));
    } else {
        assert((seq![m] + ms).drop_last() =~= seq![m] + ms.drop_last());
        assert((seq![m] + ms).last() == ms.last());
        lemma_record_all_prepend(h, m, ms.drop_last());
    }
}

/// Recording one move.
pub proof fn lemma_record_one(h: UndoView<Move>, m: Move)
    ensures
        record_all(h, seq![m]) == crate::undo::spec_record(h, m),
{
    assert(seq![m].drop_last() =~= Seq::<Move>::empty());
    assert(record_all(h, Seq::<Move>::empty()) == h);
}

impl CurrentLevel {
    /// Step repeatedly in one direction (pushing crates if `may_push_crate`) until a step is
    /// blocked, the worker reaches `stop_at`, or a push solves the level.
    fn run(&mut self, direction: Direction, may_push_crate: bool, stop_at: Option<Position>)
        requires
            old(self).wf(),
        ensures
            final(self).wf(),
            final(self).same_board(old(self)),
            ({
                let run = crate::current_level::rules::spec_run(
                    old(self).board(),
                    old(self).entities(),
                    direction,
                    may_push_crate,
                    stop_at,
                    crate::current_level::rules::steps_left(
                        old(self).board(),
                        old(self).entities().worker,
                        direction,
                    ),
                );
                &&& final(self).entities() == run.entities
                &&& final(self).history() == record_all(old(self).history(), run.moves)
                &&& final(self).pending() == old(self).pending() + run.events
            }),
    {
        let ghost b = self.board();
        let ghost h0 = self.history();
        let ghost p0 = self.pending();
        let ghost run0 = crate::current_level::rules::spec_run(
            b,
            self.entities(),
            direction,
            may_push_crate,
            stop_at,
            crate::current_level::rules::steps_left(b, self.entities().worker, direction),
        );
        let ghost mut rest = run0;
        assert(record_all(h0, Seq::<Move>::empty()) == h0);
        assert(p0 + Seq::<Event>::empty() =~= p0);
        loop
            invariant_except_break
                rest == crate::current_level::rules::spec_run(
                    b,
                    self.entities(),
                    direction,
                    may_push_crate,
                    stop_at,
                    crate::current_level::rules::steps_left(b, self.entities().worker, direction),
                ),
                run0.entities == rest.entities,
                record_all(h0, run0.moves) == record_all(self.history(), rest.moves),
                p0 + run0.events == self.pending() + rest.events,
            invariant
                self.wf(),
                self.same_board(old(self)),
                b == self.board(),
                h0 == old(self).history(),
                p0 == old(self).pending(),
                run0 == crate::current_level::rules::spec_run(
                    old(self).board(),
                    old(self).entities(),
                    direction,
                    may_push_crate,
                    stop_at,
                    crate::current_level::rules::steps_left(
                        old(self).board(),
                        old(self).entities().worker,
                        direction,
                    ),
                ),
            ensures
                self.entities() == run0.entities,
                self.history() == record_all(h0, run0.moves),
                self.pending() == p0 + run0.events,
            decreases crate::current_level::rules::steps_left(
                b,
                self.dynamic.worker_position,
                direction,
            ),
        {
            let ghost cur = self.play();
            let ghost m = crate::current_level::rules::helper_move(
                cur.entities,
                direction,
                may_push_crate,
            );
            match self.move_helper(direction, may_push_crate) {
                Err(_) => {
                    assert(rest.moves =~= Seq::<Move>::empty());
                    assert(self.pending() + rest.events =~= self.pending());
                    break ;
                },
                Ok(()) => {
                    proof {
                        crate::current_level::rules::lemma_step_steps_left(b, cur.entities, m);
                        let m2 = effective_move(cur.entities, m);
                        let evs = spec_move_events(cur.entities, m);
                        let f = crate::current_level::rules::steps_left(
                            b,
                            cur.entities.worker,
                            direction,
                        );
                        let r = crate::current_level::rules::spec_run(
                            b,
                            self.entities(),
                            direction,
                            may_push_crate,
                            stop_at,
                            (f - 1) as nat,
                        );
                        lemma_record_all_prepend(cur.history, m2, r.moves);
                        lemma_record_one(cur.history, m2);
                        assert(cur.events + (evs + r.events) =~= self.pending() + r.events);
                        assert(cur.events + evs =~= self.pending() + Seq::<Event>::empty());
                    }
                    let finished = may_push_crate && self.is_finished();
                    let at_stop = match stop_at {
                        Some(p) => self.dynamic.worker_position == p,
                        None => false,
                    };
                    if at_stop || finished {
                        break ;
                    }
                    proof {
                        rest = crate::current_level::rules::spec_run(
                            b,
                            self.entities(),
                            direction,
                            may_push_crate,
                            stop_at,
                            crate::current_level::rules::steps_left(
                                b,
                                self.entities().worker,
                                direction,
                            ),
                        );
                    }
                },
            }
        }
    }

    /// Move as far as possible in the given direction (without pushing crates if `may_push_crate`
    /// is `false`); stop once a push solves the level.
    pub fn move_as_far_as_possible(&mut self, direction: Direction, may_push_crate: bool)
        requires
            old(self).wf(),
        ensures
            final(self).wf(),
            final(self).same_board(old(self)),
            ({
                let run = crate::current_level::rules::spec_run(
                    old(self).board(),
                    old(self).entities(),
                    direction,
                    may_push_crate,
                    None,
                    crate::current_level::rules::steps_left(
                        old(self).board(),
                        old(self).entities().worker,
                        direction,
                    ),
                );
                &&& final(self).entities() == run.entities
                &&& final(self).history() == record_all(old(self).history(), run.moves)
                &&& final(self).pending() == old(self).pending() + run.events
            }),
    {
        self.run(direction, may_push_crate, None)
    }
}

} // verus!

verus! {

/// Trying each move's direction in turn (pushing a crate when one is in the way) until one is
/// blocked: the state reached, or the state before the blocked move and why it is blocked.
pub open spec fn play_tries(b: Board, s: Play, ms: Seq<Move>) -> Result<Play, (Play, FailedMove)>
    decreases ms.len(),
{
    if ms.len() == 0 {
        Ok(s)
    } else {
        match play_tries(b, s, ms.drop_last()) {
            Ok(s1) => {
                let m = crate::current_level::rules::helper_move(
                    s1.entities,
                    ms.last().direction,
                    true,
                );
                match play_move(b, s1, m) {
                    Some(s2) => Ok(s2),
                    None => Err((s1, spec_failed_move(spec_blocked(b, s1.entities, m)))),
                }
            },
            Err(x) => Err(x),
        }
    }
}

/// The log after loading: the moves performed so far, then the remaining loaded moves, which can
/// be redone.
pub open spec fn loaded_history(h: UndoView<Move>, rest: Seq<Move>) -> UndoView<Move> {
    UndoView { actions: performed_moves(h) + rest, performed: h.performed }
}

/// The character at `p` when a level is drawn.
pub open spec fn foreground_at(e: Entities, p: Position) -> crate::cell::Foreground {
    if p == e.worker {
        crate::cell::Foreground::Worker
    } else if has_crate(e, p) {
        crate::cell::Foreground::Crate
    } else {
        crate::cell::Foreground::Nothing
    }
}

/// Row `y` of a drawn level.
pub open spec fn row_string(b: Board, e: Entities, y: int) -> Seq<char> {
    Seq::new(
        b.columns as nat,
        |x: int|
            crate::cell::spec_cell_to_char(
                b.background[x + y * b.columns],
                foreground_at(e, Position { x: x as isize, y: y as isize }),
            ),
    )
}

/// The first `rows` rows of a drawn level, separated by line breaks.
pub open spec fn level_string(b: Board, e: Entities, rows: int) -> Seq<char>
    decreases rows,
{
    if rows <= 0 {
        Seq::empty()
    } else if rows == 1 {
        row_string(b, e, 0)
    } else {
        level_string(b, e, rows - 1) + seq!['\n'] + row_string(b, e, rows - 1)
    }
}

impl CurrentLevel {
    /// Given a number of simple moves, i.e. up, down, left, right, as a string, execute the first
    /// `number_of_moves` of them. If there are more moves than that, they can be executed using
    /// redo.
    ///
    /// Used for loading a level, into a level on which no move has been made yet: the loaded
    /// moves then make up the whole log.
    pub fn execute_moves(&mut self, number_of_moves: usize, moves: &str) -> (r: Result<
        (),
        FailedMove,
    >)
        requires
            old(self).wf(),
            old(self).history().actions.len() == 0,
            crate::move_::spec_parse_moves(moves@) is Ok,
        ensures
            final(self).wf(),
            final(self).same_board(old(self)),
            ({
                let ms = crate::move_::spec_parse_moves(moves@)->Ok_0;
                let k = if number_of_moves < ms.len() {
                    number_of_moves as int
                } else {
                    ms.len() as int
                };
                match play_tries(old(self).board(), old(self).play(), ms.take(k)) {
                    Ok(s2) => r is Ok && final(self).entities() == s2.entities && final(self).pending()
                        == s2.events && final(self).history() == if number_of_moves < ms.len() {
                        loaded_history(s2.history, ms.skip(k))
                    } else {
                        s2.history
                    },
                    Err((s1, f)) => r is Err && r->Err_0 == f && final(self).play() == s1,
                }
            }),
    {
        let ghost b = self.board();
        let ghost s0 = self.play();
        let parsed = crate::move_::parse(moves);
        let ms = match parsed {
            Ok(ms) => ms,
            Err(_) => {
                proof {
                    assert(false);
                }
                return Ok(());
            },
        };
        let n = ms.len();
        let k = if number_of_moves < n {
            number_of_moves
        } else {
            n
        };
        proof {
            assert(ms@.take(0) =~= Seq::<Move>::empty());
        }
        for i in 0..k
            invariant
                self.wf(),
                self.same_board(old(self)),
                b == self.board(),
                s0 == old(self).play(),
                k <= ms@.len(),
                n == ms@.len(),
                ms@ == crate::move_::spec_parse_moves(moves@)->Ok_0,
                k == (if number_of_moves < n {
                    number_of_moves
                } else {
                    n
                }),
                play_tries(b, s0, ms@.take(i as int)) == Ok::<Play, (Play, FailedMove)>(self.play()),
        {
            proof {
                assert(ms@.take(i + 1).drop_last() =~= ms@.take(i as int));
            }
            let ghost before = self.play();
            match self.try_move(ms[i].direction) {
                Ok(()) => {},
                Err(f) => {
                    proof {
                        assert(ms@.take(k as int).take(i as int) =~= ms@.take(i as int));
                        assert(ms@.take(k as int)[i as int] == ms@[i as int]);
                        lemma_play_tries_blocked_prefix(b, s0, ms@.take(k as int), i as int);
                    }
                    return Err(f);
                },
            }
        }
        if number_of_moves < n {
            let ghost h2 = self.history();
            let p = self.undo.actions_performed;
            let mut actions: Vec<Move> = Vec::new();
            for j in 0..p
                invariant
                    p == h2.performed,
                    h2 == self.history(),
                    p <= self.undo.actions@.len(),
                    actions@ == performed_moves(h2).take(j as int),
            {
                actions.push(self.undo.actions[j]);
                proof {
                    assert(performed_moves(h2).take(j + 1) =~= performed_moves(h2).take(j as int).push(
                        self.undo.actions@[j as int],
                    ));
                }
            }
            let mut i = k;
            while i < n
                invariant
                    k <= i <= n,
                    n == ms@.len(),
                    actions@ == performed_moves(h2) + ms@.subrange(k as int, i as int),
                decreases n - i,
            {
                actions.push(ms[i]);
                proof {
                    assert(ms@.subrange(k as int, i + 1) =~= ms@.subrange(k as int, i as int).push(
                        ms@[i as int],
                    ));
                    assert(actions@ =~= performed_moves(h2) + ms@.subrange(k as int, i + 1));
                }
                i = i + 1;
            }
            proof {
                assert(performed_moves(h2).take(p as int) =~= performed_moves(h2));
                assert(ms@.subrange(k as int, n as int) =~= ms@.skip(k as int));
                assert(actions@.take(p as int) =~= performed_moves(h2));
            }
            self.undo.actions = actions;
        }
        Ok(())
    }
}

/// When the directions up to index `i` can be tried but the one at `i` is blocked, that is where
/// trying all of them stops.
pub proof fn lemma_play_tries_blocked_prefix(b: Board, s: Play, ms: Seq<Move>, i: int)
    requires
        0 <= i < ms.len(),
        play_tries(b, s, ms.take(i)) is Ok,
        play_move(
            b,
            play_tries(b, s, ms.take(i))->Ok_0,
            crate::current_level::rules::helper_move(
                play_tries(b, s, ms.take(i))->Ok_0.entities,
                ms[i].direction,
                true,
            ),
        ) is None,
    ensures
        play_tries(b, s, ms) == Err::<Play, (Play, FailedMove)>(
            (
                play_tries(b, s, ms.take(i))->Ok_0,
                spec_failed_move(
                    spec_blocked(
                        b,
                        play_tries(b, s, ms.take(i))->Ok_0.entities,
                        crate::current_level::rules::helper_move(
                            play_tries(b, s, ms.take(i))->Ok_0.entities,
                            ms[i].direction,
                            true,
                        ),
                    ),
                ),
            ),
        ),
    decreases ms.len() - i,
{
    if i == ms.len() - 1 {
        assert(ms.drop_last() =~= ms.take(i));
    } else {
        assert(ms.drop_last().take(i) =~= ms.take(i));
        lemma_play_tries_blocked_prefix(b, s, ms.drop_last(), i);
    }
}

} // verus!

verus! {

/// The cells entered when walking from `p` in direction `d` until the next cell is not free,
/// taking at most `fuel` steps.
pub open spec fn walk_cells(b: Board, e: Entities, p: Position, d: Direction, fuel: nat) -> Seq<
    Position,
>
    decreases fuel,
{
    let q = spec_neighbour(p, d);
    if fuel == 0 || !free(b, e, q) {
        Seq::empty()
    } else {
        seq![q] + walk_cells(b, e, q, d, (fuel - 1) as nat)
    }
}

/// A step into a cell inside the board leaves one step fewer before the edge of the board.
pub proof fn lemma_free_step(b: Board, e: Entities, p: Position, d: Direction)
    requires
        board_wf(b),
        has_all_neighbours(p),
        free(b, e, spec_neighbour(p, d)),
    ensures
        crate::current_level::rules::steps_left(b, p, d) > 0,
        crate::current_level::rules::steps_left(b, spec_neighbour(p, d), d)
            == crate::current_level::rules::steps_left(b, p, d) - 1,
        has_all_neighbours(spec_neighbour(p, d)),
{
    lemma_interior_neighbours(b, spec_neighbour(p, d));
}

impl CurrentLevel {
    /// Draw the level, one line per row.
    pub fn to_string(&self) -> (s: String)
        requires
            self.wf(),
        ensures
            s@ == level_string(self.board(), self.entities(), self.rows as int),
    {
        let ghost b = self.board();
        let ghost e = self.entities();
        proof {
            lemma_board_dims(b);
        }
        let mut s = String::new();
        for i in 0..self.rows
            invariant
                self.wf(),
                b == self.board(),
                e == self.entities(),
                b.rows < isize::MAX,
                b.columns < isize::MAX,
                s@ == level_string(b, e, i as int),
        {
            let ghost prefix = if i == 0 {
                Seq::<char>::empty()
            } else {
                level_string(b, e, i as int) + seq!['\n']
            };
            if i != 0 {
                s.push('\n');
            }
            for j in 0..self.columns
                invariant
                    self.wf(),
                    b == self.board(),
                    e == self.entities(),
                    i < self.rows,
                    b.rows < isize::MAX,
                    b.columns < isize::MAX,
                    prefix == (if i == 0 {
                        Seq::<char>::empty()
                    } else {
                        level_string(b, e, i as int) + seq!['\n']
                    }),
                    s@ == prefix + row_string(b, e, i as int).take(j as int),
            {
                proof {
                    lemma_index_bound(i as int, j as int, b.columns, b.rows);
                }
                let pos = Position::new(j, i);
                let background = self.background[j + i * self.columns];
                let foreground = if self.dynamic.worker_position == pos {
                    crate::cell::Foreground::Worker
                } else if self.is_crate(pos) {
                    crate::cell::Foreground::Crate
                } else {
                    crate::cell::Foreground::Nothing
                };
                proof {
                    assert(pos.x == j && pos.y == i);
                    assert(cell_index(pos, b.columns) == j + i * b.columns);
                    if foreground == crate::cell::Foreground::Crate {
                        let k = choose|k: int| 0 <= k < e.crates.len() && e.crates[k] == pos;
                        assert(interior(b, e.crates[k]));
                    }
                }
                let c = crate::cell::cell_to_char(background, foreground);
                s.push(c);
                proof {
                    assert(row_string(b, e, i as int).take(j + 1) =~= row_string(
                        b,
                        e,
                        i as int,
                    ).take(j as int).push(c));
                    assert(s@ =~= prefix + row_string(b, e, i as int).take(j + 1));
                }
            }
            proof {
                assert(row_string(b, e, i as int).take(b.columns) =~= row_string(b, e, i as int));
            }
        }
        s
    }

    /// Walk in the given direction until the next cell is not free, moving the worker of
    /// `dynamic` and not pushing any crates; the crates of this level count as obstacles. Returns
    /// the steps taken.
    pub fn walk_to_obstacle(&mut self, direction: Direction, dynamic: &mut DynamicEntities) -> (r:
        Result<Vec<VerifiedMove>, FailedMove>)
        requires
            old(self).wf(),
            has_all_neighbours(old(dynamic).worker_position),
        ensures
            *final(self) == *old(self),
            ({
                let b = old(self).board();
                let p = old(dynamic).worker_position;
                let cells = walk_cells(
                    b,
                    old(self).entities(),
                    p,
                    direction,
                    crate::current_level::rules::steps_left(b, p, direction),
                );
                &&& r is Ok
                &&& r->Ok_0@.len() == cells.len()
                &&& forall|i: int|
                    0 <= i < cells.len() ==> #[trigger] r->Ok_0@[i] == (VerifiedMove {
                        worker_move: FromTo {
                            from: if i == 0 {
                                p
                            } else {
                                cells[i - 1]
                            },
                            to: cells[i],
                        },
                        crate_move: None,
                    })
                &&& final(dynamic).worker_position == if cells.len() == 0 {
                    p
                } else {
                    cells.last()
                }
                &&& final(dynamic).crates == old(dynamic).crates
                &&& final(dynamic).empty_goals == old(dynamic).empty_goals
            }),
    {
        let ghost b = self.board();
        let ghost e = self.entities();
        let ghost p0 = dynamic.worker_position;
        let ghost all = walk_cells(
            b,
            e,
            p0,
            direction,
            crate::current_level::rules::steps_left(b, p0, direction),
        );
        let mut moves: Vec<VerifiedMove> = Vec::new();
        loop
            invariant
                self.wf(),
                b == self.board(),
                e == self.entities(),
                has_all_neighbours(dynamic.worker_position),
                dynamic.crates == old(dynamic).crates,
                dynamic.empty_goals == old(dynamic).empty_goals,
                moves@.len() <= all.len(),
                all.skip(moves@.len() as int) == walk_cells(
                    b,
                    e,
                    dynamic.worker_position,
                    direction,
                    crate::current_level::rules::steps_left(b, dynamic.worker_position, direction),
                ),
                dynamic.worker_position == if moves@.len() == 0 {
                    p0
                } else {
                    all[moves@.len() - 1]
                },
                forall|i: int|
                    0 <= i < moves@.len() ==> #[trigger] moves@[i] == (VerifiedMove {
                        worker_move: FromTo {
                            from: if i == 0 {
                                p0
                            } else {
                                all[i - 1]
                            },
                            to: all[i],
                        },
                        crate_move: None,
                    }),
            ensures
                moves@.len() == all.len(),
                dynamic.worker_position == if moves@.len() == 0 {
                    p0
                } else {
                    all[moves@.len() - 1]
                },
                dynamic.crates == old(dynamic).crates,
                dynamic.empty_goals == old(dynamic).empty_goals,
                forall|i: int|
                    0 <= i < moves@.len() ==> #[trigger] moves@[i] == (VerifiedMove {
                        worker_move: FromTo {
                            from: if i == 0 {
                                p0
                            } else {
                                all[i - 1]
                            },
                            to: all[i],
                        },
                        crate_move: None,
                    }),
            decreases crate::current_level::rules::steps_left(b, dynamic.worker_position, direction),
        {
            let from = dynamic.worker_position;
            let next_position = from.neighbour(direction);
            if !self.is_empty(next_position) {
                proof {
                    assert(all.skip(moves@.len() as int).len() == 0);
                }
                break ;
            }
            proof {
                lemma_free_step(b, e, from, direction);
                let rest = all.skip(moves@.len() as int);
                assert(rest[0] == next_position);
                assert(all.skip(moves@.len() as int + 1) =~= rest.skip(1));
                assert(rest.skip(1) =~= walk_cells(
                    b,
                    e,
                    next_position,
                    direction,
                    crate::current_level::rules::steps_left(b, next_position, direction),
                ));
            }
            moves.push(
                VerifiedMove {
                    worker_move: FromTo { from, to: next_position },
                    crate_move: None,
                },
            );
            dynamic.worker_position = next_position;
        }
        Ok(moves)
    }
}

} // verus!

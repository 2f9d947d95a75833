//! What the front end knows of the game it shows, and how the events of the game change it.
use vstd::prelude::*;

use crate::direction::Direction;
use crate::event::Event;
use crate::position::Position;
use crate::save::UpdateResponse;
use std::collections::VecDeque;

verus! {

/// The kinds of tiles that move about the board.
#[derive(Debug, Clone, Copy, PartialEq, Eq, Structural)]
pub enum TileKind {
    Crate,
    Worker,
}

/// How many quarter turns (clockwise) a tile, which faces left by default, is turned to face in
/// the given direction.
pub open spec fn spec_quarter_turns(dir: Direction) -> usize {
    match dir {
        Direction::Left => 0,
        Direction::Down => 1,
        Direction::Right => 2,
        Direction::Up => 3,
    }
}

/// How many quarter turns (clockwise) a tile, which faces left by default, is turned to face in
/// the given direction.
pub fn direction_to_index(dir: Direction) -> (r: usize)
    ensures
        r == spec_quarter_turns(dir),
        r < 4,
{
    match dir {
        Direction::Left => 0,
        Direction::Down => 1,
        Direction::Right => 2,
        Direction::Up => 3,
    }
}

/// Every this many moves of the worker, the rest of the queue waits for the next frame.
pub const SKIP_FRAMES: usize = 16;

/// While fewer events than this are queued, one move of the worker is shown per frame.
pub const QUEUE_LENGTH_THRESHOLD: usize = 100;

/// What the screen shows: a level being played, the animation after it is solved, or the solved
/// level.
#[derive(Debug, Clone, Copy, PartialEq, Eq, Structural)]
pub enum ScreenState {
    Level,
    FinishAnimation,
    LevelSolved,
}

/// The front end's picture of the game.
#[derive(Debug, Clone, Copy)]
pub struct Screen {
    pub rank: usize,
    pub rows: usize,
    pub columns: usize,
    pub worker_position: Position,
    pub worker_direction: Direction,
    /// Is the current level the last of this collection.
    pub is_last_level: bool,
    pub state: ScreenState,
    pub need_to_redraw: bool,
}

/// What the front end has to redraw after an event.
#[derive(Debug, Clone, Copy, PartialEq, Eq, Structural)]
pub enum ScreenUpdate {
    /// Nothing in particular.
    Nothing,
    /// A level was loaded: all sprites are to be made anew.
    LevelLoaded,
    /// The worker's sprite moves and turns.
    WorkerMoved { to: Position, direction: Direction },
    /// The sprite of the crate with the given id moves.
    CrateMoved { id: usize, to: Position },
    /// The level is solved now; the response tells how the solution compares to earlier ones.
    Solved(UpdateResponse),
}

/// The screen and the update after an event, and whether the event was a move of the worker.
pub open spec fn spec_handle(s: Screen, e: Event) -> (Screen, ScreenUpdate, bool) {
    match e {
        Event::LevelFinished(resp) => if s.state == ScreenState::Level {
            (
                Screen { state: ScreenState::FinishAnimation, need_to_redraw: true, ..s },
                ScreenUpdate::Solved(resp),
                false,
            )
        } else {
            (s, ScreenUpdate::Nothing, false)
        },
        Event::InitialLevelState { rank, columns, rows, worker_position, worker_direction, .. } => {
            let s1 = if rank != s.rank {
                Screen { rank, columns, rows, ..s }
            } else {
                s
            };
            (
                Screen {
                    worker_position,
                    worker_direction,
                    is_last_level: false,
                    state: ScreenState::Level,
                    need_to_redraw: true,
                    ..s1
                },
                ScreenUpdate::LevelLoaded,
                false,
            )
        },
        Event::MoveWorker { to, direction, .. } => (
            Screen { need_to_redraw: true, ..s },
            ScreenUpdate::WorkerMoved { to, direction },
            true,
        ),
        Event::MoveCrate { id, to, .. } => (
            Screen { need_to_redraw: true, ..s },
            ScreenUpdate::CrateMoved { id, to },
            false,
        ),
        Event::EndOfCollection => (
            Screen { is_last_level: true, need_to_redraw: true, ..s },
            ScreenUpdate::Nothing,
            false,
        ),
        _ => (s, ScreenUpdate::Nothing, false),
    }
}

impl Screen {
    /// Has the level been solved?
    pub fn level_solved(&self) -> (r: bool)
        ensures
            r == (self.state != ScreenState::Level),
    {
        match self.state {
            ScreenState::Level => false,
            _ => true,
        }
    }

    /// Take in an event of the game. Returns what to redraw, and whether the event was a move of
    /// the worker.
    pub fn handle_response(&mut self, event: &Event) -> (r: (ScreenUpdate, bool))
        ensures
            (*final(self), r.0, r.1) == spec_handle(*old(self), *event),
    {
        match event {
            Event::LevelFinished(resp) => {
                if !self.level_solved() {
                    self.state = ScreenState::FinishAnimation;
                    self.need_to_redraw = true;
                    (ScreenUpdate::Solved(*resp), false)
                } else {
                    (ScreenUpdate::Nothing, false)
                }
            },
            Event::InitialLevelState {
                rank,
                columns,
                rows,
                worker_position,
                worker_direction,
                ..
            } => {
                if *rank != self.rank {
                    self.rank = *rank;
                    self.columns = *columns;
                    self.rows = *rows;
                }
                self.worker_position = *worker_position;
                self.worker_direction = *worker_direction;
                self.is_last_level = false;
                self.state = ScreenState::Level;
                self.need_to_redraw = true;
                (ScreenUpdate::LevelLoaded, false)
            },
            Event::MoveWorker { to, direction, .. } => {
                self.need_to_redraw = true;
                (ScreenUpdate::WorkerMoved { to: *to, direction: *direction }, true)
            },
            Event::MoveCrate { id, to, .. } => {
                self.need_to_redraw = true;
                (ScreenUpdate::CrateMoved { id: *id, to: *to }, false)
            },
            Event::EndOfCollection => {
                self.is_last_level = true;
                self.need_to_redraw = true;
                (ScreenUpdate::Nothing, false)
            },
            _ => (ScreenUpdate::Nothing, false),
        }
    }
}

/// Handling the events of one frame: the screen afterwards, the update for each event taken
/// together with the number of events still queued after it was taken, and the events left for
/// later frames. The frame ends with the queue, or after a move of the worker once fewer than
/// `QUEUE_LENGTH_THRESHOLD` events are left or `SKIP_FRAMES` moves were shown in this frame.
pub open spec fn spec_frame(s: Screen, q: Seq<Event>, steps: nat) -> (
    Screen,
    Seq<(ScreenUpdate, usize)>,
    Seq<Event>,
)
    decreases q.len(),
{
    if q.len() == 0 {
        (s, Seq::empty(), q)
    } else {
        let (s1, u, is_move) = spec_handle(s, q[0]);
        let rest = q.subrange(1, q.len() as int);
        let entry = (u, rest.len() as usize);
        if is_move && ((steps + 1) % (SKIP_FRAMES as nat) == 0 || rest.len()
            < QUEUE_LENGTH_THRESHOLD) {
            (s1, seq![entry], rest)
        } else {
            let next = if is_move {
                ((steps + 1) % (SKIP_FRAMES as nat)) as nat
            } else {
                steps
            };
            let (s2, us, r) = spec_frame(s1, rest, next);
            (s2, seq![entry] + us, r)
        }
    }
}

impl Screen {
    /// Take the events of one frame from the front of the queue (see `spec_frame`), and report
    /// what to redraw for each, with the number of events queued behind it.
    pub fn handle_responses(&mut self, queue: &mut VecDeque<Event>) -> (r: Vec<(ScreenUpdate, usize)>)
        ensures
            (*final(self), r@, final(queue)@) == spec_frame(*old(self), old(queue)@, 0),
    {
        let mut updates: Vec<(ScreenUpdate, usize)> = Vec::new();
        let mut steps: usize = 0;
        let ghost start = (*old(self), old(queue)@);
        loop
            invariant_except_break
                steps < SKIP_FRAMES,
                ({
                    let (s2, us, rq) = spec_frame(*self, queue@, steps as nat);
                    spec_frame(start.0, start.1, 0) == (s2, updates@ + us, rq)
                }),
            ensures
                spec_frame(start.0, start.1, 0) == (*self, updates@, queue@),
            decreases queue@.len(),
        {
            let ghost before = (*self, queue@, steps);
            match queue.pop_front() {
                None => {
                    assert(spec_frame(before.0, before.1, before.2 as nat) == (
                        *self,
                        Seq::<(ScreenUpdate, usize)>::empty(),
                        queue@,
                    ));
                    assert(updates@ + Seq::<(ScreenUpdate, usize)>::empty() =~= updates@);
                    break;
                },
                Some(event) => {
                    let (update, is_move) = self.handle_response(&event);
                    let left = queue.len();
                    let ghost entry = (update, left);
                    assert(queue@ == before.1.subrange(1, before.1.len() as int));
                    let ghost ups = updates@;
                    updates.push((update, left));
                    if is_move {
                        steps = (steps + 1) % SKIP_FRAMES;
                        if steps == 0 || left < QUEUE_LENGTH_THRESHOLD {
                            assert(ups + seq![entry] =~= updates@);
                            break;
                        }
                    }
                    proof {
                        let (s2, us, rq) = spec_frame(*self, queue@, steps as nat);
                        assert(ups + (seq![entry] + us) =~= updates@ + us);
                    }
                },
            }
        }
        updates
    }
}

/// How fast the sprites move.
#[derive(Debug, Clone, Copy, PartialEq, Eq, Structural)]
pub enum AnimationSpeed {
    /// More than sixty events are waiting.
    Fast,
    /// More than twenty events are waiting.
    Quick,
    /// Few events are waiting.
    Normal,
}

/// Animate faster when many events are waiting to be shown.
pub fn animation_speed(queue_length: usize) -> (r: AnimationSpeed)
    ensures
        r == if queue_length > 60 {
            AnimationSpeed::Fast
        } else if queue_length > 20 {
            AnimationSpeed::Quick
        } else {
            AnimationSpeed::Normal
        },
{
    if queue_length > 60 {
        AnimationSpeed::Fast
    } else if queue_length > 20 {
        AnimationSpeed::Quick
    } else {
        AnimationSpeed::Normal
    }
}

/// The message for a solved level: whether it was solved for the first time, or which of the
/// best solutions it improves.
pub fn update_response_text(response: UpdateResponse) -> (s: &'static str)
    ensures
        s@ == match response {
            UpdateResponse::FirstTimeSolved => "You have successfully solved this level for the first time! Congratulations!"@,
            UpdateResponse::Update { moves: true, pushes: true } => "Your solution uses the least moves and pushes!"@,
            UpdateResponse::Update { moves: true, pushes: false } => "Your solution is the best so far in terms of moves!"@,
            UpdateResponse::Update { moves: false, pushes: true } => "Your solution is the best so far in terms of pushes!"@,
            UpdateResponse::Update { moves: false, pushes: false } => "Solved the level without creating a new high score."@,
        },
{
    match response {
        UpdateResponse::FirstTimeSolved => "You have successfully solved this level for the first time! Congratulations!",
        UpdateResponse::Update { moves: true, pushes: true } => "Your solution uses the least moves and pushes!",
        UpdateResponse::Update { moves: true, pushes: false } => "Your solution is the best so far in terms of moves!",
        UpdateResponse::Update { moves: false, pushes: true } => "Your solution is the best so far in terms of pushes!",
        UpdateResponse::Update { moves: false, pushes: false } => "Solved the level without creating a new high score.",
    }
}

} // verus!

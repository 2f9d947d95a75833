use vstd::prelude::*;

use crate::cell::Background;
use crate::command::{Obstacle, WithCrate};
use crate::direction::Direction;
use crate::position::Position;
use crate::save::UpdateResponse;

verus! {

/// What the back end tells the front end.
#[derive(Clone, Debug)]
pub enum Event {
    InitialLevelState {
        rank: usize,
        columns: usize,
        rows: usize,
        background: Vec<Background>,
        worker_position: Position,
        worker_direction: Direction,
        /// The crates' positions, listed by id.
        crates: Vec<Position>,
    },
    MoveWorker { from: Position, to: Position, direction: Direction },
    MoveCrate { id: usize, from: Position, to: Position },
    NothingToRedo,
    NothingToUndo,
    LevelFinished(UpdateResponse),
    EndOfCollection,
    MacroDefined,
    NoPathfindingWhilePushing,
    CannotMove(WithCrate, Obstacle),
    NoPathFound,
}

/// Events that report that a request could not be carried out.
pub open spec fn spec_is_error(e: Event) -> bool {
    !(e is InitialLevelState || e is MoveWorker || e is MoveCrate || e is LevelFinished
        || e is EndOfCollection || e is MacroDefined)
}

impl Event {
    /// Does this event report that a request could not be carried out?
    pub fn is_error(&self) -> (r: bool)
        ensures
            r == spec_is_error(*self),
    {
        match self {
            Event::InitialLevelState { .. } | Event::MoveWorker { .. } | Event::MoveCrate { .. }
            | Event::LevelFinished(_) | Event::EndOfCollection | Event::MacroDefined => false,
            _ => true,
        }
    }
}

} // verus!

use vstd::prelude::*;

use crate::save::solution::{Solution, SolutionView};

verus! {

#[derive(Debug)]
pub enum LevelState {
    /// The level has not been finished.
    Started { number_of_moves: usize, moves: String },
    /// The level has been finished.
    Finished {
        /// The solution using the least number of moves.
        least_moves: Solution,
        /// The solution using the least number of pushes.
        least_pushes: Solution,
    },
}

/// The state of a level as a mathematical value.
pub enum LevelStateView {
    Started { number_of_moves: nat, moves: Seq<char> },
    Finished { least_moves: SolutionView, least_pushes: SolutionView },
}

impl View for LevelState {
    type V = LevelStateView;

    open spec fn view(&self) -> LevelStateView {
        match self {
            LevelState::Started { number_of_moves, moves } => LevelStateView::Started {
                number_of_moves: *number_of_moves as nat,
                moves: moves@,
            },
            LevelState::Finished { least_moves, least_pushes } => LevelStateView::Finished {
                least_moves: least_moves@,
                least_pushes: least_pushes@,
            },
        }
    }
}

impl Clone for LevelState {
    fn clone(&self) -> (r: Self)
        ensures
            r@ == self@,
    {
        match self {
            LevelState::Started { number_of_moves, moves } => LevelState::Started {
                number_of_moves: *number_of_moves,
                moves: moves.clone(),
            },
            LevelState::Finished { least_moves, least_pushes } => LevelState::Finished {
                least_moves: least_moves.clone(),
                least_pushes: least_pushes.clone(),
            },
        }
    }
}

impl LevelState {
    pub fn new_solved(solution: Solution) -> (r: Self)
        ensures
            r@ == (LevelStateView::Finished { least_moves: solution@, least_pushes: solution@ }),
    {
        LevelState::Finished { least_moves: solution.clone(), least_pushes: solution }
    }

    /// A level that has been started but not finished, with the moves made so far (undone
    /// moves included).
    pub fn new_unsolved(level: &crate::current_level::CurrentLevel) -> (r: Self)
        ensures
            r@ == (LevelStateView::Started {
                number_of_moves: level.history().performed as nat,
                moves: crate::current_level::moves_string(level.history().actions),
            }),
    {
        LevelState::Started {
            number_of_moves: level.number_of_moves(),
            moves: level.all_moves_to_string(),
        }
    }

    /// Does this contain a complete solution?
    pub fn is_finished(&self) -> (r: bool)
        ensures
            r == (self@ is Finished),
    {
        match self {
            LevelState::Started { .. } => false,
            LevelState::Finished { .. } => true,
        }
    }
}

} // verus!

verus! {

/// The state to record for a level: its solution if it is finished, otherwise the moves made.
pub open spec fn spec_level_state_of(lvl: crate::current_level::CurrentLevel) -> LevelStateView {
    if crate::current_level::rules::misplaced(lvl.board(), lvl.entities().crates) == 0 {
        LevelStateView::Finished {
            least_moves: crate::save::solution::spec_solution_of(lvl),
            least_pushes: crate::save::solution::spec_solution_of(lvl),
        }
    } else {
        LevelStateView::Started {
            number_of_moves: lvl.history().performed as nat,
            moves: crate::current_level::moves_string(lvl.history().actions),
        }
    }
}

impl<'a> From<&'a crate::current_level::CurrentLevel> for LevelState {
    fn from(lvl: &'a crate::current_level::CurrentLevel) -> (r: Self)
        ensures
            lvl.wf() ==> r@ == spec_level_state_of(*lvl),
    {
        match Solution::try_from(lvl) {
            Ok(soln) => LevelState::new_solved(soln),
            Err(_) => LevelState::new_unsolved(lvl),
        }
    }
}

impl<'a> vstd::std_specs::convert::FromSpecImpl<&'a crate::current_level::CurrentLevel> for LevelState {
    open spec fn obeys_from_spec() -> bool {
        false
    }

    open spec fn from_spec(lvl: &'a crate::current_level::CurrentLevel) -> LevelState {
        vstd::pervasive::arbitrary()
    }
}

} // verus!

use vstd::prelude::*;

use crate::save::level_state::{LevelState, LevelStateView};
use crate::save::solution::{spec_min_moves, spec_min_pushes};
use crate::save::UpdateResponse;

verus! {

#[derive(Debug)]
pub struct CollectionState {
    pub name: String,
    pub collection_solved: bool,
    pub levels_solved: u32,
    pub levels: Vec<LevelState>,
}

/// The part of a collection's state that is enough for statistics.
#[derive(Debug)]
pub struct StatsOnlyCollectionState {
    pub name: String,
    pub collection_solved: bool,
    pub levels_solved: u32,
}

/// The states of the levels after recording `new` for level `index`: a new level is appended;
/// a started level is replaced; a finished level keeps, for each criterion, the better of the
/// old and the new solution, and stays as it is if the new state is not finished.
pub open spec fn spec_update_levels(
    levels: Seq<LevelStateView>,
    index: int,
    new: LevelStateView,
) -> Seq<LevelStateView> {
    if index >= levels.len() {
        levels.push(new)
    } else {
        match (levels[index], new) {
            (LevelStateView::Started { .. }, _) => levels.update(index, new),
            (
                LevelStateView::Finished { least_moves: lm_old, least_pushes: lp_old },
                LevelStateView::Finished { least_moves: lm, least_pushes: lp },
            ) => levels.update(
                index,
                LevelStateView::Finished {
                    least_moves: spec_min_moves(lm_old, lm),
                    least_pushes: spec_min_pushes(lp_old, lp),
                },
            ),
            _ => levels,
        }
    }
}

/// What updating the state of level `index` reports: that it is solved for the first time, or
/// whether the new solution beats the best one so far in moves and in pushes.
pub open spec fn spec_update_response(
    levels: Seq<LevelStateView>,
    index: int,
    new: LevelStateView,
) -> UpdateResponse {
    if index >= levels.len() {
        UpdateResponse::FirstTimeSolved
    } else {
        match (levels[index], new) {
            (LevelStateView::Started { .. }, _) => UpdateResponse::FirstTimeSolved,
            (
                LevelStateView::Finished { least_moves: lm_old, least_pushes: lp_old },
                LevelStateView::Finished { least_moves: lm, least_pushes: lp },
            ) => UpdateResponse::Update {
                moves: lm.number_of_moves < lm_old.number_of_moves,
                pushes: lp.number_of_pushes < lp_old.number_of_pushes,
            },
            _ => UpdateResponse::Update { moves: false, pushes: false },
        }
    }
}

/// How many levels have been finished.
pub open spec fn spec_levels_finished(levels: Seq<LevelStateView>) -> nat
    decreases levels.len(),
{
    if levels.len() == 0 {
        0
    } else {
        spec_levels_finished(levels.drop_last()) + if levels.last() is Finished {
            1nat
        } else {
            0nat
        }
    }
}

/// No more levels are finished than there are levels.
pub proof fn lemma_levels_finished_bound(levels: Seq<LevelStateView>)
    ensures
        spec_levels_finished(levels) <= levels.len(),
    decreases levels.len(),
{
    if levels.len() > 0 {
        lemma_levels_finished_bound(levels.drop_last());
    }
}

impl CollectionState {
    pub open spec fn levels_view(&self) -> Seq<LevelStateView> {
        self.levels@.map_values(|l: LevelState| l@)
    }

    /// Create a new `CollectionState` with no solved levels.
    pub fn new(name: &str) -> (r: Self)
        ensures
            r.name@ == name@,
            !r.collection_solved,
            r.levels_solved == 0,
            r.levels@.len() == 0,
    {
        CollectionState {
            name: name.to_string(),
            collection_solved: false,
            levels_solved: 0,
            levels: Vec::new(),
        }
    }

    /// A state with the statistics of a collection and no per-level information.
    pub fn from_stats(stats: StatsOnlyCollectionState) -> (r: Self)
        ensures
            r.name == stats.name,
            r.collection_solved == stats.collection_solved,
            r.levels_solved == stats.levels_solved,
            r.levels@.len() == 0,
    {
        CollectionState {
            name: stats.name,
            collection_solved: stats.collection_solved,
            levels_solved: stats.levels_solved,
            levels: Vec::new(),
        }
    }

    /// Get the state ready to be stored: record the number of finished levels.
    pub fn save(&mut self)
        ensures
            final(self).levels_solved == spec_levels_finished(old(self).levels_view()) as u32,
            final(self).name == old(self).name,
            final(self).collection_solved == old(self).collection_solved,
            final(self).levels == old(self).levels,
    {
        self.levels_solved = self.levels_finished() as u32;
    }

    /// If a better or more complete solution for the current level is available, replace the old
    /// one with it.
    pub fn update(&mut self, index: usize, level_state: LevelState) -> (r: UpdateResponse)
        ensures
            final(self).levels_view() == spec_update_levels(
                old(self).levels_view(),
                index as int,
                level_state@,
            ),
            r == spec_update_response(old(self).levels_view(), index as int, level_state@),
            final(self).name == old(self).name,
            final(self).collection_solved == old(self).collection_solved,
            final(self).levels_solved == old(self).levels_solved,
    {
        let ghost old_levels = self.levels_view();
        if index >= self.levels.len() {
            self.levels.push(level_state);
            assert(self.levels_view() =~= old_levels.push(level_state@));
            UpdateResponse::FirstTimeSolved
        } else {
            let old_state = self.levels[index].clone();
            match old_state {
                LevelState::Started { .. } => {
                    let ghost new_view = level_state@;
                    self.levels.set(index, level_state);
                    assert(self.levels_view() =~= old_levels.update(index as int, new_view));
                    UpdateResponse::FirstTimeSolved
                },
                LevelState::Finished { least_moves: lm_old, least_pushes: lp_old } => {
                    match level_state {
                        LevelState::Finished { least_moves: lm, least_pushes: lp } => {
                            let new_state = LevelState::Finished {
                                least_moves: lm_old.min_moves(&lm),
                                least_pushes: lp_old.min_pushes(&lp),
                            };
                            let ghost new_view = new_state@;
                            self.levels.set(index, new_state);
                            assert(self.levels_view() =~= old_levels.update(index as int, new_view));
                            let highscore_moves = lm.less_moves(&lm_old);
                            let highscore_pushes = lp.less_pushes(&lp_old);
                            UpdateResponse::Update { moves: highscore_moves, pushes: highscore_pushes }
                        },
                        LevelState::Started { .. } => {
                            UpdateResponse::Update { moves: false, pushes: false }
                        },
                    }
                },
            }
        }
    }

    /// How many levels have been finished.
    pub fn levels_finished(&self) -> (r: usize)
        ensures
            r == spec_levels_finished(self.levels_view()),
    {
        let ghost v = self.levels_view();
        let n = self.levels.len();
        let mut count: usize = 0;
        for i in 0..n
            invariant
                n == self.levels@.len(),
                v == self.levels_view(),
                count == spec_levels_finished(v.take(i as int)),
                count <= i,
        {
            proof {
                assert(v.take(i + 1).drop_last() =~= v.take(i as int));
                assert(v[i as int] == self.levels@[i as int]@);
            }
            if self.levels[i].is_finished() {
                count = count + 1;
            }
        }
        proof {
            assert(v.take(n as int) =~= v);
        }
        count
    }

    pub fn number_of_levels(&self) -> (r: usize)
        ensures
            r == self.levels@.len(),
    {
        self.levels.len()
    }

    /// The number of solved levels: as counted from the levels' states when they are known,
    /// as stored in the statistics otherwise.
    pub fn number_of_solved_levels(&self) -> (r: usize)
        ensures
            r == if self.levels@.len() == 0 {
                self.levels_solved as nat
            } else {
                spec_levels_finished(self.levels_view())
            },
    {
        if self.levels.len() == 0 {
            self.levels_solved as usize
        } else {
            self.levels_finished()
        }
    }
}

/// Once a level is finished it stays finished, whatever state is recorded for it later.
pub proof fn lemma_update_keeps_finished(levels: Seq<LevelStateView>, index: int, new: LevelStateView)
    requires
        0 <= index < levels.len(),
        levels[index] is Finished,
    ensures
        spec_update_levels(levels, index, new)[index] is Finished,
        spec_update_levels(levels, index, new).len() == levels.len(),
{
}

/// Recording a finished level never makes its best solutions worse.
pub proof fn lemma_update_improves(levels: Seq<LevelStateView>, index: int, new: LevelStateView)
    requires
        0 <= index < levels.len(),
        levels[index] is Finished,
        new is Finished,
    ensures
        spec_update_levels(levels, index, new)[index]->least_moves.number_of_moves
            <= levels[index]->least_moves.number_of_moves,
        spec_update_levels(levels, index, new)[index]->least_moves.number_of_moves
            <= new->least_moves.number_of_moves,
        spec_update_levels(levels, index, new)[index]->least_pushes.number_of_pushes
            <= levels[index]->least_pushes.number_of_pushes,
        spec_update_levels(levels, index, new)[index]->least_pushes.number_of_pushes
            <= new->least_pushes.number_of_pushes,
{
}

} // verus!

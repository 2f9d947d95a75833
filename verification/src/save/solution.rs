use vstd::prelude::*;

verus! {

/// One particular solution of a level.
#[derive(Debug)]
pub struct Solution {
    number_of_moves: usize,
    number_of_pushes: usize,
    steps: String,
}

/// A solution as a mathematical value.
pub struct SolutionView {
    pub number_of_moves: nat,
    pub number_of_pushes: nat,
    pub steps: Seq<char>,
}

impl View for Solution {
    type V = SolutionView;

    closed spec fn view(&self) -> SolutionView {
        SolutionView {
            number_of_moves: self.number_of_moves as nat,
            number_of_pushes: self.number_of_pushes as nat,
            steps: self.steps@,
        }
    }
}

/// The solution with fewer moves; with as many moves, the one with fewer pushes; `a` if both
/// are the same.
pub open spec fn spec_min_moves(a: SolutionView, b: SolutionView) -> SolutionView {
    if a.number_of_moves < b.number_of_moves || (a.number_of_moves == b.number_of_moves
        && a.number_of_pushes <= b.number_of_pushes) {
        a
    } else {
        b
    }
}

/// The solution with fewer pushes; with as many pushes, the one with fewer moves; `a` if both
/// are the same.
pub open spec fn spec_min_pushes(a: SolutionView, b: SolutionView) -> SolutionView {
    if a.number_of_pushes < b.number_of_pushes || (a.number_of_pushes == b.number_of_pushes
        && a.number_of_moves <= b.number_of_moves) {
        a
    } else {
        b
    }
}

impl Clone for Solution {
    fn clone(&self) -> (r: Self)
        ensures
            r@ == self@,
    {
        Solution {
            number_of_moves: self.number_of_moves,
            number_of_pushes: self.number_of_pushes,
            steps: self.steps.clone(),
        }
    }
}

impl Solution {
    pub fn new(number_of_moves: usize, number_of_pushes: usize, steps: String) -> (r: Self)
        ensures
            r@.number_of_moves == number_of_moves,
            r@.number_of_pushes == number_of_pushes,
            r@.steps == steps@,
    {
        Solution { number_of_moves, number_of_pushes, steps }
    }

    pub fn number_of_moves(&self) -> (r: usize)
        ensures
            r == self@.number_of_moves,
    {
        self.number_of_moves
    }

    pub fn number_of_pushes(&self) -> (r: usize)
        ensures
            r == self@.number_of_pushes,
    {
        self.number_of_pushes
    }

    pub fn steps(&self) -> (r: &str)
        ensures
            r@ == self@.steps,
    {
        self.steps.as_str()
    }

    /// Return a copy of either `self` or `other` with the smallest number of *worker* movements.
    pub fn min_moves(&self, other: &Solution) -> (r: Self)
        ensures
            r@ == spec_min_moves(self@, other@),
    {
        if self.number_of_moves < other.number_of_moves || (self.number_of_moves
            == other.number_of_moves && self.number_of_pushes <= other.number_of_pushes) {
            self.clone()
        } else {
            other.clone()
        }
    }

    /// Return a copy of either `self` or `other` with the smallest number of *crate* movements.
    pub fn min_pushes(&self, other: &Solution) -> (r: Self)
        ensures
            r@ == spec_min_pushes(self@, other@),
    {
        if self.number_of_pushes < other.number_of_pushes || (self.number_of_pushes
            == other.number_of_pushes && self.number_of_moves <= other.number_of_moves) {
            self.clone()
        } else {
            other.clone()
        }
    }

    /// Is `self` a solution with less moves than `other`?
    pub fn less_moves(&self, other: &Solution) -> (r: bool)
        ensures
            r == (self@.number_of_moves < other@.number_of_moves),
    {
        self.number_of_moves < other.number_of_moves
    }

    /// Is `self` a solution with less pushes than `other`?
    pub fn less_pushes(&self, other: &Solution) -> (r: bool)
        ensures
            r == (self@.number_of_pushes < other@.number_of_pushes),
    {
        self.number_of_pushes < other.number_of_pushes
    }
}

/// The better of two solutions by moves has no more moves than either, and is one of them.
pub proof fn lemma_min_moves_is_minimal(a: SolutionView, b: SolutionView)
    ensures
        spec_min_moves(a, b).number_of_moves <= a.number_of_moves,
        spec_min_moves(a, b).number_of_moves <= b.number_of_moves,
        spec_min_moves(a, b) == a || spec_min_moves(a, b) == b,
{
}

/// The better of two solutions by pushes has no more pushes than either, and is one of them.
pub proof fn lemma_min_pushes_is_minimal(a: SolutionView, b: SolutionView)
    ensures
        spec_min_pushes(a, b).number_of_pushes <= a.number_of_pushes,
        spec_min_pushes(a, b).number_of_pushes <= b.number_of_pushes,
        spec_min_pushes(a, b) == a || spec_min_pushes(a, b) == b,
{
}

} // verus!

verus! {

/// The solution a finished level shows: its performed moves and pushes.
pub open spec fn spec_solution_of(lvl: crate::current_level::CurrentLevel) -> SolutionView {
    SolutionView {
        number_of_moves: lvl.history().performed as nat,
        number_of_pushes: crate::current_level::count_pushes(
            crate::current_level::performed_moves(lvl.history()),
        ),
        steps: crate::current_level::moves_string(
            crate::current_level::performed_moves(lvl.history()),
        ),
    }
}

impl<'a> TryFrom<&'a crate::current_level::CurrentLevel> for Solution {
    type Error = ();

    /// The solution of a level, if it is finished.
    fn try_from(lvl: &'a crate::current_level::CurrentLevel) -> (r: Result<Solution, ()>)
        ensures
            lvl.wf() ==> match r {
                Ok(s) => crate::current_level::rules::misplaced(lvl.board(), lvl.entities().crates)
                    == 0 && s@ == spec_solution_of(*lvl),
                Err(_) => crate::current_level::rules::misplaced(
                    lvl.board(),
                    lvl.entities().crates,
                ) != 0,
            },
    {
        if lvl.is_finished() {
            Ok(
                Solution {
                    number_of_moves: lvl.number_of_moves(),
                    number_of_pushes: lvl.number_of_pushes(),
                    steps: lvl.moves_to_string(),
                },
            )
        } else {
            Err(())
        }
    }
}

impl<'a> vstd::std_specs::convert::TryFromSpecImpl<&'a crate::current_level::CurrentLevel> for Solution {
    open spec fn obeys_try_from_spec() -> bool {
        false
    }

    open spec fn try_from_spec(lvl: &'a crate::current_level::CurrentLevel) -> Result<Solution, ()> {
        vstd::pervasive::arbitrary()
    }
}

} // verus!

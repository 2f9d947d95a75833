use vstd::prelude::*;

verus! {

/// Static part of a cell.
#[derive(Debug, Clone, Copy, PartialEq, Eq, Structural, Hash)]
pub enum Background {
    Empty,
    Wall,
    Floor,
    Goal,
}

/// The number of goal cells.
pub open spec fn goal_count(bg: Seq<Background>) -> nat
    decreases bg.len(),
{
    if bg.len() == 0 {
        0
    } else {
        goal_count(bg.drop_last()) + if bg.last() == Background::Goal {
            1nat
        } else {
            0nat
        }
    }
}

/// The indices of the goal cells.
pub open spec fn goal_cells(bg: Seq<Background>) -> Set<int> {
    Set::new(|i: int| 0 <= i < bg.len() && bg[i] == Background::Goal)
}

/// Setting one cell changes the number of goal cells by what that cell was and becomes.
pub proof fn lemma_goal_count_update(bg: Seq<Background>, i: int, v: Background)
    requires
        0 <= i < bg.len(),
    ensures
        goal_count(bg.update(i, v)) + (if bg[i] == Background::Goal { 1int } else { 0int })
            == goal_count(bg) + (if v == Background::Goal { 1int } else { 0int }),
    decreases bg.len(),
{
    if i == bg.len() - 1 {
        assert(bg.update(i, v).drop_last() =~= bg.drop_last());
    } else {
        assert(bg.update(i, v).drop_last() =~= bg.drop_last().update(i, v));
        lemma_goal_count_update(bg.drop_last(), i, v);
    }
}

/// Two backgrounds with their goals in the same cells have as many goals.
pub proof fn lemma_goal_count_same(a: Seq<Background>, b: Seq<Background>)
    requires
        a.len() == b.len(),
        forall|i: int| 0 <= i < a.len() ==> (a[i] == Background::Goal <==> b[i] == Background::Goal),
    ensures
        goal_count(a) == goal_count(b),
    decreases a.len(),
{
    if a.len() > 0 {
        lemma_goal_count_same(a.drop_last(), b.drop_last());
    }
}

/// The goal cells are finitely many, as many as `goal_count` counts.
pub proof fn lemma_goal_cells(bg: Seq<Background>)
    ensures
        goal_cells(bg).finite(),
        goal_cells(bg).len() == goal_count(bg),
    decreases bg.len(),
{
    if bg.len() == 0 {
        assert(goal_cells(bg) =~= Set::<int>::empty());
    } else {
        let d = bg.drop_last();
        lemma_goal_cells(d);
        let n = bg.len() - 1;
        if bg.last() == Background::Goal {
            assert(goal_cells(bg) =~= goal_cells(d).insert(n));
            assert(!goal_cells(d).contains(n));
        } else {
            assert(goal_cells(bg) =~= goal_cells(d));
        }
    }
}

impl Background {
    pub fn is_wall(self) -> (r: bool)
        ensures
            r == (self == Background::Wall),
    {
        match self {
            Background::Wall => true,
            _ => false,
        }
    }
}

/// Dynamic part of a cell.
#[derive(Debug, Clone, Copy, PartialEq, Eq, Structural, Hash)]
pub enum Foreground {
    Nothing,
    Worker,
    Crate,
}

#[derive(Debug, Clone, Copy, PartialEq, Eq, Structural, Hash)]
pub struct Cell {
    pub background: Background,
    pub foreground: Foreground,
}

/// The error returned when a character does not describe a cell.
#[derive(Debug, Copy, Clone)]
pub struct TryFromCellError(pub ());

impl TryFromCellError {
    pub fn __description(&self) -> (r: &str)
        ensures
            r@ == "invalid character"@,
    {
        "invalid character"
    }
}

/// The cell a character stands for in the on-disc level format, if any.
pub open spec fn spec_char_to_cell(c: char) -> Option<(Background, Foreground)> {
    if c == '#' { Some((Background::Wall, Foreground::Nothing)) }
    else if c == ' ' { Some((Background::Empty, Foreground::Nothing)) }
    else if c == '$' { Some((Background::Floor, Foreground::Crate)) }
    else if c == '@' { Some((Background::Floor, Foreground::Worker)) }
    else if c == '.' { Some((Background::Goal, Foreground::Nothing)) }
    else if c == '*' { Some((Background::Goal, Foreground::Crate)) }
    else if c == '+' { Some((Background::Goal, Foreground::Worker)) }
    else { None }
}

/// The result of parsing a character as a cell.
pub open spec fn spec_cell_of_char(c: char) -> Result<Cell, TryFromCellError> {
    match spec_char_to_cell(c) {
        Some((b, f)) => Ok(Cell { background: b, foreground: f }),
        None => Err(TryFromCellError(())),
    }
}

/// A worker or a crate can only stand on floor or on a goal.
pub open spec fn valid_cell(background: Background, foreground: Foreground) -> bool {
    foreground != Foreground::Nothing ==> (background == Background::Floor || background
        == Background::Goal)
}

/// The character representing a (valid) cell in the on-disc format.
pub open spec fn spec_cell_to_char(background: Background, foreground: Foreground) -> char {
    match (background, foreground) {
        (Background::Wall, Foreground::Nothing) => '#',
        (Background::Goal, Foreground::Nothing) => '.',
        (Background::Floor, Foreground::Crate) => '$',
        (Background::Floor, Foreground::Worker) => '@',
        (Background::Goal, Foreground::Crate) => '*',
        (Background::Goal, Foreground::Worker) => '+',
        _ => ' ',
    }
}

/// Parse the character of a cell, as found in level descriptions.
pub fn char_to_cell(chr: char) -> (r: Option<(Background, Foreground)>)
    ensures
        r == spec_char_to_cell(chr),
{
    if chr == '#' {
        Some((Background::Wall, Foreground::Nothing))
    } else if chr == ' ' {
        Some((Background::Empty, Foreground::Nothing))
    } else if chr == '$' {
        Some((Background::Floor, Foreground::Crate))
    } else if chr == '@' {
        Some((Background::Floor, Foreground::Worker))
    } else if chr == '.' {
        Some((Background::Goal, Foreground::Nothing))
    } else if chr == '*' {
        Some((Background::Goal, Foreground::Crate))
    } else if chr == '+' {
        Some((Background::Goal, Foreground::Worker))
    } else {
        None
    }
}

/// The character of a cell given by its two parts.
pub fn cell_to_char(background: Background, foreground: Foreground) -> (c: char)
    requires
        valid_cell(background, foreground),
    ensures
        c == spec_cell_to_char(background, foreground),
{
    match (background, foreground) {
        (Background::Wall, Foreground::Nothing) => '#',
        (Background::Empty, Foreground::Nothing) | (Background::Floor, Foreground::Nothing) => ' ',
        (Background::Floor, Foreground::Crate) => '$',
        (Background::Floor, Foreground::Worker) => '@',
        (Background::Goal, Foreground::Nothing) => '.',
        (Background::Goal, Foreground::Crate) => '*',
        (Background::Goal, Foreground::Worker) => '+',
        _ => ' ',
    }
}

impl Cell {
    /// Given a Cell, return the character representing it in the on-disc format.
    pub fn to_char(self) -> (c: char)
        requires
            valid_cell(self.background, self.foreground),
        ensures
            c == spec_cell_to_char(self.background, self.foreground),
    {
        cell_to_char(self.background, self.foreground)
    }

    /// Try to parse a given character as part of a level description.
    pub fn from_char(c: char) -> (r: Result<Cell, TryFromCellError>)
        ensures
            r == spec_cell_of_char(c),
    {
        match char_to_cell(c) {
            Some((background, foreground)) => Ok(Cell { background, foreground }),
            None => Err(TryFromCellError(())),
        }
    }
}

impl TryFrom<char> for Cell {
    type Error = TryFromCellError;

    fn try_from(c: char) -> (r: Result<Cell, TryFromCellError>) {
        Cell::from_char(c)
    }
}

impl vstd::std_specs::convert::TryFromSpecImpl<char> for Cell {
    open spec fn obeys_try_from_spec() -> bool {
        true
    }

    open spec fn try_from_spec(c: char) -> Result<Cell, TryFromCellError> {
        spec_cell_of_char(c)
    }
}

/// Every character that describes a cell is the one written back for that cell, except that
/// floor without anything on it is written as a space, like empty space outside the level.
pub proof fn lemma_cell_char_round_trip(c: char)
    requires
        spec_char_to_cell(c) is Some,
    ensures
        ({
            let (b, f) = spec_char_to_cell(c)->0;
            valid_cell(b, f) && spec_cell_to_char(b, f) == c
        }),
{
}

} // verus!

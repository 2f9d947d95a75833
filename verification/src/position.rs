use vstd::prelude::*;

use crate::direction::Direction;

verus! {

/// A position in a Sokoban level given as (x,y) coordinates.
#[derive(Clone, Copy, PartialEq, Eq, Structural, Hash, Debug)]
pub struct Position {
    pub x: isize,
    pub y: isize,
}

/// The neighbour of `p` one step in direction `d`.
pub open spec fn spec_neighbour(p: Position, d: Direction) -> Position {
    match d {
        Direction::Left => Position { x: (p.x - 1) as isize, y: p.y },
        Direction::Right => Position { x: (p.x + 1) as isize, y: p.y },
        Direction::Up => Position { x: p.x, y: (p.y - 1) as isize },
        Direction::Down => Position { x: p.x, y: (p.y + 1) as isize },
    }
}

/// Neither coordinate is at the edge of the `isize` range, so every neighbour exists.
pub open spec fn has_all_neighbours(p: Position) -> bool {
    isize::MIN < p.x < isize::MAX && isize::MIN < p.y < isize::MAX
}

/// The coordinate that a step in direction `d` changes is not at that end of the `isize` range,
/// so the neighbour in that direction exists.
pub open spec fn has_neighbour(p: Position, d: Direction) -> bool {
    match d {
        Direction::Left => p.x > isize::MIN,
        Direction::Right => p.x < isize::MAX,
        Direction::Up => p.y > isize::MIN,
        Direction::Down => p.y < isize::MAX,
    }
}

/// The row-major index of `p` in a grid with `columns` columns.
pub open spec fn spec_index(p: Position, columns: int) -> int {
    p.x + p.y * columns
}

/// The cell whose row-major index is `index` lies in column `index % columns` and row
/// `index / columns`, and its index is `index` again.
pub proof fn lemma_from_index_to_index(index: int, columns: int)
    requires
        columns > 0,
        0 <= index <= isize::MAX,
    ensures
        0 <= index % columns <= index,
        0 <= index / columns <= index,
        spec_index(
            Position { x: (index % columns) as isize, y: (index / columns) as isize },
            columns,
        ) == index,
{
    vstd::arithmetic::div_mod::lemma_fundamental_div_mod(index, columns);
    vstd::arithmetic::div_mod::lemma_mod_pos_bound(index, columns);
    vstd::arithmetic::div_mod::lemma_div_pos_is_pos(index, columns);
    vstd::arithmetic::div_mod::lemma_div_is_ordered_by_denominator(index, 1, columns);
    vstd::arithmetic::div_mod::lemma_div_basics(index);
    if index < columns {
        vstd::arithmetic::div_mod::lemma_small_mod(index as nat, columns as nat);
    }
    let q = index / columns;
    let r = index % columns;
    assert(columns * q == q * columns) by (nonlinear_arith);
}

/// A position inside a grid with `columns` columns is found again from its row-major index.
pub proof fn lemma_to_index_from_index(p: Position, columns: int)
    requires
        columns > 0,
        0 <= p.x < columns,
        p.y >= 0,
    ensures
        spec_index(p, columns) % columns == p.x,
        spec_index(p, columns) / columns == p.y,
{
    vstd::arithmetic::div_mod::lemma_fundamental_div_mod_converse(
        spec_index(p, columns),
        columns,
        p.y as int,
        p.x as int,
    );
}

impl Position {
    pub fn new(x: usize, y: usize) -> (r: Self)
        ensures
            r.x == x as isize,
            r.y == y as isize,
    {
        Position { x: x as isize, y: y as isize }
    }

    pub fn above(&self) -> (r: Self)
        requires
            self.y > isize::MIN,
        ensures
            r == spec_neighbour(*self, Direction::Up),
    {
        Position { x: self.x, y: self.y - 1 }
    }

    pub fn below(&self) -> (r: Self)
        requires
            self.y < isize::MAX,
        ensures
            r == spec_neighbour(*self, Direction::Down),
    {
        Position { x: self.x, y: self.y + 1 }
    }

    pub fn left(&self) -> (r: Self)
        requires
            self.x > isize::MIN,
        ensures
            r == spec_neighbour(*self, Direction::Left),
    {
        Position { x: self.x - 1, y: self.y }
    }

    pub fn right(&self) -> (r: Self)
        requires
            self.x < isize::MAX,
        ensures
            r == spec_neighbour(*self, Direction::Right),
    {
        Position { x: self.x + 1, y: self.y }
    }

    /// The position of the cell with the given row-major index.
    pub fn from_index(index: usize, columns: usize) -> (r: Self)
        requires
            columns > 0,
        ensures
            r.x == (index % columns) as isize,
            r.y == (index / columns) as isize,
            index <= isize::MAX ==> r.x == index % columns && r.y == index / columns
                && spec_index(r, columns as int) == index,
    {
        proof {
            if index <= isize::MAX {
                lemma_from_index_to_index(index as int, columns as int);
            }
        }
        Position { x: (index % columns) as isize, y: (index / columns) as isize }
    }

    /// The row-major index of this position in a grid with `columns` columns.
    pub fn to_index(&self, columns: usize) -> (r: usize)
        requires
            self.x >= 0,
            self.y >= 0,
            spec_index(*self, columns as int) <= usize::MAX,
        ensures
            r == spec_index(*self, columns as int),
    {
        assert(0 <= self.y * columns <= self.x + self.y * columns) by (nonlinear_arith)
            requires
                self.x >= 0,
                self.y >= 0,
                columns >= 0,
        ;
        self.x as usize + self.y as usize * columns
    }

    /// Return the neighbouring Position in the given direction.
    pub fn neighbour(&self, direction: Direction) -> (r: Self)
        requires
            has_neighbour(*self, direction),
        ensures
            r == spec_neighbour(*self, direction),
    {
        match direction {
            Direction::Left => self.left(),
            Direction::Right => self.right(),
            Direction::Up => self.above(),
            Direction::Down => self.below(),
        }
    }

    /// The difference `self - other` of two positions, coordinate by coordinate.
    pub fn diff(self, other: Position) -> (r: (isize, isize))
        requires
            isize::MIN <= self.x - other.x <= isize::MAX,
            isize::MIN <= self.y - other.y <= isize::MAX,
        ensures
            r.0 == self.x - other.x,
            r.1 == self.y - other.y,
    {
        (self.x - other.x, self.y - other.y)
    }
}

} // verus!

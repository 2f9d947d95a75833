use vstd::prelude::*;

use crate::position::{Position, spec_neighbour, has_all_neighbours, has_neighbour};

verus! {

/// Any of the directions needed for Sokoban.
#[derive(Debug, Clone, Copy, PartialEq, Eq, Structural, Hash)]
pub enum Direction {
    Left,
    Right,
    Up,
    Down,
}

pub open spec fn spec_reverse(d: Direction) -> Direction {
    match d {
        Direction::Left => Direction::Right,
        Direction::Right => Direction::Left,
        Direction::Up => Direction::Down,
        Direction::Down => Direction::Up,
    }
}

/// The character used for a direction in the on-disc solution format.
pub open spec fn spec_direction_char(d: Direction) -> char {
    match d {
        Direction::Left => 'l',
        Direction::Right => 'r',
        Direction::Up => 'u',
        Direction::Down => 'd',
    }
}

impl Direction {
    /// Return the opposite direction. This is used when undoing a move.
    pub fn reverse(self) -> (r: Self)
        ensures
            r == spec_reverse(self),
    {
        match self {
            Direction::Left => Direction::Right,
            Direction::Right => Direction::Left,
            Direction::Up => Direction::Down,
            Direction::Down => Direction::Up,
        }
    }

    /// The lower-case letter naming this direction.
    pub fn to_char(self) -> (c: char)
        ensures
            c == spec_direction_char(self),
    {
        match self {
            Direction::Left => 'l',
            Direction::Right => 'r',
            Direction::Up => 'u',
            Direction::Down => 'd',
        }
    }
}

/// All directions
pub const DIRECTIONS: [Direction; 4] = [
    Direction::Left,
    Direction::Right,
    Direction::Up,
    Direction::Down,
];

#[derive(Debug, PartialEq, Eq, Structural, Clone, Copy)]
pub enum DirectionResult {
    SamePosition,
    Neighbour { direction: Direction },
    Other,
}

/// Where `to` lies as seen from `from`: the same cell, straight in one direction, or neither.
pub open spec fn spec_direction(from: Position, to: Position) -> DirectionResult {
    let dx = to.x - from.x;
    let dy = to.y - from.y;
    if dx == 0 && dy == 0 {
        DirectionResult::SamePosition
    } else if dx == 0 {
        DirectionResult::Neighbour { direction: if dy < 0 { Direction::Up } else { Direction::Down } }
    } else if dy == 0 {
        DirectionResult::Neighbour {
            direction: if dx < 0 { Direction::Left } else { Direction::Right },
        }
    } else {
        DirectionResult::Other
    }
}

/// Find out in which direction you have to move to get from `from` to `to`, if there is such a
/// direction.
pub fn direction(from: Position, to: Position) -> (r: DirectionResult)
    ensures
        r == spec_direction(from, to),
{
    if to.x == from.x && to.y == from.y {
        DirectionResult::SamePosition
    } else if to.x == from.x {
        DirectionResult::Neighbour {
            direction: if to.y < from.y {
                Direction::Up
            } else {
                Direction::Down
            },
        }
    } else if to.y == from.y {
        DirectionResult::Neighbour {
            direction: if to.x < from.x {
                Direction::Left
            } else {
                Direction::Right
            },
        }
    } else {
        DirectionResult::Other
    }
}

/// Stepping in a direction and then in the reverse direction leads back to the start.
pub proof fn lemma_neighbour_reverse(p: Position, d: Direction)
    requires
        has_neighbour(p, d),
    ensures
        spec_neighbour(spec_neighbour(p, d), spec_reverse(d)) == p,
        spec_reverse(spec_reverse(d)) == d,
{
}

/// A neighbour lies exactly in the direction it was reached by.
pub proof fn lemma_direction_of_neighbour(p: Position, d: Direction)
    requires
        has_all_neighbours(p),
    ensures
        spec_direction(p, spec_neighbour(p, d)) == (DirectionResult::Neighbour { direction: d }),
{
}

} // verus!

use vstd::prelude::*;

use crate::direction::{Direction, spec_direction_char};
use crate::text::chars_of;

verus! {

/// This structure contains everything needed to do or undo a Sokoban move.
#[derive(Debug, Clone, Copy, Eq)]
pub struct Move {
    /// Was a crate moved?
    pub moves_crate: bool,
    /// Where was the move directed?
    pub direction: Direction,
}

impl PartialEq for Move {
    fn eq(&self, other: &Self) -> (r: bool) {
        let same_direction = match (self.direction, other.direction) {
            (Direction::Left, Direction::Left) => true,
            (Direction::Right, Direction::Right) => true,
            (Direction::Up, Direction::Up) => true,
            (Direction::Down, Direction::Down) => true,
            _ => false,
        };
        self.moves_crate == other.moves_crate && same_direction
    }
}

impl vstd::std_specs::cmp::PartialEqSpecImpl for Move {
    open spec fn obeys_eq_spec() -> bool {
        true
    }

    open spec fn eq_spec(&self, other: &Self) -> bool {
        self.moves_crate == other.moves_crate && self.direction == other.direction
    }
}

/// The character describing a move: the direction's letter, upper case if and only if a crate
/// is pushed.
pub open spec fn spec_move_char(m: Move) -> char {
    match (m.direction, m.moves_crate) {
        (Direction::Left, false) => 'l',
        (Direction::Right, false) => 'r',
        (Direction::Up, false) => 'u',
        (Direction::Down, false) => 'd',
        (Direction::Left, true) => 'L',
        (Direction::Right, true) => 'R',
        (Direction::Up, true) => 'U',
        (Direction::Down, true) => 'D',
    }
}

/// The move a character stands for, if any.
pub open spec fn spec_move_of_char(c: char) -> Option<Move> {
    if c == 'l' { Some(Move { direction: Direction::Left, moves_crate: false }) }
    else if c == 'r' { Some(Move { direction: Direction::Right, moves_crate: false }) }
    else if c == 'u' { Some(Move { direction: Direction::Up, moves_crate: false }) }
    else if c == 'd' { Some(Move { direction: Direction::Down, moves_crate: false }) }
    else if c == 'L' { Some(Move { direction: Direction::Left, moves_crate: true }) }
    else if c == 'R' { Some(Move { direction: Direction::Right, moves_crate: true }) }
    else if c == 'U' { Some(Move { direction: Direction::Up, moves_crate: true }) }
    else if c == 'D' { Some(Move { direction: Direction::Down, moves_crate: true }) }
    else { None }
}

pub open spec fn spec_try_move_of_char(c: char) -> Result<Move, char> {
    match spec_move_of_char(c) {
        Some(m) => Ok(m),
        None => Err(c),
    }
}

/// The index of the first character of `s` that does not describe a move, if there is one.
pub open spec fn first_invalid_move_char(s: Seq<char>) -> int {
    choose|k: int|
        0 <= k < s.len() && spec_move_of_char(s[k]) is None && forall|j: int|
            0 <= j < k ==> spec_move_of_char(#[trigger] s[j]) is Some
}

/// The result of parsing a string of moves: the moves if every character describes one,
/// otherwise the first offending character.
pub open spec fn spec_parse_moves(s: Seq<char>) -> Result<Seq<Move>, char> {
    if forall|i: int| 0 <= i < s.len() ==> spec_move_of_char(#[trigger] s[i]) is Some {
        Ok(Seq::new(s.len(), |i: int| spec_move_of_char(s[i])->0))
    } else {
        Err(s[first_invalid_move_char(s)])
    }
}

/// Writing a move as a character and reading it back gives the same move.
pub proof fn lemma_move_char_round_trip(m: Move)
    ensures
        spec_move_of_char(spec_move_char(m)) == Some(m),
{
}

/// The characters describing the moves, one for each.
pub open spec fn moves_text(ms: Seq<Move>) -> Seq<char> {
    Seq::new(ms.len(), |i: int| spec_move_char(ms[i]))
}

/// Reading a string of moves and writing the moves back gives the string.
pub proof fn lemma_parse_print_round_trip(s: Seq<char>)
    requires
        spec_parse_moves(s) is Ok,
    ensures
        moves_text(spec_parse_moves(s)->Ok_0) == s,
{
    let ms = spec_parse_moves(s)->Ok_0;
    assert forall|i: int| 0 <= i < s.len() implies #[trigger] moves_text(ms)[i] == s[i] by {
        assert(spec_move_of_char(s[i]) is Some);
    }
    assert(moves_text(ms) =~= s);
}

/// Writing moves as characters and reading them back gives the moves.
pub proof fn lemma_print_parse_round_trip(ms: Seq<Move>)
    ensures
        spec_parse_moves(moves_text(ms)) == Ok::<Seq<Move>, char>(ms),
{
    let s = moves_text(ms);
    assert forall|i: int| 0 <= i < s.len() implies spec_move_of_char(#[trigger] s[i]) == Some(
        ms[i],
    ) by {
        lemma_move_char_round_trip(ms[i]);
    }
    assert(spec_parse_moves(s)->Ok_0 =~= ms);
}

impl Move {
    pub fn new(direction: Direction, moves_crate: bool) -> (r: Self)
        ensures
            r.direction == direction,
            r.moves_crate == moves_crate,
    {
        Move { moves_crate, direction }
    }

    /// Describe a move using one character signifying its direction. The character is upper case
    /// if and only if `self.moves_crate` is true.
    pub fn to_char(&self) -> (c: char)
        ensures
            c == spec_move_char(*self),
    {
        match (self.direction, self.moves_crate) {
            (Direction::Left, false) => 'l',
            (Direction::Right, false) => 'r',
            (Direction::Up, false) => 'u',
            (Direction::Down, false) => 'd',
            (Direction::Left, true) => 'L',
            (Direction::Right, true) => 'R',
            (Direction::Up, true) => 'U',
            (Direction::Down, true) => 'D',
        }
    }

    /// The move described by a character, or the character itself if it describes none.
    pub fn from_char(c: char) -> (r: Result<Move, char>)
        ensures
            r == spec_try_move_of_char(c),
    {
        let direction = if c == 'l' || c == 'L' {
            Direction::Left
        } else if c == 'r' || c == 'R' {
            Direction::Right
        } else if c == 'u' || c == 'U' {
            Direction::Up
        } else if c == 'd' || c == 'D' {
            Direction::Down
        } else {
            return Err(c);
        };
        let push = c == 'L' || c == 'R' || c == 'U' || c == 'D';
        Ok(Move::new(direction, push))
    }
}

impl TryFrom<char> for Move {
    type Error = char;

    fn try_from(c: char) -> (r: Result<Move, char>) {
        Move::from_char(c)
    }
}

impl vstd::std_specs::convert::TryFromSpecImpl<char> for Move {
    open spec fn obeys_try_from_spec() -> bool {
        true
    }

    open spec fn try_from_spec(c: char) -> Result<Move, char> {
        spec_try_move_of_char(c)
    }
}

/// Parse a string representation of moves.
pub fn parse(s: &str) -> (r: Result<Vec<Move>, char>)
    ensures
        match (r, spec_parse_moves(s@)) {
            (Ok(v), Ok(ms)) => v@ == ms,
            (Err(c), Err(d)) => c == d,
            _ => false,
        },
{
    let cs = chars_of(s);
    let n = cs.len();
    let mut moves: Vec<Move> = Vec::new();
    for i in 0..n
        invariant
            n == cs.len(),
            cs@ == s@,
            moves.len() == i,
            forall|j: int| 0 <= j < i ==> spec_move_of_char(#[trigger] cs@[j]) is Some,
            forall|j: int| 0 <= j < i ==> moves@[j] == spec_move_of_char(#[trigger] cs@[j])->0,
    {
        match Move::from_char(cs[i]) {
            Ok(m) => moves.push(m),
            Err(c) => {
                assert(spec_move_of_char(cs@[i as int]) is None);
                let ghost k = first_invalid_move_char(s@);
                assert(exists|k: int|
                    0 <= k < s@.len() && spec_move_of_char(s@[k]) is None && forall|j: int|
                        0 <= j < k ==> spec_move_of_char(#[trigger] s@[j]) is Some) by {
                    assert(0 <= i < s@.len() && spec_move_of_char(s@[i as int]) is None);
                }
                assert(k == i) by {
                    if k < i {
                        assert(spec_move_of_char(cs@[k]) is Some);
                    } else if k > i {
                        assert(spec_move_of_char(s@[i as int]) is Some);
                    }
                }
                return Err(c);
            }
        }
    }
    assert(moves@ =~= Seq::new(s@.len(), |i: int| spec_move_of_char(s@[i])->0));
    Ok(moves)
}

} // verus!

use sokoban::{direction, Direction, DirectionResult, Position, DIRECTIONS};

#[test]
fn from_positions() {
    let pos0 = Position::new(0, 42);
    for &dir in DIRECTIONS.iter() {
        let pos1 = pos0.neighbour(dir);
        assert_eq!(
            direction(pos0, pos1),
            DirectionResult::Neighbour { direction: dir }
        );
        assert_eq!(pos1.neighbour(dir.reverse()), pos0);
    }
    assert_eq!(direction(pos0, pos0), DirectionResult::SamePosition);
    assert_eq!(direction(pos0.left().above(), pos0), DirectionResult::Other);
}

#[test]
fn direction_of_distant_cell_in_a_line() {
    let from = Position::new(3, 3);
    assert_eq!(
        direction(from, Position::new(3, 10)),
        DirectionResult::Neighbour { direction: Direction::Down }
    );
    assert_eq!(
        direction(from, Position::new(0, 3)),
        DirectionResult::Neighbour { direction: Direction::Left }
    );
}

#[test]
fn reverse_twice_is_identity() {
    for &dir in DIRECTIONS.iter() {
        assert_eq!(dir.reverse().reverse(), dir);
        assert_ne!(dir.reverse(), dir);
    }
    assert_eq!(Direction::Up.to_char(), 'u');
}

#[test]
fn position_index_round_trip() {
    let p = Position::new(4, 7);
    let i = p.to_index(10);
    assert_eq!(i, 74);
    assert_eq!(Position::from_index(i, 10), p);
    assert_eq!(p.diff(Position::new(1, 9)), (3, -2));
}

#[test]
fn direction_of_far_positions() {
    let from = Position { x: isize::MAX - 1, y: 3 };
    let to = Position { x: isize::MIN, y: 3 };
    assert_eq!(direction(from, to), DirectionResult::Neighbour { direction: Direction::Left });
    assert_eq!(direction(to, from), DirectionResult::Neighbour { direction: Direction::Right });
    assert_eq!(direction(from, Position { x: 0, y: isize::MIN }), DirectionResult::Other);
    assert_eq!(direction(from, from), DirectionResult::SamePosition);
}

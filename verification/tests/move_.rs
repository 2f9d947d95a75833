use sokoban::direction::DIRECTIONS;
use sokoban::{parse, Direction, Move};
use std::convert::TryFrom;

#[test]
fn to_from() {
    for &dir in &DIRECTIONS {
        let mv = Move::new(dir, true);
        assert_eq!(Ok(mv.clone()), Move::try_from(mv.to_char()));
        let mv = Move::new(dir, false);
        assert_eq!(Ok(mv.clone()), Move::try_from(mv.to_char()));
    }
}

#[test]
fn move__invalid_char() {
    for chr in "abcefghijkmnopqstvwxyz".chars() {
        assert!(Move::try_from(chr).is_err());
    }
}

#[test]
fn parse_str() {
    let s = "UldrdddDddlLrrRRuLulLLUUdrdlduUDLR";
    let moves = parse(s).unwrap();
    let s2: String = moves.into_iter().map(|x| x.to_char()).collect();
    assert_eq!(s, s2);
}

#[test]
fn parse_reports_first_bad_character() {
    assert_eq!(parse("lrXud").unwrap_err(), 'X');
    assert_eq!(parse("").unwrap().len(), 0);
}

#[test]
fn upper_case_pushes() {
    let m = Move::try_from('R').unwrap();
    assert_eq!(m, Move::new(Direction::Right, true));
    assert_eq!(Move::new(Direction::Down, false).to_char(), 'd');
}

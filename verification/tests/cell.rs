use sokoban::cell::{cell_to_char, char_to_cell};
use sokoban::{Background, Cell, Foreground};
use std::convert::TryFrom;

#[test]
fn test_from_char_to_char() {
    let s = " #. @@*$+ +#.";
    assert_eq!(
        s,
        s.chars()
            .map(|c| Cell::try_from(c).unwrap().to_char())
            .collect::<String>()
    );
}

#[test]
fn test_only_valid_chars() {
    let s = "abcdefghijlmopqrstuvwxyzABCDEFLMNOPTUVW24567890\\/_-αμ∈∩\n\r\t\"'<>[](){}";
    for c in s.chars() {
        assert!(Cell::try_from(c).is_err());
    }
    for c in " #.@*$+".chars() {
        assert!(Cell::try_from(c).is_ok());
    }
}

#[test]
fn cell_chars_name_background_and_foreground() {
    assert_eq!(char_to_cell('#'), Some((Background::Wall, Foreground::Nothing)));
    assert_eq!(char_to_cell('*'), Some((Background::Goal, Foreground::Crate)));
    assert_eq!(char_to_cell('+'), Some((Background::Goal, Foreground::Worker)));
    assert_eq!(char_to_cell('$'), Some((Background::Floor, Foreground::Crate)));
    assert_eq!(char_to_cell('x'), None);
    assert_eq!(cell_to_char(Background::Goal, Foreground::Nothing), '.');
    assert_eq!(cell_to_char(Background::Floor, Foreground::Worker), '@');
}

#[test]
fn wall_is_wall() {
    assert!(Background::Wall.is_wall());
    assert!(!Background::Floor.is_wall());
    assert!(!Background::Goal.is_wall());
}

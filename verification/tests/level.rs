use sokoban::current_level::CurrentLevel;
use sokoban::level::{check_level_text, Level};
use sokoban::{Background, Direction, Position, SokobanError};
use sokoban::Direction::{Down, Left, Right, Up};

const ORIGINAL_LEVEL_1: &str = r#"
    #####
    #   #
    #$  #
  ###  $##
  #  $ $ #
### # ## #   ######
#   # ## #####  ..#
# $  $          ..#
##### ### #@##  ..#
    #     #########
    #######
"#;

fn char_to_direction(c: char) -> Direction {
    match c {
        'l' | 'L' => Left,
        'r' | 'R' => Right,
        'u' | 'U' => Up,
        'd' | 'D' => Down,
        _ => panic!("Invalid character"),
    }
}

#[test]
fn test_crate_missing() {
    let s = "@.*.*.";
    let res = Level::parse(0, s);
    assert!(res.is_err());
    assert_eq!(res.unwrap_err().to_string(), "Level #1: #crates - #goals = 3");
}

#[test]
fn test_two_workers() {
    let s = "############\n\
             #..  #     ###\n\
             #.. @# $  $  #\n\
             #..  #$####  #\n\
             #..    @ ##  #\n\
             #..  # #  $ ##\n\
             ###### ##$ $ #\n\
             # $  $ $ $ #\n\
             #    #     #\n\
             ############";
    let res = Level::parse(0, s);
    assert!(res.is_err());
    assert_eq!(res.unwrap_err().to_string(), "More than one worker in level #1");
}

#[test]
fn test_no_workers() {
    let s = "############\n\
             #..  #     ###\n\
             #..  # $  $  #\n\
             #..  #$####  #\n\
             #..    # ##  #\n\
             #..  # #  $ ##\n\
             ###### ##$ $ #\n\
             # $  $ $ $ #\n\
             #    #     #\n\
             ############";
    let res = Level::parse(0, s);
    assert!(res.is_err());
    assert_eq!(res.unwrap_err().to_string(), "No worker in level #1");
}

#[test]
fn test_empty_level() {
    let lvl = Level::parse(0, "");
    assert!(lvl.is_err());
    if let Err(SokobanError::NoLevel(1)) = lvl {
    } else {
        unreachable!();
    }
}

#[test]
fn out_of_bounds_not_interior() {
    let lvl = Level::parse(
        0,
        "#######\n\
         #.$@$.#\n\
         #######\n",
    )
    .unwrap();
    let lvl = CurrentLevel::from(lvl);
    assert!(!lvl.is_interior(Position { x: -1, y: 0 }));
    assert!(!lvl.is_interior(Position { x: 1, y: -3 }));
}

#[test]
fn invalid_character_is_refused_before_parsing() {
    assert!(!check_level_text("#######\n#.$@a #\n#######\n"));
    assert!(check_level_text("#######\n#.$@  #\n#######\n"));
}

#[test]
fn parsed_level_has_grid_crates_and_worker() {
    let lvl = Level::parse(4, "#####\n#@$.#\n#####").unwrap();
    assert_eq!(lvl.rank, 5);
    assert_eq!(lvl.columns, 5);
    assert_eq!(lvl.rows, 3);
    assert_eq!(lvl.crates, vec![Position { x: 2, y: 1 }]);
    assert_eq!(lvl.worker_position, Position { x: 1, y: 1 });
    assert_eq!(lvl.background[8], Background::Goal);
    assert_eq!(lvl.background[6], Background::Floor);
    assert!(lvl.check());
}

#[test]
fn outside_cells_are_empty() {
    let lvl = Level::parse(0, "  ####\n###  #\n#@$ .#\n######").unwrap();
    assert_eq!(lvl.background[0], Background::Empty);
    assert_eq!(lvl.background[1], Background::Empty);
    assert_eq!(lvl.background[2], Background::Wall);
    assert_eq!(lvl.background[10], Background::Floor);
}

#[test]
fn crates_goals_mismatch_counts_missing_crates() {
    let res = Level::parse(2, "#####\n#@..#\n#####");
    assert_eq!(res.unwrap_err().to_string(), "Level #3: #crates - #goals = 2");
    let res = Level::parse(0, "######\n#@$$.#\n######");
    assert_eq!(res.unwrap_err().to_string(), "Level #1: #crates - #goals = -1");
}

#[test]
fn test_simple_moves() {
    let mut lvl: CurrentLevel = Level::parse(0, ORIGINAL_LEVEL_1).unwrap().into();
    assert_eq!(lvl.rows(), 11);
    assert_eq!(lvl.columns(), 19);

    let moves = "ullluuuLUllDlldddrRRRRRRRRRRRRurD\
                 llllllllllllllulldRRRRRRRRRRRRRRR\
                 lllllllluuululldDDuulldddrRRRRRRRRRRRdrUluR\
                 lldlllllluuulLulDDDuulldddrRRRRRRRRRRRurD\
                 lllllllluuulluuulDDDDDuulldddrRRRRRRRRRRR\
                 llllllluuulluuurDDllddddrrruuuLLulDDDuulldddrRRRRRRRRRRdrUluR";
    for (i, mv) in moves.chars().map(char_to_direction).enumerate() {
        assert!(
            !&lvl.try_move(mv).is_err(),
            "Move #{} failed:\n{}\n",
            i,
            lvl.to_string()
        );
    }
    assert!(lvl.is_finished(), "\n{}\n", lvl.to_string());
}

#[test]
fn test_path_finding() {
    let mut lvl: CurrentLevel = Level::parse(0, ORIGINAL_LEVEL_1).unwrap().into();
    for (i, mv) in "ullluuuLUllDlldddrRRRRRRRRRRRRurD\
                    llllllllllllllulldRRRRRRRRRRRRRRR"
        .chars()
        .map(char_to_direction)
        .enumerate()
    {
        assert!(
            !&lvl.try_move(mv).is_err(),
            "Move #{} failed:\n{}\n",
            i,
            lvl.to_string()
        );
    }
    let pos = Position { x: 5, y: 4 };
    let path = lvl.find_path(pos).unwrap();
    lvl.follow_path(path);
    assert_eq!(lvl.worker_position(), pos);

    for (i, mv) in "DDuulldddr".chars().map(char_to_direction).enumerate() {
        assert!(
            !&lvl.try_move(mv).is_err(),
            "Move #{} failed:\n{}\n",
            i,
            lvl.to_string()
        );
    }

    let pos = lvl.worker_position();
    let _ = lvl.move_as_far_as_possible(Right, false);
    assert_eq!(pos, lvl.worker_position());

    let _ = lvl.move_as_far_as_possible(Right, true);
    for (i, mv) in "drUluR\
                    lldlllllluuulLulDDDuulldddrRRRRRRRRRRRurD\
                    lllllllluuulluuulDDDDDuulldddrRRRRRRRRRRR\
                    llllllluuulluuurDDllddddrrruuuLLulDDDuulldddrRRRRRRRRRRdrUluR"
        .chars()
        .map(char_to_direction)
        .enumerate()
    {
        assert!(
            !&lvl.try_move(mv).is_err(),
            "Move #{} failed:\n{}\n",
            i,
            lvl.to_string()
        );
    }

    assert!(lvl.is_finished());
}

#[test]
fn level_to_string_shows_the_start() {
    let text = "  ####\n###  #\n#@$ .#\n######";
    let lvl = Level::parse(0, text).unwrap();
    assert_eq!(lvl.to_string(), text);
    let lvl = Level::parse(0, "#####\n#+*$#\n#####").unwrap();
    assert_eq!(lvl.to_string(), "#####\n#+*$#\n#####");
}

use sokoban::collection::Collection;
use sokoban::command::Command;
use sokoban::event::Event;
use sokoban::game::{Game, NextLevelError, Output};
use sokoban::level::Level;
use sokoban::save::CollectionState;
use sokoban::{Direction, Position};

fn create_game() -> Game {
    const LARGE_EMPTY_LEVEL: &str = r#"
#########################################
#                                    #$.#
#                                    ####
#                                    #
#                                    #
#                                    #
#                                    #
#                                    #
#                                    #
#                                    #
#                                    #
#                                    #
#                                    #
#                                    #
#                                    #
#                                    #
#                 @                  #
#                                    #
#                                    #
#                                    #
#                                    #
#                                    #
#                                    #
#                                    #
#                                    #
#                                    #
#                                    #
#                                    #
#                                    #
#                                    #
#                                    #
#                                    #
#                                    #
######################################
"#;
    const NAME: &str = "Test";
    let lvl = Level::parse(0, LARGE_EMPTY_LEVEL).unwrap();
    let collection = Collection::from_levels(NAME, &[lvl.clone()]);
    Game::new(collection, CollectionState::new(""))
}

fn two_level_game() -> Game {
    let a = Level::parse(0, "######\n#@ $.#\n######").unwrap();
    let b = Level::parse(1, "#####\n#.$@#\n#####").unwrap();
    let collection = Collection::from_levels("Two", &[a, b]);
    Game::new(collection, CollectionState::new("Two"))
}

#[test]
fn test_undo() {
    let mut game = create_game();
    let worker_position = game.worker_position();
    let number_of_moves = game.number_of_moves();

    game.execute_helper(&Command::Step { direction: Direction::Down }, false);
    game.execute_helper(&Command::Undo, false);

    let current_lvl = game.current_level();

    assert_eq!(current_lvl.worker_position(), worker_position);
    assert_eq!(current_lvl.number_of_moves(), number_of_moves);
}

#[test]
fn moves_and_undos_cancel_out() {
    let mut game = create_game();
    let start = game.worker_position();
    let dirs = [Direction::Up, Direction::Up, Direction::Left, Direction::Down, Direction::Right];
    for &direction in dirs.iter() {
        game.execute_helper(&Command::Step { direction }, false);
    }
    assert_eq!(game.number_of_moves(), dirs.len());
    for _ in 0..dirs.len() {
        game.execute_helper(&Command::Undo, false);
    }
    assert_eq!(game.worker_position(), start);
    assert_eq!(game.number_of_moves(), 0);
}

#[test]
fn solving_a_level_reports_and_saves() {
    let mut game = two_level_game();
    let _ = game.take_outputs();
    assert_eq!(game.rank(), 1);
    game.execute_helper(&Command::Step { direction: Direction::Right }, false);
    game.execute_helper(&Command::Step { direction: Direction::Right }, false);
    assert!(game.current_level().is_finished());
    assert!(!game.is_solved());
    let outputs = game.take_outputs();
    assert!(outputs.iter().any(|o| matches!(o, Output::SaveState { report: Some(_) })));
    assert_eq!(game.state.levels.len(), 1);
    assert!(game.state.levels[0].is_finished());
    assert_eq!(game.next_level(), Ok(()));
    assert_eq!(game.rank(), 2);
    assert_eq!(game.worker_position(), Position::new(3, 1));
}

#[test]
fn next_level_needs_a_solved_level() {
    let mut game = two_level_game();
    assert_eq!(game.next_level(), Err(NextLevelError::LevelNotFinished));
    assert_eq!(game.rank(), 1);
    assert!(game.previous_level().is_err());
}

#[test]
fn last_level_has_no_successor() {
    let mut game = two_level_game();
    game.execute_helper(&Command::Step { direction: Direction::Right }, false);
    game.execute_helper(&Command::Step { direction: Direction::Right }, false);
    assert_eq!(game.next_level(), Ok(()));
    assert!(game.is_last_level());
    game.execute_helper(&Command::Step { direction: Direction::Left }, false);
    assert!(game.current_level().is_finished());
    assert_eq!(game.next_level(), Err(NextLevelError::EndOfCollection));
    assert!(game.previous_level().is_ok());
    assert_eq!(game.rank(), 1);
}

#[test]
fn macros_replay_recorded_commands() {
    let mut game = create_game();
    let start = game.worker_position();
    game.execute_helper(&Command::RecordMacro(0), false);
    game.execute_helper(&Command::Step { direction: Direction::Up }, false);
    game.execute_helper(&Command::Step { direction: Direction::Left }, false);
    game.execute_helper(&Command::StoreMacro, false);
    let after_recording = game.worker_position();
    assert_eq!(after_recording, Position { x: start.x - 1, y: start.y - 1 });
    game.execute_helper(&Command::ExecuteMacro(0), false);
    assert_eq!(game.worker_position(), Position { x: start.x - 2, y: start.y - 2 });
    assert_eq!(game.macros.to_string(0), "ul");
}

#[test]
fn reset_level_starts_over() {
    let mut game = create_game();
    let start = game.worker_position();
    game.execute_helper(&Command::Step { direction: Direction::Up }, false);
    game.execute_helper(&Command::ResetLevel, false);
    assert_eq!(game.worker_position(), start);
    assert_eq!(game.number_of_moves(), 0);
    let outputs = game.take_outputs();
    assert!(outputs
        .iter()
        .any(|o| matches!(o, Output::Event(Event::InitialLevelState { .. }))));
}

#[test]
fn walk_to_position_finds_the_way() {
    let mut game = create_game();
    let target = Position::new(3, 30);
    game.execute_helper(&Command::WalkToPosition { position: target }, false);
    assert_eq!(game.worker_position(), target);
    assert_eq!(game.number_of_pushes(), 0);
}

#[test]
fn save_asks_to_write_state() {
    let mut game = create_game();
    let _ = game.take_outputs();
    game.execute_helper(&Command::Step { direction: Direction::Up }, false);
    game.execute_helper(&Command::Save, false);
    let outputs = game.take_outputs();
    assert!(outputs.iter().any(|o| matches!(o, Output::SaveState { report: None })));
    assert_eq!(game.state.levels.len(), 1);
    assert!(!game.state.levels[0].is_finished());
}

#[test]
fn resumes_a_started_level() {
    let a = Level::parse(0, "######\n#@ $.#\n######").unwrap();
    let collection = Collection::from_levels("One", &[a]);
    let mut game = Game::new(collection, CollectionState::new("One"));
    game.execute_helper(&Command::Step { direction: Direction::Right }, false);
    game.execute_helper(&Command::Save, false);
    let state = std::mem::replace(&mut game.state, CollectionState::new("One"));
    let a = Level::parse(0, "######\n#@ $.#\n######").unwrap();
    let collection = Collection::from_levels("One", &[a]);
    assert!(Game::check_setup(&collection, &state));
    let game = Game::new(collection, state);
    assert_eq!(game.number_of_moves(), 1);
    assert_eq!(game.worker_position(), Position::new(2, 1));
}

const ORIGINAL_LEVEL_1: &str = r#"
    #####
    #   #
    #$  #
  ###  $##
  #  $ $ #
### # ## #   ######
#   # ## #####  ..#
# $  $          ..#
##### ### #@##  ..#
    #     #########
    #######
"#;

/// A collection named "original" of fifty levels, each the first level of the original
/// collection.
fn original_game() -> Game {
    let levels: Vec<Level> = (0..50).map(|i| Level::parse(i, ORIGINAL_LEVEL_1).unwrap()).collect();
    let collection = Collection::from_levels("original", &levels);
    let mut game = Game::new(collection, CollectionState::new("original"));
    let _ = game.take_outputs();
    game
}

/// Carry out the command and tell whether it produced events, none of them an error.
fn exec_ok(game: &mut Game, cmd: Command) -> bool {
    game.execute_helper(&cmd, false);
    let mut found_some_event = false;
    for output in game.take_outputs() {
        if let Output::Event(event) = output {
            found_some_event = true;
            if event.is_error() {
                return false;
            }
        }
    }
    found_some_event
}

#[test]
fn load_original() {
    let name = "original";
    let mut game = original_game();
    assert_eq!(game.collection.number_of_levels(), 50);
    assert_eq!(game.collection.short_name(), name);

    assert!(exec_ok(&mut game, Command::Step { direction: Direction::Up }));
    assert!(exec_ok(&mut game, Command::PushTillObstacle { direction: Direction::Left }));
    assert!(!exec_ok(&mut game, Command::Step { direction: Direction::Left }));
    assert!(exec_ok(&mut game, Command::ResetLevel));
    assert!(exec_ok(&mut game, Command::WalkToPosition { position: Position::new(8_usize, 4) }));
    assert_eq!(game.current_level().number_of_moves(), 7);
    assert!(exec_ok(&mut game, Command::Step { direction: Direction::Left }));
    assert_eq!(game.current_level().number_of_pushes(), 1);

    assert_eq!(game.current_level().moves_to_string(), "ullluuuL");

    assert!(exec_ok(&mut game, Command::Undo));

    assert_eq!(game.current_level().all_moves_to_string(), "ullluuuL");
    assert_eq!(game.current_level().moves_to_string(), "ullluuu");
    assert_eq!(game.current_level().number_of_pushes(), 0);
    assert!(exec_ok(&mut game, Command::Redo));
    assert_eq!(game.current_level().number_of_pushes(), 1);
}

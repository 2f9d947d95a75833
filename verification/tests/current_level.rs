use sokoban::current_level::CurrentLevel;
use sokoban::event::Event;
use sokoban::level::Level;
use sokoban::{Direction, Position};
use sokoban::Direction::{Down, Left, Right, Up};

#[test]
fn test_trivial_move_1() {

    let mut lvl: CurrentLevel = Level::parse(
        0,
        "####\n\
         #@ #\n\
         ####\n",
    )
    .unwrap()
    .into();
    assert_eq!(lvl.dynamic.worker_position.x, 1);
    assert_eq!(lvl.dynamic.worker_position.y, 1);

    assert!(lvl.is_empty(Position::new(2, 1)));
    assert!(!lvl.is_empty(Position::new(0, 1)));
    for y in 0..3 {
        for x in 0..4 {
            assert!(!lvl.is_crate(Position::new(x, y)));
        }
    }

    assert!(!&lvl.try_move(Right).is_err());
    assert!(!&lvl.try_move(Left).is_err());
    assert!(&lvl.try_move(Left).is_err());
    assert!(&lvl.try_move(Up).is_err());
    assert!(&lvl.try_move(Down).is_err());
}

#[test]
fn test_trivial_move_2() {
    let mut lvl: CurrentLevel = Level::parse(
        0,
        "#######\n\
         #.$@$.#\n\
         #######\n",
    )
    .unwrap()
    .into();
    assert_eq!(lvl.dynamic.worker_position.x, 3);
    assert_eq!(lvl.dynamic.worker_position.y, 1);
    assert_eq!(lvl.worker_direction(), Left);
    assert!(!&lvl.try_move(Right).is_err());
    assert!(!&lvl.try_move(Left).is_err());
    assert!(!&lvl.try_move(Left).is_err());
    assert!(&lvl.try_move(Up).is_err());
    assert!(&lvl.try_move(Down).is_err());
    assert!(lvl.is_finished());
    assert!(lvl.undo());
    assert!(!lvl.is_finished());
    assert!(!&lvl.try_move(Right).is_err());
    assert_eq!(lvl.worker_direction(), Right);
    assert!(!lvl.redo());
    assert!(!&lvl.try_move(Left).is_err());
    assert!(!&lvl.try_move(Left).is_err());
    assert!(lvl.is_finished());
    assert_eq!(lvl.worker_direction(), Left);
}

#[test]
fn pathfinding_cannot_move_into_wall() {
    let s = "#####\n\
             #@$.#\n\
             #####";
    let sut: CurrentLevel = Level::parse(0, s).unwrap().into();
    let from = Position { x: 2, y: 1 };
    let to = Position { x: 0, y: 0 };
    assert!(sut.find_path_with_crate(from, to).is_none());
}

#[test]
fn pathfinding_fails_when_no_path_exists() {
    let s = "######\n\
             #$#@.#\n\
             ######";
    let sut: CurrentLevel = Level::parse(0, s).unwrap().into();
    let from = Position { x: 1, y: 1 };
    let to = Position { x: 4, y: 1 };
    assert!(sut.find_path_with_crate(from, to).is_none());
}

#[test]
fn pathfinding_find_trivial_path() {
    let s = "#####\n\
             #@$.#\n\
             #####";
    let sut: CurrentLevel = Level::parse(0, s).unwrap().into();
    let from = Position { x: 1, y: 1 };

    assert!(sut.find_path_with_crate(from, from).is_none());
}

#[test]
fn find_simplest_nontrivial_path() {
    let s = "#####\n\
             #@$.#\n\
             #####";
    let sut: CurrentLevel = Level::parse(0, s).unwrap().into();
    let from = Position { x: 2, y: 1 };
    let to = Position { x: 3, y: 1 };

    let path = sut.find_path_with_crate(from, to);

    assert!(path.is_some());
    let path = path.unwrap();
    assert_eq!(path.start, from);
    assert_eq!(path.steps.len(), 1);
    assert_eq!(path.steps[0].direction, Direction::Right);
}

#[test]
fn follow_simple_path() {
    let s = "#########################\n\
             #@$                    .#\n\
             #########################";
    let mut sut: CurrentLevel = Level::parse(0, s).unwrap().into();

    let from = Position { x: 2, y: 1 };
    let to = Position { x: 20, y: 1 };
    let path = sut.find_path_with_crate(from, to).unwrap();

    sut.push_crate_along_path(path);

    assert_eq!(sut.dynamic.worker_position, Position { x: 19, y: 1 });
}

#[test]
fn cannot_move_into_position() {
    let s = "######\n\
             # $.@#\n\
             ######";
    let mut sut: CurrentLevel = Level::parse(0, s).unwrap().into();

    let from = Position { x: 2, y: 1 };
    let to = Position { x: 3, y: 1 };

    let path = sut.find_path_with_crate(from, to).unwrap();

    assert!(sut.push_crate_along_path(path).is_none());
}

#[test]
fn find_not_so_tricky_path() {
    let s = "#####\n\
             ###.#\n\
             #@$ #\n\
             # # #\n\
             #   #\n\
             #####";
    let mut sut: CurrentLevel = Level::parse(0, s).unwrap().into();

    let from = Position { x: 2, y: 2 };
    let to = Position { x: 3, y: 1 };
    let path = sut.find_path_with_crate(from, to).unwrap();

    sut.push_crate_along_path(path);

    assert_eq!(sut.dynamic.worker_position, Position { x: 3, y: 2 });
}

#[test]
fn undo_then_redo_restores_position_and_counts() {
    let mut lvl: CurrentLevel = Level::parse(0, "#######\n#.$@$.#\n#######").unwrap().into();
    assert!(lvl.try_move(Direction::Left).is_ok());
    assert_eq!(lvl.number_of_moves(), 1);
    assert_eq!(lvl.number_of_pushes(), 1);
    assert!(lvl.undo());
    assert_eq!(lvl.worker_position(), Position::new(3, 1));
    assert_eq!(lvl.number_of_moves(), 0);
    assert_eq!(lvl.number_of_pushes(), 0);
    assert!(lvl.redo());
    assert_eq!(lvl.worker_position(), Position::new(2, 1));
    assert_eq!(lvl.crate_positions()[0], Position::new(1, 1));
    assert!(!lvl.redo());
    assert!(lvl.undo());
    assert!(!lvl.undo());
}

#[test]
fn failed_move_leaves_level_unchanged_and_reports() {
    let mut lvl: CurrentLevel = Level::parse(0, "#######\n#@$$..#\n#######").unwrap().into();
    let _ = lvl.take_events();
    assert!(lvl.try_move(Direction::Right).is_err());
    assert_eq!(lvl.worker_position(), Position::new(1, 1));
    assert_eq!(lvl.number_of_moves(), 0);
    assert_eq!(lvl.take_events().len(), 0);
    lvl.step(Direction::Right);
    assert_eq!(lvl.worker_position(), Position::new(1, 1));
    let events = lvl.take_events();
    assert_eq!(events.len(), 1);
    assert!(events[0].is_error());
}

#[test]
fn moves_to_string_tracks_undo() {
    let mut lvl: CurrentLevel = Level::parse(0, "######\n#@ $.#\n######").unwrap().into();
    assert!(lvl.try_move(Direction::Right).is_ok());
    assert!(lvl.try_move(Direction::Right).is_ok());
    assert_eq!(lvl.moves_to_string(), "rR");
    assert!(lvl.is_finished());
    assert!(lvl.undo());
    assert_eq!(lvl.moves_to_string(), "r");
    assert_eq!(lvl.all_moves_to_string(), "rR");
}

#[test]
fn execute_moves_replays_a_solution() {
    let mut lvl: CurrentLevel = Level::parse(0, "######\n#@ $.#\n######").unwrap().into();
    assert!(lvl.execute_moves(2, "rRl").is_ok());
    assert_eq!(lvl.number_of_moves(), 2);
    assert_eq!(lvl.all_moves_to_string(), "rRl");
    assert!(lvl.is_finished());
}

#[test]
fn walking_to_a_position_follows_a_path() {
    let mut lvl: CurrentLevel =
        Level::parse(0, "######\n#@   #\n# ## #\n#  $.#\n######").unwrap().into();
    let target = Position::new(4, 2);
    assert!(lvl.move_to(target, false).is_some());
    assert_eq!(lvl.worker_position(), target);
    assert_eq!(lvl.number_of_pushes(), 0);
    let events = lvl.take_events();
    assert!(events.iter().all(|e| matches!(e, Event::MoveWorker { .. })));
}

#[test]
fn level_to_string_draws_current_state() {
    let mut lvl: CurrentLevel = Level::parse(0, "######\n#@ $.#\n######").unwrap().into();
    assert!(lvl.try_move(Direction::Right).is_ok());
    assert_eq!(lvl.to_string(), "######\n# @$.#\n######");
}

#[test]
fn path_finding_takes_a_shortest_path() {
    let s = "#######\n\
             #@    #\n\
             # ### #\n\
             #  $. #\n\
             #######";
    let mut lvl: CurrentLevel = Level::parse(0, s).unwrap().into();
    let path = lvl.find_path(Position::new(5, 3)).unwrap();
    assert_eq!(path.steps.len(), 6);
    let path = lvl.find_path(Position::new(1, 3)).unwrap();
    assert_eq!(path.steps.len(), 2);
    let _ = lvl.take_events();
    assert!(lvl.find_path(Position::new(0, 0)).is_none());
    let events = lvl.take_events();
    assert!(matches!(events.last(), Some(Event::NoPathFound)));
    assert!(lvl.find_path(Position::new(1, 1)).unwrap().steps.is_empty());
}

#[test]
fn no_path_is_reported() {
    let s = "######\n\
             #@$ .#\n\
             ######";
    let mut lvl: CurrentLevel = Level::parse(0, s).unwrap().into();
    let _ = lvl.take_events();
    assert!(lvl.find_path(Position::new(3, 1)).is_none());
    let events = lvl.take_events();
    assert!(matches!(events.last(), Some(Event::NoPathFound)));
}

#[test]
fn blocked_push_moves_nothing() {
    let s = "######\n\
             # $.@#\n\
             ######";
    let mut sut: CurrentLevel = Level::parse(0, s).unwrap().into();
    let _ = sut.take_events();
    let path = sut.find_path_with_crate(Position { x: 2, y: 1 }, Position { x: 3, y: 1 }).unwrap();
    assert!(sut.push_crate_along_path(path).is_none());
    assert_eq!(sut.worker_position(), Position { x: 4, y: 1 });
    assert_eq!(sut.number_of_moves(), 0);
    assert_eq!(sut.to_string(), "######\n# $.@#\n######");
    let events = sut.take_events();
    assert_eq!(events.len(), 1);
    assert!(matches!(events.last(), Some(Event::NoPathFound)));
}

#[test]
fn crate_is_moved_to_its_target() {
    let s = "#########################\n\
             #@$                    .#\n\
             #########################";
    let mut sut: CurrentLevel = Level::parse(0, s).unwrap().into();
    assert!(sut.move_crate_to_target(Position { x: 2, y: 1 }, Position { x: 20, y: 1 }).is_some());
    assert_eq!(sut.worker_position(), Position { x: 19, y: 1 });
    assert_eq!(
        sut.to_string(),
        "#########################\n#                  @$  .#\n#########################"
    );
}

#[test]
fn walking_towards_a_position_outside_reports_no_path() {
    let mut lvl: CurrentLevel = Level::parse(0, "#####\n#@$.#\n#####").unwrap().into();
    let _ = lvl.take_events();
    assert!(lvl.move_to(Position { x: -7, y: -9 }, false).is_none());
    let events = lvl.take_events();
    assert!(matches!(events.last(), Some(Event::NoPathFound)));
}

#[test]
fn a_level_is_finished_when_every_goal_holds_a_crate() {
    let mut lvl: CurrentLevel = Level::parse(0, "######\n#@$ .#\n######").unwrap().into();
    assert!(!lvl.is_finished());
    assert!(lvl.try_move(Direction::Right).is_ok());
    assert!(!lvl.is_finished());
    assert!(lvl.try_move(Direction::Right).is_ok());
    assert!(lvl.is_finished());
}

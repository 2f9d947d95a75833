use sokoban::current_level::CurrentLevel;
use sokoban::level::Level;
use sokoban::save::{CollectionState, LevelState, SaveError, Solution, StatsOnlyCollectionState, UpdateResponse};
use sokoban::Direction;
use std::convert::TryFrom;

fn solved(moves: usize, pushes: usize) -> LevelState {
    LevelState::Finished {
        least_moves: Solution::new(moves, pushes, "m".to_string()),
        least_pushes: Solution::new(moves, pushes, "p".to_string()),
    }
}

#[test]
fn first_solution_is_first_time_solved() {
    let mut state = CollectionState::new("x");
    assert_eq!(state.update(0, solved(10, 3)), UpdateResponse::FirstTimeSolved);
    assert_eq!(state.number_of_levels(), 1);
    assert_eq!(state.levels_finished(), 1);
}

#[test]
fn better_solution_replaces_worse_one() {
    let mut state = CollectionState::new("x");
    state.update(0, solved(10, 3));
    let resp = state.update(0, solved(8, 4));
    assert_eq!(resp, UpdateResponse::Update { moves: true, pushes: false });
    match &state.levels[0] {
        LevelState::Finished { least_moves, least_pushes } => {
            assert_eq!(least_moves.number_of_moves(), 8);
            assert_eq!(least_pushes.number_of_pushes(), 3);
        }
        _ => panic!("level should be finished"),
    }
}

#[test]
fn unfinished_state_does_not_replace_solution() {
    let mut state = CollectionState::new("x");
    state.update(0, solved(10, 3));
    let resp = state.update(0, LevelState::Started { number_of_moves: 2, moves: "lr".to_string() });
    assert_eq!(resp, UpdateResponse::Update { moves: false, pushes: false });
    assert!(state.levels[0].is_finished());
}

#[test]
fn levels_finished_counts_leading_solved_levels() {
    let mut state = CollectionState::new("x");
    state.update(0, solved(1, 1));
    state.update(1, LevelState::Started { number_of_moves: 0, moves: String::new() });
    assert_eq!(state.levels_finished(), 1);
    state.save();
    assert_eq!(state.levels_solved, 1);
    assert_eq!(state.number_of_solved_levels(), 1);
}

#[test]
fn stats_only_state_counts_solved_levels() {
    let stats = StatsOnlyCollectionState { name: "y".to_string(), collection_solved: false, levels_solved: 7 };
    let state = CollectionState::from_stats(stats);
    assert_eq!(state.number_of_levels(), 0);
    assert_eq!(state.number_of_solved_levels(), 7);
}

#[test]
fn solutions_compare_by_moves_then_pushes() {
    let a = Solution::new(10, 5, "a".to_string());
    let b = Solution::new(10, 4, "b".to_string());
    assert_eq!(a.min_moves(&b).steps(), "b");
    assert_eq!(a.min_pushes(&b).steps(), "b");
    assert!(!a.less_moves(&b));
    assert!(b.less_pushes(&a));
}

#[test]
fn solution_only_of_finished_level() {
    let mut lvl: CurrentLevel = Level::parse(0, "######\n#@ $.#\n######").unwrap().into();
    assert!(Solution::try_from(&lvl).is_err());
    assert!(!LevelState::new_unsolved(&lvl).is_finished());
    assert!(lvl.try_move(Direction::Right).is_ok());
    assert!(lvl.try_move(Direction::Right).is_ok());
    let s = Solution::try_from(&lvl).unwrap();
    assert_eq!(s.number_of_moves(), 2);
    assert_eq!(s.number_of_pushes(), 1);
    assert_eq!(s.steps(), "rR");
    assert!(LevelState::from(&lvl).is_finished());
}

#[test]
fn save_error_messages() {
    assert_eq!(SaveError::FailedToCreateFile("nope".to_string()).to_string(), "Failed to create file: nope");
    assert_eq!(SaveError::CBOREncodeError("bad".to_string()).to_string(), "Failed to create CBOR: bad");
}

#[test]
fn levels_finished_counts_every_finished_level() {
    let mut state = CollectionState::new("x");
    state.update(0, solved(1, 1));
    state.update(1, LevelState::Started { number_of_moves: 0, moves: String::new() });
    state.update(2, solved(2, 1));
    assert_eq!(state.levels_finished(), 2);
}

#[test]
fn worse_solution_is_no_high_score() {
    let mut state = CollectionState::new("x");
    state.update(0, solved(8, 3));
    let resp = state.update(0, solved(10, 4));
    assert_eq!(resp, UpdateResponse::Update { moves: false, pushes: false });
    let resp = state.update(0, solved(7, 2));
    assert_eq!(resp, UpdateResponse::Update { moves: true, pushes: true });
}

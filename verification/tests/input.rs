use sokoban::command::Command;
use sokoban::input::{cell_if_in_bounds, key_to_direction, key_to_num, InputState, Key, Modifiers, MouseButton};
use sokoban::{Direction, Position};

const NONE: Modifiers = Modifiers { ctrl: false, shift: false, alt: false };
const SHIFT: Modifiers = Modifiers { ctrl: false, shift: true, alt: false };
const CTRL: Modifiers = Modifiers { ctrl: true, shift: false, alt: false };
const ALT: Modifiers = Modifiers { ctrl: false, shift: false, alt: true };

#[test]
fn arrow_keys_move() {
    let mut s = InputState::new();
    assert!(matches!(s.press_to_command(Key::Left, NONE), Command::Step { direction: Direction::Left }));
    assert!(matches!(
        s.press_to_command(Key::Up, SHIFT),
        Command::PushTillObstacle { direction: Direction::Up }
    ));
    assert!(matches!(
        s.press_to_command(Key::Down, CTRL),
        Command::WalkTillObstacle { direction: Direction::Down }
    ));
}

#[test]
fn undo_and_redo_keys() {
    let mut s = InputState::new();
    assert!(matches!(s.press_to_command(Key::U, NONE), Command::Undo));
    assert!(matches!(s.press_to_command(Key::U, SHIFT), Command::Redo));
    assert!(matches!(s.press_to_command(Key::Z, CTRL), Command::Undo));
    assert!(matches!(s.press_to_command(Key::Z, NONE), Command::Nothing));
}

#[test]
fn function_keys_record_store_and_execute_macros() {
    let mut s = InputState::new();
    assert!(matches!(s.press_to_command(Key::F3, CTRL), Command::RecordMacro(2)));
    assert!(s.recording_macro);
    assert!(matches!(s.press_to_command(Key::F7, CTRL), Command::StoreMacro));
    assert!(!s.recording_macro);
    assert!(matches!(s.press_to_command(Key::F12, NONE), Command::ExecuteMacro(11)));
    assert_eq!(key_to_num(Key::F1), 0);
    assert_eq!(key_to_direction(Key::Right), Direction::Right);
}

#[test]
fn level_management_keys() {
    let mut s = InputState::new();
    assert!(matches!(s.press_to_command(Key::P, NONE), Command::PreviousLevel));
    assert!(matches!(s.press_to_command(Key::N, NONE), Command::NextLevel));
    assert!(matches!(s.press_to_command(Key::S, CTRL), Command::Save));
    assert!(matches!(s.press_to_command(Key::S, NONE), Command::Nothing));
    assert!(matches!(s.press_to_command(Key::Escape, NONE), Command::ResetLevel));
    assert!(matches!(s.press_to_command(Key::Other, NONE), Command::Nothing));
}

#[test]
fn clicks_walk_or_move_crates() {
    let mut s = InputState::new();
    let worker = Position::new(3, 3);
    let c = s.click_to_command(Some(Position::new(5, 5)), MouseButton::Left, NONE, worker);
    assert!(matches!(c, Command::WalkToPosition { position } if position == Position::new(5, 5)));
    let c = s.click_to_command(None, MouseButton::Left, NONE, worker);
    assert!(matches!(c, Command::Nothing));
    let c = s.click_to_command(Some(Position::new(3, 7)), MouseButton::Right, NONE, worker);
    assert!(matches!(c, Command::PushTowards { position } if position == Position::new(3, 7)));
    let c = s.click_to_command(Some(Position::new(4, 4)), MouseButton::Left, ALT, worker);
    assert!(matches!(c, Command::Nothing));
    assert_eq!(s.clicked_crate, Some(Position::new(4, 4)));
    let c = s.click_to_command(Some(Position::new(6, 4)), MouseButton::Left, ALT, worker);
    assert!(matches!(
        c,
        Command::MoveCrateToTarget { from, to } if from == Position::new(4, 4) && to == Position::new(6, 4)
    ));
    assert_eq!(s.clicked_crate, None);
}

#[test]
fn cells_outside_the_board_are_no_target() {
    assert_eq!(cell_if_in_bounds(-1, 2, 5, 5), None);
    assert_eq!(cell_if_in_bounds(0, 2, 5, 5), None);
    assert_eq!(cell_if_in_bounds(2, 4, 5, 5), None);
    assert_eq!(cell_if_in_bounds(2, 3, 5, 5), Some(Position::new(2, 3)));
}

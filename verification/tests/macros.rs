use sokoban::command::Command;
use sokoban::macros::Macros;
use sokoban::{Direction, Position};

#[test]
fn recording_stores_commands_in_the_slot() {
    let mut m = Macros::new();
    assert_eq!(m.get(3).len(), 0);
    m.start_recording(3);
    assert!(m.push(&Command::Step { direction: Direction::Up }));
    assert!(m.push(&Command::PushTowards { position: Position::new(2, 5) }));
    assert!(m.push(&Command::Undo));
    assert_eq!(m.stop_recording(), 3);
    assert_eq!(m.get(3).len(), 3);
    assert_eq!(m.to_string(3), "u[2, 5]<");
}

#[test]
fn pushing_without_recording_does_nothing() {
    let mut m = Macros::new();
    assert!(!m.push(&Command::Step { direction: Direction::Left }));
    for slot in 0..12u8 {
        assert_eq!(m.get(slot).len(), 0);
    }
}

#[test]
fn command_strings() {
    assert_eq!(Command::WalkTowards { position: Position::new(1, 2) }.to_string(), "(1, 2)");
    assert_eq!(Command::ExecuteMacro(4).to_string(), "@4");
    assert_eq!(
        Command::MoveCrateToTarget { from: Position::new(1, 2), to: Position::new(3, 4) }.to_string(),
        "![(1,2),(3,4)]"
    );
    assert!(Command::Nothing.is_empty());
    assert!(Command::RecordMacro(1).changes_macros());
    assert!(!Command::Redo.changes_macros());
}

use sokoban::event::Event;
use sokoban::save::UpdateResponse;
use sokoban::screen::{animation_speed, direction_to_index, update_response_text, AnimationSpeed, Screen, ScreenState, ScreenUpdate};
use std::collections::VecDeque;
use sokoban::{Background, Direction, Position};

fn screen() -> Screen {
    Screen {
        rank: 1,
        rows: 3,
        columns: 5,
        worker_position: Position::new(1, 1),
        worker_direction: Direction::Left,
        is_last_level: false,
        state: ScreenState::Level,
        need_to_redraw: false,
    }
}

#[test]
fn worker_moves_are_drawn() {
    let mut s = screen();
    let ev = Event::MoveWorker { from: Position::new(1, 1), to: Position::new(2, 1), direction: Direction::Right };
    let (update, moved) = s.handle_response(&ev);
    assert_eq!(update, ScreenUpdate::WorkerMoved { to: Position::new(2, 1), direction: Direction::Right });
    assert!(moved);
    assert!(s.need_to_redraw);
}

#[test]
fn finishing_a_level_starts_the_animation_once() {
    let mut s = screen();
    assert!(!s.level_solved());
    let (update, moved) = s.handle_response(&Event::LevelFinished(UpdateResponse::FirstTimeSolved));
    assert_eq!(update, ScreenUpdate::Solved(UpdateResponse::FirstTimeSolved));
    assert!(!moved);
    assert_eq!(s.state, ScreenState::FinishAnimation);
    assert!(s.level_solved());
    let (update, _) = s.handle_response(&Event::LevelFinished(UpdateResponse::FirstTimeSolved));
    assert_eq!(update, ScreenUpdate::Nothing);
}

#[test]
fn a_new_level_resets_the_screen() {
    let mut s = screen();
    s.state = ScreenState::LevelSolved;
    let ev = Event::InitialLevelState {
        rank: 2,
        columns: 4,
        rows: 3,
        background: vec![Background::Wall; 12],
        worker_position: Position::new(1, 1),
        worker_direction: Direction::Left,
        crates: vec![],
    };
    let (update, moved) = s.handle_response(&ev);
    assert_eq!(update, ScreenUpdate::LevelLoaded);
    assert!(!moved);
    assert_eq!(s.rank, 2);
    assert_eq!(s.columns, 4);
    assert_eq!(s.state, ScreenState::Level);
}

#[test]
fn crate_moves_and_end_of_collection() {
    let mut s = screen();
    let ev = Event::MoveCrate { id: 0, from: Position::new(2, 1), to: Position::new(3, 1) };
    assert_eq!(s.handle_response(&ev), (ScreenUpdate::CrateMoved { id: 0, to: Position::new(3, 1) }, false));
    let (update, _) = s.handle_response(&Event::EndOfCollection);
    assert_eq!(update, ScreenUpdate::Nothing);
    assert!(s.is_last_level);
}

#[test]
fn quarter_turns_per_direction() {
    assert_eq!(direction_to_index(Direction::Left), 0);
    assert_eq!(direction_to_index(Direction::Down), 1);
    assert_eq!(direction_to_index(Direction::Right), 2);
    assert_eq!(direction_to_index(Direction::Up), 3);
}

fn worker_move(x: isize) -> Event {
    Event::MoveWorker {
        from: Position { x: x - 1, y: 1 },
        to: Position { x, y: 1 },
        direction: Direction::Right,
    }
}

#[test]
fn short_queue_shows_one_move_per_frame() {
    let mut s = screen();
    let mut queue: VecDeque<Event> = VecDeque::new();
    queue.push_back(Event::MoveCrate { id: 0, from: Position::new(2, 1), to: Position::new(3, 1) });
    queue.push_back(worker_move(2));
    queue.push_back(worker_move(3));
    let updates = s.handle_responses(&mut queue);
    assert_eq!(updates.len(), 2);
    assert_eq!(updates[0], (ScreenUpdate::CrateMoved { id: 0, to: Position::new(3, 1) }, 2));
    assert_eq!(updates[1].1, 1);
    assert_eq!(queue.len(), 1);
    assert_eq!(s.handle_responses(&mut queue).len(), 1);
    assert_eq!(s.handle_responses(&mut queue).len(), 0);
}

#[test]
fn long_queue_shows_many_moves_per_frame() {
    let mut s = screen();
    let mut queue: VecDeque<Event> = (0..200).map(|i| worker_move(i + 2)).collect();
    let updates = s.handle_responses(&mut queue);
    // Sixteen moves per frame while at least a hundred events are left.
    assert_eq!(updates.len(), 16);
    assert_eq!(queue.len(), 184);
}

#[test]
fn animation_gets_faster_with_longer_queues() {
    assert_eq!(animation_speed(0), AnimationSpeed::Normal);
    assert_eq!(animation_speed(20), AnimationSpeed::Normal);
    assert_eq!(animation_speed(21), AnimationSpeed::Quick);
    assert_eq!(animation_speed(60), AnimationSpeed::Quick);
    assert_eq!(animation_speed(61), AnimationSpeed::Fast);
}

#[test]
fn solved_level_messages() {
    assert_eq!(
        update_response_text(UpdateResponse::Update { moves: true, pushes: false }),
        "Your solution is the best so far in terms of moves!"
    );
    assert_eq!(
        update_response_text(UpdateResponse::Update { moves: false, pushes: false }),
        "Solved the level without creating a new high score."
    );
}

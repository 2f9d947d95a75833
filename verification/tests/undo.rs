use sokoban::Undo;

#[test]
fn empty_should_return_none() {
    let mut sut: Undo<i8> = Undo::new();

    assert_eq!(sut.undo(), None);
    assert_eq!(sut.redo(), None);
}

#[test]
fn undo_should_return_most_recent_action() {
    let mut sut: Undo<u32> = Undo::new();
    sut.record(3);
    sut.record(9);
    let num_actions = sut.actions_performed;
    sut.record(5);
    assert_eq!(sut.actions_performed, num_actions + 1);
    assert_eq!(sut.undo(), Some(&5));
    assert_eq!(sut.actions_performed, num_actions);
}

#[test]
fn redo_should_return_most_recently_undone_action() {
    let mut sut: Undo<u32> = Undo::new();
    sut.record(1);
    sut.record(7);
    let num_actions = sut.actions_performed;
    sut.undo();
    assert_eq!(sut.redo(), Some(&7));
    assert_eq!(sut.actions_performed, num_actions);
}

#[test]
fn record_should_not_truncate_if_identical() {
    let mut sut: Undo<u32> = Undo::new();
    sut.record(4);
    sut.record(8);
    let len = sut.actions.len();
    sut.undo();
    sut.undo();
    sut.record(4);
    assert_eq!(sut.actions.len(), len);
    assert_eq!(sut.actions_performed, 1);
}

#[test]
fn record_should_truncate_if_different() {
    let mut sut: Undo<u32> = Undo::new();
    let (x, y) = (10, 11);
    sut.record(x);
    let num_actions = sut.actions_performed;
    sut.record(y);
    sut.undo();
    sut.undo();
    sut.record(y);
    assert_eq!(sut.actions_performed, num_actions);
    assert_eq!(sut.actions.len(), num_actions);
}

#[test]
fn record_should_redo_if_possible() {
    let mut sut: Undo<u32> = Undo::new();
    let (x, y) = (2, 3);
    sut.record(y);
    let num_actions = sut.actions_performed;
    let len = sut.actions.len();
    sut.record(x);
    sut.undo();
    sut.record(x);
    assert_eq!(sut.actions_performed, num_actions + 1);
    assert_eq!(sut.actions.len(), len + 1);
}

#[test]
fn redo_after_everything_redone_is_none() {
    let mut sut: Undo<u32> = Undo::new();
    sut.record(1);
    assert_eq!(sut.redo(), None);
    assert_eq!(sut.undo(), Some(&1));
    assert_eq!(sut.undo(), None);
}

//! Turning key presses and mouse clicks into commands.
use vstd::prelude::*;

use crate::command::{Command, CommandView};
use crate::direction::Direction;
use crate::position::Position;

verus! {

/// The keys the game reacts to; every other key is `Other`.
#[derive(Debug, Clone, Copy, PartialEq, Eq, Structural)]
pub enum Key {
    Left,
    Right,
    Up,
    Down,
    Z,
    U,
    F1,
    F2,
    F3,
    F4,
    F5,
    F6,
    F7,
    F8,
    F9,
    F10,
    F11,
    F12,
    P,
    N,
    S,
    Escape,
    LAlt,
    LControl,
    LShift,
    LWin,
    RAlt,
    RControl,
    RShift,
    RWin,
    Other,
}

/// Which modifier keys are held.
#[derive(Debug, Clone, Copy, PartialEq, Eq, Structural)]
pub struct Modifiers {
    pub ctrl: bool,
    pub shift: bool,
    pub alt: bool,
}

/// The mouse buttons the game tells apart.
#[derive(Debug, Clone, Copy, PartialEq, Eq, Structural)]
pub enum MouseButton {
    Left,
    Right,
    Other,
}

/// What the input handling remembers between events.
#[derive(Debug, Clone, Copy)]
pub struct InputState {
    /// Is a macro being recorded?
    pub recording_macro: bool,
    /// The crate clicked to be moved, waiting for the click on its target.
    pub clicked_crate: Option<Position>,
}

/// Is the key a function key?
pub open spec fn is_function_key(k: Key) -> bool {
    k is F1 || k is F2 || k is F3 || k is F4 || k is F5 || k is F6 || k is F7 || k is F8 || k is F9
        || k is F10 || k is F11 || k is F12
}

/// The index of a function key in [F1, F2, ..., F12].
pub open spec fn spec_key_to_num(k: Key) -> u8 {
    match k {
        Key::F1 => 0,
        Key::F2 => 1,
        Key::F3 => 2,
        Key::F4 => 3,
        Key::F5 => 4,
        Key::F6 => 5,
        Key::F7 => 6,
        Key::F8 => 7,
        Key::F9 => 8,
        Key::F10 => 9,
        Key::F11 => 10,
        _ => 11,
    }
}

/// Is the key an arrow key?
pub open spec fn is_arrow(k: Key) -> bool {
    k is Left || k is Right || k is Up || k is Down
}

/// The direction of an arrow key.
pub open spec fn spec_key_to_direction(k: Key) -> Direction {
    match k {
        Key::Left => Direction::Left,
        Key::Right => Direction::Right,
        Key::Up => Direction::Up,
        _ => Direction::Down,
    }
}

/// The command a key press asks for, and whether a macro is being recorded afterwards. An arrow
/// key steps; with Shift it pushes as far as possible, with Ctrl it walks as far as possible
/// without pushing. U undoes, Shift+U redoes, and so do Ctrl+Z and Ctrl+Shift+Z. Ctrl and a
/// function key starts recording a macro in that slot, or stores the macro being recorded; a
/// function key alone executes the macro. P, N, Ctrl+S and Escape go to the previous or next
/// level, save, and reset the level.
pub open spec fn spec_press(recording: bool, k: Key, m: Modifiers) -> (bool, CommandView) {
    if is_arrow(k) {
        let direction = spec_key_to_direction(k);
        (
            recording,
            match (m.ctrl, m.shift) {
                (false, false) => CommandView::Step { direction },
                (false, true) => CommandView::PushTillObstacle { direction },
                (true, false) => CommandView::WalkTillObstacle { direction },
                (true, true) => CommandView::Nothing,
            },
        )
    } else if (k is Z && !m.ctrl) || (k is U && m.ctrl) {
        (recording, CommandView::Nothing)
    } else if k is U || k is Z {
        (recording, if m.shift { CommandView::Redo } else { CommandView::Undo })
    } else if is_function_key(k) {
        let n = spec_key_to_num(k);
        if recording && m.ctrl {
            (false, CommandView::StoreMacro)
        } else if m.ctrl {
            (true, CommandView::RecordMacro(n))
        } else {
            (recording, CommandView::ExecuteMacro(n))
        }
    } else if k is P {
        (recording, CommandView::PreviousLevel)
    } else if k is N {
        (recording, CommandView::NextLevel)
    } else if k is S && m.ctrl {
        (recording, CommandView::Save)
    } else if k is Escape {
        (recording, CommandView::ResetLevel)
    } else {
        (recording, CommandView::Nothing)
    }
}

/// Ctrl+Z undoes and Ctrl+Shift+Z redoes, as U and Shift+U do: with Ctrl held, Z redoes exactly
/// when Shift is held and undoes otherwise, and it gives the same command as U without Ctrl
/// under the same Shift; neither changes whether a macro is being recorded. Z without Ctrl and
/// Ctrl+U ask for nothing.
pub proof fn lemma_undo_redo_keys(recording: bool, shift: bool, alt: bool)
    ensures
        ({
            let z = spec_press(recording, Key::Z, Modifiers { ctrl: true, shift, alt });
            let u = spec_press(recording, Key::U, Modifiers { ctrl: false, shift, alt });
            &&& (z.1 == CommandView::Redo) <==> shift
            &&& (z.1 == CommandView::Undo) <==> !shift
            &&& z == u
            &&& z.0 == recording
            &&& spec_press(recording, Key::Z, Modifiers { ctrl: false, shift, alt }) == (
                recording,
                CommandView::Nothing,
            )
            &&& spec_press(recording, Key::U, Modifiers { ctrl: true, shift, alt }) == (
                recording,
                CommandView::Nothing,
            )
        }),
{
}

/// Map Fn key to their index in [F1, F2, ..., F12].
pub fn key_to_num(key: Key) -> (r: u8)
    requires
        is_function_key(key),
    ensures
        r == spec_key_to_num(key),
        r < 12,
{
    match key {
        Key::F1 => 0,
        Key::F2 => 1,
        Key::F3 => 2,
        Key::F4 => 3,
        Key::F5 => 4,
        Key::F6 => 5,
        Key::F7 => 6,
        Key::F8 => 7,
        Key::F9 => 8,
        Key::F10 => 9,
        Key::F11 => 10,
        _ => 11,
    }
}

/// Map arrow keys to the corresponding directions.
pub fn key_to_direction(key: Key) -> (r: Direction)
    requires
        is_arrow(key),
    ensures
        r == spec_key_to_direction(key),
{
    match key {
        Key::Left => Direction::Left,
        Key::Right => Direction::Right,
        Key::Up => Direction::Up,
        _ => Direction::Down,
    }
}

/// The command a click on a cell asks for, and the crate clicked afterwards. Alt and the left
/// button pick a crate, then its target; otherwise a cell in the worker's row or column is walked
/// to (pushing crates with the right button), and any other cell is reached by path finding
/// (with the left button only).
pub open spec fn spec_click(
    clicked: Option<Position>,
    target: Position,
    button: MouseButton,
    m: Modifiers,
    worker: Position,
) -> (Option<Position>, CommandView) {
    if button == MouseButton::Left && m.alt {
        match clicked {
            Some(from) => (None, CommandView::MoveCrateToTarget { from, to: target }),
            None => (Some(target), CommandView::Nothing),
        }
    } else {
        let same_row_or_column = target.x == worker.x || target.y == worker.y;
        let can_move_crate = button == MouseButton::Right;
        (
            clicked,
            match (same_row_or_column, can_move_crate) {
                (true, true) => CommandView::PushTowards { position: target },
                (true, false) => CommandView::WalkTowards { position: target },
                (false, false) => CommandView::WalkToPosition { position: target },
                (false, true) => CommandView::Nothing,
            },
        )
    }
}

/// The cell at the given coordinates, if it lies inside the border of a board of the given size.
pub fn cell_if_in_bounds(x: isize, y: isize, columns: usize, rows: usize) -> (r: Option<Position>)
    requires
        columns <= isize::MAX,
        rows <= isize::MAX,
    ensures
        r == if x > 0 && y > 0 && x < columns - 1 && y < rows - 1 {
            Some(Position { x, y })
        } else {
            None
        },
{
    if x > 0 && y > 0 && x < columns as isize - 1 && y < rows as isize - 1 {
        Some(Position { x, y })
    } else {
        None
    }
}

impl InputState {
    pub fn new() -> (r: Self)
        ensures
            !r.recording_macro,
            r.clicked_crate is None,
    {
        InputState { recording_macro: false, clicked_crate: None }
    }

    /// Handle key press events.
    pub fn press_to_command(&mut self, key: Key, modifiers: Modifiers) -> (r: Command)
        ensures
            (final(self).recording_macro, r@) == spec_press(
                old(self).recording_macro,
                key,
                modifiers,
            ),
            final(self).clicked_crate == old(self).clicked_crate,
    {
        let is_arrow = match key {
            Key::Left | Key::Right | Key::Up | Key::Down => true,
            _ => false,
        };
        let is_f = match key {
            Key::F1 | Key::F2 | Key::F3 | Key::F4 | Key::F5 | Key::F6 | Key::F7 | Key::F8
            | Key::F9 | Key::F10 | Key::F11 | Key::F12 => true,
            _ => false,
        };
        if is_arrow {
            let direction = key_to_direction(key);
            if !modifiers.ctrl && !modifiers.shift {
                Command::Step { direction }
            } else if !modifiers.ctrl {
                Command::PushTillObstacle { direction }
            } else if !modifiers.shift {
                Command::WalkTillObstacle { direction }
            } else {
                Command::Nothing
            }
        } else if (key == Key::Z && !modifiers.ctrl) || (key == Key::U && modifiers.ctrl) {
            Command::Nothing
        } else if key == Key::U || key == Key::Z {
            if modifiers.shift {
                Command::Redo
            } else {
                Command::Undo
            }
        } else if is_f {
            let n = key_to_num(key);
            if self.recording_macro && modifiers.ctrl {
                self.recording_macro = false;
                Command::StoreMacro
            } else if modifiers.ctrl {
                self.recording_macro = true;
                Command::RecordMacro(n)
            } else {
                Command::ExecuteMacro(n)
            }
        } else if key == Key::P {
            Command::PreviousLevel
        } else if key == Key::N {
            Command::NextLevel
        } else if key == Key::S && modifiers.ctrl {
            Command::Save
        } else if key == Key::Escape {
            Command::ResetLevel
        } else {
            Command::Nothing
        }
    }

    /// Handle a click on a cell of the board (the caller turns the cursor position into the
    /// cell, if it is one inside the border).
    pub fn click_to_command(
        &mut self,
        target: Option<Position>,
        mouse_button: MouseButton,
        modifiers: Modifiers,
        worker: Position,
    ) -> (r: Command)
        ensures
            match target {
                Some(t) => (final(self).clicked_crate, r@) == spec_click(
                    old(self).clicked_crate,
                    t,
                    mouse_button,
                    modifiers,
                    worker,
                ),
                None => r@ is Nothing && final(self).clicked_crate == old(self).clicked_crate,
            },
            final(self).recording_macro == old(self).recording_macro,
    {
        match target {
            None => Command::Nothing,
            Some(target) => {
                if mouse_button == MouseButton::Left && modifiers.alt {
                    match self.clicked_crate {
                        Some(from) => {
                            self.clicked_crate = None;
                            Command::MoveCrateToTarget { from, to: target }
                        },
                        None => {
                            self.clicked_crate = Some(target);
                            Command::Nothing
                        },
                    }
                } else {
                    let same_row_or_column = target.x == worker.x || target.y == worker.y;
                    let can_move_crate = mouse_button == MouseButton::Right;
                    match (same_row_or_column, can_move_crate) {
                        (true, true) => Command::PushTowards { position: target },
                        (true, false) => Command::WalkTowards { position: target },
                        (false, false) => Command::WalkToPosition { position: target },
                        (false, true) => Command::Nothing,
                    }
                }
            },
        }
    }
}

} // verus!

use vstd::prelude::*;

use crate::direction::{Direction, spec_direction_char};
use crate::position::Position;
use crate::text::{push_decimal, push_signed_decimal, decimal, signed_decimal};

verus! {

/// Anything the user can ask the back end to do.
#[derive(Debug)]
pub enum Command {
    /// Do not do anything. This exists solely to eliminate the need of using Option<Command>.
    Nothing,
    /// Move one step in the given direction if possible. This may involve pushing a crate.
    Step { direction: Direction },
    /// Move as far as possible in the given direction without pushing crates.
    WalkTillObstacle { direction: Direction },
    /// Push a crate as far as possible in the given direction.
    PushTillObstacle { direction: Direction },
    /// Walk straight towards `position` until the worker is there or hits an obstacle.
    WalkTowards { position: Position },
    /// Push a crate straight towards `position` until the worker is there or the crate hits an
    /// obstacle.
    PushTowards { position: Position },
    /// Walk to the given position, no matter where the path takes the worker, i.e. general path
    /// finding without moving any crates.
    WalkToPosition { position: Position },
    /// Try to push the crate at position `from` to position `to`.
    MoveCrateToTarget { from: Position, to: Position },
    /// Undo the previous move.
    Undo,
    /// Redo a move previously undone.
    Redo,
    /// Reset the current level
    ResetLevel,
    /// Go to the next level in the current collection if the current level has been solved.
    NextLevel,
    /// Go back a level.
    PreviousLevel,
    /// Save the current level’s solution if the level is solved, otherwise save the current state.
    Save,
    /// Switch to the level collection with the given name.
    LoadCollection(String),
    /// Start recording a macro to the given slot.
    RecordMacro(u8),
    /// Stop recording a macro and store the result.
    StoreMacro,
    /// Execute the macro stored in the given slot.
    ExecuteMacro(u8),
}

/// A command as a mathematical value: the name of a collection is its sequence of characters.
pub enum CommandView {
    Nothing,
    Step { direction: Direction },
    WalkTillObstacle { direction: Direction },
    PushTillObstacle { direction: Direction },
    WalkTowards { position: Position },
    PushTowards { position: Position },
    WalkToPosition { position: Position },
    MoveCrateToTarget { from: Position, to: Position },
    Undo,
    Redo,
    ResetLevel,
    NextLevel,
    PreviousLevel,
    Save,
    LoadCollection(Seq<char>),
    RecordMacro(u8),
    StoreMacro,
    ExecuteMacro(u8),
}

impl View for Command {
    type V = CommandView;

    open spec fn view(&self) -> CommandView {
        match self {
            Command::Nothing => CommandView::Nothing,
            Command::Step { direction } => CommandView::Step { direction: *direction },
            Command::WalkTillObstacle { direction } => CommandView::WalkTillObstacle {
                direction: *direction,
            },
            Command::PushTillObstacle { direction } => CommandView::PushTillObstacle {
                direction: *direction,
            },
            Command::WalkTowards { position } => CommandView::WalkTowards { position: *position },
            Command::PushTowards { position } => CommandView::PushTowards { position: *position },
            Command::WalkToPosition { position } => CommandView::WalkToPosition {
                position: *position,
            },
            Command::MoveCrateToTarget { from, to } => CommandView::MoveCrateToTarget {
                from: *from,
                to: *to,
            },
            Command::Undo => CommandView::Undo,
            Command::Redo => CommandView::Redo,
            Command::ResetLevel => CommandView::ResetLevel,
            Command::NextLevel => CommandView::NextLevel,
            Command::PreviousLevel => CommandView::PreviousLevel,
            Command::Save => CommandView::Save,
            Command::LoadCollection(name) => CommandView::LoadCollection(name@),
            Command::RecordMacro(slot) => CommandView::RecordMacro(*slot),
            Command::StoreMacro => CommandView::StoreMacro,
            Command::ExecuteMacro(slot) => CommandView::ExecuteMacro(*slot),
        }
    }
}

impl Clone for Command {
    fn clone(&self) -> (r: Self)
        ensures
            r@ == self@,
    {
        match self {
            Command::Nothing => Command::Nothing,
            Command::Step { direction } => Command::Step { direction: *direction },
            Command::WalkTillObstacle { direction } => Command::WalkTillObstacle {
                direction: *direction,
            },
            Command::PushTillObstacle { direction } => Command::PushTillObstacle {
                direction: *direction,
            },
            Command::WalkTowards { position } => Command::WalkTowards { position: *position },
            Command::PushTowards { position } => Command::PushTowards { position: *position },
            Command::WalkToPosition { position } => Command::WalkToPosition {
                position: *position,
            },
            Command::MoveCrateToTarget { from, to } => Command::MoveCrateToTarget {
                from: *from,
                to: *to,
            },
            Command::Undo => Command::Undo,
            Command::Redo => Command::Redo,
            Command::ResetLevel => Command::ResetLevel,
            Command::NextLevel => Command::NextLevel,
            Command::PreviousLevel => Command::PreviousLevel,
            Command::Save => Command::Save,
            Command::LoadCollection(name) => Command::LoadCollection(name.clone()),
            Command::RecordMacro(slot) => Command::RecordMacro(*slot),
            Command::StoreMacro => Command::StoreMacro,
            Command::ExecuteMacro(slot) => Command::ExecuteMacro(*slot),
        }
    }
}

/// Commands that change the collection of macros.
pub open spec fn spec_changes_macros(c: CommandView) -> bool {
    c is RecordMacro || c is StoreMacro
}

/// Commands that have a textual form inside a macro listing: the movements and executing a
/// macro.
pub open spec fn is_printable(c: CommandView) -> bool {
    !(c is Nothing || c is ResetLevel || c is NextLevel || c is PreviousLevel || c is Save
        || c is LoadCollection || c is RecordMacro || c is StoreMacro)
}

/// "(x, y)" or "[x, y]" for a position, depending on the brackets given.
pub open spec fn bracketed(open: char, p: Position, close: char) -> Seq<char> {
    seq![open] + signed_decimal(p.x as int) + seq![',', ' '] + signed_decimal(p.y as int) + seq![
        close,
    ]
}

/// The textual form of a (printable) command.
pub open spec fn spec_command_string(c: CommandView) -> Seq<char> {
    match c {
        CommandView::Step { direction } => seq![spec_direction_char(direction)],
        CommandView::PushTillObstacle { direction } => seq!['_', spec_direction_char(direction)],
        CommandView::WalkTillObstacle { direction } => seq!['_', spec_direction_char(direction)],
        CommandView::PushTowards { position } => bracketed('[', position, ']'),
        CommandView::WalkTowards { position } => bracketed('(', position, ')'),
        CommandView::WalkToPosition { position } => bracketed('(', position, ')'),
        CommandView::MoveCrateToTarget { from, to } => seq!['!', '['] + seq!['('] + signed_decimal(
            from.x as int,
        ) + seq![','] + signed_decimal(from.y as int) + seq![')', ',', '('] + signed_decimal(
            to.x as int,
        ) + seq![','] + signed_decimal(to.y as int) + seq![')', ']'],
        CommandView::Undo => seq!['<'],
        CommandView::Redo => seq!['>'],
        CommandView::ExecuteMacro(slot) => seq!['@'] + decimal(slot as nat),
        _ => Seq::empty(),
    }
}

fn push_bracketed(s: &mut String, open: char, p: Position, close: char)
    ensures
        final(s)@ == old(s)@ + bracketed(open, p, close),
{
    s.push(open);
    push_signed_decimal(s, p.x);
    s.push(',');
    s.push(' ');
    push_signed_decimal(s, p.y);
    s.push(close);
    assert(final(s)@ =~= old(s)@ + bracketed(open, p, close));
}

impl Command {
    /// Does this command change the collection of macros, i.e. cannot be safely recorded in a
    /// macro?
    pub fn changes_macros(&self) -> (r: bool)
        ensures
            r == spec_changes_macros(self@),
    {
        match *self {
            Command::RecordMacro(_) | Command::StoreMacro => true,
            _ => false,
        }
    }

    pub fn is_empty(&self) -> (r: bool)
        ensures
            r == (self@ is Nothing),
    {
        match *self {
            Command::Nothing => true,
            _ => false,
        }
    }

    /// The textual form of a movement or of the execution of a macro.
    pub fn to_string(&self) -> (s: String)
        requires
            is_printable(self@),
        ensures
            s@ == spec_command_string(self@),
    {
        let mut s = String::new();
        match self {
            Command::Step { direction } => s.push(direction.to_char()),
            Command::PushTillObstacle { direction } => {
                s.push('_');
                s.push(direction.to_char());
            },
            Command::WalkTillObstacle { direction } => {
                s.push('_');
                s.push(direction.to_char());
            },
            Command::PushTowards { position } => push_bracketed(&mut s, '[', *position, ']'),
            Command::WalkTowards { position } => push_bracketed(&mut s, '(', *position, ')'),
            Command::WalkToPosition { position } => push_bracketed(&mut s, '(', *position, ')'),
            Command::MoveCrateToTarget { from, to } => {
                s.push('!');
                s.push('[');
                s.push('(');
                push_signed_decimal(&mut s, from.x);
                s.push(',');
                push_signed_decimal(&mut s, from.y);
                s.push(')');
                s.push(',');
                s.push('(');
                push_signed_decimal(&mut s, to.x);
                s.push(',');
                push_signed_decimal(&mut s, to.y);
                s.push(')');
                s.push(']');
            },
            Command::Undo => s.push('<'),
            Command::Redo => s.push('>'),
            Command::ExecuteMacro(slot) => {
                s.push('@');
                push_decimal(&mut s, *slot as u64);
            },
            _ => {},
        }
        assert(s@ =~= spec_command_string(self@));
        s
    }
}

/// Did the player try to move a crate?
#[derive(Clone, Debug)]
pub struct WithCrate(pub bool);

/// What blocked a movement?
#[derive(Clone, Copy, Debug, PartialEq, Eq, Structural)]
pub enum Obstacle {
    Wall,
    Crate,
}

} // verus!

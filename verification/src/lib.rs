//! A Sokoban game engine: level parsing, movement rules, undo and redo, path finding, macros and
//! the bookkeeping of solved levels.
#![allow(unused_imports)]

use vstd::prelude::*;

pub mod position;
pub mod direction;

pub use crate::position::Position;
pub use crate::direction::{direction, Direction, DirectionResult, DIRECTIONS};
pub mod text;
pub mod move_;
pub use crate::move_::{parse, Move};
pub mod cell;
pub use crate::cell::{Background, Cell, Foreground, TryFromCellError};
pub mod command;
pub use crate::command::{Command, Obstacle, WithCrate};
pub mod undo;
pub use crate::undo::Undo;
pub mod util;
pub use crate::util::{SokobanError, TITLE};
pub mod level;
pub mod grid;
pub mod current_level;
pub mod save;
pub mod event;
pub mod collection;
pub mod macros;
pub mod game;
pub mod input;
pub mod screen;
pub mod picture;
pub mod stats;
pub use crate::event::Event;

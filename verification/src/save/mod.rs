//! On-disc structures for storing which levels have been solved and the best solutions so far.
use vstd::prelude::*;

pub mod solution;
pub mod level_state;
pub mod collection_state;

pub use crate::save::solution::Solution;
pub use crate::save::level_state::LevelState;
pub use crate::save::collection_state::{CollectionState, StatsOnlyCollectionState};

verus! {

/// How a solved level compares to the solutions stored before.
#[derive(Debug, Clone, Copy, PartialEq, Eq, Structural)]
pub enum UpdateResponse {
    FirstTimeSolved,
    Update { moves: bool, pushes: bool },
}

/// Why the state of a collection could not be saved.
#[derive(Debug)]
pub enum SaveError {
    FailedToCreateFile(String),
    CBOREncodeError(String),
}

/// The message describing a save error.
pub open spec fn spec_save_error_message(e: SaveError) -> Seq<char> {
    match e {
        SaveError::FailedToCreateFile(s) => "Failed to create file: "@ + s@,
        SaveError::CBOREncodeError(s) => "Failed to create CBOR: "@ + s@,
    }
}

impl SaveError {
    /// The message describing this error.
    pub fn to_string(&self) -> (s: String)
        ensures
            s@ == spec_save_error_message(*self),
    {
        let mut s = String::new();
        match self {
            SaveError::FailedToCreateFile(m) => {
                s.append("Failed to create file: ");
                s.append(m.as_str());
            },
            SaveError::CBOREncodeError(m) => {
                s.append("Failed to create CBOR: ");
                s.append(m.as_str());
            },
        }
        s
    }
}

} // verus!

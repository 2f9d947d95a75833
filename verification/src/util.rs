use vstd::prelude::*;

use crate::text::{push_decimal, push_signed_decimal, decimal, signed_decimal, string_of};

verus! {

pub const TITLE: &'static str = "Sokoban";

#[derive(Debug)]
pub enum SokobanError {
    IoError(String),
    XmlError(String),
    NoWorker(usize),
    TwoWorkers(usize),
    CratesGoalsMismatch(usize, i32),
    NoLevel(usize),
}

/// The message describing an error.
pub open spec fn spec_error_message(e: SokobanError) -> Seq<char> {
    match e {
        SokobanError::IoError(s) => "I/O error: "@ + s@,
        SokobanError::XmlError(s) => "XML error: "@ + s@,
        SokobanError::NoWorker(n) => "No worker in level #"@ + decimal(n as nat),
        SokobanError::TwoWorkers(n) => "More than one worker in level #"@ + decimal(n as nat),
        SokobanError::CratesGoalsMismatch(n, d) => "Level #"@ + decimal(n as nat)
            + ": #crates - #goals = "@ + signed_decimal(d as int),
        SokobanError::NoLevel(n) => "Empty description for level #"@ + decimal(n as nat),
    }
}

impl SokobanError {
    /// The message describing this error.
    pub fn to_string(&self) -> (s: String)
        ensures
            s@ == spec_error_message(*self),
    {
        let mut s = String::new();
        match self {
            SokobanError::IoError(m) => {
                s.append("I/O error: ");
                s.append(m.as_str());
            },
            SokobanError::XmlError(m) => {
                s.append("XML error: ");
                s.append(m.as_str());
            },
            SokobanError::NoWorker(n) => {
                s.append("No worker in level #");
                push_decimal(&mut s, *n as u64);
            },
            SokobanError::TwoWorkers(n) => {
                s.append("More than one worker in level #");
                push_decimal(&mut s, *n as u64);
            },
            SokobanError::CratesGoalsMismatch(n, d) => {
                s.append("Level #");
                push_decimal(&mut s, *n as u64);
                s.append(": #crates - #goals = ");
                push_signed_decimal(&mut s, *d as isize);
            },
            SokobanError::NoLevel(n) => {
                s.append("Empty description for level #");
                push_decimal(&mut s, *n as u64);
            },
        }
        s
    }
}

} // verus!

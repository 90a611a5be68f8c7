//! The cliff guard's verdict vocabulary: what kind of drop a beam saw,
//! and whether the depth stream is there at all.

use vstd::prelude::*;

verus! {

/// What a beam that missed the floor saw.
#[derive(Debug, Clone, Copy, PartialEq, Eq, Structural)]
pub enum DropKind {
    /// No return where the floor should have been.
    Missing,
    /// A return well beyond the floor: something lower than the floor.
    Deep,
}

/// Whether the depth stream is there at all.
#[derive(Debug, Clone, PartialEq, Eq, Default)]
pub enum StreamState {
    #[default]
    Unknown,
    Serving,
    /// tofd answered but has no sensor (its own word for why).
    Unavailable(String),
}

/// The stream's state after tofd acknowledged `tof.stream`: serving,
/// unless it said why it cannot.
pub fn stream_state(unavailable: Option<String>) -> (s: StreamState)
    ensures
        match unavailable {
            Some(why) => s == StreamState::Unavailable(why),
            None => s == StreamState::Serving,
        },
{
    match unavailable {
        Some(why) => StreamState::Unavailable(why),
        None => StreamState::Serving,
    }
}

} // verus!

//! Change kinds and the net action they reduce to.

use vstd::prelude::*;

verus! {

/// What a change notification says happened to a path.
#[derive(Clone, Copy, Debug, PartialEq, Eq, Structural)]
pub enum EventKind {
    Created,
    Modified,
    Removed,
    Other,
}

/// The single net action decided for a path.
#[derive(Clone, Copy, Debug, PartialEq, Eq, Structural)]
pub enum Intent {
    Transfer,
    Delete,
    NoOp,
}

/// The action that one change kind asks for on its own.
pub open spec fn candidate(kind: EventKind) -> Intent {
    match kind {
        EventKind::Created | EventKind::Modified => Intent::Transfer,
        EventKind::Removed => Intent::Delete,
        EventKind::Other => Intent::NoOp,
    }
}

/// Whether a kind is one that the engine acts on: a creation, a
/// modification or a removal.
pub open spec fn of_interest(kind: EventKind) -> bool {
    kind != EventKind::Other
}

impl EventKind {
    /// Whether the engine acts on this kind; notifications of other kinds
    /// are dropped before they reach it.
    pub fn is_of_interest(self) -> (r: bool)
        ensures
            r == of_interest(self),
    {
        match self {
            EventKind::Other => false,
            _ => true,
        }
    }

    /// The action that this kind asks for on its own.
    pub fn candidate(self) -> (r: Intent)
        ensures
            r == candidate(self),
    {
        match self {
            EventKind::Created | EventKind::Modified => Intent::Transfer,
            EventKind::Removed => Intent::Delete,
            EventKind::Other => Intent::NoOp,
        }
    }
}

} // verus!

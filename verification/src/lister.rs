//! The live sessions a menu offers beside files and the roster, as whoever
//! lists them reports them.

use vstd::prelude::*;

verus! {

/// What answering a live session's health came back as.
#[derive(Clone, Copy, Debug, PartialEq, Eq, Structural)]
pub enum Health {
    /// The far side answered, and named itself.
    Answered,
    /// The name's lock is held, but nothing answered: held is live, whatever
    /// the silence.
    Held,
    /// Something answered, but not with an identity to trust.
    Unreadable,
}

/// Where a session's name came from.
#[derive(Clone, Copy, Debug, PartialEq, Eq, Structural)]
pub enum NameSource {
    /// The person chose it.
    User,
    /// It was derived from the project's directory.
    Derived,
}

/// One live session.
#[derive(Clone, Debug, PartialEq, Eq)]
pub struct LiveSession {
    /// The name as that session's registration typed it.
    pub name: String,
    pub name_source: NameSource,
    /// The full id the session runs under.
    pub session_id: String,
    /// Its socket stem, which tells it from others of its name.
    pub stem: String,
    /// The socket it bound.
    pub socket: String,
    /// The directory it was launched in.
    pub cwd: String,
    pub health: Health,
}

/// What a listing came back with.
#[derive(Clone, Debug, PartialEq, Eq)]
pub enum Listing {
    /// Every live session answered for.
    Complete(Vec<LiveSession>),
    /// Some rows are missing, and why.
    Partial { rows: Vec<LiveSession>, error: String },
}

impl Listing {
    /// The rows there are, and whether others are missing.
    pub fn rows(&self) -> (r: (&Vec<LiveSession>, bool))
        ensures
            match *self {
                Listing::Complete(rows) => *r.0 == rows && !r.1,
                Listing::Partial { rows, error } => *r.0 == rows && r.1,
            },
    {
        match self {
            Listing::Complete(rows) => (rows, false),
            Listing::Partial { rows, .. } => (rows, true),
        }
    }
}

} // verus!

//! Caller-supplied input for rewording commit messages.
//!
//! The surrounding tool lets a user rewrite the messages of selected
//! commits; the rewritten history is then grafted together with the
//! tree engine of this crate. This type carries what the user asked
//! for on the way in.

use vstd::prelude::*;

verus! {

/// The commit message(s) provided by the user.
#[derive(Debug)]
pub enum InitialCommitMessages {
    /// The user wants to start with an empty (or template) message.
    Discard,
    /// The user provided explicit messages.
    Messages(Vec<String>),
}

impl InitialCommitMessages {
    /// Whether the user asked for the existing messages to be
    /// discarded rather than edited.
    pub fn is_discard(&self) -> (r: bool)
        ensures
            r == (self is Discard),
    {
        match self {
            InitialCommitMessages::Discard => true,
            InitialCommitMessages::Messages(_) => false,
        }
    }
}

} // verus!

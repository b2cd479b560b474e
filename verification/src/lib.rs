//! An offline-first flashcard and quiz backend: an entity store for
//! decks, cards, tags, quizzes, questions, choices, attempts, study
//! sessions and local profiles; a sync-status state machine with a
//! queue that replays offline creations against a remote server; a
//! grading engine for quiz submissions; and statistics rollups over
//! attempts and sessions. Every operation carries a contract over a
//! mathematical view of the store, and the store's relational
//! invariants are maintained by proof.
pub mod models;
pub mod profile;
pub mod bundles;
pub mod capability;
pub mod grading;
pub mod store;
pub mod sync;
pub mod text;

use vstd::prelude::*;

verus! {

/// Content type assigned to a card side or question body when the caller
/// does not name one.
pub fn default_content_type() -> (r: String)
    ensures
        r@ == "TEXT"@,
{
    "TEXT".to_owned()
}

} // verus!

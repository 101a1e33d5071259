//! Interactive fuzzy search over a list of free-text records (shell-history
//! entries): a scorer that turns a (candidate, query) pair into a relevance
//! signal, a ranker that sorts, deduplicates and truncates the candidates on
//! every query change, and a session state machine that maps key events to
//! query edits, re-ranks and render snapshots.
use vstd::prelude::*;

pub mod matcher;
pub mod ranker;
pub mod record;
pub mod session;
pub mod text;

verus! {

pub use crate::ranker::Finder;
pub use crate::record::Command;
pub use crate::record::Errors;
pub use crate::session::KeyEvent;
pub use crate::session::Outcome;
pub use crate::session::Session;

} // verus!

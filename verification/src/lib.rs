//! The review state core of a local, single-user code-review service:
//! a typed model of unified diffs with a verified parser, reconstruction
//! of file bodies from hunks and inter-revision diffs, a persistent-state
//! machine of reviews, revisions, threads and comments, debounced agent
//! presence, and the typed event stream the service broadcasts.  Every
//! executable function carries a contract; the outside calls it leans on
//! (the line differ, the syntax highlighter, path parsing) stand behind
//! trusted declarations that name what they return.

pub mod diff;
pub mod events;
pub mod gitref;
pub mod highlight;
pub mod interdiff;
pub mod parser;
pub mod presence;
pub mod review;
pub mod service;
pub mod store;
pub mod types;

use vstd::prelude::*;

verus! {

/// Greeting used by the health probe.
pub fn hello() -> (r: &'static str)
    ensures
        r@ == "hello preflight"@,
{
    "hello preflight"
}

} // verus!

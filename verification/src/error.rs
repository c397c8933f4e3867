//! The library's error type.
//!
//! `AxiomConflict` is special: it is not a failure of the database but a
//! property of the data — two axiomatic evidences annihilated a posterior.
//! Real contradiction must surface; it is never renormalized away.
//! Failures of the file system or of JSON handling happen at the edges of
//! a database and are reported there, not by this library.

use vstd::prelude::*;

verus! {

/// nescioDB error type: a contradiction in the data, or an input that the
/// library refuses (with a human-readable reason).
#[derive(Debug)]
pub enum Error {
    AxiomConflict(String),
    Invalid(String),
}

} // verus!

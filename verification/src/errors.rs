//! Error taxonomy: user-caused failures are reported and abort the run;
//! cache-state problems are never surfaced, they only force a rebuild.
use vstd::prelude::*;

verus! {

/// A failure caused by the user's input.  Each variant records the inputs
/// that provoked it, so a caller can render a precise message.
#[derive(Debug)]
pub enum UserError {
    /// A dependency specification with an empty package name, such as `=1.0`.
    EmptyDepName,
    /// A dependency specification with an empty version, such as `foo=`.
    EmptyDepVersion,
    /// The same package was requested twice with different version texts.
    ConflictingDepVersions { name: String, existing: String, requested: String },
    /// A dependency version written as an inline table failed to parse.
    InvalidDepVersion { name: String, version: String },
    /// The embedded configuration fragment is not a valid manifest.
    InvalidManifest,
    /// No line of the input looks like source code, so nothing can be run.
    NoSourceFound,
    /// A key is a table in one manifest and a plain value in the other.
    MergeConflict,
}

} // verus!

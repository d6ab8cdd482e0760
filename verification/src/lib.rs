//! A verified core for running small programs straight from a source file:
//! it splits raw input into an embedded configuration fragment and source
//! text, merges configuration tables deterministically, computes a stable
//! cache identifier, and decides whether a cached build can be reused or
//! must be swept away.

pub mod errors;
pub mod ident;
pub mod input;
pub mod janitor;
pub mod manifest;
pub mod merge;
pub mod meta;
pub mod split;
pub mod table;
pub mod text;
pub mod tomlx;
pub mod wrap;

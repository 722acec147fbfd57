//! A library for detecting `unsafe` usage in dependency crates.
//!
//! A scan reads cargo's `.d` dependency files and reports, for each crate,
//! whether unsafe code is forbidden, absent, or present. The scans here decide;
//! their caller reads the files that they ask for.

pub mod error;
pub mod lexer;
pub mod text;
pub mod paths;
pub mod depinfo;
pub mod walk;
pub mod scan;
pub mod unsafe_scan;

pub use error::IsSafeError;

use vstd::prelude::*;

verus! {

/// The `unsafe` status of a crate's source.
#[derive(Debug, Clone, Copy, PartialEq, Eq, Structural)]
pub enum Unsafe {
    /// The crate has `#![forbid(unsafe_code)]`, so `unsafe` is blocked.
    Forbidden,
    /// The crate allows `unsafe`, but none is used.
    Absent,
    /// The crate uses `unsafe`.
    Present,
}

} // verus!

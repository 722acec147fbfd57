//! Error types.

use vstd::prelude::*;

verus! {

/// The error type of `std::io`, carried through unchanged.
#[verifier::external_type_specification]
#[verifier::external_body]
pub struct ExIoError(std::io::Error);

/// Errors that can occur while scanning crate sources.
#[derive(Debug)]
pub enum IsSafeError {
    /// No entry point was found. Should never happen, since you can't upload a crate to crates.io without one.
    MissingEntryPoint,
    /// A source file could not be read.
    Io(std::io::Error),
}

impl IsSafeError {
    /// The message that reports the error; for a read that failed, the text
    /// that the `std::io::Error` displays follows the prefix.
    pub fn message(&self) -> (m: String)
        ensures
            match self {
                IsSafeError::MissingEntryPoint => m@ == "Entry point is not found"@,
                IsSafeError::Io(e) => exists|t: String|
                    vstd::string::to_string_from_display_ensures::<std::io::Error>(e, t) && m@
                        == "Failed to read source file: "@ + t@,
            },
    {
        match self {
            IsSafeError::MissingEntryPoint => String::from_str("Entry point is not found"),
            IsSafeError::Io(err) => {
                let mut m = String::from_str("Failed to read source file: ");
                let text = err.to_string();
                m.append(text.as_str());
                m
            },
        }
    }
}

impl From<std::io::Error> for IsSafeError {
    fn from(err: std::io::Error) -> (e: Self)
        ensures
            e == IsSafeError::Io(err),
    {
        IsSafeError::Io(err)
    }
}

impl vstd::std_specs::convert::FromSpecImpl<std::io::Error> for IsSafeError {
    open spec fn obeys_from_spec() -> bool {
        true
    }

    open spec fn from_spec(err: std::io::Error) -> Self {
        IsSafeError::Io(err)
    }
}

} // verus!

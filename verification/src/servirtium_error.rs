//! The failure kinds that fixture loading and test preparation surface.

use vstd::prelude::*;
use vstd::string::*;

verus! {

/// What can go wrong while a test is being prepared: the fixture text did not
/// match the expected markdown shape, the fixture file or the listener failed
/// at the I/O boundary (the caller passes the message through), or a lock's
/// holder terminated abnormally while holding it.
#[derive(Debug)]
pub enum ServirtiumServerError {
    InvalidMarkdownFormat,
    IoError(String),
    PoisonedLock,
}

impl ServirtiumServerError {
    /// A human-readable description of the failure.
    pub fn message(&self) -> (s: String)
        ensures
            match self {
                ServirtiumServerError::InvalidMarkdownFormat => s@
                    == "The markdown format was poisoned"@,
                ServirtiumServerError::IoError(m) => s@ == "IoError: "@ + m@,
                ServirtiumServerError::PoisonedLock => s@ == "The lock was poisoned"@,
            },
    {
        match self {
            ServirtiumServerError::InvalidMarkdownFormat => {
                String::from_str("The markdown format was poisoned")
            },
            ServirtiumServerError::IoError(m) => {
                let mut s = String::from_str("IoError: ");
                s.append(m.as_str());
                s
            },
            ServirtiumServerError::PoisonedLock => String::from_str("The lock was poisoned"),
        }
    }
}

} // verus!

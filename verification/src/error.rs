//! The one way in which a lookup fails.

use vstd::prelude::*;

verus! {

/// Why the ring could not answer.
#[derive(Debug, Clone, Copy, PartialEq, Eq, Structural)]
pub enum ConsistentError {
    /// There are no server nodes currently registered in the hasher.
    NoServerNodes,
}

impl ConsistentError {
    /// Says in words what went wrong.
    pub fn message(&self) -> (text: &'static str)
        ensures
            text@ == "there are no server nodes currently registered in the hasher"@,
    {
        match self {
            ConsistentError::NoServerNodes => {
                "there are no server nodes currently registered in the hasher"
            },
        }
    }
}

} // verus!

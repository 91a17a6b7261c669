use vstd::prelude::*;

verus! {

/// Why a search produced no event.
#[derive(Clone, Copy, Debug, PartialEq, Eq, Structural)]
pub enum PowError {
    /// Every nonce of the searched range was tried and none met the difficulty.
    PowNotFound,
    /// The requested difficulty is not a number of bits between 0 and 255.
    InvalidDifficulty,
    /// The serialized event is longer than SHA-256 can digest.
    PreimageTooLong,
    /// A worker reported a nonce whose digest does not meet the difficulty.
    WorkerFault,
}

impl PowError {
    /// A short description of the failure.
    pub fn message(&self) -> (text: &'static str)
        ensures
            text@ == match *self {
                PowError::PowNotFound => "Failed to find valid PoW"@,
                PowError::InvalidDifficulty => "difficulty must be between 0 and 255 bits"@,
                PowError::PreimageTooLong => "event is too large to be hashed"@,
                PowError::WorkerFault => "a worker reported an invalid nonce"@,
            },
    {
        match self {
            PowError::PowNotFound => "Failed to find valid PoW",
            PowError::InvalidDifficulty => "difficulty must be between 0 and 255 bits",
            PowError::PreimageTooLong => "event is too large to be hashed",
            PowError::WorkerFault => "a worker reported an invalid nonce",
        }
    }
}

} // verus!

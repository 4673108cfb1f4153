//! The ways in which a proving round can fail.
use vstd::prelude::*;

verus! {

/// Why a round ended without a trusted output. Each kind names the step
/// that failed; none is recoverable within the round.
#[derive(Clone, Copy, Debug, PartialEq, Eq, Structural)]
pub enum RoundError {
    /// The private input was malformed, missing, or could not be encoded.
    Input,
    /// The guest gave up during its single pass; no receipt exists.
    ExecutionAbort,
    /// The journal is present but is no sequence of flags.
    Decode,
    /// The receipt does not attest the expected program; its output must
    /// not be trusted.
    Verification,
}

impl RoundError {
    /// The name of the step that failed.
    pub fn describe(&self) -> (r: &'static str)
        ensures
            r@ == match *self {
                RoundError::Input => "input error"@,
                RoundError::ExecutionAbort => "execution abort"@,
                RoundError::Decode => "decode error"@,
                RoundError::Verification => "verification failure"@,
            },
    {
        match self {
            RoundError::Input => "input error",
            RoundError::ExecutionAbort => "execution abort",
            RoundError::Decode => "decode error",
            RoundError::Verification => "verification failure",
        }
    }
}

} // verus!

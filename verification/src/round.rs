//! One proving round as the host sees it: build the input, have it proved,
//! decode the journal, verify the receipt, and only then release the output.
//!
//! Building the execution context and proving are the caller's work; the
//! round records how they went, decodes, verifies, and keeps the order.
use vstd::prelude::*;
use crate::error::RoundError;
use crate::journal::{journal_flags, decode_journal};

verus! {

/// A receipt of `risc0_zkvm`: a proof together with the journal it attests.
/// Opaque here but for the journal it carries; the round hands it to the
/// two calls below.
#[verifier::external_type_specification]
#[verifier::external_body]
pub struct ExReceipt(risc0_zkvm::Receipt);

/// The bytes of the journal that a receipt carries: its field `journal`,
/// and of that the field `bytes`.
pub uninterp spec fn journal_of(receipt: risc0_zkvm::Receipt) -> Seq<u8>;

/// Copies the bytes of `Receipt::journal` out of the receipt. They are a
/// field of the receipt, so the same receipt always gives the same bytes;
/// nothing is claimed of what they hold.
#[verifier::external_body]
fn receipt_journal(receipt: &risc0_zkvm::Receipt) -> (bytes: Vec<u8>)
    ensures
        bytes@ == journal_of(*receipt),
{
    receipt.journal.bytes.clone()
}

/// Calls `Receipt::verify` with the program identity and tells `Ok` from
/// `Err`. Nothing is claimed of which of the two comes back; the round
/// states what it does in either case.
#[verifier::external_body]
fn receipt_accepted(receipt: &risc0_zkvm::Receipt, image_id: &[u32; 8]) -> (accepted: bool) {
    match receipt.verify(*image_id) {
        Ok(()) => true,
        Err(_) => false,
    }
}

/// Where a round stands. A round moves forward one state at a time, or
/// fails; `Verified` and `Failed` are final.
#[derive(Clone, Copy, Debug, PartialEq, Eq, Structural)]
pub enum RoundState {
    Idle,
    InputBuilt,
    Proved,
    OutputDecoded,
    Verified,
    Failed(RoundError),
}

/// The bookkeeping of one round. It keeps the journal and the decoded
/// output to itself and hands the output out only once the receipt has been
/// verified.
pub struct Round {
    state: RoundState,
    journal: Vec<u8>,
    output: Vec<bool>,
}

impl Round {
    /// The state of the round.
    pub closed spec fn phase(&self) -> RoundState {
        self.state
    }

    /// The journal that the prover returned.
    pub closed spec fn held_journal(&self) -> Seq<u8> {
        self.journal@
    }

    /// The output decoded from the journal.
    pub closed spec fn held_output(&self) -> Seq<bool> {
        self.output@
    }

    /// From the moment the output is decoded, it is what the journal
    /// commits.
    #[verifier::type_invariant]
    spec fn well_formed(&self) -> bool {
        (self.state == RoundState::OutputDecoded || self.state == RoundState::Verified)
            ==> journal_flags(self.journal@) == Some(self.output@)
    }

    /// A fresh round.
    pub fn new() -> (r: Round)
        ensures
            r.phase() == RoundState::Idle,
    {
        Round { state: RoundState::Idle, journal: Vec::new(), output: Vec::new() }
    }

    /// The state of the round.
    pub fn state(&self) -> (r: RoundState)
        ensures
            r == self.phase(),
    {
        self.state
    }

    /// Step one: the execution context was built from the encoded private
    /// input, or could not be. A round without input fails before anything
    /// is proved.
    pub fn record_input(&mut self, built: bool) -> (r: Result<(), RoundError>)
        requires
            old(self).phase() == RoundState::Idle,
        ensures
            built ==> r is Ok && final(self).phase() == RoundState::InputBuilt,
            !built ==> r == Err::<(), RoundError>(RoundError::Input) && final(self).phase()
                == RoundState::Failed(RoundError::Input),
    {
        if built {
            self.state = RoundState::InputBuilt;
            Ok(())
        } else {
            self.state = RoundState::Failed(RoundError::Input);
            Err(RoundError::Input)
        }
    }

    /// Step two succeeded: the prover returned a receipt with this journal.
    pub fn record_proof(&mut self, journal: Vec<u8>)
        requires
            old(self).phase() == RoundState::InputBuilt,
        ensures
            final(self).phase() == RoundState::Proved,
            final(self).held_journal() == journal@,
    {
        self.journal = journal;
        self.state = RoundState::Proved;
    }

    /// Step two failed: the guest gave up and there is no receipt.
    pub fn record_abort(&mut self)
        requires
            old(self).phase() == RoundState::InputBuilt,
        ensures
            final(self).phase() == RoundState::Failed(RoundError::ExecutionAbort),
    {
        self.state = RoundState::Failed(RoundError::ExecutionAbort);
    }

    /// Step three: decodes the journal. The output stays inside the round.
    pub fn decode_output(&mut self) -> (r: Result<(), RoundError>)
        requires
            old(self).phase() == RoundState::Proved,
        ensures
            final(self).held_journal() == old(self).held_journal(),
            match journal_flags(old(self).held_journal()) {
                Some(flags) => r is Ok && final(self).phase() == RoundState::OutputDecoded
                    && final(self).held_output() == flags,
                None => r == Err::<(), RoundError>(RoundError::Decode) && final(self).phase()
                    == RoundState::Failed(RoundError::Decode),
            },
    {
        match decode_journal(self.journal.as_slice()) {
            Ok(flags) => {
                self.output = flags;
                self.state = RoundState::OutputDecoded;
                Ok(())
            },
            Err(_) => {
                self.state = RoundState::Failed(RoundError::Decode);
                Err(RoundError::Decode)
            },
        }
    }

    /// Step four: takes the verdict of the verification. An accepted
    /// receipt releases the output; a rejected one fails the round, and the
    /// output is never handed out.
    pub fn record_verdict(&mut self, accepted: bool) -> (r: Result<Vec<bool>, RoundError>)
        requires
            old(self).phase() == RoundState::OutputDecoded,
        ensures
            final(self).held_journal() == old(self).held_journal(),
            final(self).held_output() == old(self).held_output(),
            accepted ==> final(self).phase() == RoundState::Verified && (r matches Ok(output)
                && output@ == old(self).held_output()),
            !accepted ==> final(self).phase() == RoundState::Failed(RoundError::Verification) && (
            r matches Err(e) && e == RoundError::Verification),
    {
        proof {
            use_type_invariant(&*self);
        }
        if accepted {
            self.state = RoundState::Verified;
            Ok(self.output.clone())
        } else {
            self.state = RoundState::Failed(RoundError::Verification);
            Err(RoundError::Verification)
        }
    }

    /// Steps three and four on a receipt: takes its journal, decodes it, then
    /// verifies the receipt against the program identity. A journal that does
    /// not decode fails the round before the receipt is verified, and that is
    /// the only way to a decode error. Otherwise the verification decides:
    /// accepted, the round is verified and the flags that the receipt's
    /// journal commits come back; rejected, the round fails and nothing is
    /// released.
    pub fn conclude(&mut self, receipt: &risc0_zkvm::Receipt, image_id: &[u32; 8]) -> (r: Result<
        Vec<bool>,
        RoundError,
    >)
        requires
            old(self).phase() == RoundState::InputBuilt,
        ensures
            final(self).held_journal() == journal_of(*receipt),
            match journal_flags(journal_of(*receipt)) {
                None => r == Err::<Vec<bool>, RoundError>(RoundError::Decode)
                    && final(self).phase() == RoundState::Failed(RoundError::Decode),
                Some(flags) => final(self).held_output() == flags && match r {
                    Ok(output) => output@ == flags && final(self).phase() == RoundState::Verified,
                    Err(e) => e == RoundError::Verification && final(self).phase()
                        == RoundState::Failed(RoundError::Verification),
                },
            },
    {
        self.record_proof(receipt_journal(receipt));
        match self.decode_output() {
            Ok(()) => {
                let accepted = receipt_accepted(receipt, image_id);
                self.record_verdict(accepted)
            },
            Err(e) => Err(e),
        }
    }

    /// The output of the round: there is one exactly when the receipt has
    /// been verified, and it is what the journal commits.
    pub fn output(&self) -> (r: Option<Vec<bool>>)
        ensures
            r is Some <==> self.phase() == RoundState::Verified,
            r matches Some(output) ==> output@ == self.held_output() && journal_flags(
                self.held_journal(),
            ) == Some(output@),
    {
        proof {
            use_type_invariant(self);
        }
        match self.state {
            RoundState::Verified => Some(self.output.clone()),
            _ => None,
        }
    }
}

} // verus!

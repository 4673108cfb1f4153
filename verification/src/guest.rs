//! The guest's single pass: private input in, public journal out.
use vstd::prelude::*;
use crate::company::{Company, close_enough, flags_for, is_user_close_enough, COMPANY_COUNT};
use crate::coordinate::Coordinate;
use crate::error::RoundError;
use crate::journal::{journal_bytes, encode_journal};

verus! {

/// The journal that the guest commits for the words on its private-input
/// channel, or `None` where they hold no point and the guest gives up.
pub open spec fn guest_journal(input: Seq<u32>) -> Option<Seq<u8>> {
    match Coordinate::parse(input) {
        Some(user) => Some(journal_bytes(close_enough(user))),
        None => None,
    }
}

/// Runs the guest's computation on the words of the private-input channel
/// and returns the journal to commit. Input that holds no point aborts the
/// execution: there is no partial result.
pub fn run_guest(input: &[u32]) -> (r: Result<Vec<u8>, RoundError>)
    ensures
        match guest_journal(input@) {
            Some(journal) => r matches Ok(bytes) && bytes@ == journal,
            None => r matches Err(e) && e == RoundError::ExecutionAbort,
        },
{
    match Coordinate::decode(input) {
        Some(user) => {
            let flags = is_user_close_enough(user);
            encode_journal(&flags)
        },
        None => Err(RoundError::ExecutionAbort),
    }
}

/// The journal shows the flags and nothing else: two runs that agree on the
/// flags commit the same bytes, however the users, the locations, the
/// thresholds or the names of the companies differ.
pub proof fn lemma_journal_shows_only_flags(
    first_user: Coordinate,
    first_table: Seq<Company>,
    second_user: Coordinate,
    second_table: Seq<Company>,
)
    requires
        flags_for(first_user, first_table) == flags_for(second_user, second_table),
    ensures
        journal_bytes(flags_for(first_user, first_table)) == journal_bytes(
            flags_for(second_user, second_table),
        ),
        journal_bytes(flags_for(first_user, first_table)).len() == 4 + 4 * first_table.len(),
{
}

/// The guest's journal is always twenty-four bytes: the length and the five
/// flags.
pub proof fn lemma_guest_journal_length(input: Seq<u32>)
    requires
        guest_journal(input) is Some,
    ensures
        guest_journal(input).unwrap().len() == 4 + 4 * COMPANY_COUNT,
{
}

} // verus!

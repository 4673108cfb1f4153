//! The word format in which values cross between host and guest, and the
//! calls into `risc0_zkvm::serde` that write and read it.
//!
//! Every scalar is one 32-bit word. A pair is its two members in order, with
//! no framing. A sequence is its length, then its members in order; a flag is
//! the word 1 or 0.
use vstd::prelude::*;

verus! {

/// The error of `risc0_zkvm::serde`, carried through unread.
#[verifier::external_type_specification]
#[verifier::external_body]
pub struct ExWireError(risc0_zkvm::serde::Error);

/// The word that stands for a flag.
pub open spec fn flag_word(flag: bool) -> u32 {
    if flag {
        1
    } else {
        0
    }
}

/// The words of a sequence of flags: the length, then one word per flag.
pub open spec fn flag_words(flags: Seq<bool>) -> Seq<u32> {
    seq![flags.len() as u32] + Seq::new(flags.len(), |i: int| flag_word(flags[i]))
}

/// Whether the words begin with a sequence of flags: a length, and after it
/// at least that many words, each of them 0 or 1. Further words are allowed
/// and ignored.
pub open spec fn holds_flags(words: Seq<u32>) -> bool {
    &&& words.len() > 0
    &&& words[0] < words.len()
    &&& forall|i: int| 1 <= i <= words[0] ==> #[trigger] words[i] <= 1
}

/// The flags that the words begin with.
pub open spec fn flags_in(words: Seq<u32>) -> Seq<bool> {
    Seq::new(words[0] as nat, |i: int| words[i + 1] == 1)
}

/// Calls `risc0_zkvm::serde::to_vec` on a pair of words. The serializer
/// writes a pair as its members in order and a `u32` as itself, and none of
/// these steps can fail: the result is always the two words.
#[verifier::external_body]
pub(crate) fn pair_to_words(first: u32, second: u32) -> (r: Result<Vec<u32>, risc0_zkvm::serde::Error>)
    ensures
        r is Ok,
        r matches Ok(words) ==> words@ == seq![first, second],
{
    risc0_zkvm::serde::to_vec(&(first, second))
}

/// Calls `risc0_zkvm::serde::from_slice` for a pair of words. The
/// deserializer takes one word per member and fails only when the input
/// ends before the second; what follows the pair is not looked at.
#[verifier::external_body]
pub(crate) fn pair_from_words(words: &[u32]) -> (r: Result<(u32, u32), risc0_zkvm::serde::Error>)
    ensures
        r is Ok <==> words@.len() >= 2,
        r matches Ok(pair) ==> pair.0 == words@[0] && pair.1 == words@[1],
{
    risc0_zkvm::serde::from_slice::<(u32, u32), u32>(words)
}

/// Calls `risc0_zkvm::serde::to_vec` on a vector of flags. The serializer
/// writes the length as one word, which it requires to fit, and then each
/// flag as the word 1 or 0; with a length that fits it cannot fail.
#[verifier::external_body]
pub(crate) fn flags_to_words(flags: &Vec<bool>) -> (r: Result<Vec<u32>, risc0_zkvm::serde::Error>)
    requires
        flags@.len() <= u32::MAX,
    ensures
        r is Ok,
        r matches Ok(words) ==> words@ == flag_words(flags@),
{
    risc0_zkvm::serde::to_vec(flags)
}

/// Calls `risc0_zkvm::serde::from_slice` for a vector of flags. The
/// deserializer reads the length, then that many words, and fails when the
/// input ends early or when one of them is neither 0 nor 1; what follows the
/// last flag is not looked at.
#[verifier::external_body]
pub(crate) fn flags_from_words(words: &[u32]) -> (r: Result<Vec<bool>, risc0_zkvm::serde::Error>)
    ensures
        r is Ok <==> holds_flags(words@),
        r matches Ok(flags) ==> flags@ == flags_in(words@),
{
    risc0_zkvm::serde::from_slice::<Vec<bool>, u32>(words)
}

/// Reading back what was written gives the flags again.
pub proof fn lemma_flag_words_round_trip(flags: Seq<bool>)
    requires
        flags.len() <= u32::MAX,
    ensures
        holds_flags(flag_words(flags)),
        flags_in(flag_words(flags)) == flags,
{
    let words = flag_words(flags);
    assert(words.len() == flags.len() + 1);
    assert(words[0] == flags.len());
    assert forall|i: int| 1 <= i <= words[0] implies #[trigger] words[i] <= 1 by {
        assert(words[i] == flag_word(flags[i - 1]));
    }
    assert forall|i: int| 0 <= i < flags.len() implies flags_in(words)[i] == flags[i] by {
        assert(words[i + 1] == flag_word(flags[i]));
    }
    assert(flags_in(words) =~= flags);
}

} // verus!

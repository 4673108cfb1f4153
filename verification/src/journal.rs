//! The public journal: the flags as the guest commits them and as the host
//! reads them back, in bytes.
use vstd::prelude::*;
use crate::error::RoundError;
use crate::wire::{flag_words, holds_flags, flags_in, flags_to_words, flags_from_words, lemma_flag_words_round_trip};

verus! {

/// The four bytes of a word, least significant first.
pub open spec fn word_bytes(w: u32) -> Seq<u8> {
    seq![
        (w % 256) as u8,
        ((w / 0x100) % 256) as u8,
        ((w / 0x1_0000) % 256) as u8,
        (w / 0x100_0000) as u8,
    ]
}

/// The bytes of a sequence of words.
pub open spec fn words_to_bytes(words: Seq<u32>) -> Seq<u8> {
    Seq::new(4 * words.len(), |i: int| word_bytes(words[i / 4])[i % 4])
}

/// The word whose bytes stand at `4 * i` and after.
pub open spec fn word_at(bytes: Seq<u8>, i: int) -> u32 {
    (bytes[4 * i] + 0x100 * bytes[4 * i + 1] + 0x1_0000 * bytes[4 * i + 2] + 0x100_0000 * bytes[4
        * i + 3]) as u32
}

/// The whole words that the bytes hold.
pub open spec fn bytes_to_words(bytes: Seq<u8>) -> Seq<u32> {
    Seq::new(bytes.len() / 4, |i: int| word_at(bytes, i))
}

/// The journal that commits the flags.
pub open spec fn journal_bytes(flags: Seq<bool>) -> Seq<u8> {
    words_to_bytes(flag_words(flags))
}

/// The flags that a journal commits, if it is a whole number of words that
/// begin with a sequence of flags.
pub open spec fn journal_flags(bytes: Seq<u8>) -> Option<Seq<bool>> {
    if bytes.len() % 4 == 0 && holds_flags(bytes_to_words(bytes)) {
        Some(flags_in(bytes_to_words(bytes)))
    } else {
        None
    }
}

/// Bytes made from words hold those words.
pub proof fn lemma_words_round_trip(words: Seq<u32>)
    ensures
        words_to_bytes(words).len() == 4 * words.len(),
        bytes_to_words(words_to_bytes(words)) == words,
{
    let bytes = words_to_bytes(words);
    assert forall|i: int| 0 <= i < words.len() implies word_at(bytes, i) == words[i] by {
        let w = words[i];
        assert(bytes[4 * i] == word_bytes(w)[0]);
        assert(bytes[4 * i + 1] == word_bytes(w)[1]);
        assert(bytes[4 * i + 2] == word_bytes(w)[2]);
        assert(bytes[4 * i + 3] == word_bytes(w)[3]);
    }
    assert(bytes_to_words(bytes) =~= words);
}

/// A journal read back gives the flags that were committed.
pub proof fn lemma_journal_round_trip(flags: Seq<bool>)
    requires
        flags.len() <= u32::MAX,
    ensures
        journal_flags(journal_bytes(flags)) == Some(flags),
{
    lemma_words_round_trip(flag_words(flags));
    lemma_flag_words_round_trip(flags);
}

/// The journal has four bytes for the length and four for each flag, and
/// nothing else.
pub proof fn lemma_journal_length(flags: Seq<bool>)
    ensures
        journal_bytes(flags).len() == 4 + 4 * flags.len(),
{
}

fn bytes_of_words(words: &Vec<u32>) -> (bytes: Vec<u8>)
    ensures
        bytes@ == words_to_bytes(words@),
{
    let mut bytes: Vec<u8> = Vec::new();
    let mut i: usize = 0;
    while i < words.len()
        invariant
            i <= words.len(),
            bytes@ == words_to_bytes(words@.take(i as int)),
        decreases words.len() - i,
    {
        let w: u32 = words[i];
        let ghost before = bytes@;
        bytes.push((w % 256) as u8);
        bytes.push(((w / 0x100) % 256) as u8);
        bytes.push(((w / 0x1_0000) % 256) as u8);
        bytes.push((w / 0x100_0000) as u8);
        proof {
            let taken = words@.take(i + 1);
            assert(bytes@ == before + word_bytes(w));
            assert forall|j: int| 0 <= j < 4 * (i + 1) implies bytes@[j] == words_to_bytes(
                taken,
            )[j] by {
                if j < 4 * i {
                    assert(words@.take(i as int)[j / 4] == taken[j / 4]);
                } else {
                    assert(taken[j / 4] == w);
                }
            }
            assert(bytes@ =~= words_to_bytes(taken));
        }
        i = i + 1;
    }
    assert(words@.take(i as int) =~= words@);
    bytes
}

fn words_of_bytes(bytes: &[u8]) -> (words: Vec<u32>)
    requires
        bytes@.len() % 4 == 0,
    ensures
        words@ == bytes_to_words(bytes@),
{
    let n: usize = bytes.len() / 4;
    let mut words: Vec<u32> = Vec::new();
    let mut i: usize = 0;
    while i < n
        invariant
            i <= n,
            n == bytes@.len() / 4,
            4 * n <= usize::MAX,
            bytes@.len() % 4 == 0,
            words@.len() == i,
            forall|j: int| 0 <= j < i ==> words@[j] == word_at(bytes@, j),
        decreases n - i,
    {
        let b0: u32 = bytes[4 * i] as u32;
        let b1: u32 = bytes[4 * i + 1] as u32;
        let b2: u32 = bytes[4 * i + 2] as u32;
        let b3: u32 = bytes[4 * i + 3] as u32;
        words.push(b0 + 0x100 * b1 + 0x1_0000 * b2 + 0x100_0000 * b3);
        i = i + 1;
    }
    assert(words@ =~= bytes_to_words(bytes@));
    words
}

/// Encodes the flags as the journal that commits them.
pub fn encode_journal(flags: &Vec<bool>) -> (r: Result<Vec<u8>, RoundError>)
    requires
        flags@.len() <= u32::MAX,
    ensures
        r matches Ok(bytes) && bytes@ == journal_bytes(flags@),
{
    match flags_to_words(flags) {
        Ok(words) => Ok(bytes_of_words(&words)),
        Err(_) => Err(RoundError::ExecutionAbort),
    }
}

/// Decodes a journal into the flags it commits. A journal that is no whole
/// number of words, or whose words are no sequence of flags, is a decode
/// error.
pub fn decode_journal(bytes: &[u8]) -> (r: Result<Vec<bool>, RoundError>)
    ensures
        match journal_flags(bytes@) {
            Some(flags) => r matches Ok(decoded) && decoded@ == flags,
            None => r matches Err(e) && e == RoundError::Decode,
        },
{
    if bytes.len() % 4 != 0 {
        return Err(RoundError::Decode);
    }
    let words = words_of_bytes(bytes);
    match flags_from_words(words.as_slice()) {
        Ok(flags) => Ok(flags),
        Err(_) => Err(RoundError::Decode),
    }
}

} // verus!

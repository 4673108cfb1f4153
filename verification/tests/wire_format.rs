//! The private-input channel and the public journal.
use proximity::coordinate::Coordinate;
use proximity::error::RoundError;
use proximity::guest::run_guest;
use proximity::journal::{decode_journal, encode_journal};

fn point(x: f32, y: f32) -> Coordinate {
    Coordinate { x: x.to_bits(), y: y.to_bits() }
}

#[test]
fn a_coordinate_is_its_two_patterns_in_order() {
    let words = point(180.15, -130.12).encode().unwrap();
    assert_eq!(words, vec![0x4334_2666, 0xc302_1eb8]);
}

#[test]
fn a_coordinate_is_encoded_as_a_pair_of_floats_is() {
    let theirs = risc0_zkvm::serde::to_vec(&(0.13f32, 1000.0f32)).unwrap();
    assert_eq!(point(0.13, 1000.0).encode().unwrap(), theirs);
}

#[test]
fn a_coordinate_survives_the_channel_bit_for_bit() {
    let patterns =
        [0u32, 0x8000_0000, 1, 0x007f_ffff, 0x3e05_1eb8, 0x7f7f_ffff, 0x7f80_0000, 0x7fc0_0001, 0xffff_ffff];
    for &x in patterns.iter() {
        for &y in patterns.iter() {
            let sent = Coordinate { x, y };
            let received = Coordinate::decode(&sent.encode().unwrap()).unwrap();
            assert_eq!(received.x, x);
            assert_eq!(received.y, y);
        }
    }
}

#[test]
fn a_coordinate_is_read_as_a_pair_of_floats_is() {
    let words = [0x4334_2666u32, 0x4302_1eb8];
    let ours = Coordinate::decode(&words).unwrap();
    let theirs: (f32, f32) = risc0_zkvm::serde::from_slice(&words).unwrap();
    assert_eq!(ours.x, theirs.0.to_bits());
    assert_eq!(ours.y, theirs.1.to_bits());
    assert_eq!(theirs, (180.15, 130.12));
}

#[test]
fn a_short_channel_holds_no_coordinate() {
    assert!(Coordinate::decode(&[]).is_none());
    assert!(Coordinate::decode(&[0x4334_2666]).is_none());
}

#[test]
fn words_after_the_coordinate_are_ignored() {
    let c = Coordinate::decode(&[7, 9, 11, 13]).unwrap();
    assert_eq!((c.x, c.y), (7, 9));
}

#[test]
fn coordinates_compare_as_numbers() {
    assert!(point(0.0, 1.5) == point(-0.0, 1.5));
    assert!(point(0.13, 0.13) == point(0.13, 0.13));
    assert!(point(0.13, 0.13) != point(0.13, 0.14));
    assert!(point(f32::NAN, 0.0) != point(f32::NAN, 0.0));
}

#[test]
fn a_journal_is_the_length_and_one_word_per_flag() {
    let bytes = encode_journal(&vec![false, true, false, false, false]).unwrap();
    assert_eq!(
        bytes,
        vec![5, 0, 0, 0, 0, 0, 0, 0, 1, 0, 0, 0, 0, 0, 0, 0, 0, 0, 0, 0, 0, 0, 0, 0]
    );
    assert_eq!(encode_journal(&Vec::new()).unwrap(), vec![0, 0, 0, 0]);
}

#[test]
fn a_long_journal_spells_its_length_least_significant_byte_first() {
    let flags = vec![true; 0x0102];
    let bytes = encode_journal(&flags).unwrap();
    assert_eq!(bytes.len(), 4 + 4 * 0x0102);
    assert_eq!(&bytes[..8], &[0x02, 0x01, 0, 0, 1, 0, 0, 0]);
}

#[test]
fn a_journal_is_what_the_guest_library_would_commit() {
    let flags = vec![true, false, true, true, false];
    let words = risc0_zkvm::serde::to_vec(&flags).unwrap();
    let mut theirs = Vec::new();
    for w in words {
        theirs.extend_from_slice(&w.to_le_bytes());
    }
    assert_eq!(encode_journal(&flags).unwrap(), theirs);
}

#[test]
fn a_journal_read_back_gives_the_flags() {
    for n in 0..40usize {
        let flags: Vec<bool> = (0..n).map(|i| (i * 7 + n) % 3 == 0).collect();
        let bytes = encode_journal(&flags).unwrap();
        assert_eq!(decode_journal(&bytes), Ok(flags));
    }
}

#[test]
fn a_journal_decodes_as_the_receipt_library_decodes_it() {
    let bytes = encode_journal(&vec![true, true, false, false, true]).unwrap();
    let theirs: Vec<bool> = risc0_zkvm::Journal::new(bytes.clone()).decode().unwrap();
    assert_eq!(decode_journal(&bytes).unwrap(), theirs);
}

#[test]
fn a_journal_of_broken_words_is_a_decode_error() {
    assert_eq!(decode_journal(&[1, 0, 0]), Err(RoundError::Decode));
    assert_eq!(decode_journal(&[1, 0, 0, 0, 1, 0, 0, 0, 9]), Err(RoundError::Decode));
}

#[test]
fn an_empty_journal_is_a_decode_error() {
    assert_eq!(decode_journal(&[]), Err(RoundError::Decode));
}

#[test]
fn a_truncated_journal_is_a_decode_error() {
    assert_eq!(decode_journal(&[2, 0, 0, 0, 1, 0, 0, 0]), Err(RoundError::Decode));
    assert_eq!(decode_journal(&[0xff, 0xff, 0xff, 0xff]), Err(RoundError::Decode));
}

#[test]
fn a_flag_that_is_neither_zero_nor_one_is_a_decode_error() {
    assert_eq!(decode_journal(&[1, 0, 0, 0, 2, 0, 0, 0]), Err(RoundError::Decode));
    assert_eq!(decode_journal(&[1, 0, 0, 0, 1, 1, 0, 0]), Err(RoundError::Decode));
    assert_eq!(
        decode_journal(&[2, 0, 0, 0, 1, 0, 0, 0, 0, 0, 0, 0x80]),
        Err(RoundError::Decode)
    );
}

#[test]
fn words_after_the_flags_are_ignored() {
    assert_eq!(
        decode_journal(&[1, 0, 0, 0, 1, 0, 0, 0, 9, 9, 9, 9]),
        Ok(vec![true])
    );
}

#[test]
fn the_guest_commits_the_flags_of_its_input() {
    let input = point(0.13, 0.13).encode().unwrap();
    let journal = run_guest(&input).unwrap();
    assert_eq!(journal.len(), 24);
    assert_eq!(decode_journal(&journal), Ok(vec![false, true, false, false, false]));
}

#[test]
fn the_guest_aborts_without_input() {
    assert_eq!(run_guest(&[]), Err(RoundError::ExecutionAbort));
    assert_eq!(run_guest(&[0x3e05_1eb8]), Err(RoundError::ExecutionAbort));
}

#[test]
fn the_journal_holds_neither_names_nor_distances() {
    // Two users at different distances from the second company, both
    // within its threshold: the journals are the same bytes.
    let first = run_guest(&point(0.13, 0.13).encode().unwrap()).unwrap();
    let second = run_guest(&point(1.0, -2.0).encode().unwrap()).unwrap();
    assert_eq!(first, second);
    for name in ["Ubisoft", "Google", "Microsoft", "Amazon", "Apple"] {
        let needle = name.as_bytes();
        assert!(!first.windows(needle.len()).any(|w| w == needle));
    }
}

#[test]
fn errors_describe_the_step_that_failed() {
    assert_eq!(RoundError::Input.describe(), "input error");
    assert_eq!(RoundError::ExecutionAbort.describe(), "execution abort");
    assert_eq!(RoundError::Decode.describe(), "decode error");
    assert_eq!(RoundError::Verification.describe(), "verification failure");
}

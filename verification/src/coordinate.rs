//! The private input: a point in the plane.
use vstd::prelude::*;
use crate::error::RoundError;
use crate::wire::{pair_to_words, pair_from_words};

verus! {

/// A point, each field the IEEE 754 binary32 bit pattern of a
/// single-precision number.
#[derive(Clone, Copy, Debug)]
pub struct Coordinate {
    pub x: u32,
    pub y: u32,
}

impl PartialEq for Coordinate {
    fn eq(&self, other: &Coordinate) -> (r: bool) {
        crate::arith::eq(self.x, other.x) && crate::arith::eq(self.y, other.y)
    }
}

impl vstd::std_specs::cmp::PartialEqSpecImpl for Coordinate {
    open spec fn obeys_eq_spec() -> bool {
        true
    }

    /// Two points are equal when both fields are equal as numbers: a NaN
    /// equals nothing, and the two zeros are equal.
    open spec fn eq_spec(&self, other: &Coordinate) -> bool {
        crate::arith::eq_spec(self.x, other.x) && crate::arith::eq_spec(self.y, other.y)
    }
}

impl Coordinate {
    /// The words that carry this point on the private-input channel: `x`,
    /// then `y`.
    pub open spec fn words(self) -> Seq<u32> {
        seq![self.x, self.y]
    }

    /// The point that the words begin with, if they hold one.
    pub open spec fn parse(words: Seq<u32>) -> Option<Coordinate> {
        if words.len() >= 2 {
            Some(Coordinate { x: words[0], y: words[1] })
        } else {
            None
        }
    }

    /// Encodes the point for the private-input channel.
    pub fn encode(&self) -> (r: Result<Vec<u32>, RoundError>)
        ensures
            r matches Ok(words) && words@ == self.words(),
    {
        match pair_to_words(self.x, self.y) {
            Ok(words) => Ok(words),
            Err(_) => Err(RoundError::Input),
        }
    }

    /// Decodes a point from the front of the private-input channel. `None`
    /// when fewer than two words are there.
    pub fn decode(words: &[u32]) -> (r: Option<Coordinate>)
        ensures
            r == Coordinate::parse(words@),
    {
        match pair_from_words(words) {
            Ok(pair) => Some(Coordinate { x: pair.0, y: pair.1 }),
            Err(_) => None,
        }
    }

    /// Decoding an encoded point gives back both fields bit for bit,
    /// whatever follows it on the channel.
    pub proof fn lemma_round_trip(self, rest: Seq<u32>)
        ensures
            Coordinate::parse(self.words() + rest) == Some(self),
    {
        let all = self.words() + rest;
        assert(all[0] == self.x);
        assert(all[1] == self.y);
    }
}

} // verus!

//! What is reported when a text cannot be read.

use crate::source::Source;
use vstd::prelude::*;

verus! {

/// The place at which reading could go no further, and what stands there.
/// Positions count characters from the start of the text.
#[derive(Clone, Copy, Debug, PartialEq, Eq)]
pub struct ParseError {
    /// The position of the character that could not be read.
    pub start: usize,
    /// One past that character; equal to `start` at the end of the text.
    pub end: usize,
    /// The character, or `None` at the end of the text.
    pub found: Option<char>,
}

impl ParseError {
    /// Whether the error reports position `at` of the text `s`: the one
    /// character there, or the empty place behind the last.
    pub open spec fn is_at(self, s: Seq<char>, at: int) -> bool {
        &&& self.start == at
        &&& if 0 <= at < s.len() {
            self.end == at + 1 && self.found == Some(s[at])
        } else {
            self.end == at && self.found == None::<char>
        }
    }

    /// The error that reports position `at` of the source.
    pub fn at(src: &Source, at: usize) -> (error: Self)
        requires
            at <= src@.len(),
        ensures
            error.is_at(src@, at as int),
    {
        if at < src.len() {
            ParseError { start: at, end: at + 1, found: Some(src.at(at)) }
        } else {
            ParseError { start: at, end: at, found: None }
        }
    }
}

} // verus!

//! The errors of the parser and of the value conversions.
use vstd::prelude::*;

verus! {

/// Why a group could not be read.
#[derive(Debug, Clone, Copy, PartialEq, Eq, Structural)]
pub enum GroupParseError {
    /// No line is left that could start a group.
    Empty,
    /// The first line that is neither blank nor a comment is not a group header.
    NoHeader,
    HeaderError(GroupHeaderParseError),
    EntryError(EntryParseError),
}

/// Why a group header line is not a valid header.
#[derive(Debug, Clone, Copy, PartialEq, Eq, Structural)]
pub enum GroupHeaderParseError {
    InvalidStart,
    InvalidEnd,
    NotASCII,
    ContainsBrackets,
    ContainsControlCharacters,
}

/// Why a line is not a key-value entry.
#[derive(Debug, Clone, Copy, PartialEq, Eq, Structural)]
pub enum EntryParseError {
    Empty,
    Comment,
    Header,
    NoEquals,
    InvalidKey,
    EscapedIntoNonExistant,
    EscapedIntoHeader,
}

/// Why a value is not a string.
#[derive(Debug, Clone, Copy, PartialEq, Eq, Structural)]
pub enum ValueStringError {
    NotASCII,
    ControlCharacters,
}

/// Why a value is not a boolean.
#[derive(Debug, Clone, Copy, PartialEq, Eq, Structural)]
pub enum ValueBoolError {
    NotABoolean,
}

/// An error together with the number of the line that it belongs to.
#[derive(Debug, Clone, PartialEq, Eq)]
pub struct LinedError<E> {
    pub line_nr: usize,
    pub error: E,
}

impl GroupParseError {
    pub fn at_line(self, line_nr: usize) -> (r: LinedError<Self>)
        ensures
            r.line_nr == line_nr,
            r.error == self,
    {
        LinedError { line_nr, error: self }
    }
}

impl GroupHeaderParseError {
    pub fn at_line(self, line_nr: usize) -> (r: LinedError<Self>)
        ensures
            r.line_nr == line_nr,
            r.error == self,
    {
        LinedError { line_nr, error: self }
    }
}

impl EntryParseError {
    /// Whether the line was blank or a comment, that is, carries no entry but is no
    /// fault either.
    pub open spec fn spec_is_empty_line(self) -> bool {
        self is Empty || self is Comment
    }

    pub fn is_empty_line(self) -> (b: bool)
        ensures
            b == self.spec_is_empty_line(),
    {
        match self {
            EntryParseError::Empty | EntryParseError::Comment => true,
            _ => false,
        }
    }

    pub fn at_line(self, line_nr: usize) -> (r: LinedError<Self>)
        ensures
            r.line_nr == line_nr,
            r.error == self,
    {
        LinedError { line_nr, error: self }
    }
}

} // verus!

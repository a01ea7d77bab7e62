use vstd::prelude::*;
use crate::input::Input;

verus! {

/// How many more bytes a streaming parser needs before it can decide.
#[derive(Clone, Copy, Debug, PartialEq, Eq, Structural)]
pub enum Needed {
    /// At least one more, how many is not known.
    Unknown,
    /// This many more (never zero).
    Size(usize),
}

impl Needed {
    /// `n` more bytes, or an unknown number when `n` is zero.
    pub fn new(n: usize) -> (r: Needed)
        ensures
            r == (if n == 0 { Needed::Unknown } else { Needed::Size(n) }),
    {
        if n == 0 {
            Needed::Unknown
        } else {
            Needed::Size(n)
        }
    }

    /// Whether the number of bytes needed is known.
    pub fn is_known(&self) -> (r: bool)
        ensures
            r == (self is Size),
    {
        match self {
            Needed::Unknown => false,
            Needed::Size(_) => true,
        }
    }
}

/// Which parser or combinator produced an error.
#[derive(Clone, Copy, Debug, PartialEq, Eq, Structural)]
pub enum ErrorKind {
    Tag,
    Digit,
    MapRes,
    Eof,
    Complete,
    Count,
    Many0,
    Many1,
    ManyTill,
    ManyMN,
    Many0Count,
    Many1Count,
    SeparatedList,
}

/// The context of a failure: the view at which it happened, and the kind of
/// parser that failed there.
///
/// Combinators hand a sub-parser's error on as they received it: the context
/// names the innermost failure.
#[derive(Clone, Copy, Debug, PartialEq)]
pub struct Error<'a> {
    pub input: Input<'a>,
    pub kind: ErrorKind,
}

impl<'a> Error<'a> {
    pub fn new(input: Input<'a>, kind: ErrorKind) -> (r: Error<'a>)
        ensures
            r == (Error { input, kind }),
    {
        Error { input, kind }
    }
}

/// The three ways in which a parser can fail.
#[derive(Clone, Copy, Debug, PartialEq)]
pub enum ErrMode<E> {
    /// The input is exhausted in streaming mode: try again with more bytes.
    Incomplete(Needed),
    /// A recoverable failure: an alternative may be tried from the same view.
    Backtrack(E),
    /// A committed failure: no alternative may be tried.
    Cut(E),
}

/// What a parser returns: the view that is left and its output, or a failure.
pub type PResult<'a, O> = Result<(Input<'a>, O), ErrMode<Error<'a>>>;

} // verus!

use vstd::prelude::*;

verus! {

/// A file could not be parsed.
#[derive(Clone, Copy, Debug, PartialEq, Eq, Structural)]
pub struct ParseError;

/// Why a read failed.
#[derive(Clone, Copy, Debug, PartialEq, Eq, Structural)]
pub enum ReadErrorKind {
    Parse(ParseError),
}

/// A read failed; only this crate creates one.
#[derive(Clone, Copy, Debug, PartialEq, Eq, Structural)]
#[non_exhaustive]
pub struct ReadError {
    pub kind: ReadErrorKind,
}

impl ParseError {
    /// The text that describes this error.
    pub fn message(&self) -> (r: String)
        ensures
            r@ == "failed to parse file on line XX"@,
    {
        "failed to parse file on line XX".to_owned()
    }
}

impl ReadError {
    /// The text that describes this error.
    pub fn message(&self) -> (r: String)
        ensures
            r@ == "read error"@,
    {
        "read error".to_owned()
    }

    /// The lower-level error that caused this one.
    pub fn source(&self) -> (r: Option<ParseError>)
        ensures
            r == match self.kind {
                ReadErrorKind::Parse(e) => Some(e),
            },
    {
        match self.kind {
            ReadErrorKind::Parse(e) => Some(e),
        }
    }
}

/// Reads the text, which always fails to parse.
pub fn foo() -> (r: Result<String, ReadError>)
    ensures
        r == Err::<String, ReadError>(ReadError { kind: ReadErrorKind::Parse(ParseError) }),
{
    Err(ReadError { kind: ReadErrorKind::Parse(ParseError) })
}

} // verus!

use vstd::prelude::*;

verus! {

/// Why a header or a header block could not be parsed.
#[derive(Clone, Copy, Debug, PartialEq, Eq, Structural)]
pub enum MailParsingError {
    /// There was no byte left to parse.
    EmptyInput,
    /// A header began with whitespace, or its name held a byte outside
    /// printable US-ASCII.
    MalformedHeader,
    /// A CR between headers was not followed by LF.
    LoneCarriageReturn,
}

} // verus!

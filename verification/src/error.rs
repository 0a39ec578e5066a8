//! The ways in which reading or writing a playlist fails.
use vstd::prelude::*;
use vstd::string::*;

verus! {

/// Why a playlist could not be read or written. `I` is the type of the input
/// that a malformed text is reported with.
#[derive(Debug, PartialEq)]
pub enum M3U8ParserError<I> {
    /// The text does not follow the grammar; the field is the input at which
    /// it stopped following it.
    Malformed(I),
    /// The sink refused a write; the field is its message.
    IoError(String),
    /// A duration is no floating-point number; the field says why.
    ParseFloatError(String),
    /// A version, target duration or media sequence is no integer of its
    /// width; the field says why.
    ParseIntError(String),
}

/// What a `M3U8ParserError` over texts states, with each text as its characters.
pub enum Failure {
    Malformed(Seq<char>),
    Io(Seq<char>),
    ParseFloat(Seq<char>),
    ParseInt(Seq<char>),
}

impl<'a> View for M3U8ParserError<&'a str> {
    type V = Failure;

    open spec fn view(&self) -> Failure {
        match self {
            M3U8ParserError::Malformed(input) => Failure::Malformed(input@),
            M3U8ParserError::IoError(message) => Failure::Io(message@),
            M3U8ParserError::ParseFloatError(message) => Failure::ParseFloat(message@),
            M3U8ParserError::ParseIntError(message) => Failure::ParseInt(message@),
        }
    }
}

impl Failure {
    /// The sentence that describes the failure.
    pub open spec fn sentence(self) -> Seq<char> {
        match self {
            Failure::Malformed(input) => "malformed input at: "@ + input,
            Failure::Io(message) => "IO Error: "@ + message,
            Failure::ParseFloat(message) => "ParseFloat Error: "@ + message,
            Failure::ParseInt(message) => "ParseInt Error: "@ + message,
        }
    }
}

impl<'a> M3U8ParserError<&'a str> {
    /// The sentence that describes the error.
    pub fn message(&self) -> (text: String)
        ensures
            text@ == self@.sentence(),
    {
        match self {
            M3U8ParserError::Malformed(input) => String::from_str("malformed input at: ").concat(
                input,
            ),
            M3U8ParserError::IoError(message) => String::from_str("IO Error: ").concat(
                message.as_str(),
            ),
            M3U8ParserError::ParseFloatError(message) => String::from_str(
                "ParseFloat Error: ",
            ).concat(message.as_str()),
            M3U8ParserError::ParseIntError(message) => String::from_str("ParseInt Error: ").concat(
                message.as_str(),
            ),
        }
    }
}

} // verus!

//! The outcomes shared by every parser of the crate.

use vstd::prelude::*;

verus! {

/// The ways in which a buffer can be malformed.
#[derive(Clone, Copy, Debug, PartialEq, Eq)]
pub enum FormatError {
    /// The buffer does not begin with the three signature bytes.
    BadSignature,
    /// A tag header carries a type code other than 8, 9 or 18.
    UnknownTagType,
    /// An audio tag names a sound format that the format does not define.
    UnknownSoundFormat,
    /// A video tag names a frame type that the format does not define.
    UnknownFrameType,
    /// A video tag names a codec that the format does not define.
    UnknownCodecId,
    /// A script tag does not open with the marker of a string, which its name must be.
    BadScriptName,
    /// A script value opens with a type marker that the grammar does not define.
    UnknownValueType,
    /// The bytes of a script string are not valid UTF-8.
    InvalidUtf8,
    /// The payload of a tag ends before the structure that it has to hold.
    PayloadTooShort,
}

/// The two ways in which a parser declines a buffer.
#[derive(Clone, Copy, Debug, PartialEq, Eq)]
pub enum ParseError {
    /// The buffer is a prefix of something decodable: at least this many more
    /// bytes are needed before the next field can be read.
    Incomplete(usize),
    /// The buffer is malformed. A caller should not wait for more bytes: a
    /// malformed tag stays malformed whatever is appended, and a buffer that
    /// lacks the signature is reported as such even while it is shorter than
    /// the signature.
    Format(FormatError),
}

/// What the model of a parser yields: the decoded value together with the
/// bytes that follow it, or the reason for declining.
pub type Parsed<T> = Result<(T, Seq<u8>), ParseError>;

/// An executable parser's result as the models speak of it: the
/// remaining slice is replaced by the bytes it holds.
pub open spec fn parsed<T>(r: Result<(&[u8], T), ParseError>) -> Parsed<T> {
    match r {
        Ok((rest, value)) => Ok((value, rest@)),
        Err(e) => Err(e),
    }
}

/// As [`parsed`], for a value that has a mathematical view.
pub open spec fn parsed_view<T: View>(r: Result<(&[u8], T), ParseError>) -> Parsed<T::V> {
    match r {
        Ok((rest, value)) => Ok((value@, rest@)),
        Err(e) => Err(e),
    }
}

impl ParseError {
    /// The error as it counts inside a payload whose length is already
    /// known: no further byte can join the payload, so a shortage there is
    /// a malformation.
    pub open spec fn spec_within_payload(self) -> ParseError {
        match self {
            ParseError::Incomplete(_) => ParseError::Format(FormatError::PayloadTooShort),
            ParseError::Format(kind) => ParseError::Format(kind),
        }
    }

    /// Turns a shortage into [`FormatError::PayloadTooShort`] and leaves a
    /// format error as it is.
    pub fn within_payload(self) -> (e: ParseError)
        ensures
            e == self.spec_within_payload(),
            e is Format,
    {
        match self {
            ParseError::Incomplete(_) => ParseError::Format(FormatError::PayloadTooShort),
            ParseError::Format(kind) => ParseError::Format(kind),
        }
    }

    /// True for the transient outcome, which more input may cure.
    pub fn is_incomplete(&self) -> (b: bool)
        ensures
            b == (*self is Incomplete),
    {
        match self {
            ParseError::Incomplete(_) => true,
            ParseError::Format(_) => false,
        }
    }
}

} // verus!

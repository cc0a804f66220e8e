//! The closed taxonomy of stream and format failures.

use vstd::prelude::*;

verus! {

/// A caller-side protocol violation: the encoder's emit calls were made in an
/// order the nesting state machine does not admit. Distinguished from the
/// data-format errors, which describe the bytes or values themselves.
#[derive(Debug, Copy, Clone, Eq, PartialEq, Structural)]
pub enum Misuse {
    /// A value was supplied while the enclosing record still awaited a field name.
    ValueWithoutName,
    /// A field name was supplied while one was already pending.
    NameTwice,
    /// A field name was supplied while the innermost level is a sequence.
    NameInList,
    /// A record level was closed while a field name still awaited its value.
    NameWithoutValue,
    /// An emit call was made after the root level had been closed.
    LevelUnderflow,
    /// A list-like kind was specified directly instead of opening a sequence.
    ListKindSpecified,
    /// A sequence's first element is itself a sequence whose element kind is
    /// not yet known, so the outer framing cannot be committed.
    NestedPendingList,
}

/// A stream or format failure. Every failure is fail-fast: it terminates the
/// current encode or decode call, nothing is retried, and no usable partial
/// result is left behind.
#[derive(Debug, Clone, PartialEq)]
pub enum Error {
    /// A fault of the underlying byte transport, carrying its description.
    Io(String),
    /// The stream ended before a value was complete.
    IncompleteNbtValue,
    /// The outermost value is not a record.
    NoRootCompound,
    /// A tag byte denotes no kind.
    UnknownTag(u8),
    /// A byte backing a boolean was neither 0 nor 1.
    NonBooleanByte(i8),
    /// The tag found (first) is not the tag the caller expected (second).
    UnexpectedTag(u8, u8),
    /// The host value has no encoding in the format.
    UnrepresentableType(&'static str),
    /// A string's bytes are not valid UTF-8.
    InvalidUtf8,
    /// Two elements of one list declare different kinds.
    HeterogenousList { original: crate::kind::Kind, new: crate::kind::Kind },
    /// The encoder's emit calls violated its protocol.
    Misuse(Misuse),
}

impl Error {
    /// A short, fixed description of the failure, naming its kind.
    pub fn description(&self) -> (r: &'static str)
        ensures
            self matches Error::NoRootCompound ==> r@ == "all values must have a root compound"@,
            self matches Error::UnknownTag(_) ==> r@ == "unknown tag"@,
            self matches Error::NonBooleanByte(_) ==> r@
                == "encountered a non-0 or 1 byte for a boolean"@,
            self matches Error::UnexpectedTag(_, _) ==> r@ == "unexpected tag"@,
            self matches Error::UnrepresentableType(_) ==> r@ == "unrepresentable type"@,
            self matches Error::InvalidUtf8 ==> r@ == "a string is not valid UTF-8"@,
            self matches Error::IncompleteNbtValue ==> r@
                == "data does not represent a complete NbtValue"@,
            self matches Error::HeterogenousList { .. } ==> r@
                == "a list's elements must all have one kind"@,
            self matches Error::Misuse(_) ==> r@ == "encoder calls violated their protocol"@,
            self matches Error::Io(_) ==> r@ == "IO error"@,
    {
        match self {
            Error::Io(_) => "IO error",
            Error::IncompleteNbtValue => "data does not represent a complete NbtValue",
            Error::NoRootCompound => "all values must have a root compound",
            Error::UnknownTag(_) => "unknown tag",
            Error::NonBooleanByte(_) => "encountered a non-0 or 1 byte for a boolean",
            Error::UnexpectedTag(_, _) => "unexpected tag",
            Error::UnrepresentableType(_) => "unrepresentable type",
            Error::InvalidUtf8 => "a string is not valid UTF-8",
            Error::HeterogenousList { .. } => "a list's elements must all have one kind",
            Error::Misuse(_) => "encoder calls violated their protocol",
        }
    }
}

} // verus!

//! The errors of reading and writing.

use vstd::prelude::*;

verus! {

/// `std::io::Error`, the error type of writing.
#[verifier::external_type_specification]
#[verifier::external_body]
pub struct ExStdIoError(std::io::Error);

/// Why a value could not be read.
#[derive(Debug, Clone, Copy, PartialEq, Eq)]
pub enum IoError {
    /// The stream ended inside a field of known width.
    UnexpectedEof,
    /// The stream ended inside a length-encoded string.
    StringEof,
    /// The stream ended inside the payload of a packet.
    PacketEof,
    /// The stream has not ended, but at least so many more bytes have to arrive.
    Missing(u64),
}

/// The kind of an error, as a system's errors are told apart.
#[derive(Debug, Clone, Copy, PartialEq, Eq)]
pub enum ErrorKind {
    /// The stream ended before a field was filled.
    UnexpectedEof,
    /// Anything else, which the message tells.
    Other,
}

impl IoError {
    /// The kind of the error.
    pub open spec fn spec_kind(self) -> ErrorKind {
        match self {
            IoError::StringEof | IoError::PacketEof => ErrorKind::Other,
            IoError::UnexpectedEof | IoError::Missing(_) => ErrorKind::UnexpectedEof,
        }
    }

    /// Tells the kind of the error. To a caller who does not wait for missing
    /// bytes, the stream has ended.
    pub fn kind(&self) -> (r: ErrorKind)
        ensures
            r == self.spec_kind(),
            r is Other <==> *self is StringEof || *self is PacketEof,
    {
        match self {
            IoError::StringEof | IoError::PacketEof => ErrorKind::Other,
            IoError::UnexpectedEof | IoError::Missing(_) => ErrorKind::UnexpectedEof,
        }
    }

    /// What the error says beyond its kind.
    pub open spec fn spec_message(self) -> Option<Seq<char>> {
        match self {
            IoError::StringEof => Some("Unexpected EOF while reading length encoded string"@),
            IoError::PacketEof => Some("Unexpected EOF while reading packet"@),
            _ => None,
        }
    }

    /// Says what the error says beyond its kind.
    pub fn message(&self) -> (r: Option<&'static str>)
        ensures
            r is Some <==> self.spec_message() is Some,
            r matches Some(text) ==> Some(text@) == self.spec_message(),
    {
        match self {
            IoError::StringEof => Some("Unexpected EOF while reading length encoded string"),
            IoError::PacketEof => Some("Unexpected EOF while reading packet"),
            _ => None,
        }
    }
}

/// A rule of the protocol that was broken.
#[derive(Debug, Clone, Copy, PartialEq, Eq)]
pub enum DriverError {
    /// The payload is longer than the server allows.
    PacketTooLarge,
    /// A frame carries another sequence id than the expected one.
    PacketOutOfSync,
}

/// Any failure of reading or writing a packet.
#[derive(Debug, Clone, Copy, PartialEq, Eq)]
pub enum MyError {
    MyIoError(IoError),
    MyDriverError(DriverError),
}

} // verus!

use crate::text::{decimal, push_decimal};
use vstd::prelude::*;
use vstd::string::StringExecFns;

verus! {

/// Why a buffer could not be decoded.
#[derive(Debug, Clone, Copy, PartialEq, Eq, Structural)]
pub enum ErrorKind {
    /// Fewer than four bytes were left for a 32-bit field.
    TruncatedFixed32,
    /// Fewer than eight bytes were left for a 64-bit field.
    TruncatedFixed64,
    /// A length-delimited field declared more bytes than were left.
    TruncatedChunk,
    /// The tag opens or closes a group.
    UnsupportedGroup,
    /// The tag holds a code that names no wire type.
    InvalidWireType,
}

/// A failure to decode, with a description for the user.
#[derive(Debug, Clone)]
pub struct ProtodecError {
    pub kind: ErrorKind,
    pub message: String,
}

/// The mathematical content of a `ProtodecError`.
pub struct Failure {
    pub kind: ErrorKind,
    pub message: Seq<char>,
}

impl View for ProtodecError {
    type V = Failure;

    open spec fn view(&self) -> Failure {
        Failure { kind: self.kind, message: self.message@ }
    }
}

impl Failure {
    /// The failure reported where `available` bytes are left and `wanted` are
    /// needed.
    pub open spec fn truncated(kind: ErrorKind, available: nat, wanted: nat) -> Failure {
        Failure {
            kind,
            message: "Error. Buffer length "@ + decimal(available) + " can't be less then "@
                + decimal(wanted) + " here."@,
        }
    }

    /// The failure reported for a tag that opens a group.
    pub open spec fn start_group() -> Failure {
        Failure {
            kind: ErrorKind::UnsupportedGroup,
            message: "Error. Not expected start group occured"@,
        }
    }

    /// The failure reported for a tag that closes a group.
    pub open spec fn end_group() -> Failure {
        Failure {
            kind: ErrorKind::UnsupportedGroup,
            message: "Error. Not expected end group occured"@,
        }
    }

    /// The failure reported for a tag without a wire type.
    pub open spec fn invalid_wire_type() -> Failure {
        Failure { kind: ErrorKind::InvalidWireType, message: "Error. wire type is invalid."@ }
    }
}

impl ProtodecError {
    pub fn truncated(kind: ErrorKind, available: usize, wanted: u128) -> (r: ProtodecError)
        ensures
            r@ == Failure::truncated(kind, available as nat, wanted as nat),
    {
        let mut message = String::from_str("Error. Buffer length ");
        push_decimal(&mut message, available as u128);
        message.append(" can't be less then ");
        push_decimal(&mut message, wanted);
        message.append(" here.");
        ProtodecError { kind, message }
    }

    pub fn start_group() -> (r: ProtodecError)
        ensures
            r@ == Failure::start_group(),
    {
        ProtodecError {
            kind: ErrorKind::UnsupportedGroup,
            message: String::from_str("Error. Not expected start group occured"),
        }
    }

    pub fn end_group() -> (r: ProtodecError)
        ensures
            r@ == Failure::end_group(),
    {
        ProtodecError {
            kind: ErrorKind::UnsupportedGroup,
            message: String::from_str("Error. Not expected end group occured"),
        }
    }

    pub fn invalid_wire_type() -> (r: ProtodecError)
        ensures
            r@ == Failure::invalid_wire_type(),
    {
        ProtodecError {
            kind: ErrorKind::InvalidWireType,
            message: String::from_str("Error. wire type is invalid."),
        }
    }
}

} // verus!

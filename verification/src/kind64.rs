use crate::fixed::{le_i64, le_u64, read_i64, read_u64};
use crate::format::{dump, format_as_ascii_and_hex};
use crate::text::{decimal, push_decimal, push_signed_decimal, signed_decimal};
use vstd::prelude::*;

verus! {

/// How the eight bytes of a 64-bit field are read.
#[derive(Copy, Clone, Debug, PartialEq, Eq, Structural)]
pub enum Kind64 {
    Buffer,
    Fixed64,
    SFixed64,
    Double,
}

impl Kind64 {
    /// The kind that follows this one in the cycle of four.
    pub open spec fn next(self) -> Kind64 {
        match self {
            Kind64::Buffer => Kind64::Fixed64,
            Kind64::Fixed64 => Kind64::SFixed64,
            Kind64::SFixed64 => Kind64::Double,
            Kind64::Double => Kind64::Buffer,
        }
    }

    /// The short name of the kind.
    pub open spec fn label(self) -> Seq<char> {
        match self {
            Kind64::Buffer => "raw"@,
            Kind64::Fixed64 => "unsign"@,
            Kind64::SFixed64 => "sign"@,
            Kind64::Double => "double"@,
        }
    }

    /// The text that shows `bytes` under this kind: the dump of the bytes, or
    /// the decimal notation of their first eight as a little-endian unsigned or
    /// signed number. The decimal notation of a floating-point number is not
    /// defined here.
    pub open spec fn value_text(self, bytes: Seq<u8>) -> Option<Seq<char>> {
        match self {
            Kind64::Buffer => Some(dump(bytes)),
            Kind64::Fixed64 => Some(decimal(le_u64(bytes))),
            Kind64::SFixed64 => Some(signed_decimal(le_i64(bytes))),
            Kind64::Double => None,
        }
    }

    pub fn toggle(self) -> (r: Kind64)
        ensures
            r == self.next(),
    {
        match self {
            Kind64::Buffer => Kind64::Fixed64,
            Kind64::Fixed64 => Kind64::SFixed64,
            Kind64::SFixed64 => Kind64::Double,
            Kind64::Double => Kind64::Buffer,
        }
    }

    pub fn to_string(self) -> (r: &'static str)
        ensures
            r@ == self.label(),
    {
        match self {
            Kind64::Buffer => "raw",
            Kind64::Fixed64 => "unsign",
            Kind64::SFixed64 => "sign",
            Kind64::Double => "double",
        }
    }

    /// Renders `buffer` under this kind. Returns `None` for `Double`: the caller
    /// renders the number whose bits `float_bits` gives.
    pub fn get_value_as_string(self, buffer: &[u8]) -> (r: Option<String>)
        requires
            self == Kind64::Fixed64 || self == Kind64::SFixed64 ==> buffer@.len() >= 8,
        ensures
            match self.value_text(buffer@) {
                Some(text) => r matches Some(s) && s@ == text,
                None => r is None,
            },
    {
        match self {
            Kind64::Buffer => Some(format_as_ascii_and_hex(buffer)),
            Kind64::Fixed64 => {
                let mut text = String::new();
                push_decimal(&mut text, read_u64(buffer) as u128);
                assert(text@ =~= decimal(le_u64(buffer@)));
                Some(text)
            },
            Kind64::SFixed64 => {
                let mut text = String::new();
                push_signed_decimal(&mut text, read_i64(buffer) as i128);
                assert(text@ =~= signed_decimal(le_i64(buffer@)));
                Some(text)
            },
            Kind64::Double => None,
        }
    }

    /// The bits of the binary64 number that the first eight bytes of `buffer`
    /// hold in little-endian order.
    pub fn float_bits(buffer: &[u8]) -> (r: u64)
        requires
            buffer@.len() >= 8,
        ensures
            r == le_u64(buffer@),
    {
        read_u64(buffer)
    }

    /// Four toggles bring a kind back to itself, and no fewer do.
    pub proof fn lemma_toggle_cycle(self)
        ensures
            self.next().next().next().next() == self,
            self.next() != self,
            self.next().next() != self,
            self.next().next().next() != self,
    {
    }
}

} // verus!

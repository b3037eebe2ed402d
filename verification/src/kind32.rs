use crate::fixed::{le_i32, le_u32, read_i32, read_u32};
use crate::format::{dump, format_as_ascii_and_hex};
use crate::text::{decimal, push_decimal, push_signed_decimal, signed_decimal};
use vstd::prelude::*;

verus! {

/// How the four bytes of a 32-bit field are read.
#[derive(Copy, Clone, Debug, PartialEq, Eq, Structural)]
pub enum Kind32 {
    Buffer,
    Fixed32,
    SFixed32,
    Float,
}

impl Kind32 {
    /// The kind that follows this one in the cycle of four.
    pub open spec fn next(self) -> Kind32 {
        match self {
            Kind32::Buffer => Kind32::Fixed32,
            Kind32::Fixed32 => Kind32::SFixed32,
            Kind32::SFixed32 => Kind32::Float,
            Kind32::Float => Kind32::Buffer,
        }
    }

    /// The short name of the kind.
    pub open spec fn label(self) -> Seq<char> {
        match self {
            Kind32::Buffer => "raw"@,
            Kind32::Fixed32 => "unsign"@,
            Kind32::SFixed32 => "sign"@,
            Kind32::Float => "float"@,
        }
    }

    /// The text that shows `bytes` under this kind: the dump of the bytes, or
    /// the decimal notation of their first four as a little-endian unsigned or
    /// signed number. The decimal notation of a floating-point number is not
    /// defined here.
    pub open spec fn value_text(self, bytes: Seq<u8>) -> Option<Seq<char>> {
        match self {
            Kind32::Buffer => Some(dump(bytes)),
            Kind32::Fixed32 => Some(decimal(le_u32(bytes))),
            Kind32::SFixed32 => Some(signed_decimal(le_i32(bytes))),
            Kind32::Float => None,
        }
    }

    pub fn toggle(self) -> (r: Kind32)
        ensures
            r == self.next(),
    {
        match self {
            Kind32::Buffer => Kind32::Fixed32,
            Kind32::Fixed32 => Kind32::SFixed32,
            Kind32::SFixed32 => Kind32::Float,
            Kind32::Float => Kind32::Buffer,
        }
    }

    pub fn to_string(self) -> (r: &'static str)
        ensures
            r@ == self.label(),
    {
        match self {
            Kind32::Buffer => "raw",
            Kind32::Fixed32 => "unsign",
            Kind32::SFixed32 => "sign",
            Kind32::Float => "float",
        }
    }

    /// Renders `buffer` under this kind. Returns `None` for `Float`: the caller
    /// renders the number whose bits `float_bits` gives.
    pub fn get_value_as_string(self, buffer: &[u8]) -> (r: Option<String>)
        requires
            self == Kind32::Fixed32 || self == Kind32::SFixed32 ==> buffer@.len() >= 4,
        ensures
            match self.value_text(buffer@) {
                Some(text) => r matches Some(s) && s@ == text,
                None => r is None,
            },
    {
        match self {
            Kind32::Buffer => Some(format_as_ascii_and_hex(buffer)),
            Kind32::Fixed32 => {
                let mut text = String::new();
                push_decimal(&mut text, read_u32(buffer) as u128);
                assert(text@ =~= decimal(le_u32(buffer@)));
                Some(text)
            },
            Kind32::SFixed32 => {
                let mut text = String::new();
                push_signed_decimal(&mut text, read_i32(buffer) as i128);
                assert(text@ =~= signed_decimal(le_i32(buffer@)));
                Some(text)
            },
            Kind32::Float => None,
        }
    }

    /// The bits of the binary32 number that the first four bytes of `buffer`
    /// hold in little-endian order.
    pub fn float_bits(buffer: &[u8]) -> (r: u32)
        requires
            buffer@.len() >= 4,
        ensures
            r == le_u32(buffer@),
    {
        read_u32(buffer)
    }

    /// Four toggles bring a kind back to itself, and no fewer do.
    pub proof fn lemma_toggle_cycle(self)
        ensures
            self.next().next().next().next() == self,
            self.next() != self,
            self.next().next() != self,
            self.next().next().next() != self,
    {
    }
}

} // verus!

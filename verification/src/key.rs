use crate::varint::{after_varint, take_varint, varint_value};
use crate::wire_type::WireType;
use vstd::prelude::*;

verus! {

/// The tag of one field: which field it is and how its payload is framed.
#[derive(Debug, Clone, Copy, PartialEq, Eq, Structural)]
pub struct Key {
    pub wire_type: WireType,
    pub field_number: u128,
}

impl Key {
    /// The tag that a decoded varint stands for: its low three bits are the
    /// wire-type code, the bits above them the field number.
    pub open spec fn of_varint(varint: u128) -> Key {
        Key { wire_type: WireType::of_code(varint as int % 8), field_number: varint / 8 }
    }
}

/// The tag at the head of `bytes`.
pub open spec fn key_of(bytes: Seq<u8>) -> Key {
    Key::of_varint(varint_value(bytes))
}

/// A tag splits the way it was put together: the varint that is eight times
/// a field number plus a code below eight gives back that field number and
/// the wire type of that code.
pub proof fn lemma_key_splits_tag(field_number: u128, code: u128)
    requires
        code < 8,
        field_number < 0x2000_0000_0000_0000_0000_0000_0000_0000u128,
    ensures
        Key::of_varint((8 * field_number + code) as u128) == (Key {
            wire_type: WireType::of_code(code as int),
            field_number,
        }),
{
}

/// Splits the tag off the head of `buffer`. Never fails: a code that names no
/// wire type gives `WireType::Invalid`.
pub fn take_key(buffer: &[u8]) -> (r: (Key, &[u8]))
    ensures
        r.0 == key_of(buffer@),
        r.1@ == after_varint(buffer@),
{
    let (varint, rest) = take_varint(buffer);
    assert(varint & 0x07 == varint % 8 && varint >> 3 == varint / 8) by (bit_vector);
    (Key { wire_type: WireType::from(varint & 0x07), field_number: varint >> 3 }, rest)
}

} // verus!

use crate::error::{ErrorKind, Failure, ProtodecError};
use crate::key::Key;
use crate::varint::{after_varint, take_varint, varint_value};
use crate::wire_type::WireType;
use vstd::prelude::*;
use vstd::slice::slice_subrange;
use vstd::slice::slice_to_vec;

verus! {

/// One decoded field, as the wire format frames it.
#[derive(Debug)]
pub enum Data {
    Varint { field_number: u128, value: u128 },
    Fixed64 { field_number: u128, buffer: Vec<u8> },
    Fixed32 { field_number: u128, buffer: Vec<u8> },
    Chunk { field_number: u128, buffer: Vec<u8> },
    Message { field_number: u128, items: Vec<Data> },
}

/// The mathematical content of a `Data`.
pub enum RawField {
    Varint { field_number: u128, value: u128 },
    Fixed64 { field_number: u128, buffer: Seq<u8> },
    Fixed32 { field_number: u128, buffer: Seq<u8> },
    Chunk { field_number: u128, buffer: Seq<u8> },
    Message { field_number: u128, items: Seq<RawField> },
}

impl Data {
    /// The field that this value holds.
    pub open spec fn model(self) -> RawField
        decreases self,
    {
        match self {
            Data::Varint { field_number, value } => RawField::Varint { field_number, value },
            Data::Fixed64 { field_number, buffer } => RawField::Fixed64 {
                field_number,
                buffer: buffer@,
            },
            Data::Fixed32 { field_number, buffer } => RawField::Fixed32 {
                field_number,
                buffer: buffer@,
            },
            Data::Chunk { field_number, buffer } => RawField::Chunk {
                field_number,
                buffer: buffer@,
            },
            Data::Message { field_number, items } => RawField::Message {
                field_number,
                items: Seq::new(
                    items@.len(),
                    |i: int|
                        if 0 <= i < items@.len() {
                            items@[i].model()
                        } else {
                            arbitrary()
                        },
                ),
            },
        }
    }
}

/// The sum of the numbers.
pub open spec fn total(counts: Seq<nat>) -> nat
    decreases counts.len(),
{
    if counts.len() == 0 {
        0
    } else {
        total(counts.drop_last()) + counts.last()
    }
}

/// The number of nodes in and below each of the fields.
pub open spec fn node_counts(fields: Seq<RawField>) -> Seq<nat>
    decreases fields,
{
    Seq::new(
        fields.len(),
        |i: int|
            if 0 <= i < fields.len() {
                fields[i].node_count()
            } else {
                0
            },
    )
}

/// The number of nodes in and below the fields.
pub open spec fn node_count_of(fields: Seq<RawField>) -> nat {
    total(node_counts(fields))
}

impl RawField {
    /// The number of nodes in and below this field: the field itself, and
    /// the nodes in and below the items of a message.
    pub open spec fn node_count(self) -> nat
        decreases self,
    {
        match self {
            RawField::Message { items, .. } => 1 + total(node_counts(items)),
            _ => 1,
        }
    }

    /// True where every 64-bit field in and below this field has a payload of
    /// eight bytes, and every 32-bit field one of four.
    pub open spec fn well_formed(self) -> bool
        decreases self,
    {
        match self {
            RawField::Fixed64 { buffer, .. } => buffer.len() == 8,
            RawField::Fixed32 { buffer, .. } => buffer.len() == 4,
            RawField::Message { items, .. } => forall|i: int|
                0 <= i < items.len() ==> (#[trigger] items[i]).well_formed(),
            _ => true,
        }
    }

    /// True for a field as the decoder yields it: no message, and a payload of
    /// eight bytes in a 64-bit field and of four in a 32-bit field.
    pub open spec fn is_flat(self) -> bool {
        match self {
            RawField::Fixed64 { buffer, .. } => buffer.len() == 8,
            RawField::Fixed32 { buffer, .. } => buffer.len() == 4,
            RawField::Message { .. } => false,
            _ => true,
        }
    }
}

impl View for Data {
    type V = RawField;

    open spec fn view(&self) -> RawField {
        self.model()
    }
}

impl Clone for Data {
    fn clone(&self) -> (r: Data)
        ensures
            r@ == self@,
        decreases self,
    {
        match self {
            Data::Varint { field_number, value } => Data::Varint {
                field_number: *field_number,
                value: *value,
            },
            Data::Fixed64 { field_number, buffer } => Data::Fixed64 {
                field_number: *field_number,
                buffer: slice_to_vec(buffer.as_slice()),
            },
            Data::Fixed32 { field_number, buffer } => Data::Fixed32 {
                field_number: *field_number,
                buffer: slice_to_vec(buffer.as_slice()),
            },
            Data::Chunk { field_number, buffer } => Data::Chunk {
                field_number: *field_number,
                buffer: slice_to_vec(buffer.as_slice()),
            },
            Data::Message { field_number, items } => {
                let mut copies: Vec<Data> = Vec::new();
                let mut i: usize = 0;
                while i < items.len()
                    invariant
                        i <= items.len(),
                        copies.len() == i,
                        *self is Message && self->items == *items,
                        forall|j: int| 0 <= j < i ==> copies@[j]@ == (#[trigger] items@[j])@,
                    decreases items.len() - i,
                {
                    assert(decreases_to!(*items => items[i as int]));
                    copies.push(items[i].clone());
                    i += 1;
                }
                let r = Data::Message { field_number: *field_number, items: copies };
                assert(r@->items =~= self@->items);
                r
            },
        }
    }
}

/// The fields that a sequence of values holds.
pub open spec fn fields_of(items: Seq<Data>) -> Seq<RawField> {
    Seq::new(items.len(), |i: int| items[i]@)
}

/// The field that a tag and the bytes after it hold, with the bytes that
/// follow the field; or the reason why they hold none.
///
/// A varint field takes the leading varint group. A 64-bit or 32-bit field
/// takes eight or four bytes and fails where fewer are left. A
/// length-delimited field takes a varint and then as many bytes as the varint
/// says, and fails where fewer are left. A tag of a group or without a wire
/// type fails.
pub open spec fn field_of(key: Key, bytes: Seq<u8>) -> Result<(RawField, Seq<u8>), Failure> {
    let field_number = key.field_number;
    match key.wire_type {
        WireType::Varint => Ok(
            (RawField::Varint { field_number, value: varint_value(bytes) }, after_varint(bytes)),
        ),
        WireType::Size64 => if bytes.len() < 8 {
            Err(Failure::truncated(ErrorKind::TruncatedFixed64, bytes.len(), 8))
        } else {
            Ok((RawField::Fixed64 { field_number, buffer: bytes.take(8) }, bytes.skip(8)))
        },
        WireType::LengthDelimited => {
            let size = varint_value(bytes);
            let rest = after_varint(bytes);
            if size > rest.len() {
                Err(Failure::truncated(ErrorKind::TruncatedChunk, rest.len(), size as nat))
            } else {
                Ok(
                    (
                        RawField::Chunk { field_number, buffer: rest.take(size as int) },
                        rest.skip(size as int),
                    ),
                )
            }
        },
        WireType::StartGroup => Err(Failure::start_group()),
        WireType::EndGroup => Err(Failure::end_group()),
        WireType::Size32 => if bytes.len() < 4 {
            Err(Failure::truncated(ErrorKind::TruncatedFixed32, bytes.len(), 4))
        } else {
            Ok((RawField::Fixed32 { field_number, buffer: bytes.take(4) }, bytes.skip(4)))
        },
        WireType::Invalid => Err(Failure::invalid_wire_type()),
    }
}

/// Decodes the payload of one field from the bytes that follow its tag.
pub fn take_data(key: Key, buffer: &[u8]) -> (r: Result<(Data, &[u8]), ProtodecError>)
    ensures
        match field_of(key, buffer@) {
            Ok((field, rest)) => r matches Ok((data, tail)) && data@ == field && tail@ == rest,
            Err(failure) => r matches Err(error) && error@ == failure,
        },
        r matches Ok((data, _)) ==> data@.is_flat(),
{
    let field_number = key.field_number;
    match key.wire_type {
        WireType::Varint => {
            let (varint, rest) = take_varint(buffer);
            Ok((Data::Varint { field_number, value: varint }, rest))
        },
        WireType::Size64 => {
            if buffer.len() < 8 {
                return Err(ProtodecError::truncated(ErrorKind::TruncatedFixed64, buffer.len(), 8));
            }
            let payload = slice_to_vec(slice_subrange(buffer, 0, 8));
            let rest = slice_subrange(buffer, 8, buffer.len());
            Ok((Data::Fixed64 { field_number, buffer: payload }, rest))
        },
        WireType::LengthDelimited => {
            let (buffer_size, rest) = take_varint(buffer);
            if buffer_size > rest.len() as u128 {
                return Err(
                    ProtodecError::truncated(ErrorKind::TruncatedChunk, rest.len(), buffer_size),
                );
            }
            let size = buffer_size as usize;
            let payload = slice_to_vec(slice_subrange(rest, 0, size));
            let rest = slice_subrange(rest, size, rest.len());
            Ok((Data::Chunk { field_number, buffer: payload }, rest))
        },
        WireType::StartGroup => Err(ProtodecError::start_group()),
        WireType::EndGroup => Err(ProtodecError::end_group()),
        WireType::Size32 => {
            if buffer.len() < 4 {
                return Err(ProtodecError::truncated(ErrorKind::TruncatedFixed32, buffer.len(), 4));
            }
            let payload = slice_to_vec(slice_subrange(buffer, 0, 4));
            let rest = slice_subrange(buffer, 4, buffer.len());
            Ok((Data::Fixed32 { field_number, buffer: payload }, rest))
        },
        WireType::Invalid => Err(ProtodecError::invalid_wire_type()),
    }
}

} // verus!

use crate::data::{field_of, fields_of, take_data, Data, RawField};
use crate::error::{Failure, ProtodecError};
use crate::key::{key_of, take_key};
use crate::key::Key;
use crate::varint::{
    after_varint, group_len, is_single_group, lemma_group_len_bound, lemma_group_of_prefix,
    lemma_take_single_group, varint_value,
};
use crate::wire_type::WireType;
use vstd::prelude::*;

verus! {

/// The first field of `bytes`, tag and payload, with the bytes that follow it.
pub open spec fn first_field(bytes: Seq<u8>) -> Result<(RawField, Seq<u8>), Failure> {
    field_of(key_of(bytes), after_varint(bytes))
}

/// The fields that `bytes` hold, in the order in which they stand, or the
/// failure of the first field that cannot be decoded. No bytes hold no fields.
pub open spec fn decode(bytes: Seq<u8>) -> Result<Seq<RawField>, Failure>
    decreases bytes.len(),
{
    if bytes.len() == 0 {
        Ok(Seq::empty())
    } else {
        match first_field(bytes) {
            Err(failure) => Err(failure),
            Ok((field, rest)) => {
                proof {
                    lemma_first_field_advances(bytes);
                }
                match decode(rest) {
                    Err(failure) => Err(failure),
                    Ok(fields) => Ok(seq![field] + fields),
                }
            },
        }
    }
}

/// A field that is decoded leaves a suffix of the bytes that follow its tag.
pub proof fn lemma_field_of_leaves_suffix(key: Key, bytes: Seq<u8>)
    ensures
        field_of(key, bytes) matches Ok((_, rest)) ==> rest.len() <= bytes.len() && rest
            == bytes.skip(bytes.len() - rest.len()),
{
    lemma_group_len_bound(bytes);
    if let Ok((_, rest)) = field_of(key, bytes) {
        assert(rest =~= bytes.skip(bytes.len() - rest.len()));
    }
}

/// The first field of a buffer that is not empty takes at least one byte, and
/// what it leaves is a suffix of the buffer.
pub proof fn lemma_first_field_advances(bytes: Seq<u8>)
    requires
        bytes.len() > 0,
    ensures
        first_field(bytes) matches Ok((_, rest)) ==> rest.len() < bytes.len() && rest
            == bytes.skip(bytes.len() - rest.len()),
{
    lemma_group_len_bound(bytes);
    lemma_field_of_leaves_suffix(key_of(bytes), after_varint(bytes));
    if let Ok((_, rest)) = first_field(bytes) {
        assert(rest =~= bytes.skip(bytes.len() - rest.len()));
    }
}

/// Decodes a whole buffer into its fields. Payloads of length-delimited fields
/// are kept as they are: nothing is decoded inside them.
///
/// Fails with the failure of the first field that cannot be decoded, and then
/// returns no fields at all.
pub fn decode_message(buffer: &[u8]) -> (r: Result<Vec<Data>, ProtodecError>)
    ensures
        match decode(buffer@) {
            Ok(fields) => r matches Ok(items) && fields_of(items@) == fields,
            Err(failure) => r matches Err(error) && error@ == failure,
        },
        r matches Ok(items) ==> forall|i: int|
            0 <= i < items.len() ==> (#[trigger] items[i])@.is_flat(),
{
    let mut result: Vec<Data> = Vec::new();
    if buffer.len() == 0 {
        assert(fields_of(result@) =~= Seq::empty());
        return Ok(result);
    }
    let mut buf = buffer;
    loop
        invariant_except_break
            buf@.len() > 0,
            decode(buffer@) == match decode(buf@) {
                Ok(fields) => Ok(fields_of(result@) + fields),
                Err(failure) => Err(failure),
            },
        invariant
            forall|i: int| 0 <= i < result.len() ==> (#[trigger] result[i])@.is_flat(),
        ensures
            decode(buffer@) == Ok::<Seq<RawField>, Failure>(fields_of(result@)),
        decreases buf@.len(),
    {
        proof {
            assert(fields_of(result@) + Seq::<RawField>::empty() =~= fields_of(result@));
            lemma_first_field_advances(buf@);
        }
        let (key, rest) = take_key(buf);
        let (data, rest) = match take_data(key, rest) {
            Ok(taken) => taken,
            Err(error) => {
                return Err(error);
            },
        };
        proof {
            let before = fields_of(result@);
            let after = fields_of(result@.push(data));
            assert(after =~= before.push(data@));
            if let Ok(fields) = decode(rest@) {
                assert(before + (seq![data@] + fields) =~= after + fields);
            }
            if rest@.len() == 0 {
                assert(after + Seq::<RawField>::empty() =~= after);
            }
        }
        buf = rest;
        result.push(data);
        if rest.is_empty() {
            break ;
        }
    }
    Ok(result)
}

/// Decoding yields flat fields only: it never looks inside a payload, so no
/// field is a message, and the fixed-width payloads have their width.
pub proof fn lemma_decode_is_flat(bytes: Seq<u8>)
    ensures
        decode(bytes) matches Ok(fields) ==> forall|i: int|
            0 <= i < fields.len() ==> (#[trigger] fields[i]).is_flat(),
    decreases bytes.len(),
{
    if bytes.len() > 0 {
        if let Ok((field, rest)) = first_field(bytes) {
            lemma_first_field_advances(bytes);
            lemma_decode_is_flat(rest);
        }
    }
}

/// The bytes of each field of `bytes`, tag and payload, in the order in
/// which the fields stand, up to the first field that cannot be decoded.
pub open spec fn spans(bytes: Seq<u8>) -> Seq<Seq<u8>>
    decreases bytes.len(),
{
    if bytes.len() == 0 {
        Seq::empty()
    } else {
        match first_field(bytes) {
            Err(_) => Seq::empty(),
            Ok((_, rest)) => {
                proof {
                    lemma_first_field_advances(bytes);
                }
                seq![bytes.take(bytes.len() - rest.len())] + spans(rest)
            },
        }
    }
}

/// True where `encoding` is one whole field: it decodes to `field`, and to
/// nothing more or less whatever bytes follow it.
pub open spec fn encodes(encoding: Seq<u8>, field: RawField) -> bool {
    forall|tail: Seq<u8>| #[trigger]
        first_field(encoding + tail) == Ok::<(RawField, Seq<u8>), Failure>((field, tail))
}

/// Decoding a field looks at the bytes of the field only: cut off behind
/// the field, the bytes decode to the same field and leave nothing.
pub proof fn lemma_first_field_alone(bytes: Seq<u8>)
    ensures
        first_field(bytes) matches Ok((field, rest)) ==> rest.len() <= bytes.len() && first_field(
            bytes.take(bytes.len() - rest.len()),
        ) == Ok::<(RawField, Seq<u8>), Failure>((field, Seq::empty())),
{
    if let Ok((field, rest)) = first_field(bytes) {
        lemma_group_len_bound(bytes);
        let payload = after_varint(bytes);
        lemma_group_len_bound(payload);
        lemma_field_of_leaves_suffix(key_of(bytes), payload);
        let n = bytes.len() - rest.len();
        let tag_len = group_len(bytes) as int;
        assert(tag_len <= n) by {
            assert(rest.len() <= payload.len());
        }
        lemma_group_of_prefix(bytes, n);
        let cut = bytes.take(n);
        let cut_payload = after_varint(cut);
        assert(cut_payload == payload.take(n - tag_len));
        match key_of(bytes).wire_type {
            WireType::Varint => {
                lemma_group_of_prefix(payload, n - tag_len);
                assert(after_varint(cut_payload) =~= Seq::<u8>::empty());
            },
            WireType::Size64 => {
                assert(cut_payload.take(8) =~= payload.take(8));
                assert(cut_payload.skip(8) =~= Seq::<u8>::empty());
            },
            WireType::Size32 => {
                assert(cut_payload.take(4) =~= payload.take(4));
                assert(cut_payload.skip(4) =~= Seq::<u8>::empty());
            },
            WireType::LengthDelimited => {
                let size = varint_value(payload) as int;
                let size_len = group_len(payload) as int;
                assert(n - tag_len == size_len + size);
                lemma_group_of_prefix(payload, n - tag_len);
                let cut_content = after_varint(cut_payload);
                assert(cut_content.take(size) =~= after_varint(payload).take(size));
                assert(cut_content.skip(size) =~= Seq::<u8>::empty());
            },
            _ => {},
        }
    }
}

/// Decoding is exhaustive and keeps the order: where `bytes` decode, their
/// fields are as many as their spans, the spans laid end to end are `bytes`,
/// and each span alone decodes to its field and to nothing else.
pub proof fn lemma_decode_spans(bytes: Seq<u8>)
    ensures
        decode(bytes) matches Ok(fields) ==> {
            &&& spans(bytes).len() == fields.len()
            &&& spans(bytes).flatten() == bytes
            &&& forall|i: int|
                0 <= i < fields.len() ==> decode(#[trigger] spans(bytes)[i]) == Ok::<
                    Seq<RawField>,
                    Failure,
                >(seq![fields[i]])
        },
    decreases bytes.len(),
{
    if let Ok(fields) = decode(bytes) {
        if bytes.len() == 0 {
            assert(spans(bytes).flatten() =~= bytes);
        } else {
            let (field, rest) = first_field(bytes)->Ok_0;
            lemma_first_field_advances(bytes);
            lemma_first_field_alone(bytes);
            lemma_decode_spans(rest);
            let head = bytes.take(bytes.len() - rest.len());
            let later = decode(rest)->Ok_0;
            assert(spans(bytes) == seq![head] + spans(rest));
            assert(spans(bytes).flatten() =~= bytes) by {
                assert(spans(bytes).drop_first() =~= spans(rest));
                assert(spans(bytes).first() == head);
                assert(head + rest =~= bytes);
            }
            assert(decode(head) == Ok::<Seq<RawField>, Failure>(seq![field])) by {
                assert(decode(Seq::<u8>::empty()) == Ok::<Seq<RawField>, Failure>(Seq::empty()));
                assert(seq![field] + Seq::<RawField>::empty() =~= seq![field]);
            }
            assert forall|i: int| 0 <= i < fields.len() implies decode(
                #[trigger] spans(bytes)[i],
            ) == Ok::<Seq<RawField>, Failure>(seq![fields[i]]) by {
                if i > 0 {
                    assert(spans(bytes)[i] == spans(rest)[i - 1]);
                    assert(fields[i] == later[i - 1]);
                }
            }
        }
    }
}

/// A whole field holds at least one byte.
pub proof fn lemma_encoding_is_not_empty(encoding: Seq<u8>, field: RawField)
    requires
        encodes(encoding, field),
    ensures
        encoding.len() > 0,
{
    if encoding.len() == 0 {
        let tail = seq![0u8];
        assert(encoding + tail =~= tail);
        lemma_first_field_advances(tail);
        assert(first_field(encoding + tail) == Ok::<(RawField, Seq<u8>), Failure>((field, tail)));
    }
}

/// The fields of a whole field followed by more bytes are that field, then
/// the fields of the bytes that follow; the bytes fail as those that follow
/// fail.
pub proof fn lemma_decode_after_field(encoding: Seq<u8>, field: RawField, tail: Seq<u8>)
    requires
        encodes(encoding, field),
    ensures
        decode(encoding + tail) == match decode(tail) {
            Ok(fields) => Ok::<Seq<RawField>, Failure>(seq![field] + fields),
            Err(failure) => Err(failure),
        },
{
    lemma_encoding_is_not_empty(encoding, field);
    assert(first_field(encoding + tail) == Ok::<(RawField, Seq<u8>), Failure>((field, tail)));
}

/// Decoding keeps the number and the order of the fields: whole fields laid
/// end to end decode to exactly those fields, in that order.
pub proof fn lemma_decode_whole_fields(encodings: Seq<Seq<u8>>, fields: Seq<RawField>)
    requires
        encodings.len() == fields.len(),
        forall|i: int| 0 <= i < fields.len() ==> encodes(#[trigger] encodings[i], fields[i]),
    ensures
        decode(encodings.flatten()) == Ok::<Seq<RawField>, Failure>(fields),
    decreases encodings.len(),
{
    if encodings.len() == 0 {
        assert(encodings.flatten() =~= Seq::<u8>::empty());
        assert(fields =~= Seq::<RawField>::empty());
    } else {
        let later = encodings.drop_first();
        let later_fields = fields.drop_first();
        assert forall|i: int| 0 <= i < later_fields.len() implies encodes(
            #[trigger] later[i],
            later_fields[i],
        ) by {
            assert(later[i] == encodings[i + 1]);
        }
        lemma_decode_whole_fields(later, later_fields);
        lemma_decode_after_field(encodings[0], fields[0], later.flatten());
        assert(encodings.flatten() == encodings[0] + later.flatten());
        assert(seq![fields[0]] + later_fields =~= fields);
    }
}

/// A tag and a varint, each a complete single group, are a whole varint
/// field.
pub proof fn lemma_encodes_varint(tag: Seq<u8>, payload: Seq<u8>)
    requires
        is_single_group(tag),
        is_single_group(payload),
        key_of(tag).wire_type == WireType::Varint,
    ensures
        encodes(
            tag + payload,
            RawField::Varint {
                field_number: key_of(tag).field_number,
                value: varint_value(payload),
            },
        ),
{
    assert forall|tail: Seq<u8>| #[trigger]
        first_field(tag + payload + tail) == Ok::<(RawField, Seq<u8>), Failure>(
            (
                RawField::Varint {
                    field_number: key_of(tag).field_number,
                    value: varint_value(payload),
                },
                tail,
            ),
        ) by {
        lemma_take_single_group(tag, payload + tail);
        lemma_take_single_group(tag, Seq::empty());
        lemma_take_single_group(payload, tail);
        lemma_take_single_group(payload, Seq::empty());
        assert(tag + payload + tail =~= tag + (payload + tail));
        assert(tag + Seq::<u8>::empty() =~= tag);
        assert(payload + Seq::<u8>::empty() =~= payload);
    }
}

/// A tag that is a complete single group, followed by `width` bytes, is a
/// whole fixed-width field, for a tag of 64 bits and eight bytes and for a
/// tag of 32 bits and four.
pub proof fn lemma_encodes_fixed(tag: Seq<u8>, payload: Seq<u8>)
    requires
        is_single_group(tag),
        key_of(tag).wire_type == WireType::Size64 && payload.len() == 8 || key_of(
            tag,
        ).wire_type == WireType::Size32 && payload.len() == 4,
    ensures
        key_of(tag).wire_type == WireType::Size64 ==> encodes(
            tag + payload,
            RawField::Fixed64 { field_number: key_of(tag).field_number, buffer: payload },
        ),
        key_of(tag).wire_type == WireType::Size32 ==> encodes(
            tag + payload,
            RawField::Fixed32 { field_number: key_of(tag).field_number, buffer: payload },
        ),
{
    let field = if key_of(tag).wire_type == WireType::Size64 {
        RawField::Fixed64 { field_number: key_of(tag).field_number, buffer: payload }
    } else {
        RawField::Fixed32 { field_number: key_of(tag).field_number, buffer: payload }
    };
    assert forall|tail: Seq<u8>| #[trigger]
        first_field(tag + payload + tail) == Ok::<(RawField, Seq<u8>), Failure>((field, tail)) by {
        lemma_take_single_group(tag, payload + tail);
        lemma_take_single_group(tag, Seq::empty());
        assert(tag + payload + tail =~= tag + (payload + tail));
        assert(tag + Seq::<u8>::empty() =~= tag);
        assert((payload + tail).take(payload.len() as int) =~= payload);
        assert((payload + tail).skip(payload.len() as int) =~= tail);
    }
}

/// A tag and a size, each a complete single group, followed by as many bytes
/// as the size says, are a whole length-delimited field.
pub proof fn lemma_encodes_chunk(tag: Seq<u8>, size: Seq<u8>, payload: Seq<u8>)
    requires
        is_single_group(tag),
        is_single_group(size),
        key_of(tag).wire_type == WireType::LengthDelimited,
        varint_value(size) == payload.len(),
    ensures
        encodes(
            tag + size + payload,
            RawField::Chunk { field_number: key_of(tag).field_number, buffer: payload },
        ),
{
    assert forall|tail: Seq<u8>| #[trigger]
        first_field(tag + size + payload + tail) == Ok::<(RawField, Seq<u8>), Failure>(
            (RawField::Chunk { field_number: key_of(tag).field_number, buffer: payload }, tail),
        ) by {
        lemma_take_single_group(tag, size + payload + tail);
        lemma_take_single_group(tag, Seq::empty());
        lemma_take_single_group(size, payload + tail);
        lemma_take_single_group(size, Seq::empty());
        assert(tag + size + payload + tail =~= tag + (size + payload + tail));
        assert(size + payload + tail =~= size + (payload + tail));
        assert(tag + Seq::<u8>::empty() =~= tag);
        assert(size + Seq::<u8>::empty() =~= size);
        assert((payload + tail).take(payload.len() as int) =~= payload);
        assert((payload + tail).skip(payload.len() as int) =~= tail);
    }
}

} // verus!

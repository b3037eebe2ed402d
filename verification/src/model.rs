use crate::data::{fields_of, node_count_of, node_counts, Data, RawField};
use crate::decode::{decode, decode_message, lemma_decode_is_flat};
use crate::fixed::{le_u32, le_u64};
use crate::format::{dump, format_as_ascii_and_hex};
use crate::identity::new_identity;
use crate::kind32::Kind32;
use crate::kind64::Kind64;
use crate::kind_varint::KindVarint;
use crate::text::{decimal, push_char, push_decimal, utf8_text};
use vstd::prelude::*;
use vstd::slice::slice_to_vec;
use vstd::string::StringExecFns;

verus! {

/// What the program shows: the form in which bytes are entered, or the tree
/// of the fields decoded from them.
#[derive(Debug)]
pub enum ProtoDec {
    InitialState(InitialState),
    Decoding(DecodingState),
}

/// The form in which the user enters bytes, as text or as a dropped file.
#[derive(Debug)]
pub struct InitialState {
    pub input: String,
    pub drop_zone_active: bool,
    pub uploaded_file: Option<File>,
}

/// A file that was dropped and read.
#[derive(Debug)]
pub struct File {
    pub file_name: String,
    pub buffer: Vec<u8>,
}

/// The mathematical content of a `File`.
pub struct Upload {
    pub file_name: Seq<char>,
    pub buffer: Seq<u8>,
}

/// The mathematical content of an `InitialState`.
pub struct Form {
    pub input: Seq<char>,
    pub drop_zone_active: bool,
    pub uploaded_file: Option<Upload>,
}

/// The mathematical content of a `ProtoDec`.
pub enum Screen {
    InitialState(Form),
    Decoding(Node),
}

impl View for File {
    type V = Upload;

    open spec fn view(&self) -> Upload {
        Upload { file_name: self.file_name@, buffer: self.buffer@ }
    }
}

impl View for InitialState {
    type V = Form;

    open spec fn view(&self) -> Form {
        Form {
            input: self.input@,
            drop_zone_active: self.drop_zone_active,
            uploaded_file: match self.uploaded_file {
                Some(file) => Some(file@),
                None => None,
            },
        }
    }
}

impl View for ProtoDec {
    type V = Screen;

    open spec fn view(&self) -> Screen {
        match self {
            ProtoDec::InitialState(initial_state) => Screen::InitialState(initial_state@),
            ProtoDec::Decoding(decoding_state) => Screen::Decoding(decoding_state@),
        }
    }
}

impl ProtoDec {
    /// The program as it starts: an empty form.
    pub fn new() -> (r: ProtoDec)
        ensures
            r@ == Screen::InitialState(
                Form { input: Seq::empty(), drop_zone_active: false, uploaded_file: None },
            ),
    {
        ProtoDec::InitialState(
            InitialState { input: String::new(), drop_zone_active: false, uploaded_file: None },
        )
    }
}

/// A node of the tree that the user walks: a decoded field with an identity
/// that stays with it, and with the kind under which it is read.
#[derive(Debug)]
pub enum DecodingState {
    Varint { field_number: u128, value: u128, uuid: u128, kind: KindVarint },
    Fixed64 { field_number: u128, buffer: Vec<u8>, uuid: u128, kind: Kind64 },
    Fixed32 { field_number: u128, buffer: Vec<u8>, uuid: u128, kind: Kind32 },
    Chunk { field_number: u128, buffer: Vec<u8>, uuid: u128 },
    Message { field_number: u128, items: Vec<DecodingState>, uuid: u128 },
    Utf8String { field_number: u128, value: String, uuid: u128 },
}

/// What is shown below the labels of a node.
#[derive(Debug, Clone, PartialEq, Eq)]
pub enum Value {
    /// The text of the value.
    Text(String),
    /// The bits of a binary32 floating-point number, for the caller to write
    /// in decimal.
    Binary32(u32),
    /// The bits of a binary64 floating-point number, for the caller to write
    /// in decimal.
    Binary64(u64),
    /// Nothing of its own: the node is a message and shows its items.
    Items,
}

/// The mathematical content of a `Value`.
pub enum Shown {
    Text(Seq<char>),
    Binary32(u32),
    Binary64(u64),
    Items,
}

impl View for Value {
    type V = Shown;

    open spec fn view(&self) -> Shown {
        match self {
            Value::Text(text) => Shown::Text(text@),
            Value::Binary32(bits) => Shown::Binary32(*bits),
            Value::Binary64(bits) => Shown::Binary64(*bits),
            Value::Items => Shown::Items,
        }
    }
}

/// The mathematical content of a `DecodingState`.
pub enum Node {
    Varint { field_number: u128, value: u128, uuid: u128, kind: KindVarint },
    Fixed64 { field_number: u128, buffer: Seq<u8>, uuid: u128, kind: Kind64 },
    Fixed32 { field_number: u128, buffer: Seq<u8>, uuid: u128, kind: Kind32 },
    Chunk { field_number: u128, buffer: Seq<u8>, uuid: u128 },
    Message { field_number: u128, items: Seq<Node>, uuid: u128 },
    Utf8String { field_number: u128, value: Seq<char>, uuid: u128 },
}

impl DecodingState {
    /// The node that this value holds.
    pub open spec fn model(self) -> Node
        decreases self,
    {
        match self {
            DecodingState::Varint { field_number, value, uuid, kind } => Node::Varint {
                field_number,
                value,
                uuid,
                kind,
            },
            DecodingState::Fixed64 { field_number, buffer, uuid, kind } => Node::Fixed64 {
                field_number,
                buffer: buffer@,
                uuid,
                kind,
            },
            DecodingState::Fixed32 { field_number, buffer, uuid, kind } => Node::Fixed32 {
                field_number,
                buffer: buffer@,
                uuid,
                kind,
            },
            DecodingState::Chunk { field_number, buffer, uuid } => Node::Chunk {
                field_number,
                buffer: buffer@,
                uuid,
            },
            DecodingState::Message { field_number, items, uuid } => Node::Message {
                field_number,
                items: Seq::new(
                    items@.len(),
                    |i: int|
                        if 0 <= i < items@.len() {
                            items@[i].model()
                        } else {
                            arbitrary()
                        },
                ),
                uuid,
            },
            DecodingState::Utf8String { field_number, value, uuid } => Node::Utf8String {
                field_number,
                value: value@,
                uuid,
            },
        }
    }
}

impl View for DecodingState {
    type V = Node;

    open spec fn view(&self) -> Node {
        self.model()
    }
}

/// The nodes that a sequence of values holds.
pub open spec fn nodes_of(items: Seq<DecodingState>) -> Seq<Node> {
    Seq::new(items.len(), |i: int| items[i]@)
}

impl Clone for DecodingState {
    fn clone(&self) -> (r: DecodingState)
        ensures
            r@ == self@,
        decreases self,
    {
        match self {
            DecodingState::Varint { field_number, value, uuid, kind } => DecodingState::Varint {
                field_number: *field_number,
                value: *value,
                uuid: *uuid,
                kind: *kind,
            },
            DecodingState::Fixed64 { field_number, buffer, uuid, kind } => DecodingState::Fixed64 {
                field_number: *field_number,
                buffer: slice_to_vec(buffer.as_slice()),
                uuid: *uuid,
                kind: *kind,
            },
            DecodingState::Fixed32 { field_number, buffer, uuid, kind } => DecodingState::Fixed32 {
                field_number: *field_number,
                buffer: slice_to_vec(buffer.as_slice()),
                uuid: *uuid,
                kind: *kind,
            },
            DecodingState::Chunk { field_number, buffer, uuid } => DecodingState::Chunk {
                field_number: *field_number,
                buffer: slice_to_vec(buffer.as_slice()),
                uuid: *uuid,
            },
            DecodingState::Message { field_number, items, uuid } => {
                let mut copies: Vec<DecodingState> = Vec::new();
                let mut i: usize = 0;
                while i < items.len()
                    invariant
                        i <= items.len(),
                        copies.len() == i,
                        *self is Message && self->items == *items,
                        forall|j: int| 0 <= j < i ==> copies@[j]@ == (#[trigger] items@[j])@,
                    decreases items.len() - i,
                {
                    assert(decreases_to!(*items => items[i as int]));
                    copies.push(items[i].clone());
                    i += 1;
                }
                let r = DecodingState::Message {
                    field_number: *field_number,
                    items: copies,
                    uuid: *uuid,
                };
                assert(r@->items =~= self@->items);
                r
            },
            DecodingState::Utf8String { field_number, value, uuid } => DecodingState::Utf8String {
                field_number: *field_number,
                value: value.clone(),
                uuid: *uuid,
            },
        }
    }
}

impl Node {
    /// The identity of the node.
    pub open spec fn uuid(self) -> u128 {
        match self {
            Node::Varint { uuid, .. } => uuid,
            Node::Fixed64 { uuid, .. } => uuid,
            Node::Fixed32 { uuid, .. } => uuid,
            Node::Chunk { uuid, .. } => uuid,
            Node::Message { uuid, .. } => uuid,
            Node::Utf8String { uuid, .. } => uuid,
        }
    }

    /// The number of the field that the node shows.
    pub open spec fn field_number(self) -> u128 {
        match self {
            Node::Varint { field_number, .. } => field_number,
            Node::Fixed64 { field_number, .. } => field_number,
            Node::Fixed32 { field_number, .. } => field_number,
            Node::Chunk { field_number, .. } => field_number,
            Node::Message { field_number, .. } => field_number,
            Node::Utf8String { field_number, .. } => field_number,
        }
    }

    /// The label of the field number: its decimal notation, padded on the
    /// right with a space to two characters.
    pub open spec fn field_label(self) -> Seq<char> {
        if self.field_number() < 10 {
            decimal(self.field_number() as nat) + seq![' ']
        } else {
            decimal(self.field_number() as nat)
        }
    }

    /// The label of the kind under which the node is read.
    pub open spec fn kind_label(self) -> Seq<char> {
        match self {
            Node::Varint { kind, .. } => "<varint "@ + kind.label() + ">"@,
            Node::Fixed64 { kind, .. } => "<fix 64 "@ + kind.label() + ">"@,
            Node::Fixed32 { kind, .. } => "<fix 32 "@ + kind.label() + ">"@,
            Node::Chunk { .. } => "<chunk>"@,
            Node::Message { .. } => "<msg>"@,
            Node::Utf8String { .. } => "<utf-8>"@,
        }
    }

    /// True where the node has the bytes that its kind reads: eight in a
    /// 64-bit field and four in a 32-bit field, unless it is read as a raw
    /// buffer.
    pub open spec fn can_show(self) -> bool {
        match self {
            Node::Fixed64 { buffer, kind, .. } => kind == Kind64::Buffer || buffer.len() >= 8,
            Node::Fixed32 { buffer, kind, .. } => kind == Kind32::Buffer || buffer.len() >= 4,
            _ => true,
        }
    }

    /// What is shown below the labels of the node: a number under its kind,
    /// the dump of a chunk, a text as it is, and nothing for a message.
    pub open spec fn value(self) -> Shown {
        match self {
            Node::Varint { value, kind, .. } => Shown::Text(kind.value_text(value)),
            Node::Fixed64 { buffer, kind, .. } => match kind.value_text(buffer) {
                Some(text) => Shown::Text(text),
                None => Shown::Binary64(le_u64(buffer) as u64),
            },
            Node::Fixed32 { buffer, kind, .. } => match kind.value_text(buffer) {
                Some(text) => Shown::Text(text),
                None => Shown::Binary32(le_u32(buffer) as u32),
            },
            Node::Chunk { buffer, .. } => Shown::Text(dump(buffer)),
            Node::Message { .. } => Shown::Items,
            Node::Utf8String { value, .. } => Shown::Text(value),
        }
    }

    /// True where this node is `field` lifted into the tree: it shows what the
    /// field holds, reads a number under the default kind (unsigned), and
    /// has the lifted items of a message as its own, in their order. The
    /// identities are whatever was drawn.
    pub open spec fn lifts(self, field: RawField) -> bool
        decreases field,
    {
        match field {
            RawField::Varint { field_number, value } => self matches Node::Varint {
                field_number: number,
                value: shown,
                kind,
                ..
            } && number == field_number && shown == value && kind == KindVarint::Unsigned,
            RawField::Fixed64 { field_number, buffer } => self matches Node::Fixed64 {
                field_number: number,
                buffer: shown,
                kind,
                ..
            } && number == field_number && shown == buffer && kind == Kind64::Fixed64,
            RawField::Fixed32 { field_number, buffer } => self matches Node::Fixed32 {
                field_number: number,
                buffer: shown,
                kind,
                ..
            } && number == field_number && shown == buffer && kind == Kind32::Fixed32,
            RawField::Chunk { field_number, buffer } => self matches Node::Chunk {
                field_number: number,
                buffer: shown,
                ..
            } && number == field_number && shown == buffer,
            RawField::Message { field_number, items } => self matches Node::Message {
                field_number: number,
                items: nodes,
                ..
            } && number == field_number && nodes.len() == items.len() && forall|i: int|
                0 <= i < items.len() ==> (#[trigger] nodes[i]).lifts(items[i]),
        }
    }
}

impl Node {
    /// True where the node or one below it is a number with identity `id`:
    /// what a toggle of `id` looks for.
    pub open spec fn holds_scalar(self, id: u128) -> bool
        decreases self,
    {
        match self {
            Node::Varint { uuid, .. } => uuid == id,
            Node::Fixed64 { uuid, .. } => uuid == id,
            Node::Fixed32 { uuid, .. } => uuid == id,
            Node::Message { items, .. } => exists|k: int|
                0 <= k < items.len() && (#[trigger] items[k]).holds_scalar(id),
            _ => false,
        }
    }

    /// True where the node or one below it is a chunk with identity `id`: what
    /// a reinterpretation of `id` looks for.
    pub open spec fn holds_chunk(self, id: u128) -> bool
        decreases self,
    {
        match self {
            Node::Chunk { uuid, .. } => uuid == id,
            Node::Message { items, .. } => exists|k: int|
                0 <= k < items.len() && (#[trigger] items[k]).holds_chunk(id),
            _ => false,
        }
    }

    /// True where `items[k]` is the first of `items` that holds a number with
    /// identity `id`.
    pub open spec fn first_with_scalar(items: Seq<Node>, id: u128, k: int) -> bool {
        &&& 0 <= k < items.len()
        &&& items[k].holds_scalar(id)
        &&& forall|j: int| 0 <= j < k ==> !(#[trigger] items[j]).holds_scalar(id)
    }

    /// True where `items[k]` is the first of `items` that holds a chunk with
    /// identity `id`.
    pub open spec fn first_with_chunk(items: Seq<Node>, id: u128, k: int) -> bool {
        &&& 0 <= k < items.len()
        &&& items[k].holds_chunk(id)
        &&& forall|j: int| 0 <= j < k ==> !(#[trigger] items[j]).holds_chunk(id)
    }

    /// The tree after a toggle of `id`: the first number with that identity,
    /// in the order in which the tree is read from the top, moves on to the
    /// next kind of its cycle. Nothing else changes, and nothing at all where
    /// no number has the identity.
    pub open spec fn toggled(self, id: u128) -> Node
        decreases self,
    {
        match self {
            Node::Varint { field_number, value, uuid, kind } => if uuid == id {
                Node::Varint { field_number, value, uuid, kind: kind.next() }
            } else {
                self
            },
            Node::Fixed64 { field_number, buffer, uuid, kind } => if uuid == id {
                Node::Fixed64 { field_number, buffer, uuid, kind: kind.next() }
            } else {
                self
            },
            Node::Fixed32 { field_number, buffer, uuid, kind } => if uuid == id {
                Node::Fixed32 { field_number, buffer, uuid, kind: kind.next() }
            } else {
                self
            },
            Node::Message { field_number, items, uuid } => Node::Message {
                field_number,
                items: Seq::new(
                    items.len(),
                    |k: int|
                        if 0 <= k < items.len() && Self::first_with_scalar(items, id, k) {
                            items[k].toggled(id)
                        } else {
                            items[k]
                        },
                ),
                uuid,
            },
            _ => self,
        }
    }

    /// The tree after the chunk `id` was read as text: the first chunk with
    /// that identity, in the order in which the tree is read from the top,
    /// becomes the text that its bytes spell in UTF-8, under the same
    /// identity and field number. Nothing changes where the bytes are no
    /// UTF-8, or where no chunk has the identity.
    pub open spec fn with_text(self, id: u128) -> Node
        decreases self,
    {
        match self {
            Node::Chunk { field_number, buffer, uuid } => if uuid == id && vstd::utf8::valid_utf8(
                buffer,
            ) {
                Node::Utf8String { field_number, value: vstd::utf8::decode_utf8(buffer), uuid }
            } else {
                self
            },
            Node::Message { field_number, items, uuid } => Node::Message {
                field_number,
                items: Seq::new(
                    items.len(),
                    |k: int|
                        if 0 <= k < items.len() && Self::first_with_chunk(items, id, k) {
                            items[k].with_text(id)
                        } else {
                            items[k]
                        },
                ),
                uuid,
            },
            _ => self,
        }
    }

    /// True where `after` is the tree after the chunk `id` was read as a
    /// message: the first chunk with that identity, in the order in which the
    /// tree is read from the top, becomes a message under the same identity
    /// and field number, whose items are the fields decoded from its bytes,
    /// lifted into the tree. Nothing changes where the bytes cannot be
    /// decoded, or where no chunk has the identity.
    pub open spec fn with_message(self, after: Node, id: u128) -> bool
        decreases self,
    {
        match self {
            Node::Chunk { field_number, buffer, uuid } => if uuid == id {
                match decode(buffer) {
                    Ok(fields) => after matches Node::Message {
                        field_number: number,
                        items,
                        uuid: identity,
                    } && number == field_number && identity == uuid && lift_all(items, fields),
                    Err(_) => after == self,
                }
            } else {
                after == self
            },
            Node::Message { field_number, items, uuid } => after matches Node::Message {
                field_number: number,
                items: changed,
                uuid: identity,
            } && number == field_number && identity == uuid && changed.len() == items.len()
                && forall|k: int|
                0 <= k < items.len() ==> if Self::first_with_chunk(items, id, k) {
                    (#[trigger] items[k]).with_message(changed[k], id)
                } else {
                    changed[k] == items[k]
                },
            _ => after == self,
        }
    }

    /// A toggle of an identity that no number has changes nothing.
    pub proof fn lemma_toggled_absent(self, id: u128)
        ensures
            !self.holds_scalar(id) ==> self.toggled(id) == self,
        decreases self,
    {
        if let Node::Message { items, .. } = self {
            if !self.holds_scalar(id) {
                assert(self.toggled(id)->items =~= items);
            }
        }
    }

    /// Reading as text a chunk that is not in the tree changes nothing.
    pub proof fn lemma_with_text_absent(self, id: u128)
        ensures
            !self.holds_chunk(id) ==> self.with_text(id) == self,
        decreases self,
    {
        if let Node::Message { items, .. } = self {
            if !self.holds_chunk(id) {
                assert(self.with_text(id)->items =~= items);
            }
        }
    }

    /// Reading as a message a chunk that is not in the tree changes nothing.
    pub proof fn lemma_with_message_absent(self, after: Node, id: u128)
        ensures
            !self.holds_chunk(id) ==> (self.with_message(after, id) <==> after == self),
        decreases self,
    {
        if let Node::Message { items, .. } = self {
            if !self.holds_chunk(id) {
                if self.with_message(after, id) {
                    assert(after->items =~= items);
                }
            }
        }
    }
}

impl Node {
    /// The number of identities that reading the chunk `id` as a message
    /// draws: one for every field decoded from the bytes of the first chunk
    /// with that identity, and none where no chunk has the identity or its
    /// bytes cannot be decoded.
    pub open spec fn identities_needed(self, id: u128) -> nat
        decreases self,
    {
        match self {
            Node::Chunk { buffer, uuid, .. } => if uuid == id {
                match decode(buffer) {
                    Ok(fields) => fields.len(),
                    Err(_) => 0,
                }
            } else {
                0
            },
            Node::Message { items, .. } => {
                let k = choose|k: int| Self::first_with_chunk(items, id, k);
                if 0 <= k < items.len() && Self::first_with_chunk(items, id, k) {
                    items[k].identities_needed(id)
                } else {
                    0
                }
            },
            _ => 0,
        }
    }

    /// The identities of the items that reading the chunk `id` as a message
    /// put into the tree, in their order, where `after` is the tree after
    /// that. Empty where nothing was put.
    pub open spec fn fresh_identities(self, after: Node, id: u128) -> Seq<u128>
        decreases self,
    {
        match self {
            Node::Chunk { buffer, uuid, .. } => if uuid == id && decode(buffer) is Ok
                && after is Message {
                Seq::new(after->items.len(), |i: int| after->items[i].uuid())
            } else {
                Seq::empty()
            },
            Node::Message { items, .. } => {
                let k = choose|k: int| Self::first_with_chunk(items, id, k);
                if 0 <= k < items.len() && Self::first_with_chunk(items, id, k) && after is Message
                    && after->items.len() == items.len() {
                    items[k].fresh_identities(after->items[k], id)
                } else {
                    Seq::empty()
                }
            },
            _ => Seq::empty(),
        }
    }

    /// No two of `items` are the first to hold a chunk with identity `id`.
    pub proof fn lemma_first_chunk_is_unique(items: Seq<Node>, id: u128, k: int, other: int)
        requires
            Self::first_with_chunk(items, id, k),
            Self::first_with_chunk(items, id, other),
        ensures
            k == other,
    {
        if k < other {
            assert(!items[k].holds_chunk(id));
        }
        if other < k {
            assert(!items[other].holds_chunk(id));
        }
    }

    /// In a message, reading the chunk `id` as a message needs and puts what
    /// it needs and puts in the first item that holds the chunk.
    pub proof fn lemma_fresh_in_message(self, after: Node, id: u128, k: int)
        requires
            self is Message,
            Self::first_with_chunk(self->items, id, k),
        ensures
            self.identities_needed(id) == self->items[k].identities_needed(id),
            after is Message && after->items.len() == self->items.len()
                ==> self.fresh_identities(after, id) == self->items[k].fresh_identities(
                after->items[k],
                id,
            ),
    {
        let chosen = choose|c: int| Self::first_with_chunk(self->items, id, c);
        Self::lemma_first_chunk_is_unique(self->items, id, k, chosen);
    }

    /// Reading as a message a chunk that is not in the tree draws no
    /// identity and puts none.
    pub proof fn lemma_absent_needs_nothing(self, after: Node, id: u128)
        requires
            !self.holds_chunk(id),
        ensures
            self.identities_needed(id) == 0,
            self.fresh_identities(after, id) == Seq::<u128>::empty(),
    {
        if let Node::Message { items, .. } = self {
            let chosen = choose|c: int| Self::first_with_chunk(items, id, c);
            if 0 <= chosen < items.len() && Self::first_with_chunk(items, id, chosen) {
                assert(items[chosen].holds_chunk(id));
            }
        }
    }

    /// The identities of nodes that are no messages are their own, one each.
    pub proof fn lemma_identities_of_leaves(nodes: Seq<Node>)
        requires
            forall|i: int| 0 <= i < nodes.len() ==> !((#[trigger] nodes[i]) is Message),
        ensures
            identities_of(nodes) == Seq::new(nodes.len(), |i: int| nodes[i].uuid()),
        decreases nodes.len(),
    {
        let own = Seq::new(nodes.len(), |i: int| nodes[i].uuid());
        if nodes.len() == 0 {
            assert(identities_of(nodes) =~= own);
        } else {
            let before = nodes.drop_last();
            assert forall|i: int| 0 <= i < before.len() implies !((#[trigger] before[i]) is Message) by {
                assert(before[i] == nodes[i]);
            }
            Self::lemma_identities_of_leaves(before);
            assert(identity_lists(nodes).drop_last() =~= identity_lists(before));
            assert(!(nodes[nodes.len() - 1] is Message));
            assert(identity_lists(nodes).last() == seq![nodes.last().uuid()]);
            assert(identities_of(nodes) =~= own);
        }
    }

    /// The items of a chunk that was read as a message carry the identities
    /// that were drawn for them, one each and in their order, below the
    /// identity of the chunk. So where the drawn identities differ from one
    /// another and from the chunk's, every node of the message has an
    /// identity of its own.
    pub proof fn lemma_new_items_carry_tokens(self, after: Node, id: u128, ids: Seq<u128>)
        requires
            self is Chunk,
            self.uuid() == id,
            decode(self->Chunk_buffer) is Ok,
            self.with_message(after, id),
            self.fresh_identities(after, id) == ids,
        ensures
            after is Message,
            after.uuid() == id,
            after->items.len() == ids.len(),
            forall|i: int| 0 <= i < ids.len() ==> (#[trigger] after->items[i]).uuid() == ids[i],
            after.identities() == seq![id] + ids,
            !ids.contains(id) ==> forall|i: int|
                0 <= i < ids.len() ==> (#[trigger] after->items[i]).uuid() != after.uuid(),
            ids.no_duplicates() && !ids.contains(id) ==> after.identities().no_duplicates(),
    {
        self.lemma_fresh_items_are_flat(after, id);
        Self::lemma_identities_of_leaves(after->items);
        assert(identities_of(after->items) =~= ids);
        assert forall|i: int| 0 <= i < ids.len() implies (#[trigger] after->items[i]).uuid()
            == ids[i] by {
            assert(ids[i] == Seq::new(after->items.len(), |j: int| after->items[j].uuid())[i]);
        }
        if !ids.contains(id) {
            assert forall|i: int| 0 <= i < ids.len() implies (#[trigger] after->items[i]).uuid()
                != after.uuid() by {
                assert(ids.contains(ids[i]));
            }
            if ids.no_duplicates() {
                let all = seq![id] + ids;
                assert forall|i: int, j: int| 0 <= i < all.len() && 0 <= j < all.len() && i
                    != j implies all[i] != all[j] by {
                    if i > 0 {
                        assert(ids.contains(ids[i - 1]));
                    }
                    if j > 0 {
                        assert(ids.contains(ids[j - 1]));
                    }
                }
            }
        }
    }
}

/// The identities of lists of which one has grown are those of before and
/// what that one has gained.
proof fn lemma_concat_all_gains(
    lists: Seq<Seq<u128>>,
    changed: Seq<Seq<u128>>,
    k: int,
    gained: Seq<u128>,
)
    requires
        0 <= k < lists.len(),
        changed.len() == lists.len(),
        forall|j: int| 0 <= j < lists.len() && j != k ==> changed[j] == lists[j],
        changed[k].to_multiset() == lists[k].to_multiset().add(gained.to_multiset()),
    ensures
        concat_all(changed).to_multiset() == concat_all(lists).to_multiset().add(
            gained.to_multiset(),
        ),
    decreases lists.len(),
{
    let last = lists.len() - 1;
    vstd::seq_lib::lemma_multiset_commutative(concat_all(lists.drop_last()), lists.last());
    vstd::seq_lib::lemma_multiset_commutative(concat_all(changed.drop_last()), changed.last());
    if k == last {
        assert(changed.drop_last() =~= lists.drop_last());
    } else {
        lemma_concat_all_gains(lists.drop_last(), changed.drop_last(), k, gained);
    }
    assert(concat_all(changed).to_multiset() =~= concat_all(lists).to_multiset().add(
        gained.to_multiset(),
    ));
}

impl Node {
    /// Reading a chunk as a message keeps every identity of the tree and adds
    /// those of the new items, whatever the place of the chunk in the tree.
    pub proof fn lemma_with_message_identities(self, after: Node, id: u128)
        requires
            self.with_message(after, id),
        ensures
            after.identities().to_multiset() == self.identities().to_multiset().add(
                self.fresh_identities(after, id).to_multiset(),
            ),
        decreases self,
    {
        let fresh = self.fresh_identities(after, id);
        if !self.holds_chunk(id) {
            self.lemma_with_message_absent(after, id);
            self.lemma_absent_needs_nothing(after, id);
            fresh.to_multiset_ensures();
            assert(fresh.to_multiset() =~= vstd::multiset::Multiset::<u128>::empty());
            assert(after.identities().to_multiset() =~= self.identities().to_multiset().add(
                fresh.to_multiset(),
            ));
        } else {
            match self {
                Node::Chunk { buffer, .. } => {
                    if decode(buffer) is Ok {
                        self.lemma_new_items_carry_tokens(after, id, fresh);
                        vstd::seq_lib::lemma_multiset_commutative(seq![id], fresh);
                    } else {
                        fresh.to_multiset_ensures();
                        assert(fresh.to_multiset() =~= vstd::multiset::Multiset::<u128>::empty());
                        assert(after.identities().to_multiset()
                            =~= self.identities().to_multiset().add(fresh.to_multiset()));
                    }
                },
                Node::Message { items, uuid, .. } => {
                    let j = choose|j: int| 0 <= j < items.len() && (#[trigger] items[j]).holds_chunk(id);
                    Self::lemma_first_with_chunk_exists(items, id, j);
                    let k = choose|k: int| Self::first_with_chunk(items, id, k);
                    self.lemma_fresh_in_message(after, id, k);
                    let changed = after->items;
                    items[k].lemma_with_message_identities(changed[k], id);
                    assert forall|j: int| 0 <= j < items.len() && j != k implies identity_lists(
                        changed,
                    )[j] == identity_lists(items)[j] by {
                        if Self::first_with_chunk(items, id, j) {
                            Self::lemma_first_chunk_is_unique(items, id, k, j);
                        }
                        assert(changed[j] == items[j]);
                    }
                    lemma_concat_all_gains(identity_lists(items), identity_lists(changed), k, fresh);
                    vstd::seq_lib::lemma_multiset_commutative(
                        seq![uuid],
                        concat_all(identity_lists(items)),
                    );
                    vstd::seq_lib::lemma_multiset_commutative(
                        seq![uuid],
                        concat_all(identity_lists(changed)),
                    );
                    assert(after.identities().to_multiset() =~= self.identities().to_multiset().add(
                        fresh.to_multiset(),
                    ));
                },
                _ => {},
            }
        }
    }

    /// Where one of `items` holds a chunk with identity `id`, one of them is
    /// the first to do so.
    pub proof fn lemma_first_with_chunk_exists(items: Seq<Node>, id: u128, upto: int)
        requires
            0 <= upto < items.len(),
            items[upto].holds_chunk(id),
        ensures
            exists|k: int| Self::first_with_chunk(items, id, k),
        decreases upto,
    {
        if exists|j: int| 0 <= j < upto && (#[trigger] items[j]).holds_chunk(id) {
            let j = choose|j: int| 0 <= j < upto && (#[trigger] items[j]).holds_chunk(id);
            Self::lemma_first_with_chunk_exists(items, id, j);
        } else {
            assert(Self::first_with_chunk(items, id, upto));
        }
    }

    /// Identities stay unique: where every node of the tree has an identity
    /// of its own, and the identities drawn for the new items differ from one
    /// another and from those of the tree, every node of the tree after the
    /// chunk was read as a message has an identity of its own.
    pub proof fn lemma_with_message_keeps_identities_distinct(self, after: Node, id: u128)
        requires
            self.with_message(after, id),
            self.identities().no_duplicates(),
            self.fresh_identities(after, id).no_duplicates(),
            forall|token: u128|
                self.fresh_identities(after, id).contains(token) ==> !self.identities().contains(
                    token,
                ),
        ensures
            after.identities().no_duplicates(),
    {
        let fresh = self.fresh_identities(after, id);
        let was = self.identities();
        self.lemma_with_message_identities(after, id);
        was.lemma_multiset_has_no_duplicates();
        fresh.lemma_multiset_has_no_duplicates();
        was.to_multiset_ensures();
        fresh.to_multiset_ensures();
        let now = after.identities().to_multiset();
        assert forall|x: u128| now.contains(x) implies now.count(x) == 1 by {
            assert(now.count(x) == was.to_multiset().count(x) + fresh.to_multiset().count(x));
            if fresh.contains(x) {
                assert(!was.contains(x));
            }
        }
        after.identities().lemma_multiset_has_no_duplicates_conv();
    }
}

impl Node {
    /// The tree after `n` toggles of `id`.
    pub open spec fn toggled_times(self, id: u128, n: nat) -> Node
        decreases n,
    {
        if n == 0 {
            self
        } else {
            self.toggled_times(id, (n - 1) as nat).toggled(id)
        }
    }

    /// The length of the cycle of kinds of the number that a toggle of `id`
    /// reaches: two for a varint, four for a 32-bit and a 64-bit field, and
    /// zero where it reaches none.
    pub open spec fn cycle_len(self, id: u128) -> nat
        decreases self,
    {
        match self {
            Node::Varint { uuid, .. } => if uuid == id {
                2
            } else {
                0
            },
            Node::Fixed64 { uuid, .. } => if uuid == id {
                4
            } else {
                0
            },
            Node::Fixed32 { uuid, .. } => if uuid == id {
                4
            } else {
                0
            },
            Node::Message { items, .. } => {
                let k = choose|k: int| Self::first_with_scalar(items, id, k);
                if 0 <= k < items.len() && Self::first_with_scalar(items, id, k) {
                    items[k].cycle_len(id)
                } else {
                    0
                }
            },
            _ => 0,
        }
    }

    /// Where one of `items` holds a number with identity `id`, one of them
    /// is the first to do so.
    pub proof fn lemma_first_with_scalar_exists(items: Seq<Node>, id: u128, upto: int)
        requires
            0 <= upto < items.len(),
            items[upto].holds_scalar(id),
        ensures
            exists|k: int| Self::first_with_scalar(items, id, k),
        decreases upto,
    {
        if exists|j: int| 0 <= j < upto && (#[trigger] items[j]).holds_scalar(id) {
            let j = choose|j: int| 0 <= j < upto && (#[trigger] items[j]).holds_scalar(id);
            Self::lemma_first_with_scalar_exists(items, id, j);
        } else {
            assert(Self::first_with_scalar(items, id, upto));
        }
    }

    /// A toggle moves no number and takes no identity away: it reaches the
    /// same number again.
    pub proof fn lemma_toggled_keeps_target(self, id: u128)
        ensures
            self.toggled(id).holds_scalar(id) == self.holds_scalar(id),
            self.toggled(id).cycle_len(id) == self.cycle_len(id),
        decreases self,
    {
        if let Node::Message { items, .. } = self {
            let changed = self.toggled(id)->items;
            assert forall|j: int| 0 <= j < items.len() implies (#[trigger] changed[j]).holds_scalar(
                id,
            ) == items[j].holds_scalar(id) && changed[j].cycle_len(id) == items[j].cycle_len(id) by {
                items[j].lemma_toggled_keeps_target(id);
            }
            assert forall|k: int|
                Self::first_with_scalar(changed, id, k) == Self::first_with_scalar(
                    items,
                    id,
                    k,
                ) by {
                if Self::first_with_scalar(items, id, k) {
                    assert(forall|j: int| 0 <= j < k ==> !(#[trigger] changed[j]).holds_scalar(id));
                }
                if Self::first_with_scalar(changed, id, k) {
                    assert(forall|j: int|
                        0 <= j < k ==> !(#[trigger] items[j]).holds_scalar(id)
                            == !changed[j].holds_scalar(id));
                }
            }
            if self.holds_scalar(id) {
                let j = choose|j: int| 0 <= j < items.len() && (#[trigger] items[j]).holds_scalar(id);
                assert(changed[j].holds_scalar(id));
            }
            if self.toggled(id).holds_scalar(id) {
                let j = choose|j: int|
                    0 <= j < changed.len() && (#[trigger] changed[j]).holds_scalar(id);
                assert(items[j].holds_scalar(id));
            }
            let k = choose|k: int| Self::first_with_scalar(items, id, k);
            let k2 = choose|k: int| Self::first_with_scalar(changed, id, k);
            if Self::first_with_scalar(items, id, k) {
                assert(Self::first_with_scalar(changed, id, k));
                assert(Self::first_with_scalar(changed, id, k2));
                assert(Self::first_with_scalar(items, id, k2));
                Self::lemma_first_is_unique(items, id, k, k2);
            } else {
                if Self::first_with_scalar(changed, id, k2) {
                    assert(Self::first_with_scalar(items, id, k2));
                }
            }
        }
    }

    /// No two of `items` are the first to hold a number with identity `id`.
    pub proof fn lemma_first_is_unique(items: Seq<Node>, id: u128, k: int, other: int)
        requires
            Self::first_with_scalar(items, id, k),
            Self::first_with_scalar(items, id, other),
        ensures
            k == other,
    {
        if k < other {
            assert(!items[k].holds_scalar(id));
        }
        if other < k {
            assert(!items[other].holds_scalar(id));
        }
    }

    /// Toggles of a message are toggles of the first of its items that holds
    /// the number: after `n` toggles that item is toggled `n` times, and the
    /// rest is as it was.
    pub proof fn lemma_toggled_times_of_message(self, id: u128, n: nat, k: int)
        requires
            self is Message,
            Self::first_with_scalar(self->items, id, k),
        ensures
            self.toggled_times(id, n) matches Node::Message { field_number, items, uuid }
                && field_number == self.field_number() && uuid == self.uuid() && items
                == self->items.update(k, self->items[k].toggled_times(id, n)),
            Self::first_with_scalar(self.toggled_times(id, n)->items, id, k),
        decreases n,
    {
        let items = self->items;
        if n == 0 {
            assert(items.update(k, items[k]) =~= items);
        } else {
            let m = (n - 1) as nat;
            self.lemma_toggled_times_of_message(id, m, k);
            let before = self.toggled_times(id, m);
            let between = before->items;
            before.lemma_toggled_keeps_target(id);
            let after = before.toggled(id)->items;
            assert(after =~= items.update(k, items[k].toggled_times(id, n))) by {
                assert forall|j: int| 0 <= j < items.len() implies after[j] == items.update(
                    k,
                    items[k].toggled_times(id, n),
                )[j] by {
                    if j != k && Self::first_with_scalar(between, id, j) {
                        Self::lemma_first_is_unique(between, id, k, j);
                    }
                }
            }
            between[k].lemma_toggled_keeps_target(id);
            assert forall|j: int| 0 <= j < k implies !(#[trigger] after[j]).holds_scalar(id) by {
                assert(after[j] == between[j]);
            }
        }
    }

    /// Toggle cycles are closed: as many toggles as the cycle of the number
    /// is long bring the tree back to what it was, and no fewer do.
    pub proof fn lemma_toggle_cycle(self, id: u128)
        requires
            self.holds_scalar(id),
        ensures
            self.cycle_len(id) == 2 || self.cycle_len(id) == 4,
            self.toggled_times(id, self.cycle_len(id)) == self,
            forall|n: nat| 0 < n < self.cycle_len(id) ==> #[trigger] self.toggled_times(id, n) != self,
        decreases self,
    {
        reveal_with_fuel(Node::toggled_times, 5);
        match self {
            Node::Varint { kind, .. } => {
                kind.lemma_toggle_cycle();
            },
            Node::Fixed64 { kind, .. } => {
                kind.lemma_toggle_cycle();
                kind.next().lemma_toggle_cycle();
            },
            Node::Fixed32 { kind, .. } => {
                kind.lemma_toggle_cycle();
                kind.next().lemma_toggle_cycle();
            },
            Node::Message { items, .. } => {
                let j = choose|j: int| 0 <= j < items.len() && (#[trigger] items[j]).holds_scalar(id);
                Self::lemma_first_with_scalar_exists(items, id, j);
                let k = choose|k: int| Self::first_with_scalar(items, id, k);
                items[k].lemma_toggle_cycle(id);
                let len = self.cycle_len(id);
                assert(len == items[k].cycle_len(id));
                self.lemma_toggled_times_of_message(id, len, k);
                assert(items.update(k, items[k]) =~= items);
                assert forall|n: nat| 0 < n < len implies #[trigger] self.toggled_times(id, n)
                    != self by {
                    self.lemma_toggled_times_of_message(id, n, k);
                    assert(items[k].toggled_times(id, n) != items[k]);
                    assert(self.toggled_times(id, n)->items[k] != items[k]);
                }
            },
            _ => {},
        }
    }

    /// Four toggles of any identity bring any tree back to what it was.
    pub proof fn lemma_four_toggles(self, id: u128)
        ensures
            self.toggled(id).toggled(id).toggled(id).toggled(id) == self,
    {
        reveal_with_fuel(Node::toggled_times, 5);
        if self.holds_scalar(id) {
            self.lemma_toggle_cycle(id);
            if self.cycle_len(id) == 2 {
                let twice = self.toggled_times(id, 2);
                assert(twice == self);
            }
        } else {
            self.lemma_toggled_absent(id);
        }
    }

    /// True where every 64-bit field in and below this node has a payload of
    /// eight bytes, and every 32-bit field one of four: what a tree has that
    /// was lifted from decoded fields and changed by the operations of the
    /// tree only.
    pub open spec fn well_formed(self) -> bool
        decreases self,
    {
        match self {
            Node::Fixed64 { buffer, .. } => buffer.len() == 8,
            Node::Fixed32 { buffer, .. } => buffer.len() == 4,
            Node::Message { items, .. } => forall|i: int|
                0 <= i < items.len() ==> (#[trigger] items[i]).well_formed(),
            _ => true,
        }
    }

    /// A node with the widths of its payloads can be shown.
    pub proof fn lemma_well_formed_can_show(self)
        requires
            self.well_formed(),
        ensures
            self.can_show(),
    {
    }

    /// Lifting keeps the widths of the payloads.
    pub proof fn lemma_lift_is_well_formed(self, field: RawField)
        requires
            self.lifts(field),
            field.well_formed(),
        ensures
            self.well_formed(),
        decreases field,
    {
        if let RawField::Message { items, .. } = field {
            let nodes = self->items;
            assert forall|i: int| 0 <= i < nodes.len() implies (#[trigger] nodes[i]).well_formed() by {
                assert(items[i].well_formed());
                nodes[i].lemma_lift_is_well_formed(items[i]);
            }
        }
    }

    /// A toggle keeps the widths of the payloads.
    pub proof fn lemma_toggled_is_well_formed(self, id: u128)
        requires
            self.well_formed(),
        ensures
            self.toggled(id).well_formed(),
        decreases self,
    {
        if let Node::Message { items, .. } = self {
            let changed = self.toggled(id)->items;
            assert forall|i: int| 0 <= i < changed.len() implies (
            #[trigger] changed[i]).well_formed() by {
                assert(items[i].well_formed());
                items[i].lemma_toggled_is_well_formed(id);
            }
        }
    }

    /// Reading a chunk as text keeps the widths of the payloads.
    pub proof fn lemma_with_text_is_well_formed(self, id: u128)
        requires
            self.well_formed(),
        ensures
            self.with_text(id).well_formed(),
        decreases self,
    {
        if let Node::Message { items, .. } = self {
            let changed = self.with_text(id)->items;
            assert forall|i: int| 0 <= i < changed.len() implies (
            #[trigger] changed[i]).well_formed() by {
                assert(items[i].well_formed());
                items[i].lemma_with_text_is_well_formed(id);
            }
        }
    }

    /// Reading a chunk as a message keeps the widths of the payloads, and
    /// gives the new items theirs.
    pub proof fn lemma_with_message_is_well_formed(self, after: Node, id: u128)
        requires
            self.well_formed(),
            self.with_message(after, id),
        ensures
            after.well_formed(),
        decreases self,
    {
        match self {
            Node::Chunk { buffer, uuid, .. } => {
                if uuid == id {
                    if let Ok(fields) = decode(buffer) {
                        lemma_decode_is_flat(buffer);
                        let nodes = after->items;
                        assert forall|i: int| 0 <= i < nodes.len() implies (
                        #[trigger] nodes[i]).well_formed() by {
                            assert(fields[i].is_flat());
                            nodes[i].lemma_lift_is_well_formed(fields[i]);
                        }
                    }
                }
            },
            Node::Message { items, .. } => {
                let changed = after->items;
                assert forall|i: int| 0 <= i < changed.len() implies (
                #[trigger] changed[i]).well_formed() by {
                    assert(items[i].well_formed());
                    if Self::first_with_chunk(items, id, i) {
                        items[i].lemma_with_message_is_well_formed(changed[i], id);
                    }
                }
            },
            _ => {},
        }
    }

    /// A chunk that was read as a message is not expanded any further: its
    /// items are as many as the fields decoded from its bytes, none of them
    /// is a message, and those that come from length-delimited fields are
    /// chunks still.
    pub proof fn lemma_fresh_items_are_flat(self, after: Node, id: u128)
        requires
            self is Chunk,
            self.uuid() == id,
            decode(self->Chunk_buffer) is Ok,
            self.with_message(after, id),
        ensures
            after is Message,
            after.uuid() == id,
            after.field_number() == self.field_number(),
            lift_all(after->items, decode(self->Chunk_buffer)->Ok_0),
            forall|i: int|
                0 <= i < after->items.len() ==> !((#[trigger] after->items[i]) is Message) && (
                after->items[i] is Chunk <==> decode(
                    self->Chunk_buffer,
                )->Ok_0[i] is Chunk),
    {
        let fields = decode(self->Chunk_buffer)->Ok_0;
        lemma_decode_is_flat(self->Chunk_buffer);
        assert forall|i: int| 0 <= i < after->items.len() implies !((
        #[trigger] after->items[i]) is Message) && (after->items[i] is Chunk <==> fields[i] is Chunk) by {
            assert(after->items[i].lifts(fields[i]));
            assert(fields[i].is_flat());
        }
    }
}

/// True where `nodes` are `fields` lifted into the tree, one by one and in
/// their order.
pub open spec fn lift_all(nodes: Seq<Node>, fields: Seq<RawField>) -> bool {
    nodes.len() == fields.len() && forall|i: int|
        0 <= i < fields.len() ==> (#[trigger] nodes[i]).lifts(fields[i])
}

/// The sequences laid end to end.
pub open spec fn concat_all(parts: Seq<Seq<u128>>) -> Seq<u128>
    decreases parts.len(),
{
    if parts.len() == 0 {
        Seq::empty()
    } else {
        concat_all(parts.drop_last()) + parts.last()
    }
}

/// The identities in and below each of the nodes.
pub open spec fn identity_lists(nodes: Seq<Node>) -> Seq<Seq<u128>>
    decreases nodes,
{
    Seq::new(
        nodes.len(),
        |i: int|
            if 0 <= i < nodes.len() {
                nodes[i].identities()
            } else {
                Seq::empty()
            },
    )
}

/// The identities in and below the nodes, in the order in which they are
/// read.
pub open spec fn identities_of(nodes: Seq<Node>) -> Seq<u128> {
    concat_all(identity_lists(nodes))
}

impl Node {
    /// The identities in and below the node, in the order in which the tree
    /// is read from the top: the node's own, then those of its items.
    pub open spec fn identities(self) -> Seq<u128>
        decreases self,
    {
        match self {
            Node::Message { items, uuid, .. } => seq![uuid] + concat_all(identity_lists(items)),
            _ => seq![self.uuid()],
        }
    }

    /// A lifted tree whose identities were drawn distinct has distinct
    /// identities: every node has one of its own.
    pub proof fn lemma_distinct_tokens_distinct_identities(self, ids: Seq<u128>)
        requires
            self.identities() == ids,
            ids.no_duplicates(),
        ensures
            self.identities().no_duplicates(),
    {
    }
}

proof fn lemma_counts_step(fields: Seq<RawField>, i: int)
    requires
        0 <= i < fields.len(),
    ensures
        node_count_of(fields.take(i + 1)) == node_count_of(fields.take(i)) + fields[i].node_count(),
{
    assert(node_counts(fields.take(i + 1)).drop_last() =~= node_counts(fields.take(i)));
}

proof fn lemma_identities_step(nodes: Seq<Node>, i: int)
    requires
        0 <= i < nodes.len(),
    ensures
        identities_of(nodes.take(i + 1)) == identities_of(nodes.take(i)) + nodes[i].identities(),
{
    assert(identity_lists(nodes.take(i + 1)).drop_last() =~= identity_lists(nodes.take(i)));
}

impl DecodingState {
    /// Lifts a decoded field into the tree: every node gets a new identity, and
    /// every number the default kind. The identities are drawn at random, one
    /// for every node, and `lift_with` does the rest.
    pub fn lift(data: &Data) -> (r: DecodingState)
        ensures
            r@.lifts(data@),
            r@.identities().len() == data@.node_count(),
            data@.well_formed() ==> r@.well_formed(),
    {
        let mut ids: Vec<u128> = Vec::new();
        Self::draw_for(data, &mut ids);
        Self::lift_with(data, ids.as_slice())
    }

    /// Draws one identity for every node in and below `data`.
    fn draw_for(data: &Data, ids: &mut Vec<u128>)
        ensures
            final(ids)@.len() == old(ids)@.len() + data@.node_count(),
        decreases data,
    {
        ids.push(new_identity());
        if let Data::Message { items, .. } = data {
            Self::draw_for_items(items, ids);
            proof {
                assert(data@->items =~= fields_of(items@));
            }
        }
    }

    /// Draws one identity for every node in and below `items`.
    fn draw_for_items(items: &Vec<Data>, ids: &mut Vec<u128>)
        ensures
            final(ids)@.len() == old(ids)@.len() + node_count_of(fields_of(items@)),
        decreases items,
    {
        let ghost fields = fields_of(items@);
        let mut i: usize = 0;
        assert(node_count_of(fields.take(0)) == 0);
        while i < items.len()
            invariant
                i <= items.len(),
                fields == fields_of(items@),
                ids@.len() == old(ids)@.len() + node_count_of(fields.take(i as int)),
            decreases items.len() - i,
        {
            assert(decreases_to!(*items => items[i as int]));
            proof {
                lemma_counts_step(fields, i as int);
            }
            Self::draw_for(&items[i], ids);
            i += 1;
        }
        assert(fields.take(i as int) =~= fields);
    }

    /// Lifts a decoded field into the tree under the identities `ids`: the
    /// nodes take them one by one, in the order in which the tree is read
    /// from the top, and every number gets the default kind.
    pub fn lift_with(data: &Data, ids: &[u128]) -> (r: DecodingState)
        requires
            ids@.len() == data@.node_count(),
        ensures
            r@.lifts(data@),
            r@.identities() == ids@,
            data@.well_formed() ==> r@.well_formed(),
    {
        let (node, next) = Self::lift_from(data, ids, 0);
        proof {
            assert(ids@.subrange(0, next as int) =~= ids@);
            if data@.well_formed() {
                node@.lemma_lift_is_well_formed(data@);
            }
        }
        node
    }

    /// Lifts `data` under the identities that begin at `ids[start]`, and
    /// tells where the identities that it left begin.
    fn lift_from(data: &Data, ids: &[u128], start: usize) -> (r: (DecodingState, usize))
        requires
            start + data@.node_count() <= ids@.len(),
        ensures
            r.0@.lifts(data@),
            r.1 == start + data@.node_count(),
            r.0@.identities() == ids@.subrange(start as int, r.1 as int),
        decreases data,
    {
        let uuid = ids[start];
        assert(ids@.subrange(start as int, start + 1) =~= seq![uuid]);
        match data {
            Data::Varint { field_number, value } => (
                DecodingState::Varint {
                    field_number: *field_number,
                    value: *value,
                    uuid,
                    kind: KindVarint::Unsigned,
                },
                start + 1,
            ),
            Data::Fixed64 { field_number, buffer } => (
                DecodingState::Fixed64 {
                    field_number: *field_number,
                    buffer: slice_to_vec(buffer.as_slice()),
                    uuid,
                    kind: Kind64::Fixed64,
                },
                start + 1,
            ),
            Data::Fixed32 { field_number, buffer } => (
                DecodingState::Fixed32 {
                    field_number: *field_number,
                    buffer: slice_to_vec(buffer.as_slice()),
                    uuid,
                    kind: Kind32::Fixed32,
                },
                start + 1,
            ),
            Data::Chunk { field_number, buffer } => (
                DecodingState::Chunk {
                    field_number: *field_number,
                    buffer: slice_to_vec(buffer.as_slice()),
                    uuid,
                },
                start + 1,
            ),
            Data::Message { field_number, items } => {
                proof {
                    assert(data@->items =~= fields_of(items@));
                }
                let (lifted, next) = Self::lift_items_from(items, ids, start + 1);
                let r = DecodingState::Message { field_number: *field_number, items: lifted, uuid };
                proof {
                    let nodes = r@->items;
                    let fields = data@->items;
                    assert forall|i: int| 0 <= i < fields.len() implies (#[trigger] nodes[i]).lifts(
                        fields[i],
                    ) by {
                        assert(nodes[i] == nodes_of(lifted@)[i]);
                        assert(fields[i] == fields_of(items@)[i]);
                    }
                    assert(nodes =~= nodes_of(lifted@));
                    assert(seq![uuid] + ids@.subrange(start + 1, next as int) =~= ids@.subrange(
                        start as int,
                        next as int,
                    ));
                }
                (r, next)
            },
        }
    }

    /// Lifts `items` under the identities that begin at `ids[start]`, and
    /// tells where the identities that they left begin.
    fn lift_items_from(items: &Vec<Data>, ids: &[u128], start: usize) -> (r: (
        Vec<DecodingState>,
        usize,
    ))
        requires
            start + node_count_of(fields_of(items@)) <= ids@.len(),
        ensures
            lift_all(nodes_of(r.0@), fields_of(items@)),
            r.1 == start + node_count_of(fields_of(items@)),
            identities_of(nodes_of(r.0@)) == ids@.subrange(start as int, r.1 as int),
        decreases items,
    {
        let ghost fields = fields_of(items@);
        let mut lifted: Vec<DecodingState> = Vec::new();
        let mut next: usize = start;
        let mut i: usize = 0;
        proof {
            assert(node_count_of(fields.take(0)) == 0);
            assert(identities_of(nodes_of(lifted@).take(0)) =~= Seq::<u128>::empty());
            assert(ids@.subrange(start as int, start as int) =~= Seq::<u128>::empty());
            assert(nodes_of(lifted@).take(0) =~= nodes_of(lifted@));
        }
        while i < items.len()
            invariant
                i <= items.len(),
                lifted.len() == i,
                fields == fields_of(items@),
                start + node_count_of(fields) <= ids@.len(),
                next == start + node_count_of(fields.take(i as int)),
                node_count_of(fields.take(i as int)) <= node_count_of(fields),
                forall|j: int| 0 <= j < i ==> (#[trigger] lifted@[j])@.lifts(items@[j]@),
                identities_of(nodes_of(lifted@)) == ids@.subrange(start as int, next as int),
            decreases items.len() - i,
        {
            assert(decreases_to!(*items => items[i as int]));
            proof {
                lemma_counts_step(fields, i as int);
                lemma_counts_grow(fields, i + 1);
            }
            let ghost before = nodes_of(lifted@);
            let (node, after) = Self::lift_from(&items[i], ids, next);
            lifted.push(node);
            proof {
                let nodes = nodes_of(lifted@);
                assert(nodes.take(i as int) =~= before);
                assert(nodes.take(i + 1) =~= nodes);
                lemma_identities_step(nodes, i as int);
                assert(ids@.subrange(start as int, next as int) + ids@.subrange(
                    next as int,
                    after as int,
                ) =~= ids@.subrange(start as int, after as int));
            }
            next = after;
            i += 1;
        }
        assert(fields.take(i as int) =~= fields);
        (lifted, next)
    }
}

/// The nodes of the first fields are among the nodes of all of them.
proof fn lemma_counts_grow(fields: Seq<RawField>, i: int)
    requires
        0 <= i <= fields.len(),
    ensures
        node_count_of(fields.take(i)) <= node_count_of(fields),
    decreases fields.len() - i,
{
    if i < fields.len() {
        lemma_counts_step(fields, i);
        lemma_counts_grow(fields, i + 1);
    } else {
        assert(fields.take(i) =~= fields);
    }
}

impl DecodingState {
    /// Moves the first number with identity `ui_event_uuid`, in the order in
    /// which the tree is read from the top, on to the next kind of its cycle.
    /// Does nothing where no number has the identity.
    pub fn toggle(&mut self, ui_event_uuid: u128)
        ensures
            final(self)@ == old(self)@.toggled(ui_event_uuid),
            old(self)@.well_formed() ==> final(self)@.well_formed(),
    {
        proof {
            if self@.well_formed() {
                self@.lemma_toggled_is_well_formed(ui_event_uuid);
            }
        }
        self.toggle_first(ui_event_uuid);
    }

    fn toggle_first(&mut self, id: u128) -> (found: bool)
        ensures
            found == old(self)@.holds_scalar(id),
            final(self)@ == old(self)@.toggled(id),
        decreases *old(self),
    {
        match self {
            DecodingState::Varint { uuid, kind, .. } => {
                if id == *uuid {
                    *kind = kind.toggle();
                    true
                } else {
                    false
                }
            },
            DecodingState::Fixed32 { uuid, kind, .. } => {
                if id == *uuid {
                    *kind = kind.toggle();
                    true
                } else {
                    false
                }
            },
            DecodingState::Fixed64 { uuid, kind, .. } => {
                if id == *uuid {
                    *kind = kind.toggle();
                    true
                } else {
                    false
                }
            },
            DecodingState::Message { items, .. } => {
                let ghost before = *items;
                let mut found = false;
                let mut k: usize = 0;
                while k < items.len() && !found
                    invariant
                        k <= items.len(),
                        items.len() == before.len(),
                        *old(self) is Message && old(self)->items == before,
                        forall|j: int| k <= j < items.len() ==> items@[j] == #[trigger] before@[j],
                        forall|j: int|
                            0 <= j < k - (if found { 1int } else { 0int }) ==> items@[j]@ == (
                            #[trigger] before@[j])@ && !before@[j]@.holds_scalar(id),
                        found ==> k >= 1 && before@[k - 1]@.holds_scalar(id) && items@[k - 1]@
                            == before@[k - 1]@.toggled(id),
                    decreases items.len() - k,
                {
                    proof {
                        assert(decreases_to!(before => before[k as int]));
                        before@[k as int]@.lemma_toggled_absent(id);
                    }
                    found = items[k].toggle_first(id);
                    k += 1;
                }
                proof {
                    let pre = old(self)@->items;
                    if found {
                        assert(pre[k - 1].holds_scalar(id));
                    }
                    assert(final(self)@->items =~= old(self)@.toggled(id)->items);
                }
                found
            },
            _ => false,
        }
    }
}

impl DecodingState {
    /// Reads the first chunk with identity `ui_event_uuid`, in the order in
    /// which the tree is read from the top, as UTF-8 text. The chunk stays a
    /// chunk where its bytes are no UTF-8.
    pub fn decode_as_utf8_string(&mut self, ui_event_uuid: u128)
        ensures
            final(self)@ == old(self)@.with_text(ui_event_uuid),
            old(self)@.well_formed() ==> final(self)@.well_formed(),
    {
        proof {
            if self@.well_formed() {
                self@.lemma_with_text_is_well_formed(ui_event_uuid);
            }
        }
        self.text_first(ui_event_uuid);
    }

    fn text_first(&mut self, id: u128) -> (found: bool)
        ensures
            found == old(self)@.holds_chunk(id),
            final(self)@ == old(self)@.with_text(id),
        decreases *old(self),
    {
        match self {
            DecodingState::Chunk { field_number, buffer, uuid } => {
                if id == *uuid {
                    if let Some(text) = utf8_text(slice_to_vec(buffer.as_slice())) {
                        *self = DecodingState::Utf8String {
                            field_number: *field_number,
                            value: text,
                            uuid: *uuid,
                        };
                    }
                    true
                } else {
                    false
                }
            },
            DecodingState::Message { items, .. } => {
                let ghost before = *items;
                let mut found = false;
                let mut k: usize = 0;
                while k < items.len() && !found
                    invariant
                        k <= items.len(),
                        items.len() == before.len(),
                        *old(self) is Message && old(self)->items == before,
                        forall|j: int| k <= j < items.len() ==> items@[j] == #[trigger] before@[j],
                        forall|j: int|
                            0 <= j < k - (if found { 1int } else { 0int }) ==> items@[j]@ == (
                            #[trigger] before@[j])@ && !before@[j]@.holds_chunk(id),
                        found ==> k >= 1 && before@[k - 1]@.holds_chunk(id) && items@[k - 1]@
                            == before@[k - 1]@.with_text(id),
                    decreases items.len() - k,
                {
                    proof {
                        assert(decreases_to!(before => before[k as int]));
                        before@[k as int]@.lemma_with_text_absent(id);
                    }
                    found = items[k].text_first(id);
                    k += 1;
                }
                proof {
                    let pre = old(self)@->items;
                    if found {
                        assert(pre[k - 1].holds_chunk(id));
                    }
                    assert(final(self)@->items =~= old(self)@.with_text(id)->items);
                }
                found
            },
            _ => false,
        }
    }

    /// Reads the first chunk with identity `ui_event_uuid`, in the order in
    /// which the tree is read from the top, as a message: its bytes are
    /// decoded, and the fields lifted into the tree as its items, each under
    /// a new identity. The chunk stays a chunk where its bytes cannot be
    /// decoded.
    pub fn decode_as_message(&mut self, ui_event_uuid: u128)
        ensures
            old(self)@.with_message(final(self)@, ui_event_uuid),
            old(self)@.fresh_identities(final(self)@, ui_event_uuid).len()
                == old(self)@.identities_needed(ui_event_uuid),
            old(self)@.well_formed() ==> final(self)@.well_formed(),
    {
        let needed = self.identities_needed(ui_event_uuid);
        let ids = Self::draw(needed);
        self.decode_as_message_with(ui_event_uuid, ids.as_slice());
    }

    /// The number of identities that `decode_as_message_with` takes for
    /// `ui_event_uuid`: one for every field that the bytes of the chunk hold.
    pub fn identities_needed(&self, ui_event_uuid: u128) -> (r: usize)
        ensures
            r == self@.identities_needed(ui_event_uuid),
    {
        self.needed_first(ui_event_uuid).1
    }

    /// Reads the first chunk with identity `ui_event_uuid` as a message, as
    /// `decode_as_message` does, and gives the new items the identities
    /// `ids`, one each and in their order.
    pub fn decode_as_message_with(&mut self, ui_event_uuid: u128, ids: &[u128])
        requires
            ids@.len() == old(self)@.identities_needed(ui_event_uuid),
        ensures
            old(self)@.with_message(final(self)@, ui_event_uuid),
            old(self)@.fresh_identities(final(self)@, ui_event_uuid) == ids@,
            old(self)@.well_formed() ==> final(self)@.well_formed(),
    {
        self.message_first(ui_event_uuid, ids);
        proof {
            if old(self)@.well_formed() {
                old(self)@.lemma_with_message_is_well_formed(self@, ui_event_uuid);
            }
            if !old(self)@.holds_chunk(ui_event_uuid) {
                old(self)@.lemma_absent_needs_nothing(self@, ui_event_uuid);
                assert(ids@ =~= Seq::<u128>::empty());
            }
        }
    }

    /// Draws `count` identities.
    fn draw(count: usize) -> (r: Vec<u128>)
        ensures
            r@.len() == count,
    {
        let mut ids: Vec<u128> = Vec::new();
        while ids.len() < count
            invariant
                ids@.len() <= count,
            decreases count - ids@.len(),
        {
            ids.push(new_identity());
        }
        ids
    }

    fn needed_first(&self, id: u128) -> (r: (bool, usize))
        ensures
            r.0 == self@.holds_chunk(id),
            r.1 == self@.identities_needed(id),
        decreases self,
    {
        match self {
            DecodingState::Chunk { buffer, uuid, .. } => {
                if id == *uuid {
                    match decode_message(buffer.as_slice()) {
                        Ok(data_items) => (true, data_items.len()),
                        Err(_) => (true, 0),
                    }
                } else {
                    (false, 0)
                }
            },
            DecodingState::Message { items, .. } => {
                let mut k: usize = 0;
                while k < items.len()
                    invariant
                        k <= items.len(),
                        *self is Message && self->items == *items,
                        forall|j: int| 0 <= j < k ==> !(#[trigger] items@[j])@.holds_chunk(id),
                    decreases items.len() - k,
                {
                    assert(decreases_to!(*items => items[k as int]));
                    let (found, needed) = items[k].needed_first(id);
                    if found {
                        proof {
                            let nodes = self@->items;
                            assert(nodes[k as int] == items@[k as int]@);
                            assert forall|j: int| 0 <= j < k implies !(#[trigger] nodes[j]).holds_chunk(
                                id,
                            ) by {
                                assert(nodes[j] == items@[j]@);
                            }
                            assert(Node::first_with_chunk(nodes, id, k as int));
                            self@.lemma_fresh_in_message(self@, id, k as int);
                        }
                        return (true, needed);
                    }
                    k += 1;
                }
                proof {
                    let nodes = self@->items;
                    assert forall|j: int| 0 <= j < nodes.len() implies !(#[trigger] nodes[j]).holds_chunk(
                        id,
                    ) by {
                        assert(nodes[j] == items@[j]@);
                    }
                    self@.lemma_absent_needs_nothing(self@, id);
                }
                (false, 0)
            },
            _ => (false, 0),
        }
    }

    /// Lifts fields that are no messages, each under one of `ids`.
    fn lift_leaves(items: &Vec<Data>, ids: &[u128]) -> (r: Vec<DecodingState>)
        requires
            ids@.len() == items@.len(),
            forall|i: int| 0 <= i < items@.len() ==> (#[trigger] items@[i])@.is_flat(),
        ensures
            lift_all(nodes_of(r@), fields_of(items@)),
            forall|i: int| 0 <= i < r@.len() ==> (#[trigger] r@[i])@.uuid() == ids@[i],
    {
        let mut lifted: Vec<DecodingState> = Vec::new();
        let mut i: usize = 0;
        while i < items.len()
            invariant
                i <= items.len(),
                lifted.len() == i,
                ids@.len() == items@.len(),
                forall|j: int| 0 <= j < items@.len() ==> (#[trigger] items@[j])@.is_flat(),
                forall|j: int| 0 <= j < i ==> (#[trigger] lifted@[j])@.lifts(items@[j]@),
                forall|j: int| 0 <= j < i ==> (#[trigger] lifted@[j])@.uuid() == ids@[j],
            decreases items.len() - i,
        {
            assert(items@[i as int]@.is_flat());
            let (node, next) = Self::lift_from(&items[i], ids, i);
            assert(ids@.subrange(i as int, i + 1)[0] == ids@[i as int]);
            lifted.push(node);
            i += 1;
        }
        lifted
    }

    fn message_first(&mut self, id: u128, ids: &[u128]) -> (found: bool)
        requires
            old(self)@.holds_chunk(id) ==> ids@.len() == old(self)@.identities_needed(id),
        ensures
            found == old(self)@.holds_chunk(id),
            old(self)@.with_message(final(self)@, id),
            found ==> old(self)@.fresh_identities(final(self)@, id) == ids@,
        decreases *old(self),
    {
        match self {
            DecodingState::Chunk { field_number, buffer, uuid } => {
                if id == *uuid {
                    if let Ok(data_items) = decode_message(buffer.as_slice()) {
                        let lifted = Self::lift_leaves(&data_items, ids);
                        *self = DecodingState::Message {
                            field_number: *field_number,
                            items: lifted,
                            uuid: *uuid,
                        };
                        proof {
                            assert(self@->items =~= nodes_of(lifted@));
                            assert(old(self)@.fresh_identities(self@, id) =~= ids@);
                        }
                    } else {
                        assert(ids@ =~= Seq::<u128>::empty());
                    }
                    true
                } else {
                    false
                }
            },
            DecodingState::Message { items, .. } => {
                let ghost before = *items;
                let mut found = false;
                let mut k: usize = 0;
                while k < items.len() && !found
                    invariant
                        k <= items.len(),
                        items.len() == before.len(),
                        *old(self) is Message && old(self)->items == before,
                        old(self)@.holds_chunk(id) ==> ids@.len() == old(self)@.identities_needed(id),
                        forall|j: int| k <= j < items.len() ==> items@[j] == #[trigger] before@[j],
                        forall|j: int|
                            0 <= j < k - (if found { 1int } else { 0int }) ==> items@[j]@ == (
                            #[trigger] before@[j])@ && !before@[j]@.holds_chunk(id),
                        found ==> k >= 1 && before@[k - 1]@.holds_chunk(id) && before@[k
                            - 1]@.with_message(items@[k - 1]@, id) && before@[k
                            - 1]@.fresh_identities(items@[k - 1]@, id) == ids@,
                    decreases items.len() - k,
                {
                    proof {
                        assert(decreases_to!(before => before[k as int]));
                        if before@[k as int]@.holds_chunk(id) {
                            let nodes = old(self)@->items;
                            assert(nodes[k as int] == before@[k as int]@);
                            assert forall|j: int| 0 <= j < k implies !(#[trigger] nodes[j]).holds_chunk(
                                id,
                            ) by {
                                assert(nodes[j] == before@[j]@);
                            }
                            assert(Node::first_with_chunk(nodes, id, k as int));
                            old(self)@.lemma_fresh_in_message(old(self)@, id, k as int);
                        }
                    }
                    found = items[k].message_first(id, ids);
                    proof {
                        before@[k as int]@.lemma_with_message_absent(items@[k as int]@, id);
                    }
                    k += 1;
                }
                proof {
                    let pre = old(self)@->items;
                    let post = final(self)@->items;
                    if found {
                        assert(pre[k - 1].holds_chunk(id));
                    }
                    assert forall|j: int| 0 <= j < pre.len() implies if Node::first_with_chunk(
                        pre,
                        id,
                        j,
                    ) {
                        (#[trigger] pre[j]).with_message(post[j], id)
                    } else {
                        post[j] == pre[j]
                    } by {
                        assert(pre[j] == before@[j]@);
                        assert(post[j] == items@[j]@);
                    }
                    if found {
                        assert(pre[k - 1] == before@[k - 1]@);
                        assert(post[k - 1] == items@[k - 1]@);
                        assert forall|j: int| 0 <= j < k - 1 implies !(#[trigger] pre[j]).holds_chunk(
                            id,
                        ) by {
                            assert(pre[j] == before@[j]@);
                        }
                        assert(Node::first_with_chunk(pre, id, k - 1));
                        old(self)@.lemma_fresh_in_message(final(self)@, id, k - 1);
                    }
                }
                found
            },
            _ => false,
        }
    }
}

impl DecodingState {
    /// Renders the value of the node under its kind.
    pub fn get_formatted_value(&self) -> (r: Value)
        requires
            self@.can_show(),
        ensures
            r@ == self@.value(),
    {
        match self {
            DecodingState::Varint { value, kind, .. } => Value::Text(
                kind.get_value_as_string(*value),
            ),
            DecodingState::Fixed64 { buffer, kind, .. } => {
                match kind.get_value_as_string(buffer.as_slice()) {
                    Some(text) => Value::Text(text),
                    None => Value::Binary64(Kind64::float_bits(buffer.as_slice())),
                }
            },
            DecodingState::Fixed32 { buffer, kind, .. } => {
                match kind.get_value_as_string(buffer.as_slice()) {
                    Some(text) => Value::Text(text),
                    None => Value::Binary32(Kind32::float_bits(buffer.as_slice())),
                }
            },
            DecodingState::Chunk { buffer, .. } => Value::Text(
                format_as_ascii_and_hex(buffer.as_slice()),
            ),
            DecodingState::Message { .. } => Value::Items,
            DecodingState::Utf8String { value, .. } => Value::Text(value.clone()),
        }
    }

    pub fn get_formatted_field_number(&self) -> (r: String)
        ensures
            r@ == self@.field_label(),
    {
        let field_number: u128 = match self {
            DecodingState::Varint { field_number, .. } => *field_number,
            DecodingState::Fixed64 { field_number, .. } => *field_number,
            DecodingState::Fixed32 { field_number, .. } => *field_number,
            DecodingState::Chunk { field_number, .. } => *field_number,
            DecodingState::Message { field_number, .. } => *field_number,
            DecodingState::Utf8String { field_number, .. } => *field_number,
        };
        let mut label = String::new();
        push_decimal(&mut label, field_number);
        if field_number < 10 {
            push_char(&mut label, ' ');
        }
        assert(label@ =~= self@.field_label());
        label
    }

    pub fn get_formatted_kind(&self) -> (r: String)
        ensures
            r@ == self@.kind_label(),
    {
        match self {
            DecodingState::Varint { kind, .. } => {
                let mut label = String::from_str("<varint ");
                label.append(kind.to_string());
                label.append(">");
                label
            },
            DecodingState::Fixed64 { kind, .. } => {
                let mut label = String::from_str("<fix 64 ");
                label.append(kind.to_string());
                label.append(">");
                label
            },
            DecodingState::Fixed32 { kind, .. } => {
                let mut label = String::from_str("<fix 32 ");
                label.append(kind.to_string());
                label.append(">");
                label
            },
            DecodingState::Chunk { .. } => String::from_str("<chunk>"),
            DecodingState::Message { .. } => String::from_str("<msg>"),
            DecodingState::Utf8String { .. } => String::from_str("<utf-8>"),
        }
    }
}

impl From<Data> for DecodingState {
    /// Lifts a decoded field into the tree, as `DecodingState::lift` does.
    fn from(data: Data) -> (r: DecodingState)
        ensures
            r@.lifts(data@),
            r@.identities().len() == data@.node_count(),
            data@.well_formed() ==> r@.well_formed(),
    {
        DecodingState::lift(&data)
    }
}

impl vstd::std_specs::convert::FromSpecImpl<Data> for DecodingState {
    /// The identities of the nodes are drawn at random, so no function of the
    /// field gives the node.
    open spec fn obeys_from_spec() -> bool {
        false
    }

    open spec fn from_spec(data: Data) -> DecodingState {
        arbitrary()
    }
}

} // verus!

use crate::binary_proto_object_loader::{byte_list, parse_u8_vec_from_string_with_integers};
use crate::data::{Data, RawField};
use crate::model::{DecodingState, File, Form, Node, ProtoDec, Screen, Upload};
use crate::ui_message::{Event, UiMessage};
use vstd::prelude::*;
use vstd::slice::slice_to_vec;

verus! {

/// What the caller has to do after a step of the program.
#[derive(Debug, Clone, Copy, PartialEq, Eq, Structural)]
pub enum Command {
    /// Nothing.
    Idle,
    /// Read the first of the dropped files, and hand its name and bytes back
    /// as `UiMessage::InitialStateFileRead`.
    ReadDroppedFile,
}

impl Screen {
    /// True where `root` is the tree that bytes are shown as before anything
    /// is decoded: one chunk, with field number 0, that holds them all.
    pub open spec fn opens(root: Node, bytes: Seq<u8>) -> bool {
        root.lifts(RawField::Chunk { field_number: 0, buffer: bytes })
    }

    /// True where `next` is what the program shows after `event`.
    ///
    /// The form takes the events of the form and ignores those of the tree;
    /// the tree takes the events of the tree and ignores those of the form.
    pub open spec fn steps_to(self, event: Event, next: Screen) -> bool {
        match self {
            Screen::InitialState(form) => match event {
                Event::InitialStateDragEnter => next == Screen::InitialState(
                    Form { drop_zone_active: true, ..form },
                ),
                Event::InitialStateDragLeave => next == Screen::InitialState(
                    Form { drop_zone_active: false, ..form },
                ),
                Event::InitialStateDrop => next == Screen::InitialState(
                    Form { drop_zone_active: false, uploaded_file: None, ..form },
                ),
                Event::InitialStateFileRead { file_name, buffer } => next == Screen::InitialState(
                    Form { uploaded_file: Some(Upload { file_name, buffer }), ..form },
                ),
                Event::InitialStateInputChanged(value) => next == Screen::InitialState(
                    Form { input: value, ..form },
                ),
                Event::ProcessUploadedFile => match form.uploaded_file {
                    Some(upload) => next matches Screen::Decoding(root) && Self::opens(
                        root,
                        upload.buffer,
                    ),
                    None => next == self,
                },
                Event::ProcessByteArray => match byte_list(form.input) {
                    Some(bytes) => next matches Screen::Decoding(root) && Self::opens(root, bytes),
                    None => next == self,
                },
                _ => next == self,
            },
            Screen::Decoding(root) => match event {
                Event::DecodeChunkAsMessage(uuid) => next matches Screen::Decoding(changed)
                    && root.with_message(changed, uuid),
                Event::DecodeChunkAsUtf8String(uuid) => next == Screen::Decoding(
                    root.with_text(uuid),
                ),
                Event::Toggle(uuid) => next == Screen::Decoding(root.toggled(uuid)),
                _ => next == self,
            },
        }
    }

    /// What the caller has to do after `event`: read the dropped file where
    /// files were dropped on the form, and nothing otherwise.
    pub open spec fn command_for(self, event: Event) -> Command {
        if self is InitialState && event is InitialStateDrop {
            Command::ReadDroppedFile
        } else {
            Command::Idle
        }
    }
}

impl ProtoDec {
    /// Takes one step of the program: changes what is shown as `message`
    /// asks, and tells the caller what to do next.
    pub fn update(&mut self, message: UiMessage) -> (command: Command)
        ensures
            old(self)@.steps_to(message@, final(self)@),
            command == old(self)@.command_for(message@),
    {
        match message {
            UiMessage::InitialStateDragEnter => {
                if let ProtoDec::InitialState(initial_state) = self {
                    initial_state.drop_zone_active = true;
                }
                Command::Idle
            },
            UiMessage::InitialStateDragOver => Command::Idle,
            UiMessage::InitialStateDragLeave => {
                if let ProtoDec::InitialState(initial_state) = self {
                    initial_state.drop_zone_active = false;
                }
                Command::Idle
            },
            UiMessage::InitialStateDrop => {
                if let ProtoDec::InitialState(initial_state) = self {
                    initial_state.drop_zone_active = false;
                    initial_state.uploaded_file = None;
                    Command::ReadDroppedFile
                } else {
                    Command::Idle
                }
            },
            UiMessage::InitialStateFileRead { file_name, buffer } => {
                if let ProtoDec::InitialState(initial_state) = self {
                    initial_state.uploaded_file = Some(File { file_name, buffer });
                }
                Command::Idle
            },
            UiMessage::ProcessUploadedFile => {
                if let ProtoDec::InitialState(initial_state) = self {
                    if let Some(uploaded_file) = &initial_state.uploaded_file {
                        let buffer = slice_to_vec(uploaded_file.buffer.as_slice());
                        *self = ProtoDec::Decoding(
                            DecodingState::from(Data::Chunk { buffer, field_number: 0 }),
                        );
                    }
                }
                Command::Idle
            },
            UiMessage::ProcessByteArray => {
                if let ProtoDec::InitialState(initial_state) = self {
                    let input = initial_state.input.as_str();
                    let buffer = parse_u8_vec_from_string_with_integers(input);
                    if let Ok(buffer) = buffer {
                        *self = ProtoDec::Decoding(
                            DecodingState::from(Data::Chunk { buffer, field_number: 0 }),
                        );
                    }
                }
                Command::Idle
            },
            UiMessage::DecodeChunkAsMessage(uuid) => {
                if let ProtoDec::Decoding(decoding_state) = self {
                    decoding_state.decode_as_message(uuid);
                }
                Command::Idle
            },
            UiMessage::Toggle(uuid) => {
                if let ProtoDec::Decoding(decoding_state) = self {
                    decoding_state.toggle(uuid);
                }
                Command::Idle
            },
            UiMessage::DecodeChunkAsUtf8String(uuid) => {
                if let ProtoDec::Decoding(decoding_state) = self {
                    decoding_state.decode_as_utf8_string(uuid);
                }
                Command::Idle
            },
            UiMessage::InitialStateInputChanged(value) => {
                if let ProtoDec::InitialState(initial_state) = self {
                    initial_state.input = value;
                }
                Command::Idle
            },
        }
    }
}

} // verus!

use vstd::prelude::*;

verus! {

/// What the user, or the reader of a dropped file, tells the program.
#[derive(Debug, Clone)]
pub enum UiMessage {
    InitialStateDragEnter,
    InitialStateDragOver,
    InitialStateDragLeave,
    /// Files were dropped. The files themselves stay with the caller, who
    /// reads the first of them when `update` asks for it.
    InitialStateDrop,
    InitialStateFileRead { file_name: String, buffer: Vec<u8> },
    InitialStateInputChanged(String),
    ProcessByteArray,
    ProcessUploadedFile,
    DecodeChunkAsMessage(u128),
    DecodeChunkAsUtf8String(u128),
    Toggle(u128),
}

/// The mathematical content of a `UiMessage`.
pub enum Event {
    InitialStateDragEnter,
    InitialStateDragOver,
    InitialStateDragLeave,
    InitialStateDrop,
    InitialStateFileRead { file_name: Seq<char>, buffer: Seq<u8> },
    InitialStateInputChanged(Seq<char>),
    ProcessByteArray,
    ProcessUploadedFile,
    DecodeChunkAsMessage(u128),
    DecodeChunkAsUtf8String(u128),
    Toggle(u128),
}

impl View for UiMessage {
    type V = Event;

    open spec fn view(&self) -> Event {
        match self {
            UiMessage::InitialStateDragEnter => Event::InitialStateDragEnter,
            UiMessage::InitialStateDragOver => Event::InitialStateDragOver,
            UiMessage::InitialStateDragLeave => Event::InitialStateDragLeave,
            UiMessage::InitialStateDrop => Event::InitialStateDrop,
            UiMessage::InitialStateFileRead { file_name, buffer } => Event::InitialStateFileRead {
                file_name: file_name@,
                buffer: buffer@,
            },
            UiMessage::InitialStateInputChanged(value) => Event::InitialStateInputChanged(value@),
            UiMessage::ProcessByteArray => Event::ProcessByteArray,
            UiMessage::ProcessUploadedFile => Event::ProcessUploadedFile,
            UiMessage::DecodeChunkAsMessage(uuid) => Event::DecodeChunkAsMessage(*uuid),
            UiMessage::DecodeChunkAsUtf8String(uuid) => Event::DecodeChunkAsUtf8String(*uuid),
            UiMessage::Toggle(uuid) => Event::Toggle(*uuid),
        }
    }
}

} // verus!

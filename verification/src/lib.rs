//! Schema-less decoding of the Protocol Buffers wire format, and a tree of
//! decoded fields whose ambiguous encodings can be reinterpreted node by node.

pub mod binary_proto_object_loader;
pub mod data;
pub mod data_view_model;
pub mod decode;
pub mod error;
pub mod fixed;
pub mod format;
pub mod identity;
pub mod key;
pub mod kind32;
pub mod kind64;
pub mod kind_varint;
pub mod model;
pub mod text;
pub mod ui_message;
pub mod update;
pub mod varint;
pub mod wire_type;

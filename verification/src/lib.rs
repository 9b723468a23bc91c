//! Parser and validator for a line-oriented language describing the message
//! formats of a request/response wire protocol. Each non-comment line declares
//! one message: a fixed `size[4]` preamble, a `T`/`R`-prefixed name with a
//! numeric identifier, a fixed `tag[2]` field, and any further typed fields.
//! Parsing is proved lossless against a canonical renderer, and the collected
//! messages are validated for identity uniqueness and request/response pairing.

pub mod grammar;
pub mod laws;
pub mod parse;
pub mod render;
pub mod text;
pub mod types;

pub use crate::parse::parse;
pub use crate::parse::strip;
pub use crate::render::fmt_field;
pub use crate::render::fmt_message;
pub use crate::types::Field;
pub use crate::types::FieldType;
pub use crate::types::Message;
pub use crate::types::MessageType;

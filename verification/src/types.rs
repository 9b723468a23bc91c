//! The data model: messages, fields, and their mathematical views.

use vstd::prelude::*;

verus! {

/// Whether a message travels from client to server (`T`) or back (`R`).
#[derive(Debug, Copy, Clone)]
pub enum MessageType {
    Request,
    Response,
}

impl MessageType {
    /// The discriminant character that prefixes a message's `full_name`.
    pub fn char(self) -> (c: char)
        ensures
            c == mt_char(self),
    {
        match self {
            MessageType::Request => 'T',
            MessageType::Response => 'R',
        }
    }
}

/// The discriminant character of a message type.
pub open spec fn mt_char(t: MessageType) -> char {
    match t {
        MessageType::Request => 'T',
        MessageType::Response => 'R',
    }
}

/// The closed set of field types, each with a fixed grammar token.
#[derive(Debug, PartialEq, Eq, Structural, Copy, Clone)]
pub enum FieldType {
    U8,
    U16,
    U32,
    U64,
    QID,
    Stat,
    Bytes,
    String,
}

/// The integer-class field types: only these may carry an array repetition count.
pub open spec fn is_integer(t: FieldType) -> bool {
    match t {
        FieldType::U8 | FieldType::U16 | FieldType::U32 | FieldType::U64 => true,
        _ => false,
    }
}

impl FieldType {
    /// True for the integer-class types `U8`, `U16`, `U32`, `U64`.
    pub fn integer(self) -> (r: bool)
        ensures
            r == is_integer(self),
    {
        match self {
            FieldType::U8 | FieldType::U16 | FieldType::U32 | FieldType::U64 => true,
            _ => false,
        }
    }
}

/// The mathematical view of a field.
pub ghost struct FieldView {
    pub name: Seq<char>,
    pub times: Option<Seq<char>>,
    pub field_type: FieldType,
}

/// One typed element of a message body. `times`, when present, names the
/// immediately preceding field that carries this field's repetition count.
#[derive(Debug)]
pub struct Field {
    pub name: String,
    pub times: Option<String>,
    pub field_type: FieldType,
}

impl View for Field {
    type V = FieldView;

    open spec fn view(&self) -> FieldView {
        FieldView {
            name: self.name@,
            times: match self.times {
                Some(t) => Some(t@),
                None => None,
            },
            field_type: self.field_type,
        }
    }
}

/// The mathematical view of a message.
pub ghost struct MessageView {
    pub name: Seq<char>,
    pub full_name: Seq<char>,
    pub message_type: MessageType,
    pub number: u8,
    pub fields: Seq<FieldView>,
}

/// One protocol message. `full_name` is the derived identity key: the type's
/// discriminant character followed by `name`. `fields` excludes the mandatory
/// `size` and `tag` header fields, which are fixed literal text.
#[derive(Debug)]
pub struct Message {
    pub name: String,
    pub full_name: String,
    pub message_type: MessageType,
    pub number: u8,
    pub fields: Vec<Field>,
}

impl View for Message {
    type V = MessageView;

    open spec fn view(&self) -> MessageView {
        MessageView {
            name: self.name@,
            full_name: self.full_name@,
            message_type: self.message_type,
            number: self.number,
            fields: self.fields@.map_values(|f: Field| f@),
        }
    }
}

/// The views of a sequence of messages.
pub open spec fn msgs_view(ms: Seq<Message>) -> Seq<MessageView> {
    ms.map_values(|m: Message| m@)
}

} // verus!

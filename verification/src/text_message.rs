use vstd::prelude::*;

verus! {

/// Kinds of non-binary message the broker sends.
#[derive(Debug, Clone, Copy, PartialEq, Eq, Structural)]
pub enum TextMessageType {
    /// Order postback
    Order,
    /// Error response
    Error,
    /// Messages and alerts from the broker
    Message,
}

/// The kind a text message's type tag names: everything but "order" and
/// "error" is an ordinary message.
pub open spec fn text_message_type_spec(s: Seq<char>) -> TextMessageType {
    if s == "order"@ {
        TextMessageType::Order
    } else if s == "error"@ {
        TextMessageType::Error
    } else {
        TextMessageType::Message
    }
}

impl TextMessageType {
    /// Classify a type tag.
    pub fn from(value: &String) -> (r: Self)
        ensures
            r == text_message_type_spec(value@),
    {
        if value.eq(&String::from_str("order")) {
            Self::Order
        } else if value.eq(&String::from_str("error")) {
            Self::Error
        } else {
            Self::Message
        }
    }
}

/// A postback or other non-binary message: a type tag and an arbitrary
/// JSON payload.
#[derive(Debug, Clone)]
pub struct TextMessage {
    pub message_type: String,
    pub data: serde_json::Value,
}

} // verus!

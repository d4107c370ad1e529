use vstd::prelude::*;

use crate::json::{json_text, json_value_to_string};
use crate::text_message::{text_message_type_spec, TextMessage, TextMessageType};
use crate::tick_message::TickMessage;

verus! {

/// A parsed message from the WebSocket, as consumers receive it.
#[derive(Debug, Clone)]
pub enum TickerMessage {
    /// Quote packets for subscribed tokens
    Ticks(Vec<TickMessage>),
    /// Error response
    Error(String),
    /// Order postback, carried as its raw JSON record; unverified callers
    /// decode the order's fields from it
    OrderPostback(Result<serde_json::Value, String>),
    /// Messages and alerts from the broker
    Message(serde_json::Value),
    /// WebSocket closing frame
    ClosingMessage(serde_json::Value),
}

impl TickerMessage {
    /// Classify a text message by its type tag: an order postback, an
    /// error (rendered back to its JSON text), or an opaque message.
    pub fn from(value: TextMessage) -> (r: Self)
        ensures
            text_message_type_spec(value.message_type@) == TextMessageType::Order ==> r
                == TickerMessage::OrderPostback(Ok(value.data)),
            text_message_type_spec(value.message_type@) == TextMessageType::Error ==> (r matches
            TickerMessage::Error(s) && s@ == json_text(value.data)),
            text_message_type_spec(value.message_type@) == TextMessageType::Message ==> r
                == TickerMessage::Message(value.data),
    {
        let message_type = TextMessageType::from(&value.message_type);
        match message_type {
            TextMessageType::Order => Self::OrderPostback(Ok(value.data)),
            TextMessageType::Error => Self::Error(json_value_to_string(&value.data)),
            TextMessageType::Message => Self::Message(value.data),
        }
    }
}

} // verus!

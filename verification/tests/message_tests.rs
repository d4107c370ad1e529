use kiteticker_async_manager::{TextMessage, TickerMessage};

#[test]
fn order_postback_carries_the_record() {
    let data: serde_json::Value = serde_json::from_str("{\"order_id\":\"x1\"}").unwrap();
    let m = TextMessage { message_type: "order".to_string(), data: data.clone() };
    match TickerMessage::from(m) {
        TickerMessage::OrderPostback(Ok(v)) => assert_eq!(v, data),
        other => panic!("expected order postback, got {:?}", other),
    }
}

#[test]
fn error_message_is_rendered_to_text() {
    let data: serde_json::Value = serde_json::from_str("\"boom\"").unwrap();
    let m = TextMessage { message_type: "error".to_string(), data };
    match TickerMessage::from(m) {
        TickerMessage::Error(s) => assert_eq!(s, "\"boom\""),
        other => panic!("expected error, got {:?}", other),
    }
}

#[test]
fn other_text_is_an_opaque_message() {
    let data: serde_json::Value = serde_json::from_str("{\"note\":true}").unwrap();
    let m = TextMessage { message_type: "instruments_meta".to_string(), data: data.clone() };
    match TickerMessage::from(m) {
        TickerMessage::Message(v) => assert_eq!(v, data),
        other => panic!("expected message, got {:?}", other),
    }
}

#[test]
fn error_payload_is_rendered_compactly() {
    // The rendered error text is the compact JSON of the payload, with
    // object keys in sorted order.
    let data: serde_json::Value = serde_json::from_str("{ \"b\" : 2 , \"a\" : [1, 2] }").unwrap();
    let m = TextMessage { message_type: "error".to_string(), data };
    match TickerMessage::from(m) {
        TickerMessage::Error(s) => assert_eq!(s, "{\"a\":[1,2],\"b\":2}"),
        other => panic!("expected error, got {:?}", other),
    }
}

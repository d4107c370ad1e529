use kiteticker_async_manager::{to_decimal, Mode, Request};

#[test]
fn subscribe_encoding_is_exact() {
    let r = Request::subscribe(&[408_065, 256_265]);
    assert_eq!(r.to_json(), "{\"a\":\"subscribe\",\"v\":[408065,256265]}");
}

#[test]
fn unsubscribe_encoding_is_exact() {
    let r = Request::unsubscribe(&[5633]);
    assert_eq!(r.to_json(), "{\"a\":\"unsubscribe\",\"v\":[5633]}");
}

#[test]
fn mode_encoding_is_exact() {
    let r = Request::mode(Mode::Full, &[408_065]);
    assert_eq!(r.to_json(), "{\"a\":\"mode\",\"v\":[\"full\",[408065]]}");
    let r = Request::mode(Mode::LTP, &[1, 2, 3]);
    assert_eq!(r.to_json(), "{\"a\":\"mode\",\"v\":[\"ltp\",[1,2,3]]}");
    let r = Request::mode(Mode::Quote, &[7]);
    assert_eq!(r.to_json(), "{\"a\":\"mode\",\"v\":[\"quote\",[7]]}");
}

#[test]
fn requests_parse_back_with_a_json_parser() {
    // The encoded text is real JSON: an independent parser reads back the
    // same action and token list.
    let r = Request::subscribe(&[408_065, 256_265]);
    let v: serde_json::Value = serde_json::from_str(&r.to_json()).unwrap();
    assert_eq!(v["a"], "subscribe");
    assert_eq!(v["v"][0], 408_065);
    assert_eq!(v["v"][1], 256_265);

    let r = Request::unsubscribe(&[9]);
    let v: serde_json::Value = serde_json::from_str(&r.to_json()).unwrap();
    assert_eq!(v["a"], "unsubscribe");
    assert_eq!(v["v"][0], 9);

    let r = Request::mode(Mode::Full, &[42, 4_294_967_295]);
    let v: serde_json::Value = serde_json::from_str(&r.to_json()).unwrap();
    assert_eq!(v["a"], "mode");
    assert_eq!(v["v"][0], "full");
    assert_eq!(v["v"][1][0], 42);
    assert_eq!(v["v"][1][1], 4_294_967_295u32);
}

#[test]
fn mode_labels() {
    assert_eq!(Mode::LTP.to_websocket_string(), "ltp");
    assert_eq!(Mode::Quote.to_websocket_string(), "quote");
    assert_eq!(Mode::Full.to_websocket_string(), "full");
}

#[test]
fn mode_from_packet_size() {
    assert_eq!(Mode::try_from(8), Ok(Mode::LTP));
    assert_eq!(Mode::try_from(28), Ok(Mode::Quote));
    assert_eq!(Mode::try_from(44), Ok(Mode::Quote));
    assert_eq!(Mode::try_from(32), Ok(Mode::Full));
    assert_eq!(Mode::try_from(184), Ok(Mode::Full));
    assert_eq!(Mode::try_from(12), Err("invalid packet size: 12".to_string()));
    assert_eq!(Mode::try_from(0), Err("invalid packet size: 0".to_string()));
}

#[test]
fn decimal_rendering() {
    assert_eq!(to_decimal(0), "0");
    assert_eq!(to_decimal(7), "7");
    assert_eq!(to_decimal(408_065), "408065");
    assert_eq!(to_decimal(u64::MAX), "18446744073709551615");
}

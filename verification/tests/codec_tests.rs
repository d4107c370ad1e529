use kiteticker_async_manager::{process_binary, Exchange, Mode, Tick, TickerMessage};

fn put_u32(buf: &mut Vec<u8>, off: usize, v: u32) {
    buf[off..off + 4].copy_from_slice(&v.to_be_bytes());
}

fn put_i32(buf: &mut Vec<u8>, off: usize, v: i32) {
    buf[off..off + 4].copy_from_slice(&v.to_be_bytes());
}

/// A 184-byte tradable full-quote body with the day's figures of the
/// recorded example: last price 1573.70, average 1570.37, volume
/// 1 192 471, OHLC (1569.15, 1575.00, 1561.05, 1567.80), top of book
/// buy (5 @ 1573.40, 1 order) and sell (172 @ 1573.70, 3 orders).
fn full_body() -> Vec<u8> {
    let mut b = vec![0u8; 184];
    put_u32(&mut b, 0, 408_065); // NSE token
    put_i32(&mut b, 4, 157_370); // last price
    put_u32(&mut b, 8, 100); // last traded qty
    put_i32(&mut b, 12, 157_037); // avg traded price
    put_u32(&mut b, 16, 1_192_471); // volume
    put_u32(&mut b, 20, 2_000); // total buy qty
    put_u32(&mut b, 24, 3_000); // total sell qty
    put_i32(&mut b, 28, 156_915); // open
    put_i32(&mut b, 32, 157_500); // high
    put_i32(&mut b, 36, 156_105); // low
    put_i32(&mut b, 40, 156_780); // close
    put_u32(&mut b, 44, 1_700_000_000); // last traded ts
    put_u32(&mut b, 48, 11); // oi
    put_u32(&mut b, 52, 22); // oi day high
    put_u32(&mut b, 56, 33); // oi day low
    put_u32(&mut b, 60, 1_700_000_100); // exchange ts
    // depth: buy level 0 at 64, sell level 0 at 124
    put_u32(&mut b, 64, 5);
    put_i32(&mut b, 68, 157_340);
    b[72..74].copy_from_slice(&1u16.to_be_bytes());
    put_u32(&mut b, 124, 172);
    put_i32(&mut b, 128, 157_370);
    b[132..134].copy_from_slice(&3u16.to_be_bytes());
    b
}

#[test]
fn ltp_decode() {
    // 8-byte LTP body: token 408065 (low byte 1 = NSE), price 0x00026A9F
    let body = [0u8, 6, 0x3A, 1, 0, 2, 0x6A, 0x9F];
    let t = Tick::try_from(&body[..]).unwrap();
    assert_eq!(t.instrument_token, 408_065);
    assert_eq!(t.exchange, Exchange::NSE);
    assert_eq!(t.exchange.divisor(), 100);
    assert_eq!(t.mode, Mode::LTP);
    assert_eq!(t.last_price, Some(0x0002_6A9F));
    assert!(t.is_tradable);
    assert!(!t.is_index);
    assert!(t.ohlc.is_none());
    assert!(t.depth.is_none());
    assert!(t.exchange_timestamp.is_none());
}

#[test]
fn full_decode() {
    let body = full_body();
    let t = Tick::try_from(&body[..]).unwrap();
    assert_eq!(t.instrument_token, 408_065);
    assert_eq!(t.mode, Mode::Full);
    assert_eq!(t.last_price, Some(157_370));
    assert_eq!(t.avg_traded_price, Some(157_037));
    assert_eq!(t.volume_traded, Some(1_192_471));
    let ohlc = t.ohlc.unwrap();
    assert_eq!(
        (ohlc.open, ohlc.high, ohlc.low, ohlc.close),
        (156_915, 157_500, 156_105, 156_780)
    );
    // net change = last price minus close, in scaled units: 5.90
    assert_eq!(t.net_change, Some(590));
    let depth = t.depth.unwrap();
    assert_eq!(depth.buy[0].qty, 5);
    assert_eq!(depth.buy[0].price, 157_340);
    assert_eq!(depth.buy[0].orders, 1);
    assert_eq!(depth.sell[0].qty, 172);
    assert_eq!(depth.sell[0].price, 157_370);
    assert_eq!(depth.sell[0].orders, 3);
    assert_eq!(t.last_traded_timestamp, Some(1_700_000_000));
    assert_eq!(t.exchange_timestamp, Some(1_700_000_100));
    assert_eq!(t.oi, Some(11));
}

#[test]
fn net_change_absent_when_close_is_zero() {
    let mut body = full_body();
    put_i32(&mut body, 40, 0); // close = 0
    let t = Tick::try_from(&body[..]).unwrap();
    assert_eq!(t.net_change, None);
}

#[test]
fn index_quote_and_snapshot_decode() {
    // 32-byte index body: token low byte 9 = INDICES; wire OHLC order is
    // high, low, open, close; bytes 24..28 carry the price change.
    let mut b = vec![0u8; 32];
    put_u32(&mut b, 0, 0x0100_0009);
    put_i32(&mut b, 4, 2_212_410); // ltp
    put_i32(&mut b, 8, 2_220_000); // high
    put_i32(&mut b, 12, 2_200_000); // low
    put_i32(&mut b, 16, 2_210_000); // open
    put_i32(&mut b, 20, 2_205_000); // close
    put_i32(&mut b, 24, 7_410); // price change
    put_u32(&mut b, 28, 1_700_000_200); // exchange ts
    let t = Tick::try_from(&b[..]).unwrap();
    assert_eq!(t.exchange, Exchange::INDICES);
    assert!(t.is_index);
    assert!(!t.is_tradable);
    assert_eq!(t.mode, Mode::Full);
    assert_eq!(t.last_price, Some(2_212_410));
    let ohlc = t.ohlc.unwrap();
    assert_eq!(
        (ohlc.open, ohlc.high, ohlc.low, ohlc.close),
        (2_210_000, 2_220_000, 2_200_000, 2_205_000)
    );
    assert_eq!(t.net_change, Some(7_410));
    assert_eq!(t.exchange_timestamp, Some(1_700_000_200));
    assert!(t.depth.is_none());

    // The 28-byte form is the same without the trailing timestamp.
    let q = Tick::try_from(&b[..28]).unwrap();
    assert_eq!(q.mode, Mode::Quote);
    assert_eq!(q.exchange_timestamp, None);
    assert_eq!(q.net_change, Some(7_410));
}

#[test]
fn quote_decode_44() {
    let body = &full_body()[..44];
    let t = Tick::try_from(body).unwrap();
    assert_eq!(t.mode, Mode::Quote);
    assert_eq!(t.last_price, Some(157_370));
    assert_eq!(t.ohlc.unwrap().close, 156_780);
    // A plain quote carries no derived change and no depth.
    assert_eq!(t.net_change, None);
    assert!(t.depth.is_none());
}

#[test]
fn tick_rejects_unknown_sizes() {
    for len in [0usize, 1, 7, 9, 27, 33, 45, 183, 185] {
        let b = vec![0u8; len];
        let e = Tick::try_from(&b[..]).unwrap_err();
        assert_eq!(e.0, format!("invalid tick size: {}", len));
        assert_eq!(e.message(), &format!("invalid tick size: {}", len));
    }
    for len in [8usize, 28, 32, 44, 184] {
        let mut b = vec![0u8; len];
        b[3] = 1;
        assert!(Tick::try_from(&b[..]).is_ok());
    }
}

#[test]
fn exchange_codes_and_divisors() {
    assert_eq!(Exchange::from(3usize), Exchange::CDS);
    assert_eq!(Exchange::CDS.divisor(), 1_000_000);
    assert_eq!(Exchange::BCD.divisor(), 1_000);
    assert_eq!(Exchange::from(9usize), Exchange::INDICES);
    assert!(!Exchange::INDICES.is_tradable());
    assert_eq!(Exchange::from(0usize), Exchange::NSE);
    assert_eq!(Exchange::from(77usize), Exchange::NSE);
    assert_eq!(Exchange::MCX.name(), "MCX");
}

#[test]
fn frame_with_two_packets() {
    let ltp = [0u8, 6, 0x3A, 1, 0, 2, 0x6A, 0x9F];
    let full = full_body();
    let mut frame: Vec<u8> = Vec::new();
    frame.extend_from_slice(&2u16.to_be_bytes());
    frame.extend_from_slice(&8u16.to_be_bytes());
    frame.extend_from_slice(&ltp);
    frame.extend_from_slice(&184u16.to_be_bytes());
    frame.extend_from_slice(&full);
    let out = process_binary(&frame);
    assert_eq!(out.len(), 1, "a clean frame yields the ticks and nothing else");
    match &out[0] {
        TickerMessage::Ticks(msgs) => {
            assert_eq!(msgs.len(), 2);
            assert_eq!(msgs[0].instrument_token, 408_065);
            assert_eq!(msgs[0].content.mode, Mode::LTP);
            assert_eq!(msgs[1].content.mode, Mode::Full);
            assert_eq!(msgs[1].content.net_change, Some(590));
        }
        other => panic!("expected ticks, got {:?}", other),
    }
}

#[test]
fn frame_keeps_partial_results_on_bad_packet() {
    // Second packet has an unrecognized body length: its tick is dropped
    // but the first packet's tick is kept, and a separate error message
    // reports the drop.
    let ltp = [0u8, 6, 0x3A, 1, 0, 2, 0x6A, 0x9F];
    let mut frame: Vec<u8> = Vec::new();
    frame.extend_from_slice(&2u16.to_be_bytes());
    frame.extend_from_slice(&8u16.to_be_bytes());
    frame.extend_from_slice(&ltp);
    frame.extend_from_slice(&5u16.to_be_bytes());
    frame.extend_from_slice(&[1, 2, 3, 4, 5]);
    let out = process_binary(&frame);
    assert_eq!(out.len(), 2);
    match &out[0] {
        TickerMessage::Ticks(msgs) => assert_eq!(msgs.len(), 1),
        other => panic!("expected ticks, got {:?}", other),
    }
    match &out[1] {
        TickerMessage::Error(e) => assert_eq!(e, "Failed to parse tick(s) in frame"),
        other => panic!("expected error, got {:?}", other),
    }
}

#[test]
fn frame_with_only_bad_packets_reports_error() {
    let mut frame: Vec<u8> = Vec::new();
    frame.extend_from_slice(&1u16.to_be_bytes());
    frame.extend_from_slice(&500u16.to_be_bytes()); // overruns the frame
    frame.extend_from_slice(&[0u8; 4]);
    let out = process_binary(&frame);
    assert_eq!(out.len(), 1);
    match &out[0] {
        TickerMessage::Error(e) => assert_eq!(e, "Failed to parse tick(s) in frame"),
        other => panic!("expected error, got {:?}", other),
    }
}

#[test]
fn heartbeat_and_empty_frames_yield_nothing() {
    assert!(process_binary(&[0u8]).is_empty());
    assert!(process_binary(&[]).is_empty());
    assert!(process_binary(&0u16.to_be_bytes()).is_empty());
}

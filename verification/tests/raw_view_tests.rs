use kiteticker_async_manager::{
    as_184, as_index_quote_32, as_inst_header_64, as_tick_raw, extract_all_full_payloads,
    extract_first_full_payload, Tick, INDEX_QUOTE_SIZE, INST_HEADER_SIZE, TICK_FULL_SIZE,
};

fn sample_full_body() -> Vec<u8> {
    let mut b = vec![0u8; 184];
    b[0..4].copy_from_slice(&408_065u32.to_be_bytes());
    b[4..8].copy_from_slice(&157_370i32.to_be_bytes());
    b[8..12].copy_from_slice(&100u32.to_be_bytes());
    b[12..16].copy_from_slice(&157_037i32.to_be_bytes());
    b[16..20].copy_from_slice(&1_192_471u32.to_be_bytes());
    b[60..64].copy_from_slice(&1_700_000_100u32.to_be_bytes());
    b[64..68].copy_from_slice(&5u32.to_be_bytes());
    b[68..72].copy_from_slice(&157_340i32.to_be_bytes());
    b[72..74].copy_from_slice(&1u16.to_be_bytes());
    b[124..128].copy_from_slice(&172u32.to_be_bytes());
    b[128..132].copy_from_slice(&157_370i32.to_be_bytes());
    b[132..134].copy_from_slice(&3u16.to_be_bytes());
    b
}

#[test]
fn view_sizes() {
    assert_eq!(TICK_FULL_SIZE, 184);
    assert_eq!(INDEX_QUOTE_SIZE, 32);
    assert_eq!(INST_HEADER_SIZE, 64);
}

#[test]
fn tick_raw_is_pure_length_validation() {
    for len in [0usize, 1, 183, 185, 300] {
        let b = vec![0u8; len];
        assert!(as_tick_raw(&b).is_none());
        assert!(as_184(&b).is_none());
    }
    let b = vec![0u8; 184];
    assert!(as_tick_raw(&b).is_some());
    assert_eq!(as_184(&b).unwrap().len(), 184);
}

#[test]
fn tick_raw_fields_match_byte_decode() {
    let b = sample_full_body();
    let v = as_tick_raw(&b).unwrap();
    assert_eq!(v.instrument_token(), 408_065);
    assert_eq!(v.last_price(), 157_370);
    assert_eq!(v.last_traded_qty(), 100);
    assert_eq!(v.avg_traded_price(), 157_037);
    assert_eq!(v.volume_traded(), 1_192_471);
    assert_eq!(v.exchange_ts(), 1_700_000_100);
    let buy0 = v.buy_level(0);
    assert_eq!((buy0.qty, buy0.price, buy0.orders), (5, 157_340, 1));
    let sell0 = v.sell_level(0);
    assert_eq!((sell0.qty, sell0.price, sell0.orders), (172, 157_370, 3));

    // The zero-copy view and the allocating decoder agree.
    let t = Tick::try_from(&b[..]).unwrap();
    assert_eq!(t.instrument_token, v.instrument_token());
    assert_eq!(t.last_price, Some(v.last_price()));
    assert_eq!(t.volume_traded, Some(v.volume_traded()));
}

#[test]
fn negative_prices_read_as_signed() {
    let mut b = sample_full_body();
    b[4..8].copy_from_slice(&(-250i32).to_be_bytes());
    let v = as_tick_raw(&b).unwrap();
    assert_eq!(v.last_price(), -250);
    let t = Tick::try_from(&b[..]).unwrap();
    assert_eq!(t.last_price, Some(-250));
}

#[test]
fn index_quote_view() {
    let mut b = vec![0u8; 32];
    b[0..4].copy_from_slice(&0x0100_0009u32.to_be_bytes());
    b[4..8].copy_from_slice(&2_212_410i32.to_be_bytes());
    b[24..28].copy_from_slice(&7_410i32.to_be_bytes());
    b[28..32].copy_from_slice(&1_700_000_200u32.to_be_bytes());
    assert!(as_index_quote_32(&b[..31]).is_none());
    let v = as_index_quote_32(&b).unwrap();
    assert_eq!(v.token(), 0x0100_0009);
    assert_eq!(v.ltp(), 2_212_410);
    assert_eq!(v.price_change(), 7_410);
    assert_eq!(v.exch_ts(), 1_700_000_200);
}

#[test]
fn inst_header_view() {
    let b = &sample_full_body()[..64];
    assert!(as_inst_header_64(&b[..63]).is_none());
    let v = as_inst_header_64(b).unwrap();
    assert_eq!(v.instrument_token(), 408_065);
    assert_eq!(v.ltp(), 157_370);
    assert_eq!(v.vol(), 1_192_471);
    assert_eq!(v.exch_ts(), 1_700_000_100);
}

#[test]
fn extract_full_payloads_from_frame() {
    let full = sample_full_body();
    let ltp = [0u8, 6, 0x3A, 1, 0, 2, 0x6A, 0x9F];
    let mut frame: Vec<u8> = Vec::new();
    frame.extend_from_slice(&3u16.to_be_bytes());
    frame.extend_from_slice(&8u16.to_be_bytes());
    frame.extend_from_slice(&ltp);
    frame.extend_from_slice(&184u16.to_be_bytes());
    frame.extend_from_slice(&full);
    frame.extend_from_slice(&184u16.to_be_bytes());
    frame.extend_from_slice(&full);

    let first = extract_first_full_payload(&frame).unwrap();
    assert_eq!(first, &full[..]);

    let mut out: Vec<Vec<u8>> = Vec::new();
    extract_all_full_payloads(&frame, 10, &mut out);
    assert_eq!(out.len(), 2);
    assert_eq!(out[0], full);
    assert_eq!(out[1], full);

    let mut capped: Vec<Vec<u8>> = Vec::new();
    extract_all_full_payloads(&frame, 1, &mut capped);
    assert_eq!(capped.len(), 1);

    // A frame with no full-quote packet yields nothing.
    let mut small: Vec<u8> = Vec::new();
    small.extend_from_slice(&1u16.to_be_bytes());
    small.extend_from_slice(&8u16.to_be_bytes());
    small.extend_from_slice(&ltp);
    assert!(extract_first_full_payload(&small).is_none());
}

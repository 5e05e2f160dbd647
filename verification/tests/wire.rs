use tickcast::mappings::TickerMapper;
use tickcast::models::Stock;
use tickcast::models::StockResponse;
use tickcast::models::StockMessage;
use tickcast::wire::build_packet;
use tickcast::wire::encode_message;
use tickcast::wire::encode_records;
use tickcast::wire::encode_snapshot;

fn stock(ticker: &str, open: f64, close: f64) -> Stock {
    Stock {
        ticker: ticker.to_string(),
        volume_bits: 0.0f64.to_bits(),
        open_bits: open.to_bits(),
        close_bits: close.to_bits(),
        high_bits: open.max(close).to_bits(),
        low_bits: open.min(close).to_bits(),
        day_bits: 0.0f64.to_bits(),
    }
}

fn response(results: Vec<Stock>) -> StockResponse {
    StockResponse {
        query_count: results.len() as u64,
        results_count: results.len() as u64,
        adjusted: true,
        results,
    }
}

#[test]
fn packet_layout_is_big_endian() {
    let mut buffer: Vec<u8> = Vec::new();
    let timestamp: u64 = 0x0102030405060708;
    let price = 100.5f64;
    build_packet(timestamp, &[(0x00FF, price.to_bits())], &mut buffer);
    let mut expected = vec![0x01, 0x02, 0x03, 0x04, 0x05, 0x06, 0x07, 0x08, 0x00, 0xFF];
    expected.extend_from_slice(&price.to_be_bytes());
    assert_eq!(buffer, expected);
}

#[test]
fn packet_appends_to_existing_buffer() {
    let mut buffer: Vec<u8> = vec![0xAA];
    build_packet(0, &[(1, 2.0f64.to_bits())], &mut buffer);
    assert_eq!(buffer.len(), 1 + 8 + 10);
    assert_eq!(buffer[0], 0xAA);
    assert_eq!(&buffer[1..9], &[0u8; 8]);
    assert_eq!(&buffer[9..11], &[0x00, 0x01]);
    assert_eq!(&buffer[11..19], &2.0f64.to_be_bytes());
}

#[test]
fn empty_record_run_yields_timestamp_only_packet() {
    let mut buffer: Vec<u8> = Vec::new();
    build_packet(7, &[], &mut buffer);
    assert_eq!(buffer, vec![0, 0, 0, 0, 0, 0, 0, 7]);
}

#[test]
fn snapshot_batching_counts_packets() {
    // Five records at two per packet: ceil(5 / 2) = 3 packets, the last
    // carrying the one leftover record.
    let records: Vec<(u16, u64)> = (0..5).map(|c| (c as u16, (c as f64).to_bits())).collect();
    let packets = encode_snapshot(123, &records, 2);
    assert_eq!(packets.len(), 3);
    assert_eq!(packets[0].len(), 8 + 2 * 10);
    assert_eq!(packets[1].len(), 8 + 2 * 10);
    assert_eq!(packets[2].len(), 8 + 10);
}

#[test]
fn snapshot_batching_exact_multiple() {
    let records: Vec<(u16, u64)> = (0..4).map(|c| (c as u16, (c as f64).to_bits())).collect();
    let packets = encode_snapshot(123, &records, 2);
    assert_eq!(packets.len(), 2);
    assert_eq!(packets[0].len(), 8 + 2 * 10);
    assert_eq!(packets[1].len(), 8 + 2 * 10);
}

#[test]
fn empty_snapshot_yields_no_packets() {
    let records: Vec<(u16, u64)> = Vec::new();
    let packets = encode_snapshot(123, &records, 100);
    assert!(packets.is_empty());
}

#[test]
fn batching_preserves_every_record_in_order() {
    let records: Vec<(u16, u64)> = (0..7)
        .map(|c| (c as u16, (100.0 + c as f64).to_bits()))
        .collect();
    let timestamp: u64 = 0xDEADBEEF;
    let packets = encode_snapshot(timestamp, &records, 3);
    assert_eq!(packets.len(), 3);
    let mut decoded: Vec<(u16, u64)> = Vec::new();
    for packet in &packets {
        assert!(packet.len() >= 8);
        assert_eq!((packet.len() - 8) % 10, 0);
        let ts = u64::from_be_bytes(packet[0..8].try_into().unwrap());
        assert_eq!(ts, timestamp);
        let mut at = 8;
        while at < packet.len() {
            let code = u16::from_be_bytes(packet[at..at + 2].try_into().unwrap());
            let bits = u64::from_be_bytes(packet[at + 2..at + 10].try_into().unwrap());
            decoded.push((code, bits));
            at += 10;
        }
    }
    assert_eq!(decoded, records);
}

#[test]
fn message_encodes_like_its_snapshot() {
    let msg = StockMessage {
        timestamp: 42,
        stocks: vec![(0, 1.5f64.to_bits()), (1, 2.5f64.to_bits()), (2, 3.5f64.to_bits())],
    };
    let packets = encode_message(&msg, 2);
    assert_eq!(packets, encode_snapshot(42, &msg.stocks, 2));
    assert_eq!(packets.len(), 2);
}

#[test]
fn unknown_ticker_is_skipped_not_fatal() {
    let data = response(vec![stock("AAPL", 100.0, 110.0), stock("MSFT", 50.0, 55.0)]);
    let mapper = TickerMapper::new(&data).unwrap();
    let prices = vec![
        ("AAPL".to_string(), 105.0f64.to_bits()),
        ("GONE".to_string(), 1.0f64.to_bits()),
        ("MSFT".to_string(), 52.5f64.to_bits()),
    ];
    let (records, skipped) = encode_records(&mapper, &prices);
    assert_eq!(skipped, 1);
    assert_eq!(
        records,
        vec![(0, 105.0f64.to_bits()), (1, 52.5f64.to_bits())]
    );
}

#[test]
fn encode_records_keeps_snapshot_order() {
    let data = response(vec![stock("AAPL", 100.0, 110.0), stock("MSFT", 50.0, 55.0)]);
    let mapper = TickerMapper::new(&data).unwrap();
    let prices = vec![
        ("MSFT".to_string(), 51.0f64.to_bits()),
        ("AAPL".to_string(), 101.0f64.to_bits()),
    ];
    let (records, skipped) = encode_records(&mapper, &prices);
    assert_eq!(skipped, 0);
    assert_eq!(
        records,
        vec![(1, 51.0f64.to_bits()), (0, 101.0f64.to_bits())]
    );
}

use tickcast::engine::partition_ranges;
use tickcast::engine::tick_action;
use tickcast::engine::TickAction;
use tickcast::mappings::TickerMapper;
use tickcast::models::Stock;
use tickcast::models::StockResponse;
use tickcast::store::PriceStore;
use tickcast::wire::encode_snapshot;

fn stock(ticker: &str, open: f64, close: f64) -> Stock {
    Stock {
        ticker: ticker.to_string(),
        volume_bits: 0.0f64.to_bits(),
        open_bits: open.to_bits(),
        close_bits: close.to_bits(),
        high_bits: open.max(close).to_bits(),
        low_bits: open.min(close).to_bits(),
        day_bits: 0.0f64.to_bits(),
    }
}

fn response(results: Vec<Stock>) -> StockResponse {
    StockResponse {
        query_count: results.len() as u64,
        results_count: results.len() as u64,
        adjusted: true,
        results,
    }
}

fn model_step(prev_bits: u64, close_bits: u64, remaining: usize, noise: f64) -> u64 {
    let prev = f64::from_bits(prev_bits);
    let close = f64::from_bits(close_bits);
    let correction = (close - prev) / remaining as f64;
    (prev + noise + correction).to_bits()
}

// A small deterministic stand-in for a per-worker noise source.
fn pseudo_noise(tick: usize, instrument: usize) -> f64 {
    let mut x = (tick as u64)
        .wrapping_mul(6364136223846793005)
        .wrapping_add(instrument as u64)
        .wrapping_add(1442695040888963407);
    x ^= x >> 33;
    x = x.wrapping_mul(0xff51afd7ed558ccd);
    x ^= x >> 33;
    (x % 1000) as f64 / 1000.0 - 0.5
}

#[test]
fn zero_noise_path_is_straight_line_interpolation() {
    let open = 100.0f64;
    let close = 110.0f64;
    let stocks = vec![stock("ABC", open, close)];
    let total_samples = 6usize;
    let mut store = PriceStore::init(&stocks);
    for tick in 1..total_samples {
        match tick_action(tick, total_samples) {
            TickAction::Advance { remaining } => {
                let prev = store.get(0).unwrap();
                let next = model_step(prev, stocks[0].close_bits, remaining, 0.0);
                store.apply_tick(&vec![Some(next)]);
            }
            TickAction::Converge => {
                store.converge(&stocks);
            }
        }
        let price = f64::from_bits(store.get(0).unwrap());
        let expected = open + (close - open) * tick as f64 / (total_samples - 1) as f64;
        assert!(
            (price - expected).abs() < 1e-9,
            "tick {}: {} vs {}",
            tick,
            price,
            expected
        );
        assert!(price.is_finite());
    }
    assert_eq!(store.get(0).unwrap(), close.to_bits());
}

#[test]
fn end_to_end_single_instrument_run() {
    // One instrument, open 100, close 110, three samples: one model tick
    // with zero noise lands on 105, the final tick is forced to 110, and
    // each tick broadcasts one packet holding one record.
    let stocks = vec![stock("ABC", 100.0, 110.0)];
    let data = response(stocks.clone());
    let mapper = TickerMapper::new(&data).unwrap();
    let code = mapper.encode("ABC").unwrap();
    assert_eq!(code, 0);
    let total_samples = 3usize;
    let mut store = PriceStore::init(&stocks);

    // Tick 1: correction = (110 - 100) / 2 = 5.0, no noise.
    let action = tick_action(1, total_samples);
    assert_eq!(action, TickAction::Advance { remaining: 2 });
    let prev = store.get(0).unwrap();
    let next = model_step(prev, stocks[0].close_bits, 2, 0.0);
    store.apply_tick(&vec![Some(next)]);
    assert_eq!(store.get(0).unwrap(), 105.0f64.to_bits());

    let packets = encode_snapshot(1_000, &store.snapshot_records(), 40);
    assert_eq!(packets.len(), 1);
    assert_eq!(packets[0].len(), 8 + 10);
    let sent_code = u16::from_be_bytes(packets[0][8..10].try_into().unwrap());
    let sent_bits = u64::from_be_bytes(packets[0][10..18].try_into().unwrap());
    assert_eq!(sent_code, code);
    assert_eq!(f64::from_bits(sent_bits), 105.0);

    // Tick 2: the final tick, forced to the close exactly.
    let action = tick_action(2, total_samples);
    assert_eq!(action, TickAction::Converge);
    store.converge(&stocks);
    assert_eq!(store.get(0).unwrap(), 110.0f64.to_bits());

    let packets = encode_snapshot(1_100, &store.snapshot_records(), 40);
    assert_eq!(packets.len(), 1);
    let sent_code = u16::from_be_bytes(packets[0][8..10].try_into().unwrap());
    let sent_bits = u64::from_be_bytes(packets[0][10..18].try_into().unwrap());
    assert_eq!(sent_code, code);
    assert_eq!(f64::from_bits(sent_bits), 110.0);
}

#[test]
fn final_prices_do_not_depend_on_the_partition() {
    // Ten independent instruments, a thousand ticks, the same noise draws:
    // committing each tick's updates in the order of a four-worker
    // partition or of a three-worker partition reversed gives identical
    // snapshots throughout, and every final price is its close exactly.
    let stocks: Vec<Stock> = (0..10)
        .map(|i| {
            stock(
                &format!("S{}", i),
                50.0 + 10.0 * i as f64,
                60.0 + 9.0 * i as f64,
            )
        })
        .collect();
    let total_samples = 1000usize;
    let n = stocks.len();

    let mut store_a = PriceStore::init(&stocks);
    let mut store_b = PriceStore::init(&stocks);
    let ranges_a = partition_ranges(n, 4);
    let ranges_b = partition_ranges(n, 3);

    for tick in 1..total_samples {
        match tick_action(tick, total_samples) {
            TickAction::Advance { remaining } => {
                let mut updates: Vec<Option<u64>> = Vec::new();
                for i in 0..n {
                    let prev = store_a.get(i).unwrap();
                    let noise = pseudo_noise(tick, i);
                    updates.push(Some(model_step(
                        prev,
                        stocks[i].close_bits,
                        remaining,
                        noise,
                    )));
                }
                for &(lo, hi) in ranges_a.iter() {
                    for i in lo..hi {
                        store_a.set_price(i, updates[i].unwrap());
                    }
                }
                for &(lo, hi) in ranges_b.iter().rev() {
                    for i in (lo..hi).rev() {
                        store_b.set_price(i, updates[i].unwrap());
                    }
                }
            }
            TickAction::Converge => {
                store_a.converge(&stocks);
                store_b.converge(&stocks);
            }
        }
        for i in 0..n {
            let a = store_a.get(i).unwrap();
            let b = store_b.get(i).unwrap();
            assert_eq!(a, b, "tick {} instrument {}", tick, i);
            assert!(f64::from_bits(a).is_finite());
        }
    }
    for (i, s) in stocks.iter().enumerate() {
        assert_eq!(store_a.get(i).unwrap(), s.close_bits);
        assert_eq!(store_b.get(i).unwrap(), s.close_bits);
    }
}

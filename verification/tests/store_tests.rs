use depthbook::decimal::Scale9;
use depthbook::error::Error;
use depthbook::store::BookStore;
use depthbook::types::{Level, MAX_LEVELS};

const TS: u64 = 1_700_000_000_000_000_000;
const ONE: i64 = 1_000_000_000;

/// A price or quantity of `units` whole units, in scale-9.
fn s9(units: i64) -> Scale9 {
    Scale9::from_raw(units * ONE)
}

fn one(price: i64) -> Vec<Level> {
    vec![Level::new(s9(price), s9(1))]
}

fn now_nanos() -> u64 {
    std::time::SystemTime::now()
        .duration_since(std::time::UNIX_EPOCH)
        .expect("system clock is before the Unix epoch")
        .as_nanos() as u64
}

#[test]
fn apply_snapshot_populates_both_sides() {
    let mut store = BookStore::new();

    let bids = vec![
        Level::new(s9(50000), s9(1)),
        Level::new(s9(49999), s9(2)),
    ];
    let asks = vec![
        Level::new(s9(50001), Scale9::from_raw(1_500_000_000)),
        Level::new(s9(50002), Scale9::from_raw(2_500_000_000)),
    ];

    store
        .apply_snapshot("binance", "BTC-USDT", &bids, &asks, 1, TS)
        .unwrap();

    let book = store.snapshot("binance", "BTC-USDT", 0).unwrap();
    assert_eq!(book.bids.count(), 2);
    assert_eq!(book.asks.count(), 2);
    assert_eq!(store.stats().snapshots_applied, 1);
}

#[test]
fn apply_delta_adds_a_level() {
    let mut store = BookStore::new();
    let bids = vec![Level::new(s9(50000), s9(1))];
    let asks = vec![Level::new(s9(50001), s9(1))];

    store
        .apply_snapshot("binance", "BTC-USDT", &bids, &asks, 1, TS)
        .unwrap();

    let delta = vec![Level::new(s9(49999), s9(2))];
    store
        .apply_delta("binance", "BTC-USDT", &delta, &[], 2, TS + 1)
        .unwrap();

    let book = store.snapshot("binance", "BTC-USDT", 0).unwrap();
    assert_eq!(book.bids.count(), 2);
    assert_eq!(store.stats().deltas_applied, 1);
}

#[test]
fn delta_with_a_gap_is_rejected_and_counted() {
    let mut store = BookStore::new();
    store
        .apply_snapshot("binance", "BTC-USDT", &[], &[], 1, TS)
        .unwrap();

    let result = store.apply_delta("binance", "BTC-USDT", &[], &[], 5, TS + 1);

    assert!(matches!(
        result,
        Err(Error::SequenceGap {
            expected: 2,
            received: 5
        })
    ));
    assert_eq!(store.stats().sequence_gaps, 1);
}

#[test]
fn delta_keeps_the_exchange_timestamp() {
    let mut store = BookStore::new();
    store
        .apply_snapshot("binance", "BTC-USDT", &[], &[], 1, TS)
        .unwrap();
    store
        .apply_delta("binance", "BTC-USDT", &[], &[], 2, TS + 42)
        .unwrap();

    let book = store.snapshot("binance", "BTC-USDT", 0).unwrap();
    assert_eq!(book.ts, TS + 42);
}

#[test]
fn snapshot_honours_depth() {
    let mut store = BookStore::new();
    let bids: Vec<Level> = (0..20)
        .map(|i| Level::new(s9(50000 - i), s9(1)))
        .collect();
    let asks: Vec<Level> = (0..20)
        .map(|i| Level::new(s9(50001 + i), s9(1)))
        .collect();

    store
        .apply_snapshot("binance", "BTC-USDT", &bids, &asks, 1, TS)
        .unwrap();

    let shallow = store.snapshot("binance", "BTC-USDT", 5).unwrap();
    assert_eq!(shallow.bids.count(), 5);
    assert_eq!(shallow.asks.count(), 5);
    assert_eq!(shallow.bids.best().unwrap().price, s9(50000));

    let full = store.snapshot("binance", "BTC-USDT", 0).unwrap();
    assert_eq!(full.bids.count(), 20);
}

#[test]
fn bbo_returns_top_of_book() {
    let mut store = BookStore::new();
    let bids = vec![
        Level::new(s9(50000), s9(1)),
        Level::new(s9(49999), s9(2)),
    ];
    let asks = vec![
        Level::new(s9(50001), Scale9::from_raw(1_500_000_000)),
        Level::new(s9(50002), Scale9::from_raw(2_500_000_000)),
    ];

    store
        .apply_snapshot("binance", "BTC-USDT", &bids, &asks, 1, TS)
        .unwrap();

    let (bid, ask) = store.bbo("binance", "BTC-USDT").unwrap();
    assert_eq!(bid.price, s9(50000));
    assert_eq!(ask.price, s9(50001));
}

#[test]
fn missing_book_is_stale_and_not_found() {
    let mut store = BookStore::new();

    assert!(store.is_stale("binance", "BTC-USDT", 1000));
    assert!(matches!(
        store.apply_delta("binance", "BTC-USDT", &[], &[], 1, TS),
        Err(Error::NotFound { .. })
    ));
}

#[test]
fn fresh_book_is_not_stale() {
    let mut store = BookStore::new();
    let now = now_nanos();

    store
        .apply_snapshot("binance", "BTC-USDT", &[], &[], 1, now)
        .unwrap();

    assert!(!store.is_stale("binance", "BTC-USDT", 1000));
}

#[test]
fn old_delta_is_ignored() {
    let mut store = BookStore::new();
    store
        .apply_snapshot("binance", "BTC-USDT", &[], &[], 5, TS)
        .unwrap();

    assert!(store
        .apply_delta("binance", "BTC-USDT", &[], &[], 3, TS + 1)
        .is_ok());
    assert_eq!(store.stats().deltas_applied, 0);
}

#[test]
fn gap_flags_the_book_until_a_snapshot_clears_it() {
    let mut store = BookStore::new();
    assert!(store.is_gapped("binance", "BTC-USDT"));

    store
        .apply_snapshot("binance", "BTC-USDT", &one(1), &one(2), 1, TS)
        .unwrap();
    assert!(!store.is_gapped("binance", "BTC-USDT"));

    assert!(store
        .apply_delta("binance", "BTC-USDT", &[], &[], 5, TS)
        .is_err());
    assert!(store.is_gapped("binance", "BTC-USDT"));
    assert!(store.snapshot("binance", "BTC-USDT", 0).unwrap().gapped);
    assert!(store.bbo("binance", "BTC-USDT").is_some());

    store
        .apply_snapshot("binance", "BTC-USDT", &one(1), &one(2), 5, TS)
        .unwrap();
    assert!(!store.is_gapped("binance", "BTC-USDT"));
    assert!(!store.snapshot("binance", "BTC-USDT", 0).unwrap().gapped);
}

#[test]
fn older_snapshot_is_rejected_until_the_book_is_removed() {
    let mut store = BookStore::new();
    store
        .apply_snapshot("binance", "BTC-USDT", &one(1), &one(2), 10, TS)
        .unwrap();

    let err = store
        .apply_snapshot("binance", "BTC-USDT", &one(3), &one(4), 9, TS)
        .unwrap_err();
    assert_eq!(
        err,
        Error::OutOfOrder {
            current: 10,
            received: 9
        }
    );
    assert!(err.message().contains("call remove first"));
    assert_eq!(store.stats().snapshots_rejected, 1);
    assert_eq!(store.snapshot("binance", "BTC-USDT", 0).unwrap().seq, 10);

    store
        .apply_snapshot("binance", "BTC-USDT", &one(1), &one(2), 10, TS)
        .unwrap();

    assert!(store.remove("binance", "BTC-USDT"));
    assert!(!store.remove("binance", "BTC-USDT"));
    store
        .apply_snapshot("binance", "BTC-USDT", &one(3), &one(4), 1, TS)
        .unwrap();
    assert_eq!(store.snapshot("binance", "BTC-USDT", 0).unwrap().seq, 1);
}

#[test]
fn dropped_levels_are_counted() {
    let mut store = BookStore::new();
    let bids: Vec<Level> = (0..(MAX_LEVELS as i64) + 5)
        .map(|i| Level::new(s9(50_000 - i), s9(1)))
        .collect();

    store
        .apply_snapshot("binance", "BTC-USDT", &bids, &one(60_000), 1, TS)
        .unwrap();
    assert_eq!(store.stats().levels_dropped, 5);
    let book = store.snapshot("binance", "BTC-USDT", 0).unwrap();
    assert_eq!(book.bids.count(), MAX_LEVELS);
    assert_eq!(book.bids.best().unwrap().price, s9(50_000));

    store
        .apply_delta(
            "binance",
            "BTC-USDT",
            &[Level::new(s9(50_001), s9(1))],
            &[],
            2,
            TS,
        )
        .unwrap();
    assert_eq!(store.stats().levels_dropped, 6);

    store
        .apply_delta(
            "binance",
            "BTC-USDT",
            &[Level::new(s9(50_001), s9(3))],
            &[],
            3,
            TS,
        )
        .unwrap();
    assert_eq!(store.stats().levels_dropped, 6);
}

#[test]
fn negative_prices_and_quantities_are_rejected() {
    let mut store = BookStore::new();
    let bad_qty = vec![Level::new(s9(1), s9(-1))];
    let bad_price = vec![Level::new(s9(-1), s9(1))];

    assert!(matches!(
        store.apply_snapshot("binance", "BTC-USDT", &bad_qty, &[], 1, TS),
        Err(Error::InvalidData(_))
    ));
    assert!(store.snapshot("binance", "BTC-USDT", 0).is_none());

    store
        .apply_snapshot("binance", "BTC-USDT", &one(1), &one(2), 1, TS)
        .unwrap();
    assert!(matches!(
        store.apply_delta("binance", "BTC-USDT", &[], &bad_price, 2, TS),
        Err(Error::InvalidData(_))
    ));
    assert_eq!(store.snapshot("binance", "BTC-USDT", 0).unwrap().seq, 1);
}

#[test]
fn invalid_level_message_shows_decimal_values() {
    let mut store = BookStore::new();
    let bad = vec![Level::new(Scale9::from_raw(1_500_000_000), Scale9::from_raw(-250_000_000))];
    match store.apply_snapshot("binance", "BTC-USDT", &[], &bad, 1, TS) {
        Err(Error::InvalidData(msg)) => {
            assert_eq!(msg, "negative price or quantity: -0.25 @ 1.5")
        }
        other => panic!("unexpected {other:?}"),
    }
    assert_eq!(store.stats().snapshots_applied, 0);
}

#[test]
fn not_found_names_the_book() {
    let mut store = BookStore::new();
    match store.apply_delta("okx", "ETH-USDT", &[], &[], 1, TS) {
        Err(Error::NotFound { venue, inst }) => {
            assert_eq!(venue, "okx");
            assert_eq!(inst, "ETH-USDT");
        }
        other => panic!("unexpected {other:?}"),
    }
}

#[test]
fn stats_count_books_and_snapshots() {
    let mut store = BookStore::new();
    store
        .apply_snapshot("binance", "BTC-USDT", &one(1), &one(2), 1, TS)
        .unwrap();
    store
        .apply_snapshot("binance", "ETH-USDT", &one(1), &one(2), 1, TS)
        .unwrap();
    let stats = store.stats();
    assert_eq!(stats.books, 2);
    assert_eq!(stats.snapshots_applied, 2);
    assert!(store.remove("binance", "ETH-USDT"));
    assert_eq!(store.stats().books, 1);
}

#[test]
fn snapshot_skips_zero_quantities() {
    let mut store = BookStore::new();
    let bids = vec![Level::new(s9(10), s9(1)), Level::new(s9(9), Scale9::zero())];
    store
        .apply_snapshot("binance", "BTC-USDT", &bids, &[], 1, TS)
        .unwrap();
    assert_eq!(store.snapshot("binance", "BTC-USDT", 0).unwrap().bids.count(), 1);
}

#[test]
fn staleness_is_measured_against_the_given_clock() {
    let mut store = BookStore::new();
    store
        .apply_snapshot("binance", "BTC-USDT", &[], &[], 1, TS)
        .unwrap();
    assert!(!store.is_stale_at("binance", "BTC-USDT", TS + 500_000_000, 1000));
    assert!(store.is_stale_at("binance", "BTC-USDT", TS + 2_000_000_000, 1000));
    assert!(store.is_stale_at("binance", "ETH-USDT", TS, 1000));
}

use depthbook::decimal::Scale9;
use depthbook::intern::InternedString;
use depthbook::types::{Book, Insertion, Level, Side, MAX_LEVELS};

#[test]
fn test_order_book_level_creation() {
    let level = Level::new(Scale9::from_raw(50000_123456789), Scale9::from_raw(1_500_000_000));
    assert_eq!(level.price.raw(), 50000_123456789);
    assert_eq!(level.qty.raw(), 1_500_000_000);
    assert!(!level.is_empty());
}

#[test]
fn test_order_book_level_empty() {
    let level = Level::new(Scale9::from_raw(50000_000000000), Scale9::from_raw(0));
    assert!(level.is_empty());
}

#[test]
fn test_order_book_side_new() {
    let side = Side::new();
    assert_eq!(side.count(), 0);
    assert!(side.is_empty());
    assert!(side.best().is_none());
}

#[test]
fn test_order_book_side_insert_bids() {
    let mut bids = Side::new();

    assert!(bids.insert(Level::new(Scale9::from_raw(50000_000000000), Scale9::from_raw(1_000000000)), true));
    assert!(bids.insert(Level::new(Scale9::from_raw(49999_000000000), Scale9::from_raw(2_000000000)), true));
    assert!(bids.insert(Level::new(Scale9::from_raw(50001_000000000), Scale9::from_raw(500000000)), true));

    assert_eq!(bids.count(), 3);
    assert_eq!(bids.levels()[0].price.raw(), 50001_000000000);
    assert_eq!(bids.levels()[1].price.raw(), 50000_000000000);
    assert_eq!(bids.levels()[2].price.raw(), 49999_000000000);
}

#[test]
fn test_order_book_side_insert_asks() {
    let mut asks = Side::new();

    assert!(asks.insert(Level::new(Scale9::from_raw(50000_000000000), Scale9::from_raw(1_000000000)), false));
    assert!(asks.insert(Level::new(Scale9::from_raw(50001_000000000), Scale9::from_raw(2_000000000)), false));
    assert!(asks.insert(Level::new(Scale9::from_raw(49999_000000000), Scale9::from_raw(500000000)), false));

    assert_eq!(asks.count(), 3);
    assert_eq!(asks.levels()[0].price.raw(), 49999_000000000);
    assert_eq!(asks.levels()[1].price.raw(), 50000_000000000);
    assert_eq!(asks.levels()[2].price.raw(), 50001_000000000);
}

#[test]
fn test_order_book_side_update_existing() {
    let mut bids = Side::new();

    bids.insert(Level::new(Scale9::from_raw(50000_000000000), Scale9::from_raw(1_000000000)), true);
    assert_eq!(bids.count(), 1);

    assert!(!bids.insert(Level::new(Scale9::from_raw(50000_000000000), Scale9::from_raw(2_000000000)), true));
    assert_eq!(bids.count(), 1);
    assert_eq!(bids.levels()[0].qty.raw(), 2_000000000);
}

#[test]
fn test_order_book_side_remove() {
    let mut bids = Side::new();

    bids.insert(Level::new(Scale9::from_raw(50000_000000000), Scale9::from_raw(1_000000000)), true);
    bids.insert(Level::new(Scale9::from_raw(49999_000000000), Scale9::from_raw(2_000000000)), true);
    assert_eq!(bids.count(), 2);

    assert!(bids.remove(Scale9::from_raw(50000_000000000), true));
    assert_eq!(bids.count(), 1);
    assert_eq!(bids.levels()[0].price.raw(), 49999_000000000);

    assert!(!bids.remove(Scale9::from_raw(50000_000000000), true));
}

#[test]
fn test_order_book_side_update() {
    let mut bids = Side::new();

    bids.update(Scale9::from_raw(50000_000000000), Scale9::from_raw(1_000000000), true);
    assert_eq!(bids.count(), 1);

    bids.update(Scale9::from_raw(50000_000000000), Scale9::from_raw(2_000000000), true);
    assert_eq!(bids.count(), 1);
    assert_eq!(bids.levels()[0].qty.raw(), 2_000000000);

    bids.update(Scale9::from_raw(50000_000000000), Scale9::from_raw(0), true);
    assert_eq!(bids.count(), 0);
}

#[test]
fn test_order_book_side_best() {
    let mut bids = Side::new();

    bids.insert(Level::new(Scale9::from_raw(50000_000000000), Scale9::from_raw(1_000000000)), true);
    bids.insert(Level::new(Scale9::from_raw(49999_000000000), Scale9::from_raw(2_000000000)), true);

    let best = bids.best().unwrap();
    assert_eq!(best.price.raw(), 50000_000000000);
    assert_eq!(best.qty.raw(), 1_000000000);
}

#[test]
fn test_order_book_side_depth_within_bps() {
    let mut bids = Side::new();

    bids.insert(Level::new(Scale9::from_raw(50000_000000000), Scale9::from_raw(1_000000000)), true);
    bids.insert(Level::new(Scale9::from_raw(49000_000000000), Scale9::from_raw(2_000000000)), true);
    bids.insert(Level::new(Scale9::from_raw(40000_000000000), Scale9::from_raw(3_000000000)), true);

    let depth = bids.depth_within_bps(3000, true).raw();
    assert_eq!(depth, 6_000000000);

    let depth = bids.depth_within_bps(50, true).raw();
    assert_eq!(depth, 1_000000000);

    let depth = bids.depth_within_bps(1900, true).raw();
    assert_eq!(depth, 3_000000000);
}

#[test]
fn test_order_book_snapshot_creation() {
    let snapshot = Book::new(
        InternedString::new("binance"),
        InternedString::new("BTC-USDT"),
        1234567890000000000,
        42,
    );

    assert_eq!(snapshot.venue.as_str(), "binance");
    assert_eq!(snapshot.inst.as_str(), "BTC-USDT");
    assert_eq!(snapshot.ts, 1234567890000000000);
    assert_eq!(snapshot.seq, 42);
}

#[test]
fn test_order_book_snapshot_mid_price() {
    let mut snapshot = Book::new(
        InternedString::new("binance"),
        InternedString::new("BTC-USDT"),
        1234567890000000000,
        42,
    );

    snapshot.bids.insert(Level::new(Scale9::from_raw(50000_000000000), Scale9::from_raw(1_000000000)), true);
    snapshot.asks.insert(Level::new(Scale9::from_raw(50010_000000000), Scale9::from_raw(1_000000000)), false);

    let mid = snapshot.mid_price().map(|v| v.raw()).unwrap();
    assert_eq!(mid, 50005_000000000);
}

#[test]
fn test_order_book_snapshot_spread() {
    let mut snapshot = Book::new(
        InternedString::new("binance"),
        InternedString::new("BTC-USDT"),
        1234567890000000000,
        42,
    );

    snapshot.bids.insert(Level::new(Scale9::from_raw(50000_000000000), Scale9::from_raw(1_000000000)), true);
    snapshot.asks.insert(Level::new(Scale9::from_raw(50010_000000000), Scale9::from_raw(1_000000000)), false);

    let spread = snapshot.spread().map(|v| v.raw()).unwrap();
    assert_eq!(spread, 10_000000000);
}

#[test]
fn test_order_book_side_clear() {
    let mut bids = Side::new();
    bids.insert(Level::new(Scale9::from_raw(50000_000000000), Scale9::from_raw(1_000000000)), true);
    bids.insert(Level::new(Scale9::from_raw(49999_000000000), Scale9::from_raw(2_000000000)), true);
    assert_eq!(bids.count(), 2);

    bids.clear();
    assert_eq!(bids.count(), 0);
    assert!(bids.is_empty());
}

#[test]
fn test_order_book_side_capacity() {
    let mut bids = Side::new();

    for i in 0..200 {
        let price = (50000 - i) * 1_000000000;
        bids.insert(Level::new(Scale9::from_raw(price), Scale9::from_raw(1_000000000)), true);
    }
    assert_eq!(bids.count(), 200);

    bids.insert(Level::new(Scale9::from_raw(50001_000000000), Scale9::from_raw(1_000000000)), true);
    assert_eq!(bids.count(), 200);
    assert_eq!(bids.levels()[0].price.raw(), 50001_000000000);
}

#[test]
fn insert_outcome_reports_each_case() {
    let mut asks = Side::new();
    assert_eq!(asks.insert_outcome(Level::new(Scale9::from_raw(10), Scale9::from_raw(1)), false), Insertion::Added);
    assert_eq!(asks.insert_outcome(Level::new(Scale9::from_raw(10), Scale9::from_raw(2)), false), Insertion::Updated);
    assert_eq!(asks.insert_outcome(Level::new(Scale9::from_raw(11), Scale9::from_raw(0)), false), Insertion::Ignored);
    assert_eq!(asks.insert_outcome(Level::new(Scale9::from_raw(10), Scale9::from_raw(0)), false), Insertion::Removed);
    assert_eq!(asks.count(), 0);

    for price in 1..=(MAX_LEVELS as i64) {
        assert_eq!(asks.insert_outcome(Level::new(Scale9::from_raw(price), Scale9::from_raw(1)), false), Insertion::Added);
    }
    // Worse than every level of a full side: discarded.
    assert_eq!(asks.insert_outcome(Level::new(Scale9::from_raw(1_000), Scale9::from_raw(1)), false), Insertion::Dropped);
    // Better than the worst: inserted, and the worst goes.
    assert_eq!(asks.insert_outcome(Level::new(Scale9::from_raw(0), Scale9::from_raw(1)), false), Insertion::Displaced);
    assert_eq!(asks.count(), MAX_LEVELS);
    assert_eq!(asks.best().unwrap().price.raw(), 0);
    assert_eq!(asks.levels()[MAX_LEVELS - 1].price.raw(), (MAX_LEVELS - 1) as i64);
}

#[test]
fn truncate_keeps_the_best_levels() {
    let mut bids = Side::new();
    bids.insert(Level::new(Scale9::from_raw(50000_000000000), Scale9::from_raw(1_000000000)), true);
    bids.insert(Level::new(Scale9::from_raw(49999_000000000), Scale9::from_raw(2_000000000)), true);

    bids.truncate(1);
    assert_eq!(bids.count(), 1);
    assert_eq!(bids.best().unwrap().price.raw(), 50000_000000000);

    bids.truncate(5);
    assert_eq!(bids.count(), 1);
}

#[test]
fn depth_of_asks_and_of_a_zero_best_price() {
    let mut asks = Side::new();
    assert_eq!(asks.depth_within_bps(100, false).raw(), 0);
    asks.insert(Level::new(Scale9::from_raw(10_000_000000000), Scale9::from_raw(1_000000000)), false);
    asks.insert(Level::new(Scale9::from_raw(10_050_000000000), Scale9::from_raw(2_000000000)), false);
    asks.insert(Level::new(Scale9::from_raw(10_200_000000000), Scale9::from_raw(4_000000000)), false);
    // 100 bps above 10000 is 10100: the first two levels.
    assert_eq!(asks.depth_within_bps(100, false).raw(), 3_000000000);

    let mut zero = Side::new();
    zero.insert(Level::new(Scale9::from_raw(0), Scale9::from_raw(5)), false);
    assert_eq!(zero.depth_within_bps(100, false).raw(), 0);
}

#[test]
fn depth_saturates_instead_of_overflowing() {
    let mut bids = Side::new();
    bids.insert(Level::new(Scale9::from_raw(100), Scale9::from_raw(i64::MAX)), true);
    bids.insert(Level::new(Scale9::from_raw(99), Scale9::from_raw(i64::MAX)), true);
    assert_eq!(bids.depth_within_bps(10_000, true).raw(), i64::MAX);
}

#[test]
fn default_side_is_empty() {
    let side = Side::default();
    assert!(side.is_empty());
    assert_eq!(side.count(), 0);
}

use depthbook::decimal::{scale9_to_string, Scale9};
use depthbook::intern::InternedString;
use depthbook::types::{Book, Level, Side};

/// `value` in scale-9, rounded to the nearest 10⁻⁹.
fn s9(value: f64) -> Scale9 {
    Scale9::from_raw((value * 1_000_000_000.0).round() as i64)
}

#[test]
fn test_realistic_order_book_workflow() {
    let mut book = Book::new(
        InternedString::new("binance"),
        InternedString::new("BTC-USDT"),
        1234567890000000000,
        1,
    );

    book.bids.insert(Level::new(s9(50000.12), s9(1.5)), true);
    book.bids.insert(Level::new(s9(49999.50), s9(2.3)), true);
    book.bids.insert(Level::new(s9(49998.00), s9(0.75)), true);

    book.asks.insert(Level::new(s9(50001.25), s9(1.0)), false);
    book.asks.insert(Level::new(s9(50002.50), s9(1.8)), false);
    book.asks.insert(Level::new(s9(50003.75), s9(2.5)), false);

    let best_bid = book.bids.best().unwrap();
    let best_ask = book.asks.best().unwrap();

    assert!(best_bid.price > s9(50000.0));
    assert!(best_ask.price > s9(50001.0));

    let mid = book.mid_price().unwrap();
    assert!(mid > s9(50000.0));
    assert!(mid < s9(50002.0));

    let spread = book.spread().unwrap();
    assert!(spread < s9(2.0));

    assert_eq!(book.bids.count(), 3);
    assert_eq!(book.asks.count(), 3);
}

#[test]
fn test_order_book_updates() {
    let mut book = Book::new(
        InternedString::new("coinbase"),
        InternedString::new("ETH-USD"),
        1234567890000000000,
        1,
    );

    for i in 0..10 {
        let bid_price = s9(3000.0 - i as f64);
        let ask_price = s9(3010.0 + i as f64);

        book.bids.insert(Level::new(bid_price, s9(1.0)), true);
        book.asks.insert(Level::new(ask_price, s9(1.0)), false);
    }

    assert_eq!(book.bids.count(), 10);
    assert_eq!(book.asks.count(), 10);

    book.bids.update(s9(2995.0), s9(5.0), true);
    assert_eq!(book.bids.count(), 10);

    book.bids.update(s9(2995.0), s9(0.0), true);
    assert_eq!(book.bids.count(), 9);

    book.bids.insert(Level::new(s9(2985.0), s9(2.0)), true);
    assert_eq!(book.bids.count(), 10);
}

#[test]
fn test_depth_calculation() {
    let mut bids = Side::new();

    bids.insert(Level::new(s9(50000.0), s9(1.0)), true);
    bids.insert(Level::new(s9(49950.0), s9(2.0)), true);
    bids.insert(Level::new(s9(49900.0), s9(3.0)), true);
    bids.insert(Level::new(s9(49500.0), s9(4.0)), true);

    let depth = bids.depth_within_bps(5, true);
    assert_eq!(depth, s9(1.0));

    let depth = bids.depth_within_bps(80, true);
    assert_eq!(depth, s9(6.0));

    let depth = bids.depth_within_bps(1000, true);
    assert_eq!(depth, s9(10.0));
}

#[test]
fn test_order_book_side_sorting() {
    let mut bids = Side::new();

    let prices = [49950.0, 50000.0, 49900.0, 49999.0, 49800.0];
    for price in prices {
        bids.insert(Level::new(s9(price), s9(1.0)), true);
    }

    let levels: Vec<Level> = bids.levels().to_vec();
    for i in 1..levels.len() {
        assert!(
            levels[i - 1].price >= levels[i].price,
            "Bids not properly sorted: {:?} < {:?}",
            levels[i - 1].price,
            levels[i].price
        );
    }

    let mut asks = Side::new();
    for price in prices {
        asks.insert(Level::new(s9(price), s9(1.0)), false);
    }

    let levels: Vec<Level> = asks.levels().to_vec();
    for i in 1..levels.len() {
        assert!(
            levels[i - 1].price <= levels[i].price,
            "Asks not properly sorted: {:?} > {:?}",
            levels[i - 1].price,
            levels[i].price
        );
    }
}

#[test]
fn test_capacity_limits() {
    let mut bids = Side::new();

    for i in 0..250 {
        let price = s9(50000.0 - i as f64);
        bids.insert(Level::new(price, s9(1.0)), true);
    }

    assert_eq!(bids.count(), 200);

    let best = bids.best().unwrap();
    assert_eq!(best.price, s9(50000.0));
}

#[test]
fn test_scale9_string_formatting() {
    let price = s9(123.456789);

    assert_eq!(scale9_to_string(price, 9), "123.456789000");
    assert_eq!(scale9_to_string(price, 6), "123.456789");
    assert_eq!(scale9_to_string(price, 2), "123.46");
    assert_eq!(scale9_to_string(price, 0), "123");
}

use depthbook::decimal::Scale9;
use depthbook::book_state::BookState;
use depthbook::intern::InternedString;
use depthbook::store::BookStore;
use depthbook::types::{Book, Level, Side, MAX_LEVELS};
use depthbook::Error;

fn invalid(msg: &str) -> Error {
    Error::InvalidData(msg.to_string())
}

#[test]
fn side_from_parts_accepts_either_direction() {
    let desc = [Level::new(Scale9::from_raw(300), Scale9::from_raw(1)), Level::new(Scale9::from_raw(200), Scale9::from_raw(2)), Level::new(Scale9::from_raw(100), Scale9::from_raw(3))];
    let side = Side::from_parts(&desc, 3).unwrap();
    assert_eq!(side.levels(), &desc[..]);

    let asc = [Level::new(Scale9::from_raw(100), Scale9::from_raw(3)), Level::new(Scale9::from_raw(200), Scale9::from_raw(2))];
    let side = Side::from_parts(&asc, 2).unwrap();
    assert_eq!(side.levels(), &asc[..]);

    let side = Side::from_parts(&[], 0).unwrap();
    assert!(side.is_empty());
}

#[test]
fn side_from_parts_rejects_a_wrong_count() {
    let levels = [Level::new(Scale9::from_raw(300), Scale9::from_raw(1)), Level::new(Scale9::from_raw(200), Scale9::from_raw(2))];
    assert_eq!(
        Side::from_parts(&levels, 1).unwrap_err(),
        invalid("side count does not match its levels")
    );
    assert_eq!(
        Side::from_parts(&levels, 3).unwrap_err(),
        invalid("side count does not match its levels")
    );
}

#[test]
fn side_from_parts_rejects_non_positive_quantities() {
    for qty in [0, -5] {
        let levels = [Level::new(Scale9::from_raw(300), Scale9::from_raw(1)), Level::new(Scale9::from_raw(200), Scale9::from_raw(qty))];
        assert_eq!(
            Side::from_parts(&levels, 2).unwrap_err(),
            invalid("side holds a level without a positive quantity")
        );
    }
}

#[test]
fn side_from_parts_rejects_unsorted_or_repeated_prices() {
    let zigzag = [Level::new(Scale9::from_raw(300), Scale9::from_raw(1)), Level::new(Scale9::from_raw(100), Scale9::from_raw(1)), Level::new(Scale9::from_raw(200), Scale9::from_raw(1))];
    assert_eq!(
        Side::from_parts(&zigzag, 3).unwrap_err(),
        invalid("side levels are not strictly sorted")
    );
    let repeated = [Level::new(Scale9::from_raw(300), Scale9::from_raw(1)), Level::new(Scale9::from_raw(300), Scale9::from_raw(2))];
    assert_eq!(
        Side::from_parts(&repeated, 2).unwrap_err(),
        invalid("side levels are not strictly sorted")
    );
}

#[test]
fn side_from_parts_keeps_at_most_the_capacity() {
    let levels: Vec<Level> = (0..(MAX_LEVELS as i64 + 5))
        .map(|i| Level::new(Scale9::from_raw(1_000 - i), Scale9::from_raw(1)))
        .collect();
    let side = Side::from_parts(&levels, levels.len()).unwrap();
    assert_eq!(side.count(), MAX_LEVELS);
    assert_eq!(side.levels(), &levels[..MAX_LEVELS]);
}

fn sides() -> (Side, Side) {
    let mut bids = Side::new();
    bids.insert(Level::new(Scale9::from_raw(100), Scale9::from_raw(1)), true);
    bids.insert(Level::new(Scale9::from_raw(99), Scale9::from_raw(1)), true);
    let mut asks = Side::new();
    asks.insert(Level::new(Scale9::from_raw(101), Scale9::from_raw(1)), false);
    asks.insert(Level::new(Scale9::from_raw(102), Scale9::from_raw(1)), false);
    (bids, asks)
}

#[test]
fn book_from_parts_checks_each_side_direction() {
    let venue = InternedString::new("binance");
    let inst = InternedString::new("BTC-USDT");
    let (bids, asks) = sides();

    let book = Book::from_parts(venue, inst, 7, 3, true, bids, asks).unwrap();
    assert_eq!(book.ts, 7);
    assert_eq!(book.seq, 3);
    assert!(book.gapped);
    assert_eq!(book.bids.levels(), bids.levels());
    assert_eq!(book.asks.levels(), asks.levels());

    assert_eq!(
        Book::from_parts(venue, inst, 7, 3, false, asks, asks).unwrap_err(),
        invalid("bids do not descend")
    );
    assert_eq!(
        Book::from_parts(venue, inst, 7, 3, false, bids, bids).unwrap_err(),
        invalid("asks do not ascend")
    );
}

#[test]
fn best_is_the_highest_bid_and_the_lowest_ask() {
    let mut bids = Side::new();
    let mut asks = Side::new();
    for p in [105, 101, 110, 99, 107] {
        bids.insert(Level::new(Scale9::from_raw(p), Scale9::from_raw(1)), true);
        asks.insert(Level::new(Scale9::from_raw(p), Scale9::from_raw(1)), false);
    }
    assert_eq!(bids.best().unwrap().price.raw(), 110);
    assert_eq!(asks.best().unwrap().price.raw(), 99);
    for l in bids.levels() {
        assert!(l.price.raw() <= 110);
    }
    for l in asks.levels() {
        assert!(l.price.raw() >= 99);
    }
}

#[test]
fn a_wider_band_never_holds_less_depth() {
    let mut bids = Side::new();
    for (p, q) in [(10_000, 1), (9_990, 2), (9_900, 4), (9_000, 8)] {
        bids.insert(Level::new(Scale9::from_raw(p * 1_000_000_000), Scale9::from_raw(q * 1_000_000_000)), true);
    }
    let mut last = 0;
    for bps in [0, 5, 10, 100, 1_000, 10_000] {
        let depth = bids.depth_within_bps(bps, true).raw();
        assert!(depth >= last);
        last = depth;
    }
    assert_eq!(bids.depth_within_bps(10, true).raw(), 3_000_000_000);
}

#[test]
fn a_snapshot_is_stored_as_sent() {
    let mut store = BookStore::new();
    let bids = [Level::new(Scale9::from_raw(100), Scale9::from_raw(5)), Level::new(Scale9::from_raw(99), Scale9::from_raw(6))];
    let asks = [Level::new(Scale9::from_raw(101), Scale9::from_raw(7)), Level::new(Scale9::from_raw(102), Scale9::from_raw(8))];
    store.apply_snapshot("v", "i", &bids, &asks, 1, 10).unwrap();
    let book = store.snapshot("v", "i", MAX_LEVELS).unwrap();
    assert_eq!(book.bids.levels(), &bids[..]);
    assert_eq!(book.asks.levels(), &asks[..]);
}

#[test]
fn a_repeated_sequence_changes_nothing() {
    let venue = InternedString::new("v");
    let inst = InternedString::new("i");
    let mut state = BookState::new(Book::new(venue, inst, 10, 5));
    assert_eq!(state.apply(&[Level::new(Scale9::from_raw(100), Scale9::from_raw(1))], &[], 6, 11), Ok(Some(0)));
    let before = state.snapshot();
    assert_eq!(state.apply(&[Level::new(Scale9::from_raw(50), Scale9::from_raw(1))], &[], 6, 12), Ok(None));
    assert_eq!(state.apply(&[Level::new(Scale9::from_raw(50), Scale9::from_raw(1))], &[], 4, 13), Ok(None));
    let after = state.snapshot();
    assert_eq!(after.bids.levels(), before.bids.levels());
    assert_eq!(state.sequence(), 6);
    assert_eq!(state.last_update_ns(), 11);
}

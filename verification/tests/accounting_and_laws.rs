use depthbook::decimal::Scale9;
use depthbook::book_state::BookState;
use depthbook::intern::InternedString;
use depthbook::store::BookStore;
use depthbook::types::{Book, Level, Side, MAX_LEVELS};
use depthbook::Error;

#[test]
fn a_refused_snapshot_counts_no_dropped_levels() {
    let mut store = BookStore::new();
    store
        .apply_snapshot("v", "i", &[Level::new(Scale9::from_raw(100), Scale9::from_raw(1))], &[Level::new(Scale9::from_raw(101), Scale9::from_raw(1))], 5, 10)
        .unwrap();
    let before = store.stats();
    let too_many: Vec<Level> = (0..(MAX_LEVELS as i64 + 3)).map(|i| Level::new(Scale9::from_raw(1_000 - i), Scale9::from_raw(1))).collect();
    assert_eq!(
        store.apply_snapshot("v", "i", &too_many, &[], 3, 11),
        Err(Error::OutOfOrder { current: 5, received: 3 })
    );
    let after = store.stats();
    assert_eq!(after.levels_dropped, before.levels_dropped);
    assert_eq!(after.snapshots_rejected, before.snapshots_rejected + 1);
    assert_eq!(after.snapshots_applied, before.snapshots_applied);

    store.apply_snapshot("v", "i", &too_many, &[], 6, 12).unwrap();
    assert_eq!(store.stats().levels_dropped, before.levels_dropped + 3);
}

#[test]
fn book_count_follows_removal() {
    let mut store = BookStore::new();
    store.apply_snapshot("v", "a", &[], &[], 1, 1).unwrap();
    store.apply_snapshot("v", "b", &[], &[], 1, 1).unwrap();
    assert_eq!(store.stats().books, 2);
    assert!(store.remove("v", "a"));
    assert_eq!(store.stats().books, 1);
    assert!(!store.remove("v", "a"));
    assert_eq!(store.stats().books, 1);
    assert!(store.snapshot("v", "a", 0).is_none());
    assert!(store.is_gapped("v", "a"));
}

fn book_with(bid: i64, ask: i64) -> Book {
    let mut book = Book::new(InternedString::new("v"), InternedString::new("i"), 0, 0);
    book.bids.insert(Level::new(Scale9::from_raw(bid), Scale9::from_raw(1)), true);
    book.asks.insert(Level::new(Scale9::from_raw(ask), Scale9::from_raw(1)), false);
    book
}

#[test]
fn mid_price_does_not_overflow() {
    assert_eq!(book_with(i64::MAX - 2, i64::MAX).mid_price().map(|v| v.raw()), Some(i64::MAX - 1));
    assert_eq!(book_with(i64::MIN, i64::MIN + 2).mid_price().map(|v| v.raw()), Some(i64::MIN + 1));
    assert_eq!(book_with(-3, 0).mid_price().map(|v| v.raw()), Some(-1));
    let empty = Book::new(InternedString::new("v"), InternedString::new("i"), 0, 0);
    assert_eq!(empty.mid_price().map(|v| v.raw()), None);
}

#[test]
fn spread_saturates_instead_of_overflowing() {
    assert_eq!(book_with(-5, 5).spread().map(|v| v.raw()), Some(10));
    assert_eq!(book_with(i64::MIN, i64::MAX).spread().map(|v| v.raw()), Some(i64::MAX));
    assert_eq!(book_with(i64::MAX, i64::MIN).spread().map(|v| v.raw()), Some(i64::MIN));
}

#[test]
fn gap_flag_follows_the_calls() {
    let mut state = BookState::new(Book::new(InternedString::new("v"), InternedString::new("i"), 0, 1));
    assert!(!state.is_gapped());
    assert!(state.apply(&[], &[], 5, 1).is_err());
    assert!(state.is_gapped());
    assert_eq!(state.apply(&[], &[], 1, 1), Ok(None));
    assert!(state.is_gapped());
    let older = Book::new(InternedString::new("v"), InternedString::new("i"), 0, 0);
    assert!(state.replace(older, 2).is_err());
    assert!(state.is_gapped());
    let newer = Book::new(InternedString::new("v"), InternedString::new("i"), 0, 7);
    assert_eq!(state.replace(newer, 3), Ok(()));
    assert!(!state.is_gapped());
}

#[test]
fn store_gap_flag_follows_the_calls() {
    let mut store = BookStore::new();
    assert!(store.is_gapped("v", "i"));
    store.apply_snapshot("v", "i", &[], &[], 1, 1).unwrap();
    assert!(!store.is_gapped("v", "i"));
    assert!(store.apply_delta("v", "i", &[], &[], 9, 2).is_err());
    assert!(store.is_gapped("v", "i"));
    store.apply_snapshot("v", "j", &[], &[], 1, 1).unwrap();
    assert!(store.is_gapped("v", "i"));
    store.apply_snapshot("v", "i", &[], &[], 2, 3).unwrap();
    assert!(!store.is_gapped("v", "i"));
    store.remove("v", "i");
    assert!(store.is_gapped("v", "i"));
}

#[test]
fn a_built_side_rebuilds_from_its_levels_and_count() {
    let mut side = Side::new();
    for p in [105, 101, 110, 99, 107] {
        side.insert(Level::new(Scale9::from_raw(p), Scale9::from_raw(2)), true);
    }
    side.update(Scale9::from_raw(101), Scale9::from_raw(0), true);
    side.remove(Scale9::from_raw(99), true);
    side.truncate(2);
    let rebuilt = Side::from_parts(side.levels(), side.count()).unwrap();
    assert_eq!(rebuilt.levels(), side.levels());
    assert_eq!(rebuilt.count(), side.count());
}

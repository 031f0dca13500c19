//! The store: one book per venue and instrument, and counters of what it has seen.

use vstd::prelude::*;
use vstd::string::StringExecFns;
use dashmap::DashMap;
use crate::book_state::{
    delta_levels, delta_losses, delta_recorded, gap_flagged, next_expected, stale_at, BookState,
};
use crate::decimal::{display_text, Scale9};
use crate::error::Error;
use crate::intern::InternedString;
use crate::types::{
    best_pair, book_sorted, is_sorted, losses_snapshot, receive_snapshot, Book, Level, Side,
    MAX_LEVELS,
};

verus! {

#[verifier::external_type_specification]
#[verifier::external_body]
#[verifier::reject_recursive_types(K)]
#[verifier::reject_recursive_types(V)]
#[verifier::reject_recursive_types(S)]
pub struct ExDashMap<K, V, S>(DashMap<K, V, S>);

/// The map behind a store: (venue, instrument) to book state.
pub type BookTable = DashMap<(String, String), BookState>;

/// The entries of the store's map, keyed by venue and instrument text.
pub uninterp spec fn book_table(m: BookTable) -> Map<(Seq<char>, Seq<char>), BookState>;

/// A store with no books.
pub open spec fn no_books() -> Map<(Seq<char>, Seq<char>), BookState> {
    Map::empty()
}

/// A new, empty `DashMap`.
///
/// Trusted: `DashMap::new` creates a map with no entries.
#[verifier::external_body]
fn table_new() -> (m: BookTable)
    ensures
        book_table(m) == no_books(),
{
    DashMap::new()
}

/// A copy of the entry for (`venue`, `inst`), if there is one.
///
/// Trusted: `DashMap::get` finds the entry whose key equals the given pair of
/// strings, which for `String` keys means equal text; the value is copied out of the
/// guard.
#[verifier::external_body]
fn table_get(m: &BookTable, venue: &str, inst: &str) -> (r: Option<BookState>)
    ensures
        r == if book_table(*m).dom().contains((venue@, inst@)) {
            Some(book_table(*m)[(venue@, inst@)])
        } else {
            None::<BookState>
        },
{
    m.get(&(venue.to_string(), inst.to_string())).map(|entry| *entry.value())
}

/// Set the entry for (`venue`, `inst`) to `state`.
///
/// Trusted: `DashMap::insert` replaces the value of an equal key or adds the entry,
/// and touches no other entry.
#[verifier::external_body]
fn table_insert(m: &mut BookTable, venue: &str, inst: &str, state: BookState)
    ensures
        book_table(*final(m)) == book_table(*old(m)).insert((venue@, inst@), state),
{
    m.insert((venue.to_string(), inst.to_string()), state);
}

/// Remove the entry for (`venue`, `inst`), returning its value.
///
/// Trusted: `DashMap::remove` removes the entry with an equal key, if any, returns it,
/// and touches no other entry.
#[verifier::external_body]
fn table_remove(m: &mut BookTable, venue: &str, inst: &str) -> (r: Option<BookState>)
    ensures
        r == if book_table(*old(m)).dom().contains((venue@, inst@)) {
            Some(book_table(*old(m))[(venue@, inst@)])
        } else {
            None::<BookState>
        },
        book_table(*final(m)) == book_table(*old(m)).remove((venue@, inst@)),
{
    m.remove(&(venue.to_string(), inst.to_string())).map(|(_, state)| state)
}

/// Number of entries.
///
/// Trusted: `DashMap::len` counts the entries of every shard.
#[verifier::external_body]
fn table_len(m: &BookTable) -> (n: usize)
    ensures
        n == book_table(*m).len(),
{
    m.len()
}

/// A level no feed can legitimately send: negative price or negative quantity.
pub open spec fn level_valid(l: Level) -> bool {
    l.price.spec_raw() >= 0 && l.qty.spec_raw() >= 0
}

/// Index of the first invalid level, or the length if all are valid.
pub open spec fn first_invalid(ls: Seq<Level>) -> int
    decreases ls.len(),
{
    if ls.len() == 0 {
        0
    } else if !level_valid(ls[0]) {
        0
    } else {
        1 + first_invalid(ls.drop_first())
    }
}

/// How an invalid level is reported.
pub open spec fn invalid_level_text(l: Level) -> Seq<char> {
    "negative price or quantity: "@ + display_text(l.qty.spec_raw()) + " @ "@ + display_text(l.price.spec_raw())
}

/// The report for the first invalid level among the bids, then the asks, if any.
pub open spec fn validation_error(bids: Seq<Level>, asks: Seq<Level>) -> Option<Seq<char>> {
    if first_invalid(bids) < bids.len() {
        Some(invalid_level_text(bids[first_invalid(bids)]))
    } else if first_invalid(asks) < asks.len() {
        Some(invalid_level_text(asks[first_invalid(asks)]))
    } else {
        None
    }
}

proof fn lemma_first_invalid_bound(ls: Seq<Level>)
    ensures
        0 <= first_invalid(ls) <= ls.len(),
    decreases ls.len(),
{
    if ls.len() > 0 {
        lemma_first_invalid_bound(ls.drop_first());
    }
}

proof fn lemma_first_invalid(ls: Seq<Level>, k: int)
    requires
        0 <= k <= ls.len(),
        forall|i: int| 0 <= i < k ==> level_valid(#[trigger] ls[i]),
        k == ls.len() || !level_valid(ls[k]),
    ensures
        first_invalid(ls) == k,
    decreases k,
{
    if k > 0 {
        lemma_first_invalid(ls.drop_first(), k - 1);
    }
}

/// Reject levels with a negative price or quantity; zero quantity is allowed.
fn validate(levels: &[Level]) -> (r: Result<(), Error>)
    ensures
        r is Ok <==> first_invalid(levels@) == levels@.len(),
        0 <= first_invalid(levels@) <= levels@.len(),
        r is Err ==> (r matches Err(Error::InvalidData(m)) && m@ == invalid_level_text(
            levels@[first_invalid(levels@)],
        )),
{
    proof { lemma_first_invalid_bound(levels@); }
    let mut i: usize = 0;
    while i < levels.len()
        invariant
            i <= levels@.len(),
            0 <= first_invalid(levels@) <= levels@.len(),
            forall|k: int| 0 <= k < i ==> level_valid(#[trigger] levels@[k]),
        decreases levels@.len() - i,
    {
        let level = levels[i];
        if level.qty.raw() < 0 || level.price.raw() < 0 {
            proof { lemma_first_invalid(levels@, i as int); }
            let mut msg = String::from_str("negative price or quantity: ");
            let qty_text = level.qty.to_string();
            msg.append(qty_text.as_str());
            msg.append(" @ ");
            let price_text = level.price.to_string();
            msg.append(price_text.as_str());
            return Err(Error::InvalidData(msg));
        }
        i = i + 1;
    }
    proof { lemma_first_invalid(levels@, levels@.len() as int); }
    Ok(())
}

/// Receive a snapshot's levels on `side`: last to first, skipping zero quantities.
/// The number of levels discarded for capacity.
fn receive_snapshot_levels(side: &mut Side, levels: &[Level], is_bid: bool) -> (r: u64)
    ensures
        r <= levels@.len(),
        is_sorted(old(side)@, is_bid) ==> {
            &&& final(side)@ == receive_snapshot(old(side)@, levels@, is_bid)
            &&& r == losses_snapshot(old(side)@, levels@, is_bid)
            &&& is_sorted(final(side)@, is_bid)
        },
{
    let ghost s0 = side@;
    let ghost ls = levels@;
    let mut dropped: u64 = 0;
    let mut i: usize = levels.len();
    proof { assert(ls.take(ls.len() as int) =~= ls); }
    while i > 0
        invariant
            i <= levels@.len(),
            ls == levels@,
            dropped <= levels@.len() - i,
            is_sorted(s0, is_bid) ==> {
                &&& is_sorted(side@, is_bid)
                &&& receive_snapshot(s0, ls, is_bid) == receive_snapshot(side@, ls.take(i as int), is_bid)
                &&& losses_snapshot(s0, ls, is_bid) == dropped + losses_snapshot(side@, ls.take(i as int), is_bid)
            },
        decreases i,
    {
        let level = levels[i - 1];
        proof {
            assert(ls.take(i as int).last() == level);
            assert(ls.take(i as int).drop_last() =~= ls.take(i - 1));
        }
        if level.qty.raw() != 0 {
            let outcome = side.insert_outcome(level, is_bid);
            if outcome.lost_a_level() {
                dropped = dropped + 1;
            }
        }
        i = i - 1;
    }
    dropped
}

/// Counters describing what a [`BookStore`] has seen since it was created.
#[derive(Debug, Clone, Copy, PartialEq, Eq, Structural)]
pub struct Stats {
    /// Number of books currently tracked.
    pub books: usize,
    /// Number of deltas rejected because they skipped a sequence number.
    pub sequence_gaps: u64,
    /// Number of snapshots applied.
    pub snapshots_applied: u64,
    /// Number of deltas applied.
    pub deltas_applied: u64,
    /// Number of snapshots rejected for being older than the book they would replace.
    pub snapshots_rejected: u64,
    /// Number of price levels discarded because a side was already full.
    pub levels_dropped: u64,
}

/// `count` plus `n`, wrapping as an atomic counter does.
pub open spec fn bump(count: u64, n: nat) -> u64 {
    ((count + n) % 0x1_0000_0000_0000_0000) as u64
}

/// The key a venue and instrument are stored under.
pub open spec fn key_of(venue: Seq<char>, inst: Seq<char>) -> (Seq<char>, Seq<char>) {
    (venue, inst)
}

/// `st` is the state a snapshot creates: the given identifiers, numbers and levels,
/// not gapped.
pub open spec fn snapshot_state(
    st: BookState,
    venue: Seq<char>,
    inst: Seq<char>,
    bids: Seq<Level>,
    asks: Seq<Level>,
    seq: u64,
    ts: u64,
) -> bool {
    let b = st.spec_book();
    &&& b.venue@ == venue
    &&& b.inst@ == inst
    &&& b.ts == ts
    &&& b.seq == seq
    &&& !b.gapped
    &&& b.bids@ == receive_snapshot(Seq::empty(), bids, true)
    &&& b.asks@ == receive_snapshot(Seq::empty(), asks, false)
    &&& book_sorted(b)
    &&& st.spec_last_update_ns() == ts
    &&& st.spec_sequence() == seq
    &&& !st.spec_gapped()
}

/// The first `depth` levels, or all of them when `depth` is zero or larger.
pub open spec fn cut(s: Seq<Level>, depth: usize) -> Seq<Level> {
    if depth > 0 && depth < s.len() {
        s.take(depth as int)
    } else {
        s
    }
}

/// What `is_gapped` reports for `key`: gapped, or no book at all.
pub open spec fn store_flag(st: BookStore, key: (Seq<char>, Seq<char>)) -> bool {
    !st.spec_books().dom().contains(key) || st.spec_books()[key].spec_gapped()
}

/// A call on a [`BookStore`] that can move a book's gap flag: the key it named and,
/// for the two updates, what it returned.
pub enum StoreCall {
    /// [`BookStore::apply_snapshot`] on this key returned this.
    Snapshot((Seq<char>, Seq<char>), Result<(), Error>),
    /// [`BookStore::apply_delta`] on this key returned this.
    Delta((Seq<char>, Seq<char>), Result<(), Error>),
    /// [`BookStore::remove`] on this key.
    Remove((Seq<char>, Seq<char>)),
}

/// What `call` does to the gap flags of a store: other keys keep theirs; at the key
/// named, an accepted snapshot clears the flag, a delta refused for a gap and a
/// removal set it, and every other outcome leaves it as it was.
pub open spec fn store_flag_step(prev: BookStore, call: StoreCall, next: BookStore) -> bool {
    let key = match call {
        StoreCall::Snapshot(k, _) => k,
        StoreCall::Delta(k, _) => k,
        StoreCall::Remove(k) => k,
    };
    &&& forall|k: (Seq<char>, Seq<char>)| k != key ==> #[trigger] store_flag(next, k) == store_flag(prev, k)
    &&& match call {
        StoreCall::Snapshot(_, r) => if r is Ok {
            !store_flag(next, key)
        } else {
            store_flag(next, key) == store_flag(prev, key)
        },
        StoreCall::Delta(_, r) => if r matches Err(Error::SequenceGap { .. }) {
            store_flag(next, key)
        } else {
            store_flag(next, key) == store_flag(prev, key)
        },
        StoreCall::Remove(_) => store_flag(next, key),
    }
}

/// Whether `key` has no book, or a delta on it was refused for a gap after its last
/// accepted snapshot, going by `calls` on a store that started empty.
pub open spec fn gap_since_snapshot(calls: Seq<StoreCall>, key: (Seq<char>, Seq<char>)) -> bool
    decreases calls.len(),
{
    if calls.len() == 0 {
        true
    } else {
        match calls.last() {
            StoreCall::Snapshot(k, Ok(_)) if k == key => false,
            StoreCall::Remove(k) if k == key => true,
            StoreCall::Delta(k, Err(Error::SequenceGap { .. })) if k == key => true,
            _ => gap_since_snapshot(calls.drop_last(), key),
        }
    }
}

/// A store that starts empty and then takes any run of `apply_snapshot`,
/// `apply_delta` and `remove` calls reports a book as gapped exactly when the book does
/// not exist or a delta on it was refused for a gap after its last accepted snapshot.
/// `stores[i + 1]` is the store after `calls[i]`.
pub proof fn lemma_store_gap_flag(stores: Seq<BookStore>, calls: Seq<StoreCall>, key: (Seq<char>, Seq<char>))
    requires
        stores.len() == calls.len() + 1,
        stores[0].spec_books() == no_books(),
        forall|i: int| 0 <= i < calls.len() ==> store_flag_step(stores[i], #[trigger] calls[i], stores[i + 1]),
    ensures
        store_flag(stores.last(), key) == gap_since_snapshot(calls, key),
    decreases calls.len(),
{
    if calls.len() == 0 {
        assert(!no_books().dom().contains(key));
    } else {
        let n = calls.len() - 1;
        assert forall|i: int| 0 <= i < calls.drop_last().len() implies store_flag_step(
            stores.drop_last()[i],
            #[trigger] calls.drop_last()[i],
            stores.drop_last()[i + 1],
        ) by {
            assert(store_flag_step(stores[i], calls[i], stores[i + 1]));
        }
        lemma_store_gap_flag(stores.drop_last(), calls.drop_last(), key);
        assert(store_flag_step(stores[n], calls[n], stores[n + 1]));
        assert(stores.drop_last().last() == stores[n]);
    }
}

/// Stores order books keyed by venue and instrument.
pub struct BookStore {
    books: BookTable,
    sequence_gaps: u64,
    snapshots_applied: u64,
    deltas_applied: u64,
    snapshots_rejected: u64,
    levels_dropped: u64,
}

impl BookStore {
    /// The books, by (venue, instrument).
    pub closed spec fn spec_books(&self) -> Map<(Seq<char>, Seq<char>), BookState> {
        book_table(self.books)
    }

    /// The counters, with `books` the number of books.
    pub closed spec fn spec_stats(&self) -> Stats {
        Stats {
            books: book_table(self.books).len() as usize,
            sequence_gaps: self.sequence_gaps,
            snapshots_applied: self.snapshots_applied,
            deltas_applied: self.deltas_applied,
            snapshots_rejected: self.snapshots_rejected,
            levels_dropped: self.levels_dropped,
        }
    }

    /// Finitely many books, each with sorted sides.
    pub open spec fn wf(&self) -> bool {
        &&& self.spec_books().dom().finite()
        &&& forall|k: (Seq<char>, Seq<char>)| #[trigger] self.spec_books().dom().contains(k) ==> book_sorted(
            self.spec_books()[k].spec_book(),
        )
    }

    /// An empty store.
    pub fn new() -> (r: BookStore)
        ensures
            r.wf(),
            r.spec_books() == no_books(),
            r.spec_stats() == (Stats {
                books: 0,
                sequence_gaps: 0,
                snapshots_applied: 0,
                deltas_applied: 0,
                snapshots_rejected: 0,
                levels_dropped: 0,
            }),
    {
        let books = table_new();
        proof { assert(book_table(books).len() == 0); }
        BookStore {
            books,
            sequence_gaps: 0,
            snapshots_applied: 0,
            deltas_applied: 0,
            snapshots_rejected: 0,
            levels_dropped: 0,
        }
    }

    /// Replace a book with a full snapshot and clear its gapped flag, creating the book
    /// if it does not exist. Levels with zero quantity are skipped. The snapshot need
    /// not be the next sequence number, but it may not be older than the book.
    ///
    /// Errors: [`Error::InvalidData`] if a level has a negative price or quantity
    /// (nothing changes); [`Error::OutOfOrder`] if `seq` is below the book's sequence
    /// number (the snapshot is not applied and is counted only as rejected: the levels
    /// it would have discarded are not counted as dropped).
    pub fn apply_snapshot(
        &mut self,
        venue: &str,
        inst: &str,
        bids: &[Level],
        asks: &[Level],
        seq: u64,
        ts: u64,
    ) -> (r: Result<(), Error>)
        requires
            old(self).wf(),
        ensures
            final(self).wf(),
            store_flag_step(*old(self), StoreCall::Snapshot(key_of(venue@, inst@), r), *final(self)),
            ({
                let key = key_of(venue@, inst@);
                let books = old(self).spec_books();
                let before = old(self).spec_stats();
                let after = final(self).spec_stats();
                match validation_error(bids@, asks@) {
                    Some(msg) => {
                        &&& r matches Err(Error::InvalidData(m)) && m@ == msg
                        &&& final(self).spec_books() == books
                        &&& after == before
                    },
                    None => {
                        let dropped = crate::decimal::clamp_u64(
                            losses_snapshot(Seq::empty(), bids@, true) + losses_snapshot(Seq::empty(), asks@, false),
                        );
                        &&& after.sequence_gaps == before.sequence_gaps
                        &&& after.deltas_applied == before.deltas_applied
                        &&& if books.dom().contains(key) && seq < books[key].spec_book().seq {
                            &&& r == Err::<(), Error>(
                                Error::OutOfOrder { current: books[key].spec_book().seq, received: seq },
                            )
                            &&& final(self).spec_books() == books
                            &&& after.snapshots_rejected == bump(before.snapshots_rejected, 1)
                            &&& after.snapshots_applied == before.snapshots_applied
                            &&& after.levels_dropped == before.levels_dropped
                        } else {
                            &&& r is Ok
                            &&& final(self).spec_books() == books.insert(key, final(self).spec_books()[key])
                            &&& snapshot_state(final(self).spec_books()[key], venue@, inst@, bids@, asks@, seq, ts)
                            &&& after.snapshots_applied == bump(before.snapshots_applied, 1)
                            &&& after.snapshots_rejected == before.snapshots_rejected
                            &&& after.levels_dropped == bump(before.levels_dropped, dropped)
                        }
                    },
                }
            }),
    {
        match validate(bids) {
            Ok(()) => {},
            Err(e) => return Err(e),
        }
        match validate(asks) {
            Ok(()) => {},
            Err(e) => return Err(e),
        }
        let mut book = Book::new(InternedString::new(venue), InternedString::new(inst), ts, seq);
        let from_bids = receive_snapshot_levels(&mut book.bids, bids, true);
        let from_asks = receive_snapshot_levels(&mut book.asks, asks, false);
        let mut state = match table_get(&self.books, venue, inst) {
            Some(existing) => existing,
            None => BookState::new(Book::new(InternedString::new(venue), InternedString::new(inst), ts, seq)),
        };
        match state.replace(book, ts) {
            Ok(()) => {},
            Err(e) => {
                self.snapshots_rejected = self.snapshots_rejected.wrapping_add(1);
                return Err(e);
            },
        }
        table_insert(&mut self.books, venue, inst, state);
        self.levels_dropped = self.levels_dropped.wrapping_add(from_bids.saturating_add(from_asks));
        self.snapshots_applied = self.snapshots_applied.wrapping_add(1);
        proof {
            let key = key_of(venue@, inst@);
            assert(self.spec_books() == book_table(self.books));
            assert(self.spec_books()[key] == state);
            assert(self.spec_books().dom() =~= old(self).spec_books().dom().insert(key));
        }
        Ok(())
    }

    /// Apply an incremental update to an existing book; a level with zero quantity
    /// removes that price. An update whose sequence number is already known is
    /// ignored and returns `Ok`.
    ///
    /// Errors: [`Error::InvalidData`] if a level has a negative price or quantity;
    /// [`Error::NotFound`] if the book does not exist; [`Error::SequenceGap`] if `seq`
    /// skips ahead, in which case the levels are untouched, the book is flagged as
    /// gapped until the next snapshot, and the gap is counted.
    pub fn apply_delta(
        &mut self,
        venue: &str,
        inst: &str,
        bids: &[Level],
        asks: &[Level],
        seq: u64,
        ts: u64,
    ) -> (r: Result<(), Error>)
        requires
            old(self).wf(),
        ensures
            final(self).wf(),
            store_flag_step(*old(self), StoreCall::Delta(key_of(venue@, inst@), r), *final(self)),
            ({
                let key = key_of(venue@, inst@);
                let books = old(self).spec_books();
                let before = old(self).spec_stats();
                let after = final(self).spec_stats();
                match validation_error(bids@, asks@) {
                    Some(msg) => {
                        &&& r matches Err(Error::InvalidData(m)) && m@ == msg
                        &&& final(self).spec_books() == books
                        &&& after == before
                    },
                    None => if !books.dom().contains(key) {
                        &&& r matches Err(Error::NotFound { venue: v, inst: i }) && v@ == venue@ && i@ == inst@
                        &&& final(self).spec_books() == books
                        &&& after == before
                    } else {
                        let prev = books[key];
                        let next = final(self).spec_books()[key];
                        let expected = next_expected(prev.spec_book().seq);
                        if seq > expected {
                            &&& r == Err::<(), Error>(Error::SequenceGap { expected, received: seq })
                            &&& final(self).spec_books() == books.insert(key, next)
                            &&& gap_flagged(prev, next)
                            &&& after == Stats { sequence_gaps: bump(before.sequence_gaps, 1), ..before }
                        } else if seq <= prev.spec_book().seq {
                            &&& r == Ok::<(), Error>(())
                            &&& final(self).spec_books() == books
                            &&& after == before
                        } else {
                            &&& r == Ok::<(), Error>(())
                            &&& final(self).spec_books() == books.insert(key, next)
                            &&& delta_recorded(prev, next, seq, ts)
                            &&& delta_levels(prev, next, bids@, asks@)
                            &&& after == Stats {
                                deltas_applied: bump(before.deltas_applied, 1),
                                levels_dropped: bump(before.levels_dropped, delta_losses(prev, bids@, asks@)),
                                ..before
                            }
                        }
                    },
                }
            }),
    {
        match validate(bids) {
            Ok(()) => {},
            Err(e) => return Err(e),
        }
        match validate(asks) {
            Ok(()) => {},
            Err(e) => return Err(e),
        }
        let mut state = match table_get(&self.books, venue, inst) {
            Some(existing) => existing,
            None => {
                return Err(Error::NotFound { venue: String::from_str(venue), inst: String::from_str(inst) });
            },
        };
        proof {
            let key = key_of(venue@, inst@);
            assert(self.spec_books().dom().contains(key));
        }
        let ghost prev = state;
        match state.apply(bids, asks, seq, ts) {
            Err(e) => {
                table_insert(&mut self.books, venue, inst, state);
                self.sequence_gaps = self.sequence_gaps.wrapping_add(1);
                proof {
                    let key = key_of(venue@, inst@);
                    assert(self.spec_books().dom() =~= old(self).spec_books().dom());
                }
                Err(e)
            },
            Ok(None) => Ok(()),
            Ok(Some(dropped)) => {
                table_insert(&mut self.books, venue, inst, state);
                self.levels_dropped = self.levels_dropped.wrapping_add(dropped);
                self.deltas_applied = self.deltas_applied.wrapping_add(1);
                proof {
                    let key = key_of(venue@, inst@);
                    assert(self.spec_books().dom() =~= old(self).spec_books().dom());
                }
                Ok(())
            },
        }
    }

    /// A copy of a book, keeping at most `depth` levels per side (the best ones);
    /// `depth` of `0` keeps every level. `None` if the book does not exist.
    pub fn snapshot(&self, venue: &str, inst: &str, depth: usize) -> (r: Option<Book>)
        ensures
            ({
                let key = key_of(venue@, inst@);
                if self.spec_books().dom().contains(key) {
                    let b = self.spec_books()[key].spec_book();
                    &&& r matches Some(c) && {
                        &&& c.venue == b.venue
                        &&& c.inst == b.inst
                        &&& c.ts == b.ts
                        &&& c.seq == b.seq
                        &&& c.gapped == b.gapped
                        &&& c.bids@ == cut(b.bids@, depth)
                        &&& c.asks@ == cut(b.asks@, depth)
                    }
                } else {
                    r is None
                }
            }),
    {
        let state = match table_get(&self.books, venue, inst) {
            Some(existing) => existing,
            None => return None,
        };
        let mut book = state.snapshot();
        if depth > 0 {
            book.bids.truncate(depth);
            book.asks.truncate(depth);
        }
        Some(book)
    }

    /// The best bid and best ask; `None` if the book does not exist or a side is
    /// empty.
    pub fn bbo(&self, venue: &str, inst: &str) -> (r: Option<(Level, Level)>)
        ensures
            r == if self.spec_books().dom().contains(key_of(venue@, inst@)) {
                best_pair(self.spec_books()[key_of(venue@, inst@)].spec_book())
            } else {
                None::<(Level, Level)>
            },
    {
        match table_get(&self.books, venue, inst) {
            Some(state) => state.bbo(),
            None => None,
        }
    }

    /// Whether a book is older than `max_age_ms` at wall-clock time `now_ns`; a book
    /// that does not exist counts as stale.
    pub fn is_stale_at(&self, venue: &str, inst: &str, now_ns: u64, max_age_ms: u64) -> (r: bool)
        ensures
            r == if self.spec_books().dom().contains(key_of(venue@, inst@)) {
                stale_at(self.spec_books()[key_of(venue@, inst@)].spec_last_update_ns(), now_ns, max_age_ms)
            } else {
                true
            },
    {
        match table_get(&self.books, venue, inst) {
            Some(state) => state.is_stale_at(now_ns, max_age_ms),
            None => true,
        }
    }

    /// Whether a book is older than `max_age_ms` by the local wall clock; a book that
    /// does not exist counts as stale.
    pub fn is_stale(&self, venue: &str, inst: &str, max_age_ms: u64) -> (r: bool)
        ensures
            if self.spec_books().dom().contains(key_of(venue@, inst@)) {
                exists|now_ns: u64| r == stale_at(
                    self.spec_books()[key_of(venue@, inst@)].spec_last_update_ns(),
                    now_ns,
                    max_age_ms,
                )
            } else {
                r
            },
    {
        match table_get(&self.books, venue, inst) {
            Some(state) => state.is_stale(max_age_ms),
            None => true,
        }
    }

    /// Whether a book has refused a delta for a sequence gap since its last snapshot;
    /// a book that does not exist counts as gapped.
    pub fn is_gapped(&self, venue: &str, inst: &str) -> (r: bool)
        ensures
            r == if self.spec_books().dom().contains(key_of(venue@, inst@)) {
                self.spec_books()[key_of(venue@, inst@)].spec_gapped()
            } else {
                true
            },
    {
        match table_get(&self.books, venue, inst) {
            Some(state) => state.is_gapped(),
            None => true,
        }
    }

    /// Forget a book, returning whether it existed.
    pub fn remove(&mut self, venue: &str, inst: &str) -> (r: bool)
        requires
            old(self).wf(),
        ensures
            final(self).wf(),
            store_flag_step(*old(self), StoreCall::Remove(key_of(venue@, inst@)), *final(self)),
            r == old(self).spec_books().dom().contains(key_of(venue@, inst@)),
            final(self).spec_books() == old(self).spec_books().remove(key_of(venue@, inst@)),
            final(self).spec_books().len() == old(self).spec_books().len() - (if r { 1int } else { 0int }),
            final(self).spec_stats() == (Stats { books: final(self).spec_stats().books, ..old(self).spec_stats() }),
    {
        match table_remove(&mut self.books, venue, inst) {
            Some(_) => true,
            None => false,
        }
    }

    /// The current counters.
    pub fn stats(&self) -> (r: Stats)
        ensures
            r == self.spec_stats(),
            r.books == self.spec_books().len(),
    {
        Stats {
            books: table_len(&self.books),
            sequence_gaps: self.sequence_gaps,
            snapshots_applied: self.snapshots_applied,
            deltas_applied: self.deltas_applied,
            snapshots_rejected: self.snapshots_rejected,
            levels_dropped: self.levels_dropped,
        }
    }
}

} // verus!

//! One book plus the bookkeeping around it: the sequence check that decides whether
//! a delta applies, the gap flag, and the staleness test.

use vstd::prelude::*;
use crate::error::Error;
use crate::types::{
    after_insert, best_pair, book_sorted, insertion_kind, is_sorted, loses_level, losses_all,
    receive_all, Book, Level, Side, MAX_LEVELS,
};

verus! {

/// Receive `levels` in order on `side`; the number of levels discarded for capacity.
pub(crate) fn receive_levels(side: &mut Side, levels: &[Level], is_bid: bool) -> (r: u64)
    ensures
        final(side)@.len() <= MAX_LEVELS,
        r <= levels@.len(),
        is_sorted(old(side)@, is_bid) ==> {
            &&& final(side)@ == receive_all(old(side)@, levels@, is_bid)
            &&& r == losses_all(old(side)@, levels@, is_bid)
            &&& is_sorted(final(side)@, is_bid)
        },
{
    let ghost s0 = side@;
    let ghost ls = levels@;
    let _ = side.count();
    let mut dropped: u64 = 0;
    let mut i: usize = 0;
    proof { assert(ls.skip(0) =~= ls); }
    while i < levels.len()
        invariant
            i <= levels@.len(),
            ls == levels@,
            dropped <= i,
            side@.len() <= MAX_LEVELS,
            is_sorted(s0, is_bid) ==> {
                &&& is_sorted(side@, is_bid)
                &&& receive_all(s0, ls, is_bid) == receive_all(side@, ls.skip(i as int), is_bid)
                &&& losses_all(s0, ls, is_bid) == dropped + losses_all(side@, ls.skip(i as int), is_bid)
            },
        decreases levels@.len() - i,
    {
        let ghost before = side@;
        let level = levels[i];
        let outcome = side.insert_outcome(level, is_bid);
        if outcome.lost_a_level() {
            dropped = dropped + 1;
        }
        proof {
            assert(ls.skip(i as int)[0] == level);
            assert(ls.skip(i as int).drop_first() =~= ls.skip(i + 1));
        }
        i = i + 1;
    }
    dropped
}

/// Apply a delta's levels to a copy of `book`; the number discarded for capacity,
/// saturated at `u64::MAX`.
fn apply_levels(book: &mut Book, bids: &[Level], asks: &[Level]) -> (r: u64)
    ensures
        final(book).venue == old(book).venue,
        final(book).inst == old(book).inst,
        final(book).ts == old(book).ts,
        final(book).seq == old(book).seq,
        final(book).gapped == old(book).gapped,
        book_sorted(*old(book)) ==> {
            &&& final(book).bids@ == receive_all(old(book).bids@, bids@, true)
            &&& final(book).asks@ == receive_all(old(book).asks@, asks@, false)
            &&& r == crate::decimal::clamp_u64(
                losses_all(old(book).bids@, bids@, true) + losses_all(old(book).asks@, asks@, false),
            )
            &&& book_sorted(*final(book))
        },
{
    let from_bids = receive_levels(&mut book.bids, bids, true);
    let from_asks = receive_levels(&mut book.asks, asks, false);
    from_bids.saturating_add(from_asks)
}

/// Whether a book last updated at `last_update_ns` is older than `max_age_ms` at
/// wall-clock time `now_ns`; a timestamp in the future is never stale.
pub open spec fn stale_at(last_update_ns: u64, now_ns: u64, max_age_ms: u64) -> bool {
    let age_ns: int = if now_ns > last_update_ns { now_ns - last_update_ns } else { 0 };
    age_ns / 1_000_000 > max_age_ms
}

/// Staleness follows the clock: a book stamped at or after the clock reading (a venue
/// clock running ahead) is never stale; a book that is stale stays stale as the clock
/// moves on; and a book is stale exactly when the clock is past its stamp by more than
/// `max_age_ms` whole milliseconds.
pub proof fn lemma_staleness_follows_the_clock(last_update_ns: u64, now1: u64, now2: u64, max_age_ms: u64)
    ensures
        now1 <= last_update_ns ==> !stale_at(last_update_ns, now1, max_age_ms),
        now1 <= now2 && stale_at(last_update_ns, now1, max_age_ms) ==> stale_at(last_update_ns, now2, max_age_ms),
        stale_at(last_update_ns, now1, max_age_ms) <==> now1 > last_update_ns && (now1 - last_update_ns) / 1_000_000int
            > max_age_ms,
{
    if now1 <= now2 && now1 > last_update_ns {
        vstd::arithmetic::div_mod::lemma_div_is_ordered(
            now1 - last_update_ns,
            now2 - last_update_ns,
            1_000_000,
        );
    }
}

/// Nanoseconds since the Unix epoch by the local wall clock, 0 before the epoch.
///
/// Trusted: reads `std::time::SystemTime::now()` and its distance from `UNIX_EPOCH`,
/// truncated to `u64`. Nothing is stated of the value: it is the time.
#[verifier::external_body]
fn wall_clock_ns() -> u64 {
    std::time::SystemTime::now().duration_since(std::time::UNIX_EPOCH).map(|d| d.as_nanos() as u64).unwrap_or(0)
}

/// The sequence number a book at `seq` expects next.
pub open spec fn next_expected(seq: u64) -> u64 {
    if seq == u64::MAX {
        seq
    } else {
        (seq + 1) as u64
    }
}

/// `next` is `prev` flagged as gapped, its levels and numbers untouched.
pub open spec fn gap_flagged(prev: BookState, next: BookState) -> bool {
    &&& next.spec_book() == Book { gapped: true, ..prev.spec_book() }
    &&& next.spec_gapped()
    &&& next.spec_last_update_ns() == prev.spec_last_update_ns()
    &&& next.spec_sequence() == prev.spec_sequence()
}

/// `next` records a delta numbered `seq` at `ts` on top of `prev`.
pub open spec fn delta_recorded(prev: BookState, next: BookState, seq: u64, ts: u64) -> bool {
    &&& next.spec_book().venue == prev.spec_book().venue
    &&& next.spec_book().inst == prev.spec_book().inst
    &&& next.spec_book().gapped == prev.spec_book().gapped
    &&& next.spec_book().seq == seq
    &&& next.spec_book().ts == ts
    &&& next.spec_last_update_ns() == ts
    &&& next.spec_sequence() == seq
    &&& next.spec_gapped() == prev.spec_gapped()
}

/// `next` holds the levels of `prev` after receiving a delta's bids and asks, still
/// sorted.
pub open spec fn delta_levels(prev: BookState, next: BookState, bids: Seq<Level>, asks: Seq<Level>) -> bool {
    &&& next.spec_book().bids@ == receive_all(prev.spec_book().bids@, bids, true)
    &&& next.spec_book().asks@ == receive_all(prev.spec_book().asks@, asks, false)
    &&& book_sorted(next.spec_book())
}

/// Levels a delta discards for capacity, capped at `u64::MAX`.
pub open spec fn delta_losses(prev: BookState, bids: Seq<Level>, asks: Seq<Level>) -> nat {
    crate::decimal::clamp_u64(
        losses_all(prev.spec_book().bids@, bids, true) + losses_all(prev.spec_book().asks@, asks, false),
    )
}

/// Each sequence number is applied at most once: once a delta numbered `seq` has
/// been recorded, the same number again falls in the "already known" case, which
/// leaves the state as it is.
pub proof fn lemma_replay_is_ignored(prev: BookState, next: BookState, seq: u64, ts: u64)
    requires
        delta_recorded(prev, next, seq, ts),
    ensures
        !(seq > next_expected(next.spec_book().seq)),
        seq <= next.spec_book().seq,
{
}

/// The next sequence number is always applied: it is neither a gap nor already known.
pub proof fn lemma_next_in_sequence_applies(st: BookState)
    requires
        st.spec_book().seq < u64::MAX,
    ensures
        ({
            let seq = (st.spec_book().seq + 1) as u64;
            &&& !(seq > next_expected(st.spec_book().seq))
            &&& !(seq <= st.spec_book().seq)
        }),
{
}

/// A gap never moves the book: after a refused delta the book keeps its sequence
/// number, so a snapshot that was acceptable before the gap is still accepted, and it
/// clears the flag.
pub proof fn lemma_gap_keeps_sequence(prev: BookState, flagged: BookState, snapshot_seq: u64)
    requires
        gap_flagged(prev, flagged),
        snapshot_seq >= prev.spec_book().seq,
    ensures
        flagged.spec_book().seq == prev.spec_book().seq,
        flagged.spec_book().bids@ == prev.spec_book().bids@,
        flagged.spec_book().asks@ == prev.spec_book().asks@,
        snapshot_seq >= flagged.spec_book().seq,
{
}

/// A call on a [`BookState`] that can move its gap flag, with what the call returned.
pub enum StateCall {
    /// [`BookState::apply`] returned this.
    Apply(Result<Option<u64>, Error>),
    /// [`BookState::replace`] returned this.
    Replace(Result<(), Error>),
}

/// What `call` does to the gap flag: a refused gap sets it, an accepted replacement
/// clears it, and every other outcome leaves it as it was.
pub open spec fn flag_step(prev: BookState, call: StateCall, next: BookState) -> bool {
    match call {
        StateCall::Apply(r) => if r matches Err(Error::SequenceGap { .. }) {
            next.spec_gapped()
        } else {
            next.spec_gapped() == prev.spec_gapped()
        },
        StateCall::Replace(r) => if r is Ok {
            !next.spec_gapped()
        } else {
            next.spec_gapped() == prev.spec_gapped()
        },
    }
}

/// Whether some call in `calls` was refused for a sequence gap after the last
/// accepted replacement (or since the start, if none was accepted).
pub open spec fn gap_since_replace(calls: Seq<StateCall>) -> bool
    decreases calls.len(),
{
    if calls.len() == 0 {
        false
    } else {
        match calls.last() {
            StateCall::Replace(Ok(_)) => false,
            StateCall::Apply(Err(Error::SequenceGap { .. })) => true,
            _ => gap_since_replace(calls.drop_last()),
        }
    }
}

/// A book state starts without a gap and, after any run of `apply` and `replace`
/// calls, is gapped exactly when some delta was refused for a gap after the last
/// accepted replacement. `states[i + 1]` is the state after `calls[i]`.
pub proof fn lemma_state_gap_flag(states: Seq<BookState>, calls: Seq<StateCall>)
    requires
        states.len() == calls.len() + 1,
        !states[0].spec_gapped(),
        forall|i: int| 0 <= i < calls.len() ==> flag_step(states[i], #[trigger] calls[i], states[i + 1]),
    ensures
        states.last().spec_gapped() == gap_since_replace(calls),
    decreases calls.len(),
{
    if calls.len() > 0 {
        let n = calls.len() - 1;
        assert forall|i: int| 0 <= i < calls.drop_last().len() implies flag_step(
            states.drop_last()[i],
            #[trigger] calls.drop_last()[i],
            states.drop_last()[i + 1],
        ) by {
            assert(flag_step(states[i], calls[i], states[i + 1]));
        }
        lemma_state_gap_flag(states.drop_last(), calls.drop_last());
        assert(flag_step(states[n], calls[n], states[n + 1]));
        assert(states.drop_last().last() == states[n]);
    }
}

/// A single order book with the state kept beside it: the timestamp and sequence
/// number of the last update and whether a sequence gap was seen since the last
/// snapshot.
#[derive(Clone, Copy, Debug)]
pub struct BookState {
    book: Book,
    last_update_ns: u64,
    sequence: u64,
    gapped: bool,
}

impl BookState {
    /// The book as it stands.
    pub closed spec fn spec_book(self) -> Book {
        self.book
    }

    /// Exchange timestamp of the last update.
    pub closed spec fn spec_last_update_ns(self) -> u64 {
        self.last_update_ns
    }

    /// Sequence number of the last update.
    pub closed spec fn spec_sequence(self) -> u64 {
        self.sequence
    }

    /// A delta was refused for a gap since the last snapshot.
    pub closed spec fn spec_gapped(self) -> bool {
        self.gapped
    }

    /// Wrap an initial book.
    pub fn new(book: Book) -> (r: BookState)
        ensures
            r.spec_book() == book,
            r.spec_last_update_ns() == book.ts,
            r.spec_sequence() == book.seq,
            !r.spec_gapped(),
    {
        let ts = book.ts;
        let seq = book.seq;
        BookState { book, last_update_ns: ts, sequence: seq, gapped: false }
    }

    /// A copy of the current book.
    pub fn snapshot(&self) -> (r: Book)
        ensures
            r == self.spec_book(),
    {
        self.book
    }

    /// The best bid and ask, or `None` if either side is empty.
    pub fn bbo(&self) -> (r: Option<(Level, Level)>)
        ensures
            r == best_pair(self.spec_book()),
    {
        let bid = match self.book.bids.best() {
            Some(l) => l,
            None => return None,
        };
        let ask = match self.book.asks.best() {
            Some(l) => l,
            None => return None,
        };
        Some((bid, ask))
    }

    /// Replace the book wholesale, as when applying a snapshot, and clear the gap
    /// flag. A book whose sequence number is below the current one is refused with
    /// [`Error::OutOfOrder`] and nothing changes.
    pub fn replace(&mut self, new_book: Book, ts: u64) -> (r: Result<(), Error>)
        ensures
            new_book.seq < old(self).spec_book().seq ==> {
                &&& r == Err::<(), Error>(
                    Error::OutOfOrder { current: old(self).spec_book().seq, received: new_book.seq },
                )
                &&& *final(self) == *old(self)
            },
            flag_step(*old(self), StateCall::Replace(r), *final(self)),
            new_book.seq >= old(self).spec_book().seq ==> {
                &&& r is Ok
                &&& final(self).spec_book() == new_book
                &&& final(self).spec_last_update_ns() == ts
                &&& final(self).spec_sequence() == new_book.seq
                &&& !final(self).spec_gapped()
            },
    {
        let seq = new_book.seq;
        if seq < self.book.seq {
            return Err(Error::OutOfOrder { current: self.book.seq, received: seq });
        }
        self.book = new_book;
        self.last_update_ns = ts;
        self.sequence = seq;
        self.gapped = false;
        Ok(())
    }

    /// Apply a delta if `seq` is the next sequence number.
    ///
    /// `Ok(Some(dropped))` when applied, with the number of levels discarded because a
    /// side was full; `Ok(None)` when `seq` is already known; [`Error::SequenceGap`]
    /// when `seq` skips ahead, which flags the book as gapped. In the last two cases
    /// the levels are untouched. `ts` is recorded as given.
    pub fn apply(&mut self, bids: &[Level], asks: &[Level], seq: u64, ts: u64) -> (r: Result<Option<u64>, Error>)
        ensures
            flag_step(*old(self), StateCall::Apply(r), *final(self)),
            ({
                let expected = next_expected(old(self).spec_book().seq);
                if seq > expected {
                    &&& r == Err::<Option<u64>, Error>(Error::SequenceGap { expected, received: seq })
                    &&& gap_flagged(*old(self), *final(self))
                } else if seq <= old(self).spec_book().seq {
                    &&& r == Ok::<Option<u64>, Error>(None)
                    &&& *final(self) == *old(self)
                } else {
                    &&& r matches Ok(Some(_))
                    &&& delta_recorded(*old(self), *final(self), seq, ts)
                    &&& book_sorted(old(self).spec_book()) ==> {
                        &&& delta_levels(*old(self), *final(self), bids@, asks@)
                        &&& r == Ok::<Option<u64>, Error>(Some(delta_losses(*old(self), bids@, asks@) as u64))
                    }
                }
            }),
    {
        let expected = self.book.seq.saturating_add(1);
        if seq > expected {
            self.book.gapped = true;
            self.gapped = true;
            return Err(Error::SequenceGap { expected, received: seq });
        }
        if seq <= self.book.seq {
            return Ok(None);
        }
        let dropped = apply_levels(&mut self.book, bids, asks);
        self.book.seq = seq;
        self.book.ts = ts;
        self.last_update_ns = ts;
        self.sequence = seq;
        Ok(Some(dropped))
    }

    /// Whether a delta was refused for a sequence gap since the last snapshot.
    pub fn is_gapped(&self) -> (r: bool)
        ensures
            r == self.spec_gapped(),
    {
        self.gapped
    }

    /// Sequence number of the last update.
    pub fn sequence(&self) -> (r: u64)
        ensures
            r == self.spec_sequence(),
    {
        self.sequence
    }

    /// Exchange timestamp of the last update, in nanoseconds.
    pub fn last_update_ns(&self) -> (r: u64)
        ensures
            r == self.spec_last_update_ns(),
    {
        self.last_update_ns
    }

    /// Whether the last update is older than `max_age_ms` at wall-clock time `now_ns`.
    pub fn is_stale_at(&self, now_ns: u64, max_age_ms: u64) -> (r: bool)
        ensures
            r == stale_at(self.spec_last_update_ns(), now_ns, max_age_ms),
            now_ns <= self.spec_last_update_ns() ==> !r,
    {
        let age = if now_ns > self.last_update_ns { now_ns - self.last_update_ns } else { 0 };
        age / 1_000_000 > max_age_ms
    }

    /// Whether the last update is older than `max_age_ms` by the local wall clock. A
    /// venue whose clock runs behind looks stale; a book stamped in the future never
    /// is.
    pub fn is_stale(&self, max_age_ms: u64) -> (r: bool)
        ensures
            exists|now_ns: u64| r == stale_at(self.spec_last_update_ns(), now_ns, max_age_ms),
    {
        let now = wall_clock_ns();
        let r = self.is_stale_at(now, max_age_ms);
        assert(r == stale_at(self.spec_last_update_ns(), now, max_age_ms));
        r
    }
}

} // verus!

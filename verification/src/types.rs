//! The book itself: levels, sides, and a full book.

use vstd::prelude::*;
use crate::decimal::{clamp_i64, fits_i64, quot, saturating_add_i64, Scale9};
use crate::intern::InternedString;
use crate::error::Error;
use vstd::string::StringExecFns;

verus! {

/// Maximum number of levels a side holds; beyond it the worst level is dropped.
pub const MAX_LEVELS: usize = 200;

/// One aggregated price level: a price and the total quantity resting at it.
#[derive(Clone, Copy, Debug, PartialEq, Eq, Structural)]
pub struct Level {
    /// Price.
    pub price: Scale9,
    /// Total quantity at this price.
    pub qty: Scale9,
}

impl Level {
    /// A level at `price` with quantity `qty`.
    pub fn new(price: Scale9, qty: Scale9) -> (r: Level)
        ensures
            r.price == price,
            r.qty == qty,
    {
        Level { price, qty }
    }

    /// A level with zero quantity means "no such level".
    pub fn is_empty(&self) -> (r: bool)
        ensures
            r == (self.qty.spec_raw() == 0),
    {
        self.qty.raw() == 0
    }
}

/// `a` ranks ahead of `b` on a side: higher for bids, lower for asks.
pub open spec fn better(a: i64, b: i64, is_bid: bool) -> bool {
    if is_bid {
        a > b
    } else {
        a < b
    }
}

/// Best first, strictly: no price occurs twice.
pub open spec fn is_sorted(s: Seq<Level>, is_bid: bool) -> bool {
    forall|i: int, j: int| 0 <= i < j < s.len() ==> better(#[trigger] s[i].price.spec_raw(), #[trigger] s[j].price.spec_raw(), is_bid)
}

/// Where `price` belongs: the number of leading levels that rank ahead of it.
pub open spec fn insert_pos(s: Seq<Level>, price: i64, is_bid: bool) -> int
    decreases s.len(),
{
    if s.len() == 0 {
        0
    } else if better(s[0].price.spec_raw(), price, is_bid) {
        1 + insert_pos(s.drop_first(), price, is_bid)
    } else {
        0
    }
}

/// The first index whose level does not rank ahead of `price` is `insert_pos`.
pub proof fn lemma_insert_pos(s: Seq<Level>, price: i64, is_bid: bool, k: int)
    requires
        0 <= k <= s.len(),
        forall|i: int| 0 <= i < k ==> better(#[trigger] s[i].price.spec_raw(), price, is_bid),
        k == s.len() || !better(s[k].price.spec_raw(), price, is_bid),
    ensures
        insert_pos(s, price, is_bid) == k,
    decreases k,
{
    if k > 0 {
        assert(better(s[0].price.spec_raw(), price, is_bid));
        lemma_insert_pos(s.drop_first(), price, is_bid, k - 1);
    }
}

/// What `insert_pos` says about the levels around it.
pub proof fn lemma_insert_pos_bounds(s: Seq<Level>, price: i64, is_bid: bool)
    ensures
        0 <= insert_pos(s, price, is_bid) <= s.len(),
        forall|i: int| 0 <= i < insert_pos(s, price, is_bid) ==> better(#[trigger] s[i].price.spec_raw(), price, is_bid),
        insert_pos(s, price, is_bid) < s.len() ==> !better(s[insert_pos(s, price, is_bid)].price.spec_raw(), price, is_bid),
    decreases s.len(),
{
    if s.len() > 0 && better(s[0].price.spec_raw(), price, is_bid) {
        let t = s.drop_first();
        lemma_insert_pos_bounds(t, price, is_bid);
        assert forall|i: int| 0 <= i < insert_pos(s, price, is_bid) implies better(#[trigger] s[i].price.spec_raw(), price, is_bid) by {
            if i > 0 {
                assert(s[i] == t[i - 1]);
            }
        }
    }
}

/// On a sorted side, every level from `insert_pos` on ranks no better than `price`.
pub proof fn lemma_insert_pos_suffix(s: Seq<Level>, price: i64, is_bid: bool)
    requires
        is_sorted(s, is_bid),
    ensures
        forall|i: int| insert_pos(s, price, is_bid) <= i < s.len() ==> !better(#[trigger] s[i].price.spec_raw(), price, is_bid),
{
    lemma_insert_pos_bounds(s, price, is_bid);
    let p = insert_pos(s, price, is_bid);
    assert forall|i: int| p <= i < s.len() implies !better(#[trigger] s[i].price.spec_raw(), price, is_bid) by {
        if i > p {
            assert(better(s[p].price.spec_raw(), s[i].price.spec_raw(), is_bid));
        }
    }
}

/// Receiving a level keeps a sorted side sorted.
pub proof fn lemma_after_insert_sorted(s: Seq<Level>, level: Level, is_bid: bool)
    requires
        is_sorted(s, is_bid),
    ensures
        is_sorted(after_insert(s, level, is_bid), is_bid),
{
    let p = insert_pos(s, level.price.spec_raw(), is_bid);
    lemma_insert_pos_bounds(s, level.price.spec_raw(), is_bid);
    lemma_insert_pos_suffix(s, level.price.spec_raw(), is_bid);
    let r = after_insert(s, level, is_bid);
    if p < s.len() && s[p].price.spec_raw() == level.price.spec_raw() {
        if level.qty.spec_raw() == 0 {
            assert forall|i: int, j: int| 0 <= i < j < r.len() implies better(#[trigger] r[i].price.spec_raw(), #[trigger] r[j].price.spec_raw(), is_bid) by {
                let a = if i < p { i } else { i + 1 };
                let b = if j < p { j } else { j + 1 };
                assert(r[i] == s[a] && r[j] == s[b]);
                assert(better(s[a].price.spec_raw(), s[b].price.spec_raw(), is_bid));
            }
        } else {
            assert forall|i: int, j: int| 0 <= i < j < r.len() implies better(#[trigger] r[i].price.spec_raw(), #[trigger] r[j].price.spec_raw(), is_bid) by {
                assert(better(s[i].price.spec_raw(), s[j].price.spec_raw(), is_bid));
            }
        }
    } else if level.qty.spec_raw() != 0 && !(s.len() >= MAX_LEVELS && p >= MAX_LEVELS) {
        let base = if s.len() >= MAX_LEVELS { s.take(MAX_LEVELS - 1) } else { s };
        assert(r == base.insert(p, level));
        assert forall|i: int, j: int| 0 <= i < j < r.len() implies better(#[trigger] r[i].price.spec_raw(), #[trigger] r[j].price.spec_raw(), is_bid) by {
            if j < p {
                assert(r[i] == s[i] && r[j] == s[j]);
                assert(better(s[i].price.spec_raw(), s[j].price.spec_raw(), is_bid));
            } else if j == p {
                assert(r[i] == s[i]);
            } else if i == p {
                assert(r[j] == s[j - 1]);
                assert(!better(s[j - 1].price.spec_raw(), level.price.spec_raw(), is_bid));
            } else if i < p {
                assert(r[i] == s[i] && r[j] == s[j - 1]);
                assert(better(s[i].price.spec_raw(), level.price.spec_raw(), is_bid));
                assert(!better(s[j - 1].price.spec_raw(), level.price.spec_raw(), is_bid));
            } else {
                assert(r[i] == s[i - 1] && r[j] == s[j - 1]);
                assert(better(s[i - 1].price.spec_raw(), s[j - 1].price.spec_raw(), is_bid));
            }
        }
    }
}

/// On a sorted side the best level ranks ahead of every other level: the highest bid
/// or the lowest ask.
pub proof fn lemma_best_is_extreme(s: Seq<Level>, is_bid: bool)
    requires
        is_sorted(s, is_bid),
        s.len() > 0,
    ensures
        forall|i: int| 0 < i < s.len() ==> better(s[0].price.spec_raw(), #[trigger] s[i].price.spec_raw(), is_bid),
{
}

/// What a side holds after receiving a level, read back by price: a zero quantity
/// leaves no level at that price; a non-zero quantity leaves exactly that level, unless
/// the side was full and the price ranks below all of it; every other level that was
/// there is still there, except the worst one when the new level displaced it; and
/// no level appears that was not either there before or the one received.
pub proof fn lemma_after_insert_lookup(s: Seq<Level>, level: Level, is_bid: bool)
    requires
        is_sorted(s, is_bid),
        s.len() <= MAX_LEVELS,
    ensures
        ({
            let r = after_insert(s, level, is_bid);
            let kind = insertion_kind(s, level, is_bid);
            &&& level.qty.spec_raw() == 0 ==> forall|i: int| 0 <= i < r.len() ==> #[trigger] r[i].price.spec_raw() != level.price.spec_raw()
            &&& level.qty.spec_raw() != 0 && kind != Insertion::Dropped ==> exists|i: int| 0 <= i < r.len() && #[trigger] r[i] == level
            &&& kind == Insertion::Dropped ==> r == s
            &&& forall|j: int|
                0 <= j < s.len() && #[trigger] s[j].price.spec_raw() != level.price.spec_raw() && !(kind == Insertion::Displaced && j == s.len() - 1)
                    ==> r.contains(s[j])
            &&& forall|i: int| 0 <= i < r.len() ==> #[trigger] r[i] == level || s.contains(r[i])
        }),
{
    let p = insert_pos(s, level.price.spec_raw(), is_bid);
    lemma_insert_pos_bounds(s, level.price.spec_raw(), is_bid);
    lemma_insert_pos_suffix(s, level.price.spec_raw(), is_bid);
    let r = after_insert(s, level, is_bid);
    let kind = insertion_kind(s, level, is_bid);
    if p < s.len() && s[p].price.spec_raw() == level.price.spec_raw() {
        if level.qty.spec_raw() == 0 {
            assert forall|i: int| 0 <= i < r.len() implies #[trigger] r[i].price.spec_raw() != level.price.spec_raw() by {
                let a = if i < p { i } else { i + 1 };
                assert(r[i] == s[a]);
                if a != p {
                    if a < p {
                        assert(better(s[a].price.spec_raw(), s[p].price.spec_raw(), is_bid));
                    } else {
                        assert(better(s[p].price.spec_raw(), s[a].price.spec_raw(), is_bid));
                    }
                }
            }
            assert forall|j: int| 0 <= j < s.len() && #[trigger] s[j].price.spec_raw() != level.price.spec_raw() implies r.contains(s[j]) by {
                let i = if j < p { j } else { j - 1 };
                assert(r[i] == s[j]);
            }
            assert forall|i: int| 0 <= i < r.len() implies #[trigger] r[i] == level || s.contains(r[i]) by {
                let a = if i < p { i } else { i + 1 };
                assert(r[i] == s[a]);
            }
        } else {
            assert(r[p] == level);
            assert forall|j: int| 0 <= j < s.len() && #[trigger] s[j].price.spec_raw() != level.price.spec_raw() implies r.contains(s[j]) by {
                assert(r[j] == s[j]);
            }
            assert forall|i: int| 0 <= i < r.len() implies #[trigger] r[i] == level || s.contains(r[i]) by {
                if i != p {
                    assert(r[i] == s[i]);
                }
            }
        }
    } else if level.qty.spec_raw() == 0 {
        assert forall|i: int| 0 <= i < r.len() implies #[trigger] r[i].price.spec_raw() != level.price.spec_raw() by {
            if i < p {
                assert(better(s[i].price.spec_raw(), level.price.spec_raw(), is_bid));
            } else {
                assert(!better(s[i].price.spec_raw(), level.price.spec_raw(), is_bid));
                if i > p {
                    assert(better(s[p].price.spec_raw(), s[i].price.spec_raw(), is_bid));
                }
            }
        }
        assert forall|j: int| 0 <= j < s.len() && #[trigger] s[j].price.spec_raw() != level.price.spec_raw() implies r.contains(s[j]) by {
            assert(r[j] == s[j]);
        }
        assert forall|i: int| 0 <= i < r.len() implies #[trigger] r[i] == level || s.contains(r[i]) by {
            assert(r[i] == s[i]);
        }
    } else if s.len() >= MAX_LEVELS && p >= MAX_LEVELS {
        assert forall|i: int| 0 <= i < r.len() implies #[trigger] r[i] == level || s.contains(r[i]) by {
            assert(r[i] == s[i]);
        }
        assert forall|j: int| 0 <= j < s.len() && #[trigger] s[j].price.spec_raw() != level.price.spec_raw() implies r.contains(s[j]) by {
            assert(r[j] == s[j]);
        }
    } else {
        let base = if s.len() >= MAX_LEVELS { s.take(MAX_LEVELS - 1) } else { s };
        assert(r == base.insert(p, level));
        assert(r[p] == level);
        assert forall|j: int|
            0 <= j < s.len() && #[trigger] s[j].price.spec_raw() != level.price.spec_raw() && !(kind == Insertion::Displaced && j == s.len() - 1)
                implies r.contains(s[j]) by {
            if j < p {
                assert(r[j] == s[j]);
            } else {
                assert(r[j + 1] == s[j]);
            }
        }
        assert forall|i: int| 0 <= i < r.len() implies #[trigger] r[i] == level || s.contains(r[i]) by {
            if i < p {
                assert(r[i] == s[i]);
            } else if i > p {
                assert(r[i] == s[i - 1]);
            }
        }
    }
}

/// A side never grows past its capacity.
pub proof fn lemma_after_insert_len(s: Seq<Level>, level: Level, is_bid: bool)
    requires
        s.len() <= MAX_LEVELS,
    ensures
        after_insert(s, level, is_bid).len() <= MAX_LEVELS,
{
    lemma_insert_pos_bounds(s, level.price.spec_raw(), is_bid);
}

/// Receiving a second level at a price that is already present, with a non-zero
/// quantity, updates it in place: the number of levels does not change and the new
/// quantity is the one held.
pub proof fn lemma_same_price_updates_in_place(s: Seq<Level>, first: Level, second: Level, is_bid: bool)
    requires
        is_sorted(s, is_bid),
        first.price.spec_raw() == second.price.spec_raw(),
        first.qty.spec_raw() != 0,
        second.qty.spec_raw() != 0,
        s.len() <= MAX_LEVELS,
        insertion_kind(s, first, is_bid) != Insertion::Dropped,
    ensures
        ({
            let t = after_insert(s, first, is_bid);
            let u = after_insert(t, second, is_bid);
            &&& insertion_kind(t, second, is_bid) == Insertion::Updated
            &&& u.len() == t.len()
            &&& exists|i: int| 0 <= i < u.len() && #[trigger] u[i] == second
        }),
{
    let t = after_insert(s, first, is_bid);
    lemma_after_insert_sorted(s, first, is_bid);
    lemma_after_insert_lookup(s, first, is_bid);
    lemma_after_insert_len(s, first, is_bid);
    let i = choose|i: int| 0 <= i < t.len() && #[trigger] t[i] == first;
    lemma_insert_pos_bounds(t, second.price.spec_raw(), is_bid);
    lemma_insert_pos_suffix(t, second.price.spec_raw(), is_bid);
    let q = insert_pos(t, second.price.spec_raw(), is_bid);
    if i < q {
        assert(better(t[i].price.spec_raw(), second.price.spec_raw(), is_bid));
    }
    if i > q {
        assert(better(t[q].price.spec_raw(), t[i].price.spec_raw(), is_bid));
    }
    assert(q == i);
    lemma_after_insert_lookup(t, second, is_bid);
}

/// Saturating sums of non-negative quantities only grow with the starting amount.
proof fn lemma_depth_from_monotone(s: Seq<Level>, t1: int, t2: int, is_bid: bool, a1: int, a2: int)
    requires
        forall|i: int| 0 <= i < s.len() ==> #[trigger] s[i].qty.spec_raw() >= 0,
        forall|i: int| 0 <= i < s.len() && within(#[trigger] s[i].price.spec_raw(), t1, is_bid) ==> within(s[i].price.spec_raw(), t2, is_bid),
        a1 <= a2 <= i64::MAX,
        i64::MIN <= a1,
    ensures
        depth_from(s, t1, is_bid, a1) <= depth_from(s, t2, is_bid, a2),
    decreases s.len(),
{
    if s.len() > 0 {
        let rest = s.drop_first();
        assert forall|i: int| 0 <= i < rest.len() implies #[trigger] rest[i].qty.spec_raw() >= 0 by {
            assert(rest[i] == s[i + 1]);
        }
        assert forall|i: int| 0 <= i < rest.len() && within(#[trigger] rest[i].price.spec_raw(), t1, is_bid) implies within(
            rest[i].price.spec_raw(),
            t2,
            is_bid,
        ) by {
            assert(rest[i] == s[i + 1]);
        }
        assert(s[0].qty.spec_raw() >= 0);
        if within(s[0].price.spec_raw(), t1, is_bid) {
            lemma_depth_from_monotone(rest, t1, t2, is_bid, clamp_i64(a1 + s[0].qty.spec_raw()), clamp_i64(a2 + s[0].qty.spec_raw()));
        } else if within(s[0].price.spec_raw(), t2, is_bid) {
            lemma_depth_from_at_least(rest, t2, is_bid, clamp_i64(a2 + s[0].qty.spec_raw()));
        }
    }
}

/// With non-negative quantities the sum never falls below its starting amount.
proof fn lemma_depth_from_at_least(s: Seq<Level>, t: int, is_bid: bool, a: int)
    requires
        forall|i: int| 0 <= i < s.len() ==> #[trigger] s[i].qty.spec_raw() >= 0,
        i64::MIN <= a <= i64::MAX,
    ensures
        depth_from(s, t, is_bid, a) >= a,
    decreases s.len(),
{
    if s.len() > 0 && within(s[0].price.spec_raw(), t, is_bid) {
        let rest = s.drop_first();
        assert forall|i: int| 0 <= i < rest.len() implies #[trigger] rest[i].qty.spec_raw() >= 0 by {
            assert(rest[i] == s[i + 1]);
        }
        assert(s[0].qty.spec_raw() >= 0);
        lemma_depth_from_at_least(rest, t, is_bid, clamp_i64(a + s[0].qty.spec_raw()));
    }
}

/// Quantities added one after another onto `acc`, saturating at the `i64` bounds.
pub open spec fn saturating_total(s: Seq<Level>, acc: int) -> int
    decreases s.len(),
{
    if s.len() == 0 {
        acc
    } else {
        saturating_total(s.drop_first(), clamp_i64(acc + s[0].qty.spec_raw()))
    }
}

/// `price` lies within `bps` basis points of a positive `best`, on the inner side:
/// at least `best - best * bps / 10000` for bids, at most `best + best * bps / 10000`
/// for asks, in raw scale-9 units.
pub open spec fn in_band(price: i64, best: i64, bps: u32, is_bid: bool) -> bool {
    if is_bid {
        price >= best - best * bps / 10000
    } else {
        price <= best + best * bps / 10000
    }
}

/// Summing the leading levels inside `threshold` is the saturating total of the first
/// `k` levels when exactly those are inside.
proof fn lemma_depth_from_prefix(s: Seq<Level>, t: int, is_bid: bool, acc: int, k: int)
    requires
        0 <= k <= s.len(),
        forall|i: int| 0 <= i < k ==> within(#[trigger] s[i].price.spec_raw(), t, is_bid),
        k == s.len() || !within(s[k].price.spec_raw(), t, is_bid),
    ensures
        depth_from(s, t, is_bid, acc) == saturating_total(s.take(k), acc),
    decreases k,
{
    if k == 0 {
        assert(s.take(0) =~= Seq::<Level>::empty());
    } else {
        let rest = s.drop_first();
        assert(within(s[0].price.spec_raw(), t, is_bid));
        assert forall|i: int| 0 <= i < k - 1 implies within(#[trigger] rest[i].price.spec_raw(), t, is_bid) by {
            assert(rest[i] == s[i + 1]);
        }
        if k < s.len() {
            assert(rest[k - 1] == s[k]);
        }
        lemma_depth_from_prefix(rest, t, is_bid, clamp_i64(acc + s[0].qty.spec_raw()), k - 1);
        assert(s.take(k).drop_first() =~= rest.take(k - 1));
        assert(s.take(k)[0] == s[0]);
    }
}

/// Depth within `bps` basis points of a positive best price is the saturating total
/// of the leading levels whose raw prices lie in the band `best ± best * bps / 10000`
/// (no rounding to whole units), stopping at the first level outside it.
pub proof fn lemma_depth_counts_the_band(s: Seq<Level>, bps: u32, is_bid: bool, k: int)
    requires
        s.len() > 0,
        s[0].price.spec_raw() > 0,
        0 <= k <= s.len(),
        forall|i: int| 0 <= i < k ==> in_band(#[trigger] s[i].price.spec_raw(), s[0].price.spec_raw(), bps, is_bid),
        k == s.len() || !in_band(s[k].price.spec_raw(), s[0].price.spec_raw(), bps, is_bid),
    ensures
        depth_within(s, bps, is_bid) == saturating_total(s.take(k), 0),
{
    let best = s[0].price.spec_raw();
    let t = depth_threshold(best, bps, is_bid);
    assert(best * bps >= 0) by (nonlinear_arith)
        requires
            best > 0,
    ;
    assert(quot(best * bps, 10000) == best * bps / 10000);
    assert forall|p: i64| within(p, t, is_bid) == in_band(p, best, bps, is_bid) by {}
    assert forall|i: int| 0 <= i < k implies within(#[trigger] s[i].price.spec_raw(), t, is_bid) by {
        assert(in_band(s[i].price.spec_raw(), best, bps, is_bid));
    }
    if k < s.len() {
        assert(!within(s[k].price.spec_raw(), t, is_bid));
    }
    lemma_depth_from_prefix(s, t, is_bid, 0, k);
}

/// Widening the basis-point window can only include more liquidity, never less, when
/// the best price and every quantity are non-negative.
pub proof fn lemma_depth_monotone_in_bps(s: Seq<Level>, bps1: u32, bps2: u32, is_bid: bool)
    requires
        bps1 <= bps2,
        s.len() > 0 ==> s[0].price.spec_raw() >= 0,
        forall|i: int| 0 <= i < s.len() ==> #[trigger] s[i].qty.spec_raw() >= 0,
    ensures
        depth_within(s, bps1, is_bid) <= depth_within(s, bps2, is_bid),
{
    if s.len() > 0 && s[0].price.spec_raw() != 0 {
        let best = s[0].price.spec_raw();
        let m1 = quot(best * bps1, 10000);
        let m2 = quot(best * bps2, 10000);
        assert(best * bps1 <= best * bps2) by (nonlinear_arith)
            requires
                best >= 0,
                bps1 <= bps2,
        ;
        assert(0 <= best * bps1) by (nonlinear_arith)
            requires
                best >= 0,
                bps1 >= 0,
        ;
        assert(m1 <= m2) by (nonlinear_arith)
            requires
                m1 == (best * bps1) / 10000,
                m2 == (best * bps2) / 10000,
                0 <= best * bps1 <= best * bps2,
        ;
        assert(m1 >= 0);
        let t1 = depth_threshold(best, bps1, is_bid);
        let t2 = depth_threshold(best, bps2, is_bid);
        assert forall|i: int| 0 <= i < s.len() && within(#[trigger] s[i].price.spec_raw(), t1, is_bid) implies within(
            s[i].price.spec_raw(),
            t2,
            is_bid,
        ) by {}
        lemma_depth_from_monotone(s, t1, t2, is_bid, 0, 0);
    }
}

/// The side `s` after receiving `level`: a known price is updated, or removed for a zero
/// quantity; a new price is added in order, the worst level giving way on a full side.
pub open spec fn after_insert(s: Seq<Level>, level: Level, is_bid: bool) -> Seq<Level> {
    let p = insert_pos(s, level.price.spec_raw(), is_bid);
    if p < s.len() && s[p].price.spec_raw() == level.price.spec_raw() {
        if level.qty.spec_raw() == 0 {
            s.remove(p)
        } else {
            s.update(p, level)
        }
    } else if level.qty.spec_raw() == 0 {
        s
    } else if s.len() >= MAX_LEVELS {
        if p >= MAX_LEVELS {
            s
        } else {
            s.take(MAX_LEVELS - 1).insert(p, level)
        }
    } else {
        s.insert(p, level)
    }
}

/// What receiving one level did to a side.
#[derive(Clone, Copy, Debug, PartialEq, Eq, Structural)]
pub enum Insertion {
    /// A new price was added and nothing was lost.
    Added,
    /// The price was present and its quantity replaced.
    Updated,
    /// The price was present and a zero quantity removed it.
    Removed,
    /// A zero quantity for a price that is not present: nothing changed.
    Ignored,
    /// The side was full: the new price was added and the worst level discarded.
    Displaced,
    /// The side was full and the new price ranks below all of it: it was discarded.
    Dropped,
}

impl Insertion {
    /// Whether a level was discarded because the side was full.
    pub fn lost_a_level(&self) -> (r: bool)
        ensures
            r == (*self == Insertion::Displaced || *self == Insertion::Dropped),
    {
        match self {
            Insertion::Displaced => true,
            Insertion::Dropped => true,
            _ => false,
        }
    }
}

/// Which of the cases of `after_insert` applies.
pub open spec fn insertion_kind(s: Seq<Level>, level: Level, is_bid: bool) -> Insertion {
    let p = insert_pos(s, level.price.spec_raw(), is_bid);
    if p < s.len() && s[p].price.spec_raw() == level.price.spec_raw() {
        if level.qty.spec_raw() == 0 {
            Insertion::Removed
        } else {
            Insertion::Updated
        }
    } else if level.qty.spec_raw() == 0 {
        Insertion::Ignored
    } else if s.len() >= MAX_LEVELS {
        if p >= MAX_LEVELS {
            Insertion::Dropped
        } else {
            Insertion::Displaced
        }
    } else {
        Insertion::Added
    }
}

/// The price a level must reach to count toward `depth_within_bps`: `bps` basis points
/// below the best bid or above the best ask, saturated to the `i64` range.
pub open spec fn depth_threshold(best: i64, bps: u32, is_bid: bool) -> int {
    let margin = quot(best * bps, 10000);
    if is_bid {
        clamp_i64(best - margin)
    } else {
        clamp_i64(best + margin)
    }
}

/// Whether `price` lies on the inner side of `threshold`.
pub open spec fn within(price: i64, threshold: int, is_bid: bool) -> bool {
    if is_bid {
        price >= threshold
    } else {
        price <= threshold
    }
}

/// Saturating sum of quantities over the leading levels that lie within `threshold`,
/// added one after another onto `acc`.
pub open spec fn depth_from(s: Seq<Level>, threshold: int, is_bid: bool, acc: int) -> int
    decreases s.len(),
{
    if s.len() == 0 || !within(s[0].price.spec_raw(), threshold, is_bid) {
        acc
    } else {
        depth_from(s.drop_first(), threshold, is_bid, clamp_i64(acc + s[0].qty.spec_raw()))
    }
}

/// Liquidity within `bps` basis points of the best price; zero for an empty side or a
/// best price of zero.
pub open spec fn depth_within(s: Seq<Level>, bps: u32, is_bid: bool) -> int {
    if s.len() == 0 || s[0].price.spec_raw() == 0 {
        0
    } else {
        depth_from(s, depth_threshold(s[0].price.spec_raw(), bps, is_bid), is_bid, 0)
    }
}

/// Every quantity is positive.
pub open spec fn all_positive(ls: Seq<Level>) -> bool {
    forall|i: int| 0 <= i < ls.len() ==> #[trigger] ls[i].qty.spec_raw() > 0
}

/// Why stored levels cannot form a side, if they cannot: a count that differs from
/// the number of levels, a quantity that is not positive, or prices that are neither
/// strictly descending nor strictly ascending.
pub open spec fn side_parts_error(ls: Seq<Level>, count: usize) -> Option<Seq<char>> {
    if count != ls.len() {
        Some("side count does not match its levels"@)
    } else if !all_positive(ls) {
        Some("side holds a level without a positive quantity"@)
    } else if !is_sorted(ls, true) && !is_sorted(ls, false) {
        Some("side levels are not strictly sorted"@)
    } else {
        None
    }
}

/// Why two stored sides cannot form a book, if they cannot.
pub open spec fn book_sides_error(bids: Seq<Level>, asks: Seq<Level>) -> Option<Seq<char>> {
    if !is_sorted(bids, true) {
        Some("bids do not descend"@)
    } else if !is_sorted(asks, false) {
        Some("asks do not ascend"@)
    } else {
        None
    }
}

/// Receiving a level with a non-negative quantity keeps every quantity on a side
/// positive: a zero removes its price, anything else is held as given.
pub proof fn lemma_after_insert_positive(s: Seq<Level>, level: Level, is_bid: bool)
    requires
        all_positive(s),
        level.qty.spec_raw() >= 0,
    ensures
        all_positive(after_insert(s, level, is_bid)),
{
    let p = insert_pos(s, level.price.spec_raw(), is_bid);
    lemma_insert_pos_bounds(s, level.price.spec_raw(), is_bid);
    let r = after_insert(s, level, is_bid);
    if p < s.len() && s[p].price.spec_raw() == level.price.spec_raw() {
        if level.qty.spec_raw() == 0 {
            assert forall|i: int| 0 <= i < r.len() implies #[trigger] r[i].qty.spec_raw() > 0 by {
                if i < p {
                    assert(r[i] == s[i]);
                } else {
                    assert(r[i] == s[i + 1]);
                }
            }
        } else {
            assert forall|i: int| 0 <= i < r.len() implies #[trigger] r[i].qty.spec_raw() > 0 by {
                if i != p {
                    assert(r[i] == s[i]);
                }
            }
        }
    } else if level.qty.spec_raw() != 0 && !(s.len() >= MAX_LEVELS && p >= MAX_LEVELS) {
        let base = if s.len() >= MAX_LEVELS { s.take(MAX_LEVELS - 1) } else { s };
        assert(r == base.insert(p, level));
        assert forall|i: int| 0 <= i < r.len() implies #[trigger] r[i].qty.spec_raw() > 0 by {
            if i < p {
                assert(r[i] == s[i]);
            } else if i > p {
                assert(r[i] == s[i - 1]);
            }
        }
    }
}

/// Dropping levels, by position or from the worst end, keeps a side sorted and its
/// quantities positive.
pub proof fn lemma_fewer_levels_keep_order(s: Seq<Level>, is_bid: bool, p: int, n: int)
    requires
        is_sorted(s, is_bid),
        0 <= p < s.len(),
        0 <= n <= s.len(),
    ensures
        is_sorted(s.remove(p), is_bid),
        is_sorted(s.take(n), is_bid),
        all_positive(s) ==> all_positive(s.remove(p)) && all_positive(s.take(n)),
{
    let r = s.remove(p);
    assert forall|i: int, j: int| 0 <= i < j < r.len() implies better(#[trigger] r[i].price.spec_raw(), #[trigger] r[j].price.spec_raw(), is_bid) by {
        let a = if i < p { i } else { i + 1 };
        let b = if j < p { j } else { j + 1 };
        assert(r[i] == s[a] && r[j] == s[b]);
        assert(better(s[a].price.spec_raw(), s[b].price.spec_raw(), is_bid));
    }
    let t = s.take(n);
    assert forall|i: int, j: int| 0 <= i < j < t.len() implies better(#[trigger] t[i].price.spec_raw(), #[trigger] t[j].price.spec_raw(), is_bid) by {
        assert(better(s[i].price.spec_raw(), s[j].price.spec_raw(), is_bid));
    }
    if all_positive(s) {
        assert forall|i: int| 0 <= i < r.len() implies #[trigger] r[i].qty.spec_raw() > 0 by {
            if i < p {
                assert(r[i] == s[i]);
            } else {
                assert(r[i] == s[i + 1]);
            }
        }
        assert forall|i: int| 0 <= i < t.len() implies #[trigger] t[i].qty.spec_raw() > 0 by {
            assert(t[i] == s[i]);
        }
    }
}

/// A side kept in order for one direction with positive quantities, as `insert`,
/// `update`, `remove`, `truncate` and `clear` keep one built from `Side::new` with
/// non-negative quantities, rebuilds from its levels and their count: `from_parts`
/// accepts them and, at no more than `MAX_LEVELS` levels, holds exactly those levels.
pub proof fn lemma_side_parts_round_trip(s: Seq<Level>, is_bid: bool)
    requires
        is_sorted(s, is_bid),
        all_positive(s),
        s.len() <= MAX_LEVELS,
    ensures
        side_parts_error(s, s.len() as usize) is None,
{
}

/// One side (bids or asks) of a book: a fixed array of levels kept best first.
#[derive(Clone, Copy, Debug)]
pub struct Side {
    levels: [Level; MAX_LEVELS],
    count: usize,
}

impl View for Side {
    type V = Seq<Level>;

    closed spec fn view(&self) -> Seq<Level> {
        self.levels@.take(self.count as int)
    }
}

impl Side {
    #[verifier::type_invariant]
    spec fn within_capacity(self) -> bool {
        self.count <= MAX_LEVELS
    }

    /// An empty side.
    pub fn new() -> (r: Side)
        ensures
            r@ == Seq::<Level>::empty(),
    {
        let none = Level { price: Scale9::zero(), qty: Scale9::zero() };
        Side { levels: [none; MAX_LEVELS], count: 0 }
    }

    /// Number of levels.
    pub fn count(&self) -> (r: usize)
        ensures
            r == self@.len(),
            r <= MAX_LEVELS,
    {
        proof { use_type_invariant(self); }
        self.count
    }

    /// Whether the side holds no level.
    pub fn is_empty(&self) -> (r: bool)
        ensures
            r == (self@.len() == 0),
    {
        proof { use_type_invariant(self); }
        self.count == 0
    }

    /// Remove the level at `pos`, closing the gap.
    fn remove_at(&mut self, pos: usize)
        requires
            pos < old(self)@.len(),
        ensures
            final(self)@ == old(self)@.remove(pos as int),
    {
        proof { use_type_invariant(&*self); }
        let ghost before = self.levels@;
        let ghost n = self.count as int;
        let mut i = pos;
        while i + 1 < self.count
            invariant
                pos <= i < self.count <= MAX_LEVELS,
                self.count == n,
                self.levels@.len() == MAX_LEVELS,
                forall|k: int| 0 <= k < pos ==> #[trigger] self.levels@[k] == before[k],
                forall|k: int| pos <= k < i ==> #[trigger] self.levels@[k] == before[k + 1],
                forall|k: int| i <= k < n ==> #[trigger] self.levels@[k] == before[k],
            decreases self.count - i,
        {
            self.levels[i] = self.levels[i + 1];
            i = i + 1;
        }
        self.count = self.count - 1;
        proof {
            let old_view = before.take(n);
            assert(self@ =~= old_view.remove(pos as int));
        }
    }

    /// Receive one level and report what happened.
    ///
    /// On a side sorted for `is_bid`: a known price is updated, or removed when the
    /// quantity is zero; an unknown price with a quantity is added in order; when the
    /// side is full the worst level is discarded, or the new one if it ranks last.
    pub fn insert_outcome(&mut self, level: Level, is_bid: bool) -> (r: Insertion)
        ensures
            final(self)@.len() <= MAX_LEVELS,
            is_sorted(old(self)@, is_bid) ==> {
                &&& final(self)@ == after_insert(old(self)@, level, is_bid)
                &&& r == insertion_kind(old(self)@, level, is_bid)
                &&& is_sorted(final(self)@, is_bid)
            },
    {
        proof { use_type_invariant(&*self); }
        let ghost s = self@;
        let pos = self.find_insert_position(level.price.raw(), is_bid);
        if pos < self.count && self.levels[pos].price.raw() == level.price.raw() {
            if level.qty.raw() == 0 {
                self.remove_at(pos);
                proof { if is_sorted(s, is_bid) { lemma_after_insert_sorted(s, level, is_bid); } }
                return Insertion::Removed;
            } else {
                self.levels[pos] = level;
                proof {
                    assert(self@ =~= s.update(pos as int, level));
                    if is_sorted(s, is_bid) { lemma_after_insert_sorted(s, level, is_bid); }
                }
                return Insertion::Updated;
            }
        }
        if level.qty.raw() == 0 {
            return Insertion::Ignored;
        }
        let mut outcome = Insertion::Added;
        if self.count >= MAX_LEVELS {
            if pos >= MAX_LEVELS {
                return Insertion::Dropped;
            }
            self.count = MAX_LEVELS - 1;
            outcome = Insertion::Displaced;
        }
        let ghost base = self@;
        let ghost before = self.levels@;
        let ghost n = self.count as int;
        assert(base == before.take(n));
        let mut i = self.count;
        while i > pos
            invariant
                pos <= i <= self.count < MAX_LEVELS,
                self.count == n,
                self.levels@.len() == MAX_LEVELS,
                forall|k: int| 0 <= k <= i ==> #[trigger] self.levels@[k] == before[k],
                forall|k: int| i < k <= n ==> #[trigger] self.levels@[k] == before[k - 1],
            decreases i,
        {
            self.levels[i] = self.levels[i - 1];
            i = i - 1;
        }
        self.levels[pos] = level;
        self.count = self.count + 1;
        proof {
            assert(self@ =~= base.insert(pos as int, level));
            if is_sorted(s, is_bid) {
                if s.len() >= MAX_LEVELS {
                    assert(base =~= s.take(MAX_LEVELS - 1));
                }
                lemma_after_insert_sorted(s, level, is_bid);
            }
        }
        outcome
    }

    /// Insert or update a level, keeping the side sorted; `true` exactly when a new
    /// price was added.
    pub fn insert(&mut self, level: Level, is_bid: bool) -> (r: bool)
        ensures
            final(self)@.len() <= MAX_LEVELS,
            is_sorted(old(self)@, is_bid) ==> {
                &&& final(self)@ == after_insert(old(self)@, level, is_bid)
                &&& r == (insertion_kind(old(self)@, level, is_bid) == Insertion::Added
                    || insertion_kind(old(self)@, level, is_bid) == Insertion::Displaced)
                &&& is_sorted(final(self)@, is_bid)
            },
    {
        let outcome = self.insert_outcome(level, is_bid);
        match outcome {
            Insertion::Added => true,
            Insertion::Displaced => true,
            _ => false,
        }
    }

    /// Remove the level at `price`; `true` if it was there.
    pub fn remove(&mut self, price: Scale9, is_bid: bool) -> (r: bool)
        ensures
            is_sorted(old(self)@, is_bid) ==> {
                let p = insert_pos(old(self)@, price.spec_raw(), is_bid);
                &&& r == (p < old(self)@.len() && old(self)@[p].price.spec_raw() == price.spec_raw())
                &&& final(self)@ == if r { old(self)@.remove(p) } else { old(self)@ }
                &&& is_sorted(final(self)@, is_bid)
            },
            !is_sorted(old(self)@, is_bid) ==> final(self)@.len() <= old(self)@.len(),
    {
        proof { use_type_invariant(&*self); }
        let ghost s = self@;
        let pos = self.find_insert_position(price.raw(), is_bid);
        if pos < self.count && self.levels[pos].price.raw() == price.raw() {
            self.remove_at(pos);
            proof {
                if is_sorted(s, is_bid) {
                    lemma_fewer_levels_keep_order(s, is_bid, pos as int, 0);
                }
            }
            true
        } else {
            false
        }
    }

    /// Set the quantity at `price`: zero removes, otherwise insert or update.
    pub fn update(&mut self, price: Scale9, qty: Scale9, is_bid: bool)
        ensures
            final(self)@.len() <= MAX_LEVELS,
            is_sorted(old(self)@, is_bid) ==> {
                &&& final(self)@ == after_insert(old(self)@, Level { price, qty }, is_bid)
                &&& is_sorted(final(self)@, is_bid)
            },
    {
        let level = Level::new(price, qty);
        self.insert(level, is_bid);
    }

    /// The best level: highest bid or lowest ask.
    pub fn best(&self) -> (r: Option<Level>)
        ensures
            r == if self@.len() > 0 { Some(self@[0]) } else { None::<Level> },
    {
        proof { use_type_invariant(self); }
        if self.count > 0 {
            Some(self.levels[0])
        } else {
            None
        }
    }

    /// The active levels, best first.
    pub fn levels(&self) -> (r: &[Level])
        ensures
            r@ == self@,
    {
        proof { use_type_invariant(self); }
        let all: &[Level] = &self.levels;
        let r = &all[0..self.count];
        proof { assert(r@ =~= self@); }
        r
    }

    /// Total quantity within `bps` basis points of the best price (1 bps = 0.01 %),
    /// stopping at the first level outside the band.
    pub fn depth_within_bps(&self, bps: u32, is_bid: bool) -> (r: Scale9)
        ensures
            r.spec_raw() == depth_within(self@, bps, is_bid),
    {
        proof { use_type_invariant(self); }
        if self.count == 0 {
            return Scale9::zero();
        }
        let best_price = self.levels[0].price.raw();
        if best_price == 0 {
            return Scale9::zero();
        }
        let ghost s = self@;
        let b = best_price as i128;
        let w = bps as i128;
        assert(-0x8000_0000_0000_0000_0000_0000 <= b * w <= 0x8000_0000_0000_0000_0000_0000) by (nonlinear_arith)
            requires
                -0x8000_0000_0000_0000 <= b <= 0x8000_0000_0000_0000,
                0 <= w <= 0x1_0000_0000,
        ;
        let product = b * w;
        let margin = match product.checked_div(10000) {
            Some(q) => q,
            None => 0,
        };
        assert(margin == quot(best_price * bps, 10000));
        let exact = if is_bid { b - margin } else { b + margin };
        let threshold: i64 = if exact > i64::MAX as i128 {
            i64::MAX
        } else if exact < i64::MIN as i128 {
            i64::MIN
        } else {
            exact as i64
        };
        let ghost thr = depth_threshold(best_price, bps, is_bid);
        assert(threshold == thr);
        let mut total: i64 = 0;
        let mut i: usize = 0;
        assert(s.skip(0) =~= s);
        assert(s[0].price.spec_raw() == best_price);
        while i < self.count
            invariant
                i <= self.count <= MAX_LEVELS,
                s == self@,
                s.len() == self.count,
                depth_within(s, bps, is_bid) == depth_from(s.skip(i as int), thr, is_bid, total as int),
                threshold == thr,
            ensures
                depth_within(s, bps, is_bid) == total,
            decreases self.count - i,
        {
            let level = self.levels[i];
            assert(s.skip(i as int)[0] == level);
            let price = level.price.raw();
            let inside = if is_bid { price >= threshold } else { price <= threshold };
            if !inside {
                break;
            }
            assert(s.skip(i as int).drop_first() =~= s.skip(i + 1));
            total = saturating_add_i64(total, level.qty.raw());
            i = i + 1;
        }
        Scale9::from_raw(total)
    }

    /// Whether the levels are strictly in order for a bid side (`is_bid`) or an ask
    /// side.
    pub fn is_sorted_for(&self, is_bid: bool) -> (r: bool)
        ensures
            r == is_sorted(self@, is_bid),
    {
        proof { use_type_invariant(self); }
        let all: &[Level] = &self.levels;
        let live = &all[0..self.count];
        proof { assert(live@ =~= self@); }
        strictly_ordered(live, is_bid)
    }

    /// Rebuild a side from stored levels and their count, as read back from a
    /// serialized book. The levels must match the count, have positive quantities and
    /// strictly ascending or descending prices; at most the first `MAX_LEVELS` are
    /// kept.
    pub fn from_parts(levels: &[Level], count: usize) -> (r: Result<Side, Error>)
        ensures
            match side_parts_error(levels@, count) {
                Some(msg) => r matches Err(Error::InvalidData(m)) && m@ == msg,
                None => r matches Ok(side) && side@ == if levels@.len() > MAX_LEVELS {
                    levels@.take(MAX_LEVELS as int)
                } else {
                    levels@
                },
            },
    {
        if count != levels.len() {
            return Err(Error::InvalidData(String::from_str("side count does not match its levels")));
        }
        let mut i: usize = 0;
        while i < levels.len()
            invariant
                i <= levels@.len(),
                count == levels@.len(),
                forall|k: int| 0 <= k < i ==> #[trigger] levels@[k].qty.spec_raw() > 0,
            decreases levels@.len() - i,
        {
            if levels[i].qty.raw() <= 0 {
                proof { assert(levels@[i as int].qty.spec_raw() <= 0); }
                return Err(Error::InvalidData(String::from_str("side holds a level without a positive quantity")));
            }
            i = i + 1;
        }
        if !strictly_ordered(levels, true) && !strictly_ordered(levels, false) {
            return Err(Error::InvalidData(String::from_str("side levels are not strictly sorted")));
        }
        let n = if levels.len() > MAX_LEVELS { MAX_LEVELS } else { levels.len() };
        let none = Level { price: Scale9::zero(), qty: Scale9::zero() };
        let mut side = Side { levels: [none; MAX_LEVELS], count: 0 };
        let mut j: usize = 0;
        while j < n
            invariant
                j <= n <= MAX_LEVELS,
                n <= levels@.len(),
                side.count == j,
                side.levels@.len() == MAX_LEVELS,
                forall|k: int| 0 <= k < j ==> #[trigger] side.levels@[k] == levels@[k],
            decreases n - j,
        {
            side.levels[j] = levels[j];
            side.count = j + 1;
            j = j + 1;
        }
        proof {
            assert(side@ =~= levels@.take(n as int));
            if levels@.len() <= MAX_LEVELS {
                assert(levels@.take(n as int) =~= levels@);
            }
        }
        Ok(side)
    }

    /// Remove every level.
    pub fn clear(&mut self)
        ensures
            final(self)@ == Seq::<Level>::empty(),
    {
        self.count = 0;
        proof { assert(self@ =~= Seq::<Level>::empty()); }
    }

    /// Keep at most `n` levels, dropping the worst ones.
    pub fn truncate(&mut self, n: usize)
        ensures
            final(self)@ == if n < old(self)@.len() { old(self)@.take(n as int) } else { old(self)@ },
    {
        proof { use_type_invariant(&*self); }
        if n < self.count {
            let ghost s = self@;
            self.count = n;
            proof { assert(self@ =~= s.take(n as int)); }
        }
    }

    /// Binary search for where `price` belongs.
    fn find_insert_position(&self, price: i64, is_bid: bool) -> (r: usize)
        ensures
            r <= self@.len(),
            is_sorted(self@, is_bid) ==> r == insert_pos(self@, price, is_bid),
    {
        proof { use_type_invariant(self); }
        let ghost s = self@;
        let mut lo: usize = 0;
        let mut hi: usize = self.count;
        while lo < hi
            invariant
                lo <= hi <= self.count <= MAX_LEVELS,
                s == self@,
                s.len() == self.count,
                is_sorted(s, is_bid) ==> forall|i: int| 0 <= i < lo ==> better(#[trigger] s[i].price.spec_raw(), price, is_bid),
                is_sorted(s, is_bid) ==> forall|i: int| hi <= i < s.len() ==> !better(#[trigger] s[i].price.spec_raw(), price, is_bid),
            decreases hi - lo,
        {
            let mid = lo + (hi - lo) / 2;
            let p = self.levels[mid].price.raw();
            assert(p == s[mid as int].price.spec_raw());
            let ahead = if is_bid { p > price } else { p < price };
            if ahead {
                proof {
                    if is_sorted(s, is_bid) {
                        assert forall|i: int| 0 <= i <= mid implies better(#[trigger] s[i].price.spec_raw(), price, is_bid) by {
                            if i < mid {
                                assert(better(s[i].price.spec_raw(), s[mid as int].price.spec_raw(), is_bid));
                            }
                        }
                    }
                }
                lo = mid + 1;
            } else {
                proof {
                    if is_sorted(s, is_bid) {
                        assert forall|i: int| mid <= i < s.len() implies !better(#[trigger] s[i].price.spec_raw(), price, is_bid) by {
                            if i > mid {
                                assert(better(s[mid as int].price.spec_raw(), s[i].price.spec_raw(), is_bid));
                            }
                        }
                    }
                }
                hi = mid;
            }
        }
        proof {
            if is_sorted(s, is_bid) {
                lemma_insert_pos(s, price, is_bid, lo as int);
            }
        }
        lo
    }
}

/// The default side is empty.
impl Default for Side {
    fn default() -> (r: Side)
        ensures
            r@ == Seq::<Level>::empty(),
    {
        Side::new()
    }
}

/// Whether `levels` is strictly in order for a bid side (`is_bid`) or an ask side.
fn strictly_ordered(levels: &[Level], is_bid: bool) -> (r: bool)
    ensures
        r == is_sorted(levels@, is_bid),
{
    let ghost ls = levels@;
    let mut k: usize = 1;
    if levels.len() == 0 {
        return true;
    }
    while k < levels.len()
        invariant
            1 <= k <= levels@.len(),
            ls == levels@,
            is_sorted(ls.take(k as int), is_bid),
        decreases levels@.len() - k,
    {
        let a = levels[k - 1].price.raw();
        let b = levels[k].price.raw();
        let ahead = if is_bid { a > b } else { a < b };
        if !ahead {
            proof {
                assert(!better(ls[k - 1].price.spec_raw(), ls[k as int].price.spec_raw(), is_bid));
            }
            return false;
        }
        proof {
            let t = ls.take(k + 1);
            assert forall|i: int, j: int| 0 <= i < j < t.len() implies better(#[trigger] t[i].price.spec_raw(), #[trigger] t[j].price.spec_raw(), is_bid) by {
                if j < k {
                    assert(ls.take(k as int)[i] == t[i] && ls.take(k as int)[j] == t[j]);
                } else if i < k - 1 {
                    assert(ls.take(k as int)[i] == t[i] && ls.take(k as int)[k - 1] == t[k - 1]);
                    assert(better(t[i].price.spec_raw(), t[k - 1].price.spec_raw(), is_bid));
                }
            }
        }
        k = k + 1;
    }
    proof { assert(ls.take(k as int) =~= ls); }
    true
}

/// A complete book: identifiers, the exchange timestamp and sequence number of the
/// last update, whether a sequence gap was seen since the last snapshot, and both
/// sides.
#[derive(Clone, Copy, Debug)]
pub struct Book {
    /// Venue identifier (e.g. "binance").
    pub venue: InternedString,
    /// Instrument identifier (e.g. "BTC-USDT").
    pub inst: InternedString,
    /// Exchange timestamp in nanoseconds since the Unix epoch.
    pub ts: u64,
    /// Sequence number of the last update applied.
    pub seq: u64,
    /// A delta was refused for a sequence gap since the last snapshot.
    pub gapped: bool,
    /// Bid side, highest price first.
    pub bids: Side,
    /// Ask side, lowest price first.
    pub asks: Side,
}

/// Both best prices, when both sides have a level.
pub open spec fn best_pair(b: Book) -> Option<(Level, Level)> {
    if b.bids@.len() > 0 && b.asks@.len() > 0 {
        Some((b.bids@[0], b.asks@[0]))
    } else {
        None
    }
}

impl Book {
    /// An empty book with the given identifiers, timestamp and sequence number.
    pub fn new(venue: InternedString, inst: InternedString, ts: u64, seq: u64) -> (r: Book)
        ensures
            r.venue == venue,
            r.inst == inst,
            r.ts == ts,
            r.seq == seq,
            !r.gapped,
            r.bids@ == Seq::<Level>::empty(),
            r.asks@ == Seq::<Level>::empty(),
    {
        Book { venue, inst, ts, seq, gapped: false, bids: Side::new(), asks: Side::new() }
    }

    /// Rebuild a book from stored parts, as read back from a serialized book: the
    /// bids must descend and the asks ascend.
    pub fn from_parts(
        venue: InternedString,
        inst: InternedString,
        ts: u64,
        seq: u64,
        gapped: bool,
        bids: Side,
        asks: Side,
    ) -> (r: Result<Book, Error>)
        ensures
            match book_sides_error(bids@, asks@) {
                Some(msg) => r matches Err(Error::InvalidData(m)) && m@ == msg,
                None => r == Ok::<Book, Error>(Book { venue, inst, ts, seq, gapped, bids, asks }),
            },
    {
        if !bids.is_sorted_for(true) {
            return Err(Error::InvalidData(String::from_str("bids do not descend")));
        }
        if !asks.is_sorted_for(false) {
            return Err(Error::InvalidData(String::from_str("asks do not ascend")));
        }
        Ok(Book { venue, inst, ts, seq, gapped, bids, asks })
    }

    /// Average of the best bid and best ask, truncated toward zero; `None` if a side
    /// is empty. Computed in `i128`, so it never overflows.
    pub fn mid_price(&self) -> (r: Option<Scale9>)
        ensures
            match best_pair(*self) {
                Some((b, a)) => r matches Some(m) && m.spec_raw() == quot(b.price.spec_raw() + a.price.spec_raw(), 2),
                None => r is None,
            },
    {
        let best_bid = match self.bids.best() {
            Some(l) => l,
            None => return None,
        };
        let best_ask = match self.asks.best() {
            Some(l) => l,
            None => return None,
        };
        let sum: i128 = best_bid.price.raw() as i128 + best_ask.price.raw() as i128;
        let half: i128 = if sum >= 0 { sum / 2 } else { -((-sum) / 2) };
        Some(Scale9::from_raw(half as i64))
    }

    /// Best ask minus best bid, saturating at the `i64` bounds; `None` if a side is
    /// empty. Computed in `i128`, so it never overflows.
    pub fn spread(&self) -> (r: Option<Scale9>)
        ensures
            match best_pair(*self) {
                Some((b, a)) => r matches Some(d) && d.spec_raw() == clamp_i64(a.price.spec_raw() - b.price.spec_raw()),
                None => r is None,
            },
    {
        let best_bid = match self.bids.best() {
            Some(l) => l,
            None => return None,
        };
        let best_ask = match self.asks.best() {
            Some(l) => l,
            None => return None,
        };
        let diff: i128 = best_ask.price.raw() as i128 - best_bid.price.raw() as i128;
        if diff > i64::MAX as i128 {
            Some(Scale9::from_raw(i64::MAX))
        } else if diff < i64::MIN as i128 {
            Some(Scale9::from_raw(i64::MIN))
        } else {
            Some(Scale9::from_raw(diff as i64))
        }
    }
}

/// Whether receiving a level of this kind discarded one.
pub open spec fn loses_level(k: Insertion) -> bool {
    k == Insertion::Displaced || k == Insertion::Dropped
}

/// A side after receiving `ls` in order, as a delta delivers them.
pub open spec fn receive_all(s: Seq<Level>, ls: Seq<Level>, is_bid: bool) -> Seq<Level>
    decreases ls.len(),
{
    if ls.len() == 0 {
        s
    } else {
        receive_all(after_insert(s, ls[0], is_bid), ls.drop_first(), is_bid)
    }
}

/// Some level of `ls` is at `price`.
pub open spec fn names_price(ls: Seq<Level>, price: i64) -> bool {
    exists|i: int| 0 <= i < ls.len() && #[trigger] ls[i].price.spec_raw() == price
}

/// No price occurs twice in `ls`.
pub open spec fn distinct_prices(ls: Seq<Level>) -> bool {
    forall|i: int, j: int| 0 <= i < j < ls.len() ==> #[trigger] ls[i].price.spec_raw() != #[trigger] ls[j].price.spec_raw()
}

/// Receiving one level adds at most one level.
proof fn lemma_after_insert_grows_by_one(s: Seq<Level>, level: Level, is_bid: bool)
    ensures
        after_insert(s, level, is_bid).len() <= s.len() + 1,
{
    lemma_insert_pos_bounds(s, level.price.spec_raw(), is_bid);
}

/// A delta is applied in full. On a sorted side with room for every level of the
/// delta, and with no price named twice in the delta: every price the delta sends with
/// quantity zero is gone afterwards; every other level of the delta is there exactly
/// as sent; every level at a price the delta does not name is still there; nothing
/// else appears; and no level is lost for capacity.
pub proof fn lemma_delta_applied_in_full(s: Seq<Level>, ls: Seq<Level>, is_bid: bool)
    requires
        is_sorted(s, is_bid),
        s.len() + ls.len() <= MAX_LEVELS,
        distinct_prices(ls),
    ensures
        ({
            let r = receive_all(s, ls, is_bid);
            &&& forall|i: int, j: int|
                0 <= i < ls.len() && 0 <= j < r.len() && #[trigger] ls[i].qty.spec_raw() == 0
                    ==> #[trigger] r[j].price.spec_raw() != ls[i].price.spec_raw()
            &&& forall|i: int| 0 <= i < ls.len() && #[trigger] ls[i].qty.spec_raw() != 0 ==> r.contains(ls[i])
            &&& forall|j: int|
                0 <= j < s.len() && !names_price(ls, #[trigger] s[j].price.spec_raw()) ==> r.contains(s[j])
            &&& forall|j: int| 0 <= j < r.len() ==> s.contains(#[trigger] r[j]) || ls.contains(r[j])
            &&& losses_all(s, ls, is_bid) == 0
        }),
    decreases ls.len(),
{
    let r = receive_all(s, ls, is_bid);
    if ls.len() == 0 {
        assert forall|j: int| 0 <= j < r.len() implies s.contains(#[trigger] r[j]) || ls.contains(r[j]) by {
            assert(r[j] == s[j]);
        }
        assert forall|j: int| 0 <= j < s.len() && !names_price(ls, #[trigger] s[j].price.spec_raw()) implies r.contains(s[j]) by {
            assert(r[j] == s[j]);
        }
    } else {
        let l0 = ls[0];
        let rest = ls.drop_first();
        let s1 = after_insert(s, l0, is_bid);
        let kind = insertion_kind(s, l0, is_bid);
        lemma_after_insert_sorted(s, l0, is_bid);
        lemma_after_insert_grows_by_one(s, l0, is_bid);
        lemma_after_insert_lookup(s, l0, is_bid);
        assert(kind != Insertion::Dropped && kind != Insertion::Displaced);
        assert(distinct_prices(rest)) by {
            assert forall|i: int, j: int| 0 <= i < j < rest.len() implies #[trigger] rest[i].price.spec_raw() != #[trigger] rest[j].price.spec_raw() by {
                assert(rest[i] == ls[i + 1] && rest[j] == ls[j + 1]);
            }
        }
        lemma_delta_applied_in_full(s1, rest, is_bid);
        assert(r == receive_all(s1, rest, is_bid));
        // The first level's price is named nowhere else in the delta.
        assert(!names_price(rest, l0.price.spec_raw())) by {
            if names_price(rest, l0.price.spec_raw()) {
                let i = choose|i: int| 0 <= i < rest.len() && #[trigger] rest[i].price.spec_raw() == l0.price.spec_raw();
                assert(rest[i] == ls[i + 1]);
                assert(ls[0].price.spec_raw() != ls[i + 1].price.spec_raw());
            }
        }
        assert forall|i: int, j: int|
            0 <= i < ls.len() && 0 <= j < r.len() && #[trigger] ls[i].qty.spec_raw() == 0
                implies #[trigger] r[j].price.spec_raw() != ls[i].price.spec_raw() by {
            if i == 0 {
                if s1.contains(r[j]) {
                    let k = choose|k: int| 0 <= k < s1.len() && s1[k] == r[j];
                    assert(s1[k].price.spec_raw() != l0.price.spec_raw());
                } else {
                    assert(rest.contains(r[j]));
                    let k = choose|k: int| 0 <= k < rest.len() && rest[k] == r[j];
                    assert(rest[k].price.spec_raw() == rest[k].price.spec_raw());
                }
            } else {
                assert(rest[i - 1] == ls[i]);
                assert(rest[i - 1].qty.spec_raw() == 0);
            }
        }
        assert forall|i: int| 0 <= i < ls.len() && #[trigger] ls[i].qty.spec_raw() != 0 implies r.contains(ls[i]) by {
            if i == 0 {
                let k = choose|k: int| 0 <= k < s1.len() && #[trigger] s1[k] == l0;
                assert(!names_price(rest, s1[k].price.spec_raw()));
            } else {
                assert(rest[i - 1] == ls[i]);
                assert(rest[i - 1].qty.spec_raw() != 0);
            }
        }
        assert forall|j: int| 0 <= j < s.len() && !names_price(ls, #[trigger] s[j].price.spec_raw()) implies r.contains(s[j]) by {
            assert(ls[0].price.spec_raw() != s[j].price.spec_raw());
            assert(s1.contains(s[j]));
            let k = choose|k: int| 0 <= k < s1.len() && s1[k] == s[j];
            assert(!names_price(rest, s1[k].price.spec_raw())) by {
                if names_price(rest, s1[k].price.spec_raw()) {
                    let i = choose|i: int| 0 <= i < rest.len() && #[trigger] rest[i].price.spec_raw() == s1[k].price.spec_raw();
                    assert(rest[i] == ls[i + 1]);
                }
            }
        }
        assert forall|j: int| 0 <= j < r.len() implies s.contains(#[trigger] r[j]) || ls.contains(r[j]) by {
            if s1.contains(r[j]) {
                let k = choose|k: int| 0 <= k < s1.len() && s1[k] == r[j];
                assert(s1[k] == l0 || s.contains(s1[k]));
                if s1[k] == l0 {
                    assert(ls[0] == l0);
                }
            } else {
                let k = choose|k: int| 0 <= k < rest.len() && rest[k] == r[j];
                assert(rest[k] == ls[k + 1]);
            }
        }
    }
}

/// Levels discarded for capacity while receiving `ls` in order.
pub open spec fn losses_all(s: Seq<Level>, ls: Seq<Level>, is_bid: bool) -> nat
    decreases ls.len(),
{
    if ls.len() == 0 {
        0
    } else {
        (if loses_level(insertion_kind(s, ls[0], is_bid)) { 1nat } else { 0nat }) + losses_all(
            after_insert(s, ls[0], is_bid),
            ls.drop_first(),
            is_bid,
        )
    }
}

/// A side after receiving the levels of a snapshot: last to first, so that a
/// best-first feed appends each one, skipping levels with zero quantity.
pub open spec fn receive_snapshot(s: Seq<Level>, ls: Seq<Level>, is_bid: bool) -> Seq<Level>
    decreases ls.len(),
{
    if ls.len() == 0 {
        s
    } else {
        let l = ls.last();
        let t = if l.qty.spec_raw() == 0 { s } else { after_insert(s, l, is_bid) };
        receive_snapshot(t, ls.drop_last(), is_bid)
    }
}

/// Levels discarded for capacity while receiving a snapshot.
pub open spec fn losses_snapshot(s: Seq<Level>, ls: Seq<Level>, is_bid: bool) -> nat
    decreases ls.len(),
{
    if ls.len() == 0 {
        0
    } else {
        let l = ls.last();
        if l.qty.spec_raw() == 0 {
            losses_snapshot(s, ls.drop_last(), is_bid)
        } else {
            (if loses_level(insertion_kind(s, l, is_bid)) { 1nat } else { 0nat }) + losses_snapshot(
                after_insert(s, l, is_bid),
                ls.drop_last(),
                is_bid,
            )
        }
    }
}

/// A snapshot whose levels arrive best first, at distinct prices, with non-zero
/// quantities and within capacity is stored exactly as sent, and nothing is dropped.
pub proof fn lemma_snapshot_stored_as_sent(ls: Seq<Level>, is_bid: bool)
    requires
        is_sorted(ls, is_bid),
        ls.len() <= MAX_LEVELS,
        forall|i: int| 0 <= i < ls.len() ==> #[trigger] ls[i].qty.spec_raw() != 0,
    ensures
        receive_snapshot(Seq::empty(), ls, is_bid) == ls,
        losses_snapshot(Seq::empty(), ls, is_bid) == 0,
{
    lemma_snapshot_prepends(ls, Seq::empty(), is_bid);
    assert(ls + Seq::<Level>::empty() =~= ls);
}

/// Receiving, last to first, levels that all rank ahead of a sorted side puts them in
/// front of it.
proof fn lemma_snapshot_prepends(ls: Seq<Level>, s: Seq<Level>, is_bid: bool)
    requires
        is_sorted(ls, is_bid),
        is_sorted(s, is_bid),
        ls.len() + s.len() <= MAX_LEVELS,
        forall|i: int| 0 <= i < ls.len() ==> #[trigger] ls[i].qty.spec_raw() != 0,
        forall|i: int, j: int| 0 <= i < ls.len() && 0 <= j < s.len() ==> better(#[trigger] ls[i].price.spec_raw(), #[trigger] s[j].price.spec_raw(), is_bid),
    ensures
        receive_snapshot(s, ls, is_bid) == ls + s,
        losses_snapshot(s, ls, is_bid) == 0,
    decreases ls.len(),
{
    if ls.len() > 0 {
        let l = ls.last();
        let rest = ls.drop_last();
        assert(l.qty.spec_raw() != 0);
        if s.len() > 0 {
            assert(better(l.price.spec_raw(), s[0].price.spec_raw(), is_bid));
        }
        lemma_insert_pos(s, l.price.spec_raw(), is_bid, 0);
        let t = s.insert(0, l);
        assert(after_insert(s, l, is_bid) == t);
        assert(insertion_kind(s, l, is_bid) == Insertion::Added);
        assert forall|i: int, j: int| 0 <= i < t.len() && 0 <= j < t.len() && i < j implies better(
            #[trigger] t[i].price.spec_raw(),
            #[trigger] t[j].price.spec_raw(),
            is_bid,
        ) by {
            if i == 0 {
                assert(t[j] == s[j - 1]);
                assert(better(ls[ls.len() - 1].price.spec_raw(), s[j - 1].price.spec_raw(), is_bid));
            } else {
                assert(t[i] == s[i - 1] && t[j] == s[j - 1]);
            }
        }
        assert forall|i: int| 0 <= i < rest.len() implies #[trigger] rest[i].qty.spec_raw() != 0 by {
            assert(rest[i] == ls[i]);
        }
        assert forall|i: int, j: int| 0 <= i < rest.len() && 0 <= j < t.len() implies better(
            #[trigger] rest[i].price.spec_raw(),
            #[trigger] t[j].price.spec_raw(),
            is_bid,
        ) by {
            assert(rest[i] == ls[i]);
            if j == 0 {
                assert(better(ls[i].price.spec_raw(), ls[ls.len() - 1].price.spec_raw(), is_bid));
            } else {
                assert(t[j] == s[j - 1]);
            }
        }
        lemma_snapshot_prepends(rest, t, is_bid);
        assert(rest + t =~= ls + s);
    }
}

/// Bids sorted best (highest) first and asks best (lowest) first.
pub open spec fn book_sorted(b: Book) -> bool {
    is_sorted(b.bids@, true) && is_sorted(b.asks@, false)
}

} // verus!

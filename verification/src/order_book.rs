//! The in-memory order book: a price-indexed table of bid and ask
//! quantities with side-correct ordering.
//!
//! Each side is a vector of `(price, quantity)` pairs — both 64-bit
//! double bit patterns — kept strictly sorted by price: bids descending
//! (highest first), asks ascending (lowest first).  The mathematical
//! model of a side is the partial map from price to quantity built by
//! [`level_map`]; every operation states its effect on that map.

use vstd::prelude::*;
use core::cmp::Ordering;
use crate::models::{DepthEntry, DepthSnapshot};

verus! {

/// A price level key, keeping the two sides of the book apart so that a
/// bid price can never be confused with an ask price.
#[derive(Clone, Copy, PartialEq, Eq, Structural, Debug)]
pub enum PriceKey {
    Bid(u64),
    Ask(u64),
}

impl PriceKey {
    /// The price carried by the key, on either side.
    pub open spec fn spec_price(self) -> u64 {
        match self {
            PriceKey::Bid(price) => price,
            PriceKey::Ask(price) => price,
        }
    }

    /// Returns the underlying price regardless of side.
    pub fn price(&self) -> (r: u64)
        ensures
            r == self.spec_price(),
    {
        match self {
            PriceKey::Bid(price) => *price,
            PriceKey::Ask(price) => *price,
        }
    }
}

impl vstd::std_specs::cmp::PartialOrdSpecImpl for PriceKey {
    open spec fn obeys_partial_cmp_spec() -> bool {
        true
    }

    open spec fn partial_cmp_spec(&self, other: &Self) -> Option<Ordering> {
        match (self, other) {
            (PriceKey::Bid(a), PriceKey::Bid(b)) => if *b < *a {
                Some(Ordering::Less)
            } else if *a < *b {
                Some(Ordering::Greater)
            } else {
                Some(Ordering::Equal)
            },
            (PriceKey::Ask(a), PriceKey::Ask(b)) => if *a < *b {
                Some(Ordering::Less)
            } else if *b < *a {
                Some(Ordering::Greater)
            } else {
                Some(Ordering::Equal)
            },
            _ => None,
        }
    }
}

/// Bid keys sort descending by price (highest first), ask keys
/// ascending (lowest first), and a bid and an ask are never comparable:
/// the two sides are distinct domains.
impl PartialOrd for PriceKey {
    fn partial_cmp(&self, other: &Self) -> (r: Option<Ordering>) {
        match (self, other) {
            (PriceKey::Bid(a), PriceKey::Bid(b)) => {
                if *b < *a {
                    Some(Ordering::Less)
                } else if *a < *b {
                    Some(Ordering::Greater)
                } else {
                    Some(Ordering::Equal)
                }
            },
            (PriceKey::Ask(a), PriceKey::Ask(b)) => {
                if *a < *b {
                    Some(Ordering::Less)
                } else if *b < *a {
                    Some(Ordering::Greater)
                } else {
                    Some(Ordering::Equal)
                }
            },
            _ => None,
        }
    }
}

/// Whether price `a` sorts strictly before price `b` on a side:
/// descending when `desc` (the bid side), ascending otherwise (the ask
/// side).
pub open spec fn price_before(desc: bool, a: u64, b: u64) -> bool {
    if desc {
        a > b
    } else {
        a < b
    }
}

/// Runtime form of [`price_before`].
fn price_before_exec(desc: bool, a: u64, b: u64) -> (r: bool)
    ensures
        r == price_before(desc, a, b),
{
    if desc {
        a > b
    } else {
        a < b
    }
}

/// Whether a side's levels are strictly sorted by price: descending when
/// `desc` (the bid side), ascending otherwise (the ask side).
pub open spec fn sorted_levels(desc: bool, s: Seq<(u64, u64)>) -> bool {
    forall|i: int, j: int| 0 <= i < j < s.len() ==> price_before(desc, s[i].0, s[j].0)
}

/// Whether no price occurs twice among the levels.
pub open spec fn unique_prices(s: Seq<(u64, u64)>) -> bool {
    forall|i: int, j: int| 0 <= i < j < s.len() ==> s[i].0 != s[j].0
}

/// Whether some level carries the given price.
pub open spec fn has_price(s: Seq<(u64, u64)>, price: u64) -> bool {
    exists|i: int| 0 <= i < s.len() && s[i].0 == price
}

/// The quantity stored at the given price (meaningful when the price is
/// present and prices are unique).
pub open spec fn qty_at(s: Seq<(u64, u64)>, price: u64) -> u64 {
    s[choose|i: int| 0 <= i < s.len() && s[i].0 == price].1
}

/// The partial map from price to quantity that a side's levels denote.
pub open spec fn level_map(s: Seq<(u64, u64)>) -> Map<u64, u64> {
    Map::new(|price: u64| has_price(s, price), |price: u64| qty_at(s, price))
}

/// Looking a price up in a side's map.
pub open spec fn lookup(m: Map<u64, u64>, price: u64) -> Option<u64> {
    if m.dom().contains(price) {
        Some(m[price])
    } else {
        None
    }
}

/// Strict sorting in either direction leaves every price distinct.
proof fn lemma_sorted_unique(desc: bool, s: Seq<(u64, u64)>)
    requires
        sorted_levels(desc, s),
    ensures
        unique_prices(s),
{
    assert forall|i: int, j: int| 0 <= i < j < s.len() implies s[i].0 != s[j].0 by {
        assert(price_before(desc, s[i].0, s[j].0));
    }
}

/// When prices are unique, the level at index `i` is the one that
/// `qty_at` finds for its price.
proof fn lemma_qty_at(s: Seq<(u64, u64)>, i: int)
    requires
        unique_prices(s),
        0 <= i < s.len(),
    ensures
        has_price(s, s[i].0),
        qty_at(s, s[i].0) == s[i].1,
{
    let p = s[i].0;
    assert(has_price(s, p));
    let j = choose|j: int| 0 <= j < s.len() && s[j].0 == p;
    if i < j {
        assert(s[i].0 != s[j].0);
    } else if j < i {
        assert(s[j].0 != s[i].0);
    }
}

/// Finds the index of the level carrying `price`, if any.
fn find_level(levels: &Vec<(u64, u64)>, price: u64) -> (r: Option<usize>)
    ensures
        match r {
            Some(i) => i < levels@.len() && levels@[i as int].0 == price,
            None => !has_price(levels@, price),
        },
{
    let mut i: usize = 0;
    while i < levels.len()
        invariant
            i <= levels@.len(),
            forall|k: int| 0 <= k < i ==> levels@[k].0 != price,
        decreases levels@.len() - i,
    {
        if levels[i].0 == price {
            return Some(i);
        }
        i = i + 1;
    }
    None
}

/// Inserts or overwrites the level at `price`, keeping the side sorted.
fn upsert_level(levels: &mut Vec<(u64, u64)>, desc: bool, price: u64, qty: u64)
    requires
        sorted_levels(desc, old(levels)@),
    ensures
        sorted_levels(desc, final(levels)@),
        level_map(final(levels)@) == level_map(old(levels)@).insert(price, qty),
{
    let ghost olds = levels@;
    let mut i: usize = 0;
    while i < levels.len() && price_before_exec(desc, levels[i].0, price)
        invariant
            i <= levels@.len(),
            levels@ == olds,
            forall|k: int| 0 <= k < i ==> price_before(desc, olds[k].0, price),
        decreases levels@.len() - i,
    {
        i = i + 1;
    }
    proof {
        lemma_sorted_unique(desc, olds);
    }
    if i < levels.len() && levels[i].0 == price {
        levels.set(i, (price, qty));
        proof {
            let news = levels@;
            lemma_sorted_unique(desc, news);
            assert forall|p: u64| #[trigger] has_price(news, p) implies p == price || has_price(
                olds,
                p,
            ) by {
                let k = choose|k: int| 0 <= k < news.len() && news[k].0 == p;
                if k != i {
                    assert(olds[k].0 == p);
                }
            }
            assert forall|p: u64| #[trigger] has_price(olds, p) implies p == price || has_price(
                news,
                p,
            ) by {
                let k = choose|k: int| 0 <= k < olds.len() && olds[k].0 == p;
                if k != i {
                    assert(news[k].0 == p);
                }
            }
            assert forall|p: u64| p != price && has_price(olds, p) implies qty_at(news, p) == qty_at(
                olds,
                p,
            ) by {
                let k = choose|k: int| 0 <= k < olds.len() && olds[k].0 == p;
                lemma_qty_at(olds, k);
                lemma_qty_at(news, k);
            }
            lemma_qty_at(news, i as int);
            assert(level_map(news) =~= level_map(olds).insert(price, qty));
        }
    } else {
        levels.insert(i, (price, qty));
        proof {
            let news = levels@;
            assert forall|a: int, b: int| 0 <= a < b < news.len() implies price_before(
                desc,
                news[a].0,
                news[b].0,
            ) by {
                // Levels before the insertion point lie strictly on the near
                // side of `price`, the level the scan stopped at lies
                // strictly on the far side, and the rest were already
                // mutually sorted.
                if a < i {
                    assert(news[a] == olds[a]);
                    assert(price_before(desc, olds[a].0, price));
                }
                if b > i {
                    assert(news[b] == olds[b - 1]);
                }
                if a == i && b > i {
                    assert(i < olds.len());
                    assert(!price_before(desc, olds[i as int].0, price));
                    assert(olds[i as int].0 != price);
                    assert(price_before(desc, price, olds[i as int].0));
                    if b - 1 > i {
                        assert(price_before(desc, olds[i as int].0, olds[b - 1].0));
                    }
                }
            }
            lemma_sorted_unique(desc, news);
            lemma_sorted_unique(desc, olds);
            assert forall|p: u64| #[trigger] has_price(news, p) implies p == price || has_price(
                olds,
                p,
            ) by {
                let k = choose|k: int| 0 <= k < news.len() && news[k].0 == p;
                if k < i {
                    assert(olds[k].0 == p);
                } else if k > i {
                    assert(olds[k - 1].0 == p);
                }
            }
            assert forall|p: u64| #[trigger] has_price(olds, p) implies p == price || has_price(
                news,
                p,
            ) by {
                let k = choose|k: int| 0 <= k < olds.len() && olds[k].0 == p;
                if k < i {
                    assert(news[k].0 == p);
                } else {
                    assert(news[k + 1].0 == p);
                }
            }
            assert forall|p: u64| p != price && has_price(olds, p) implies qty_at(news, p) == qty_at(
                olds,
                p,
            ) by {
                let k = choose|k: int| 0 <= k < olds.len() && olds[k].0 == p;
                lemma_qty_at(olds, k);
                if k < i {
                    lemma_qty_at(news, k);
                } else {
                    lemma_qty_at(news, k + 1);
                }
            }
            lemma_qty_at(news, i as int);
            assert(level_map(news) =~= level_map(olds).insert(price, qty));
        }
    }
}

/// Removes the level at `price` if it is present; a no-op otherwise.
fn remove_level(levels: &mut Vec<(u64, u64)>, desc: bool, price: u64)
    requires
        sorted_levels(desc, old(levels)@),
    ensures
        sorted_levels(desc, final(levels)@),
        level_map(final(levels)@) == level_map(old(levels)@).remove(price),
{
    let ghost olds = levels@;
    proof {
        lemma_sorted_unique(desc, olds);
    }
    match find_level(levels, price) {
        Some(i) => {
            levels.remove(i);
            proof {
                let news = levels@;
                assert forall|a: int, b: int| 0 <= a < b < news.len() implies price_before(
                    desc,
                    news[a].0,
                    news[b].0,
                ) by {
                    if a < i && b >= i {
                        assert(news[a] == olds[a]);
                        assert(news[b] == olds[b + 1]);
                    }
                }
                lemma_sorted_unique(desc, news);
                assert forall|p: u64| #[trigger] has_price(news, p) implies p != price
                    && has_price(olds, p) by {
                    let k = choose|k: int| 0 <= k < news.len() && news[k].0 == p;
                    if k < i {
                        assert(olds[k].0 == p);
                    } else {
                        assert(olds[k + 1].0 == p);
                    }
                }
                assert forall|p: u64| p != price && has_price(olds, p) implies has_price(news, p)
                    && qty_at(news, p) == qty_at(olds, p) by {
                    let k = choose|k: int| 0 <= k < olds.len() && olds[k].0 == p;
                    lemma_qty_at(olds, k);
                    if k < i {
                        lemma_qty_at(news, k);
                    } else {
                        lemma_qty_at(news, k - 1);
                    }
                }
                assert(level_map(news) =~= level_map(olds).remove(price));
            }
        },
        None => {
            proof {
                assert(level_map(levels@) =~= level_map(olds).remove(price));
            }
        },
    }
}

/// The map a side denotes after inserting every entry of a snapshot in
/// turn, verbatim — a snapshot is trusted as literal state, so even a
/// zero quantity is stored as-is.  A later entry for the same price wins.
pub open spec fn insert_entries(m: Map<u64, u64>, es: Seq<DepthEntry>) -> Map<u64, u64>
    decreases es.len(),
{
    if es.len() == 0 {
        m
    } else {
        insert_entries(m.insert(es[0].price, es[0].quantity), es.drop_first())
    }
}

/// The effect of one update delta on a side's map: quantity bits 0
/// delete the level, anything else inserts or overwrites it.
pub open spec fn apply_entry(m: Map<u64, u64>, e: DepthEntry) -> Map<u64, u64> {
    if e.quantity == 0 {
        m.remove(e.price)
    } else {
        m.insert(e.price, e.quantity)
    }
}

/// The map a side denotes after applying every delta of an update in turn.
pub open spec fn apply_entries(m: Map<u64, u64>, es: Seq<DepthEntry>) -> Map<u64, u64>
    decreases es.len(),
{
    if es.len() == 0 {
        m
    } else {
        apply_entries(apply_entry(m, es[0]), es.drop_first())
    }
}

/// Folding one more entry from the right.
pub proof fn lemma_insert_entries_push(m: Map<u64, u64>, es: Seq<DepthEntry>, e: DepthEntry)
    ensures
        insert_entries(m, es.push(e)) == insert_entries(m, es).insert(e.price, e.quantity),
    decreases es.len(),
{
    if es.len() == 0 {
        assert(es.push(e)[0] == e);
        assert(es.push(e).drop_first() =~= Seq::<DepthEntry>::empty());
        assert(insert_entries(m.insert(e.price, e.quantity), es.push(e).drop_first())
            == m.insert(e.price, e.quantity));
        assert(insert_entries(m, es.push(e)) == m.insert(e.price, e.quantity));
    } else {
        let m1 = m.insert(es[0].price, es[0].quantity);
        assert(es.push(e)[0] == es[0]);
        assert(es.push(e).drop_first() =~= es.drop_first().push(e));
        lemma_insert_entries_push(m1, es.drop_first(), e);
        assert(insert_entries(m, es.push(e)) == insert_entries(m1, es.drop_first().push(e)));
        assert(insert_entries(m, es) == insert_entries(m1, es.drop_first()));
    }
}

/// Applying one more delta from the right.
pub proof fn lemma_apply_entries_push(m: Map<u64, u64>, es: Seq<DepthEntry>, e: DepthEntry)
    ensures
        apply_entries(m, es.push(e)) == apply_entry(apply_entries(m, es), e),
    decreases es.len(),
{
    if es.len() == 0 {
        assert(es.push(e)[0] == e);
        assert(es.push(e).drop_first() =~= Seq::<DepthEntry>::empty());
        assert(apply_entries(apply_entry(m, e), es.push(e).drop_first()) == apply_entry(m, e));
        assert(apply_entries(m, es.push(e)) == apply_entry(m, e));
    } else {
        let m1 = apply_entry(m, es[0]);
        assert(es.push(e)[0] == es[0]);
        assert(es.push(e).drop_first() =~= es.drop_first().push(e));
        lemma_apply_entries_push(m1, es.drop_first(), e);
        assert(apply_entries(m, es.push(e)) == apply_entries(m1, es.drop_first().push(e)));
        assert(apply_entries(m, es) == apply_entries(m1, es.drop_first()));
    }
}

/// Whether every quantity stored in a side's map is non-zero.
pub open spec fn all_positive(m: Map<u64, u64>) -> bool {
    forall|p: u64| m.dom().contains(p) ==> m[p] != 0
}

/// A snapshot whose entries all carry non-zero quantities builds a side
/// with only non-zero quantities.
pub proof fn lemma_insert_entries_positive(m: Map<u64, u64>, es: Seq<DepthEntry>)
    requires
        all_positive(m),
        forall|i: int| 0 <= i < es.len() ==> es[i].quantity != 0,
    ensures
        all_positive(insert_entries(m, es)),
    decreases es.len(),
{
    if es.len() > 0 {
        lemma_insert_entries_positive(m.insert(es[0].price, es[0].quantity), es.drop_first());
    }
}

/// Update deltas can never introduce a zero quantity: a zero delta
/// deletes its level, and any other delta stores its non-zero quantity.
pub proof fn lemma_apply_entries_positive(m: Map<u64, u64>, es: Seq<DepthEntry>)
    requires
        all_positive(m),
    ensures
        all_positive(apply_entries(m, es)),
    decreases es.len(),
{
    if es.len() > 0 {
        lemma_apply_entries_positive(apply_entry(m, es[0]), es.drop_first());
    }
}

/// Dropping the first level removes exactly its price from the map.
proof fn lemma_level_map_drop_first(s: Seq<(u64, u64)>)
    requires
        unique_prices(s),
        s.len() > 0,
    ensures
        level_map(s.drop_first()) == level_map(s).remove(s[0].0),
{
    let rest = s.drop_first();
    assert forall|p: u64| #[trigger] has_price(rest, p) implies p != s[0].0 && has_price(
        s,
        p,
    ) by {
        let k = choose|k: int| 0 <= k < rest.len() && rest[k].0 == p;
        assert(s[k + 1].0 == p);
    }
    assert forall|p: u64| p != s[0].0 && has_price(s, p) implies has_price(rest, p) && qty_at(
        rest,
        p,
    ) == qty_at(s, p) by {
        let k = choose|k: int| 0 <= k < s.len() && s[k].0 == p;
        assert(rest[k - 1].0 == p);
        lemma_qty_at(s, k);
        lemma_qty_at(rest, k - 1);
    }
    assert(level_map(s.drop_first()) =~= level_map(s).remove(s[0].0));
}

/// A side is determined by its map: two sides sorted the same way that
/// denote the same map hold exactly the same levels, in the same
/// order.  So a contract that fixes a side's map, together with the
/// book's invariant, fixes the stored vector itself.
pub proof fn lemma_sorted_levels_determined(desc: bool, s1: Seq<(u64, u64)>, s2: Seq<(u64, u64)>)
    requires
        sorted_levels(desc, s1),
        sorted_levels(desc, s2),
        level_map(s1) == level_map(s2),
    ensures
        s1 == s2,
    decreases s1.len(),
{
    lemma_sorted_unique(desc, s1);
    lemma_sorted_unique(desc, s2);
    if s1.len() == 0 {
        if s2.len() > 0 {
            assert(level_map(s2).dom().contains(s2[0].0));
            assert(has_price(s1, s2[0].0));
        }
        assert(s1 =~= s2);
    } else if s2.len() == 0 {
        assert(level_map(s1).dom().contains(s1[0].0));
        assert(has_price(s2, s1[0].0));
        assert(s1 =~= s2);
    } else {
        // The first level of each side carries the extreme price of the
        // shared domain, so the two heads agree.
        lemma_qty_at(s1, 0);
        lemma_qty_at(s2, 0);
        assert(level_map(s1).dom().contains(s1[0].0));
        assert(level_map(s2).dom().contains(s2[0].0));
        assert(has_price(s1, s2[0].0));
        let k1 = choose|k: int| 0 <= k < s1.len() && s1[k].0 == s2[0].0;
        if k1 > 0 {
            assert(price_before(desc, s1[0].0, s1[k1].0));
        }
        assert(has_price(s2, s1[0].0));
        let k2 = choose|k: int| 0 <= k < s2.len() && s2[k].0 == s1[0].0;
        if k2 > 0 {
            assert(price_before(desc, s2[0].0, s2[k2].0));
        }
        assert(s1[0].0 == s2[0].0);
        assert(level_map(s1)[s1[0].0] == qty_at(s1, s1[0].0));
        assert(level_map(s2)[s1[0].0] == qty_at(s2, s1[0].0));
        assert(s1[0].1 == s2[0].1);
        assert(s1[0] == s2[0]);
        lemma_level_map_drop_first(s1);
        lemma_level_map_drop_first(s2);
        lemma_sorted_levels_determined(desc, s1.drop_first(), s2.drop_first());
        assert(s1.len() == s2.len());
        assert forall|i: int| 0 <= i < s1.len() implies s1[i] == s2[i] by {
            if i > 0 {
                assert(s1.drop_first()[i - 1] == s1[i]);
                assert(s2.drop_first()[i - 1] == s2[i]);
            }
        }
        assert(s1 =~= s2);
    }
}

/// The order book: resting bid and ask quantities, indexed by price.
///
/// The two sides are separate containers, so a bid key can never appear
/// among the asks nor the other way round.  `bids` is strictly
/// descending by price, `asks` strictly ascending.
#[derive(Debug)]
pub struct OrderBook {
    pub bids: Vec<(u64, u64)>,
    pub asks: Vec<(u64, u64)>,
}

/// An element-wise copy of a side's levels.
fn copy_levels(levels: &Vec<(u64, u64)>) -> (r: Vec<(u64, u64)>)
    ensures
        r@ == levels@,
{
    let mut r: Vec<(u64, u64)> = Vec::new();
    let mut i: usize = 0;
    while i < levels.len()
        invariant
            i <= levels@.len(),
            r@ == levels@.take(i as int),
        decreases levels@.len() - i,
    {
        r.push(levels[i]);
        proof {
            assert(levels@.take(i + 1) =~= levels@.take(i as int).push(levels@[i as int]));
        }
        i = i + 1;
    }
    proof {
        assert(levels@.take(levels@.len() as int) =~= levels@);
    }
    r
}

impl Clone for OrderBook {
    /// An independent copy holding exactly the same levels, so that an
    /// emitted state never aliases the live book.
    fn clone(&self) -> (r: Self)
        ensures
            r.bids@ == self.bids@,
            r.asks@ == self.asks@,
    {
        OrderBook { bids: copy_levels(&self.bids), asks: copy_levels(&self.asks) }
    }
}

impl OrderBook {
    /// Both sides sorted their own way; this is the book's invariant.
    pub open spec fn wf(&self) -> bool {
        &&& sorted_levels(true, self.bids@)
        &&& sorted_levels(false, self.asks@)
    }

    /// The map the bid side denotes.
    pub open spec fn bids_map(&self) -> Map<u64, u64> {
        level_map(self.bids@)
    }

    /// The map the ask side denotes.
    pub open spec fn asks_map(&self) -> Map<u64, u64> {
        level_map(self.asks@)
    }

    /// Builds a book holding exactly the snapshot's entries, replacing
    /// nothing because there is nothing yet: each side is the fold of
    /// the snapshot's list for that side over the empty map.
    pub fn new(snapshot: &DepthSnapshot) -> (r: OrderBook)
        ensures
            r.wf(),
            r.bids_map() == insert_entries(Map::empty(), snapshot.bids@),
            r.asks_map() == insert_entries(Map::empty(), snapshot.asks@),
    {
        let mut bids: Vec<(u64, u64)> = Vec::new();
        let mut asks: Vec<(u64, u64)> = Vec::new();
        proof {
            assert(level_map(bids@) =~= Map::<u64, u64>::empty());
            assert(snapshot.bids@.take(0) =~= Seq::<DepthEntry>::empty());
            assert(snapshot.asks@.take(0) =~= Seq::<DepthEntry>::empty());
        }
        let mut i: usize = 0;
        while i < snapshot.bids.len()
            invariant
                i <= snapshot.bids@.len(),
                sorted_levels(true, bids@),
                level_map(bids@) == insert_entries(Map::empty(), snapshot.bids@.take(i as int)),
            decreases snapshot.bids@.len() - i,
        {
            let e = snapshot.bids[i];
            upsert_level(&mut bids, true, e.price, e.quantity);
            proof {
                assert(snapshot.bids@.take(i + 1) =~= snapshot.bids@.take(i as int).push(e));
                lemma_insert_entries_push(Map::empty(), snapshot.bids@.take(i as int), e);
            }
            i = i + 1;
        }
        proof {
            assert(snapshot.bids@.take(snapshot.bids@.len() as int) =~= snapshot.bids@);
        }
        let mut j: usize = 0;
        while j < snapshot.asks.len()
            invariant
                j <= snapshot.asks@.len(),
                sorted_levels(false, asks@),
                level_map(asks@) == insert_entries(Map::empty(), snapshot.asks@.take(j as int)),
            decreases snapshot.asks@.len() - j,
        {
            let e = snapshot.asks[j];
            upsert_level(&mut asks, false, e.price, e.quantity);
            proof {
                assert(snapshot.asks@.take(j + 1) =~= snapshot.asks@.take(j as int).push(e));
                lemma_insert_entries_push(Map::empty(), snapshot.asks@.take(j as int), e);
            }
            j = j + 1;
        }
        proof {
            assert(snapshot.asks@.take(snapshot.asks@.len() as int) =~= snapshot.asks@);
        }
        OrderBook { bids, asks }
    }

    /// Applies one delta to the addressed side: quantity bits 0 remove
    /// the level (a no-op when absent), anything else inserts or
    /// overwrites it.  The other side is untouched.
    pub fn apply_update(&mut self, price_key: PriceKey, quantity: u64)
        requires
            old(self).wf(),
        ensures
            final(self).wf(),
            price_key is Bid ==> {
                &&& final(self).bids_map() == apply_entry(
                    old(self).bids_map(),
                    DepthEntry { price: price_key.spec_price(), quantity },
                )
                &&& final(self).asks@ == old(self).asks@
            },
            price_key is Ask ==> {
                &&& final(self).asks_map() == apply_entry(
                    old(self).asks_map(),
                    DepthEntry { price: price_key.spec_price(), quantity },
                )
                &&& final(self).bids@ == old(self).bids@
            },
    {
        match price_key {
            PriceKey::Bid(price) => {
                if quantity == 0 {
                    remove_level(&mut self.bids, true, price);
                } else {
                    upsert_level(&mut self.bids, true, price, quantity);
                }
            },
            PriceKey::Ask(price) => {
                if quantity == 0 {
                    remove_level(&mut self.asks, false, price);
                } else {
                    upsert_level(&mut self.asks, false, price, quantity);
                }
            },
        }
    }

    /// The quantity resting at a key's price on the key's side, if any.
    pub fn get(&self, price_key: PriceKey) -> (r: Option<u64>)
        requires
            self.wf(),
        ensures
            price_key is Bid ==> r == lookup(self.bids_map(), price_key.spec_price()),
            price_key is Ask ==> r == lookup(self.asks_map(), price_key.spec_price()),
    {
        let (levels, price): (&Vec<(u64, u64)>, u64) = match price_key {
            PriceKey::Bid(price) => (&self.bids, price),
            PriceKey::Ask(price) => (&self.asks, price),
        };
        proof {
            lemma_sorted_unique(price_key is Bid, levels@);
        }
        match find_level(levels, price) {
            Some(i) => {
                proof {
                    lemma_qty_at(levels@, i as int);
                }
                Some(levels[i].1)
            },
            None => None,
        }
    }

    /// Makes a bid key for the given price bits.
    pub fn bid(price: u64) -> (r: PriceKey)
        ensures
            r == PriceKey::Bid(price),
    {
        PriceKey::Bid(price)
    }

    /// Makes an ask key for the given price bits.
    pub fn ask(price: u64) -> (r: PriceKey)
        ensures
            r == PriceKey::Ask(price),
    {
        PriceKey::Ask(price)
    }
}

} // verus!

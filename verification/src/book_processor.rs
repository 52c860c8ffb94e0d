//! The book processor: a state machine that applies validated snapshots
//! and updates to an [`OrderBook`] and hands out one frozen copy of the
//! book per input event.
//!
//! Before the first snapshot the processor holds no book; an update in
//! that state is a contract violation by the stage upstream, which is
//! why [`BookProcessor::process_update`] requires an initialized
//! processor — the caller must treat the violation as fatal.

use vstd::prelude::*;
use vstd::pervasive::unreached;
use crate::models::{DepthSnapshot, DepthUpdate, MarketEvent};
use crate::order_book::{
    OrderBook, all_positive, apply_entries, insert_entries, lemma_apply_entries_positive,
    lemma_apply_entries_push, lemma_insert_entries_positive,
};

verus! {

/// The pair of side maps a processor holds once initialized: bids first,
/// asks second.  `None` stands for the uninitialized state.
pub type BookMaps = Option<(Map<u64, u64>, Map<u64, u64>)>;

/// How one input event moves the processor's book maps forward: a
/// snapshot replaces the book outright, an update folds its deltas into
/// the sides (an update before any snapshot is a contract violation and
/// is given no meaning here), and any other event leaves the book alone.
pub open spec fn step_book(cur: BookMaps, event: MarketEvent) -> BookMaps {
    match event {
        MarketEvent::DepthSnapshot(s) => Some(
            (
                insert_entries(Map::empty(), s.bids@),
                insert_entries(Map::empty(), s.asks@),
            ),
        ),
        MarketEvent::DepthUpdate(u) => match cur {
            Some(maps) => Some((apply_entries(maps.0, u.bids@), apply_entries(maps.1, u.asks@))),
            None => None,
        },
        _ => cur,
    }
}

/// The book maps after a whole sequence of input events, starting
/// uninitialized.
pub open spec fn book_maps_after(events: Seq<MarketEvent>) -> BookMaps
    decreases events.len(),
{
    if events.len() == 0 {
        None
    } else {
        step_book(book_maps_after(events.drop_last()), events.last())
    }
}

/// Whether an event's snapshot entries, if it is a snapshot, all carry
/// non-zero quantities.
pub open spec fn snapshot_entries_positive(event: MarketEvent) -> bool {
    event matches MarketEvent::DepthSnapshot(s) ==> {
        &&& forall|i: int| 0 <= i < s.bids@.len() ==> s.bids@[i].quantity != 0
        &&& forall|i: int| 0 <= i < s.asks@.len() ==> s.asks@[i].quantity != 0
    }
}

/// Every state the processor can reach carries only non-zero
/// quantities, as long as each snapshot it was fed does.  Updates need
/// no such condition: a zero-quantity delta deletes its level instead
/// of storing the zero.  (Bid and ask keys cannot mix: the two sides of
/// an [`OrderBook`] are separate containers, and every operation leaves
/// the side it does not address untouched.)
pub proof fn lemma_emitted_states_positive(events: Seq<MarketEvent>)
    requires
        forall|i: int| 0 <= i < events.len() ==> snapshot_entries_positive(#[trigger] events[i]),
    ensures
        book_maps_after(events) matches Some(maps) ==> all_positive(maps.0) && all_positive(
            maps.1,
        ),
    decreases events.len(),
{
    if events.len() > 0 {
        let prefix = events.drop_last();
        assert(forall|i: int|
            0 <= i < prefix.len() ==> snapshot_entries_positive(#[trigger] prefix[i]));
        lemma_emitted_states_positive(prefix);
        let cur = book_maps_after(prefix);
        match events.last() {
            MarketEvent::DepthSnapshot(s) => {
                assert(snapshot_entries_positive(events[events.len() - 1]));
                lemma_insert_entries_positive(Map::empty(), s.bids@);
                lemma_insert_entries_positive(Map::empty(), s.asks@);
            },
            MarketEvent::DepthUpdate(u) => {
                if cur is Some {
                    let maps = cur.unwrap();
                    lemma_apply_entries_positive(maps.0, u.bids@);
                    lemma_apply_entries_positive(maps.1, u.asks@);
                }
            },
            _ => {},
        }
    }
}

/// Once a chained stream has begun, the processor stays initialized.
proof fn lemma_chained_prefix_initializes(out: Seq<MarketEvent>, i: int)
    requires
        crate::depth_event_dispatcher::well_chained(out),
        0 < i <= out.len(),
    ensures
        book_maps_after(out.take(i)) is Some,
    decreases i,
{
    assert(out.take(i).drop_last() =~= out.take(i - 1));
    assert(out.take(i).last() == out[i - 1]);
    if i > 1 {
        lemma_chained_prefix_initializes(out, i - 1);
    }
}

/// What leaves the dispatcher is safe to feed the processor: a chained
/// stream opens with a snapshot, so by the time any update arrives the
/// processor holds a book, and the fatal update-before-snapshot path
/// can only be reached by wiring the processor to an unfiltered
/// source.
pub proof fn lemma_chained_stream_feeds_processor(out: Seq<MarketEvent>)
    requires
        crate::depth_event_dispatcher::well_chained(out),
    ensures
        forall|i: int|
            0 <= i < out.len() && out[i] is DepthUpdate ==> book_maps_after(
                out.take(i),
            ) is Some,
{
    assert forall|i: int|
        0 <= i < out.len() && out[i] is DepthUpdate implies book_maps_after(
        out.take(i),
    ) is Some by {
        lemma_chained_prefix_initializes(out, i);
    }
}

/// Applies validated snapshots and updates to an order book, emitting
/// one frozen copy of the book per input event.
pub struct BookProcessor {
    order_book: Option<OrderBook>,
}

impl BookProcessor {
    /// The book currently held, if any.
    pub closed spec fn spec_book(&self) -> Option<OrderBook> {
        self.order_book
    }

    /// Whether a snapshot has been seen yet.
    pub open spec fn initialized(&self) -> bool {
        self.spec_book() is Some
    }

    /// The held book, once initialized, keeps its sides sorted.
    pub open spec fn wf(&self) -> bool {
        self.spec_book() matches Some(b) ==> b.wf()
    }

    /// The side maps the held book denotes, in [`step_book`]'s terms.
    pub open spec fn spec_maps(&self) -> BookMaps {
        match self.spec_book() {
            Some(b) => Some((b.bids_map(), b.asks_map())),
            None => None,
        }
    }

    /// Whether a snapshot has been seen yet, at runtime — the caller's
    /// means of testing [`BookProcessor::process_update`]'s
    /// precondition before treating a violation as fatal.
    pub fn is_initialized(&self) -> (r: bool)
        ensures
            r == self.initialized(),
    {
        self.order_book.is_some()
    }

    /// A processor that has not yet seen a snapshot.
    pub fn new() -> (r: Self)
        ensures
            !r.initialized(),
            r.wf(),
    {
        BookProcessor { order_book: None }
    }

    /// Replaces the book entirely with one built from the snapshot —
    /// initialization and resync are the same act.
    pub fn process_snapshot(&mut self, snapshot: DepthSnapshot)
        ensures
            final(self).wf(),
            final(self).initialized(),
            final(self).spec_maps() == step_book(
                old(self).spec_maps(),
                MarketEvent::DepthSnapshot(snapshot),
            ),
    {
        self.order_book = Some(OrderBook::new(&snapshot));
    }

    /// Folds every bid delta, then every ask delta, into the book.
    pub fn process_update(&mut self, update: DepthUpdate)
        requires
            old(self).initialized(),
            old(self).wf(),
        ensures
            final(self).wf(),
            final(self).initialized(),
            final(self).spec_maps() == step_book(
                old(self).spec_maps(),
                MarketEvent::DepthUpdate(update),
            ),
    {
        let ghost bids0 = self.spec_book().unwrap().bids_map();
        let ghost asks0 = self.spec_book().unwrap().asks_map();
        let mut book = self.order_book.take().unwrap();
        let mut i: usize = 0;
        proof {
            assert(update.bids@.take(0) =~= Seq::<crate::models::DepthEntry>::empty());
        }
        while i < update.bids.len()
            invariant
                i <= update.bids@.len(),
                book.wf(),
                book.bids_map() == apply_entries(bids0, update.bids@.take(i as int)),
                book.asks_map() == asks0,
            decreases update.bids@.len() - i,
        {
            let e = update.bids[i];
            book.apply_update(OrderBook::bid(e.price), e.quantity);
            proof {
                assert(update.bids@.take(i + 1) =~= update.bids@.take(i as int).push(e));
                lemma_apply_entries_push(bids0, update.bids@.take(i as int), e);
            }
            i = i + 1;
        }
        proof {
            assert(update.bids@.take(update.bids@.len() as int) =~= update.bids@);
            assert(update.asks@.take(0) =~= Seq::<crate::models::DepthEntry>::empty());
        }
        let mut j: usize = 0;
        while j < update.asks.len()
            invariant
                j <= update.asks@.len(),
                book.wf(),
                book.bids_map() == apply_entries(bids0, update.bids@),
                book.asks_map() == apply_entries(asks0, update.asks@.take(j as int)),
            decreases update.asks@.len() - j,
        {
            let e = update.asks[j];
            book.apply_update(OrderBook::ask(e.price), e.quantity);
            proof {
                assert(update.asks@.take(j + 1) =~= update.asks@.take(j as int).push(e));
                lemma_apply_entries_push(asks0, update.asks@.take(j as int), e);
            }
            j = j + 1;
        }
        proof {
            assert(update.asks@.take(update.asks@.len() as int) =~= update.asks@);
        }
        self.order_book = Some(book);
    }

    /// A frozen, independent copy of the current book.
    pub fn current_state(&self) -> (r: OrderBook)
        requires
            self.initialized(),
        ensures
            self.spec_book() matches Some(b) && r.bids@ == b.bids@ && r.asks@ == b.asks@,
    {
        match &self.order_book {
            Some(book) => book.clone(),
            None => unreached(),
        }
    }

    /// Feeds one event through the state machine.  Exactly one state is
    /// emitted per depth event — snapshot or update — and none for any
    /// other event kind, which the caller logs and discards.
    pub fn process_event(&mut self, event: MarketEvent) -> (emitted: Option<OrderBook>)
        requires
            old(self).wf(),
            event is DepthUpdate ==> old(self).initialized(),
        ensures
            final(self).wf(),
            final(self).spec_maps() == step_book(old(self).spec_maps(), event),
            emitted is Some <==> event.is_depth(),
            emitted matches Some(b) ==> final(self).spec_book() matches Some(bk) && b.bids@
                == bk.bids@ && b.asks@ == bk.asks@,
            !event.is_depth() ==> *final(self) == *old(self),
    {
        match event {
            MarketEvent::DepthSnapshot(snapshot) => {
                self.process_snapshot(snapshot);
                Some(self.current_state())
            },
            MarketEvent::DepthUpdate(update) => {
                self.process_update(update);
                Some(self.current_state())
            },
            _ => None,
        }
    }
}

} // verus!

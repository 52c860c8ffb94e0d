//! The depth event dispatcher: the stage that turns several unordered,
//! overlapping, lossy depth streams plus periodic snapshots into one
//! gap-free, strictly ordered stream.
//!
//! It buffers updates by their last sequence number (overwriting
//! duplicates), gates them against the newest snapshot, and forwards an
//! update only when it continues the sequence: with `L` the last
//! processed id, an update covering `U ..= u` goes out exactly when
//! `U <= L + 1` and `L + 1 < u`.  Note that the bound on the right is
//! strict: an update with `u == L + 1` is never accepted and waits in
//! the buffer until a fresh snapshot passes it.

use vstd::prelude::*;
use crate::models::{DepthSnapshot, DepthUpdate, MarketEvent};

verus! {

/// Whether a buffer is strictly ascending by last update id — at most
/// one entry per `u`.
pub open spec fn sorted_by_u(s: Seq<DepthUpdate>) -> bool {
    forall|i: int, j: int|
        0 <= i < j < s.len() ==> s[i].last_update_id < s[j].last_update_id
}

/// The buffer after filing one update under its last update id: it goes
/// to its sorted place, replacing any entry already covering the same
/// `u`.
pub open spec fn buffer_insert(s: Seq<DepthUpdate>, update: DepthUpdate) -> Seq<DepthUpdate>
    decreases s.len(),
{
    if s.len() == 0 {
        seq![update]
    } else if s[0].last_update_id < update.last_update_id {
        seq![s[0]] + buffer_insert(s.drop_first(), update)
    } else if s[0].last_update_id == update.last_update_id {
        seq![update] + s.drop_first()
    } else {
        seq![update] + s
    }
}

/// On a sorted buffer, [`buffer_insert`] either overwrites in place or
/// inserts at the scan's stopping point.
proof fn lemma_buffer_insert_split(s: Seq<DepthUpdate>, update: DepthUpdate, i: int)
    requires
        sorted_by_u(s),
        0 <= i <= s.len(),
        forall|k: int| 0 <= k < i ==> s[k].last_update_id < update.last_update_id,
        i < s.len() ==> s[i].last_update_id >= update.last_update_id,
    ensures
        i < s.len() && s[i].last_update_id == update.last_update_id ==> buffer_insert(s, update)
            == s.update(i, update),
        (i == s.len() || s[i].last_update_id > update.last_update_id) ==> buffer_insert(s, update)
            == s.insert(i, update),
    decreases s.len(),
{
    if i == 0 {
        if s.len() == 0 {
            assert(buffer_insert(s, update) =~= s.insert(0, update));
        } else if s[0].last_update_id == update.last_update_id {
            assert(seq![update] + s.drop_first() =~= s.update(0, update));
        } else {
            assert(seq![update] + s =~= s.insert(0, update));
        }
    } else {
        let rest = s.drop_first();
        lemma_buffer_insert_split(rest, update, i - 1);
        if i < s.len() && s[i].last_update_id == update.last_update_id {
            assert(rest[i - 1] == s[i]);
            assert(seq![s[0]] + rest.update(i - 1, update) =~= s.update(i, update));
        } else {
            assert(seq![s[0]] + rest.insert(i - 1, update) =~= s.insert(i, update));
        }
    }
}

/// Filing an update keeps the buffer sorted.
proof fn lemma_buffer_insert_sorted(s: Seq<DepthUpdate>, update: DepthUpdate)
    requires
        sorted_by_u(s),
    ensures
        sorted_by_u(buffer_insert(s, update)),
    decreases s.len(),
{
    if s.len() == 0 {
    } else if s[0].last_update_id < update.last_update_id {
        lemma_buffer_insert_sorted(s.drop_first(), update);
        let r = seq![s[0]] + buffer_insert(s.drop_first(), update);
        // every entry of the recursive result is either `update` or an
        // entry of the tail, so each exceeds `s[0]`'s id
        assert forall|a: int, b: int| 0 <= a < b < r.len() implies r[a].last_update_id
            < r[b].last_update_id by {
            if a == 0 {
                lemma_buffer_insert_members(s.drop_first(), update, b - 1);
            }
        }
    } else if s[0].last_update_id == update.last_update_id {
    } else {
    }
}

/// Every entry of an inserted buffer is the new update or one of the
/// old entries.
proof fn lemma_buffer_insert_members(s: Seq<DepthUpdate>, update: DepthUpdate, k: int)
    requires
        0 <= k < buffer_insert(s, update).len(),
    ensures
        buffer_insert(s, update)[k] == update || exists|j: int|
            0 <= j < s.len() && buffer_insert(s, update)[k] == s[j],
    decreases s.len(),
{
    if s.len() == 0 {
    } else if s[0].last_update_id < update.last_update_id {
        if k > 0 {
            lemma_buffer_insert_members(s.drop_first(), update, k - 1);
            let r = buffer_insert(s.drop_first(), update);
            if r[k - 1] != update {
                let j = choose|j: int| 0 <= j < s.drop_first().len() && r[k - 1] == s.drop_first()[j];
                assert(buffer_insert(s, update)[k] == s[j + 1]);
            }
        }
    } else if s[0].last_update_id == update.last_update_id {
        if k > 0 {
            assert(buffer_insert(s, update)[k] == s[k]);
        }
    } else {
        if k > 0 {
            assert(buffer_insert(s, update)[k] == s[k - 1]);
        }
    }
}

/// Reorders, deduplicates and gates depth events so that what leaves is
/// a single strictly sequenced stream.
pub struct DepthEventDispatcher {
    last_processed_update_id: Option<u64>,
    buffer: Vec<DepthUpdate>,
}

impl DepthEventDispatcher {
    /// The highest sequence number consumed so far, if any.
    pub closed spec fn last_id(&self) -> Option<u64> {
        self.last_processed_update_id
    }

    /// The pending updates, ascending by last update id.
    pub closed spec fn buffered(&self) -> Seq<DepthUpdate> {
        self.buffer@
    }

    /// The buffer is kept sorted with at most one entry per `u`.
    pub open spec fn wf(&self) -> bool {
        sorted_by_u(self.buffered())
    }

    /// A dispatcher that has seen nothing yet.
    pub fn new() -> (r: Self)
        ensures
            r.wf(),
            r.last_id() is None,
            r.buffered() == Seq::<DepthUpdate>::empty(),
    {
        DepthEventDispatcher { last_processed_update_id: None, buffer: Vec::new() }
    }

    /// Files an update in the buffer under its last update id,
    /// overwriting any entry with the same id.  Nothing is forwarded
    /// here; draining is a separate step.
    pub fn process_update(&mut self, update: DepthUpdate)
        requires
            old(self).wf(),
        ensures
            final(self).wf(),
            final(self).last_id() == old(self).last_id(),
            final(self).buffered() == buffer_insert(old(self).buffered(), update),
    {
        proof {
            lemma_buffer_insert_sorted(self.buffer@, update);
        }
        let u = update.last_update_id;
        let mut i: usize = 0;
        while i < self.buffer.len() && self.buffer[i].last_update_id < u
            invariant
                i <= self.buffer@.len(),
                forall|k: int| 0 <= k < i ==> self.buffer@[k].last_update_id < u,
                self.buffer@ == old(self).buffered(),
            decreases self.buffer@.len() - i,
        {
            i = i + 1;
        }
        proof {
            lemma_buffer_insert_split(self.buffer@, update, i as int);
        }
        if i < self.buffer.len() && self.buffer[i].last_update_id == u {
            self.buffer.set(i, update);
        } else {
            self.buffer.insert(i, update);
        }
    }

    /// Adopts a snapshot as the new sequence position when it is the
    /// first one seen or newer than the last processed id; a stale
    /// snapshot is dropped silently.  Returns whether the snapshot is
    /// to be forwarded.  The buffer is left alone either way — stale
    /// entries fall out on the next drain.
    pub fn process_snapshot(&mut self, snapshot: &DepthSnapshot) -> (forward: bool)
        requires
            old(self).wf(),
        ensures
            final(self).wf(),
            final(self).buffered() == old(self).buffered(),
            forward == (old(self).last_id() is None || snapshot.last_update_id > old(
                self,
            ).last_id().unwrap()),
            final(self).last_id() == if forward {
                Some(snapshot.last_update_id)
            } else {
                old(self).last_id()
            },
    {
        match self.last_processed_update_id {
            None => {
                self.last_processed_update_id = Some(snapshot.last_update_id);
                true
            },
            Some(last) => {
                if snapshot.last_update_id <= last {
                    false
                } else {
                    self.last_processed_update_id = Some(snapshot.last_update_id);
                    true
                }
            },
        }
    }
}

/// What one drain pass does, given the buffer and the last processed id
/// `l`: walking the buffer in ascending `u`, a stale entry (`u <= l`)
/// is discarded, an entry with `U <= l + 1 < u` is forwarded and
/// advances `l` to its `u`, and the first entry that is neither stops
/// the pass, keeping itself and everything after it.  The result is
/// (forwarded updates, remaining buffer, new `l`).
pub open spec fn drain(buf: Seq<DepthUpdate>, l: u64) -> (Seq<DepthUpdate>, Seq<DepthUpdate>, u64)
    decreases buf.len(),
{
    if buf.len() == 0 {
        (Seq::<DepthUpdate>::empty(), buf, l)
    } else {
        let h = buf[0];
        if h.last_update_id <= l {
            drain(buf.drop_first(), l)
        } else if h.first_update_id <= l + 1 && l + 1 < h.last_update_id {
            let rec = drain(buf.drop_first(), h.last_update_id);
            (seq![h] + rec.0, rec.1, rec.2)
        } else {
            (Seq::<DepthUpdate>::empty(), buf, l)
        }
    }
}

/// The id the chain stands at just before the forwarded update at
/// position `i`: the starting id for the first, the previous forwarded
/// update's `u` after that.
pub open spec fn chain_prev(l: u64, fwd: Seq<DepthUpdate>, i: int) -> u64 {
    if i == 0 {
        l
    } else {
        fwd[i - 1].last_update_id
    }
}

/// The gating condition under which the forwarded update at position
/// `i` left: it overlapped the next expected id and reached past it.
pub open spec fn chain_ok(l: u64, fwd: Seq<DepthUpdate>, i: int) -> bool {
    &&& fwd[i].first_update_id <= chain_prev(l, fwd, i) + 1
    &&& chain_prev(l, fwd, i) + 1 < fwd[i].last_update_id
}

/// What a drain pass guarantees on a sorted buffer: the remainder stays
/// sorted, the id never moves backwards and ends at the last forwarded
/// update's `u`, and every forwarded update satisfies the gating
/// condition against its predecessor.
pub proof fn lemma_drain_properties(buf: Seq<DepthUpdate>, l: u64)
    requires
        sorted_by_u(buf),
    ensures
        ({
            let r = drain(buf, l);
            &&& sorted_by_u(r.1)
            &&& r.2 >= l
            &&& (r.0.len() == 0 ==> r.2 == l)
            &&& (r.0.len() > 0 ==> r.2 == r.0.last().last_update_id)
            &&& forall|i: int| 0 <= i < r.0.len() ==> chain_ok(l, r.0, i)
        }),
    decreases buf.len(),
{
    if buf.len() > 0 {
        let h = buf[0];
        let rest = buf.drop_first();
        if h.last_update_id <= l {
            lemma_drain_properties(rest, l);
        } else if h.first_update_id <= l + 1 && l + 1 < h.last_update_id {
            lemma_drain_properties(rest, h.last_update_id);
            let rec = drain(rest, h.last_update_id);
            let fwd = seq![h] + rec.0;
            assert(chain_ok(l, fwd, 0));
            assert forall|i: int| 0 < i < fwd.len() implies chain_ok(l, fwd, i) by {
                assert(chain_ok(h.last_update_id, rec.0, i - 1));
                assert(fwd[i] == rec.0[i - 1]);
                assert(chain_prev(l, fwd, i) == chain_prev(h.last_update_id, rec.0, i - 1));
            }
            if rec.0.len() > 0 {
                assert(fwd.last() == rec.0.last());
            }
        }
    }
}

impl DepthEventDispatcher {
    /// One drain pass over the buffer against the current id, returning
    /// the forwarded updates in order.  Without a snapshot yet there is
    /// no id to gate against, and nothing happens.
    pub fn process_buffer(&mut self) -> (out: Vec<DepthUpdate>)
        requires
            old(self).wf(),
        ensures
            final(self).wf(),
            old(self).last_id() is None ==> out@ == Seq::<DepthUpdate>::empty() && *final(self)
                == *old(self),
            old(self).last_id() matches Some(l) ==> {
                let r = drain(old(self).buffered(), l);
                &&& out@ == r.0
                &&& final(self).buffered() == r.1
                &&& final(self).last_id() == Some(r.2)
            },
    {
        let l0 = match self.last_processed_update_id {
            None => {
                return Vec::new();
            },
            Some(l) => l,
        };
        let ghost buf0 = self.buffer@;
        let mut out: Vec<DepthUpdate> = Vec::new();
        let mut l: u64 = l0;
        loop
            invariant
                sorted_by_u(self.buffer@),
                drain(buf0, l0).0 == out@ + drain(self.buffer@, l).0,
                drain(buf0, l0).1 == drain(self.buffer@, l).1,
                drain(buf0, l0).2 == drain(self.buffer@, l).2,
            ensures
                sorted_by_u(self.buffer@),
                drain(buf0, l0).0 == out@,
                drain(buf0, l0).1 == self.buffer@,
                drain(buf0, l0).2 == l,
            decreases self.buffer@.len(),
        {
            let ghost bpre = self.buffer@;
            let ghost lpre = l;
            if self.buffer.len() == 0 {
                proof {
                    assert(out@ + drain(self.buffer@, l).0 =~= out@);
                }
                break;
            }
            let head_first = self.buffer[0].first_update_id;
            let head_last = self.buffer[0].last_update_id;
            if head_last <= l {
                self.buffer.remove(0);
                proof {
                    assert(self.buffer@ =~= bpre.drop_first());
                }
            } else if head_first <= l + 1 && l + 1 < head_last {
                let upd = self.buffer.remove(0);
                l = upd.last_update_id;
                out.push(upd);
                proof {
                    assert(self.buffer@ =~= bpre.drop_first());
                    assert(out@ + drain(self.buffer@, l).0 =~= out@.drop_last() + (seq![upd]
                        + drain(self.buffer@, l).0));
                }
            } else {
                proof {
                    assert(out@ + drain(self.buffer@, l).0 =~= out@);
                }
                break;
            }
        }
        self.last_processed_update_id = Some(l);
        out
    }
}

/// A run of forwarded updates, wrapped for the output channel.
pub open spec fn as_update_events(s: Seq<DepthUpdate>) -> Seq<MarketEvent> {
    s.map_values(|d: DepthUpdate| MarketEvent::DepthUpdate(d))
}

/// What one incoming event does to the dispatcher: an update is filed
/// and a drain pass runs; a snapshot possibly advances the id and is
/// then followed by a drain pass as well; anything else is discarded.
/// The result is (new last id, new buffer, forwarded events in order).
pub open spec fn dispatch_step(l: Option<u64>, buf: Seq<DepthUpdate>, event: MarketEvent) -> (
    Option<u64>,
    Seq<DepthUpdate>,
    Seq<MarketEvent>,
) {
    match event {
        MarketEvent::DepthUpdate(update) => {
            let buf1 = buffer_insert(buf, update);
            match l {
                None => (None, buf1, Seq::<MarketEvent>::empty()),
                Some(l0) => {
                    let r = drain(buf1, l0);
                    (Some(r.2), r.1, as_update_events(r.0))
                },
            }
        },
        MarketEvent::DepthSnapshot(s) => {
            let forward = l is None || s.last_update_id > l.unwrap();
            let l1 = if forward {
                s.last_update_id
            } else {
                l.unwrap()
            };
            let r = drain(buf, l1);
            let head = if forward {
                seq![MarketEvent::DepthSnapshot(s)]
            } else {
                Seq::<MarketEvent>::empty()
            };
            (Some(r.2), r.1, head + as_update_events(r.0))
        },
        _ => (l, buf, Seq::<MarketEvent>::empty()),
    }
}

/// Appends each drained update to the outgoing events, in order.
fn push_update_events(out: &mut Vec<MarketEvent>, drained: Vec<DepthUpdate>)
    ensures
        final(out)@ == old(out)@ + as_update_events(drained@),
{
    let ghost dseq = drained@;
    let ghost base = out@;
    let mut rest = drained;
    let total: usize = rest.len();
    let mut k: usize = 0;
    proof {
        assert(dseq.len() == total);
        assert(rest@ =~= dseq.skip(0));
        assert(dseq.take(0) =~= Seq::<DepthUpdate>::empty());
        assert(as_update_events(dseq.take(0)) =~= Seq::<MarketEvent>::empty());
        assert(out@ =~= base + as_update_events(dseq.take(0)));
    }
    while rest.len() > 0
        invariant
            dseq.len() <= usize::MAX,
            k + rest@.len() == dseq.len(),
            rest@ == dseq.skip(k as int),
            out@ == base + as_update_events(dseq.take(k as int)),
        decreases rest@.len(),
    {
        let ghost rpre = rest@;
        let d = rest.remove(0);
        out.push(MarketEvent::DepthUpdate(d));
        proof {
            assert(d == dseq[k as int]);
            assert(rest@ =~= dseq.skip(k + 1));
            assert(dseq.take(k + 1) =~= dseq.take(k as int).push(d));
            assert(as_update_events(dseq.take(k + 1)) =~= as_update_events(
                dseq.take(k as int),
            ).push(MarketEvent::DepthUpdate(d)));
        }
        k = k + 1;
    }
    proof {
        assert(dseq.take(dseq.len() as int) =~= dseq);
    }
}

impl DepthEventDispatcher {
    /// Feeds one event through the dispatcher and returns what it
    /// forwards, in order: an update is filed and the buffer drained; a
    /// fresh snapshot goes out ahead of whatever the drain then
    /// releases; a stale snapshot and any non-depth event produce
    /// nothing new of their own.
    pub fn handle_event(&mut self, event: MarketEvent) -> (out: Vec<MarketEvent>)
        requires
            old(self).wf(),
        ensures
            final(self).wf(),
            ({
                let st = dispatch_step(old(self).last_id(), old(self).buffered(), event);
                &&& final(self).last_id() == st.0
                &&& final(self).buffered() == st.1
                &&& out@ == st.2
            }),
    {
        match event {
            MarketEvent::DepthUpdate(update) => {
                self.process_update(update);
                let drained = self.process_buffer();
                let mut out: Vec<MarketEvent> = Vec::new();
                push_update_events(&mut out, drained);
                out
            },
            MarketEvent::DepthSnapshot(snapshot) => {
                let forward = self.process_snapshot(&snapshot);
                let mut out: Vec<MarketEvent> = Vec::new();
                if forward {
                    out.push(MarketEvent::DepthSnapshot(snapshot));
                }
                let drained = self.process_buffer();
                push_update_events(&mut out, drained);
                out
            },
            _ => Vec::new(),
        }
    }
}

/// The dispatcher's whole life on a sequence of incoming events,
/// starting from nothing: (final last id, final buffer, everything
/// forwarded, in order).
pub open spec fn dispatch_run(events: Seq<MarketEvent>) -> (
    Option<u64>,
    Seq<DepthUpdate>,
    Seq<MarketEvent>,
)
    decreases events.len(),
{
    if events.len() == 0 {
        (None, Seq::<DepthUpdate>::empty(), Seq::<MarketEvent>::empty())
    } else {
        let prev = dispatch_run(events.drop_last());
        let st = dispatch_step(prev.0, prev.1, events.last());
        (st.0, st.1, prev.2 + st.2)
    }
}

/// The shape every forwarded stream has: only depth events, opening
/// with a snapshot, strictly ascending by sequence position, and every
/// forwarded update overlapping and passing the position of the event
/// before it — with `L` that position, `U <= L + 1 < u`.
pub open spec fn well_chained(out: Seq<MarketEvent>) -> bool {
    &&& forall|i: int| 0 <= i < out.len() ==> (#[trigger] out[i]).is_depth()
    &&& (out.len() > 0 ==> out[0] is DepthSnapshot)
    &&& forall|i: int| 0 < i < out.len() ==> out[i - 1].seq_id() < (#[trigger] out[i]).seq_id()
    &&& forall|i: int|
        0 < i < out.len() ==> ((#[trigger] out[i]) matches MarketEvent::DepthUpdate(u) ==> {
            &&& u.first_update_id <= out[i - 1].seq_id() + 1
            &&& out[i - 1].seq_id() + 1 < u.last_update_id
        })
}

/// Appending a drained run to a chained stream whose last position is
/// the id the drain started from keeps the stream chained.
proof fn lemma_append_drained(prefix: Seq<MarketEvent>, l1: u64, fwd: Seq<DepthUpdate>)
    requires
        well_chained(prefix),
        prefix.len() > 0,
        prefix.last().seq_id() == l1,
        forall|i: int| 0 <= i < fwd.len() ==> chain_ok(l1, fwd, i),
    ensures
        well_chained(prefix + as_update_events(fwd)),
        (prefix + as_update_events(fwd)).last().seq_id() == (if fwd.len() == 0 {
            l1
        } else {
            fwd.last().last_update_id
        }),
{
    let mapped = as_update_events(fwd);
    let combined = prefix + mapped;
    assert forall|i: int| 0 <= i < combined.len() implies (#[trigger] combined[i]).is_depth() by {
        if i >= prefix.len() {
            assert(combined[i] == mapped[i - prefix.len()]);
        }
    }
    assert(combined[0] == prefix[0]);
    assert forall|i: int| 0 < i < combined.len() implies {
        &&& combined[i - 1].seq_id() < (#[trigger] combined[i]).seq_id()
        &&& (combined[i] matches MarketEvent::DepthUpdate(u) ==> {
            &&& u.first_update_id <= combined[i - 1].seq_id() + 1
            &&& combined[i - 1].seq_id() + 1 < u.last_update_id
        })
    } by {
        if i < prefix.len() {
            assert(combined[i] == prefix[i]);
            assert(combined[i - 1] == prefix[i - 1]);
        } else {
            let t = i - prefix.len();
            assert(combined[i] == mapped[t]);
            assert(mapped[t] == MarketEvent::DepthUpdate(fwd[t]));
            assert(chain_ok(l1, fwd, t));
            if t == 0 {
                assert(combined[i - 1] == prefix.last());
            } else {
                assert(combined[i - 1] == mapped[t - 1]);
                assert(mapped[t - 1] == MarketEvent::DepthUpdate(fwd[t - 1]));
            }
            assert(combined[i - 1].seq_id() == chain_prev(l1, fwd, t));
        }
    }
    if fwd.len() > 0 {
        assert(combined.last() == mapped.last());
        assert(mapped.last() == MarketEvent::DepthUpdate(fwd.last()));
    } else {
        assert(combined.last() == prefix.last());
    }
}

/// The dispatcher's standing guarantees, over any sequence of incoming
/// events: the buffer stays sorted; everything ever forwarded is a
/// chained stream ([`well_chained`]); and the last processed id exists
/// exactly once something was forwarded, and is then the sequence
/// position of the most recent forwarded event.
#[verifier::rlimit(50)]
pub proof fn lemma_dispatch_run_invariant(events: Seq<MarketEvent>)
    ensures
        ({
            let r = dispatch_run(events);
            &&& sorted_by_u(r.1)
            &&& well_chained(r.2)
            &&& (r.0 is None <==> r.2.len() == 0)
            &&& (r.2.len() > 0 ==> r.0 == Some(r.2.last().seq_id()))
        }),
    decreases events.len(),
{
    if events.len() > 0 {
        lemma_dispatch_run_invariant(events.drop_last());
        let prev = dispatch_run(events.drop_last());
        let l = prev.0;
        let buf = prev.1;
        let out = prev.2;
        let e = events.last();
        let st = dispatch_step(l, buf, e);
        match e {
            MarketEvent::DepthUpdate(update) => {
                lemma_buffer_insert_sorted(buf, update);
                let buf1 = buffer_insert(buf, update);
                if l is None {
                    assert(out + st.2 =~= out);
                } else {
                    let l0 = l.unwrap();
                    lemma_drain_properties(buf1, l0);
                    let r = drain(buf1, l0);
                    lemma_append_drained(out, l0, r.0);
                    assert(out + st.2 =~= out + as_update_events(r.0));
                    if r.0.len() == 0 {
                        assert(as_update_events(r.0) =~= Seq::<MarketEvent>::empty());
                        assert(out + st.2 =~= out);
                    }
                }
            },
            MarketEvent::DepthSnapshot(s) => {
                let forward = l is None || s.last_update_id > l.unwrap();
                let l1 = if forward {
                    s.last_update_id
                } else {
                    l.unwrap()
                };
                lemma_drain_properties(buf, l1);
                let r = drain(buf, l1);
                if forward {
                    let mid = out + seq![MarketEvent::DepthSnapshot(s)];
                    assert(mid.last() == MarketEvent::DepthSnapshot(s));
                    assert(well_chained(mid)) by {
                        assert(forall|i: int|
                            0 <= i < out.len() ==> mid[i] == (#[trigger] out[i]));
                        assert(mid[0].is_depth());
                        if out.len() > 0 {
                            assert(mid[0] == out[0]);
                            assert(mid[mid.len() - 2] == out.last());
                        }
                    }
                    lemma_append_drained(mid, l1, r.0);
                    assert(out + st.2 =~= mid + as_update_events(r.0));
                } else {
                    lemma_append_drained(out, l1, r.0);
                    assert(out + st.2 =~= out + as_update_events(r.0));
                    if r.0.len() == 0 {
                        assert(as_update_events(r.0) =~= Seq::<MarketEvent>::empty());
                        assert(out + st.2 =~= out);
                    }
                }
            },
            _ => {
                assert(out + st.2 =~= out);
            },
        }
    }
}

/// Along a chained stream the sequence position climbs between any two
/// places, however far apart.
proof fn lemma_chain_monotonic(out: Seq<MarketEvent>, i: int, j: int)
    requires
        well_chained(out),
        0 <= i < j < out.len(),
    ensures
        out[i].seq_id() < out[j].seq_id(),
    decreases j - i,
{
    if j > i + 1 {
        lemma_chain_monotonic(out, i, j - 1);
    }
}

/// Everything the dispatcher ever forwards — snapshots and updates
/// alike — is strictly increasing by sequence position, so forwarded
/// updates strictly increase by `u` and no two forwarded events share
/// one.
pub proof fn lemma_forwarded_strictly_increasing(events: Seq<MarketEvent>)
    ensures
        ({
            let out = dispatch_run(events).2;
            forall|i: int, j: int|
                0 <= i < j < out.len() ==> out[i].seq_id() < out[j].seq_id()
        }),
{
    lemma_dispatch_run_invariant(events);
    let out = dispatch_run(events).2;
    assert forall|i: int, j: int| 0 <= i < j < out.len() implies out[i].seq_id()
        < out[j].seq_id() by {
        lemma_chain_monotonic(out, i, j);
    }
}

/// What leaves the dispatcher begins with a snapshot, and every
/// forwarded update overlaps and passes the position `L` of the
/// forwarded event just before it: `U <= L + 1 < u`.
pub proof fn lemma_forwarded_updates_follow_predecessor(events: Seq<MarketEvent>)
    ensures
        ({
            let out = dispatch_run(events).2;
            &&& out.len() > 0 ==> out[0] is DepthSnapshot
            &&& forall|i: int|
                0 < i < out.len() ==> ((#[trigger] out[i]) matches MarketEvent::DepthUpdate(u)
                    ==> {
                    &&& u.first_update_id <= out[i - 1].seq_id() + 1
                    &&& out[i - 1].seq_id() + 1 < u.last_update_id
                })
        }),
{
    lemma_dispatch_run_invariant(events);
}

/// Nothing stale is ever forwarded: whatever one more incoming event
/// makes the dispatcher forward lies strictly above the last processed
/// id as it stood before that event.  (Within the step the id only
/// climbs, so each forwarded event also clears the id in force at its
/// own moment of forwarding — that is the chain condition of
/// [`lemma_forwarded_updates_follow_predecessor`].)
pub proof fn lemma_no_stale_forwarding(events: Seq<MarketEvent>, n: int)
    requires
        0 <= n < events.len(),
    ensures
        ({
            let pre = dispatch_run(events.take(n));
            let post = dispatch_run(events.take(n + 1));
            &&& pre.2.len() <= post.2.len()
            &&& pre.2 == post.2.take(pre.2.len() as int)
            &&& forall|i: int|
                pre.2.len() <= i < post.2.len() ==> (pre.0 matches Some(last) ==> (
                #[trigger] post.2[i]).seq_id() > last)
        }),
{
    let pre = dispatch_run(events.take(n));
    let post = dispatch_run(events.take(n + 1));
    assert(events.take(n + 1).drop_last() =~= events.take(n));
    assert(events.take(n + 1).last() == events[n]);
    lemma_dispatch_run_invariant(events.take(n));
    lemma_dispatch_run_invariant(events.take(n + 1));
    assert(pre.2 =~= post.2.take(pre.2.len() as int));
    if pre.0 is Some {
        let last = pre.0.unwrap();
        assert(pre.2.len() > 0);
        assert(pre.2.last().seq_id() == last);
        assert(post.2[pre.2.len() - 1] == pre.2.last());
        assert forall|i: int| pre.2.len() <= i < post.2.len() implies (
        #[trigger] post.2[i]).seq_id() > last by {
            lemma_chain_monotonic(post.2, pre.2.len() - 1, i);
        }
    }
}

} // verus!

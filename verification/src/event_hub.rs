//! Bounded history of lifecycle events, numbered by a session-global
//! sequence that observations can also reserve numbers from.
//!
//! The hub keeps the most recent `MAX_EVENTS` events. A reader whose cursor
//! lies before an event the hub had to drop is told so with an
//! `EventHistoryGap` and must resynchronize; a reader that is not behind the
//! dropped events receives every event pushed after its cursor.

use vstd::prelude::*;

verus! {

/// How many lifecycle events the history retains.
pub const MAX_EVENTS: usize = 512;

/// A cursor asked for events that the bounded history no longer holds.
#[derive(Debug, Clone, Copy, PartialEq, Eq, Structural)]
pub struct EventHistoryGap {
    pub requested_sequence: u64,
    pub oldest_available_sequence: u64,
    pub current_sequence: u64,
}

/// Whether an event lies after `after` and at most at `through`.
pub open spec fn in_window<E>(after: u64, through: u64) -> spec_fn((u64, E)) -> bool {
    |e: (u64, E)| after < e.0 && e.0 <= through
}

/// Sequence numbers strictly increase along `s`.
pub open spec fn strictly_numbered<E>(s: Seq<(u64, E)>) -> bool {
    forall|i: int, j: int| 0 <= i < j < s.len() ==> #[trigger] s[i].0 < #[trigger] s[j].0
}

/// The current sequence counts the pushes and reservations: along a run of
/// hubs from a fresh one where each step is a push or a reservation (each
/// advancing the counter by one, as their contracts state), the current
/// sequence is the number of steps taken.
pub proof fn lemma_sequence_counts_operations<E>(hubs: Seq<EventHub<E>>)
    requires
        hubs.len() > 0,
        hubs[0].current() == 0,
        forall|i: int| 0 <= i < hubs.len() - 1 ==> #[trigger] hubs[i + 1].current() == hubs[i].current() + 1,
    ensures
        hubs.last().current() == hubs.len() - 1,
    decreases hubs.len(),
{
    if hubs.len() > 1 {
        let init = hubs.drop_last();
        assert forall|i: int| 0 <= i < init.len() - 1 implies #[trigger] init[i + 1].current() == init[i].current() + 1 by {
            assert(init[i + 1] == hubs[i + 1] && init[i] == hubs[i]);
        }
        lemma_sequence_counts_operations(init);
        assert(hubs[hubs.len() - 1].current() == hubs[hubs.len() - 2].current() + 1);
    }
}

/// Filtering keeps the numbers strictly increasing.
proof fn lemma_filter_numbered<E>(s: Seq<(u64, E)>, pred: spec_fn((u64, E)) -> bool)
    requires
        strictly_numbered(s),
    ensures
        strictly_numbered(s.filter(pred)),
        forall|i: int| 0 <= i < s.filter(pred).len() ==> exists|j: int| 0 <= j < s.len() && s[j] == #[trigger] s.filter(pred)[i],
    decreases s.len(),
{
    reveal(Seq::filter);
    if s.len() > 0 {
        let init = s.drop_last();
        assert(strictly_numbered(init)) by {
            assert forall|i: int, j: int| 0 <= i < j < init.len() implies #[trigger] init[i].0 < #[trigger] init[j].0 by {
                assert(init[i] == s[i] && init[j] == s[j]);
            }
        }
        lemma_filter_numbered(init, pred);
        let f = init.filter(pred);
        assert forall|i: int| 0 <= i < f.len() implies exists|j: int| 0 <= j < s.len() && s[j] == #[trigger] f[i] by {
            let j = choose|j: int| 0 <= j < init.len() && init[j] == f[i];
            assert(s[j] == init[j]);
        }
        if pred(s.last()) {
            let g = f.push(s.last());
            assert(s.filter(pred) == g);
            assert forall|i: int, j: int| 0 <= i < j < g.len() implies #[trigger] g[i].0 < #[trigger] g[j].0 by {
                if j == g.len() - 1 {
                    let k = choose|k: int| 0 <= k < init.len() && init[k] == f[i];
                    assert(s[k] == init[k]);
                    assert(s[k].0 < s[s.len() - 1].0);
                } else {
                    assert(g[i] == f[i] && g[j] == f[j]);
                }
            }
            assert forall|i: int| 0 <= i < g.len() implies exists|j: int| 0 <= j < s.len() && s[j] == #[trigger] g[i] by {
                if i == g.len() - 1 {
                    assert(s[s.len() - 1] == g[i]);
                } else {
                    assert(g[i] == f[i]);
                }
            }
        } else {
            assert(s.filter(pred) == f);
        }
    }
}

/// Every item a filter keeps passes the filter.
proof fn lemma_filter_members<E>(s: Seq<(u64, E)>, pred: spec_fn((u64, E)) -> bool, i: int)
    requires
        0 <= i < s.filter(pred).len(),
    ensures
        pred(s.filter(pred)[i]),
    decreases s.len(),
{
    reveal(Seq::filter);
    if s.len() > 0 {
        let f = s.drop_last().filter(pred);
        if pred(s.last()) && i == f.len() {
        } else {
            lemma_filter_members(s.drop_last(), pred, i);
        }
    }
}

/// The lifecycle event history, generic over the event payload.
pub struct EventHub<E> {
    next_sequence: u64,
    events: Vec<(u64, E)>,
    dropped_lifecycle_through: Option<u64>,
    log: Ghost<Seq<(u64, E)>>,
}

impl<E> EventHub<E> {
    /// The last sequence number handed out (zero before the first).
    pub closed spec fn current(&self) -> u64 {
        self.next_sequence
    }

    /// The retained events, oldest first.
    pub closed spec fn retained(&self) -> Seq<(u64, E)> {
        self.events@
    }

    /// The sequence number of the newest event dropped from the history.
    pub closed spec fn dropped_through(&self) -> Option<u64> {
        self.dropped_lifecycle_through
    }

    /// Every event ever pushed, oldest first.
    pub closed spec fn pushed(&self) -> Seq<(u64, E)> {
        self.log@
    }

    /// The number of events dropped from the front of the history.
    pub open spec fn dropped_count(&self) -> int {
        self.pushed().len() - self.retained().len()
    }

    /// The history's invariant: the retained events are the newest pushed
    /// ones, at most `MAX_EVENTS` of them, numbered in increasing order up
    /// to the current sequence, and the dropped mark is the number of the
    /// newest dropped event.
    pub open spec fn wf(&self) -> bool {
        &&& self.retained().len() <= MAX_EVENTS
        &&& self.dropped_count() >= 0
        &&& self.retained() == self.pushed().skip(self.dropped_count())
        &&& strictly_numbered(self.pushed())
        &&& forall|i: int| 0 <= i < self.pushed().len() ==> 0 < #[trigger] self.pushed()[i].0 <= self.current()
        &&& self.dropped_through() == if self.dropped_count() > 0 {
            Some(self.pushed()[self.dropped_count() - 1].0)
        } else {
            None::<u64>
        }
    }

    /// An empty history at sequence zero.
    pub fn new() -> (r: Self)
        ensures
            r.wf(),
            r.current() == 0,
            r.pushed() == Seq::<(u64, E)>::empty(),
            r.retained() == Seq::<(u64, E)>::empty(),
            r.dropped_through() == None::<u64>,
    {
        let r = EventHub {
            next_sequence: 0,
            events: Vec::new(),
            dropped_lifecycle_through: None,
            log: Ghost(Seq::empty()),
        };
        assert(r.retained() =~= r.pushed().skip(0));
        r
    }

    /// Record `event` under the next sequence number; when the history is
    /// full its oldest event is dropped and becomes the dropped mark.
    pub fn push(&mut self, event: E)
        requires
            old(self).wf(),
            old(self).current() < u64::MAX,
        ensures
            final(self).wf(),
            final(self).current() == old(self).current() + 1,
            final(self).pushed() == old(self).pushed().push((final(self).current(), event)),
            old(self).retained().len() < MAX_EVENTS ==> final(self).retained() == old(
                self,
            ).retained().push((final(self).current(), event)) && final(self).dropped_through()
                == old(self).dropped_through(),
            old(self).retained().len() == MAX_EVENTS ==> final(self).retained() == old(
                self,
            ).retained().push((final(self).current(), event)).drop_first()
                && final(self).dropped_through() == Some(old(self).retained()[0].0),
    {
        let ghost before = *self;
        self.next_sequence = self.next_sequence + 1;
        let sequence = self.next_sequence;
        let ghost entry = (sequence, event);
        self.events.push((sequence, event));
        proof {
            self.log@ = self.log@.push(entry);
        }
        let ghost pushed_all = self.events@;
        if self.events.len() > MAX_EVENTS {
            let dropped_through = self.events[0].0;
            self.events.remove(0);
            self.dropped_lifecycle_through = Some(dropped_through);
        }
        proof {
            let d0 = before.dropped_count();
            let log = self.log@;
            assert(pushed_all =~= before.retained().push(entry));
            assert(before.pushed().skip(d0).push(entry) =~= log.skip(d0));
            if pushed_all.len() > MAX_EVENTS {
                assert(self.events@ =~= log.skip(d0 + 1));
                assert(log[d0] == pushed_all[0]);
            }
            assert(strictly_numbered(log)) by {
                assert forall|i: int, j: int| 0 <= i < j < log.len() implies #[trigger] log[i].0 < #[trigger] log[j].0 by {
                    if j == log.len() - 1 && i < j {
                        assert(log[i] == before.pushed()[i]);
                    }
                }
            }
        }
    }

    /// Reserve the next session-global sequence number for an observation
    /// that is not retained in the lifecycle history.
    pub fn reserve_sequence(&mut self) -> (r: u64)
        requires
            old(self).wf(),
            old(self).current() < u64::MAX,
        ensures
            final(self).wf(),
            r == old(self).current() + 1,
            final(self).current() == r,
            final(self).pushed() == old(self).pushed(),
            final(self).retained() == old(self).retained(),
            final(self).dropped_through() == old(self).dropped_through(),
    {
        self.next_sequence = self.next_sequence + 1;
        self.next_sequence
    }

    /// The last sequence number handed out.
    pub fn current_sequence(&self) -> (r: u64)
        ensures
            r == self.current(),
    {
        self.next_sequence
    }
}

impl<E: Clone> EventHub<E> {
    /// The retained events numbered after `sequence` and at most `watermark`,
    /// or the gap when `sequence` lies before the newest dropped event.
    ///
    /// The gap names the oldest retained number (or the next number to be
    /// handed out when nothing is retained) and the current sequence. When
    /// the read succeeds, the events returned are exactly the events ever
    /// pushed within the window: nothing is lost silently.
    pub fn checked_events_after_through(&self, sequence: u64, watermark: u64) -> (r: Result<Vec<(u64, E)>, EventHistoryGap>)
        requires
            self.wf(),
        ensures
            match self.dropped_through() {
                Some(d) => sequence < d,
                None => false,
            } ==> r == Err::<Vec<(u64, E)>, EventHistoryGap>(EventHistoryGap {
                requested_sequence: sequence,
                oldest_available_sequence: if self.retained().len() > 0 {
                    self.retained()[0].0
                } else if self.current() < u64::MAX {
                    (self.current() + 1) as u64
                } else {
                    u64::MAX
                },
                current_sequence: self.current(),
            }),
            !match self.dropped_through() {
                Some(d) => sequence < d,
                None => false,
            } ==> r is Ok,
            r matches Ok(v) ==> {
                let window = self.retained().filter(in_window::<E>(sequence, watermark));
                &&& v@.len() == window.len()
                &&& forall|i: int| 0 <= i < v@.len() ==> (#[trigger] v@[i]).0 == window[i].0 && cloned(window[i].1, v@[i].1)
                &&& window == self.pushed().filter(in_window::<E>(sequence, watermark))
                &&& strictly_numbered(v@)
                &&& forall|i: int| 0 <= i < v@.len() ==> sequence < (#[trigger] v@[i]).0 <= watermark
            },
    {
        let oldest_available_sequence = if self.events.len() > 0 {
            self.events[0].0
        } else {
            self.next_sequence.saturating_add(1)
        };
        match self.dropped_lifecycle_through {
            Some(dropped_through) => {
                if sequence < dropped_through {
                    return Err(EventHistoryGap {
                        requested_sequence: sequence,
                        oldest_available_sequence,
                        current_sequence: self.next_sequence,
                    });
                }
            },
            None => {},
        }
        let ghost pred = in_window::<E>(sequence, watermark);
        let ghost ev = self.events@;
        let mut out: Vec<(u64, E)> = Vec::new();
        let mut i: usize = 0;
        while i < self.events.len()
            invariant
                ev == self.events@,
                pred == in_window::<E>(sequence, watermark),
                0 <= i <= ev.len(),
                out@.len() == ev.take(i as int).filter(pred).len(),
                forall|j: int| 0 <= j < out@.len() ==> (#[trigger] out@[j]).0 == ev.take(i as int).filter(pred)[j].0
                    && cloned(ev.take(i as int).filter(pred)[j].1, out@[j].1),
            decreases ev.len() - i,
        {
            let entry = &self.events[i];
            let ghost prefix = ev.take(i as int);
            proof {
                assert(ev.take(i + 1) =~= prefix.push(ev[i as int]));
                prefix.lemma_filter_push(ev[i as int], pred);
            }
            if sequence < entry.0 && entry.0 <= watermark {
                let payload = entry.1.clone();
                out.push((entry.0, payload));
            }
            i = i + 1;
        }
        proof {
            assert(ev.take(ev.len() as int) =~= ev);
            let log = self.pushed();
            let d = self.dropped_count();
            assert(log =~= log.take(d) + log.skip(d));
            Seq::filter_distributes_over_add(log.take(d), log.skip(d), pred);
            assert(log.take(d).filter(pred) =~= Seq::<(u64, E)>::empty()) by {
                let pre = log.take(d);
                assert forall|k: int| 0 <= k < pre.len() implies !pred(#[trigger] pre[k]) by {
                    assert(pre[k] == log[k]);
                    if k < d - 1 {
                        assert(log[k].0 < log[d - 1].0);
                    }
                }
                assert(pre.all(|x: (u64, E)| !pred(x)));
                pre.lemma_all_neg_filter_empty(pred);
            }
            lemma_filter_numbered(log, pred);
            let w = log.filter(pred);
            assert forall|i: int| 0 <= i < w.len() implies pred(#[trigger] w[i]) by {
                lemma_filter_members(log, pred, i);
            }
        }
        Ok(out)
    }

    /// The retained events numbered after `sequence`, or the gap.
    pub fn checked_events_after(&self, sequence: u64) -> (r: Result<Vec<(u64, E)>, EventHistoryGap>)
        requires
            self.wf(),
        ensures
            match self.dropped_through() {
                Some(d) => sequence < d,
                None => false,
            } ==> r == Err::<Vec<(u64, E)>, EventHistoryGap>(EventHistoryGap {
                requested_sequence: sequence,
                oldest_available_sequence: if self.retained().len() > 0 {
                    self.retained()[0].0
                } else if self.current() < u64::MAX {
                    (self.current() + 1) as u64
                } else {
                    u64::MAX
                },
                current_sequence: self.current(),
            }),
            !match self.dropped_through() {
                Some(d) => sequence < d,
                None => false,
            } ==> r is Ok,
            r matches Ok(v) ==> {
                let window = self.retained().filter(in_window::<E>(sequence, u64::MAX));
                &&& v@.len() == window.len()
                &&& forall|i: int| 0 <= i < v@.len() ==> (#[trigger] v@[i]).0 == window[i].0 && cloned(window[i].1, v@[i].1)
                &&& window == self.pushed().filter(in_window::<E>(sequence, u64::MAX))
            },
    {
        self.checked_events_after_through(sequence, u64::MAX)
    }

    /// The retained events numbered after `sequence`; empty when the cursor
    /// lies before the dropped events.
    pub fn events_after(&self, sequence: u64) -> (r: Vec<(u64, E)>)
        requires
            self.wf(),
        ensures
            match self.dropped_through() {
                Some(d) => sequence < d,
                None => false,
            } ==> r@.len() == 0,
            !match self.dropped_through() {
                Some(d) => sequence < d,
                None => false,
            } ==> {
                let window = self.retained().filter(in_window::<E>(sequence, u64::MAX));
                &&& r@.len() == window.len()
                &&& forall|i: int| 0 <= i < r@.len() ==> (#[trigger] r@[i]).0 == window[i].0 && cloned(window[i].1, r@[i].1)
            },
    {
        match self.checked_events_after(sequence) {
            Ok(events) => events,
            Err(_) => Vec::new(),
        }
    }
}

impl<E> Default for EventHub<E> {
    fn default() -> (r: Self)
        ensures
            r.wf(),
            r.current() == 0,
            r.pushed() == Seq::<(u64, E)>::empty(),
            r.retained() == Seq::<(u64, E)>::empty(),
            r.dropped_through() == None::<u64>,
    {
        EventHub::new()
    }
}

} // verus!

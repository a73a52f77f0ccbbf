//! The decisions of a subscription to a pane's agent status: which status
//! events and which observed snapshots are reported, given an optional
//! status filter, so that a change is reported once and none is lost.

use vstd::prelude::*;
use crate::schema::AgentStatus;
use crate::text::str_eq;

verus! {

/// What a pane shows of its agent besides the status. State labels are
/// listed in order of their keys, each key once.
#[derive(Debug, Clone, PartialEq, Eq)]
pub struct PresentationSnapshot {
    pub title: Option<String>,
    pub display_agent: Option<String>,
    pub state_labels: Vec<(String, String)>,
}

pub open spec fn opt_text(o: Option<String>) -> Option<Seq<char>> {
    match o {
        Some(s) => Some(s@),
        None => None,
    }
}

pub open spec fn label_texts(labels: Seq<(String, String)>) -> Seq<(Seq<char>, Seq<char>)> {
    labels.map_values(|l: (String, String)| (l.0@, l.1@))
}

/// Two snapshots show the same.
pub open spec fn same_presentation(a: PresentationSnapshot, b: PresentationSnapshot) -> bool {
    &&& opt_text(a.title) == opt_text(b.title)
    &&& opt_text(a.display_agent) == opt_text(b.display_agent)
    &&& label_texts(a.state_labels@) == label_texts(b.state_labels@)
}

fn same_text(a: &Option<String>, b: &Option<String>) -> (r: bool)
    ensures
        r == (opt_text(*a) == opt_text(*b)),
{
    match (a, b) {
        (Some(x), Some(y)) => str_eq(x.as_str(), y.as_str()),
        (None, None) => true,
        _ => false,
    }
}

fn same_labels(a: &Vec<(String, String)>, b: &Vec<(String, String)>) -> (r: bool)
    ensures
        r == (label_texts(a@) == label_texts(b@)),
{
    if a.len() != b.len() {
        assert(label_texts(a@).len() != label_texts(b@).len());
        return false;
    }
    let mut i: usize = 0;
    while i < a.len()
        invariant
            a@.len() == b@.len(),
            0 <= i <= a@.len(),
            forall|j: int| 0 <= j < i ==> #[trigger] label_texts(a@)[j] == label_texts(b@)[j],
        decreases a@.len() - i,
    {
        if !str_eq(a[i].0.as_str(), b[i].0.as_str()) || !str_eq(a[i].1.as_str(), b[i].1.as_str()) {
            assert(label_texts(a@)[i as int] != label_texts(b@)[i as int]);
            return false;
        }
        assert(label_texts(a@)[i as int] == label_texts(b@)[i as int]);
        i = i + 1;
    }
    assert(label_texts(a@) =~= label_texts(b@));
    true
}

/// Two snapshots show the same exactly when they agree on every field: the
/// same title (both absent, or both present with the same text), the same
/// displayed agent, and the same state labels, key and value, in order.
pub proof fn lemma_same_presentation_is_fieldwise(a: PresentationSnapshot, b: PresentationSnapshot)
    ensures
        same_presentation(a, b) <==> {
            &&& (a.title is Some <==> b.title is Some)
            &&& (a.title is Some ==> a.title->0@ == b.title->0@)
            &&& (a.display_agent is Some <==> b.display_agent is Some)
            &&& (a.display_agent is Some ==> a.display_agent->0@ == b.display_agent->0@)
            &&& a.state_labels@.len() == b.state_labels@.len()
            &&& forall|i: int|
                0 <= i < a.state_labels@.len() ==> (#[trigger] a.state_labels@[i]).0@ == b.state_labels@[i].0@
                    && a.state_labels@[i].1@ == b.state_labels@[i].1@
        },
{
    let la = label_texts(a.state_labels@);
    let lb = label_texts(b.state_labels@);
    assert(la.len() == a.state_labels@.len() && lb.len() == b.state_labels@.len());
    if a.state_labels@.len() == b.state_labels@.len() && forall|i: int|
        0 <= i < a.state_labels@.len() ==> (#[trigger] a.state_labels@[i]).0@ == b.state_labels@[i].0@
            && a.state_labels@[i].1@ == b.state_labels@[i].1@ {
        assert(la =~= lb);
    }
    if la == lb {
        assert forall|i: int| 0 <= i < a.state_labels@.len() implies (#[trigger] a.state_labels@[i]).0@
            == b.state_labels@[i].0@ && a.state_labels@[i].1@ == b.state_labels@[i].1@ by {
            assert(la[i] == (a.state_labels@[i].0@, a.state_labels@[i].1@));
            assert(lb[i] == (b.state_labels@[i].0@, b.state_labels@[i].1@));
        }
    }
}

/// Whether two snapshots show the same.
pub fn same_snapshot(a: &PresentationSnapshot, b: &PresentationSnapshot) -> (r: bool)
    ensures
        r == same_presentation(*a, *b),
{
    same_text(&a.title, &b.title) && same_text(&a.display_agent, &b.display_agent) && same_labels(
        &a.state_labels,
        &b.state_labels,
    )
}

/// A status passes the filter: there is none, or it is the wanted one.
pub open spec fn passes(filter: Option<AgentStatus>, status: AgentStatus) -> bool {
    match filter {
        Some(wanted) => wanted == status,
        None => true,
    }
}

/// What a subscription to one pane's agent status remembers.
pub struct StatusWatch {
    /// Only changes to this status are reported.
    pub status_filter: Option<AgentStatus>,
    pub last_status: Option<AgentStatus>,
    pub last_presentation: Option<PresentationSnapshot>,
    /// The status seen when the subscription began is yet to be reported.
    pub initial_pending: bool,
    /// The last event sequence looked at.
    pub last_sequence: u64,
}

/// The status or the presentation differs from what was last seen.
pub open spec fn changed_from(w: StatusWatch, status: AgentStatus, presentation: PresentationSnapshot) -> bool {
    ||| (w.last_status matches Some(previous) && previous != status)
    ||| (w.last_presentation matches Some(previous) && !same_presentation(previous, presentation))
}

impl StatusWatch {
    /// A watch that begins at event `start_sequence` with the pane showing
    /// `status` and `presentation`; the initial status is to be reported
    /// when it passes the filter.
    pub fn new(status_filter: Option<AgentStatus>, status: AgentStatus, presentation: PresentationSnapshot, start_sequence: u64) -> (r: Self)
        ensures
            r.status_filter == status_filter,
            r.last_status == Some(status),
            r.last_presentation == Some(presentation),
            r.initial_pending == (status_filter == Some(status)),
            r.last_sequence == start_sequence,
    {
        let initial_pending = match status_filter {
            Some(wanted) => wanted == status,
            None => false,
        };
        StatusWatch {
            status_filter,
            last_status: Some(status),
            last_presentation: Some(presentation),
            initial_pending,
            last_sequence: start_sequence,
        }
    }

    /// A status event of the pane at `sequence`: it is remembered, and
    /// reported when it passes the filter.
    pub fn observe_event(&mut self, sequence: u64, status: AgentStatus, presentation: PresentationSnapshot) -> (r: bool)
        ensures
            r == passes(old(self).status_filter, status),
            final(self).status_filter == old(self).status_filter,
            final(self).last_sequence == sequence,
            final(self).last_status == Some(status),
            final(self).last_presentation == Some(presentation),
            final(self).initial_pending == (old(self).initial_pending && !r),
    {
        self.last_sequence = sequence;
        self.last_status = Some(status);
        self.last_presentation = Some(presentation);
        let report = match self.status_filter {
            Some(wanted) => wanted == status,
            None => true,
        };
        if report {
            self.initial_pending = false;
        }
        report
    }

    /// The events through `watermark` have been looked at; a status event
    /// among them settles the initial report.
    pub fn finish_events(&mut self, watermark: u64, saw_status_event: bool)
        ensures
            final(self).last_sequence == if old(self).last_sequence >= watermark { old(self).last_sequence } else { watermark },
            final(self).initial_pending == (old(self).initial_pending && !saw_status_event),
            final(self).status_filter == old(self).status_filter,
            final(self).last_status == old(self).last_status,
            final(self).last_presentation == old(self).last_presentation,
    {
        if watermark > self.last_sequence {
            self.last_sequence = watermark;
        }
        if saw_status_event {
            self.initial_pending = false;
        }
    }

    /// Whether the pane shows something other than what was last seen.
    pub fn snapshot_changed(&self, status: AgentStatus, presentation: &PresentationSnapshot) -> (r: bool)
        ensures
            r == changed_from(*self, status, *presentation),
    {
        let status_changed = match self.last_status {
            Some(previous) => previous != status,
            None => false,
        };
        if status_changed {
            return true;
        }
        match &self.last_presentation {
            Some(previous) => !same_snapshot(previous, presentation),
            None => false,
        }
    }

    /// The initial observation of the pane: it is remembered, and reported
    /// when it shows the wanted status.
    pub fn observe_initial(&mut self, status: AgentStatus, presentation: PresentationSnapshot) -> (r: bool)
        ensures
            r == (old(self).status_filter == Some(status)),
            !final(self).initial_pending,
            final(self).last_status == Some(status),
            final(self).last_presentation == Some(presentation),
            final(self).status_filter == old(self).status_filter,
            final(self).last_sequence == old(self).last_sequence,
    {
        self.initial_pending = false;
        self.last_status = Some(status);
        self.last_presentation = Some(presentation);
        match self.status_filter {
            Some(wanted) => wanted == status,
            None => false,
        }
    }

    /// A confirmed snapshot of the pane: it is remembered, and reported when
    /// it changed and passes the filter.
    pub fn observe_snapshot(&mut self, status: AgentStatus, presentation: PresentationSnapshot) -> (r: bool)
        ensures
            r == (changed_from(*old(self), status, presentation) && passes(old(self).status_filter, status)),
            final(self).last_status == Some(status),
            final(self).last_presentation == Some(presentation),
            final(self).status_filter == old(self).status_filter,
            final(self).initial_pending == old(self).initial_pending,
            final(self).last_sequence == old(self).last_sequence,
    {
        let changed = self.snapshot_changed(status, &presentation);
        self.last_status = Some(status);
        self.last_presentation = Some(presentation);
        let wanted = match self.status_filter {
            Some(wanted) => wanted == status,
            None => true,
        };
        changed && wanted
    }
}

/// A snapshot is reported at most once: observing the same status and
/// presentation again reports nothing.
pub proof fn lemma_snapshot_reported_once(w: StatusWatch, status: AgentStatus, presentation: PresentationSnapshot)
    requires
        w.last_status == Some(status),
        w.last_presentation == Some(presentation),
    ensures
        !changed_from(w, status, presentation),
{
}

} // verus!

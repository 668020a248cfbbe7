use vstd::prelude::*;

use crate::dag::CommitId;

verus! {

/// Identifier grouping all events of one logical operation.
pub type EventTransactionId = u64;

/// What an event did to the commit graph.
#[derive(Clone, Copy, Debug, PartialEq, Eq, Structural)]
pub enum EventKind {
    /// A commit was created.
    Commit { commit: CommitId },
    /// A commit was hidden.
    Hide { commit: CommitId },
    /// A hidden commit was made visible again.
    Unhide { commit: CommitId },
    /// A commit was rewritten into a new one.
    Rewrite { old_commit: CommitId, new_commit: CommitId },
}

/// One record of the event log.
#[derive(Clone, Copy, Debug, PartialEq, Eq, Structural)]
pub struct Event {
    pub tx_id: EventTransactionId,
    pub timestamp: u64,
    pub kind: EventKind,
}

/// The visibility that `e` gives to commit `c`, if it speaks of `c`.
pub open spec fn effect(e: Event, c: CommitId) -> Option<bool> {
    match e.kind {
        EventKind::Commit { commit } => if commit == c { Some(true) } else { None },
        EventKind::Hide { commit } => if commit == c { Some(false) } else { None },
        EventKind::Unhide { commit } => if commit == c { Some(true) } else { None },
        EventKind::Rewrite { old_commit, new_commit } => if new_commit == c {
            Some(true)
        } else if old_commit == c {
            Some(false)
        } else {
            None
        },
    }
}

/// Whether `c` is visible after `events`: the last event that speaks of `c`
/// decides; a commit that no event speaks of is visible.
pub open spec fn visible_after(events: Seq<Event>, c: CommitId) -> bool
    decreases events.len(),
{
    if events.len() == 0 {
        true
    } else {
        match effect(events.last(), c) {
            Some(v) => v,
            None => visible_after(events.drop_last(), c),
        }
    }
}

/// Whether `c` is visible after `e`, from its visibility `before` it.
fn apply_event(e: &Event, c: CommitId, before: bool) -> (r: bool)
    ensures
        r == match effect(*e, c) {
            Some(v) => v,
            None => before,
        },
{
    match e.kind {
        EventKind::Commit { commit } => if commit == c { true } else { before },
        EventKind::Hide { commit } => if commit == c { false } else { before },
        EventKind::Unhide { commit } => if commit == c { true } else { before },
        EventKind::Rewrite { old_commit, new_commit } => if new_commit == c {
            true
        } else if old_commit == c {
            false
        } else {
            before
        },
    }
}

/// The append-only event log, replayed to classify commits.
pub struct EventReplayer {
    events: Vec<Event>,
    next_tx_id: EventTransactionId,
}

impl EventReplayer {
    pub closed spec fn events(&self) -> Seq<Event> {
        self.events@
    }

    pub closed spec fn next_tx_id(&self) -> EventTransactionId {
        self.next_tx_id
    }

    pub fn new() -> (r: Self)
        ensures
            r.events() == Seq::<Event>::empty(),
            r.next_tx_id() == 1,
    {
        EventReplayer { events: Vec::new(), next_tx_id: 1 }
    }

    /// Allocates a new transaction id, distinct from every earlier one.
    pub fn make_transaction_id(&mut self) -> (r: Option<EventTransactionId>)
        ensures
            old(self).next_tx_id() < u64::MAX ==> r == Some(old(self).next_tx_id())
                && final(self).next_tx_id() == old(self).next_tx_id() + 1,
            old(self).next_tx_id() == u64::MAX ==> r is None && final(self).next_tx_id() == old(self).next_tx_id(),
            final(self).events() == old(self).events(),
    {
        if self.next_tx_id == u64::MAX {
            return None;
        }
        let id = self.next_tx_id;
        self.next_tx_id = id + 1;
        Some(id)
    }

    /// Appends an event to the log.
    pub fn add_event(&mut self, e: Event)
        ensures
            final(self).events() == old(self).events().push(e),
            final(self).next_tx_id() == old(self).next_tx_id(),
    {
        self.events.push(e);
    }

    /// The cursor at the current end of the log.
    pub fn make_default_cursor(&self) -> (r: usize)
        ensures
            r == self.events().len(),
    {
        self.events.len()
    }

    /// The visibility of the commits `0..n` after replaying the log up to `cursor`.
    pub fn visibility(&self, cursor: usize, n: usize) -> (r: Vec<bool>)
        requires
            cursor <= self.events().len(),
        ensures
            r@.len() == n,
            forall|c: int| 0 <= c < n ==> r@[c] == visible_after(self.events().take(cursor as int), c as CommitId),
    {
        let mut r: Vec<bool> = Vec::new();
        let mut c: usize = 0;
        while c < n
            invariant
                c <= n,
                r@.len() == c,
                forall|x: int| 0 <= x < c ==> r@[x],
            decreases n - c,
        {
            r.push(true);
            c = c + 1;
        }
        assert(self.events@.take(0) =~= Seq::<Event>::empty());
        let mut i: usize = 0;
        while i < cursor
            invariant
                cursor <= self.events@.len(),
                i <= cursor,
                r@.len() == n,
                forall|x: int| 0 <= x < n ==> r@[x] == visible_after(self.events@.take(i as int), x as CommitId),
            decreases cursor - i,
        {
            let e = &self.events[i];
            let mut c: usize = 0;
            while c < n
                invariant
                    i < cursor <= self.events@.len(),
                    *e == self.events@[i as int],
                    c <= n,
                    r@.len() == n,
                    forall|x: int| 0 <= x < c ==> r@[x] == visible_after(self.events@.take(i + 1), x as CommitId),
                    forall|x: int| c <= x < n ==> r@[x] == visible_after(self.events@.take(i as int), x as CommitId),
                decreases n - c,
            {
                let v = apply_event(e, c, r[c]);
                r.set(c, v);
                assert(self.events@.take(i + 1).drop_last() == self.events@.take(i as int));
                assert(self.events@.take(i + 1).last() == self.events@[i as int]);
                c = c + 1;
            }
            i = i + 1;
        }
        r
    }
}

} // verus!

//! The count of live connections.

use vstd::multiset::Multiset;
use vstd::prelude::*;

verus! {

/// A connection being accepted or finishing, with the session's number.
pub enum ConnEvent {
    Accept(nat),
    Finish(nat),
}

/// The number of live connections after a run of events, from none.
pub open spec fn live_after(events: Seq<ConnEvent>) -> int
    decreases events.len(),
{
    if events.len() == 0 {
        0
    } else {
        live_after(events.drop_last()) + match events.last() {
            ConnEvent::Accept(_) => 1int,
            ConnEvent::Finish(_) => -1int,
        }
    }
}

/// The sessions accepted in a run, each as often as it was accepted.
pub open spec fn accepted(events: Seq<ConnEvent>) -> Multiset<nat>
    decreases events.len(),
{
    if events.len() == 0 {
        Multiset::empty()
    } else {
        match events.last() {
            ConnEvent::Accept(id) => accepted(events.drop_last()).insert(id),
            ConnEvent::Finish(_) => accepted(events.drop_last()),
        }
    }
}

/// The sessions finished in a run, each as often as it finished.
pub open spec fn finished(events: Seq<ConnEvent>) -> Multiset<nat>
    decreases events.len(),
{
    if events.len() == 0 {
        Multiset::empty()
    } else {
        match events.last() {
            ConnEvent::Accept(_) => finished(events.drop_last()),
            ConnEvent::Finish(id) => finished(events.drop_last()).insert(id),
        }
    }
}

/// Whatever the interleaving of sessions, the count is the number of
/// accepts less the number of finishes; so once every accepted session has
/// finished exactly once, the count is back at zero.
pub proof fn lemma_count_returns_to_zero(events: Seq<ConnEvent>)
    ensures
        live_after(events) == accepted(events).len() - finished(events).len(),
        accepted(events) == finished(events) ==> live_after(events) == 0,
    decreases events.len(),
{
    if events.len() > 0 {
        lemma_count_returns_to_zero(events.drop_last());
    }
}

/// The live-connection counter: one up on each accept, one down when a
/// session ends, whatever way it ends. `events` records each of them with
/// the session's number; `next` is the number the next accept hands out.
pub struct LiveCounter {
    pub live: u64,
    pub next: u64,
    pub events: Ghost<Seq<ConnEvent>>,
}

impl LiveCounter {
    /// The count agrees with the record of accepts and finishes.
    pub open spec fn wf(&self) -> bool {
        self.live as int == live_after(self.events@)
    }

    pub fn new() -> (c: LiveCounter)
        ensures
            c.wf(),
            c.live == 0,
            c.next == 0,
            c.events@ == Seq::<ConnEvent>::empty(),
    {
        LiveCounter { live: 0, next: 0, events: Ghost(Seq::empty()) }
    }

    /// Counts an accepted connection; returns the session's number.
    pub fn on_accept(&mut self) -> (id: u64)
        requires
            old(self).wf(),
            old(self).live < u64::MAX,
            old(self).next < u64::MAX,
        ensures
            final(self).wf(),
            id == old(self).next,
            final(self).next == old(self).next + 1,
            final(self).live == old(self).live + 1,
            final(self).events@ == old(self).events@.push(ConnEvent::Accept(id as nat)),
    {
        let id = self.next;
        self.next = self.next + 1;
        self.live = self.live + 1;
        self.events = Ghost(self.events@.push(ConnEvent::Accept(id as nat)));
        proof {
            assert(self.events@.drop_last() =~= old(self).events@);
        }
        id
    }

    /// Counts the end of session `id`.
    pub fn on_finish(&mut self, id: u64)
        requires
            old(self).wf(),
            old(self).live > 0,
        ensures
            final(self).wf(),
            final(self).next == old(self).next,
            final(self).live == old(self).live - 1,
            final(self).events@ == old(self).events@.push(ConnEvent::Finish(id as nat)),
    {
        self.live = self.live - 1;
        self.events = Ghost(self.events@.push(ConnEvent::Finish(id as nat)));
        proof {
            assert(self.events@.drop_last() =~= old(self).events@);
        }
    }
}

} // verus!

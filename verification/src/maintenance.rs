//! Background connections of all pooled nodes.
use std::collections::{HashSet, VecDeque};
use vstd::prelude::*;

verus! {

broadcast use vstd::std_specs::hash::group_hash_axioms;

/// Background connections that may be tried at once.
pub const MAX_BACKGROUND_CONNECTS: usize = 1;

/// The maintainer's work as contracts see it.
#[verifier::ext_equal]
pub struct MaintainerView {
    /// Nodes that wait for a background connection, first come first served.
    pub ready: Seq<u64>,
    /// The nodes that stand in the queue.
    pub queued: Set<u64>,
    /// Background connections that are being tried.
    pub in_flight: nat,
}

impl MaintainerView {
    /// Nothing to do.
    pub open spec fn idle() -> Self {
        MaintainerView { ready: Seq::empty(), queued: Set::empty(), in_flight: 0 }
    }

    /// The work with one more node in the queue, unless it stands there.
    pub open spec fn enqueued(self, id: u64) -> Self {
        if self.queued.contains(id) {
            self
        } else {
            MaintainerView { ready: self.ready.push(id), queued: self.queued.insert(id), ..self }
        }
    }

    /// The work after one background connection ended.
    pub open spec fn finished(self, id: u64, retry_now: bool) -> Self {
        let landed = MaintainerView {
            in_flight: if self.in_flight == 0 {
                0
            } else {
                (self.in_flight - 1) as nat
            },
            ..self
        };
        if retry_now {
            landed.enqueued(id)
        } else {
            landed
        }
    }

    /// The work after the periodic look at one node: one that is gone leaves the queue,
    /// one that lacks connections joins it.
    pub open spec fn scanned(self, id: u64, alive: bool, wanting: bool) -> Self {
        if !alive {
            MaintainerView { queued: self.queued.remove(id), ..self }
        } else if wanting {
            self.enqueued(id)
        } else {
            self
        }
    }

    /// Whether another background connection may be tried, and for which node.
    pub open spec fn turn(self) -> Option<u64> {
        if self.in_flight < MAX_BACKGROUND_CONNECTS && self.ready.len() > 0 {
            Some(self.ready[0])
        } else {
            None
        }
    }

    /// The work after the node whose turn it is left the queue.
    pub open spec fn taken(self) -> Self {
        match self.turn() {
            Some(id) => MaintainerView {
                ready: self.ready.drop_first(),
                queued: self.queued.remove(id),
                ..self
            },
            None => self,
        }
    }
}

/// Puts a node in the queue, unless it stands there.
pub fn enqueue(id: u64, ready: &mut VecDeque<u64>, queued: &mut HashSet<u64>)
    ensures
        final(ready)@ == if old(queued)@.contains(id) {
            old(ready)@
        } else {
            old(ready)@.push(id)
        },
        final(queued)@ == old(queued)@.insert(id),
{
    if queued.insert(id) {
        ready.push_back(id);
    }
}

/// The maintainer's work.
pub struct Maintainer {
    ready: VecDeque<u64>,
    queued: HashSet<u64>,
    in_flight: usize,
}

impl View for Maintainer {
    type V = MaintainerView;

    closed spec fn view(&self) -> MaintainerView {
        MaintainerView {
            ready: self.ready@,
            queued: self.queued@,
            in_flight: self.in_flight as nat,
        }
    }
}

impl Maintainer {
    /// Nothing to do.
    pub fn new() -> (maintainer: Self)
        ensures
            maintainer@ == MaintainerView::idle(),
    {
        Maintainer { ready: VecDeque::new(), queued: HashSet::new(), in_flight: 0 }
    }

    /// A node registered.
    pub fn registered(&mut self, id: u64, wanting: bool)
        ensures
            final(self)@ == if wanting {
                old(self)@.enqueued(id)
            } else {
                old(self)@
            },
    {
        if wanting {
            self.enqueue(id);
        }
    }

    fn enqueue(&mut self, id: u64)
        ensures
            final(self)@ == old(self)@.enqueued(id),
    {
        enqueue(id, &mut self.ready, &mut self.queued);
        assert(self@ =~= old(self)@.enqueued(id)) by {
            if old(self)@.queued.contains(id) {
                assert(old(self)@.queued.insert(id) =~= old(self)@.queued);
            }
        }
    }

    /// A background connection ended.
    pub fn finished(&mut self, id: u64, retry_now: bool)
        ensures
            final(self)@ == old(self)@.finished(id, retry_now),
    {
        if self.in_flight > 0 {
            self.in_flight = self.in_flight - 1;
        }
        if retry_now {
            self.enqueue(id);
        }
    }

    /// The periodic look at one node.
    pub fn scanned(&mut self, id: u64, alive: bool, wanting: bool)
        ensures
            final(self)@ == old(self)@.scanned(id, alive, wanting),
    {
        if !alive {
            let _ = self.queued.remove(&id);
        } else if wanting {
            self.enqueue(id);
        }
    }

    /// The node whose turn it is to get a background connection.
    pub fn next(&mut self) -> (id: Option<u64>)
        ensures
            id == old(self)@.turn(),
            final(self)@ == old(self)@.taken(),
    {
        if self.in_flight >= MAX_BACKGROUND_CONNECTS {
            return None;
        }
        match self.ready.pop_front() {
            Some(id) => {
                let _ = self.queued.remove(&id);
                assert(self@ =~= old(self)@.taken());
                Some(id)
            },
            None => None,
        }
    }

    /// A background connection is being tried.
    pub fn started(&mut self)
        requires
            old(self)@.in_flight < MAX_BACKGROUND_CONNECTS,
        ensures
            final(self)@ == (MaintainerView { in_flight: old(self)@.in_flight + 1, ..old(self)@ }),
    {
        self.in_flight = self.in_flight + 1;
    }
}

/// Law: a node stands in the queue at most once, however often it asks.
pub proof fn law_asking_twice_is_asking_once(work: MaintainerView, id: u64)
    ensures
        work.enqueued(id).enqueued(id) == work.enqueued(id),
        work.enqueued(id).queued.contains(id),
{
}

/// Law: while the allowed background connections are being tried, no node gets its turn.
pub proof fn law_background_connections_are_bounded(work: MaintainerView)
    requires
        work.in_flight >= MAX_BACKGROUND_CONNECTS,
    ensures
        work.turn() is None,
        work.taken() == work,
{
}

/// Law: nodes are served first come first served. One that asks stands behind those that wait,
/// unless it stands there already; the one that has waited longest gets its turn when no
/// background connection is being tried, and leaves the queue with it.
pub proof fn law_nodes_wait_their_turn(work: MaintainerView, id: u64)
    ensures
        work.queued.contains(id) ==> work.enqueued(id) == work,
        !work.queued.contains(id) ==> {
            &&& work.enqueued(id).ready == work.ready.push(id)
            &&& work.enqueued(id).queued == work.queued.insert(id)
            &&& work.enqueued(id).in_flight == work.in_flight
        },
        work.in_flight == 0 && work.ready.len() > 0 ==> {
            &&& work.turn() == Some(work.ready[0])
            &&& work.ready == seq![work.ready[0]] + work.taken().ready
            &&& work.taken().queued == work.queued.remove(work.ready[0])
            &&& work.taken().in_flight == 0
        },
        work.in_flight > 0 || work.ready.len() == 0 ==> work.turn() is None && work.taken() == work,
{
    if work.ready.len() > 0 {
        assert(work.ready =~= seq![work.ready[0]] + work.ready.drop_first());
    }
}

/// Law: a background connection that ends makes room for another, and its node asks again just
/// when it is told to. The periodic look takes a node that is gone out of those known to wait,
/// lets one that lacks connections ask, and leaves any other alone.
pub proof fn law_ends_and_looks_lead_to_requests(work: MaintainerView, id: u64)
    ensures
        work.in_flight > 0 ==> work.finished(id, false).in_flight == work.in_flight - 1,
        work.in_flight == 0 ==> work.finished(id, false).in_flight == 0,
        work.finished(id, false).ready == work.ready,
        work.finished(id, false).queued == work.queued,
        work.finished(id, true) == work.finished(id, false).enqueued(id),
        work.scanned(id, true, true) == work.enqueued(id),
        work.scanned(id, true, false) == work,
        forall|wanting: bool|
            (#[trigger] work.scanned(id, false, wanting)).ready == work.ready && work.scanned(
                id,
                false,
                wanting,
            ).queued == work.queued.remove(id) && work.scanned(id, false, wanting).in_flight
                == work.in_flight,
        MaintainerView::idle().ready.len() == 0,
        MaintainerView::idle().in_flight == 0,
{
}

} // verus!

//! Equivalent stream providers behind one selector.
use crate::balance::quota::{QuotaBalancerOptions, QuotaSelector, QuotaTicket, ReplicaSnapshot};
use crate::error::NetError;
use vstd::prelude::*;

#[allow(unused_imports)]
use crate::balance::quota::{options_complaint, SelectorView};

verus! {

/// Selects one of several equivalent providers by consumed request-time quota.
pub struct Pool<C> {
    replicas: Vec<C>,
    balancer: QuotaSelector,
}

impl<C> Pool<C> {
    /// The providers, in selection order.
    pub closed spec fn replicas(&self) -> Seq<C> {
        self.replicas@
    }

    /// The state of the selector.
    pub closed spec fn selector(&self) -> SelectorView {
        self.balancer@
    }

    /// The selector counts just these providers.
    pub open spec fn wf(&self) -> bool {
        &&& self.selector().valid()
        &&& self.selector().used.len() == self.replicas().len()
    }

    /// Providers with default limits.
    pub fn new(replicas: Vec<C>) -> (pool: Result<Self, NetError>)
        ensures
            match pool {
                Ok(pool) => {
                    &&& pool.wf()
                    &&& pool.replicas() == replicas@
                    &&& pool.selector().current == 0
                    &&& pool.selector().quota == 2_000_000
                    &&& pool.selector().penalty == 500_000
                    &&& forall|i: int|
                        0 <= i < replicas@.len() ==> #[trigger] pool.selector().used[i] == 0
                },
                Err(error) => replicas@.len() == 0 && error is NoReplicas,
            },
    {
        Self::with_options(replicas, QuotaBalancerOptions::default())
    }

    /// Providers in the order given.
    pub fn with_options(replicas: Vec<C>, options: QuotaBalancerOptions) -> (pool: Result<
        Self,
        NetError,
    >)
        ensures
            match pool {
                Ok(pool) => {
                    &&& replicas@.len() > 0
                    &&& options_complaint(options) is None
                    &&& pool.wf()
                    &&& pool.replicas() == replicas@
                    &&& pool.selector() == SelectorView::fresh(replicas@.len(), options, 0)
                },
                Err(error) => if replicas@.len() == 0 {
                    error is NoReplicas
                } else {
                    options_complaint(options) matches Some(message) && error.rejects(message)
                },
            },
    {
        if replicas.len() == 0 {
            return Err(NetError::NoReplicas);
        }
        match QuotaSelector::new(replicas.len(), options) {
            Ok(balancer) => Ok(Pool { replicas, balancer }),
            Err(error) => Err(error),
        }
    }

    /// How many providers there are.
    pub fn replica_count(&self) -> (count: usize)
        ensures
            count == self.replicas().len(),
    {
        self.replicas.len()
    }

    /// What each provider has consumed.
    pub fn snapshots(&self) -> (snapshots: Vec<ReplicaSnapshot>)
        ensures
            snapshots@.len() == self.selector().used.len(),
            forall|i: int|
                0 <= i < snapshots@.len() ==> (#[trigger] snapshots@[i]).used_quota.nanos
                    == self.selector().used[i] * 1_000 && snapshots@[i].current == (i
                    == self.selector().current),
    {
        self.balancer.snapshots()
    }

    /// The provider that the next lease comes from.
    pub fn select(&mut self) -> (ticket: QuotaTicket)
        requires
            old(self).wf(),
        ensures
            final(self).wf(),
            final(self).replicas() == old(self).replicas(),
            final(self).selector() == old(self).selector().selected(),
            ticket.issued_for(final(self).selector().current),
    {
        self.balancer.select()
    }

    /// One provider.
    pub fn replica(&self, index: usize) -> (replica: &C)
        requires
            index < self.replicas().len(),
        ensures
            *replica == self.replicas()[index as int],
    {
        &self.replicas[index]
    }

    /// The selector, to be charged when leases end.
    pub fn balancer(&mut self) -> (selector: &mut QuotaSelector)
        ensures
            selector@ == old(self).selector(),
            final(self).selector() == final(selector)@,
            final(self).replicas() == old(self).replicas(),
    {
        &mut self.balancer
    }
}

} // verus!

//! Whether a leased connection may be used again.
use vstd::prelude::*;

verus! {

/// What is known of a leased connection.
///
/// The connection returns to its pool only when the enclosing operation succeeds; all
/// other ends of the lease close it.
#[derive(Clone, Copy, Debug, PartialEq, Eq, Structural)]
pub struct StreamLease {
    pub reusable: bool,
    pub discarded: bool,
    pub broken: bool,
}

impl StreamLease {
    /// The lease after its operation succeeded.
    pub open spec fn succeeded(self) -> Self {
        StreamLease { reusable: !self.discarded && !self.broken, ..self }
    }

    /// The lease after its connection failed.
    pub open spec fn failed(self) -> Self {
        StreamLease { reusable: false, broken: true, ..self }
    }

    /// Whether the connection returns to its pool when the lease ends.
    pub open spec fn kept(self) -> bool {
        self.reusable && !self.discarded && !self.broken
    }

    /// A lease that just began.
    pub fn new() -> (lease: Self)
        ensures
            lease == (StreamLease { reusable: false, discarded: false, broken: false }),
    {
        StreamLease { reusable: false, discarded: false, broken: false }
    }

    /// Prevents the connection from being used again even if the operation succeeds.
    pub fn discard(&mut self)
        ensures
            *final(self) == (StreamLease { discarded: true, ..*old(self) }),
    {
        self.discarded = true;
    }

    /// The operation succeeded.
    pub fn finish_success(&mut self)
        ensures
            *final(self) == old(self).succeeded(),
    {
        self.reusable = !self.discarded && !self.broken;
    }

    /// The connection failed.
    pub fn mark_broken(&mut self)
        ensures
            *final(self) == old(self).failed(),
    {
        self.broken = true;
        self.reusable = false;
    }

    /// A read ended: one that failed, or that brought nothing although something was
    /// wanted, breaks the connection.
    pub fn after_read(&mut self, failed: bool, wanted: usize, received: usize)
        ensures
            *final(self) == if failed || (wanted > 0 && received == 0) {
                old(self).failed()
            } else {
                *old(self)
            },
    {
        if failed || (wanted > 0 && received == 0) {
            self.mark_broken();
        }
    }

    /// A write ended: one that failed, or that took nothing of some bytes, breaks the
    /// connection.
    pub fn after_write(&mut self, failed: bool, offered: usize, taken: usize)
        ensures
            *final(self) == if failed || (offered > 0 && taken == 0) {
                old(self).failed()
            } else {
                *old(self)
            },
    {
        if failed || (offered > 0 && taken == 0) {
            self.mark_broken();
        }
    }

    /// A flush or a vectored write ended: one that failed breaks the connection.
    pub fn after_flush(&mut self, failed: bool)
        ensures
            *final(self) == if failed {
                old(self).failed()
            } else {
                *old(self)
            },
    {
        if failed {
            self.mark_broken();
        }
    }

    /// Whether the connection returns to its pool when the lease ends.
    pub fn is_kept(&self) -> (kept: bool)
        ensures
            kept == self.kept(),
    {
        self.reusable && !self.discarded && !self.broken
    }
}

/// Law: a connection that was discarded or that failed never returns to its pool, and one
/// that did neither returns just when its operation succeeded.
pub proof fn law_damaged_connections_never_return(lease: StreamLease)
    ensures
        lease.succeeded().kept() <==> !lease.discarded && !lease.broken,
        !lease.failed().succeeded().kept(),
        !lease.reusable ==> !lease.kept(),
{
}

/// Law: success is remembered and changes nothing else; a failure breaks the connection for
/// good and leaves no trace of an earlier success.
pub proof fn law_leases_remember_what_happened(lease: StreamLease)
    ensures
        lease.succeeded().discarded == lease.discarded,
        lease.succeeded().broken == lease.broken,
        lease.succeeded().reusable <==> !lease.discarded && !lease.broken,
        lease.failed().broken,
        !lease.failed().reusable,
        lease.failed().discarded == lease.discarded,
        lease.kept() <==> lease.reusable && !lease.discarded && !lease.broken,
{
}

/// Law: a read or a write that fails, or that moves no byte although some were wanted, breaks
/// the connection; one that does its work changes nothing.
pub proof fn law_idle_transfers_break_the_connection(
    before: StreamLease,
    read: StreamLease,
    written: StreamLease,
    failed: bool,
    wanted: usize,
    moved: usize,
)
    requires
        exists|lease: &mut StreamLease|
            *lease == before && *final(lease) == read && #[trigger] call_ensures(
                StreamLease::after_read,
                (lease, failed, wanted, moved),
                (),
            ),
        exists|lease: &mut StreamLease|
            *lease == before && *final(lease) == written && #[trigger] call_ensures(
                StreamLease::after_write,
                (lease, failed, wanted, moved),
                (),
            ),
    ensures
        failed || (wanted > 0 && moved == 0) ==> read.broken && !read.kept() && written.broken
            && !written.kept(),
        !failed && (wanted == 0 || moved > 0) ==> read == before && written == before,
{
}

/// Law: a lease that was given up, or whose connection failed, keeps no connection, even when
/// its operation succeeds after that; any other that succeeds does.
pub proof fn law_lost_connections_stay_lost(
    before: StreamLease,
    discarded: StreamLease,
    broken: StreamLease,
    after_discard: StreamLease,
    after_failure: StreamLease,
    after: StreamLease,
)
    requires
        exists|lease: &mut StreamLease|
            *lease == before && *final(lease) == discarded && #[trigger] call_ensures(
                StreamLease::discard,
                (lease,),
                (),
            ),
        exists|lease: &mut StreamLease|
            *lease == before && *final(lease) == broken && #[trigger] call_ensures(
                StreamLease::mark_broken,
                (lease,),
                (),
            ),
        exists|lease: &mut StreamLease|
            *lease == discarded && *final(lease) == after_discard && #[trigger] call_ensures(
                StreamLease::finish_success,
                (lease,),
                (),
            ),
        exists|lease: &mut StreamLease|
            *lease == broken && *final(lease) == after_failure && #[trigger] call_ensures(
                StreamLease::finish_success,
                (lease,),
                (),
            ),
        exists|lease: &mut StreamLease|
            *lease == before && *final(lease) == after && #[trigger] call_ensures(
                StreamLease::finish_success,
                (lease,),
                (),
            ),
    ensures
        !discarded.kept(),
        !broken.kept(),
        !after_discard.kept(),
        !after_failure.kept(),
        after.kept() <==> !before.discarded && !before.broken,
{
}

} // verus!

//! Endpoint addresses and dynamically replaceable sets of them.
use crate::outside::SnapshotCell;
use crate::ranked::{sort_dedup, Ranked};
use std::sync::Arc;
use vstd::prelude::*;

#[allow(unused_imports)]
use crate::outside::cell_contents;
#[allow(unused_imports)]
use crate::ranked::{has_key, law_normal_form_is_canonical, normal_form, strictly_ranked};

verus! {

/// The address of one physical endpoint.
#[derive(Clone, Copy, Debug, PartialEq, Eq, Hash, Structural)]
#[allow(inconsistent_fields)]
pub enum Endpoint {
    V4 { ip: u32, port: u16 },
    V6 { ip: u128, port: u16, flowinfo: u32, scope_id: u32 },
}

/// Endpoint order: IPv4 first, then by address, then by port, then by the IPv6 extras.
pub open spec fn endpoint_precedes(a: Endpoint, b: Endpoint) -> bool {
    match (a, b) {
        (Endpoint::V4 { ip: a, port: p }, Endpoint::V4 { ip: b, port: q }) => a < b || (a == b && p
            < q),
        (Endpoint::V4 { .. }, Endpoint::V6 { .. }) => true,
        (Endpoint::V6 { .. }, Endpoint::V4 { .. }) => false,
        (
            Endpoint::V6 { ip: a, port: p, flowinfo: f, scope_id: s },
            Endpoint::V6 { ip: b, port: q, flowinfo: g, scope_id: t },
        ) => a < b || (a == b && (p < q || (p == q && (f < g || (f == g && s < t))))),
    }
}

impl Ranked for Endpoint {
    type Key = Endpoint;

    open spec fn key(self) -> Endpoint {
        self
    }

    open spec fn precedes(a: Endpoint, b: Endpoint) -> bool {
        endpoint_precedes(a, b)
    }

    proof fn lemma_irreflexive(a: Endpoint) {
    }

    proof fn lemma_transitive(a: Endpoint, b: Endpoint, c: Endpoint) {
    }

    proof fn lemma_total(a: Endpoint, b: Endpoint) {
    }

    fn is_before(&self, other: &Self) -> (before: bool) {
        match (*self, *other) {
            (Endpoint::V4 { ip: a, port: p }, Endpoint::V4 { ip: b, port: q }) => a < b || (a == b
                && p < q),
            (Endpoint::V4 { .. }, Endpoint::V6 { .. }) => true,
            (Endpoint::V6 { .. }, Endpoint::V4 { .. }) => false,
            (
                Endpoint::V6 { ip: a, port: p, flowinfo: f, scope_id: s },
                Endpoint::V6 { ip: b, port: q, flowinfo: g, scope_id: t },
            ) => a < b || (a == b && (p < q || (p == q && (f < g || (f == g && s < t))))),
        }
    }
}

/// The endpoints in order, each once.
pub fn normalize(endpoints: Vec<Endpoint>) -> (sorted: Vec<Endpoint>)
    ensures
        normal_form(endpoints@, sorted@),
{
    sort_dedup(endpoints)
}

/// Whether some position of `endpoints` holds `endpoint`.
pub fn contains(endpoints: &Vec<Endpoint>, endpoint: Endpoint) -> (found: bool)
    ensures
        found == endpoints@.contains(endpoint),
{
    let mut at: usize = 0;
    while at < endpoints.len()
        invariant
            at <= endpoints@.len(),
            forall|i: int| 0 <= i < at ==> endpoints@[i] != endpoint,
        decreases endpoints@.len() - at,
    {
        if endpoints[at] == endpoint {
            return true;
        }
        at = at + 1;
    }
    false
}

/// An immutable set of endpoints, in order.
pub struct EndpointSnapshot {
    endpoints: Arc<Vec<Endpoint>>,
}

impl View for EndpointSnapshot {
    type V = Seq<Endpoint>;

    closed spec fn view(&self) -> Seq<Endpoint> {
        self.endpoints@
    }
}

impl EndpointSnapshot {
    #[verifier::type_invariant]
    spec fn in_order(self) -> bool {
        strictly_ranked(self.endpoints@)
    }

    /// The set of these endpoints.
    pub fn new(endpoints: Vec<Endpoint>) -> (snapshot: Self)
        ensures
            normal_form(endpoints@, snapshot@),
    {
        EndpointSnapshot { endpoints: Arc::new(normalize(endpoints)) }
    }

    /// The endpoints, in order and each once.
    pub fn endpoints(&self) -> (endpoints: Arc<Vec<Endpoint>>)
        ensures
            endpoints@ == self@,
            strictly_ranked(endpoints@),
    {
        proof {
            use_type_invariant(self);
        }
        self.endpoints.clone()
    }

    /// The set that takes the place of this one when the endpoints become these; `None`
    /// when that changes nothing.
    pub fn replacement(&self, endpoints: Vec<Endpoint>) -> (next: Option<EndpointSnapshot>)
        ensures
            next is None <==> (forall|endpoint: Endpoint| #[trigger]
                has_key(self@, endpoint) <==> has_key(endpoints@, endpoint)),
            next is None <==> normal_form(endpoints@, self@),
            next matches Some(snapshot) ==> normal_form(endpoints@, snapshot@),
    {
        proof {
            use_type_invariant(self);
        }
        let next = EndpointSnapshot::new(endpoints);
        let mut at: usize = 0;
        let mut same = self.endpoints.len() == next.endpoints.len();
        while same && at < self.endpoints.len()
            invariant
                at <= self@.len(),
                same ==> self@.len() == next@.len() && forall|i: int|
                    0 <= i < at ==> self@[i] == next@[i],
                !same ==> self@ != next@,
            decreases
                    self@.len() - at + if same {
                        1int
                    } else {
                        0
                    },
        {
            if self.endpoints[at] != next.endpoints[at] {
                same = false;
            } else {
                at = at + 1;
            }
        }
        proof {
            use_type_invariant(&next);
            if same {
                assert(self@ =~= next@);
            }
            if forall|endpoint: Endpoint| #[trigger]
                has_key(self@, endpoint) <==> has_key(endpoints@, endpoint) {
                assert forall|endpoint: Endpoint| #[trigger] has_key(self@, endpoint) <==> has_key(
                    next@,
                    endpoint,
                ) by {
                    assert(has_key(endpoints@, endpoint) <==> has_key(next@, endpoint));
                }
                law_normal_form_is_canonical(self@, next@);
                assert(self@ =~= next@);
            }
        }
        if same {
            None
        } else {
            Some(next)
        }
    }
}

/// An endpoint set that discovery can replace; snapshots that were read before stay as
/// they are.
pub struct EndpointSet {
    inner: SnapshotCell,
}

impl View for EndpointSet {
    type V = Seq<Endpoint>;

    closed spec fn view(&self) -> Seq<Endpoint> {
        cell_contents(self.inner)
    }
}

impl EndpointSet {
    /// A set of these endpoints.
    pub fn new(endpoints: Vec<Endpoint>) -> (set: Self)
        ensures
            normal_form(endpoints@, set@),
    {
        EndpointSet { inner: SnapshotCell::holding(EndpointSnapshot::new(endpoints)) }
    }

    /// Publishes these endpoints in place of the current ones; `false`, publishing nothing,
    /// when the set stays the same.
    pub fn replace(&mut self, endpoints: Vec<Endpoint>) -> (changed: bool)
        ensures
            !changed <==> (forall|endpoint: Endpoint| #[trigger]
                has_key(old(self)@, endpoint) <==> has_key(endpoints@, endpoint)),
            !changed ==> final(self)@ == old(self)@,
            normal_form(endpoints@, final(self)@),
    {
        let current = self.inner.load();
        assert((*current)@ == old(self)@);
        match current.replacement(endpoints) {
            Some(next) => {
                self.inner.store(next);
                true
            },
            None => false,
        }
    }

    /// The current endpoints, in order and each once.
    pub fn snapshot(&self) -> (endpoints: Arc<Vec<Endpoint>>)
        ensures
            endpoints@ == self@,
            strictly_ranked(endpoints@),
    {
        self.inner.load().endpoints()
    }
}

/// Law: replacing a set by itself, in any order and with any repetitions, changes nothing;
/// a set whose members differ has another sorted form.
pub proof fn law_only_real_changes_are_published(
    current: Seq<Endpoint>,
    proposed: Seq<Endpoint>,
    sorted: Seq<Endpoint>,
)
    requires
        strictly_ranked(current),
        normal_form(proposed, sorted),
    ensures
        current == sorted <==> (forall|endpoint: Endpoint| #[trigger]
            has_key(current, endpoint) <==> has_key(proposed, endpoint)),
{
    if forall|endpoint: Endpoint| #[trigger]
        has_key(current, endpoint) <==> has_key(proposed, endpoint) {
        assert forall|endpoint: Endpoint| #[trigger] has_key(current, endpoint) <==> has_key(
            sorted,
            endpoint,
        ) by {
            assert(has_key(proposed, endpoint) <==> has_key(sorted, endpoint));
        }
        law_normal_form_is_canonical(current, sorted);
        assert(current =~= sorted);
    }
    if current == sorted {
        assert forall|endpoint: Endpoint| #[trigger] has_key(current, endpoint) <==> has_key(
            proposed,
            endpoint,
        ) by {
            assert(has_key(proposed, endpoint) <==> has_key(sorted, endpoint));
        }
    }
}

/// Law: endpoints are ordered by family, IPv4 first, then by address, then by port; equal ones
/// do not precede each other.
pub proof fn law_endpoints_are_ordered_by_address(a: Endpoint, b: Endpoint)
    ensures
        a is V4 && b is V6 ==> endpoint_precedes(a, b) && !endpoint_precedes(b, a),
        a is V4 && b is V4 && a->V4_ip < b->V4_ip ==> endpoint_precedes(a, b)
            && !endpoint_precedes(b, a),
        a is V4 && b is V4 && a->V4_ip == b->V4_ip && a->V4_port < b->V4_port ==> endpoint_precedes(
            a,
            b,
        ) && !endpoint_precedes(b, a),
        a is V6 && b is V6 && a->V6_ip < b->V6_ip ==> endpoint_precedes(a, b)
            && !endpoint_precedes(b, a),
        a is V6 && b is V6 && a->V6_ip == b->V6_ip && a->V6_port < b->V6_port ==> endpoint_precedes(
            a,
            b,
        ) && !endpoint_precedes(b, a),
        !endpoint_precedes(a, a),
{
}

/// Law: a set of endpoints holds each of those it was made of once, in order, and no other.
pub proof fn law_sets_hold_each_endpoint_once(endpoints: Seq<Endpoint>, set: Seq<Endpoint>)
    requires
        normal_form(endpoints, set),
    ensures
        forall|endpoint: Endpoint| #[trigger]
            set.contains(endpoint) <==> endpoints.contains(endpoint),
        forall|i: int, j: int|
            0 <= i < j < set.len() ==> #[trigger] set[i] != #[trigger] set[j] && endpoint_precedes(
                set[i],
                set[j],
            ),
{
    assert forall|endpoint: Endpoint| #[trigger] set.contains(endpoint) <==> endpoints.contains(
        endpoint,
    ) by {
        if set.contains(endpoint) {
            let i = choose|i: int| 0 <= i < set.len() && set[i] == endpoint;
            assert(set[i].key() == endpoint);
            assert(has_key(set, endpoint));
            assert(has_key(endpoints, endpoint));
            let j = choose|j: int|
                0 <= j < endpoints.len() && (#[trigger] endpoints[j]).key() == endpoint;
            assert(endpoints[j] == endpoint);
        }
        if endpoints.contains(endpoint) {
            let i = choose|i: int| 0 <= i < endpoints.len() && endpoints[i] == endpoint;
            assert(endpoints[i].key() == endpoint);
            assert(has_key(endpoints, endpoint));
            assert(has_key(set, endpoint));
            let j = choose|j: int| 0 <= j < set.len() && (#[trigger] set[j]).key() == endpoint;
            assert(set[j] == endpoint);
        }
    }
    assert forall|i: int, j: int| 0 <= i < j < set.len() implies #[trigger] set[i]
        != #[trigger] set[j] && endpoint_precedes(set[i], set[j]) by {
        assert(<Endpoint as Ranked>::precedes(set[i].key(), set[j].key()));
        law_endpoints_are_ordered_by_address(set[i], set[j]);
    }
}

/// Law: a snapshot shows the endpoints that were published last, each of them and no other;
/// a replacement is reported just when the snapshots before and after it differ.
pub proof fn law_snapshots_show_what_was_published(
    before: EndpointSet,
    after: EndpointSet,
    endpoints: Vec<Endpoint>,
    changed: bool,
    earlier: Arc<Vec<Endpoint>>,
    later: Arc<Vec<Endpoint>>,
)
    requires
        call_ensures(EndpointSet::snapshot, (&before,), earlier),
        exists|set: &mut EndpointSet|
            *set == before && *final(set) == after && #[trigger] call_ensures(
                EndpointSet::replace,
                (set, endpoints),
                changed,
            ),
        call_ensures(EndpointSet::snapshot, (&after,), later),
    ensures
        forall|endpoint: Endpoint| #[trigger]
            later@.contains(endpoint) <==> endpoints@.contains(endpoint),
        changed <==> earlier@ != later@,
{
    assert forall|endpoint: Endpoint| #[trigger]
        later@.contains(endpoint) <==> endpoints@.contains(endpoint) by {
        assert(has_key(endpoints@, endpoint) <==> has_key(later@, endpoint));
    }
    if earlier@ == later@ {
        assert forall|endpoint: Endpoint| #[trigger]
            has_key(before@, endpoint) <==> has_key(endpoints@, endpoint) by {
            assert(has_key(endpoints@, endpoint) <==> has_key(later@, endpoint));
        }
    }
}

} // verus!

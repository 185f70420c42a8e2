//! The IPv4 addresses of one DNS answer.
use crate::ranked::sort_dedup;
use crate::source::Endpoint;
use vstd::prelude::*;

#[allow(unused_imports)]
use crate::ranked::{has_key, law_normal_form_is_canonical, normal_form, strictly_ranked, Ranked};

verus! {

/// A digest that tells most different address lists apart at a glance.
#[derive(Clone, Copy, Debug, PartialEq, Eq, Structural)]
pub struct Ipv4Fingerprint {
    pub len: u32,
    pub sum: u64,
    pub xor: u32,
}

/// Sum of the addresses, modulo 2^64.
pub open spec fn sum_of(addresses: Seq<u32>) -> nat
    decreases addresses.len(),
{
    if addresses.len() == 0 {
        0
    } else {
        (sum_of(addresses.drop_last()) + addresses.last() as nat) % 0x1_0000_0000_0000_0000
    }
}

/// Exclusive or of the addresses.
pub open spec fn xor_of(addresses: Seq<u32>) -> u32
    decreases addresses.len(),
{
    if addresses.len() == 0 {
        0
    } else {
        xor_of(addresses.drop_last()) ^ addresses.last()
    }
}

/// The digest of an address list.
pub open spec fn fingerprint_of(addresses: Seq<u32>) -> Ipv4Fingerprint {
    Ipv4Fingerprint {
        len: addresses.len() as u32,
        sum: sum_of(addresses) as u64,
        xor: xor_of(addresses),
    }
}

impl Ipv4Fingerprint {
    /// The digest of an address list.
    pub fn of(addresses: &[u32]) -> (fingerprint: Self)
        ensures
            fingerprint == fingerprint_of(addresses@),
    {
        let mut sum: u64 = 0;
        let mut xor: u32 = 0;
        let mut at: usize = 0;
        while at < addresses.len()
            invariant
                at <= addresses@.len(),
                sum == sum_of(addresses@.take(at as int)),
                xor == xor_of(addresses@.take(at as int)),
            decreases addresses@.len() - at,
        {
            let value = addresses[at];
            assert(addresses@.take(at + 1).drop_last() =~= addresses@.take(at as int));
            sum = sum.wrapping_add(value as u64);
            xor = xor ^ value;
            at = at + 1;
        }
        assert(addresses@.take(addresses@.len() as int) =~= addresses@);
        Ipv4Fingerprint { len: addresses.len() as u32, sum, xor }
    }
}

/// The IPv4 addresses among the endpoints of an answer, in its order.
pub open spec fn ipv4_of(answer: Seq<Endpoint>) -> Seq<u32>
    decreases answer.len(),
{
    if answer.len() == 0 {
        Seq::empty()
    } else {
        match answer.last() {
            Endpoint::V4 { ip, .. } => ipv4_of(answer.drop_last()).push(ip),
            Endpoint::V6 { .. } => ipv4_of(answer.drop_last()),
        }
    }
}

/// The IPv4 addresses among the endpoints of an answer; all others are dropped.
pub fn ipv4_addresses(answer: &Vec<Endpoint>) -> (addresses: Vec<u32>)
    ensures
        addresses@ == ipv4_of(answer@),
{
    let mut addresses: Vec<u32> = Vec::new();
    let mut at: usize = 0;
    while at < answer.len()
        invariant
            at <= answer@.len(),
            addresses@ == ipv4_of(answer@.take(at as int)),
        decreases answer@.len() - at,
    {
        assert(answer@.take(at + 1).drop_last() =~= answer@.take(at as int));
        match answer[at] {
            Endpoint::V4 { ip, .. } => {
                addresses.push(ip);
            },
            Endpoint::V6 { .. } => {},
        }
        at = at + 1;
    }
    assert(answer@.take(at as int) =~= answer@);
    addresses
}

/// The distinct addresses of one answer, in order.
pub struct Ipv4Snapshot {
    addresses: Vec<u32>,
    fingerprint: Ipv4Fingerprint,
}

impl View for Ipv4Snapshot {
    type V = Seq<u32>;

    closed spec fn view(&self) -> Seq<u32> {
        self.addresses@
    }
}

impl Ipv4Snapshot {
    #[verifier::type_invariant]
    spec fn consistent(self) -> bool {
        &&& self.addresses@.len() > 0
        &&& strictly_ranked(self.addresses@)
        &&& self.fingerprint == fingerprint_of(self.addresses@)
    }

    /// The distinct addresses of an answer; `None` when the answer has none.
    pub fn new(addresses: Vec<u32>) -> (snapshot: Option<Self>)
        ensures
            match snapshot {
                Some(snapshot) => addresses@.len() > 0 && normal_form(addresses@, snapshot@),
                None => addresses@.len() == 0,
            },
    {
        let ghost all = addresses@;
        let sorted = sort_dedup(addresses);
        if sorted.len() == 0 {
            proof {
                if all.len() > 0 {
                    assert(has_key(all, all[0]));
                    assert(has_key(sorted@, all[0]));
                }
            }
            return None;
        }
        proof {
            assert(has_key(sorted@, sorted@[0]));
            assert(has_key(all, sorted@[0]));
        }
        let fingerprint = Ipv4Fingerprint::of(sorted.as_slice());
        Some(Ipv4Snapshot { addresses: sorted, fingerprint })
    }

    /// The digest of the addresses.
    pub fn fingerprint(&self) -> (fingerprint: Ipv4Fingerprint)
        ensures
            fingerprint == fingerprint_of(self@),
    {
        proof {
            use_type_invariant(self);
        }
        self.fingerprint
    }

    /// The addresses, in order and each once.
    pub fn addresses(&self) -> (addresses: &Vec<u32>)
        ensures
            addresses@ == self@,
            addresses@.len() > 0,
            strictly_ranked(addresses@),
    {
        proof {
            use_type_invariant(self);
        }
        &self.addresses
    }

    /// Whether two answers have exactly the same addresses. The digests are compared
    /// first; only the full comparison says yes.
    pub fn same_set(&self, other: &Self) -> (same: bool)
        ensures
            same == (self@ == other@),
    {
        proof {
            use_type_invariant(self);
            use_type_invariant(other);
        }
        if self.fingerprint != other.fingerprint {
            return false;
        }
        if self.addresses.len() != other.addresses.len() {
            return false;
        }
        let mut at: usize = 0;
        while at < self.addresses.len()
            invariant
                at <= self@.len(),
                self@.len() == other@.len(),
                forall|i: int| 0 <= i < at ==> self@[i] == other@[i],
            decreases self@.len() - at,
        {
            if self.addresses[at] != other.addresses[at] {
                return false;
            }
            at = at + 1;
        }
        assert(self@ =~= other@);
        true
    }
}

/// Law: two answers made of the same addresses, in any order and with any repetitions,
/// compare equal, and answers that differ in one address do not.
pub proof fn law_answers_compare_as_sets(
    first: Seq<u32>,
    second: Seq<u32>,
    first_sorted: Seq<u32>,
    second_sorted: Seq<u32>,
)
    requires
        normal_form(first, first_sorted),
        normal_form(second, second_sorted),
    ensures
        first_sorted == second_sorted <==> (forall|address: u32| #[trigger]
            has_key(first, address) <==> has_key(second, address)),
{
    if forall|address: u32| #[trigger] has_key(first, address) <==> has_key(second, address) {
        assert forall|address: u32| #[trigger] has_key(first_sorted, address) <==> has_key(
            second_sorted,
            address,
        ) by {
            assert(has_key(first, address) <==> has_key(first_sorted, address));
            assert(has_key(second, address) <==> has_key(second_sorted, address));
        }
        law_normal_form_is_canonical(first_sorted, second_sorted);
        assert(first_sorted =~= second_sorted);
    }
    if first_sorted == second_sorted {
        assert forall|address: u32| #[trigger] has_key(first, address) <==> has_key(
            second,
            address,
        ) by {
            assert(has_key(second, address) <==> has_key(second_sorted, address));
        }
    }
}

/// Law: of an answer all IPv4 addresses are taken, in its order, and nothing else: each further
/// endpoint adds its address if it has an IPv4 one.
pub proof fn law_answers_keep_their_ipv4_addresses(answer: Seq<Endpoint>, next: Endpoint)
    ensures
        ipv4_of(Seq::empty()).len() == 0,
        next is V4 ==> ipv4_of(answer.push(next)) == ipv4_of(answer).push(next->V4_ip),
        next is V6 ==> ipv4_of(answer.push(next)) == ipv4_of(answer),
        forall|i: int|
            0 <= i < answer.len() && (#[trigger] answer[i]) is V4 ==> ipv4_of(answer).contains(
                answer[i]->V4_ip,
            ),
{
    assert(answer.push(next).drop_last() =~= answer);
    assert forall|i: int|
        0 <= i < answer.len() && (#[trigger] answer[i]) is V4 implies ipv4_of(answer).contains(
        answer[i]->V4_ip,
    ) by {
        lemma_ipv4_of(answer, i);
    }
}

proof fn lemma_ipv4_of(answer: Seq<Endpoint>, i: int)
    requires
        0 <= i < answer.len(),
        answer[i] is V4,
    ensures
        ipv4_of(answer).contains(answer[i]->V4_ip),
    decreases answer.len(),
{
    let less = answer.drop_last();
    let all = ipv4_of(answer);
    if i < less.len() {
        lemma_ipv4_of(less, i);
        let rest = ipv4_of(less);
        let k = choose|k: int| 0 <= k < rest.len() && rest[k] == less[i]->V4_ip;
        assert(all[k] == answer[i]->V4_ip);
    } else {
        assert(all[all.len() - 1] == answer[i]->V4_ip);
    }
}

/// Law: a digest counts the addresses, adds them up modulo 2^64 and combines them by exclusive
/// or, one after the other.
pub proof fn law_digests_take_every_address_in(addresses: Seq<u32>, next: u32)
    requires
        addresses.len() < u32::MAX,
    ensures
        fingerprint_of(Seq::empty()) == (Ipv4Fingerprint { len: 0, sum: 0, xor: 0 }),
        ({
            let before = fingerprint_of(addresses);
            let after = fingerprint_of(addresses.push(next));
            &&& after.len == before.len + 1
            &&& after.sum as int == (before.sum + next) % 0x1_0000_0000_0000_0000
            &&& after.xor == before.xor ^ next
        }),
{
    assert(addresses.push(next).drop_last() =~= addresses);
    lemma_sum_fits(addresses);
}

proof fn lemma_sum_fits(addresses: Seq<u32>)
    ensures
        sum_of(addresses) < 0x1_0000_0000_0000_0000,
{
}

/// Law: the addresses of an answer are kept lowest first, each once, and none is lost or added.
pub proof fn law_addresses_are_kept_lowest_first(addresses: Seq<u32>, sorted: Seq<u32>)
    requires
        normal_form(addresses, sorted),
    ensures
        forall|address: u32| #[trigger]
            sorted.contains(address) <==> addresses.contains(address),
        forall|i: int, j: int|
            0 <= i < j < sorted.len() ==> #[trigger] sorted[i] < #[trigger] sorted[j],
{
    assert forall|address: u32| #[trigger] sorted.contains(address) <==> addresses.contains(
        address,
    ) by {
        if sorted.contains(address) {
            let i = choose|i: int| 0 <= i < sorted.len() && sorted[i] == address;
            assert(sorted[i].key() == address);
            assert(has_key(sorted, address));
            assert(has_key(addresses, address));
            let j = choose|j: int|
                0 <= j < addresses.len() && (#[trigger] addresses[j]).key() == address;
            assert(addresses[j] == address);
        }
        if addresses.contains(address) {
            let i = choose|i: int| 0 <= i < addresses.len() && addresses[i] == address;
            assert(addresses[i].key() == address);
            assert(has_key(addresses, address));
            assert(has_key(sorted, address));
            let j = choose|j: int|
                0 <= j < sorted.len() && (#[trigger] sorted[j]).key() == address;
            assert(sorted[j] == address);
        }
    }
    assert forall|i: int, j: int| 0 <= i < j < sorted.len() implies #[trigger] sorted[i]
        < #[trigger] sorted[j] by {
        assert(<u32 as Ranked>::precedes(sorted[i].key(), sorted[j].key()));
    }
}

} // verus!

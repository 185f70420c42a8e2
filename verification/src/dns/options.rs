//! Options of the resolver and of one source, and the names that a source asks for.
use crate::dns::authority::Authority;
use crate::error::NetError;
use crate::ranked::sort_dedup;
use crate::time::Duration;
use vstd::prelude::*;

#[allow(unused_imports)]
use crate::dns::authority::{authority_of, invalid_authority_message};
#[allow(unused_imports)]
use crate::ranked::{has_key, strictly_ranked, Ranked};
#[allow(unused_imports)]
use crate::text::trimmed;

verus! {

/// Refresh policy for the names that one source follows.
#[derive(Clone, Copy, Debug)]
pub struct DnsOptions {
    pub refresh_interval: Duration,
}

impl Default for DnsOptions {
    fn default() -> (options: Self)
        ensures
            options.refresh_interval.nanos == 30_000_000_000,
    {
        DnsOptions { refresh_interval: Duration::from_secs(30) }
    }
}

/// Process-level limits of the DNS scheduler.
#[derive(Clone, Copy, Debug)]
pub struct DnsResolverOptions {
    /// Maximum number of system resolver calls running at once.
    pub max_concurrent_lookups: usize,
    /// New-host batching and change-coalescing cadence.
    pub scheduler_tick: Duration,
    /// Upper bound applied to one asynchronous resolver call.
    pub lookup_timeout: Duration,
}

impl Default for DnsResolverOptions {
    fn default() -> (options: Self)
        ensures
            options.max_concurrent_lookups == 1,
            options.scheduler_tick.nanos == 1_000_000_000,
            options.lookup_timeout.nanos == 5_000_000_000,
    {
        DnsResolverOptions {
            max_concurrent_lookups: 1,
            scheduler_tick: Duration::from_secs(1),
            lookup_timeout: Duration::from_secs(5),
        }
    }
}

/// Checks the limits of the DNS scheduler.
pub fn validate_resolver_options(options: DnsResolverOptions) -> (checked: Result<(), NetError>)
    ensures
        match checked {
            Ok(_) => options.max_concurrent_lookups > 0 && options.scheduler_tick.nanos > 0
                && options.lookup_timeout.nanos > 0,
            Err(error) => if options.max_concurrent_lookups == 0 {
                error.rejects("max_concurrent_lookups must be greater than zero"@)
            } else if options.scheduler_tick.nanos == 0 {
                error.rejects("DNS scheduler_tick must be greater than zero"@)
            } else {
                options.lookup_timeout.nanos == 0 && error.rejects(
                    "DNS lookup_timeout must be greater than zero"@,
                )
            },
        },
{
    if options.max_concurrent_lookups == 0 {
        return Err(NetError::invalid_config("max_concurrent_lookups must be greater than zero"));
    }
    if options.scheduler_tick.is_zero() {
        return Err(NetError::invalid_config("DNS scheduler_tick must be greater than zero"));
    }
    if options.lookup_timeout.is_zero() {
        return Err(NetError::invalid_config("DNS lookup_timeout must be greater than zero"));
    }
    Ok(())
}

/// The first name that writes no authority.
pub open spec fn first_invalid(names: Seq<String>) -> Option<Seq<char>>
    decreases names.len(),
{
    if names.len() == 0 {
        None
    } else {
        match first_invalid(names.drop_last()) {
            Some(name) => Some(name),
            None => if authority_of(names.last()@) is None {
                Some(names.last()@)
            } else {
                None
            },
        }
    }
}

/// Whether one of the names writes this authority.
pub open spec fn writes(names: Seq<String>, authority: (Seq<char>, u16)) -> bool {
    exists|i: int| 0 <= i < names.len() && authority_of((#[trigger] names[i])@) == Some(authority)
}

/// The authorities that a source follows: those that its names write, in order and each
/// once.
pub fn source_authorities(names: Vec<String>, options: DnsOptions) -> (authorities: Result<
    Vec<Authority>,
    NetError,
>)
    ensures
        match authorities {
            Ok(authorities) => {
                &&& options.refresh_interval.nanos > 0
                &&& first_invalid(names@) is None
                &&& authorities@.len() > 0
                &&& strictly_ranked(authorities@)
                &&& forall|authority: (Seq<char>, u16)| #[trigger]
                    has_key(authorities@, authority) <==> writes(names@, authority)
            },
            Err(error) => if options.refresh_interval.nanos == 0 {
                error.rejects("DNS refresh interval must be greater than zero"@)
            } else {
                match first_invalid(names@) {
                    Some(name) => error.rejects(invalid_authority_message(trimmed(name))),
                    None => names@.len() == 0 && error is NoEndpoints,
                }
            },
        },
{
    if options.refresh_interval.is_zero() {
        return Err(NetError::invalid_config("DNS refresh interval must be greater than zero"));
    }
    let mut parsed: Vec<Authority> = Vec::new();
    let mut at: usize = 0;
    while at < names.len()
        invariant
            at <= names@.len(),
            parsed@.len() == at,
            options.refresh_interval.nanos > 0,
            first_invalid(names@.take(at as int)) is None,
            forall|i: int|
                0 <= i < at ==> authority_of((#[trigger] names@[i])@) == Some(parsed@[i]@),
        decreases names@.len() - at,
    {
        assert(names@.take(at + 1).drop_last() =~= names@.take(at as int));
        match Authority::parse(names[at].clone()) {
            Ok(authority) => {
                parsed.push(authority);
            },
            Err(error) => {
                proof {
                    lemma_first_invalid_stays(names@, at + 1);
                }
                return Err(error);
            },
        }
        at = at + 1;
    }
    assert(names@.take(at as int) =~= names@);
    let ghost all = parsed@;
    let authorities = sort_dedup(parsed);
    proof {
        assert forall|authority: (Seq<char>, u16)| #[trigger]
            has_key(authorities@, authority) <==> writes(names@, authority) by {
            assert(has_key(authorities@, authority) <==> has_key(all, authority));
            if has_key(all, authority) {
                let i = choose|i: int|
                    0 <= i < all.len() && (#[trigger] all[i]).key() == authority;
                assert(authority_of(names@[i]@) == Some(all[i]@));
            }
            if writes(names@, authority) {
                let i = choose|i: int|
                    0 <= i < names@.len() && authority_of((#[trigger] names@[i])@) == Some(
                        authority,
                    );
                assert(all[i].key() == authority);
            }
        }
    }
    if authorities.len() == 0 {
        proof {
            if names@.len() > 0 {
                assert(authority_of(names@[0]@) == Some(all[0]@));
                assert(writes(names@, all[0]@));
                assert(has_key(authorities@, all[0]@));
            }
        }
        return Err(NetError::NoEndpoints);
    }
    Ok(authorities)
}

/// The first invalid name of the first names is the first of all.
proof fn lemma_first_invalid_stays(names: Seq<String>, count: int)
    requires
        0 <= count <= names.len(),
        first_invalid(names.take(count)) is Some,
    ensures
        first_invalid(names) == first_invalid(names.take(count)),
    decreases names.len() - count,
{
    if count < names.len() {
        assert(names.take(count + 1).drop_last() =~= names.take(count));
        lemma_first_invalid_stays(names, count + 1);
    } else {
        assert(names.take(count) =~= names);
    }
}

/// Law: the name that is complained about is the first that writes no authority; there is no
/// complaint just when every name writes one.
pub proof fn law_the_first_invalid_name_is_reported(names: Seq<String>)
    ensures
        match first_invalid(names) {
            Some(name) => exists|i: int|
                {
                    &&& 0 <= i < names.len()
                    &&& name == (#[trigger] names[i])@
                    &&& authority_of(names[i]@) is None
                    &&& forall|j: int|
                        0 <= j < i ==> authority_of((#[trigger] names[j])@) is Some
                },
            None => forall|j: int|
                0 <= j < names.len() ==> authority_of((#[trigger] names[j])@) is Some,
        },
    decreases names.len(),
{
    if names.len() > 0 {
        let less = names.drop_last();
        law_the_first_invalid_name_is_reported(less);
        assert forall|j: int| 0 <= j < less.len() implies #[trigger] less[j] == names[j] by {}
        if let Some(name) = first_invalid(less) {
            let i = choose|i: int|
                {
                    &&& 0 <= i < less.len()
                    &&& name == (#[trigger] less[i])@
                    &&& authority_of(less[i]@) is None
                    &&& forall|j: int|
                        0 <= j < i ==> authority_of((#[trigger] less[j])@) is Some
                };
            assert(name == names[i]@);
            assert forall|j: int| 0 <= j < i implies authority_of(
                (#[trigger] names[j])@,
            ) is Some by {
                assert(less[j] == names[j]);
            }
        } else {
            let last = names.len() - 1;
            assert forall|j: int| 0 <= j < last implies authority_of(
                (#[trigger] names[j])@,
            ) is Some by {
                assert(less[j] == names[j]);
            }
            if first_invalid(names) is Some {
                assert(first_invalid(names)->0 == names[last]@);
            }
        }
    }
}

/// Law: a source follows the host and port that each of its names writes, every name's, and
/// none that no name writes.
pub proof fn law_sources_follow_every_name(
    names: Vec<String>,
    options: DnsOptions,
    authorities: Vec<Authority>,
    i: int,
    k: int,
)
    requires
        call_ensures(source_authorities, (names, options), Ok(authorities)),
        0 <= i < names@.len(),
        0 <= k < authorities@.len(),
    ensures
        exists|j: int|
            0 <= j < authorities@.len() && authority_of(names@[i]@) == Some(
                (#[trigger] authorities@[j])@,
            ),
        exists|j: int|
            0 <= j < names@.len() && authority_of((#[trigger] names@[j])@) == Some(
                authorities@[k]@,
            ),
{
    law_the_first_invalid_name_is_reported(names@);
    assert(authority_of(names@[i]@) is Some);
    assert(writes(names@, authority_of(names@[i]@)->0));
    assert(has_key(authorities@, authority_of(names@[i]@)->0));
    assert(has_key(authorities@, authorities@[k]@));
    assert(writes(names@, authorities@[k]@));
}

} // verus!

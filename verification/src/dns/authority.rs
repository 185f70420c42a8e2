//! `host:port` names.
use crate::error::NetError;
use crate::outside::ascii_lowercase;
use crate::ranked::Ranked;
use crate::text::{
    has_colon, is_text_before, last_colon, number_text, parse_port, trim, trim_end_dots,
};
use vstd::prelude::*;

#[allow(unused_imports)]
use crate::text::{
    colon_of, digits_of, is_white, law_letters_are_made_small, law_numbers_read_back,
    law_ports_are_numbers, law_the_last_colon_is_found, law_trailing_dots_are_taken_off,
    law_trimming_takes_white_space_alone, lemma_text_irreflexive, lemma_text_total,
    lemma_text_transitive, lower, lowered, port_of, text_precedes, trimmed, trimmed_end,
    trimmed_start, without_dots,
};

verus! {

/// One name to resolve and the port to connect to.
#[derive(Debug)]
pub struct Authority {
    pub host: String,
    pub port: u16,
}

impl View for Authority {
    type V = (Seq<char>, u16);

    open spec fn view(&self) -> (Seq<char>, u16) {
        (self.host@, self.port)
    }
}

/// The host and the port that `name` writes, when it writes them: what is before the last
/// colon, trimmed, without trailing dots and in small letters, and what is after it,
/// trimmed, as a port number. The host is not empty and holds no colon.
pub open spec fn authority_of(name: Seq<char>) -> Option<(Seq<char>, u16)> {
    let name = trimmed(name);
    match colon_of(name) {
        None => None,
        Some(colon) => {
            let host = lowered(without_dots(trimmed(name.take(colon))));
            let port = port_of(trimmed(name.skip(colon + 1)));
            if host.len() == 0 || host.contains(':') || port is None {
                None
            } else {
                Some((host, port->0))
            }
        },
    }
}

/// The message about a name that writes no authority.
pub open spec fn invalid_authority_message(name: Seq<char>) -> Seq<char> {
    "invalid DNS authority '"@ + name + "', expected an IPv4 hostname and port"@
}

/// The error about a name that writes no authority.
pub fn invalid_authority(name: &str) -> (error: NetError)
    ensures
        error.rejects(invalid_authority_message(name@)),
{
    let mut message = "invalid DNS authority '".to_owned();
    message.append(name);
    message.append("', expected an IPv4 hostname and port");
    NetError::InvalidConfig(message)
}

impl Authority {
    /// Reads `host:port`.
    pub fn parse(name: String) -> (authority: Result<Authority, NetError>)
        ensures
            match authority {
                Ok(authority) => authority_of(name@) == Some(authority@),
                Err(error) => authority_of(name@) is None && error.rejects(
                    invalid_authority_message(trimmed(name@)),
                ),
            },
    {
        let name = trim(name.as_str());
        let colon = match last_colon(name) {
            Some(colon) => colon,
            None => {
                return Err(invalid_authority(name));
            },
        };
        let ghost text = name@;
        let head = name.substring_char(0, colon);
        assert(head@ =~= text.take(colon as int));
        let host = ascii_lowercase(trim_end_dots(trim(head)));
        if host.as_str().is_empty() || has_colon(host.as_str()) {
            return Err(invalid_authority(name));
        }
        let length = name.unicode_len();
        let tail = name.substring_char(colon + 1, length);
        assert(tail@ =~= text.skip(colon + 1));
        match parse_port(trim(tail)) {
            Some(port) => Ok(Authority { host, port }),
            None => Err(invalid_authority(name)),
        }
    }

    /// The name as `host:port`.
    pub fn name(&self) -> (name: String)
        ensures
            name@ == self.host@ + ":"@ + digits_of(self.port as nat),
    {
        let mut name = self.host.clone();
        name.append(":");
        name.append(number_text(self.port as usize).as_str());
        name
    }
}

impl Clone for Authority {
    fn clone(&self) -> (copy: Self)
        ensures
            copy@ == self@,
    {
        Authority { host: self.host.clone(), port: self.port }
    }
}

impl Ranked for Authority {
    type Key = (Seq<char>, u16);

    open spec fn key(self) -> (Seq<char>, u16) {
        self@
    }

    open spec fn precedes(a: (Seq<char>, u16), b: (Seq<char>, u16)) -> bool {
        text_precedes(a.0, b.0) || (a.0 == b.0 && a.1 < b.1)
    }

    proof fn lemma_irreflexive(a: (Seq<char>, u16)) {
        lemma_text_irreflexive(a.0);
    }

    proof fn lemma_transitive(a: (Seq<char>, u16), b: (Seq<char>, u16), c: (Seq<char>, u16)) {
        if text_precedes(a.0, b.0) && text_precedes(b.0, c.0) {
            lemma_text_transitive(a.0, b.0, c.0);
        }
    }

    proof fn lemma_total(a: (Seq<char>, u16), b: (Seq<char>, u16)) {
        lemma_text_total(a.0, b.0);
    }

    fn is_before(&self, other: &Self) -> (before: bool) {
        if is_text_before(self.host.as_str(), other.host.as_str()) {
            return true;
        }
        if self.host == other.host {
            self.port < other.port
        } else {
            false
        }
    }
}

/// Law: what a name means. A host and a port are read whatever white space stands around
/// either, and whatever dots end the host; capital letters do not matter.
pub proof fn law_names_are_read_leniently(
    before: Seq<char>,
    host: Seq<char>,
    dots: Seq<char>,
    inner: Seq<char>,
    between: Seq<char>,
    port: u16,
    behind: Seq<char>,
)
    requires
        forall|i: int| 0 <= i < before.len() ==> is_white(#[trigger] before[i]),
        forall|i: int| 0 <= i < inner.len() ==> is_white(#[trigger] inner[i]),
        forall|i: int| 0 <= i < between.len() ==> is_white(#[trigger] between[i]),
        forall|i: int| 0 <= i < behind.len() ==> is_white(#[trigger] behind[i]),
        forall|i: int| 0 <= i < dots.len() ==> #[trigger] dots[i] == '.',
        host.len() > 0,
        !is_white(host[0]),
        !is_white(host.last()),
        host.last() != '.',
        forall|i: int| 0 <= i < host.len() ==> #[trigger] host[i] != ':',
        port > 0,
    ensures
        authority_of(
            before + (host + dots + inner + seq![':'] + between + digits_of(port as nat)) + behind,
        ) == Some((lowered(host), port)),
{
    let digits = digits_of(port as nat);
    let head = host + dots + inner;
    let tail = between + digits;
    let core = host + dots + inner + seq![':'] + between + digits;
    let name = before + core + behind;
    law_numbers_read_back(port as nat);
    assert('0' <= digits[digits.len() - 1] <= '9');
    assert(core[0] == host[0]);
    assert(core.last() == digits.last());
    law_trimming_takes_white_space_alone(before, core, behind);
    assert(trimmed(name) == core);
    assert forall|i: int| 0 <= i < tail.len() implies #[trigger] tail[i] != ':' by {
        if i < between.len() {
            assert(tail[i] == between[i]);
            assert(is_white(between[i]));
        } else {
            assert(tail[i] == digits[i - between.len()]);
            assert('0' <= digits[i - between.len()] <= '9');
        }
    }
    assert(core =~= head.push(':') + tail);
    law_the_last_colon_is_found(head, tail);
    let colon = head.len() as int;
    assert(core.take(colon) =~= head);
    assert(core.skip(colon + 1) =~= tail);
    let none = Seq::<char>::empty();
    let full = host + dots;
    assert(full[0] == host[0]);
    assert(!is_white(full.last())) by {
        if dots.len() > 0 {
            assert(full.last() == dots[dots.len() - 1]);
        } else {
            assert(full =~= host);
        }
    }
    law_trimming_takes_white_space_alone(none, full, inner);
    assert(none + full + inner =~= head);
    law_trailing_dots_are_taken_off(host, dots);
    assert('0' <= digits[0] <= '9');
    law_trimming_takes_white_space_alone(between, digits, none);
    assert(between + digits + none =~= tail);
    law_ports_are_numbers(port as nat, none);
    assert forall|i: int| 0 <= i < lowered(host).len() implies #[trigger] lowered(host)[i]
        != ':' by {
        law_letters_are_made_small(host, i);
        assert(host[i] != ':');
    }
    assert(!lowered(host).contains(':'));
}

/// Law: a name that is read back from what it was written as is the same: host and port of the
/// text `host:port` are that host and that port.
pub proof fn law_names_read_back(host: Seq<char>, port: u16)
    requires
        host.len() > 0,
        !is_white(host[0]),
        !is_white(host.last()),
        host.last() != '.',
        forall|i: int| 0 <= i < host.len() ==> #[trigger] host[i] != ':',
        forall|i: int| 0 <= i < host.len() ==> !('A' <= #[trigger] host[i] <= 'Z'),
        port > 0,
    ensures
        authority_of(host + seq![':'] + digits_of(port as nat)) == Some((host, port)),
{
    let none = Seq::<char>::empty();
    law_names_are_read_leniently(none, host, none, none, none, port, none);
    assert(none + (host + none + none + seq![':'] + none + digits_of(port as nat)) + none =~= host
        + seq![':'] + digits_of(port as nat));
    assert(lowered(host) =~= host);
}

/// Law: what is read has a host that is not empty, without a colon, without capital letters and
/// without a dot at its end, and a port that is not zero. A name without a colon is not read.
pub proof fn law_authorities_are_in_order(name: Seq<char>)
    ensures
        authority_of(name) matches Some((host, port)) ==> {
            &&& host.len() > 0
            &&& port > 0
            &&& !host.contains(':')
            &&& forall|i: int| 0 <= i < host.len() ==> !('A' <= #[trigger] host[i] <= 'Z')
            &&& host.last() != '.'
        },
        (forall|i: int| 0 <= i < name.len() ==> #[trigger] name[i] != ':') ==> authority_of(
            name,
        ) is None,
{
    let text = trimmed(name);
    if let Some((host, port)) = authority_of(name) {
        let colon = colon_of(text)->0;
        let bare = without_dots(trimmed(text.take(colon)));
        lemma_ends_without(trimmed(text.take(colon)), |c: char| c == '.');
        assert(host == lowered(bare));
        assert(lowered(bare).len() == bare.len());
        assert(host.last() == lower(bare.last()));
    }
    if forall|i: int| 0 <= i < name.len() ==> #[trigger] name[i] != ':' {
        lemma_trimmed_is_part(name);
        law_the_last_colon_is_found(Seq::empty(), text);
    }
}

proof fn lemma_ends_without(text: Seq<char>, drop: spec_fn(char) -> bool)
    ensures
        ({
            let rest = trimmed_end(text, drop);
            &&& rest.len() > 0 ==> !drop(rest.last())
            &&& rest.len() <= text.len()
            &&& rest == text.take(rest.len() as int)
        }),
    decreases text.len(),
{
    if text.len() > 0 && drop(text.last()) {
        lemma_ends_without(text.drop_last(), drop);
        let rest = trimmed_end(text, drop);
        assert(text.drop_last().take(rest.len() as int) =~= text.take(rest.len() as int));
    } else {
        assert(text.take(text.len() as int) =~= text);
    }
}

proof fn lemma_trimmed_is_part(text: Seq<char>)
    requires
        forall|i: int| 0 <= i < text.len() ==> #[trigger] text[i] != ':',
    ensures
        forall|i: int| 0 <= i < trimmed(text).len() ==> #[trigger] trimmed(text)[i] != ':',
    decreases text.len(),
{
    if text.len() > 0 && is_white(text[0]) {
        let rest = text.skip(1);
        assert forall|i: int| 0 <= i < rest.len() implies #[trigger] rest[i] != ':' by {
            assert(rest[i] == text[i + 1]);
        }
        lemma_trimmed_is_part(rest);
        assert(trimmed(text) == trimmed(rest));
    } else {
        let drop = |c: char| is_white(c);
        lemma_ends_without(text, drop);
        assert(trimmed(text) == trimmed_end(text, drop));
        assert forall|i: int| 0 <= i < trimmed(text).len() implies #[trigger] trimmed(text)[i]
            != ':' by {
            assert(trimmed(text)[i] == text[i]);
        }
    }
}

/// Law: names are ordered by host, and names of one host by port.
pub proof fn law_names_are_ordered_by_host(a: (Seq<char>, u16), b: (Seq<char>, u16))
    ensures
        a.0 != b.0 ==> <Authority as Ranked>::precedes(a, b) == text_precedes(a.0, b.0),
        a.0 == b.0 ==> <Authority as Ranked>::precedes(a, b) == (a.1 < b.1),
{
    lemma_text_irreflexive(a.0);
}

} // verus!

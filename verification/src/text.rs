//! Characters, trimming and decimal numbers.
use vstd::prelude::*;

verus! {

/// Whether a code point has the Unicode property `White_Space`.
pub open spec fn is_white(c: char) -> bool {
    let point = c as u32;
    ||| 0x9 <= point <= 0xd
    ||| point == 0x20
    ||| point == 0x85
    ||| point == 0xa0
    ||| point == 0x1680
    ||| 0x2000 <= point <= 0x200a
    ||| point == 0x2028
    ||| point == 0x2029
    ||| point == 0x202f
    ||| point == 0x205f
    ||| point == 0x3000
}

/// `text` without leading white space.
pub open spec fn trimmed_start(text: Seq<char>) -> Seq<char>
    decreases text.len(),
{
    if text.len() > 0 && is_white(text[0]) {
        trimmed_start(text.skip(1))
    } else {
        text
    }
}

/// `text` without trailing characters that satisfy `drop`.
pub open spec fn trimmed_end(text: Seq<char>, drop: spec_fn(char) -> bool) -> Seq<char>
    decreases text.len(),
{
    if text.len() > 0 && drop(text.last()) {
        trimmed_end(text.drop_last(), drop)
    } else {
        text
    }
}

/// `text` without leading and trailing white space.
pub open spec fn trimmed(text: Seq<char>) -> Seq<char> {
    trimmed_end(trimmed_start(text), |c: char| is_white(c))
}

/// `text` without trailing dots.
pub open spec fn without_dots(text: Seq<char>) -> Seq<char> {
    trimmed_end(text, |c: char| c == '.')
}

/// A character with an ASCII capital letter made small.
pub open spec fn lower(c: char) -> char {
    if 'A' <= c <= 'Z' {
        (c as u32 + 32) as char
    } else {
        c
    }
}

/// `text` with ASCII capital letters made small.
pub open spec fn lowered(text: Seq<char>) -> Seq<char> {
    text.map_values(|c: char| lower(c))
}

/// The number that decimal digits write.
pub open spec fn decimal(digits: Seq<char>) -> nat
    decreases digits.len(),
{
    if digits.len() == 0 {
        0
    } else {
        decimal(digits.drop_last()) * 10 + (digits.last() as u32 - '0' as u32) as nat
    }
}

/// Whether `text` is one decimal digit after the other.
pub open spec fn all_digits(text: Seq<char>) -> bool {
    forall|i: int| 0 <= i < text.len() ==> '0' <= #[trigger] text[i] <= '9'
}

/// The digits of a number that may start with a plus sign.
pub open spec fn unsigned_part(text: Seq<char>) -> Seq<char> {
    if text.len() > 0 && text[0] == '+' {
        text.skip(1)
    } else {
        text
    }
}

/// The port number that `text` writes, if it writes one: an optional plus sign, then
/// digits, for a number from 1 to 65535.
pub open spec fn port_of(text: Seq<char>) -> Option<u16> {
    let digits = unsigned_part(text);
    if digits.len() > 0 && all_digits(digits) && 0 < decimal(digits) <= 65535 {
        Some(decimal(digits) as u16)
    } else {
        None
    }
}

fn is_white_space(c: char) -> (white: bool)
    ensures
        white == is_white(c),
{
    let point: u32 = c as u32;
    (0x9 <= point && point <= 0xd) || point == 0x20 || point == 0x85 || point == 0xa0 || point
        == 0x1680 || (0x2000 <= point && point <= 0x200a) || point == 0x2028 || point == 0x2029
        || point == 0x202f || point == 0x205f || point == 0x3000
}

/// `text` without leading and trailing white space.
pub fn trim(text: &str) -> (rest: &str)
    ensures
        rest@ == trimmed(text@),
{
    let len = text.unicode_len();
    let mut from: usize = 0;
    assert(text@.skip(0) =~= text@);
    while from < len && is_white_space(text.get_char(from))
        invariant
            len == text@.len(),
            from <= len,
            trimmed_start(text@) == trimmed_start(text@.skip(from as int)),
        decreases len - from,
    {
        assert(text@.skip(from as int).skip(1) =~= text@.skip(from + 1));
        from = from + 1;
    }
    let ghost kept = text@.skip(from as int);
    let ghost drop = |c: char| is_white(c);
    let mut to = len;
    assert(text@.subrange(from as int, len as int) =~= kept);
    while from < to && is_white_space(text.get_char(to - 1))
        invariant
            len == text@.len(),
            from <= to <= len,
            kept == text@.skip(from as int),
            drop == (|c: char| is_white(c)),
            trimmed_end(kept, drop) == trimmed_end(text@.subrange(from as int, to as int), drop),
        decreases to - from,
    {
        assert(text@.subrange(from as int, to as int).drop_last() =~= text@.subrange(
            from as int,
            to - 1,
        ));
        to = to - 1;
    }
    text.substring_char(from, to)
}

/// `text` without trailing dots.
pub fn trim_end_dots(text: &str) -> (rest: &str)
    ensures
        rest@ == without_dots(text@),
{
    let mut to = text.unicode_len();
    let ghost drop = |c: char| c == '.';
    assert(text@.subrange(0, to as int) =~= text@);
    while 0 < to && text.get_char(to - 1) == '.'
        invariant
            to <= text@.len(),
            drop == (|c: char| c == '.'),
            trimmed_end(text@, drop) == trimmed_end(text@.subrange(0, to as int), drop),
        decreases to,
    {
        assert(text@.subrange(0, to as int).drop_last() =~= text@.subrange(0, to - 1));
        to = to - 1;
    }
    text.substring_char(0, to)
}

/// Position of the last colon, if there is one.
pub open spec fn colon_of(text: Seq<char>) -> Option<int>
    decreases text.len(),
{
    if text.len() == 0 {
        None
    } else if text.last() == ':' {
        Some(text.len() - 1)
    } else {
        colon_of(text.drop_last())
    }
}

proof fn lemma_colon_of(text: Seq<char>)
    ensures
        colon_of(text) is Some <==> text.contains(':'),
        colon_of(text) matches Some(at) ==> 0 <= at < text.len() && text[at] == ':',
    decreases text.len(),
{
    if text.len() > 0 {
        if text.last() == ':' {
        } else {
            lemma_colon_of(text.drop_last());
            if text.contains(':') {
                let i = choose|i: int| 0 <= i < text.len() && text[i] == ':';
                assert(text.drop_last()[i] == ':');
            }
        }
    }
}

/// Position of the last colon.
pub fn last_colon(text: &str) -> (found: Option<usize>)
    ensures
        found is Some <==> text@.contains(':'),
        match found {
            Some(at) => colon_of(text@) == Some(at as int) && at < text@.len(),
            None => colon_of(text@) is None,
        },
{
    let mut at = text.unicode_len();
    proof {
        lemma_colon_of(text@);
        assert(text@.take(at as int) =~= text@);
    }
    while at > 0
        invariant
            at <= text@.len(),
            colon_of(text@) == colon_of(text@.take(at as int)),
            colon_of(text@) is Some <==> text@.contains(':'),
        decreases at,
    {
        assert(text@.take(at as int).drop_last() =~= text@.take(at - 1));
        at = at - 1;
        if text.get_char(at) == ':' {
            return Some(at);
        }
    }
    None
}

/// Whether `text` holds a colon.
pub fn has_colon(text: &str) -> (found: bool)
    ensures
        found == text@.contains(':'),
{
    match last_colon(text) {
        Some(_) => true,
        None => false,
    }
}

/// The port number that `text` writes, if it writes one.
pub fn parse_port(text: &str) -> (port: Option<u16>)
    ensures
        port == port_of(text@),
{
    let len = text.unicode_len();
    let from: usize = if len > 0 && text.get_char(0) == '+' {
        1
    } else {
        0
    };
    let ghost digits = unsigned_part(text@);
    assert(digits =~= text@.skip(from as int));
    if from == len {
        return None;
    }
    let mut value: u32 = 0;
    let mut at = from;
    while at < len
        invariant
            len == text@.len(),
            from <= at <= len,
            digits == text@.skip(from as int),
            digits == unsigned_part(text@),
            all_digits(digits.take(at - from)),
            value == decimal(digits.take(at - from)),
            value <= 65535,
        decreases len - at,
    {
        let c = text.get_char(at);
        proof {
            assert(digits[at - from] == c);
            assert(digits.take(at - from + 1).drop_last() =~= digits.take(at - from));
        }
        if c < '0' || c > '9' {
            return None;
        }
        value = value * 10 + (c as u32 - '0' as u32);
        proof {
            assert forall|i: int| 0 <= i < at - from + 1 implies '0' <= #[trigger] digits.take(
                at - from + 1,
            )[i] <= '9' by {
                if i < at - from {
                    assert(digits.take(at - from)[i] == digits[i]);
                }
            }
        }
        if value > 65535 {
            proof {
                lemma_decimal_grows(digits, at - from + 1);
            }
            return None;
        }
        at = at + 1;
    }
    assert(digits.take(len - from) =~= digits);
    if value == 0 {
        None
    } else {
        Some(value as u16)
    }
}

/// More digits write no smaller number.
proof fn lemma_decimal_grows(digits: Seq<char>, n: int)
    requires
        0 <= n <= digits.len(),
    ensures
        all_digits(digits) ==> decimal(digits) >= decimal(digits.take(n)),
    decreases digits.len(),
{
    if n < digits.len() {
        if all_digits(digits) {
            let shorter = digits.drop_last();
            assert(all_digits(shorter)) by {
                assert forall|i: int| 0 <= i < shorter.len() implies '0' <= #[trigger] shorter[i]
                    <= '9' by {
                    assert(shorter[i] == digits[i]);
                }
            }
            lemma_decimal_grows(shorter, n);
            assert(shorter.take(n) =~= digits.take(n));
        }
    } else {
        assert(digits.take(n) =~= digits);
    }
}

/// The decimal digits of a number, without leading zeros.
pub open spec fn digits_of(n: nat) -> Seq<char>
    decreases n,
{
    if n < 10 {
        seq![digit(n)]
    } else {
        digits_of(n / 10).push(digit(n % 10))
    }
}

/// The character of one decimal digit.
pub open spec fn digit(n: nat) -> char {
    ('0' as u32 + n) as char
}

/// The number in decimal digits, without leading zeros.
pub fn number_text(n: usize) -> (text: String)
    ensures
        text@ == digits_of(n as nat),
    decreases n,
{
    let low = digit_text(n % 10);
    if n < 10 {
        return low.to_owned();
    }
    let mut text = number_text(n / 10);
    text.append(low);
    text
}

fn digit_text(n: usize) -> (text: &'static str)
    requires
        n < 10,
    ensures
        text@ == seq![digit(n as nat)],
{
    proof {
        reveal_strlit("0");
        reveal_strlit("1");
        reveal_strlit("2");
        reveal_strlit("3");
        reveal_strlit("4");
        reveal_strlit("5");
        reveal_strlit("6");
        reveal_strlit("7");
        reveal_strlit("8");
        reveal_strlit("9");
    }
    let text = match n {
        0 => "0",
        1 => "1",
        2 => "2",
        3 => "3",
        4 => "4",
        5 => "5",
        6 => "6",
        7 => "7",
        8 => "8",
        _ => "9",
    };
    assert(text@ =~= seq![digit(n as nat)]);
    text
}

/// Whether `a` comes before `b` in dictionary order of code points.
pub open spec fn text_precedes(a: Seq<char>, b: Seq<char>) -> bool
    decreases a.len(),
{
    if b.len() == 0 {
        false
    } else if a.len() == 0 {
        true
    } else {
        a[0] < b[0] || (a[0] == b[0] && text_precedes(a.skip(1), b.skip(1)))
    }
}

/// No text comes before itself.
pub proof fn lemma_text_irreflexive(a: Seq<char>)
    ensures
        !text_precedes(a, a),
    decreases a.len(),
{
    if a.len() > 0 {
        lemma_text_irreflexive(a.skip(1));
    }
}

/// Dictionary order chains.
pub proof fn lemma_text_transitive(a: Seq<char>, b: Seq<char>, c: Seq<char>)
    requires
        text_precedes(a, b),
        text_precedes(b, c),
    ensures
        text_precedes(a, c),
    decreases a.len(),
{
    if a.len() > 0 && a[0] == b[0] && b[0] == c[0] {
        lemma_text_transitive(a.skip(1), b.skip(1), c.skip(1));
    }
}

/// Of two different texts one comes before the other.
pub proof fn lemma_text_total(a: Seq<char>, b: Seq<char>)
    ensures
        a == b || text_precedes(a, b) || text_precedes(b, a),
    decreases a.len(),
{
    if a.len() > 0 && b.len() > 0 {
        if a[0] == b[0] {
            lemma_text_total(a.skip(1), b.skip(1));
            if a.skip(1) == b.skip(1) {
                assert(a =~= seq![a[0]] + a.skip(1));
                assert(b =~= seq![b[0]] + b.skip(1));
            }
        }
    } else {
        assert(a.len() == 0 && b.len() == 0 ==> a =~= b);
    }
}

/// Whether `a` comes before `b` in dictionary order of code points.
pub fn is_text_before(a: &str, b: &str) -> (before: bool)
    ensures
        before == text_precedes(a@, b@),
{
    let a_len = a.unicode_len();
    let b_len = b.unicode_len();
    let mut at: usize = 0;
    assert(a@.skip(0) =~= a@);
    assert(b@.skip(0) =~= b@);
    while at < a_len && at < b_len && a.get_char(at) == b.get_char(at)
        invariant
            a_len == a@.len(),
            b_len == b@.len(),
            at <= a_len,
            at <= b_len,
            text_precedes(a@, b@) == text_precedes(a@.skip(at as int), b@.skip(at as int)),
        decreases a_len - at,
    {
        assert(a@.skip(at as int).skip(1) =~= a@.skip(at + 1));
        assert(b@.skip(at as int).skip(1) =~= b@.skip(at + 1));
        at = at + 1;
    }
    if at == b_len {
        false
    } else if at == a_len {
        true
    } else {
        a.get_char(at) < b.get_char(at)
    }
}

/// Whether two texts are the same.
pub fn same_text(a: &String, b: &str) -> (same: bool)
    ensures
        same == (a@ == b@),
{
    let b = b.to_owned();
    *a == b
}

/// Law: white space is the 25 code points of that Unicode property.
pub proof fn law_white_space_is_known(c: char)
    ensures
        is_white(c) <==> seq![
            0x9u32,
            0xa,
            0xb,
            0xc,
            0xd,
            0x20,
            0x85,
            0xa0,
            0x1680,
            0x2000,
            0x2001,
            0x2002,
            0x2003,
            0x2004,
            0x2005,
            0x2006,
            0x2007,
            0x2008,
            0x2009,
            0x200a,
            0x2028,
            0x2029,
            0x202f,
            0x205f,
            0x3000,
        ].contains(c as u32),
{
    let points = seq![
        0x9u32,
        0xa,
        0xb,
        0xc,
        0xd,
        0x20,
        0x85,
        0xa0,
        0x1680,
        0x2000,
        0x2001,
        0x2002,
        0x2003,
        0x2004,
        0x2005,
        0x2006,
        0x2007,
        0x2008,
        0x2009,
        0x200a,
        0x2028,
        0x2029,
        0x202f,
        0x205f,
        0x3000,
    ];
    let point = c as u32;
    assert(points.len() == 25);
    if is_white(c) {
        let i: int = if point <= 0xd {
            point - 0x9
        } else if point == 0x20 {
            5
        } else if point == 0x85 {
            6
        } else if point == 0xa0 {
            7
        } else if point == 0x1680 {
            8
        } else if point <= 0x200a {
            9 + (point - 0x2000)
        } else if point == 0x2028 {
            20
        } else if point == 0x2029 {
            21
        } else if point == 0x202f {
            22
        } else if point == 0x205f {
            23
        } else {
            24
        };
        assert(points[i] == point);
    }
    if points.contains(point) {
        let i = choose|i: int| 0 <= i < points.len() && points[i] == point;
        assert(0 <= i < 25);
    }
}

proof fn lemma_trimmed_start(white: Seq<char>, text: Seq<char>)
    requires
        forall|i: int| 0 <= i < white.len() ==> is_white(#[trigger] white[i]),
        text.len() > 0 ==> !is_white(text[0]),
    ensures
        trimmed_start(white + text) == text,
    decreases white.len(),
{
    let all = white + text;
    if white.len() == 0 {
        assert(all =~= text);
    } else {
        let rest = white.skip(1);
        assert(all[0] == white[0]);
        assert(all.skip(1) =~= rest + text);
        assert forall|i: int| 0 <= i < rest.len() implies is_white(#[trigger] rest[i]) by {
            assert(rest[i] == white[i + 1]);
        }
        lemma_trimmed_start(rest, text);
    }
}

proof fn lemma_trimmed_end(text: Seq<char>, tail: Seq<char>, drop: spec_fn(char) -> bool)
    requires
        forall|i: int| 0 <= i < tail.len() ==> drop(#[trigger] tail[i]),
        text.len() > 0 ==> !drop(text.last()),
    ensures
        trimmed_end(text + tail, drop) == text,
    decreases tail.len(),
{
    let all = text + tail;
    if tail.len() == 0 {
        assert(all =~= text);
    } else {
        let rest = tail.drop_last();
        assert(all.last() == tail[tail.len() - 1]);
        assert(all.drop_last() =~= text + rest);
        assert forall|i: int| 0 <= i < rest.len() implies drop(#[trigger] rest[i]) by {
            assert(rest[i] == tail[i]);
        }
        lemma_trimmed_end(text, rest, drop);
    }
}

/// Law: trimming takes white space off both ends and nothing else: whatever white space stands
/// around a text that neither starts nor ends with any, that text is what is left.
pub proof fn law_trimming_takes_white_space_alone(
    before: Seq<char>,
    text: Seq<char>,
    behind: Seq<char>,
)
    requires
        forall|i: int| 0 <= i < before.len() ==> is_white(#[trigger] before[i]),
        forall|i: int| 0 <= i < behind.len() ==> is_white(#[trigger] behind[i]),
        text.len() > 0,
        !is_white(text[0]),
        !is_white(text.last()),
    ensures
        trimmed(before + text + behind) == text,
{
    assert(before + text + behind =~= before + (text + behind));
    assert((text + behind)[0] == text[0]);
    lemma_trimmed_start(before, text + behind);
    lemma_trimmed_end(text, behind, |c: char| is_white(c));
}

/// Law: only white space is trimmed to nothing.
pub proof fn law_white_space_is_trimmed_to_nothing(white: Seq<char>)
    requires
        forall|i: int| 0 <= i < white.len() ==> is_white(#[trigger] white[i]),
    ensures
        trimmed(white) == Seq::<char>::empty(),
{
    let none = Seq::<char>::empty();
    lemma_trimmed_start(white, none);
    assert(white + none =~= white);
    lemma_trimmed_end(none, none, |c: char| is_white(c));
    assert(none + none =~= none);
}

/// Law: of a text just the dots at its end are taken off.
pub proof fn law_trailing_dots_are_taken_off(text: Seq<char>, dots: Seq<char>)
    requires
        text.len() > 0 ==> text.last() != '.',
        forall|i: int| 0 <= i < dots.len() ==> #[trigger] dots[i] == '.',
    ensures
        without_dots(text + dots) == text,
{
    lemma_trimmed_end(text, dots, |c: char| c == '.');
}

/// Law: capital letters are made small one for one, and all other characters stay.
pub proof fn law_letters_are_made_small(text: Seq<char>, i: int)
    requires
        0 <= i < text.len(),
    ensures
        lowered(text).len() == text.len(),
        65 <= text[i] as u32 <= 90 ==> lowered(text)[i] as u32 == text[i] as u32 + 32,
        !(65 <= text[i] as u32 <= 90) ==> lowered(text)[i] == text[i],
{
}

/// Law: the colon that is found is one, and none stands behind it; without any none is found.
pub proof fn law_the_last_colon_is_found(head: Seq<char>, tail: Seq<char>)
    requires
        forall|i: int| 0 <= i < tail.len() ==> #[trigger] tail[i] != ':',
    ensures
        colon_of(head.push(':') + tail) == Some(head.len() as int),
        colon_of(tail) is None,
    decreases tail.len(),
{
    let all = head.push(':') + tail;
    if tail.len() > 0 {
        let rest = tail.drop_last();
        assert(all.last() == tail[tail.len() - 1]);
        assert(all.drop_last() =~= head.push(':') + rest);
        assert forall|i: int| 0 <= i < rest.len() implies #[trigger] rest[i] != ':' by {
            assert(rest[i] == tail[i]);
        }
        law_the_last_colon_is_found(head, rest);
    } else {
        assert(all =~= head.push(':'));
    }
}

/// Law: the digits of a number write just that number, without a leading zero.
pub proof fn law_numbers_read_back(n: nat)
    ensures
        digits_of(n).len() > 0,
        all_digits(digits_of(n)),
        decimal(digits_of(n)) == n,
        n > 0 ==> digits_of(n)[0] != '0',
    decreases n,
{
    let digits = digits_of(n);
    if n < 10 {
        assert(digits.drop_last() =~= Seq::<char>::empty());
        assert(decimal(Seq::empty()) == 0);
        assert('0' <= digits[0] <= '9');
    } else {
        let rest = digits_of(n / 10);
        law_numbers_read_back(n / 10);
        assert(digits.drop_last() =~= rest);
        assert(digits.last() == digit(n % 10));
        assert forall|i: int| 0 <= i < digits.len() implies '0' <= #[trigger] digits[i] <= '9' by {
            if i < rest.len() {
                assert(digits[i] == rest[i]);
            }
        }
        assert(digits[0] == rest[0]);
    }
}

/// Law: a port is a number from 1 to 65535, with or without a plus sign; nothing else is one.
pub proof fn law_ports_are_numbers(n: nat, text: Seq<char>)
    ensures
        1 <= n <= 65535 ==> port_of(digits_of(n)) == Some(n as u16),
        1 <= n <= 65535 ==> port_of(seq!['+'] + digits_of(n)) == Some(n as u16),
        n == 0 || n > 65535 ==> port_of(digits_of(n)) is None,
        port_of(Seq::empty()) is None,
        text.len() > 0 && text[0] != '+' && (exists|i: int|
            0 <= i < text.len() && !('0' <= #[trigger] text[i] <= '9')) ==> port_of(text) is None,
{
    let digits = digits_of(n);
    law_numbers_read_back(n);
    assert('0' <= digits[0] <= '9');
    assert((seq!['+'] + digits).skip(1) =~= digits);
    assert((seq!['+'] + digits)[0] == '+');
    assert(unsigned_part(seq!['+'] + digits) == digits);
    assert(unsigned_part(digits) == digits);
}

/// Law: in a dictionary the first character in which two texts differ decides, and a text comes
/// before those that go on where it ends.
pub proof fn law_the_first_difference_decides(common: Seq<char>, a: Seq<char>, b: Seq<char>)
    ensures
        text_precedes(common + a, common + b) == text_precedes(a, b),
        a.len() == 0 && b.len() > 0 ==> text_precedes(a, b) && !text_precedes(b, a),
        a.len() > 0 && b.len() > 0 && a[0] < b[0] ==> text_precedes(a, b) && !text_precedes(b, a),
    decreases common.len(),
{
    if common.len() == 0 {
        assert(common + a =~= a);
        assert(common + b =~= b);
    } else {
        let rest = common.skip(1);
        assert((common + a).skip(1) =~= rest + a);
        assert((common + b).skip(1) =~= rest + b);
        assert((common + a)[0] == (common + b)[0]);
        law_the_first_difference_decides(rest, a, b);
    }
}

} // verus!

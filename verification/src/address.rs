//! Listen addresses: `<IP>:<port>`.

use vstd::prelude::*;
use vstd::slice::*;

use crate::text::{
    chars_of, digits, find_first, index_is_that_of_the_first, index_of, joined_with, split,
    split_at_each, splitting_undoes_joining, string_of, what_stands_between_separators_is_a_part,
};

verus! {

/// A listen address, taken apart.
#[derive(Debug, Clone)]
pub struct SocketAddress {
    /// The IP address, with its brackets where it is an IPv6 address.
    pub host: String,
    pub port: u16,
}

/// A decimal digit.
pub open spec fn digit(c: char) -> bool {
    '0' <= c <= '9'
}

/// A hexadecimal digit.
pub open spec fn hex_digit(c: char) -> bool {
    digit(c) || 'a' <= c <= 'f' || 'A' <= c <= 'F'
}

/// One decimal digit or more.
pub open spec fn all_digits(s: Seq<char>) -> bool {
    s.len() > 0 && forall|i: int| 0 <= i < s.len() ==> digit(#[trigger] s[i])
}

/// The number that decimal digits spell.
pub open spec fn digits_value(s: Seq<char>) -> nat
    decreases s.len(),
{
    if s.len() == 0 {
        0
    } else {
        (digits_value(s.drop_last()) * 10 + (s.last() as int - 48)) as nat
    }
}

/// A decimal number of at most `max`.
pub open spec fn number_up_to(s: Seq<char>, max: nat) -> bool {
    all_digits(s) && digits_value(s) <= max
}

/// One of the four numbers of an IPv4 address: up to three digits, without leading zeros.
pub open spec fn octet(s: Seq<char>) -> bool {
    s.len() <= 3 && number_up_to(s, 255) && (s.len() > 1 ==> s[0] != '0')
}

/// An IPv4 address: four numbers with dots between them.
pub open spec fn ipv4(s: Seq<char>) -> bool {
    let parts = split_at_each(s, '.');
    parts.len() == 4 && forall|i: int| 0 <= i < 4 ==> octet(#[trigger] parts[i])
}

/// One of the groups of an IPv6 address: up to four hexadecimal digits.
pub open spec fn group(s: Seq<char>) -> bool {
    0 < s.len() <= 4 && forall|i: int| 0 <= i < s.len() ==> hex_digit(#[trigger] s[i])
}

/// The number of groups in a list of them with colons in between; `None` when it is no such
/// list. Where `ending` is set, the list may end with an IPv4 address, which counts twice.
pub open spec fn group_count(s: Seq<char>, ending: bool) -> Option<nat> {
    let parts = split_at_each(s, ':');
    let last = parts.len() - 1;
    if s.len() == 0 {
        Some(0)
    } else if !(forall|i: int| 0 <= i < last ==> group(#[trigger] parts[i])) {
        None
    } else if group(parts[last]) {
        Some(parts.len())
    } else if ending && ipv4(parts[last]) {
        Some(parts.len() + 1)
    } else {
        None
    }
}

/// The position of the first `::` in `s`, or the length of `s`.
pub open spec fn gap(s: Seq<char>) -> int
    decreases s.len(),
{
    if s.len() == 0 {
        0
    } else if s.len() > 1 && s[0] == ':' && s[1] == ':' {
        0
    } else {
        1 + gap(s.skip(1))
    }
}

/// An IPv6 address: eight groups, of which `::` may stand for one or more.
pub open spec fn ipv6(s: Seq<char>) -> bool {
    let at = gap(s);
    if at < s.len() {
        match (group_count(s.take(at), false), group_count(s.skip(at + 2), true)) {
            (Some(before), Some(behind)) => before + behind <= 7,
            _ => false,
        }
    } else {
        group_count(s, true) == Some(8nat)
    }
}

/// The position of the last `c` in `s`; -1 when there is none.
pub open spec fn last_of(s: Seq<char>, c: char) -> int
    decreases s.len(),
{
    if s.len() == 0 {
        -1
    } else if s.last() == c {
        s.len() - 1
    } else {
        last_of(s.drop_last(), c)
    }
}

/// An IPv6 address in brackets, with or without a scope behind a percent sign.
pub open spec fn bracketed(s: Seq<char>) -> bool {
    &&& s.len() >= 2
    &&& s[0] == '['
    &&& s.last() == ']'
    &&& {
        let inner = s.subrange(1, s.len() - 1);
        let at = index_of(inner, '%');
        ipv6(inner.take(at)) && (at < inner.len() ==> number_up_to(
            inner.skip(at + 1),
            u32::MAX as nat,
        ))
    }
}

/// A listen address: an IP address, a colon and a port.
pub open spec fn socket_address(s: Seq<char>) -> bool {
    let at = last_of(s, ':');
    at >= 0 && (ipv4(s.take(at)) || bracketed(s.take(at))) && number_up_to(
        s.skip(at + 1),
        u16::MAX as nat,
    )
}

fn is_digit(c: char) -> (r: bool)
    ensures
        r == digit(c),
{
    '0' <= c && c <= '9'
}

/// A number is at least as large as the number its first digits spell.
proof fn digits_value_grows(s: Seq<char>, n: int)
    requires
        0 <= n <= s.len(),
        forall|i: int| 0 <= i < s.len() ==> digit(#[trigger] s[i]),
    ensures
        digits_value(s.take(n)) <= digits_value(s),
    decreases s.len(),
{
    if n == s.len() {
        assert(s.take(n) == s);
    } else {
        digits_value_grows(s.drop_last(), n);
        assert(s.drop_last().take(n) == s.take(n));
        assert(digit(s[s.len() - 1]));
    }
}

/// Reads a decimal number of at most `max`.
pub fn read_number(s: &[char], max: u32) -> (r: Option<u32>)
    ensures
        match r {
            Some(n) => number_up_to(s@, max as nat) && n == digits_value(s@),
            None => !number_up_to(s@, max as nat),
        },
{
    if s.len() == 0 {
        return None;
    }
    let mut i: usize = 0;
    while i < s.len()
        invariant
            i <= s@.len(),
            forall|k: int| 0 <= k < i ==> digit(#[trigger] s@[k]),
        decreases s@.len() - i,
    {
        if !is_digit(s[i]) {
            return None;
        }
        i = i + 1;
    }
    let mut value: u64 = 0;
    let mut i: usize = 0;
    while i < s.len()
        invariant
            i <= s@.len(),
            forall|k: int| 0 <= k < s@.len() ==> digit(#[trigger] s@[k]),
            value == digits_value(s@.take(i as int)),
            value <= max,
        decreases s@.len() - i,
    {
        assert(s@.take(i + 1).drop_last() == s@.take(i as int));
        assert(s@.take(i + 1).last() == s@[i as int]);
        assert(digit(s@[i as int]));
        value = value * 10 + (s[i] as u64 - 48);
        i = i + 1;
        if value > max as u64 {
            proof {
                digits_value_grows(s@, i as int);
            }
            return None;
        }
    }
    assert(s@.take(i as int) == s@);
    Some(value as u32)
}

fn is_octet(s: &[char]) -> (r: bool)
    ensures
        r == octet(s@),
{
    s.len() <= 3 && read_number(s, 255).is_some() && (s.len() <= 1 || s[0] != '0')
}

fn is_ipv4(s: &[char]) -> (r: bool)
    ensures
        r == ipv4(s@),
{
    let parts = split(s, '.');
    let ghost texts = split_at_each(s@, '.');
    if parts.len() != 4 {
        return false;
    }
    let mut i: usize = 0;
    while i < 4
        invariant
            i <= 4 == parts@.len(),
            texts == split_at_each(s@, '.'),
            texts == parts@.map_values(|part: Vec<char>| part@),
            forall|k: int| 0 <= k < i ==> octet(#[trigger] texts[k]),
        decreases 4 - i,
    {
        assert(texts[i as int] == parts@[i as int]@);
        if !is_octet(parts[i].as_slice()) {
            return false;
        }
        i = i + 1;
    }
    true
}

fn is_group(s: &[char]) -> (r: bool)
    ensures
        r == group(s@),
{
    if s.len() == 0 || s.len() > 4 {
        return false;
    }
    let mut i: usize = 0;
    while i < s.len()
        invariant
            i <= s@.len(),
            forall|k: int| 0 <= k < i ==> hex_digit(#[trigger] s@[k]),
        decreases s@.len() - i,
    {
        let c = s[i];
        if !(is_digit(c) || ('a' <= c && c <= 'f') || ('A' <= c && c <= 'F')) {
            assert(!hex_digit(s@[i as int]));
            return false;
        }
        i = i + 1;
    }
    true
}

/// Counts the groups of a list of them, see [`group_count`], as long as there are no more than
/// an address can have.
fn count_groups(s: &[char], ending: bool) -> (r: Option<usize>)
    ensures
        match r {
            Some(n) => n <= 8 && group_count(s@, ending) == Some(n as nat),
            None => match group_count(s@, ending) {
                Some(n) => n > 8,
                None => true,
            },
        },
{
    if s.len() == 0 {
        return Some(0);
    }
    let parts = split(s, ':');
    let ghost texts = split_at_each(s@, ':');
    assert(texts.len() == parts@.len());
    if parts.len() > 8 {
        return None;
    }
    let last = parts.len() - 1;
    let mut i: usize = 0;
    while i < last
        invariant
            i <= last < parts@.len(),
            texts == split_at_each(s@, ':'),
            s@.len() > 0,
            last == texts.len() - 1,
            texts == parts@.map_values(|part: Vec<char>| part@),
            forall|k: int| 0 <= k < i ==> group(#[trigger] texts[k]),
        decreases last - i,
    {
        assert(texts[i as int] == parts@[i as int]@);
        if !is_group(parts[i].as_slice()) {
            return None;
        }
        i = i + 1;
    }
    assert(texts[last as int] == parts@[last as int]@);
    if is_group(parts[last].as_slice()) {
        Some(parts.len())
    } else if ending && is_ipv4(parts[last].as_slice()) {
        if parts.len() == 8 {
            None
        } else {
            Some(parts.len() + 1)
        }
    } else {
        None
    }
}

/// The gap lies within the text, and two colons stand there.
proof fn gap_bounds(s: Seq<char>)
    ensures
        0 <= gap(s) <= s.len(),
        gap(s) < s.len() ==> gap(s) + 2 <= s.len(),
    decreases s.len(),
{
    if s.len() > 0 {
        gap_bounds(s.skip(1));
    }
}

fn is_ipv6(s: &[char]) -> (r: bool)
    ensures
        r == ipv6(s@),
{
    let mut at: usize = 0;
    assert(s@.skip(0) == s@);
    while at < s.len() && !(at + 1 < s.len() && s[at] == ':' && s[at + 1] == ':')
        invariant
            at <= s@.len(),
            gap(s@) == at + gap(s@.skip(at as int)),
        decreases s@.len() - at,
    {
        assert(s@.skip(at as int).skip(1) == s@.skip(at + 1));
        at = at + 1;
    }
    proof {
        gap_bounds(s@);
    }
    assert(at < s@.len() ==> s@.skip(at as int)[0] == ':' && s@.skip(at as int)[1] == ':');
    assert(at == gap(s@));
    if at < s.len() {
        let before = slice_subrange(s, 0, at);
        let behind = slice_subrange(s, at + 2, s.len());
        assert(before@ == s@.take(at as int));
        assert(behind@ == s@.skip(at + 2));
        match (count_groups(before, false), count_groups(behind, true)) {
            (Some(a), Some(b)) => a + b <= 7,
            _ => false,
        }
    } else {
        match count_groups(s, true) {
            Some(n) => n == 8,
            None => false,
        }
    }
}

fn is_bracketed(s: &[char]) -> (r: bool)
    ensures
        r == bracketed(s@),
{
    if s.len() < 2 || s[0] != '[' || s[s.len() - 1] != ']' {
        return false;
    }
    let inner = slice_subrange(s, 1, s.len() - 1);
    let at = find_first(inner, '%');
    let address = slice_subrange(inner, 0, at);
    assert(address@ == inner@.take(at as int));
    if !is_ipv6(address) {
        return false;
    }
    if at < inner.len() {
        let scope = slice_subrange(inner, at + 1, inner.len());
        assert(scope@ == inner@.skip(at + 1));
        read_number(scope, u32::MAX).is_some()
    } else {
        true
    }
}

/// Reads a listen address.
pub fn parse_address(text: &str) -> (r: Option<SocketAddress>)
    ensures
        match r {
            Some(address) => {
                let at = last_of(text@, ':');
                &&& socket_address(text@)
                &&& address.host@ == text@.take(at)
                &&& address.port == digits_value(text@.skip(at + 1))
            },
            None => !socket_address(text@),
        },
{
    let chars = chars_of(text);
    let s = chars.as_slice();
    let mut end: usize = s.len();
    assert(s@.take(end as int) == s@);
    while end > 0 && s[end - 1] != ':'
        invariant
            end <= s@.len(),
            last_of(s@, ':') == last_of(s@.take(end as int), ':'),
        decreases end,
    {
        assert(s@.take(end as int).drop_last() == s@.take(end - 1));
        end = end - 1;
    }
    if end == 0 {
        return None;
    }
    let at = end - 1;
    assert(s@.take(end as int).last() == ':');
    assert(at == last_of(s@, ':'));
    let host = slice_subrange(s, 0, at);
    let port = slice_subrange(s, end, s.len());
    assert(host@ == s@.take(at as int));
    assert(port@ == s@.skip(at + 1));
    if !is_ipv4(host) && !is_bracketed(host) {
        return None;
    }
    match read_number(port, 65535) {
        Some(port) => Some(SocketAddress { host: string_of(host), port: port as u16 }),
        None => None,
    }
}

/// A number is what its decimal digits spell.
pub proof fn digits_spell_their_number(n: nat)
    ensures
        digits_value(digits(n)) == n,
        all_digits(digits(n)),
        n >= 10 ==> digits(n)[0] != '0',
        digits(n).len() > 0,
    decreases n,
{
    if n < 10 {
        assert(digits(n).drop_last().len() == 0);
        assert(digits_value(digits(n).drop_last()) == 0);
    } else {
        let front = digits(n / 10);
        digits_spell_their_number(n / 10);
        assert(digits(n).drop_last() == front);
        assert forall|i: int| 0 <= i < digits(n).len() implies digit(#[trigger] digits(n)[i]) by {
            if i < front.len() {
                assert(digit(front[i]));
            }
        }
        if n / 10 < 10 {
            assert(front[0] == ((n / 10) + 48) as char);
        }
    }
}

/// Whether `s` is one to four hexadecimal digits.
pub open spec fn hexadecimal_group(s: Seq<char>) -> bool {
    1 <= s.len() <= 4 && forall|i: int|
        #![trigger s[i]]
        0 <= i < s.len() ==> ('0' <= s[i] <= '9') || ('a' <= s[i] <= 'f') || ('A' <= s[i] <= 'F')
}

/// The port of an address stands behind its last colon.
proof fn last_colon(host: Seq<char>, port: Seq<char>)
    requires
        !port.contains(':'),
    ensures
        last_of(host + seq![':'] + port, ':') == host.len(),
        (host + seq![':'] + port).take(host.len() as int) == host,
        (host + seq![':'] + port).skip(host.len() as int + 1) == port,
    decreases port.len(),
{
    let all = host + seq![':'] + port;
    assert(all.take(host.len() as int) == host);
    assert(all.skip(host.len() as int + 1) == port);
    if port.len() > 0 {
        let front = port.drop_last();
        assert(port.contains(port[port.len() - 1]));
        assert(!front.contains(':')) by {
            if front.contains(':') {
                let i = choose|i: int| 0 <= i < front.len() && front[i] == ':';
                assert(port[i] == ':');
            }
        }
        assert(all.drop_last() =~= host + seq![':'] + front);
        assert(all.last() == port.last());
        last_colon(host, front);
    } else {
        assert(all.last() == ':');
    }
}

/// The digits of a number hold no other character.
proof fn digits_hold_no(n: nat, c: char)
    requires
        !('0' <= c <= '9'),
    ensures
        !digits(n).contains(c),
{
    digits_spell_their_number(n);
    if digits(n).contains(c) {
        let i = choose|i: int| 0 <= i < digits(n).len() && digits(n)[i] == c;
        assert(digit(digits(n)[i]));
    }
}

/// A number up to 255 is one of the four of an IPv4 address.
proof fn small_number_is_octet(n: nat)
    requires
        n <= 255,
    ensures
        octet(digits(n)),
{
    digits_spell_their_number(n);
    reveal_with_fuel(digits, 4);
}

/// Every IPv4 address with every port is a listen address, and is read as that address and that
/// port.
pub proof fn ipv4_addresses_are_read(a: u8, b: u8, c: u8, d: u8, port: u16)
    ensures
        ({
            let host = joined_with(
                seq![digits(a as nat), digits(b as nat), digits(c as nat), digits(d as nat)],
                '.',
            );
            let text = host + seq![':'] + digits(port as nat);
            let at = last_of(text, ':');
            &&& socket_address(text)
            &&& text.take(at) == host
            &&& digits_value(text.skip(at + 1)) == port
        }),
{
    let parts = seq![digits(a as nat), digits(b as nat), digits(c as nat), digits(d as nat)];
    let host = joined_with(parts, '.');
    small_number_is_octet(a as nat);
    small_number_is_octet(b as nat);
    small_number_is_octet(c as nat);
    small_number_is_octet(d as nat);
    digits_hold_no(a as nat, '.');
    digits_hold_no(b as nat, '.');
    digits_hold_no(c as nat, '.');
    digits_hold_no(d as nat, '.');
    splitting_undoes_joining(parts, '.');
    assert(ipv4(host));
    digits_hold_no(port as nat, ':');
    digits_spell_their_number(port as nat);
    last_colon(host, digits(port as nat));
}

/// The host of an IPv4 listen address is four numbers with dots between them, each of one to three
/// digits, without leading zeros and up to 255.
pub proof fn ipv4_addresses_are_four_numbers(host: Seq<char>)
    ensures
        ipv4(host) <==> ({
            let parts = split_at_each(host, '.');
            parts.len() == 4 && forall|i: int|
                #![trigger parts[i]]
                0 <= i < 4 ==> {
                    &&& 1 <= parts[i].len() <= 3
                    &&& forall|k: int| 0 <= k < parts[i].len() ==> '0' <= #[trigger] parts[i][k] <= '9'
                    &&& parts[i].len() > 1 ==> parts[i][0] != '0'
                    &&& digits_value(parts[i]) <= 255
                }
        }),
{
    let parts = split_at_each(host, '.');
    if ipv4(host) {
        assert forall|i: int| #![trigger parts[i]] 0 <= i < 4 implies ({
            &&& 1 <= parts[i].len() <= 3
            &&& forall|k: int| 0 <= k < parts[i].len() ==> '0' <= #[trigger] parts[i][k] <= '9'
            &&& parts[i].len() > 1 ==> parts[i][0] != '0'
            &&& digits_value(parts[i]) <= 255
        }) by {
            assert(octet(parts[i]));
            assert forall|k: int| 0 <= k < parts[i].len() implies '0' <= #[trigger] parts[i][k]
                <= '9' by {
                assert(digit(parts[i][k]));
            }
        }
    }
}

/// A listen address ends with a port up to 65535 behind its last colon; in front of it stands an
/// IPv4 address, or something in brackets.
pub proof fn listen_addresses_end_with_a_port(text: Seq<char>)
    requires
        socket_address(text),
    ensures
        ({
            let at = last_of(text, ':');
            let host = text.take(at);
            let port = text.skip(at + 1);
            &&& 0 <= at < text.len()
            &&& text[at] == ':'
            &&& port.len() > 0
            &&& forall|i: int| 0 <= i < port.len() ==> '0' <= #[trigger] port[i] <= '9'
            &&& digits_value(port) <= 65535
            &&& ipv4(host) || (host.len() >= 2 && host[0] == '[' && host.last() == ']')
        }),
{
    last_of_stands(text, ':');
    let port = text.skip(last_of(text, ':') + 1);
    assert forall|i: int| 0 <= i < port.len() implies '0' <= #[trigger] port[i] <= '9' by {
        assert(digit(port[i]));
    }
}

proof fn last_of_stands(s: Seq<char>, c: char)
    ensures
        -1 <= last_of(s, c) < s.len(),
        last_of(s, c) >= 0 ==> s[last_of(s, c)] == c,
    decreases s.len(),
{
    if s.len() > 0 && s.last() != c {
        last_of_stands(s.drop_last(), c);
    }
}

/// Whether no two colons stand next to each other in `s`, nor one at an end of it.
spec fn single_colons(s: Seq<char>) -> bool {
    &&& s.len() > 0 ==> s[0] != ':' && s.last() != ':'
    &&& forall|i: int| 0 <= i < s.len() - 1 ==> #[trigger] s[i] != ':' || s[i + 1] != ':'
}

/// Groups with colons between them.
proof fn groups_have_single_colons(groups: Seq<Seq<char>>)
    requires
        forall|i: int|
            #![trigger groups[i]]
            0 <= i < groups.len() ==> hexadecimal_group(groups[i]),
    ensures
        single_colons(joined_with(groups, ':')),
        groups.len() > 0 ==> joined_with(groups, ':').len() > 0,
        forall|i: int|
            #![trigger joined_with(groups, ':')[i]]
            0 <= i < joined_with(groups, ':').len() ==> joined_with(groups, ':')[i] != '%',
    decreases groups.len(),
{
    let all = joined_with(groups, ':');
    if groups.len() == 1 {
        assert(hexadecimal_group(groups[0]));
        assert(all == groups[0]);
    } else if groups.len() > 1 {
        let front = groups.drop_last();
        assert forall|i: int|
            #![trigger front[i]]
            0 <= i < front.len() implies hexadecimal_group(front[i]) by {
            assert(front[i] == groups[i]);
        }
        groups_have_single_colons(front);
        let left = joined_with(front, ':');
        let last = groups[groups.len() - 1];
        assert(hexadecimal_group(last));
        assert(all == left + seq![':'] + last);
        assert forall|i: int| 0 <= i < all.len() - 1 implies #[trigger] all[i] != ':' || all[i + 1]
            != ':' by {
            if i < left.len() {
                assert(all[i] == left[i]);
                if i + 1 < left.len() {
                    assert(all[i + 1] == left[i + 1]);
                }
            } else {
                assert(all[i + 1] == last[i - left.len()]);
            }
        }
        assert(all.last() == last[last.len() - 1]);
        assert(all[0] == left[0]);
        assert forall|i: int| #![trigger all[i]] 0 <= i < all.len() implies all[i] != '%' by {
            if i < left.len() {
                assert(all[i] == left[i]);
            } else if i > left.len() {
                assert(all[i] == last[i - left.len() - 1]);
            }
        }
    }
}

/// Groups hold no colon, and are counted one by one.
proof fn groups_are_counted(groups: Seq<Seq<char>>, ending: bool)
    requires
        forall|i: int|
            #![trigger groups[i]]
            0 <= i < groups.len() ==> hexadecimal_group(groups[i]),
    ensures
        group_count(joined_with(groups, ':'), ending) == Some(groups.len()),
{
    let all = joined_with(groups, ':');
    if groups.len() > 0 {
        groups_have_single_colons(groups);
        assert forall|i: int| #![trigger groups[i]] 0 <= i < groups.len() implies !groups[i].contains(
            ':',
        ) && group(groups[i]) by {
            assert(hexadecimal_group(groups[i]));
            assert forall|k: int| 0 <= k < groups[i].len() implies hex_digit(
                #[trigger] groups[i][k],
            ) by {}
        }
        splitting_undoes_joining(groups, ':');
    }
}

/// Where a double colon stands behind a text without one.
proof fn gap_behind(front: Seq<char>, rest: Seq<char>)
    requires
        single_colons(front),
        rest.len() == 0 || (rest.len() >= 2 && rest[0] == ':' && rest[1] == ':'),
    ensures
        gap(front + rest) == front.len(),
    decreases front.len(),
{
    let all = front + rest;
    if front.len() > 0 {
        assert(all[0] == front[0]);
        gap_inside(front, rest, 1);
        assert(all.skip(1) == front.skip(1) + rest);
    } else {
        assert(all == rest);
        if rest.len() > 0 {
            assert(rest.len() > 1);
        }
    }
}

proof fn gap_inside(front: Seq<char>, rest: Seq<char>, from: int)
    requires
        single_colons(front),
        rest.len() == 0 || (rest.len() >= 2 && rest[0] == ':' && rest[1] == ':'),
        0 < from <= front.len(),
    ensures
        gap(front.skip(from) + rest) == front.len() - from,
    decreases front.len() - from,
{
    let tail = front.skip(from) + rest;
    if from < front.len() {
        gap_inside(front, rest, from + 1);
        assert(tail.skip(1) == front.skip(from + 1) + rest);
        assert(tail[0] == front[from]);
        if from + 1 < front.len() {
            assert(tail[1] == front[from + 1]);
            assert(front[from] != ':' || front[from + 1] != ':');
        } else {
            assert(front[from] == front.last());
        }
    } else {
        assert(tail == rest);
    }
}

/// What stands in brackets is no IPv4 address.
proof fn brackets_are_no_ipv4(host: Seq<char>)
    requires
        host.len() > 0,
        host[0] == '[',
    ensures
        !ipv4(host),
{
    index_is_that_of_the_first(host, '.');
    let to = index_of(host, '.');
    let j = what_stands_between_separators_is_a_part(host, '.', 0, to);
    let parts = split_at_each(host, '.');
    assert(to > 0);
    assert(parts[j] == host.subrange(0, to));
    assert(parts[j][0] == '[');
    if ipv4(host) {
        assert(octet(parts[j]));
        assert(digit(parts[j][0]));
    }
}

/// An address in brackets behind which a port stands is a listen address exactly when what stands in
/// the brackets is an IPv6 address.
proof fn bracketed_address(address: Seq<char>, port: u16)
    requires
        forall|i: int| #![trigger address[i]] 0 <= i < address.len() ==> address[i] != '%',
    ensures
        ({
            let text = seq!['['] + address + seq![']', ':'] + digits(port as nat);
            &&& socket_address(text) <==> ipv6(address)
            &&& last_of(text, ':') == address.len() + 2
            &&& digits_value(text.skip(last_of(text, ':') + 1)) == port
        }),
{
    let host = seq!['['] + address + seq![']'];
    let text = seq!['['] + address + seq![']', ':'] + digits(port as nat);
    assert(text =~= host + seq![':'] + digits(port as nat));
    digits_hold_no(port as nat, ':');
    digits_spell_their_number(port as nat);
    last_colon(host, digits(port as nat));
    brackets_are_no_ipv4(host);
    let inner = host.subrange(1, host.len() - 1);
    assert(inner =~= address);
    index_is_that_of_the_first(inner, '%');
    assert(inner.take(inner.len() as int) =~= inner);
}

/// An IPv6 address that is written out is a listen address exactly when it has eight groups.
pub proof fn full_ipv6_addresses_have_eight_groups(groups: Seq<Seq<char>>, port: u16)
    requires
        groups.len() > 0,
        forall|i: int|
            #![trigger groups[i]]
            0 <= i < groups.len() ==> hexadecimal_group(groups[i]),
    ensures
        socket_address(
            seq!['['] + joined_with(groups, ':') + seq![']', ':'] + digits(port as nat),
        ) <==> groups.len() == 8,
{
    let address = joined_with(groups, ':');
    groups_have_single_colons(groups);
    groups_are_counted(groups, true);
    gap_behind(address, Seq::empty());
    assert(address + Seq::<char>::empty() == address);
    bracketed_address(address, port);
}

/// An IPv6 address with a double colon is a listen address exactly when at most seven groups are
/// written out, whichever side of the double colon they stand on.
pub proof fn short_ipv6_addresses_have_up_to_seven_groups(
    before: Seq<Seq<char>>,
    behind: Seq<Seq<char>>,
    port: u16,
)
    requires
        forall|i: int|
            #![trigger before[i]]
            0 <= i < before.len() ==> hexadecimal_group(before[i]),
        forall|i: int|
            #![trigger behind[i]]
            0 <= i < behind.len() ==> hexadecimal_group(behind[i]),
    ensures
        socket_address(
            seq!['['] + (joined_with(before, ':') + seq![':', ':'] + joined_with(behind, ':')) + seq![
                ']',
                ':',
            ] + digits(port as nat),
        ) <==> before.len() + behind.len() <= 7,
{
    let left = joined_with(before, ':');
    let right = joined_with(behind, ':');
    let address = left + seq![':', ':'] + right;
    groups_have_single_colons(before);
    groups_have_single_colons(behind);
    groups_are_counted(before, false);
    groups_are_counted(behind, true);
    assert(address =~= left + (seq![':', ':'] + right));
    gap_behind(left, seq![':', ':'] + right);
    assert(address.take(left.len() as int) =~= left);
    assert(address.skip(left.len() as int + 2) =~= right);
    assert forall|i: int| #![trigger address[i]] 0 <= i < address.len() implies address[i] != '%' by {
        if i < left.len() {
            assert(address[i] == left[i]);
        } else if i >= left.len() + 2 {
            assert(address[i] == right[i - left.len() - 2]);
        }
    }
    bracketed_address(address, port);
}

/// An IPv4 address may stand at the end of an IPv6 address, behind a double colon or other groups,
/// and counts as two groups there.
pub proof fn ipv6_addresses_may_end_in_an_ipv4_address(
    before: Seq<Seq<char>>,
    behind: Seq<Seq<char>>,
    a: u8,
    b: u8,
    c: u8,
    d: u8,
    port: u16,
)
    requires
        forall|i: int|
            #![trigger before[i]]
            0 <= i < before.len() ==> hexadecimal_group(before[i]),
        forall|i: int|
            #![trigger behind[i]]
            0 <= i < behind.len() ==> hexadecimal_group(behind[i]),
    ensures
        ({
            let last = joined_with(
                seq![digits(a as nat), digits(b as nat), digits(c as nat), digits(d as nat)],
                '.',
            );
            let short = joined_with(before, ':') + seq![':', ':'] + joined_with(
                behind.push(last),
                ':',
            );
            socket_address(seq!['['] + short + seq![']', ':'] + digits(port as nat))
                <==> before.len() + behind.len() <= 5
        }),
{
    let numbers = seq![digits(a as nat), digits(b as nat), digits(c as nat), digits(d as nat)];
    let last = joined_with(numbers, '.');
    dotted_numbers(a, b, c, d);
    let left = joined_with(before, ':');
    let right = joined_with(behind.push(last), ':');
    let address = left + seq![':', ':'] + right;
    groups_have_single_colons(before);
    groups_are_counted(before, false);
    groups_and_last_are_counted(behind, last);
    assert(address =~= left + (seq![':', ':'] + right));
    gap_behind(left, seq![':', ':'] + right);
    assert(address.take(left.len() as int) =~= left);
    assert(address.skip(left.len() as int + 2) =~= right);
    assert forall|i: int| #![trigger address[i]] 0 <= i < address.len() implies address[i] != '%' by {
        if i < left.len() {
            assert(address[i] == left[i]);
        } else if i >= left.len() + 2 {
            assert(address[i] == right[i - left.len() - 2]);
        }
    }
    bracketed_address(address, port);
}

/// Four numbers with dots between them.
proof fn dotted_numbers(a: u8, b: u8, c: u8, d: u8)
    ensures
        ({
            let last = joined_with(
                seq![digits(a as nat), digits(b as nat), digits(c as nat), digits(d as nat)],
                '.',
            );
            &&& ipv4(last)
            &&& last.len() > 4
            &&& last.contains('.')
            &&& !last.contains(':')
            &&& !last.contains('%')
        }),
{
    let parts = seq![digits(a as nat), digits(b as nat), digits(c as nat), digits(d as nat)];
    let last = joined_with(parts, '.');
    small_number_is_octet(a as nat);
    small_number_is_octet(b as nat);
    small_number_is_octet(c as nat);
    small_number_is_octet(d as nat);
    digits_hold_no(a as nat, '.');
    digits_hold_no(b as nat, '.');
    digits_hold_no(c as nat, '.');
    digits_hold_no(d as nat, '.');
    splitting_undoes_joining(parts, '.');
    let one = digits(a as nat) + seq!['.'] + digits(b as nat);
    let two = one + seq!['.'] + digits(c as nat);
    let three = two + seq!['.'] + digits(d as nat);
    assert(parts.drop_last() =~= seq![digits(a as nat), digits(b as nat), digits(c as nat)]);
    assert(parts.drop_last().drop_last() =~= seq![digits(a as nat), digits(b as nat)]);
    assert(parts.drop_last().drop_last().drop_last() =~= seq![digits(a as nat)]);
    reveal_with_fuel(joined_with, 4);
    assert(last =~= three);
    digits_spell_their_number(a as nat);
    digits_spell_their_number(b as nat);
    digits_spell_their_number(c as nat);
    digits_spell_their_number(d as nat);
    assert(last[digits(a as nat).len() as int] == '.');
    assert forall|i: int| 0 <= i < last.len() implies #[trigger] last[i] != ':' && last[i]
        != '%' by {
        let n = digits(a as nat).len() as int;
        let m = n + 1 + digits(b as nat).len();
        let k = m + 1 + digits(c as nat).len();
        if i < n {
            assert(digit(digits(a as nat)[i]));
        } else if n < i < m {
            assert(digit(digits(b as nat)[i - n - 1]));
        } else if m < i < k {
            assert(digit(digits(c as nat)[i - m - 1]));
        } else if k < i {
            assert(digit(digits(d as nat)[i - k - 1]));
        }
    }
}

/// Groups with an IPv4 address at their end.
proof fn groups_and_last_are_counted(groups: Seq<Seq<char>>, last: Seq<char>)
    requires
        forall|i: int|
            #![trigger groups[i]]
            0 <= i < groups.len() ==> hexadecimal_group(groups[i]),
        ipv4(last),
        last.len() > 4,
        !last.contains(':'),
        !last.contains('%'),
    ensures
        group_count(joined_with(groups.push(last), ':'), true) == Some(groups.len() + 2),
        forall|i: int|
            #![trigger joined_with(groups.push(last), ':')[i]]
            0 <= i < joined_with(groups.push(last), ':').len() ==> joined_with(
                groups.push(last),
                ':',
            )[i] != '%',
{
    let parts = groups.push(last);
    let all = joined_with(parts, ':');
    assert forall|i: int| #![trigger parts[i]] 0 <= i < parts.len() implies !parts[i].contains(
        ':',
    ) && (i < groups.len() ==> group(parts[i])) by {
        if i < groups.len() {
            assert(hexadecimal_group(groups[i]));
            assert forall|k: int| 0 <= k < groups[i].len() implies hex_digit(
                #[trigger] groups[i][k],
            ) by {}
        }
    }
    splitting_undoes_joining(parts, ':');
    groups_have_single_colons(groups);
    let left = joined_with(groups, ':');
    assert(parts.drop_last() =~= groups);
    if groups.len() == 0 {
        assert(all =~= last);
    } else {
        assert(all =~= left + seq![':'] + last);
    }
    assert forall|i: int| #![trigger all[i]] 0 <= i < all.len() implies all[i] != '%' by {
        if groups.len() == 0 {
            assert(last.contains(all[i]));
        } else if i < left.len() {
            assert(all[i] == left[i]);
        } else if i > left.len() {
            assert(last.contains(last[i - left.len() - 1]));
        }
    }
}

/// The scope of an IPv6 address stands behind a percent sign and is a decimal number of 32 bits.
pub proof fn ipv6_addresses_may_have_a_scope(address: Seq<char>, scope: nat, port: u16)
    requires
        forall|i: int| #![trigger address[i]] 0 <= i < address.len() ==> address[i] != '%',
    ensures
        socket_address(
            seq!['['] + address + seq!['%'] + digits(scope) + seq![']', ':'] + digits(port as nat),
        ) <==> ipv6(address) && scope <= u32::MAX,
{
    let inside = address + seq!['%'] + digits(scope);
    let host = seq!['['] + inside + seq![']'];
    let text = seq!['['] + address + seq!['%'] + digits(scope) + seq![']', ':'] + digits(
        port as nat,
    );
    assert(text =~= host + seq![':'] + digits(port as nat));
    digits_hold_no(port as nat, ':');
    digits_spell_their_number(port as nat);
    digits_spell_their_number(scope);
    last_colon(host, digits(port as nat));
    brackets_are_no_ipv4(host);
    let inner = host.subrange(1, host.len() - 1);
    assert(inner =~= inside);
    index_is_that_of_the_first(inner, '%');
    let at = index_of(inner, '%');
    assert(inner[address.len() as int] == '%');
    if at < address.len() {
        assert(inner[at] == address[at]);
    }
    assert(at == address.len());
    assert(inner.take(at) =~= address);
    assert(inner.skip(at + 1) =~= digits(scope));
}

/// What stands behind the last colon of a listen address is a port in decimal digits up to 65535,
/// however many digits it has; what stands in front of it is an IPv4 address, or an IPv6 address in
/// brackets. Nothing else is a listen address.
pub proof fn listen_address_is_host_and_port(host: Seq<char>, port: Seq<char>)
    requires
        !port.contains(':'),
    ensures
        socket_address(host + seq![':'] + port) <==> {
            &&& ipv4(host) || bracketed(host)
            &&& port.len() > 0
            &&& forall|i: int| 0 <= i < port.len() ==> '0' <= #[trigger] port[i] <= '9'
            &&& digits_value(port) <= 65535
        },
{
    last_colon(host, port);
    if all_digits(port) {
        assert forall|i: int| 0 <= i < port.len() implies '0' <= #[trigger] port[i] <= '9' by {
            assert(digit(port[i]));
        }
    }
}

/// A text without a colon is no listen address.
pub proof fn listen_address_has_a_colon(text: Seq<char>)
    requires
        !text.contains(':'),
    ensures
        !socket_address(text),
{
    last_of_stands(text, ':');
}

/// The double colon stands at most once in an IPv6 address.
pub proof fn double_colon_stands_once(left: Seq<char>, middle: Seq<char>, right: Seq<char>)
    ensures
        !ipv6(left + seq![':', ':'] + middle + seq![':', ':'] + right),
{
    let s = left + seq![':', ':'] + middle + seq![':', ':'] + right;
    let at = gap(s);
    let first = left.len() as int;
    let second = first + 2 + middle.len();
    assert(s[first] == ':' && s[first + 1] == ':');
    assert(s[second] == ':' && s[second + 1] == ':');
    gap_comes_first(s, first);
    gap_bounds(s);
    gap_is_colons(s);
    let behind = s.skip(at + 2);
    let i = second - at - 2;
    assert(behind[i] == s[second]);
    assert(behind[i + 1] == s[second + 1]);
    empty_group_counts_not(behind, i);
}

/// The gap is the first double colon.
proof fn gap_comes_first(s: Seq<char>, i: int)
    requires
        0 <= i < s.len() - 1,
        s[i] == ':',
        s[i + 1] == ':',
    ensures
        gap(s) <= i,
    decreases s.len(),
{
    if i > 0 {
        let rest = s.skip(1);
        assert(rest[i - 1] == s[i] && rest[i] == s[i + 1]);
        gap_comes_first(rest, i - 1);
    }
}

proof fn gap_is_colons(s: Seq<char>)
    ensures
        gap(s) >= 0,
        gap(s) < s.len() ==> gap(s) + 1 < s.len() && s[gap(s)] == ':' && s[gap(s) + 1] == ':',
    decreases s.len(),
{
    if s.len() > 0 && !(s.len() > 1 && s[0] == ':' && s[1] == ':') {
        gap_is_colons(s.skip(1));
    }
}

/// Nothing between two colons is no group.
proof fn empty_group_counts_not(s: Seq<char>, i: int)
    requires
        0 <= i < s.len() - 1,
        s[i] == ':',
        s[i + 1] == ':',
    ensures
        group_count(s, true) is None,
{
    let parts = split_at_each(s, ':');
    let j = what_stands_between_separators_is_a_part(s, ':', i + 1, i + 1);
    assert(parts[j].len() == 0);
    assert(!group(parts[j]));
    assert(j < parts.len() - 1);
}

/// The groups of an IPv6 address are one to four hexadecimal digits each, with colons between them;
/// only where an IPv4 address may end them the last may be one.
pub proof fn groups_are_hexadecimal(s: Seq<char>, ending: bool)
    requires
        s.len() > 0,
    ensures
        ({
            let parts = split_at_each(s, ':');
            let last = parts.len() - 1;
            match group_count(s, ending) {
                Some(count) => {
                    &&& forall|i: int|
                        #![trigger parts[i]]
                        0 <= i < last ==> hexadecimal_group(parts[i])
                    &&& if hexadecimal_group(parts[last]) {
                        count == parts.len()
                    } else {
                        ending && ipv4(parts[last]) && count == parts.len() + 1
                    }
                },
                None => {
                    ||| exists|i: int|
                        #![trigger parts[i]]
                        0 <= i < last && !hexadecimal_group(parts[i])
                    ||| !hexadecimal_group(parts[last]) && !(ending && ipv4(parts[last]))
                },
            }
        }),
{
    let parts = split_at_each(s, ':');
    let last = parts.len() - 1;
    assert forall|i: int| #![trigger parts[i]] group(parts[i]) <==> hexadecimal_group(parts[i]) by {
        group_is_hexadecimal(parts[i]);
    }
    group_is_hexadecimal(parts[last]);
}

proof fn group_is_hexadecimal(s: Seq<char>)
    ensures
        group(s) <==> hexadecimal_group(s),
{
    if group(s) {
        assert forall|i: int| #![trigger s[i]] 0 <= i < s.len() implies ('0' <= s[i] <= '9') || ('a'
            <= s[i] <= 'f') || ('A' <= s[i] <= 'F') by {
            assert(hex_digit(s[i]));
        }
    }
    if hexadecimal_group(s) {
        assert forall|i: int| 0 <= i < s.len() implies hex_digit(#[trigger] s[i]) by {}
    }
}

/// An IPv6 address is eight groups, or the groups on either side of its first double colon, which
/// stands for one group at least.
pub proof fn ipv6_addresses_are_eight_groups(front: Seq<char>, rest: Seq<char>)
    requires
        forall|i: int|
            0 <= i < front.len() - 1 ==> #[trigger] front[i] != ':' || front[i + 1] != ':',
        front.len() > 0 ==> front[0] != ':' && front.last() != ':',
    ensures
        ipv6(front) <==> group_count(front, true) == Some(8nat),
        ipv6(front + seq![':', ':'] + rest) <==> (match (
            group_count(front, false),
            group_count(rest, true),
        ) {
            (Some(before), Some(behind)) => before + behind <= 7,
            _ => false,
        }),
{
    let all = front + seq![':', ':'] + rest;
    gap_behind(front, Seq::empty());
    assert(front + Seq::<char>::empty() == front);
    assert(all =~= front + (seq![':', ':'] + rest));
    gap_behind(front, seq![':', ':'] + rest);
    assert(all.take(front.len() as int) =~= front);
    assert(all.skip(front.len() as int + 2) =~= rest);
}

} // verus!

//! Recognition of `a.b.c.d:port` socket addresses and of the private IPv4
//! ranges, as the standard library's `SocketAddr` parser and
//! `Ipv4Addr::is_private` / `Ipv4Addr::is_link_local` define them.

use vstd::prelude::*;

verus! {

pub open spec fn is_ascii_digit(c: char) -> bool {
    0x30 <= (c as u32) && (c as u32) <= 0x39
}

pub open spec fn digit_value(c: char) -> nat {
    ((c as u32) - 0x30) as nat
}

/// How many ASCII digits follow one another in `s` from index `i` on.
pub open spec fn digit_run(s: Seq<char>, i: int) -> nat
    decreases s.len() - i,
{
    if 0 <= i < s.len() && is_ascii_digit(s[i]) {
        1 + digit_run(s, i + 1)
    } else {
        0
    }
}

/// The decimal value of the `n` characters of `s` that start at index `i`.
pub open spec fn decimal_value(s: Seq<char>, i: int, n: nat) -> nat
    decreases n,
{
    if n == 0 {
        0
    } else {
        decimal_value(s, i, (n - 1) as nat) * 10 + digit_value(s[i + n - 1])
    }
}

/// An IPv4 octet at index `i`: one to three digits, at most 255, and no
/// leading zero unless the octet is the single digit `0`. Gives the octet and
/// the index just past it.
pub open spec fn octet_at(s: Seq<char>, i: int) -> Option<(u8, int)> {
    let n = digit_run(s, i);
    let v = decimal_value(s, i, n);
    if 1 <= n <= 3 && v <= 255 && !(n > 1 && s[i] == '0') {
        Some((v as u8, i + n))
    } else {
        None
    }
}

/// A port at index `i`: at least one digit, leading zeros allowed, at most 65535.
pub open spec fn port_at(s: Seq<char>, i: int) -> Option<(u16, int)> {
    let n = digit_run(s, i);
    let v = decimal_value(s, i, n);
    if 1 <= n && v <= 65535 {
        Some((v as u16, i + n))
    } else {
        None
    }
}

pub open spec fn char_at_is(s: Seq<char>, i: int, c: char) -> bool {
    0 <= i < s.len() && s[i] == c
}

/// The octets and port of `s` when the whole of `s` reads as an IPv4 socket
/// address `a.b.c.d:port`.
pub open spec fn parse_socket_v4(s: Seq<char>) -> Option<(u8, u8, u8, u8, u16)> {
    match octet_at(s, 0) {
        Some((a, i1)) => if !char_at_is(s, i1, '.') { None } else {
            match octet_at(s, i1 + 1) {
                Some((b, i2)) => if !char_at_is(s, i2, '.') { None } else {
                    match octet_at(s, i2 + 1) {
                        Some((c, i3)) => if !char_at_is(s, i3, '.') { None } else {
                            match octet_at(s, i3 + 1) {
                                Some((d, i4)) => if !char_at_is(s, i4, ':') { None } else {
                                    match port_at(s, i4 + 1) {
                                        Some((p, end)) => if end == s.len() {
                                            Some((a, b, c, d, p))
                                        } else {
                                            None
                                        },
                                        None => None,
                                    }
                                },
                                None => None,
                            }
                        },
                        None => None,
                    }
                },
                None => None,
            }
        },
        None => None,
    }
}

/// 10.0.0.0/8, 172.16.0.0/12 and 192.168.0.0/16 (private), or 169.254.0.0/16 (link-local).
pub open spec fn is_private_or_link_local(a: u8, b: u8) -> bool {
    ||| a == 10
    ||| (a == 172 && 16 <= b && b <= 31)
    ||| (a == 192 && b == 168)
    ||| (a == 169 && b == 254)
}

/// Both strings are IPv4 socket addresses, both addresses are private or
/// link-local, and they agree on their first three octets.
pub open spec fn share_private_ipv4_subnet(left: Seq<char>, right: Seq<char>) -> bool {
    match (parse_socket_v4(left), parse_socket_v4(right)) {
        (Some(l), Some(r)) => {
            &&& is_private_or_link_local(l.0, l.1)
            &&& is_private_or_link_local(r.0, r.1)
            &&& l.0 == r.0
            &&& l.1 == r.1
            &&& l.2 == r.2
        },
        _ => false,
    }
}

proof fn lemma_digit_run(s: Seq<char>, i: int, j: int)
    requires
        0 <= i <= j <= s.len(),
        forall|k: int| i <= k < j ==> is_ascii_digit(#[trigger] s[k]),
        j == s.len() || !is_ascii_digit(s[j]),
    ensures
        digit_run(s, i) == j - i,
    decreases j - i,
{
    if i < j {
        lemma_digit_run(s, i + 1, j);
    }
}

fn is_digit_char(c: char) -> (r: bool)
    ensures
        r == is_ascii_digit(c),
{
    let v = c as u32;
    0x30 <= v && v <= 0x39
}

/// Reads the digit run of `s` at `i`: its length, and its value when that
/// value is at most `max`.
fn read_decimal(s: &Vec<char>, i: usize, max: u32) -> (r: (usize, Option<u32>))
    requires
        i <= s.len(),
        max <= 65535,
    ensures
        r.0 == digit_run(s@, i as int),
        i + r.0 <= s.len(),
        r.1 is Some <==> decimal_value(s@, i as int, r.0 as nat) <= max,
        r.1 matches Some(v) ==> v == decimal_value(s@, i as int, r.0 as nat),
{
    let mut j: usize = i;
    let mut value: u32 = 0;
    let mut overflow = false;
    while j < s.len() && is_digit_char(s[j])
        invariant
            i <= j <= s.len(),
            max <= 65535,
            forall|k: int| i <= k < j ==> is_ascii_digit(#[trigger] s@[k]),
            overflow <==> decimal_value(s@, i as int, (j - i) as nat) > max,
            !overflow ==> value == decimal_value(s@, i as int, (j - i) as nat),
        decreases s.len() - j,
    {
        let d = (s[j] as u32) - 0x30;
        assert(decimal_value(s@, i as int, (j + 1 - i) as nat) == decimal_value(
            s@,
            i as int,
            (j - i) as nat,
        ) * 10 + d);
        if !overflow {
            let next = value * 10 + d;
            if next > max {
                overflow = true;
            } else {
                value = next;
            }
        }
        j = j + 1;
    }
    proof {
        lemma_digit_run(s@, i as int, j as int);
    }
    if overflow {
        (j - i, None)
    } else {
        (j - i, Some(value))
    }
}

fn read_octet(s: &Vec<char>, i: usize) -> (r: Option<(u8, usize)>)
    requires
        i <= s.len(),
    ensures
        r is None <==> octet_at(s@, i as int) is None,
        r matches Some((v, next)) ==> octet_at(s@, i as int) == Some((v, next as int)) && next <= s.len(),
{
    let (n, value) = read_decimal(s, i, 255);
    if n < 1 || n > 3 {
        return None;
    }
    match value {
        None => None,
        Some(v) => {
            if n > 1 && s[i] == '0' {
                None
            } else {
                Some((v as u8, i + n))
            }
        },
    }
}

fn read_port(s: &Vec<char>, i: usize) -> (r: Option<(u16, usize)>)
    requires
        i <= s.len(),
    ensures
        r is None <==> port_at(s@, i as int) is None,
        r matches Some((v, next)) ==> port_at(s@, i as int) == Some((v, next as int)) && next <= s.len(),
{
    let (n, value) = read_decimal(s, i, 65535);
    if n < 1 {
        return None;
    }
    match value {
        None => None,
        Some(v) => Some((v as u16, i + n)),
    }
}

fn char_is(s: &Vec<char>, i: usize, c: char) -> (r: bool)
    ensures
        r == char_at_is(s@, i as int, c),
{
    i < s.len() && s[i] == c
}

/// The octets and port of an IPv4 socket address written `a.b.c.d:port`.
pub fn parse_socket_v4_chars(s: &Vec<char>) -> (r: Option<(u8, u8, u8, u8, u16)>)
    ensures
        r == parse_socket_v4(s@),
{
    let (a, i1) = match read_octet(s, 0) {
        Some(x) => x,
        None => return None,
    };
    if !char_is(s, i1, '.') {
        return None;
    }
    let (b, i2) = match read_octet(s, i1 + 1) {
        Some(x) => x,
        None => return None,
    };
    if !char_is(s, i2, '.') {
        return None;
    }
    let (c, i3) = match read_octet(s, i2 + 1) {
        Some(x) => x,
        None => return None,
    };
    if !char_is(s, i3, '.') {
        return None;
    }
    let (d, i4) = match read_octet(s, i3 + 1) {
        Some(x) => x,
        None => return None,
    };
    if !char_is(s, i4, ':') {
        return None;
    }
    let (p, end) = match read_port(s, i4 + 1) {
        Some(x) => x,
        None => return None,
    };
    if end != s.len() {
        return None;
    }
    assert(octet_at(s@, 0) == Some((a, i1 as int)));
    assert(octet_at(s@, i1 + 1) == Some((b, i2 as int)));
    assert(octet_at(s@, i2 + 1) == Some((c, i3 as int)));
    assert(octet_at(s@, i3 + 1) == Some((d, i4 as int)));
    assert(port_at(s@, i4 + 1) == Some((p, end as int)));
    Some((a, b, c, d, p))
}

fn private_or_link_local(a: u8, b: u8) -> (r: bool)
    ensures
        r == is_private_or_link_local(a, b),
{
    a == 10 || (a == 172 && 16 <= b && b <= 31) || (a == 192 && b == 168) || (a == 169 && b
        == 254)
}

/// Whether two endpoints are IPv4 socket addresses in one private (or
/// link-local) /24 network.
pub fn endpoints_share_private_ipv4_subnet(left: &str, right: &str) -> (r: bool)
    ensures
        r == share_private_ipv4_subnet(left@, right@),
{
    let lc = crate::text::chars_of(left);
    let rc = crate::text::chars_of(right);
    let l = match parse_socket_v4_chars(&lc) {
        Some(x) => x,
        None => return false,
    };
    let r = match parse_socket_v4_chars(&rc) {
        Some(x) => x,
        None => return false,
    };
    private_or_link_local(l.0, l.1) && private_or_link_local(r.0, r.1) && l.0 == r.0 && l.1 == r.1
        && l.2 == r.2
}

/// Sharing a private /24 network is symmetric.
pub proof fn lemma_share_subnet_symmetric(left: Seq<char>, right: Seq<char>)
    ensures
        share_private_ipv4_subnet(left, right) == share_private_ipv4_subnet(right, left),
{
}

/// Two endpoints share a private network only when both are IPv4 socket
/// addresses in private or link-local ranges whose first three octets agree:
/// endpoints that differ in any of the first three octets never share one.
pub proof fn lemma_shared_subnet_agrees_on_three_octets(left: Seq<char>, right: Seq<char>)
    ensures
        share_private_ipv4_subnet(left, right) ==> (parse_socket_v4(left) matches Some(l) && parse_socket_v4(
            right,
        ) matches Some(r) && l.0 == r.0 && l.1 == r.1 && l.2 == r.2 && is_private_or_link_local(l.0, l.1)
            && is_private_or_link_local(r.0, r.1)),
        (parse_socket_v4(left) matches Some(l) && parse_socket_v4(right) matches Some(r) && (l.0 != r.0
            || l.1 != r.1 || l.2 != r.2)) ==> !share_private_ipv4_subnet(left, right),
{
}

} // verus!

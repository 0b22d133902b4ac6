//! Socket addresses as plain values, and the text they are written as.

use crate::text::{self, push_number};
use vstd::prelude::*;

verus! {

/// An IP address and a UDP port.
///
/// Two addresses are the same when every field is, which for IPv6 includes the flow
/// information and the scope.
#[allow(inconsistent_fields)]
#[derive(Debug, Clone, Copy, PartialEq, Eq, Hash, Structural)]
pub enum SocketAddr {
    V4 { ip: u32, port: u16 },
    V6 { ip: u128, port: u16, flowinfo: u32, scope_id: u32 },
}

/// The octets of an IPv4 address, in decimal, with dots between them.
pub open spec fn ipv4_text(ip: nat) -> Seq<char> {
    text::digits(ip / 0x100_0000, 10) + seq!['.'] + text::digits((ip / 0x1_0000) % 256, 10) + seq![
        '.',
    ] + text::digits((ip / 0x100) % 256, 10) + seq!['.'] + text::digits(ip % 256, 10)
}

/// The last `n` sixteen-bit segments of an IPv6 address.
pub open spec fn segments(ip: nat, n: nat) -> Seq<nat>
    decreases n,
{
    if n == 0 {
        Seq::empty()
    } else {
        segments(ip / 0x1_0000, (n - 1) as nat).push(ip % 0x1_0000)
    }
}

/// Segments in hexadecimal, with colons between them.
pub open spec fn joined(s: Seq<nat>) -> Seq<char>
    decreases s.len(),
{
    if s.len() == 0 {
        Seq::empty()
    } else if s.len() == 1 {
        text::digits(s[0], 16)
    } else {
        joined(s.drop_last()) + seq![':'] + text::digits(s.last(), 16)
    }
}

/// The `len` segments from `start` on are all zero.
pub open spec fn zero_run(s: Seq<nat>, start: int, len: int) -> bool {
    &&& 0 <= start
    &&& 0 <= len
    &&& start + len <= s.len()
    &&& forall|k: int| start <= k < start + len ==> s[k] == 0
}

/// The longest run of zero segments, the first of those that are equally long.
pub open spec fn longest_run(s: Seq<nat>, start: int, len: int) -> bool {
    &&& zero_run(s, start, len)
    &&& forall|a: int, n: int| #[trigger]
        zero_run(s, a, n) ==> n < len || (n == len && start <= a)
}

/// RFC 5952: the longest run of two or more zero segments shrinks to `::`, and an IPv4-mapped
/// address shows its IPv4 half in the IPv4 way.
pub open spec fn ipv6_text(ip: nat) -> Seq<char> {
    let s = segments(ip, 8);
    if ip / 0x1_0000_0000 == 0xffff {
        seq![':', ':', 'f', 'f', 'f', 'f', ':'] + ipv4_text(ip % 0x1_0000_0000)
    } else {
        let (start, len) = choose|start: int, len: int| longest_run(s, start, len);
        if len >= 2 {
            joined(s.take(start)) + seq![':', ':'] + joined(s.skip(start + len))
        } else {
            joined(s)
        }
    }
}

impl SocketAddr {
    /// The UDP port.
    pub open spec fn spec_port(self) -> u16 {
        match self {
            SocketAddr::V4 { ip, port } => port,
            SocketAddr::V6 { ip, port, flowinfo, scope_id } => port,
        }
    }

    /// How the address is written: `ip:port`, with brackets round an IPv6 address and, inside
    /// them, its scope unless that is zero.
    pub open spec fn text(self) -> Seq<char> {
        match self {
            SocketAddr::V4 { ip, port } => ipv4_text(ip as nat) + seq![':'] + text::digits(
                port as nat,
                10,
            ),
            SocketAddr::V6 { ip, port, flowinfo, scope_id } => {
                let scope = if scope_id == 0 {
                    Seq::empty()
                } else {
                    seq!['%'] + text::digits(scope_id as nat, 10)
                };
                seq!['['] + ipv6_text(ip as nat) + scope + seq![']', ':'] + text::digits(
                    port as nat,
                    10,
                )
            },
        }
    }

    /// One socket bound here serves both address families: it is IPv6 and unspecified.
    pub open spec fn spec_dual_stack(self) -> bool {
        self matches SocketAddr::V6 { ip, .. } && ip == 0
    }

    pub fn port(&self) -> (port: u16)
        ensures
            port == self.spec_port(),
    {
        match self {
            SocketAddr::V4 { port, .. } => *port,
            SocketAddr::V6 { port, .. } => *port,
        }
    }

    /// Should a socket bound here also take IPv4 clients?
    ///
    /// A client resolving a name to both families tries IPv6 first, so a v4-only proxy costs
    /// every cold connect the client's full handshake timeout before it falls back.
    pub fn is_dual_stack(&self) -> (yes: bool)
        ensures
            yes == self.spec_dual_stack(),
    {
        match self {
            SocketAddr::V4 { .. } => false,
            SocketAddr::V6 { ip, .. } => *ip == 0,
        }
    }

    /// Any port of any interface in this address's family.
    pub fn any_of_family(&self) -> (addr: SocketAddr)
        ensures
            addr == match *self {
                SocketAddr::V4 { .. } => SocketAddr::V4 { ip: 0, port: 0 },
                SocketAddr::V6 { .. } => SocketAddr::V6 {
                    ip: 0,
                    port: 0,
                    flowinfo: 0,
                    scope_id: 0,
                },
            },
    {
        match self {
            SocketAddr::V4 { .. } => SocketAddr::V4 { ip: 0, port: 0 },
            SocketAddr::V6 { .. } => SocketAddr::V6 { ip: 0, port: 0, flowinfo: 0, scope_id: 0 },
        }
    }
}

/// Two runs that are both longest are the same run.
proof fn lemma_longest_run_unique(s: Seq<nat>, start: int, len: int)
    requires
        longest_run(s, start, len),
    ensures
        (start, len) == (choose|a: int, n: int| longest_run(s, a, n)),
{
    let (a, n) = choose|a: int, n: int| longest_run(s, a, n);
    assert(zero_run(s, a, n));
    assert(zero_run(s, start, len));
}

fn push_ipv4(out: &mut String, ip: u32)
    ensures
        final(out)@ == old(out)@ + ipv4_text(ip as nat),
{
    push_number(out, (ip / 0x100_0000) as u64, 10);
    out.push('.');
    push_number(out, ((ip / 0x1_0000) % 256) as u64, 10);
    out.push('.');
    push_number(out, ((ip / 0x100) % 256) as u64, 10);
    out.push('.');
    push_number(out, (ip % 256) as u64, 10);
    proof {
        assert(out@ =~= old(out)@ + ipv4_text(ip as nat));
    }
}

/// A sequence of machine segments as numbers.
spec fn numbers(s: Seq<u16>) -> Seq<nat> {
    s.map_values(|x: u16| x as nat)
}

fn split_segments(ip: u128, n: usize) -> (out: Vec<u16>)
    ensures
        numbers(out@) == segments(ip as nat, n as nat),
    decreases n,
{
    if n == 0 {
        let out: Vec<u16> = Vec::new();
        proof {
            assert(numbers(out@) =~= Seq::<nat>::empty());
        }
        out
    } else {
        let mut out = split_segments(ip / 0x1_0000, n - 1);
        let ghost earlier = out@;
        out.push((ip % 0x1_0000) as u16);
        proof {
            assert(numbers(out@) =~= numbers(earlier).push((ip % 0x1_0000) as nat));
        }
        out
    }
}

fn push_joined(out: &mut String, s: &Vec<u16>, from: usize, to: usize)
    requires
        from <= to <= s@.len(),
    ensures
        final(out)@ == old(out)@ + joined(numbers(s@).subrange(from as int, to as int)),
{
    let ghost all = numbers(s@);
    let mut i: usize = from;
    proof {
        assert(all.subrange(from as int, from as int) =~= Seq::<nat>::empty());
        assert(out@ =~= old(out)@ + joined(Seq::<nat>::empty()));
    }
    while i < to
        invariant
            from <= i <= to <= s@.len(),
            all == numbers(s@),
            out@ == old(out)@ + joined(all.subrange(from as int, i as int)),
        decreases to - i,
    {
        if i > from {
            out.push(':');
        }
        push_number(out, s[i] as u64, 16);
        proof {
            let more = all.subrange(from as int, i + 1);
            assert(more.drop_last() =~= all.subrange(from as int, i as int));
            assert(more.last() == s@[i as int] as nat);
            assert(out@ =~= old(out)@ + joined(more));
        }
        i = i + 1;
    }
}

/// Find the longest run of zero segments.
fn find_run(s: &Vec<u16>) -> (run: (usize, usize))
    ensures
        longest_run(numbers(s@), run.0 as int, run.1 as int),
{
    let ghost all = numbers(s@);
    let mut best_start: usize = 0;
    let mut best_len: usize = 0;
    let mut len: usize = 0;
    let mut i: usize = 0;
    while i < s.len()
        invariant
            i <= s@.len(),
            all == numbers(s@),
            len <= i,
            zero_run(all, i - len, len as int),
            len < i ==> all[i - len - 1] != 0,
            longest_run(all.take(i as int), best_start as int, best_len as int),
            best_start + best_len <= i,
        decreases s@.len() - i,
    {
        let ghost old_start = best_start;
        let ghost old_len = best_len;
        if s[i] == 0 {
            len = len + 1;
            if len > best_len {
                best_start = i + 1 - len;
                best_len = len;
            }
        } else {
            len = 0;
        }
        proof {
            let shorter = all.take(i as int);
            let longer = all.take(i + 1);
            assert(all[i as int] == s@[i as int] as nat);
            assert(zero_run(shorter, old_start as int, old_len as int));
            assert forall|a: int, n: int| #[trigger] zero_run(longer, a, n) implies n < best_len
                || (n == best_len && best_start <= a) by {
                if a + n <= i {
                    assert(zero_run(shorter, a, n));
                } else {
                    assert(n > 0 ==> longer[i as int] == 0);
                    if n > len {
                        assert(longer[i - len] == 0);
                    }
                }
            }
            assert(zero_run(longer, best_start as int, best_len as int)) by {
                assert(forall|k: int| 0 <= k < i ==> shorter[k] == longer[k]);
            }
        }
        i = i + 1;
    }
    proof {
        assert(all.take(i as int) =~= all);
    }
    (best_start, best_len)
}

fn push_ipv6(out: &mut String, ip: u128)
    ensures
        final(out)@ == old(out)@ + ipv6_text(ip as nat),
{
    let ghost before = out@;
    if ip / 0x1_0000_0000 == 0xffff {
        out.push(':');
        out.push(':');
        out.push('f');
        out.push('f');
        out.push('f');
        out.push('f');
        out.push(':');
        push_ipv4(out, (ip % 0x1_0000_0000) as u32);
        proof {
            assert(out@ =~= before + ipv6_text(ip as nat));
        }
    } else {
        let s = split_segments(ip, 8);
        let ghost all = numbers(s@);
        let (start, len) = find_run(&s);
        proof {
            lemma_longest_run_unique(all, start as int, len as int);
        }
        if len >= 2 {
            push_joined(out, &s, 0, start);
            out.push(':');
            out.push(':');
            push_joined(out, &s, start + len, s.len());
            proof {
                assert(all.subrange(0, start as int) =~= all.take(start as int));
                assert(all.subrange(start + len, all.len() as int) =~= all.skip(start + len));
                assert(out@ =~= before + ipv6_text(ip as nat));
            }
        } else {
            push_joined(out, &s, 0, s.len());
            proof {
                assert(all.subrange(0, all.len() as int) =~= all);
                assert(out@ =~= before + ipv6_text(ip as nat));
            }
        }
    }
}

impl SocketAddr {
    /// The address as it is written in arguments and messages.
    pub fn to_text(&self) -> (out: String)
        ensures
            out@ == self.text(),
    {
        let mut out = String::new();
        match *self {
            SocketAddr::V4 { ip, port } => {
                push_ipv4(&mut out, ip);
                out.push(':');
                push_number(&mut out, port as u64, 10);
            },
            SocketAddr::V6 { ip, port, flowinfo: _, scope_id } => {
                out.push('[');
                push_ipv6(&mut out, ip);
                if scope_id != 0 {
                    out.push('%');
                    push_number(&mut out, scope_id as u64, 10);
                }
                out.push(']');
                out.push(':');
                push_number(&mut out, port as u64, 10);
            },
        }
        proof {
            assert(out@ =~= self.text());
        }
        out
    }
}

/// Four octets in decimal, with dots between them.
pub open spec fn dotted(a: nat, b: nat, c: nat, d: nat) -> Seq<char> {
    text::digits(a, 10) + seq!['.'] + text::digits(b, 10) + seq!['.'] + text::digits(c, 10) + seq![
        '.',
    ] + text::digits(d, 10)
}

/// Law: an IPv4 address is written by its four octets, the highest first, and its port.
pub proof fn law_an_ipv4_address_is_written_by_its_octets(
    addr: SocketAddr,
    ip: u32,
    port: u16,
    a: nat,
    b: nat,
    c: nat,
    d: nat,
)
    requires
        addr == (SocketAddr::V4 { ip, port }),
        a < 256 && b < 256 && c < 256 && d < 256,
        ip == a * 0x100_0000 + b * 0x1_0000 + c * 0x100 + d,
    ensures
        addr.text() == dotted(a, b, c, d) + seq![':'] + text::digits(port as nat, 10),
{
    lemma_octets(ip as nat, a, b, c, d);
    assert(ipv4_text(ip as nat) =~= dotted(a, b, c, d));
}

proof fn lemma_octets(n: nat, a: nat, b: nat, c: nat, d: nat)
    requires
        b < 256 && c < 256 && d < 256,
        n == a * 0x100_0000 + b * 0x1_0000 + c * 0x100 + d,
    ensures
        n / 0x100_0000 == a,
        (n / 0x1_0000) % 256 == b,
        (n / 0x100) % 256 == c,
        n % 256 == d,
{
    let two = a * 256 + b;
    let three = two * 256 + c;
    lemma_split(n, 0x100_0000, a, b * 0x1_0000 + c * 0x100 + d);
    lemma_split(n, 0x1_0000, two, c * 0x100 + d);
    lemma_split(n, 0x100, three, d);
    lemma_split(two, 256, a, b);
    lemma_split(three, 256, two, c);
}

proof fn lemma_split(n: nat, base: nat, high: nat, low: nat)
    requires
        low < base,
        n == high * base + low,
    ensures
        n / base == high,
        n % base == low,
{
    vstd::arithmetic::div_mod::lemma_fundamental_div_mod_converse(
        n as int,
        base as int,
        high as int,
        low as int,
    );
}

/// The number that sixteen-bit segments make up, the first one counting most.
pub open spec fn assembled(s: Seq<nat>) -> nat
    decreases s.len(),
{
    if s.len() == 0 {
        0
    } else {
        assembled(s.drop_last()) * 0x1_0000 + s.last()
    }
}

/// Groups in hexadecimal, with colons between them.
pub open spec fn groups(s: Seq<nat>) -> Seq<char>
    decreases s.len(),
{
    if s.len() == 0 {
        Seq::empty()
    } else if s.len() == 1 {
        text::digits(s[0], 16)
    } else {
        text::digits(s[0], 16) + seq![':'] + groups(s.skip(1))
    }
}

proof fn lemma_groups(s: Seq<nat>, last: nat)
    requires
        s.len() > 0,
    ensures
        groups(s.push(last)) == groups(s) + seq![':'] + text::digits(last, 16),
    decreases s.len(),
{
    let more = s.push(last);
    if s.len() == 1 {
        assert(more.skip(1) =~= seq![last]);
        assert(groups(seq![last]) =~= text::digits(last, 16));
    } else {
        assert(more.skip(1) =~= s.skip(1).push(last));
        lemma_groups(s.skip(1), last);
    }
    assert(groups(more) =~= groups(s) + seq![':'] + text::digits(last, 16));
}

proof fn lemma_joined(s: Seq<nat>)
    ensures
        joined(s) == groups(s),
    decreases s.len(),
{
    if s.len() > 1 {
        lemma_joined(s.drop_last());
        lemma_groups(s.drop_last(), s.last());
        assert(s.drop_last().push(s.last()) =~= s);
    }
}

proof fn lemma_segments(s: Seq<nat>)
    requires
        forall|i: int| 0 <= i < s.len() ==> #[trigger] s[i] < 0x1_0000,
    ensures
        segments(assembled(s), s.len()) == s,
    decreases s.len(),
{
    if s.len() > 0 {
        let front = s.drop_last();
        lemma_segments(front);
        let ip = assembled(s);
        assert(s.last() < 0x1_0000) by {
            assert(s[s.len() - 1] < 0x1_0000);
        }
        assert(ip / 0x1_0000 == assembled(front));
        assert(ip % 0x1_0000 == s.last());
        assert(segments(ip, s.len()) =~= s);
    } else {
        assert(segments(assembled(s), 0) =~= s);
    }
}

/// An IPv4 address inside an IPv6 one: five zero segments and one full one come first.
pub open spec fn is_mapped(s: Seq<nat>) -> bool {
    s[0] == 0 && s[1] == 0 && s[2] == 0 && s[3] == 0 && s[4] == 0 && s[5] == 0xffff
}

/// From `start` on there are `len` zero segments.
pub open spec fn zeros(s: Seq<nat>, start: int, len: int) -> bool {
    0 <= start && 0 <= len && start + len <= 8 && forall|k: int|
        start <= k < start + len ==> s[k] == 0
}

/// What stands between the brackets of an IPv6 address, given where its longest run of zero
/// segments starts and how long that is.
pub open spec fn bracketed(s: Seq<nat>, start: int, len: int) -> Seq<char> {
    if is_mapped(s) {
        seq![':', ':', 'f', 'f', 'f', 'f', ':'] + dotted(
            s[6] / 256,
            s[6] % 256,
            s[7] / 256,
            s[7] % 256,
        )
    } else if len >= 2 {
        groups(s.take(start)) + seq![':', ':'] + groups(s.skip(start + len))
    } else {
        groups(s)
    }
}

proof fn lemma_eight(s: Seq<nat>)
    requires
        s.len() == 8,
        forall|i: int| 0 <= i < s.len() ==> #[trigger] s[i] < 0x1_0000,
    ensures
        assembled(s) / 0x1_0000_0000 == 0xffff <==> is_mapped(s),
        assembled(s) % 0x1_0000_0000 == s[6] * 0x1_0000 + s[7],
{
    let six = s.take(6);
    let seven = s.take(7);
    assert(s.drop_last() =~= seven);
    assert(seven.drop_last() =~= six);
    assert(six.drop_last() =~= s.take(5));
    assert(s.take(5).drop_last() =~= s.take(4));
    assert(s.take(4).drop_last() =~= s.take(3));
    assert(s.take(3).drop_last() =~= s.take(2));
    assert(s.take(2).drop_last() =~= s.take(1));
    assert(s.take(1).drop_last() =~= s.take(0));
    assert(assembled(s.take(0)) == 0);
    assert(assembled(s.take(1)) == s[0]);
    assert(assembled(s.take(2)) == assembled(s.take(1)) * 0x1_0000 + s[1]);
    assert(assembled(s.take(3)) == assembled(s.take(2)) * 0x1_0000 + s[2]);
    assert(assembled(s.take(4)) == assembled(s.take(3)) * 0x1_0000 + s[3]);
    assert(assembled(s.take(5)) == assembled(s.take(4)) * 0x1_0000 + s[4]);
    assert(assembled(six) == assembled(s.take(5)) * 0x1_0000 + s[5]);
    assert(assembled(seven) == assembled(six) * 0x1_0000 + s[6]);
    assert(assembled(s) == assembled(seven) * 0x1_0000 + s[7]);
    assert(s[6] < 0x1_0000 && s[7] < 0x1_0000 && s[5] < 0x1_0000);
    assert(assembled(s) / 0x1_0000_0000 == assembled(six));
    assert(assembled(six) == 0xffff ==> assembled(s.take(5)) == 0);
}

/// Law: an IPv6 address is written by its eight segments in hexadecimal, the highest first, without
/// the longest run of two or more zero ones, the first of those that are equally long; one that
/// stands for an IPv4 address shows that one's octets. Its scope follows unless it is zero, and
/// the port comes behind the brackets.
pub proof fn law_an_ipv6_address_is_written_by_its_segments(
    addr: SocketAddr,
    ip: u128,
    port: u16,
    flowinfo: u32,
    scope_id: u32,
    s: Seq<nat>,
    start: int,
    len: int,
)
    requires
        addr == (SocketAddr::V6 { ip, port, flowinfo, scope_id }),
        s.len() == 8,
        forall|i: int| 0 <= i < s.len() ==> #[trigger] s[i] < 0x1_0000,
        ip == assembled(s),
        zeros(s, start, len),
        forall|a: int, n: int| #[trigger] zeros(s, a, n) ==> n < len || (n == len && start <= a),
    ensures
        scope_id == 0 ==> addr.text() == seq!['['] + bracketed(s, start, len) + seq![']', ':']
            + text::digits(port as nat, 10),
        scope_id != 0 ==> addr.text() == seq!['['] + bracketed(s, start, len) + seq!['%']
            + text::digits(scope_id as nat, 10) + seq![']', ':'] + text::digits(port as nat, 10),
{
    let n = ip as nat;
    lemma_segments(s);
    lemma_eight(s);
    if is_mapped(s) {
        let low = n % 0x1_0000_0000;
        let hi = s[6];
        let lo = s[7];
        assert(hi < 0x1_0000 && lo < 0x1_0000);
        assert(low == hi * 0x1_0000 + lo);
        assert(low / 0x100_0000 == hi / 256);
        assert((low / 0x1_0000) % 256 == hi % 256);
        assert((low / 0x100) % 256 == lo / 256);
        assert(low % 256 == lo % 256);
    } else {
        assert forall|a: int, k: int| #[trigger] zero_run(s, a, k) implies k < len || (k == len
            && start <= a) by {
            assert(zeros(s, a, k));
        }
        assert(longest_run(s, start, len));
        lemma_longest_run_unique(s, start, len);
        if len >= 2 {
            lemma_joined(s.take(start));
            lemma_joined(s.skip(start + len));
        } else {
            lemma_joined(s);
        }
    }
    assert(ipv6_text(n) == bracketed(s, start, len));
    if scope_id == 0 {
        assert(addr.text() =~= seq!['['] + bracketed(s, start, len) + seq![']', ':']
            + text::digits(port as nat, 10));
    } else {
        assert(addr.text() =~= seq!['['] + bracketed(s, start, len) + seq!['%'] + text::digits(
            scope_id as nat,
            10,
        ) + seq![']', ':'] + text::digits(port as nat, 10));
    }
}

/// Law: an address has the port it was made with, and takes both families exactly when it is IPv6
/// and no particular one.
pub proof fn law_an_address_keeps_its_port(addr: SocketAddr)
    ensures
        addr matches SocketAddr::V4 { port, .. } ==> addr.spec_port() == port
            && !addr.spec_dual_stack(),
        addr matches SocketAddr::V6 { ip, port, .. } ==> addr.spec_port() == port && (
        addr.spec_dual_stack() <==> ip == 0),
{
}

} // verus!

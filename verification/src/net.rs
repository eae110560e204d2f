//! Socket addresses as plain values.

use vstd::prelude::*;

verus! {

/// An IPv4 socket address.
#[derive(Clone, Copy, Debug, PartialEq, Eq, Hash, PartialOrd, Ord, Structural)]
pub struct SocketAddrV4 {
    /// The IP address, its first octet in the most significant byte.
    pub ip: u32,
    /// The port.
    pub port: u16,
}

/// An IPv6 socket address.
#[derive(Clone, Copy, Debug, PartialEq, Eq, Hash, PartialOrd, Ord, Structural)]
pub struct SocketAddrV6 {
    /// The IP address, its first octet in the most significant byte.
    pub ip: u128,
    /// The port.
    pub port: u16,
    /// The flow information.
    pub flowinfo: u32,
    /// The scope identifier.
    pub scope_id: u32,
}

/// An IPv4 or IPv6 socket address.
#[derive(Clone, Copy, Debug, PartialEq, Eq, Hash, PartialOrd, Ord, Structural)]
pub enum SocketAddr {
    V4(SocketAddrV4),
    V6(SocketAddrV6),
}

/// The `u32` whose big-endian bytes are the four octets.
pub open spec fn ipv4_from_octets(a: u8, b: u8, c: u8, d: u8) -> u32 {
    ((a as u32) << 24u32) | ((b as u32) << 16u32) | ((c as u32) << 8u32) | (d as u32)
}

/// Octet `i` (counted from the most significant) of an IPv4 address.
pub open spec fn ipv4_octet(ip: u32, i: int) -> u8 {
    ((ip >> ((24 - 8 * i) as u32)) & 0xffu32) as u8
}

impl SocketAddrV4 {
    /// Creates an IPv4 socket address.
    pub fn new(ip: u32, port: u16) -> (r: Self)
        ensures
            r.ip == ip,
            r.port == port,
    {
        SocketAddrV4 { ip, port }
    }

    /// Creates an IPv4 socket address from the four octets of its IP address.
    pub fn from_octets(octets: [u8; 4], port: u16) -> (r: Self)
        ensures
            r.ip == ipv4_from_octets(octets@[0], octets@[1], octets@[2], octets@[3]),
            r.port == port,
    {
        let ip = ((octets[0] as u32) << 24u32) | ((octets[1] as u32) << 16u32) | ((
        octets[2] as u32) << 8u32) | (octets[3] as u32);
        SocketAddrV4 { ip, port }
    }
}

impl SocketAddrV6 {
    /// Creates an IPv6 socket address.
    pub fn new(ip: u128, port: u16, flowinfo: u32, scope_id: u32) -> (r: Self)
        ensures
            r.ip == ip,
            r.port == port,
            r.flowinfo == flowinfo,
            r.scope_id == scope_id,
    {
        SocketAddrV6 { ip, port, flowinfo, scope_id }
    }
}

impl SocketAddr {
    /// Whether this is an IPv4 address.
    pub fn is_ipv4(&self) -> (r: bool)
        ensures
            r == self is V4,
    {
        match self {
            SocketAddr::V4(_) => true,
            SocketAddr::V6(_) => false,
        }
    }

    /// The port.
    pub fn port(&self) -> (r: u16)
        ensures
            r == match self {
                SocketAddr::V4(a) => a.port,
                SocketAddr::V6(a) => a.port,
            },
    {
        match self {
            SocketAddr::V4(a) => a.port,
            SocketAddr::V6(a) => a.port,
        }
    }
}

/// The order of socket addresses: IPv4 before IPv6, then by IP address, port, flow
/// information and scope identifier, each compared as a number.
pub open spec fn addr_lt(a: SocketAddr, b: SocketAddr) -> bool {
    match (a, b) {
        (SocketAddr::V4(x), SocketAddr::V4(y)) => x.ip < y.ip || (x.ip == y.ip && x.port < y.port),
        (SocketAddr::V4(_), SocketAddr::V6(_)) => true,
        (SocketAddr::V6(_), SocketAddr::V4(_)) => false,
        (SocketAddr::V6(x), SocketAddr::V6(y)) => {
            ||| x.ip < y.ip
            ||| x.ip == y.ip && x.port < y.port
            ||| x.ip == y.ip && x.port == y.port && x.flowinfo < y.flowinfo
            ||| x.ip == y.ip && x.port == y.port && x.flowinfo == y.flowinfo && x.scope_id < y.scope_id
        },
    }
}

/// Each address of `s` comes before every later one, so none occurs twice.
pub open spec fn strictly_sorted(s: Seq<SocketAddr>) -> bool {
    forall|i: int, j: int| 0 <= i < j < s.len() ==> addr_lt(#[trigger] s[i], #[trigger] s[j])
}

/// `addr_lt` is a strict total order.
pub proof fn lemma_addr_order(a: SocketAddr, b: SocketAddr, c: SocketAddr)
    ensures
        !addr_lt(a, a),
        addr_lt(a, b) ==> !addr_lt(b, a),
        addr_lt(a, b) && addr_lt(b, c) ==> addr_lt(a, c),
        a != b ==> addr_lt(a, b) || addr_lt(b, a),
{
}

/// A strictly sorted list of addresses is determined by the addresses it holds, so the
/// list that `sorted_unique` makes (and the server list of the query tool) depends on the
/// set of addresses given alone, not on their order or repetitions.
pub proof fn lemma_sorted_list_determined(a: Seq<SocketAddr>, b: Seq<SocketAddr>)
    requires
        strictly_sorted(a),
        strictly_sorted(b),
        forall|x: SocketAddr| #![trigger a.contains(x)] #![trigger b.contains(x)] a.contains(x) <==> b.contains(x),
    ensures
        a == b,
    decreases a.len(),
{
    if a.len() == 0 {
        if b.len() > 0 {
            assert(b.contains(b[0]));
            assert(a.contains(b[0]));
        }
        assert(a =~= b);
    } else {
        assert(a.contains(a[0]));
        let j = choose|j: int| 0 <= j < b.len() && b[j] == a[0];
        assert(b.contains(b[0]));
        let i = choose|i: int| 0 <= i < a.len() && a[i] == b[0];
        if j > 0 {
            assert(addr_lt(b[0], b[j]));
            if i > 0 {
                assert(addr_lt(a[0], a[i]));
                lemma_addr_order(a[0], b[0], a[0]);
            } else {
                lemma_addr_order(b[0], b[0], b[0]);
            }
        }
        assert(a[0] == b[0]);
        let a1 = a.drop_first();
        let b1 = b.drop_first();
        assert forall|x: SocketAddr| #![trigger a1.contains(x)] #![trigger b1.contains(x)] a1.contains(x) <==> b1.contains(x) by {
            if a1.contains(x) {
                let k = choose|k: int| 0 <= k < a1.len() && a1[k] == x;
                assert(a[k + 1] == x);
                assert(a.contains(x));
                let m = choose|m: int| 0 <= m < b.len() && b[m] == x;
                if m == 0 {
                    assert(addr_lt(a[0], a[k + 1]));
                    lemma_addr_order(x, x, x);
                }
                assert(b1[m - 1] == x);
            }
            if b1.contains(x) {
                let k = choose|k: int| 0 <= k < b1.len() && b1[k] == x;
                assert(b[k + 1] == x);
                assert(b.contains(x));
                let m = choose|m: int| 0 <= m < a.len() && a[m] == x;
                if m == 0 {
                    assert(addr_lt(b[0], b[k + 1]));
                    lemma_addr_order(x, x, x);
                }
                assert(a1[m - 1] == x);
            }
        }
        assert forall|p: int, q: int| 0 <= p < q < a1.len() implies addr_lt(#[trigger] a1[p], #[trigger] a1[q]) by {
            assert(a1[p] == a[p + 1] && a1[q] == a[q + 1]);
        }
        assert forall|p: int, q: int| 0 <= p < q < b1.len() implies addr_lt(#[trigger] b1[p], #[trigger] b1[q]) by {
            assert(b1[p] == b[p + 1] && b1[q] == b[q + 1]);
        }
        lemma_sorted_list_determined(a1, b1);
        assert(a =~= seq![a[0]] + a1);
        assert(b =~= seq![b[0]] + b1);
    }
}

/// Whether `a` comes before `b` in the order of socket addresses.
pub fn addr_less(a: &SocketAddr, b: &SocketAddr) -> (r: bool)
    ensures
        r == addr_lt(*a, *b),
{
    match (a, b) {
        (SocketAddr::V4(x), SocketAddr::V4(y)) => x.ip < y.ip || (x.ip == y.ip && x.port < y.port),
        (SocketAddr::V4(_), SocketAddr::V6(_)) => true,
        (SocketAddr::V6(_), SocketAddr::V4(_)) => false,
        (SocketAddr::V6(x), SocketAddr::V6(y)) => {
            if x.ip != y.ip {
                x.ip < y.ip
            } else if x.port != y.port {
                x.port < y.port
            } else if x.flowinfo != y.flowinfo {
                x.flowinfo < y.flowinfo
            } else {
                x.scope_id < y.scope_id
            }
        },
    }
}

/// Puts `a` into the strictly sorted list at its place, unless it is there already.
pub fn insert_sorted(list: &mut Vec<SocketAddr>, a: SocketAddr)
    requires
        strictly_sorted(old(list)@),
    ensures
        strictly_sorted(final(list)@),
        forall|x: SocketAddr| #[trigger] final(list)@.contains(x) <==> old(list)@.contains(x) || x == a,
{
    let n = list.len();
    let mut i: usize = 0;
    while i < n
        invariant
            i <= n,
            n == list@.len(),
            forall|k: int| 0 <= k < i ==> addr_lt(#[trigger] list@[k], a),
        ensures
            i <= n,
            forall|k: int| 0 <= k < i ==> addr_lt(#[trigger] list@[k], a),
            i < n ==> !addr_lt(list@[i as int], a),
        decreases n - i,
    {
        if !addr_less(&list[i], &a) {
            break;
        }
        i = i + 1;
    }
    if i < n && list[i] == a {
        return;
    }
    let ghost old_list = list@;
    list.insert(i, a);
    proof {
        let s = list@;
        assert(s == old_list.insert(i as int, a));
        if i < n {
            lemma_addr_order(old_list[i as int], a, a);
            assert(addr_lt(a, old_list[i as int]));
        }
        assert forall|p: int, q: int| 0 <= p < q < s.len() implies addr_lt(#[trigger] s[p], #[trigger] s[q]) by {
            if q < i {
            } else if q == i {
            } else if p < i {
                lemma_addr_order(s[p], a, s[q]);
                if q - 1 > i {
                    lemma_addr_order(a, old_list[i as int], s[q]);
                }
            } else if p == i {
                if q - 1 > i {
                    lemma_addr_order(a, old_list[i as int], s[q]);
                }
            } else {
            }
        }
        assert forall|x: SocketAddr| #[trigger] s.contains(x) <==> old_list.contains(x) || x == a by {
            if s.contains(x) {
                let k = choose|k: int| 0 <= k < s.len() && s[k] == x;
                if k < i {
                    assert(old_list[k] == x);
                } else if k > i {
                    assert(old_list[k - 1] == x);
                }
            }
            if old_list.contains(x) {
                let k = choose|k: int| 0 <= k < old_list.len() && old_list[k] == x;
                if k < i {
                    assert(s[k] == x);
                } else {
                    assert(s[k + 1] == x);
                }
            }
            if x == a {
                assert(s[i as int] == x);
            }
        }
    }
}

/// The addresses of `addrs` in order, each once.
pub fn sorted_unique(addrs: &[SocketAddr]) -> (r: Vec<SocketAddr>)
    ensures
        strictly_sorted(r@),
        forall|x: SocketAddr| #[trigger] r@.contains(x) <==> addrs@.contains(x),
{
    let mut r: Vec<SocketAddr> = Vec::new();
    let n = addrs.len();
    for i in 0..n
        invariant
            n == addrs@.len(),
            strictly_sorted(r@),
            forall|x: SocketAddr| #[trigger] r@.contains(x) <==> addrs@.subrange(0, i as int).contains(x),
    {
        let ghost before = r@;
        insert_sorted(&mut r, addrs[i]);
        proof {
            assert forall|x: SocketAddr| #[trigger] r@.contains(x) <==> addrs@.subrange(0, i + 1).contains(x) by {
                let pre = addrs@.subrange(0, i as int);
                let post = addrs@.subrange(0, i + 1);
                assert(post == pre.push(addrs@[i as int]));
                if pre.contains(x) {
                    let k = choose|k: int| 0 <= k < pre.len() && pre[k] == x;
                    assert(post[k] == x);
                }
                if post.contains(x) {
                    let k = choose|k: int| 0 <= k < post.len() && post[k] == x;
                    if k < i {
                        assert(pre[k] == x);
                    }
                }
                assert(before.contains(x) == pre.contains(x));
                assert(r@.contains(x) == (before.contains(x) || x == addrs@[i as int]));
                if x == addrs@[i as int] {
                    assert(post[i as int] == x);
                }
            }
        }
    }
    assert(addrs@.subrange(0, n as int) == addrs@);
    r
}

} // verus!

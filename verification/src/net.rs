//! Local network addresses: which interface addresses the server announces
//! and puts in its certificate.
//!
//! An IPv4 address is held as the `u32` whose big-endian bytes are its four
//! octets, so that integer order is the order of `std::net::Ipv4Addr`.
use vstd::prelude::*;

verus! {

/// An address of a network interface of this host.
#[derive(Clone, Copy, PartialEq, Eq, Debug)]
pub enum IpAddress {
    /// An IPv4 address, as the `u32` of its octets in network order.
    V4(u32),
    /// Any IPv6 address.
    V6,
}

/// `127.0.0.0/8`.
pub open spec fn is_loopback(a: u32) -> bool {
    a / 0x100_0000 == 127
}

/// `169.254.0.0/16`.
pub open spec fn is_link_local(a: u32) -> bool {
    a / 0x1_0000 == 0xa9fe
}

/// `0.0.0.0`.
pub open spec fn is_unspecified(a: u32) -> bool {
    a == 0
}

/// An address worth announcing: not loopback, link-local or unspecified.
pub open spec fn is_lan_address(a: u32) -> bool {
    !is_loopback(a) && !is_link_local(a) && !is_unspecified(a)
}

/// `a` is an announced IPv4 address of the interface list `addrs`.
pub open spec fn lists_lan_address(addrs: Seq<IpAddress>, a: u32) -> bool {
    is_lan_address(a) && exists|i: int| 0 <= i < addrs.len() && addrs[i] == IpAddress::V4(a)
}

/// Every element is smaller than the next: sorted, without repeats.
pub open spec fn strictly_increasing(s: Seq<u32>) -> bool {
    forall|i: int, j: int| 0 <= i < j < s.len() ==> s[i] < s[j]
}

fn is_lan(a: u32) -> (b: bool)
    ensures
        b == is_lan_address(a),
{
    a / 0x100_0000 != 127 && a / 0x1_0000 != 0xa9fe && a != 0
}

/// Inserts `a` into a strictly increasing vector, unless it is there already.
fn insert_sorted(v: &mut Vec<u32>, a: u32)
    requires
        strictly_increasing(old(v)@),
    ensures
        strictly_increasing(final(v)@),
        forall|x: u32| final(v)@.contains(x) <==> (old(v)@.contains(x) || x == a),
{
    let mut p: usize = 0;
    while p < v.len() && v[p] < a
        invariant
            p <= v.len(),
            v@ == old(v)@,
            strictly_increasing(v@),
            forall|k: int| 0 <= k < p ==> v@[k] < a,
        decreases v.len() - p,
    {
        p = p + 1;
    }
    if p < v.len() && v[p] == a {
        return;
    }
    let ghost before = v@;
    v.insert(p, a);
    proof {
        assert(v@ =~= before.take(p as int).push(a) + before.skip(p as int));
        assert forall|i: int, j: int| 0 <= i < j < v@.len() implies v@[i] < v@[j] by {
            if j < p {
                assert(v@[i] == before[i] && v@[j] == before[j]);
            } else if j == p {
                assert(v@[i] == before[i]);
            } else if i < p {
                assert(v@[i] == before[i] && v@[j] == before[j - 1]);
                assert(before[p as int] > a);
                if p < j - 1 {
                    assert(before[p as int] < before[j - 1]);
                }
            } else if i == p {
                assert(v@[j] == before[j - 1]);
                assert(before[p as int] > a);
                if p < j - 1 {
                    assert(before[p as int] < before[j - 1]);
                }
            } else {
                assert(v@[i] == before[i - 1] && v@[j] == before[j - 1]);
            }
        }
        assert forall|x: u32| v@.contains(x) <==> (before.contains(x) || x == a) by {
            if v@.contains(x) {
                let k = choose|k: int| 0 <= k < v@.len() && v@[k] == x;
                if k < p {
                    assert(before[k] == x);
                } else if k > p {
                    assert(before[k - 1] == x);
                }
            }
            if before.contains(x) {
                let k = choose|k: int| 0 <= k < before.len() && before[k] == x;
                if k < p {
                    assert(v@[k] == x);
                } else {
                    assert(v@[k + 1] == x);
                }
            }
            if x == a {
                assert(v@[p as int] == a);
            }
        }
    }
}

/// The addresses announced are exactly the IPv4 addresses that the
/// interfaces list outside `127.0.0.0/8`, outside `169.254.0.0/16` and other
/// than `0.0.0.0`: every such address is announced (private ranges such as
/// `192.168.0.0/16` or `10.0.0.0/8` included), and no other one.
pub proof fn lemma_announced_addresses(addrs: Seq<IpAddress>, a: u32)
    ensures
        lists_lan_address(addrs, a) <==> ((exists|i: int|
            0 <= i < addrs.len() && addrs[i] == IpAddress::V4(a)) && !(0x7f00_0000 <= a
            && a <= 0x7fff_ffff) && !(0xa9fe_0000 <= a && a <= 0xa9fe_ffff) && a != 0),
{
}

/// The IPv4 addresses of this host worth announcing: given the interface list
/// (`None` when it could not be read), the addresses that are not loopback,
/// link-local or unspecified, sorted and without repeats.
pub fn local_ipv4s(interfaces: Option<Vec<IpAddress>>) -> (r: Vec<u32>)
    ensures
        strictly_increasing(r@),
        forall|a: u32|
            r@.contains(a) <==> (interfaces matches Some(v) && lists_lan_address(v@, a)),
{
    let mut out: Vec<u32> = Vec::new();
    match interfaces {
        None => {},
        Some(list) => {
            let n = list.len();
            for i in 0..n
                invariant
                    n == list@.len(),
                    strictly_increasing(out@),
                    forall|a: u32|
                        out@.contains(a) <==> lists_lan_address(list@.take(i as int), a),
            {
                let ghost pre = list@.take(i as int);
                proof {
                    assert(list@.take(i + 1) =~= pre.push(list@[i as int]));
                }
                match list[i] {
                    IpAddress::V4(a) => {
                        if is_lan(a) {
                            insert_sorted(&mut out, a);
                        }
                    },
                    IpAddress::V6 => {},
                }
                proof {
                    let post = list@.take(i + 1);
                    assert forall|x: u32| lists_lan_address(post, x) <==> (lists_lan_address(pre, x)
                        || (is_lan_address(x) && list@[i as int] == IpAddress::V4(x))) by {
                        if lists_lan_address(post, x) {
                            let k = choose|k: int| 0 <= k < post.len() && post[k] == IpAddress::V4(x);
                            if k < pre.len() {
                                assert(pre[k] == post[k]);
                            }
                        }
                        if lists_lan_address(pre, x) {
                            let k = choose|k: int| 0 <= k < pre.len() && pre[k] == IpAddress::V4(x);
                            assert(post[k] == pre[k]);
                        }
                        if is_lan_address(x) && list@[i as int] == IpAddress::V4(x) {
                            assert(post[i as int] == IpAddress::V4(x));
                        }
                    }
                }
            }
            proof {
                assert(list@.take(n as int) =~= list@);
            }
        },
    }
    out
}

} // verus!

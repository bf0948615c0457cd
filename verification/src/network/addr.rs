//! Local addresses and ports: which interface address this peer announces,
//! which subnet it scans, and which TCP port it tries next.
use crate::text::{decimal, push_decimal, string_push};
use vstd::prelude::*;

verus! {

/// First TCP port the application listens on.
pub const TCP_PORT: u16 = 47833;

/// How many further ports the listener tries when the first is taken.
pub const MAX_PORT_RETRIES: u16 = 100;

/// A network interface as address selection sees it.
#[derive(Debug, Clone, Copy)]
pub struct InterfaceAddr {
    pub is_loopback: bool,
    /// The interface's IPv4 address, if it has one.
    pub ipv4: Option<[u8; 4]>,
}

/// Whether the subnet scan may use this interface: IPv4, not loopback,
/// not link-local (169.254/16), not 127/8.
pub open spec fn scannable(i: InterfaceAddr) -> bool {
    &&& !i.is_loopback
    &&& i.ipv4 matches Some(o) && !(o@[0] == 169 && o@[1] == 254) && o@[0] != 127
}

/// The first interface the scan may use, as its /24 base address and the
/// number of hosts (254) to try.
pub open spec fn local_subnet_spec(ifaces: Seq<InterfaceAddr>) -> Option<([u8; 4], u32)>
    decreases ifaces.len(),
{
    if ifaces.len() == 0 {
        None
    } else if scannable(ifaces[0]) {
        let o = ifaces[0].ipv4->0;
        Some(([o@[0], o@[1], o@[2], 0u8], 254u32))
    } else {
        local_subnet_spec(ifaces.drop_first())
    }
}

/// The local /24 subnet to scan: from the first usable interface, its base
/// address `a.b.c.0` and the 254 host numbers after it.
pub fn local_subnet(ifaces: &Vec<InterfaceAddr>) -> (r: Option<([u8; 4], u32)>)
    ensures
        r == local_subnet_spec(ifaces@),
{
    let n = ifaces.len();
    assert(ifaces@.skip(0) =~= ifaces@);
    for i in 0..n
        invariant
            n == ifaces@.len(),
            local_subnet_spec(ifaces@) == local_subnet_spec(ifaces@.skip(i as int)),
    {
        assert(ifaces@.skip(i as int)[0] == ifaces@[i as int]);
        assert(ifaces@.skip(i as int).drop_first() =~= ifaces@.skip(i + 1));
        let iface = ifaces[i];
        if !iface.is_loopback {
            if let Some(o) = iface.ipv4 {
                if !(o[0] == 169 && o[1] == 254) && o[0] != 127 {
                    return Some(([o[0], o[1], o[2], 0u8], 254u32));
                }
            }
        }
    }
    None
}

/// Whether an interface address may be announced as this peer's address:
/// IPv4, not loopback, not link-local, and not one of the usual virtual
/// machine / container host-only ranges (192.168.56/24, 192.168.99/24, 172.17-19/16).
pub open spec fn announce_candidate(i: InterfaceAddr) -> bool {
    &&& !i.is_loopback
    &&& i.ipv4 matches Some(o) && !(o@[0] == 169 && o@[1] == 254) && !(o@[0] == 192 && o@[1] == 168
        && (o@[2] == 56 || o@[2] == 99)) && !(o@[0] == 172 && 17 <= o@[1] <= 19)
}

/// Preference of an address (lower is better): 192.168/16, then 10/8, then
/// 172.16-31/16, then anything else.
pub open spec fn address_rank(o: [u8; 4]) -> int {
    if o@[0] == 192 && o@[1] == 168 {
        0
    } else if o@[0] == 10 {
        1
    } else if o@[0] == 172 && 16 <= o@[1] <= 31 {
        2
    } else {
        3
    }
}

/// The first candidate of best rank among `ifaces`.
pub open spec fn best_address(ifaces: Seq<InterfaceAddr>) -> Option<[u8; 4]>
    decreases ifaces.len(),
{
    if ifaces.len() == 0 {
        None
    } else {
        let prev = best_address(ifaces.drop_last());
        let last = ifaces.last();
        if announce_candidate(last) && (prev is None || address_rank(last.ipv4->0) < address_rank(
            prev->0,
        )) {
            Some(last.ipv4->0)
        } else {
            prev
        }
    }
}

fn rank(o: [u8; 4]) -> (r: u8)
    ensures
        r == address_rank(o),
{
    if o[0] == 192 && o[1] == 168 {
        0
    } else if o[0] == 10 {
        1
    } else if o[0] == 172 && 16 <= o[1] && o[1] <= 31 {
        2
    } else {
        3
    }
}

/// The address this peer announces: among the candidate interfaces (see
/// `announce_candidate`), the first one of best rank (see `address_rank`).
pub fn select_local_ip(ifaces: &Vec<InterfaceAddr>) -> (r: Option<[u8; 4]>)
    ensures
        r == best_address(ifaces@),
{
    let mut best: Option<[u8; 4]> = None;
    let n = ifaces.len();
    for i in 0..n
        invariant
            n == ifaces@.len(),
            best == best_address(ifaces@.take(i as int)),
    {
        assert(ifaces@.take(i + 1).drop_last() =~= ifaces@.take(i as int));
        let iface = ifaces[i];
        if !iface.is_loopback {
            if let Some(o) = iface.ipv4 {
                let candidate = !(o[0] == 169 && o[1] == 254) && !(o[0] == 192 && o[1] == 168 && (
                o[2] == 56 || o[2] == 99)) && !(o[0] == 172 && 17 <= o[1] && o[1] <= 19);
                if candidate {
                    let better = match best {
                        None => true,
                        Some(b) => rank(o) < rank(b),
                    };
                    if better {
                        best = Some(o);
                    }
                }
            }
        }
    }
    assert(ifaces@.take(n as int) =~= ifaces@);
    best
}

/// The chosen address is a candidate, no candidate ranks better, and every
/// candidate before it ranks worse; without candidates there is none.
pub proof fn lemma_best_address(ifaces: Seq<InterfaceAddr>)
    ensures
        best_address(ifaces) is None <==> forall|i: int|
            0 <= i < ifaces.len() ==> !announce_candidate(#[trigger] ifaces[i]),
        best_address(ifaces) matches Some(o) ==> exists|k: int|
            0 <= k < ifaces.len() && announce_candidate(ifaces[k]) && ifaces[k].ipv4 == Some(o)
                && (forall|i: int|
                0 <= i < ifaces.len() && announce_candidate(#[trigger] ifaces[i]) ==> address_rank(o)
                    <= address_rank(ifaces[i].ipv4->0)) && (forall|i: int|
                0 <= i < k && announce_candidate(#[trigger] ifaces[i]) ==> address_rank(o)
                    < address_rank(ifaces[i].ipv4->0)),
    decreases ifaces.len(),
{
    if ifaces.len() > 0 {
        let d = ifaces.drop_last();
        lemma_best_address(d);
        let last = ifaces.last();
        assert forall|i: int| 0 <= i < d.len() implies d[i] == ifaces[i] by {}
        if best_address(ifaces) is None {
            assert forall|i: int| 0 <= i < ifaces.len() implies !announce_candidate(
                #[trigger] ifaces[i],
            ) by {
                if i < d.len() {
                    assert(d[i] == ifaces[i]);
                }
            }
        }
        match best_address(d) {
            None => {
                if announce_candidate(last) {
                    let k = ifaces.len() - 1;
                    assert(ifaces[k] == last);
                    assert forall|i: int|
                        0 <= i < ifaces.len() && announce_candidate(
                            #[trigger] ifaces[i],
                        ) implies address_rank(last.ipv4->0) <= address_rank(ifaces[i].ipv4->0) by {
                        if i < d.len() {
                            assert(d[i] == ifaces[i]);
                        }
                    }
                }
            },
            Some(p) => {
                let kp = choose|k: int|
                    0 <= k < d.len() && announce_candidate(d[k]) && d[k].ipv4 == Some(p) && (forall|
                        i: int,
                    |
                        0 <= i < d.len() && announce_candidate(#[trigger] d[i]) ==> address_rank(p)
                            <= address_rank(d[i].ipv4->0)) && (forall|i: int|
                        0 <= i < k && announce_candidate(#[trigger] d[i]) ==> address_rank(p)
                            < address_rank(d[i].ipv4->0));
                if announce_candidate(last) && address_rank(last.ipv4->0) < address_rank(p) {
                    let k = ifaces.len() - 1;
                    assert(ifaces[k] == last);
                    assert forall|i: int|
                        0 <= i < ifaces.len() && announce_candidate(
                            #[trigger] ifaces[i],
                        ) implies address_rank(last.ipv4->0) <= address_rank(ifaces[i].ipv4->0) by {
                        if i < d.len() {
                            assert(d[i] == ifaces[i]);
                        }
                    }
                    assert forall|i: int|
                        0 <= i < k && announce_candidate(#[trigger] ifaces[i]) implies address_rank(
                            last.ipv4->0,
                        ) < address_rank(ifaces[i].ipv4->0) by {
                        assert(d[i] == ifaces[i]);
                    }
                } else {
                    assert(ifaces[kp] == d[kp]);
                    assert forall|i: int|
                        0 <= i < ifaces.len() && announce_candidate(
                            #[trigger] ifaces[i],
                        ) implies address_rank(p) <= address_rank(ifaces[i].ipv4->0) by {
                        if i < d.len() {
                            assert(d[i] == ifaces[i]);
                        }
                    }
                    assert forall|i: int|
                        0 <= i < kp && announce_candidate(#[trigger] ifaces[i]) implies address_rank(
                            p,
                        ) < address_rank(ifaces[i].ipv4->0) by {
                        assert(d[i] == ifaces[i]);
                    }
                }
            },
        }
    }
}

/// Which single interface gets announced: one that is not loopback and has
/// an IPv4 address outside 169.254/16, 192.168.56/24, 192.168.99/24 and
/// 172.17-19/16 is announced (every other address, 172.16/16 and
/// 172.20-31/16 included, qualifies); any other interface gives no address.
pub proof fn lemma_select_single(i: InterfaceAddr)
    ensures
        best_address(seq![i]) == (if !i.is_loopback && i.ipv4 is Some && !(i.ipv4->0@[0] == 169
            && i.ipv4->0@[1] == 254) && !(i.ipv4->0@[0] == 192 && i.ipv4->0@[1] == 168 && (
        i.ipv4->0@[2] == 56 || i.ipv4->0@[2] == 99)) && !(i.ipv4->0@[0] == 172 && 17 <= i.ipv4->0@[1]
            <= 19) {
            i.ipv4
        } else {
            None
        }),
{
    let s = seq![i];
    assert(s.drop_last() =~= Seq::<InterfaceAddr>::empty());
    assert(best_address(s.drop_last()) is None);
    assert(s.last() == i);
}

/// Which of two announceable interfaces wins: a 192.168/16 address beats
/// every other, then a 10/8 address, then a 172.16-31/16 address; between
/// two of the same class the earlier one stays.
pub proof fn lemma_select_prefers(a: InterfaceAddr, b: InterfaceAddr)
    requires
        !a.is_loopback,
        a.ipv4 is Some,
        !(a.ipv4->0@[0] == 169 && a.ipv4->0@[1] == 254),
        !(a.ipv4->0@[0] == 192 && a.ipv4->0@[1] == 168 && (a.ipv4->0@[2] == 56 || a.ipv4->0@[2]
            == 99)),
        !(a.ipv4->0@[0] == 172 && 17 <= a.ipv4->0@[1] <= 19),
        !b.is_loopback,
        b.ipv4 is Some,
        !(b.ipv4->0@[0] == 169 && b.ipv4->0@[1] == 254),
        !(b.ipv4->0@[0] == 192 && b.ipv4->0@[1] == 168 && (b.ipv4->0@[2] == 56 || b.ipv4->0@[2]
            == 99)),
        !(b.ipv4->0@[0] == 172 && 17 <= b.ipv4->0@[1] <= 19),
    ensures
        ({
            let x = a.ipv4->0;
            let y = b.ipv4->0;
            let x192 = x@[0] == 192 && x@[1] == 168;
            let y192 = y@[0] == 192 && y@[1] == 168;
            let x10 = x@[0] == 10;
            let y10 = y@[0] == 10;
            let x172 = x@[0] == 172 && 16 <= x@[1] <= 31;
            let y172 = y@[0] == 172 && 16 <= y@[1] <= 31;
            best_address(seq![a, b]) == if (y192 && !x192) || (y10 && !x192 && !x10) || (y172
                && !x192 && !x10 && !x172) {
                b.ipv4
            } else {
                a.ipv4
            }
        }),
{
    let s = seq![a, b];
    assert(s.drop_last() =~= seq![a]);
    assert(s.last() == b);
    lemma_select_single(a);
}

/// Which interface the subnet scan uses: the first one that is not loopback
/// and has an IPv4 address `a.b.c.d` with `a != 127` and not in 169.254/16
/// (192.168/16, 172/8, 10/8 and every other first octet qualify); it gives
/// the base `a.b.c.0` and 254 hosts. Without such an interface there is none.
pub proof fn lemma_local_subnet_first_usable(ifaces: Seq<InterfaceAddr>)
    ensures
        local_subnet_spec(ifaces) is None <==> forall|k: int|
            0 <= k < ifaces.len() ==> (#[trigger] ifaces[k]).is_loopback || ifaces[k].ipv4 is None
                || ifaces[k].ipv4->0@[0] == 127 || (ifaces[k].ipv4->0@[0] == 169
                && ifaces[k].ipv4->0@[1] == 254),
        forall|k: int|
            0 <= k < ifaces.len() && !(#[trigger] ifaces[k]).is_loopback && ifaces[k].ipv4 is Some
                && ifaces[k].ipv4->0@[0] != 127 && !(ifaces[k].ipv4->0@[0] == 169
                && ifaces[k].ipv4->0@[1] == 254) && (forall|j: int|
                0 <= j < k ==> ifaces[j].is_loopback || ifaces[j].ipv4 is None || ifaces[j].ipv4->0@[0]
                    == 127 || (ifaces[j].ipv4->0@[0] == 169 && ifaces[j].ipv4->0@[1] == 254))
                ==> local_subnet_spec(ifaces) == Some(
                (
                    [ifaces[k].ipv4->0@[0], ifaces[k].ipv4->0@[1], ifaces[k].ipv4->0@[2], 0u8],
                    254u32,
                ),
            ),
    decreases ifaces.len(),
{
    if ifaces.len() > 0 {
        let rest = ifaces.drop_first();
        lemma_local_subnet_first_usable(rest);
        assert forall|k: int| 0 <= k < rest.len() implies rest[k] == ifaces[k + 1] by {}
        if !scannable(ifaces[0]) {
            assert forall|k: int|
                0 <= k < ifaces.len() && !(#[trigger] ifaces[k]).is_loopback && ifaces[k].ipv4 is Some
                    && ifaces[k].ipv4->0@[0] != 127 && !(ifaces[k].ipv4->0@[0] == 169
                    && ifaces[k].ipv4->0@[1] == 254) && (forall|j: int|
                    0 <= j < k ==> ifaces[j].is_loopback || ifaces[j].ipv4 is None
                        || ifaces[j].ipv4->0@[0] == 127 || (ifaces[j].ipv4->0@[0] == 169
                        && ifaces[j].ipv4->0@[1] == 254)) implies local_subnet_spec(ifaces) == Some(
                (
                    [ifaces[k].ipv4->0@[0], ifaces[k].ipv4->0@[1], ifaces[k].ipv4->0@[2], 0u8],
                    254u32,
                ),
            ) by {
                assert(k > 0);
                assert(rest[k - 1] == ifaces[k]);
                assert forall|j: int| 0 <= j < k - 1 implies rest[j].is_loopback || rest[j].ipv4 is None
                    || rest[j].ipv4->0@[0] == 127 || (rest[j].ipv4->0@[0] == 169
                    && rest[j].ipv4->0@[1] == 254) by {
                    assert(rest[j] == ifaces[j + 1]);
                }
            }
            if local_subnet_spec(ifaces) is None {
                assert forall|k: int| 0 <= k < ifaces.len() implies (#[trigger] ifaces[k]).is_loopback
                    || ifaces[k].ipv4 is None || ifaces[k].ipv4->0@[0] == 127 || (
                ifaces[k].ipv4->0@[0] == 169 && ifaces[k].ipv4->0@[1] == 254) by {
                    if k > 0 {
                        assert(rest[k - 1] == ifaces[k]);
                    }
                }
            } else {
                let k = choose|k: int|
                    0 <= k < rest.len() && !(#[trigger] rest[k].is_loopback || rest[k].ipv4 is None
                        || rest[k].ipv4->0@[0] == 127 || (rest[k].ipv4->0@[0] == 169
                        && rest[k].ipv4->0@[1] == 254));
                assert(rest[k] == ifaces[k + 1]);
            }
        } else {
            assert forall|k: int|
                0 <= k < ifaces.len() && !(#[trigger] ifaces[k]).is_loopback && ifaces[k].ipv4 is Some
                    && ifaces[k].ipv4->0@[0] != 127 && !(ifaces[k].ipv4->0@[0] == 169
                    && ifaces[k].ipv4->0@[1] == 254) && (forall|j: int|
                    0 <= j < k ==> ifaces[j].is_loopback || ifaces[j].ipv4 is None
                        || ifaces[j].ipv4->0@[0] == 127 || (ifaces[j].ipv4->0@[0] == 169
                        && ifaces[j].ipv4->0@[1] == 254)) implies k == 0 by {
                if k > 0 {
                    assert(ifaces[0].is_loopback || ifaces[0].ipv4 is None || ifaces[0].ipv4->0@[0]
                        == 127 || (ifaces[0].ipv4->0@[0] == 169 && ifaces[0].ipv4->0@[1] == 254));
                }
            }
        }
    }
}

/// Dotted-decimal text of an IPv4 address.
pub open spec fn ipv4_text(o: [u8; 4]) -> Seq<char> {
    decimal(o@[0] as nat) + seq!['.'] + decimal(o@[1] as nat) + seq!['.'] + decimal(
        o@[2] as nat,
    ) + seq!['.'] + decimal(o@[3] as nat)
}

/// Dotted-decimal text of an IPv4 address, such as `192.168.1.20`.
pub fn format_ipv4(o: [u8; 4]) -> (s: String)
    ensures
        s@ == ipv4_text(o),
{
    let mut s = String::new();
    push_decimal(&mut s, o[0] as u64);
    proof {
        crate::text::lemma_u64_decimal_len(o@[0] as u64);
        crate::text::lemma_u64_decimal_len(o@[1] as u64);
        crate::text::lemma_u64_decimal_len(o@[2] as u64);
    }
    string_push(&mut s, '.');
    push_decimal(&mut s, o[1] as u64);
    string_push(&mut s, '.');
    push_decimal(&mut s, o[2] as u64);
    string_push(&mut s, '.');
    push_decimal(&mut s, o[3] as u64);
    assert(s@ =~= ipv4_text(o));
    s
}

/// The port the listener tries after `port` is taken, or `None` once it is
/// past the last one it may try (`TCP_PORT + MAX_PORT_RETRIES`).
pub fn next_listen_port(port: u16) -> (next: Option<u16>)
    requires
        port < u16::MAX,
    ensures
        next == (if port + 1 > TCP_PORT + MAX_PORT_RETRIES {
            None
        } else {
            Some((port + 1) as u16)
        }),
{
    let next = port + 1;
    if next > TCP_PORT + MAX_PORT_RETRIES {
        None
    } else {
        Some(next)
    }
}

} // verus!

//! Internet addresses as plain numbers.

use vstd::prelude::*;

verus! {

/// The address and port of a socket.
#[derive(Clone, Copy, Debug, PartialEq, Eq, Structural)]
#[allow(inconsistent_fields)]
pub enum SocketAddr {
    V4 { ip: u32, port: u16 },
    V6 { ip: u128, port: u16, flowinfo: u32, scope_id: u32 },
}

/// Why an address cannot be used.
#[derive(Clone, Copy, Debug, PartialEq, Eq, Structural)]
pub enum AddrError {
    /// An IPv4 socket cannot send to an IPv6 address.
    NotReachableFromV4,
}

/// How to open a UDP socket for an address.
#[derive(Clone, Copy, Debug, PartialEq, Eq, Structural)]
pub enum UdpMode {
    /// An IPv4 socket.
    V4,
    /// An IPv6 socket, which may also take IPv4 traffic.
    V6 { only_v6: bool },
}

/// The IPv6 address that stands for an IPv4 address: `::ffff:a.b.c.d`.
pub open spec fn mapped(ip: u32) -> u128 {
    (0xffff_0000_0000 + ip) as u128
}

/// Whether an IPv6 address stands for an IPv4 address.
pub open spec fn is_mapped(ip: u128) -> bool {
    ip / 0x1_0000_0000 == 0xffff
}

/// The IPv4 address that an IPv6 address stands for.
pub open spec fn unmapped(ip: u128) -> u32 {
    (ip % 0x1_0000_0000) as u32
}

/// The address of a peer as an IPv6 address.
pub open spec fn v6_of(peer: SocketAddr) -> u128 {
    match peer {
        SocketAddr::V4 { ip, .. } => mapped(ip),
        SocketAddr::V6 { ip, .. } => ip,
    }
}

/// An address in its one canonical form: IPv4 where it can be.
pub open spec fn normal(addr: SocketAddr) -> SocketAddr {
    match addr {
        SocketAddr::V4 { .. } => addr,
        SocketAddr::V6 { ip, port, .. } => if is_mapped(ip) {
            SocketAddr::V4 { ip: unmapped(ip), port }
        } else {
            addr
        },
    }
}

/// The address to send to from a socket with the local address `local`.
pub open spec fn send_addr(local: SocketAddr, addr: SocketAddr) -> Result<SocketAddr, AddrError> {
    match (local, addr) {
        (SocketAddr::V6 { .. }, SocketAddr::V4 { ip, port }) => Ok(
            SocketAddr::V6 { ip: mapped(ip), port, flowinfo: 0, scope_id: 0 },
        ),
        (SocketAddr::V4 { .. }, SocketAddr::V6 { ip, .. }) => if is_mapped(ip) {
            Ok(addr)
        } else {
            Err(AddrError::NotReachableFromV4)
        },
        _ => Ok(addr),
    }
}

/// Maps an IPv4 address into IPv6.
pub fn to_mapped(ip: u32) -> (r: u128)
    ensures
        r == mapped(ip),
{
    0xffff_0000_0000 + ip as u128
}

/// The address of a peer as an IPv6 address.
pub fn peer_ip_v6(peer: SocketAddr) -> (r: u128)
    ensures
        r == v6_of(peer),
{
    match peer {
        SocketAddr::V4 { ip, .. } => to_mapped(ip),
        SocketAddr::V6 { ip, .. } => ip,
    }
}

/// Brings an address into its canonical form, in which an IPv4 address that was
/// mapped into IPv6 is IPv4 again.
pub fn normalize_socket_addr(addr: SocketAddr) -> (r: SocketAddr)
    ensures
        r == normal(addr),
{
    match addr {
        SocketAddr::V4 { .. } => addr,
        SocketAddr::V6 { ip, port, .. } => if ip / 0x1_0000_0000 == 0xffff {
            SocketAddr::V4 { ip: (ip % 0x1_0000_0000) as u32, port }
        } else {
            addr
        },
    }
}

/// Whether two addresses are the same, mapped into IPv6 or not.
pub fn socket_addrs_equal(left: SocketAddr, right: SocketAddr) -> (r: bool)
    ensures
        r == (normal(left) == normal(right)),
{
    normalize_socket_addr(left) == normalize_socket_addr(right)
}

/// The form of an address that a socket with the local address `local` can send
/// to.
pub fn send_addr_for_socket(local: SocketAddr, addr: SocketAddr) -> (r: Result<
    SocketAddr,
    AddrError,
>)
    ensures
        r == send_addr(local, addr),
{
    match (local, addr) {
        (SocketAddr::V6 { .. }, SocketAddr::V4 { ip, port }) => Ok(
            SocketAddr::V6 { ip: to_mapped(ip), port, flowinfo: 0, scope_id: 0 },
        ),
        (SocketAddr::V4 { .. }, SocketAddr::V6 { ip, .. }) => if ip / 0x1_0000_0000 == 0xffff {
            Ok(addr)
        } else {
            Err(AddrError::NotReachableFromV4)
        },
        _ => Ok(addr),
    }
}

/// The wildcard address, of the same family as `addr`, to bind a socket to
/// before it connects to `addr`.
pub fn backend_bind_addr(addr: SocketAddr) -> (r: SocketAddr)
    ensures
        r == (match addr {
            SocketAddr::V4 { .. } => SocketAddr::V4 { ip: 0, port: 0 },
            SocketAddr::V6 { .. } => SocketAddr::V6 { ip: 0, port: 0, flowinfo: 0, scope_id: 0 },
        }),
{
    match addr {
        SocketAddr::V4 { .. } => SocketAddr::V4 { ip: 0, port: 0 },
        SocketAddr::V6 { .. } => SocketAddr::V6 { ip: 0, port: 0, flowinfo: 0, scope_id: 0 },
    }
}

/// How to open a UDP socket that is to be bound to `addr`.
pub fn udp_mode(addr: SocketAddr, dual_stack: bool) -> (r: UdpMode)
    ensures
        r == (match addr {
            SocketAddr::V4 { .. } => UdpMode::V4,
            SocketAddr::V6 { .. } => UdpMode::V6 { only_v6: !dual_stack },
        }),
{
    match addr {
        SocketAddr::V4 { .. } => UdpMode::V4,
        SocketAddr::V6 { .. } => UdpMode::V6 { only_v6: !dual_stack },
    }
}

/// A mapped address stands for the address that was mapped, and for no other.
pub proof fn lemma_mapped_round_trip(ip: u32)
    ensures
        is_mapped(mapped(ip)),
        unmapped(mapped(ip)) == ip,
{
}

/// The canonical form of an address is its own canonical form, and stands for
/// the same peer.
pub proof fn lemma_normal_is_canonical(addr: SocketAddr)
    ensures
        normal(normal(addr)) == normal(addr),
        v6_of(normal(addr)) == v6_of(addr),
{
}

/// Whatever socket an address is sent to from, it stays the same address.
pub proof fn lemma_send_addr_is_same_address(local: SocketAddr, addr: SocketAddr)
    ensures
        send_addr(local, addr) matches Ok(to) ==> normal(to) == normal(addr),
        send_addr(local, addr) is Err <==> local is V4 && normal(addr) is V6,
{
    if let SocketAddr::V4 { ip, .. } = addr {
        lemma_mapped_round_trip(ip);
    }
}

/// As an IPv6 address, an IPv4 address has 0xffff before its 32 bits, and an
/// IPv6 address stays itself.
pub proof fn lemma_v6_of_both_families(ip: u32, ip6: u128, port: u16, flowinfo: u32, scope_id: u32)
    ensures
        v6_of(SocketAddr::V4 { ip, port }) == 0xffff_0000_0000 + ip,
        v6_of(SocketAddr::V6 { ip: ip6, port, flowinfo, scope_id }) == ip6,
{
}

/// The canonical form of an address is itself, unless it is an IPv6 address from
/// `::ffff:0.0.0.0` to `::ffff:255.255.255.255`: then it is the IPv4 address of
/// the last 32 bits with the same port.
pub proof fn lemma_normal_of_both_families(
    ip: u32,
    ip6: u128,
    port: u16,
    flowinfo: u32,
    scope_id: u32,
)
    ensures
        normal(SocketAddr::V4 { ip, port }) == (SocketAddr::V4 { ip, port }),
        normal(SocketAddr::V6 { ip: (0xffff_0000_0000 + ip) as u128, port, flowinfo, scope_id })
            == (SocketAddr::V4 { ip, port }),
        !(0xffff_0000_0000 <= ip6 <= 0xffff_ffff_ffff) ==> normal(
            SocketAddr::V6 { ip: ip6, port, flowinfo, scope_id },
        ) == (SocketAddr::V6 { ip: ip6, port, flowinfo, scope_id }),
{
}

/// What an IPv6 socket sends to is an IPv6 address. An address of the socket's
/// own family, and a mapped one on an IPv4 socket, is used as it is.
pub proof fn lemma_send_addr_suits_the_socket(local: SocketAddr, addr: SocketAddr)
    ensures
        local is V6 ==> (send_addr(local, addr) matches Ok(to) && to is V6),
        local is V6 && addr is V6 ==> send_addr(local, addr) == Ok::<SocketAddr, AddrError>(addr),
        local is V4 && addr is V4 ==> send_addr(local, addr) == Ok::<SocketAddr, AddrError>(addr),
        local is V4 && addr is V6 ==> match send_addr(local, addr) {
            Ok(to) => to == addr && 0xffff_0000_0000 <= v6_of(addr) <= 0xffff_ffff_ffff,
            Err(e) => e == AddrError::NotReachableFromV4 && !(0xffff_0000_0000 <= v6_of(addr)
                <= 0xffff_ffff_ffff),
        },
{
}

/// A socket that is to connect to an address is bound to the wildcard address of
/// the same family and to any port.
pub proof fn lemma_bound_to_same_family(addr: SocketAddr, bound: SocketAddr)
    requires
        call_ensures(backend_bind_addr, (addr,), bound),
    ensures
        bound is V4 <==> addr is V4,
        bound matches SocketAddr::V4 { ip, port } ==> ip == 0 && port == 0,
        bound matches SocketAddr::V6 { ip, port, .. } ==> ip == 0 && port == 0,
{
}

/// A socket has the family of the address that it is bound to; an IPv6 one takes
/// IPv4 traffic too exactly if that is asked for.
pub proof fn lemma_socket_has_family_of_address(addr: SocketAddr, dual_stack: bool, mode: UdpMode)
    requires
        call_ensures(udp_mode, (addr, dual_stack), mode),
    ensures
        mode == UdpMode::V4 <==> addr is V4,
        addr is V6 ==> (mode matches UdpMode::V6 { only_v6 } && only_v6 == !dual_stack),
{
}

/// Two addresses count as the same exactly if they have the same port and are
/// the same IPv6 address once IPv4 ones are mapped, and, where they are no IPv4
/// addresses, the same flow and scope.
pub proof fn lemma_same_address(left: SocketAddr, right: SocketAddr, same: bool)
    requires
        call_ensures(socket_addrs_equal, (left, right), same),
    ensures
        same ==> v6_of(left) == v6_of(right),
        0xffff_0000_0000 <= v6_of(left) <= 0xffff_ffff_ffff ==> (same <==> v6_of(left) == v6_of(
            right,
        ) && port_in(left) == port_in(right)),
        !(0xffff_0000_0000 <= v6_of(left) <= 0xffff_ffff_ffff) ==> (same <==> left == right),
{
}

/// The port of an address.
pub open spec fn port_in(addr: SocketAddr) -> u16 {
    match addr {
        SocketAddr::V4 { port, .. } => port,
        SocketAddr::V6 { port, .. } => port,
    }
}

} // verus!

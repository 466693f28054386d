//! IP addresses and socket addresses.

use vstd::prelude::*;

verus! {

/// An IP address, as the integer whose big-endian octets are the address.
#[derive(Debug, Clone, Copy, PartialEq, Eq, Structural)]
pub enum IpAddr {
    V4(u32),
    V6(u128),
}

impl IpAddr {
    /// `224.0.0.0/4` and `ff00::/8`.
    pub open spec fn multicast(self) -> bool {
        match self {
            IpAddr::V4(ip) => 0xe000_0000 <= ip <= 0xefff_ffff,
            IpAddr::V6(ip) => 0xff00_0000_0000_0000_0000_0000_0000_0000 <= ip,
        }
    }

    /// `127.0.0.0/8` and `::1`.
    pub open spec fn loopback(self) -> bool {
        match self {
            IpAddr::V4(ip) => 0x7f00_0000 <= ip <= 0x7fff_ffff,
            IpAddr::V6(ip) => ip == 1,
        }
    }

    /// `0.0.0.0` and `::`.
    pub open spec fn unspecified(self) -> bool {
        match self {
            IpAddr::V4(ip) => ip == 0,
            IpAddr::V6(ip) => ip == 0,
        }
    }

    pub fn is_multicast(&self) -> (result: bool)
        ensures
            result == self.multicast(),
    {
        match *self {
            IpAddr::V4(ip) => 0xe000_0000 <= ip && ip <= 0xefff_ffff,
            IpAddr::V6(ip) => 0xff00_0000_0000_0000_0000_0000_0000_0000 <= ip,
        }
    }

    pub fn is_loopback(&self) -> (result: bool)
        ensures
            result == self.loopback(),
    {
        match *self {
            IpAddr::V4(ip) => 0x7f00_0000 <= ip && ip <= 0x7fff_ffff,
            IpAddr::V6(ip) => ip == 1,
        }
    }

    pub fn is_unspecified(&self) -> (result: bool)
        ensures
            result == self.unspecified(),
    {
        match *self {
            IpAddr::V4(ip) => ip == 0,
            IpAddr::V6(ip) => ip == 0,
        }
    }
}

/// An IPv4 address with a port.
#[derive(Debug, Clone, Copy, PartialEq, Eq, Structural)]
pub struct SocketAddrV4 {
    pub ip: u32,
    pub port: u16,
}

/// An IPv6 address with a port. The flow information and the scope id are part
/// of the address, as they are for the operating system.
#[derive(Debug, Clone, Copy, PartialEq, Eq, Structural)]
pub struct SocketAddrV6 {
    pub ip: u128,
    pub port: u16,
    pub flowinfo: u32,
    pub scope_id: u32,
}

/// An IP address with a port.
#[derive(Debug, Clone, Copy, PartialEq, Eq, Structural)]
pub enum SocketAddr {
    V4(SocketAddrV4),
    V6(SocketAddrV6),
}

impl SocketAddr {
    /// The address with the given IP and port, and no flow or scope.
    pub open spec fn of(ip: IpAddr, port: u16) -> SocketAddr {
        match ip {
            IpAddr::V4(ip) => SocketAddr::V4(SocketAddrV4 { ip, port }),
            IpAddr::V6(ip) => SocketAddr::V6(SocketAddrV6 { ip, port, flowinfo: 0, scope_id: 0 }),
        }
    }

    pub open spec fn spec_ip(self) -> IpAddr {
        match self {
            SocketAddr::V4(a) => IpAddr::V4(a.ip),
            SocketAddr::V6(a) => IpAddr::V6(a.ip),
        }
    }

    pub open spec fn spec_port(self) -> u16 {
        match self {
            SocketAddr::V4(a) => a.port,
            SocketAddr::V6(a) => a.port,
        }
    }

    /// The address with its IP replaced. Flow and scope survive only where
    /// both the old and the new IP are IPv6.
    pub open spec fn with_ip(self, new_ip: IpAddr) -> SocketAddr {
        match (self, new_ip) {
            (SocketAddr::V6(a), IpAddr::V6(ip)) => SocketAddr::V6(SocketAddrV6 { ip, ..a }),
            _ => SocketAddr::of(new_ip, self.spec_port()),
        }
    }

    pub fn new(ip: IpAddr, port: u16) -> (result: SocketAddr)
        ensures
            result == SocketAddr::of(ip, port),
    {
        match ip {
            IpAddr::V4(ip) => SocketAddr::V4(SocketAddrV4 { ip, port }),
            IpAddr::V6(ip) => SocketAddr::V6(SocketAddrV6 { ip, port, flowinfo: 0, scope_id: 0 }),
        }
    }

    pub fn ip(&self) -> (result: IpAddr)
        ensures
            result == self.spec_ip(),
    {
        match self {
            SocketAddr::V4(a) => IpAddr::V4(a.ip),
            SocketAddr::V6(a) => IpAddr::V6(a.ip),
        }
    }

    pub fn port(&self) -> (result: u16)
        ensures
            result == self.spec_port(),
    {
        match self {
            SocketAddr::V4(a) => a.port,
            SocketAddr::V6(a) => a.port,
        }
    }

    pub fn set_ip(&mut self, new_ip: IpAddr)
        ensures
            *final(self) == old(self).with_ip(new_ip),
    {
        let port: u16 = self.port();
        match (*self, new_ip) {
            (SocketAddr::V6(a), IpAddr::V6(ip)) => {
                *self = SocketAddr::V6(
                    SocketAddrV6 { ip, port, flowinfo: a.flowinfo, scope_id: a.scope_id },
                );
            },
            _ => {
                *self = SocketAddr::new(new_ip, port);
            },
        }
    }
}

/// Whatever IP is set on an address is the IP that is read back, with the same
/// port, and setting the IP that is there already changes nothing.
pub proof fn lemma_set_ip_reads_back(address: SocketAddr, ip: IpAddr)
    ensures
        address.with_ip(ip).spec_ip() == ip,
        address.with_ip(ip).spec_port() == address.spec_port(),
        address.with_ip(address.spec_ip()) == address,
{
}

/// The kinds of an IPv4 address are told by its first octet, but that the
/// unspecified one is zero throughout.
pub proof fn lemma_ipv4_ranges(ip: u32)
    ensures
        IpAddr::V4(ip).multicast() <==> 224 <= ip / 0x100_0000 <= 239,
        IpAddr::V4(ip).loopback() <==> ip / 0x100_0000 == 127,
        IpAddr::V4(ip).unspecified() <==> ip == 0,
{
}

/// An IPv6 address is multicast if its first octet is `ff`. There is one
/// loopback address, and one unspecified address.
pub proof fn lemma_ipv6_ranges(ip: u128)
    ensures
        IpAddr::V6(ip).multicast() <==> ip / 0x100_0000_0000_0000_0000_0000_0000_0000 == 255,
        IpAddr::V6(ip).loopback() <==> ip == 1,
        IpAddr::V6(ip).unspecified() <==> ip == 0,
{
}

/// An address is made of the IP and the port that it is made from, and of
/// nothing else.
pub proof fn lemma_address_parts(v4: u32, v6: u128, port: u16)
    ensures
        SocketAddr::of(IpAddr::V4(v4), port) == SocketAddr::V4(SocketAddrV4 { ip: v4, port }),
        SocketAddr::of(IpAddr::V6(v6), port) == SocketAddr::V6(
            SocketAddrV6 { ip: v6, port, flowinfo: 0, scope_id: 0 },
        ),
        SocketAddr::of(IpAddr::V4(v4), port).spec_ip() == IpAddr::V4(v4),
        SocketAddr::of(IpAddr::V6(v6), port).spec_ip() == IpAddr::V6(v6),
        SocketAddr::of(IpAddr::V4(v4), port).spec_port() == port,
        SocketAddr::of(IpAddr::V6(v6), port).spec_port() == port,
{
}

/// Setting the IP of an address keeps its flow and its scope if it was and
/// stays an IPv6 address, and leaves none otherwise.
pub proof fn lemma_set_ip_keeps_the_rest(address: SocketAddr, v4: u32, v6: u128)
    ensures
        address.with_ip(IpAddr::V4(v4)) == SocketAddr::V4(
            SocketAddrV4 { ip: v4, port: address.spec_port() },
        ),
        address.with_ip(IpAddr::V6(v6)) == SocketAddr::V6(
            match address {
                SocketAddr::V4(a) => SocketAddrV6 { ip: v6, port: a.port, flowinfo: 0, scope_id: 0 },
                SocketAddr::V6(a) => SocketAddrV6 {
                    ip: v6,
                    port: a.port,
                    flowinfo: a.flowinfo,
                    scope_id: a.scope_id,
                },
            },
        ),
{
}

} // verus!

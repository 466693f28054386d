//! What the packet filter and the operating system report.

use vstd::prelude::*;

use crate::addr::{IpAddr, SocketAddr};
use crate::process::ProcessInfo;
use crate::renewal::ValidChecksums;

verus! {

/// The kinds of events that the WinDivert driver reports.
#[derive(Debug, Clone, Copy, PartialEq, Eq, Structural)]
pub enum WinDivertEvent {
    NetworkPacket,
    FlowStablished,
    FlowDeleted,
    SocketBind,
    SocketConnect,
    SocketListen,
    SocketAccept,
    SocketClose,
    ReflectOpen,
    ReflectClose,
}

/// What the driver reports of a packet besides its bytes, and needs to send it.
#[derive(Debug, Clone, Copy, PartialEq, Eq, Structural)]
pub struct NetworkAddress {
    pub timestamp: i64,
    pub event: WinDivertEvent,
    pub sniffed: bool,
    pub outbound: bool,
    pub loopback: bool,
    pub impostor: bool,
    pub ipv6: bool,
    pub checksums: ValidChecksums,
    pub interface_index: u32,
    pub subinterface_index: u32,
}

impl NetworkAddress {
    /// The address of a packet that did not come from the driver: it leaves
    /// this machine, and the driver has yet to see to its checksums.
    pub open spec fn injected() -> NetworkAddress {
        NetworkAddress {
            timestamp: 0,
            event: WinDivertEvent::NetworkPacket,
            sniffed: false,
            outbound: true,
            loopback: false,
            impostor: false,
            ipv6: false,
            checksums: ValidChecksums { ip: false, tcp: false, udp: false },
            interface_index: 0,
            subinterface_index: 0,
        }
    }

    pub fn for_injection() -> (result: NetworkAddress)
        ensures
            result == NetworkAddress::injected(),
    {
        NetworkAddress {
            timestamp: 0,
            event: WinDivertEvent::NetworkPacket,
            sniffed: false,
            outbound: true,
            loopback: false,
            impostor: false,
            ipv6: false,
            checksums: ValidChecksums { ip: false, tcp: false, udp: false },
            interface_index: 0,
            subinterface_index: 0,
        }
    }
}

/// What the driver reports of an operation on a socket.
#[derive(Debug, Clone, Copy, PartialEq, Eq, Structural)]
pub struct SocketAddress {
    pub event: WinDivertEvent,
    pub process_id: u32,
    pub protocol: u8,
    pub local_address: IpAddr,
    pub local_port: u16,
    pub remote_address: IpAddr,
    pub remote_port: u16,
}

/// A row of the operating system's table of sockets, with the verdict on the
/// process that the socket belongs to.
#[derive(Debug)]
pub struct NetworkTableEntry {
    pub protocol: u8,
    pub local_addr: SocketAddr,
    pub remote_addr: SocketAddr,
    pub process_info: ProcessInfo,
    pub intercept: bool,
}

} // verus!

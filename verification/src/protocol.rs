//! The transport protocols, and what identifies a connection.

use vstd::prelude::*;

use crate::addr::SocketAddr;

verus! {

/// A transport protocol that connections are tracked for.
#[derive(Debug, Clone, Copy, PartialEq, Eq, Structural)]
pub enum TransportProtocol {
    Tcp,
    Udp,
}

/// Why a packet, or a protocol number, is not one that can be tracked.
#[derive(Debug, Clone, Copy, PartialEq, Eq, Structural)]
pub enum ParseError {
    UnknownTransportProtocol(u8),
    Malformed,
    Fragmented,
}

impl TransportProtocol {
    /// The IANA number of the protocol.
    pub open spec fn number(self) -> u8 {
        match self {
            TransportProtocol::Tcp => 6,
            TransportProtocol::Udp => 17,
        }
    }

    /// The protocol with the given IANA number, if there is one.
    pub open spec fn numbered(value: u8) -> Result<TransportProtocol, ParseError> {
        if value == 6 {
            Ok(TransportProtocol::Tcp)
        } else if value == 17 {
            Ok(TransportProtocol::Udp)
        } else {
            Err(ParseError::UnknownTransportProtocol(value))
        }
    }

    pub fn try_from(value: u8) -> (result: Result<TransportProtocol, ParseError>)
        ensures
            result == TransportProtocol::numbered(value),
    {
        if value == 6 {
            Ok(TransportProtocol::Tcp)
        } else if value == 17 {
            Ok(TransportProtocol::Udp)
        } else {
            Err(ParseError::UnknownTransportProtocol(value))
        }
    }
}

/// A protocol is found again by its number, and nothing else has that number.
pub proof fn lemma_protocol_numbers(protocol: TransportProtocol, value: u8)
    ensures
        TransportProtocol::numbered(protocol.number()) == Ok::<_, ParseError>(protocol),
        TransportProtocol::numbered(value) == Ok::<_, ParseError>(protocol) ==> value
            == protocol.number(),
{
}

/// What identifies one direction of a connection.
#[derive(Debug, Clone, Copy, PartialEq, Eq, Structural)]
pub struct ConnectionId {
    pub proto: TransportProtocol,
    pub src: SocketAddr,
    pub dst: SocketAddr,
}

impl ConnectionId {
    /// The other direction.
    pub open spec fn reversed(self) -> ConnectionId {
        ConnectionId { proto: self.proto, src: self.dst, dst: self.src }
    }

    pub fn reverse(&self) -> (result: ConnectionId)
        ensures
            result == self.reversed(),
    {
        ConnectionId { proto: self.proto, src: self.dst, dst: self.src }
    }
}

/// Reversing a direction twice leads back to it.
pub proof fn lemma_reverse_is_an_involution(id: ConnectionId)
    ensures
        id.reversed().reversed() == id,
        id.reversed() == id <==> id.src == id.dst,
{
}

/// TCP is protocol 6 and UDP is protocol 17. Every other number is refused, and
/// named.
pub proof fn lemma_numbers_of_tcp_and_udp(value: u8)
    ensures
        TransportProtocol::Tcp.number() == 6,
        TransportProtocol::Udp.number() == 17,
        TransportProtocol::numbered(6) == Ok::<_, ParseError>(TransportProtocol::Tcp),
        TransportProtocol::numbered(17) == Ok::<_, ParseError>(TransportProtocol::Udp),
        value != 6 && value != 17 ==> TransportProtocol::numbered(value) == Err::<
            TransportProtocol,
            _,
        >(ParseError::UnknownTransportProtocol(value)),
{
}

/// Reversing a direction exchanges its ends.
pub proof fn lemma_reverse_exchanges_the_ends(id: ConnectionId)
    ensures
        id.reversed().src == id.dst,
        id.reversed().dst == id.src,
        id.reversed().proto == id.proto,
{
}

} // verus!

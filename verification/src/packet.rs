//! Whole packets.

use vstd::prelude::*;

use crate::addr::SocketAddr;
use crate::header::{
    connection_id, endless, lemma_transport_bounds, parses, port_at, read_ip, transport,
    transport_offset,
};
use crate::protocol::{ConnectionId, ParseError, TransportProtocol};
use crate::renewal::{
    copy_range, is_segment_summable, lemma_ip_checksum_keeps_transport,
    lemma_tcp_checksum_keeps_transport, recalculate_ip_checksum, recalculate_tcp_checksum,
    recalculate_udp_checksum, ValidChecksums,
};

verus! {

/// Parses a packet with `internet_packet::InternetPacket::try_from`, and reads
/// its `protocol`, `src_port` and `dst_port`. Claims that parsing follows the
/// headers as `transport` says, failing with the error that `transport` names,
/// and that the ports are the first two 16-bit words of the transport header.
/// On bytes that are `endless`, `try_from` does not return.
#[verifier::external_body]
fn parse_internet_packet(data: &Vec<u8>) -> (result: Result<
    (TransportProtocol, u16, u16),
    ParseError,
>)
    requires
        !endless(data@),
    ensures
        match transport(data@) {
            Ok((protocol, _)) => result == Ok::<_, ParseError>(
                (protocol, port_at(data@, 0), port_at(data@, 2)),
            ),
            Err(e) => result == Err::<(TransportProtocol, u16, u16), _>(e),
        },
{
    match internet_packet::InternetPacket::try_from(data.clone()) {
        Ok(packet) => {
            let protocol = match packet.protocol() {
                internet_packet::TransportProtocol::Tcp => TransportProtocol::Tcp,
                internet_packet::TransportProtocol::Udp => TransportProtocol::Udp,
            };
            Ok((protocol, packet.src_port(), packet.dst_port()))
        },
        Err(internet_packet::ParseError::UnknownTransportProtocol(number)) => Err(
            ParseError::UnknownTransportProtocol(number),
        ),
        Err(internet_packet::ParseError::Malformed) => Err(ParseError::Malformed),
        Err(internet_packet::ParseError::Fragmented) => Err(ParseError::Fragmented),
    }
}

/// A whole TCP or UDP packet.
#[derive(Debug)]
pub struct Packet {
    data: Vec<u8>,
    id: ConnectionId,
}

impl View for Packet {
    type V = Seq<u8>;

    /// The bytes of the packet.
    closed spec fn view(&self) -> Seq<u8> {
        self.data@
    }
}

impl Packet {
    #[verifier::type_invariant]
    spec fn is_whole(self) -> bool {
        parses(self.data@) && self.id == connection_id(self.data@)
    }

    /// Parses the bytes of an IP packet.
    pub fn parse(data: Vec<u8>) -> (result: Result<Packet, ParseError>)
        requires
            !endless(data@),
        ensures
            match transport(data@) {
                Ok(_) => result matches Ok(packet) && packet@ == data@,
                Err(e) => result == Err::<Packet, _>(e),
            },
    {
        match parse_internet_packet(&data) {
            Ok((proto, src_port, dst_port)) => {
                proof {
                    lemma_transport_bounds(data@);
                }
                let src = SocketAddr::new(read_ip(&data, 12, 8), src_port);
                let dst = SocketAddr::new(read_ip(&data, 16, 24), dst_port);
                Ok(Packet { data, id: ConnectionId { proto, src, dst } })
            },
            Err(e) => Err(e),
        }
    }

    /// The direction that the packet travels in.
    pub fn connection_id(&self) -> (id: ConnectionId)
        ensures
            id == connection_id(self@),
            parses(self@),
    {
        proof {
            use_type_invariant(self);
        }
        self.id
    }

    /// The bytes of the packet.
    pub fn inner(self) -> (data: Vec<u8>)
        ensures
            data@ == self@,
            parses(self@),
    {
        proof {
            use_type_invariant(&self);
        }
        self.data
    }

    /// Whether the checksums that are not `valid` can be renewed.
    pub fn can_renew_checksums(&self, valid: ValidChecksums) -> (result: bool)
        ensures
            result == valid.renewable(self@),
    {
        proof {
            use_type_invariant(self);
            lemma_transport_bounds(self@);
            lemma_ip_checksum_keeps_transport(self@);
        }
        let copy = copy_range(&self.data, 0, self.data.len());
        assert(copy@ =~= self@);
        let data = if valid.ip {
            copy
        } else {
            recalculate_ip_checksum(copy)
        };
        let offset: usize = transport_offset(&data);
        match self.id.proto {
            TransportProtocol::Tcp => {
                let summable = valid.tcp || is_segment_summable(
                    &data,
                    TransportProtocol::Tcp,
                    offset,
                    16,
                );
                proof {
                    if summable && !valid.tcp {
                        lemma_tcp_checksum_keeps_transport(data@);
                    }
                }
                summable
            },
            TransportProtocol::Udp => valid.udp || is_segment_summable(
                &data,
                TransportProtocol::Udp,
                offset,
                6,
            ),
        }
    }

    /// The bytes of the packet, with every checksum renewed that is not
    /// `valid`.
    pub fn renew_checksums(self, valid: ValidChecksums) -> (result: Vec<u8>)
        requires
            valid.renewable(self@),
        ensures
            result@ == valid.renewed(self@),
    {
        proof {
            use_type_invariant(&self);
            lemma_ip_checksum_keeps_transport(self@);
        }
        let mut data = self.data;
        if !valid.ip {
            data = recalculate_ip_checksum(data);
        }
        if !valid.tcp {
            proof {
                lemma_tcp_checksum_keeps_transport(data@);
            }
            data = recalculate_tcp_checksum(data);
        }
        if !valid.udp {
            data = recalculate_udp_checksum(data);
        }
        data
    }
}

} // verus!

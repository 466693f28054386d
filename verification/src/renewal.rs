//! The checksums of a packet, and how the `internet-packet` crate renews them.

use vstd::prelude::*;

use crate::checksum::{
    adds_up, can_add_up, comes_to_one, internet_checksum,
    lemma_rows_add_up_unless_they_come_to_one, lemma_word_sum_of_parts, little_endian_word_sum,
    with_word, word_sum,
};
use crate::header::{
    chain, connection_id, extension_header, lemma_chain_offset, lemma_transport_bounds, parses,
    plain_extension_header, transport, version, Chain,
};
use crate::protocol::TransportProtocol;

verus! {

/// The bytes that a transport checksum covers besides the segment.
pub open spec fn pseudo_header(data: Seq<u8>, protocol: TransportProtocol, offset: int) -> Seq<u8> {
    let len = data.len() - offset;
    if version(data) == 4 {
        data.subrange(12, 20) + seq![
            0u8,
            protocol.number(),
            (len / 256 % 256) as u8,
            (len % 256) as u8,
        ]
    } else {
        data.subrange(8, 40) + seq![
            (len / 0x100_0000 % 256) as u8,
            (len / 0x1_0000 % 256) as u8,
            (len / 256 % 256) as u8,
            (len % 256) as u8,
            0u8,
            0u8,
            0u8,
            protocol.number(),
        ]
    }
}

/// The packet with a fresh header checksum. Only the first twenty bytes of an
/// IPv4 header are covered, and IPv6 has no such checksum.
pub open spec fn with_ip_checksum(data: Seq<u8>) -> Seq<u8> {
    if version(data) == 4 {
        let blank = with_word(data, 10, 0);
        with_word(blank, 10, internet_checksum(blank.take(20)))
    } else {
        data
    }
}

/// The packet with a fresh transport checksum, which stands `field` bytes into
/// the transport header at `offset`.
pub open spec fn with_segment_checksum(
    data: Seq<u8>,
    protocol: TransportProtocol,
    offset: int,
    field: int,
) -> Seq<u8> {
    let blank = with_word(data, offset + field, 0);
    with_word(
        blank,
        offset + field,
        internet_checksum(pseudo_header(data, protocol, offset) + blank.skip(offset)),
    )
}

/// The packet with a fresh TCP checksum, if it is a TCP packet.
pub open spec fn with_tcp_checksum(data: Seq<u8>) -> Seq<u8> {
    match transport(data) {
        Ok((TransportProtocol::Tcp, offset)) => with_segment_checksum(
            data,
            TransportProtocol::Tcp,
            offset,
            16,
        ),
        _ => data,
    }
}

/// The packet with a fresh UDP checksum, if it is a UDP packet.
pub open spec fn with_udp_checksum(data: Seq<u8>) -> Seq<u8> {
    match transport(data) {
        Ok((TransportProtocol::Udp, offset)) => with_segment_checksum(
            data,
            TransportProtocol::Udp,
            offset,
            6,
        ),
        _ => data,
    }
}

/// Whether there is a checksum field to write, and the segment adds up.
pub open spec fn segment_summable(
    data: Seq<u8>,
    protocol: TransportProtocol,
    offset: int,
    field: int,
) -> bool {
    offset + field + 2 <= data.len() && adds_up(
        with_word(data, offset + field, 0).skip(offset),
        little_endian_word_sum(pseudo_header(data, protocol, offset)),
    )
}

pub open spec fn tcp_summable(data: Seq<u8>) -> bool {
    transport(data) matches Ok((TransportProtocol::Tcp, offset)) ==> segment_summable(
        data,
        TransportProtocol::Tcp,
        offset,
        16,
    )
}

pub open spec fn udp_summable(data: Seq<u8>) -> bool {
    transport(data) matches Ok((TransportProtocol::Udp, offset)) ==> segment_summable(
        data,
        TransportProtocol::Udp,
        offset,
        6,
    )
}

/// Renews the header checksum with
/// `internet_packet::InternetPacket::recalculate_ip_checksum`, on the packet
/// that `try_from` makes of the bytes and `inner` gives back. Claims that an
/// IPv4 packet comes back with the internet checksum of its first twenty bytes
/// in place, and any other packet as it was.
#[verifier::external_body]
pub(crate) fn recalculate_ip_checksum(data: Vec<u8>) -> (result: Vec<u8>)
    requires
        parses(data@),
    ensures
        result@ == with_ip_checksum(data@),
{
    let mut packet = internet_packet::InternetPacket::try_from(data).unwrap();
    packet.recalculate_ip_checksum();
    packet.inner()
}

/// Renews the TCP checksum with
/// `internet_packet::InternetPacket::recalculate_tcp_checksum`, on the packet
/// that `try_from` makes of the bytes and `inner` gives back. Claims that a TCP
/// packet comes back with the internet checksum of its pseudo header and its
/// segment in place, and any other packet as it was. The function panics where
/// the checksum field lies beyond the packet, and the adder beneath it where it
/// runs over.
#[verifier::external_body]
pub(crate) fn recalculate_tcp_checksum(data: Vec<u8>) -> (result: Vec<u8>)
    requires
        parses(data@),
        tcp_summable(data@),
    ensures
        result@ == with_tcp_checksum(data@),
{
    let mut packet = internet_packet::InternetPacket::try_from(data).unwrap();
    packet.recalculate_tcp_checksum();
    packet.inner()
}

/// Renews the UDP checksum with
/// `internet_packet::InternetPacket::recalculate_udp_checksum`, on the packet
/// that `try_from` makes of the bytes and `inner` gives back. Claims that a UDP
/// packet comes back with the internet checksum of its pseudo header and its
/// segment in place, and any other packet as it was. The adder beneath the
/// function panics where it runs over.
#[verifier::external_body]
pub(crate) fn recalculate_udp_checksum(data: Vec<u8>) -> (result: Vec<u8>)
    requires
        parses(data@),
        udp_summable(data@),
    ensures
        result@ == with_udp_checksum(data@),
{
    let mut packet = internet_packet::InternetPacket::try_from(data).unwrap();
    packet.recalculate_udp_checksum();
    packet.inner()
}

/// Which checksums of a packet are known to be valid.
#[derive(Debug, Clone, Copy, PartialEq, Eq, Structural)]
pub struct ValidChecksums {
    pub ip: bool,
    pub tcp: bool,
    pub udp: bool,
}

impl ValidChecksums {
    /// The packet once its IP checksum is valid.
    pub open spec fn with_ip(self, data: Seq<u8>) -> Seq<u8> {
        if self.ip {
            data
        } else {
            with_ip_checksum(data)
        }
    }

    /// The packet once its IP and TCP checksums are valid.
    pub open spec fn with_tcp(self, data: Seq<u8>) -> Seq<u8> {
        if self.tcp {
            self.with_ip(data)
        } else {
            with_tcp_checksum(self.with_ip(data))
        }
    }

    /// The packet with every checksum renewed that was not valid.
    pub open spec fn renewed(self, data: Seq<u8>) -> Seq<u8> {
        if self.udp {
            self.with_tcp(data)
        } else {
            with_udp_checksum(self.with_tcp(data))
        }
    }

    /// Whether the checksums that are not valid can be renewed.
    pub open spec fn renewable(self, data: Seq<u8>) -> bool {
        &&& !self.tcp ==> tcp_summable(self.with_ip(data))
        &&& !self.udp ==> udp_summable(self.with_tcp(data))
    }
}

/// Two packets whose headers agree lead to the same transport header, though
/// two bytes further on differ.
proof fn lemma_same_chain(a: Seq<u8>, b: Seq<u8>, next: u8, offset: int, at: int)
    requires
        0 <= offset,
        a.len() == b.len(),
        forall|k: int| 0 <= k < a.len() && k != at && k != at + 1 ==> a[k] == b[k],
        chain(a, next, offset) matches Chain::Transport(_, end) && at >= end + 2,
    ensures
        chain(b, next, offset) == chain(a, next, offset),
    decreases
            if offset < a.len() {
                a.len() - offset
            } else {
                0
            },
            if plain_extension_header(next) {
                1int
            } else {
                0int
            },
{
    lemma_chain_offset(a, next, offset);
    if !extension_header(next) || a.len() < offset + 8 || next == 44 {
    } else if next == 51 {
        lemma_same_chain(a, b, a[offset], offset + (a[offset + 1] + 2) * 4, at);
    } else if a[offset + 1] == 0 && plain_extension_header(a[offset]) {
    } else {
        lemma_same_chain(a, b, a[offset], offset + a[offset + 1] * 8, at);
    }
}

/// Two bytes that no header is read from do not change where the transport
/// header lies.
proof fn lemma_same_transport(a: Seq<u8>, b: Seq<u8>, at: int)
    requires
        parses(a),
        a.len() == b.len(),
        forall|k: int| 0 <= k < a.len() && k != at && k != at + 1 ==> a[k] == b[k],
        at >= 10,
        transport(a)->Ok_0.0 is Tcp ==> at != transport(a)->Ok_0.1 + 11 && at != transport(
            a,
        )->Ok_0.1 + 12,
        version(a) == 6 ==> at >= transport(a)->Ok_0.1 + 2,
    ensures
        parses(b),
        version(b) == version(a),
        transport(b) == transport(a),
{
    lemma_transport_bounds(a);
    if version(a) == 6 {
        lemma_same_chain(a, b, a[6], 40, at);
    }
}

/// Renewing the IP checksum leaves the headers where they are.
pub(crate) proof fn lemma_ip_checksum_keeps_transport(data: Seq<u8>)
    requires
        parses(data),
    ensures
        parses(with_ip_checksum(data)),
        with_ip_checksum(data).len() == data.len(),
        version(with_ip_checksum(data)) == version(data),
        transport(with_ip_checksum(data)) == transport(data),
{
    lemma_transport_bounds(data);
    if version(data) == 4 {
        lemma_same_transport(data, with_ip_checksum(data), 10);
    }
}

/// Renewing the TCP checksum leaves the headers where they are.
pub(crate) proof fn lemma_tcp_checksum_keeps_transport(data: Seq<u8>)
    requires
        parses(data),
        tcp_summable(data),
    ensures
        parses(with_tcp_checksum(data)),
        with_tcp_checksum(data).len() == data.len(),
        version(with_tcp_checksum(data)) == version(data),
        transport(with_tcp_checksum(data)) == transport(data),
{
    lemma_transport_bounds(data);
    if let Ok((TransportProtocol::Tcp, offset)) = transport(data) {
        lemma_same_transport(data, with_tcp_checksum(data), offset + 16);
    }
}

/// Sums the little-endian words of `bytes`.
fn sum_little_endian_words(bytes: &Vec<u8>) -> (sum: u64)
    requires
        bytes.len() <= 40,
    ensures
        sum == little_endian_word_sum(bytes@),
{
    let mut sum: u64 = 0;
    let mut i: usize = 0;
    assert(bytes@.skip(0) =~= bytes@);
    while bytes.len() - i >= 2
        invariant
            i <= bytes.len() <= 40,
            sum <= 0x1_0000 * i,
            sum + little_endian_word_sum(bytes@.skip(i as int)) == little_endian_word_sum(bytes@),
        decreases bytes.len() - i,
    {
        assert(bytes@.skip(i as int).skip(2) =~= bytes@.skip(i + 2));
        sum = sum + bytes[i] as u64 + 256 * bytes[i + 1] as u64;
        i = i + 2;
    }
    sum
}

/// Copies the bytes of `data` from `from` to `to`.
pub(crate) fn copy_range(data: &Vec<u8>, from: usize, to: usize) -> (copy: Vec<u8>)
    requires
        from <= to <= data.len(),
    ensures
        copy@ == data@.subrange(from as int, to as int),
{
    let mut copy: Vec<u8> = Vec::new();
    let mut i: usize = from;
    while i < to
        invariant
            from <= i <= to <= data.len(),
            copy@ == data@.subrange(from as int, i as int),
        decreases to - i,
    {
        copy.push(data[i]);
        i = i + 1;
    }
    copy
}

fn make_pseudo_header(data: &Vec<u8>, protocol: TransportProtocol, offset: usize) -> (header: Vec<
    u8,
>)
    requires
        parses(data@),
        offset <= data.len(),
    ensures
        header@ == pseudo_header(data@, protocol, offset as int),
        header.len() <= 40,
{
    proof {
        lemma_transport_bounds(data@);
    }
    let number: u8 = match protocol {
        TransportProtocol::Tcp => 6,
        TransportProtocol::Udp => 17,
    };
    let len: usize = data.len() - offset;
    if data[0] / 16 == 4 {
        let mut header = copy_range(data, 12, 20);
        header.push(0);
        header.push(number);
        header.push((len / 256 % 256) as u8);
        header.push((len % 256) as u8);
        assert(header@ =~= pseudo_header(data@, protocol, offset as int));
        header
    } else {
        let mut header = copy_range(data, 8, 40);
        header.push((len / 0x100_0000 % 256) as u8);
        header.push((len / 0x1_0000 % 256) as u8);
        header.push((len / 256 % 256) as u8);
        header.push((len % 256) as u8);
        header.push(0);
        header.push(0);
        header.push(0);
        header.push(number);
        assert(header@ =~= pseudo_header(data@, protocol, offset as int));
        header
    }
}

pub(crate) fn is_segment_summable(
    data: &Vec<u8>,
    protocol: TransportProtocol,
    offset: usize,
    field: usize,
) -> (result: bool)
    requires
        parses(data@),
        offset <= data.len(),
        field <= 16,
    ensures
        result == segment_summable(data@, protocol, offset as int, field as int),
{
    if data.len() - offset < field + 2 {
        return false;
    }
    let start: u64 = sum_little_endian_words(&make_pseudo_header(data, protocol, offset));
    let mut blank = copy_range(data, 0, data.len());
    blank.set(offset + field, 0);
    blank.set(offset + field + 1, 0);
    assert(blank@ =~= with_word(data@, offset + field, 0));
    can_add_up(&blank, offset, start)
}

/// Whether the IP header claims to be at least as long as it is. An IPv4 header
/// of fewer than five words would overlap the transport header.
pub open spec fn regular(data: Seq<u8>) -> bool {
    version(data) == 4 ==> data[0] % 16 >= 5
}

/// Replacing a word changes the sum of the words by the difference.
proof fn lemma_word_sum_of_replaced(bytes: Seq<u8>, at: int, word: nat)
    requires
        0 <= at,
        at % 2 == 0,
        at + 2 <= bytes.len(),
        word <= 0xffff,
    ensures
        word_sum(with_word(bytes, at, word)) + 256 * bytes[at] + bytes[at + 1] == word_sum(bytes)
            + word,
    decreases bytes.len(),
{
    let replaced = with_word(bytes, at, word);
    if at == 0 {
        assert(replaced.skip(2) =~= bytes.skip(2));
    } else {
        lemma_word_sum_of_replaced(bytes.skip(2), at - 2, word);
        assert(replaced.skip(2) =~= with_word(bytes.skip(2), at - 2, word));
    }
}

/// Where the word at `at` was zero, putting the internet checksum there makes
/// the words sum to zero in ones' complement.
proof fn lemma_checksum_in_place(blank: Seq<u8>, at: int)
    requires
        0 <= at,
        at % 2 == 0,
        at + 2 <= blank.len(),
        blank[at] == 0,
        blank[at + 1] == 0,
    ensures
        word_sum(with_word(blank, at, internet_checksum(blank))) % 0xffff == 0,
{
    lemma_word_sum_of_replaced(blank, at, internet_checksum(blank));
}

/// A renewed IPv4 header is one that a receiver accepts: its words sum to zero.
pub proof fn lemma_ip_checksum_is_valid(data: Seq<u8>)
    requires
        parses(data),
        version(data) == 4,
    ensures
        word_sum(with_ip_checksum(data).take(20)) % 0xffff == 0,
{
    lemma_transport_bounds(data);
    let blank = with_word(data, 10, 0);
    lemma_checksum_in_place(blank.take(20), 10);
    assert(with_ip_checksum(data).take(20) =~= with_word(
        blank.take(20),
        10,
        internet_checksum(blank.take(20)),
    ));
}

/// Below a regular header the transport header comes after the addresses.
proof fn lemma_regular_offset(data: Seq<u8>)
    requires
        parses(data),
        regular(data),
    ensures
        version(data) == 4 ==> transport(data)->Ok_0.1 >= 20,
        version(data) == 6 ==> transport(data)->Ok_0.1 >= 40,
{
    if version(data) == 6 {
        lemma_chain_offset(data, data[6], 40);
    }
}

proof fn lemma_segment_checksum_is_valid(
    data: Seq<u8>,
    protocol: TransportProtocol,
    offset: int,
    field: int,
)
    requires
        parses(data),
        version(data) == 4 ==> offset >= 20,
        version(data) == 6 ==> offset >= 40,
        0 <= field,
        field % 2 == 0,
        offset + field + 2 <= data.len(),
    ensures
        ({
            let renewed = with_segment_checksum(data, protocol, offset, field);
            word_sum(pseudo_header(renewed, protocol, offset) + renewed.skip(offset)) % 0xffff == 0
        }),
{
    lemma_transport_bounds(data);
    let renewed = with_segment_checksum(data, protocol, offset, field);
    let pseudo = pseudo_header(data, protocol, offset);
    assert(pseudo_header(renewed, protocol, offset) =~= pseudo);
    let blank = pseudo + with_word(data, offset + field, 0).skip(offset);
    assert(pseudo.len() % 2 == 0);
    lemma_checksum_in_place(blank, pseudo.len() + field);
    assert(pseudo + renewed.skip(offset) =~= with_word(
        blank,
        pseudo.len() + field,
        internet_checksum(blank),
    ));
}

/// A renewed transport checksum is one that a receiver accepts: the words of
/// the pseudo header and of the segment sum to zero.
pub proof fn lemma_transport_checksum_is_valid(data: Seq<u8>)
    requires
        parses(data),
        regular(data),
    ensures
        transport(data) matches Ok((TransportProtocol::Tcp, offset)) ==> tcp_summable(data) ==> ({
            let renewed = with_tcp_checksum(data);
            word_sum(
                pseudo_header(renewed, TransportProtocol::Tcp, offset) + renewed.skip(offset),
            ) % 0xffff == 0
        }),
        transport(data) matches Ok((TransportProtocol::Udp, offset)) ==> udp_summable(data) ==> ({
            let renewed = with_udp_checksum(data);
            word_sum(
                pseudo_header(renewed, TransportProtocol::Udp, offset) + renewed.skip(offset),
            ) % 0xffff == 0
        }),
{
    lemma_regular_offset(data);
    match transport(data) {
        Ok((TransportProtocol::Tcp, offset)) => {
            if tcp_summable(data) {
                lemma_segment_checksum_is_valid(data, TransportProtocol::Tcp, offset, 16);
            }
        },
        Ok((TransportProtocol::Udp, offset)) => {
            if udp_summable(data) {
                lemma_segment_checksum_is_valid(data, TransportProtocol::Udp, offset, 6);
            }
        },
        Err(_) => {},
    }
}

proof fn lemma_same_connection(a: Seq<u8>, b: Seq<u8>, at: int)
    requires
        parses(a),
        regular(a),
        a.len() == b.len(),
        forall|k: int| 0 <= k < a.len() && k != at && k != at + 1 ==> a[k] == b[k],
        (version(a) == 4 && at == 10) || at == transport(a)->Ok_0.1 + 16 || (transport(
            a,
        )->Ok_0.0 is Udp && at == transport(a)->Ok_0.1 + 6),
    ensures
        parses(b),
        regular(b),
        version(b) == version(a),
        transport(b) == transport(a),
        connection_id(b) == connection_id(a),
{
    lemma_transport_bounds(a);
    lemma_regular_offset(a);
    lemma_same_transport(a, b, at);
    if version(a) == 4 {
        assert(a.subrange(12, 16) =~= b.subrange(12, 16));
        assert(a.subrange(16, 20) =~= b.subrange(16, 20));
    } else {
        assert(a.subrange(8, 24) =~= b.subrange(8, 24));
        assert(a.subrange(24, 40) =~= b.subrange(24, 40));
    }
}

/// Renewing checksums changes neither the length of a packet nor its
/// connection, where its header is regular.
pub proof fn lemma_renewing_keeps_connection(valid: ValidChecksums, data: Seq<u8>)
    requires
        parses(data),
        regular(data),
        valid.renewable(data),
    ensures
        valid.renewed(data).len() == data.len(),
        parses(valid.renewed(data)),
        connection_id(valid.renewed(data)) == connection_id(data),
{
    let d1 = valid.with_ip(data);
    if !valid.ip && version(data) == 4 {
        lemma_transport_bounds(data);
        lemma_same_connection(data, d1, 10);
    }
    let d2 = valid.with_tcp(data);
    lemma_transport_bounds(d1);
    if !valid.tcp {
        if let Ok((TransportProtocol::Tcp, offset)) = transport(d1) {
            lemma_same_connection(d1, d2, offset + 16);
        }
    }
    lemma_transport_bounds(d2);
    if !valid.udp {
        if let Ok((TransportProtocol::Udp, offset)) = transport(d2) {
            lemma_same_connection(d2, valid.renewed(data), offset + 6);
        }
    }
}

/// A packet whose checksums are all valid is left as it is.
pub proof fn lemma_valid_checksums_stay(data: Seq<u8>)
    ensures
        (ValidChecksums { ip: true, tcp: true, udp: true }).renewed(data) == data,
        (ValidChecksums { ip: true, tcp: true, udp: true }).renewable(data),
{
}

/// The two bytes that a length is written in, as a word.
proof fn lemma_length_word(len: int)
    requires
        0 <= len,
    ensures
        256 * (len / 256 % 256) + len % 256 == len % 0x1_0000,
        256 * (len / 0x100_0000 % 256) + len / 0x1_0000 % 256 == len / 0x1_0000 % 0x1_0000,
{
}

/// What the pseudo header adds to the sum of the words: the addresses, the
/// number of the protocol and the length of the segment.
proof fn lemma_pseudo_header_sum(data: Seq<u8>, protocol: TransportProtocol, offset: int)
    requires
        data.len() >= 20,
        data[0] as int / 16 == 4 || (data[0] as int / 16 == 6 && data.len() >= 40),
        0 <= offset <= data.len(),
    ensures
        pseudo_header(data, protocol, offset).len() % 2 == 0,
        data[0] as int / 16 == 4 ==> word_sum(pseudo_header(data, protocol, offset)) == word_sum(
            data.subrange(12, 20),
        ) + protocol.number() + (data.len() - offset) % 0x1_0000,
        data[0] as int / 16 == 6 ==> word_sum(pseudo_header(data, protocol, offset)) == word_sum(
            data.subrange(8, 40),
        ) + protocol.number() + (data.len() - offset) / 0x1_0000 % 0x1_0000 + (data.len() - offset)
            % 0x1_0000,
{
    let len = data.len() - offset;
    let number = protocol.number();
    let a = (len / 0x100_0000 % 256) as u8;
    let b = (len / 0x1_0000 % 256) as u8;
    let c = (len / 256 % 256) as u8;
    let d = (len % 256) as u8;
    lemma_length_word(len);
    if data[0] as int / 16 == 4 {
        lemma_ipv4_pseudo_sum(data.subrange(12, 20), number, c, d);
        assert(pseudo_header(data, protocol, offset) =~= data.subrange(12, 20) + seq![
            0u8,
            number,
            c,
            d,
        ]);
    } else {
        lemma_ipv6_pseudo_sum(data.subrange(8, 40), a, b, c, d, number);
        assert(pseudo_header(data, protocol, offset) =~= data.subrange(8, 40) + seq![
            a,
            b,
            c,
            d,
            0u8,
            0u8,
            0u8,
            number,
        ]);
    }
}

proof fn lemma_ipv4_pseudo_sum(addresses: Seq<u8>, number: u8, c: u8, d: u8)
    requires
        addresses.len() % 2 == 0,
    ensures
        word_sum(addresses + seq![0u8, number, c, d]) == word_sum(addresses) + number + 256 * c + d,
{
    lemma_word_sum_of_four(addresses, 0, number, c, d, Seq::empty());
    lemma_word_sum_of_parts(Seq::empty(), Seq::empty(), 0, 0);
    assert(seq![0u8, number, c, d] + Seq::empty() =~= seq![0u8, number, c, d]);
}

proof fn lemma_ipv6_pseudo_sum(addresses: Seq<u8>, a: u8, b: u8, c: u8, d: u8, number: u8)
    requires
        addresses.len() % 2 == 0,
    ensures
        word_sum(addresses + seq![a, b, c, d, 0u8, 0u8, 0u8, number]) == word_sum(addresses) + 256
            * a + b + 256 * c + d + number,
{
    let zeros = seq![0u8, 0u8, 0u8, number];
    lemma_word_sum_of_four(addresses, a, b, c, d, zeros);
    lemma_word_sum_of_four(Seq::empty(), 0, 0, 0, number, Seq::empty());
    lemma_word_sum_of_parts(Seq::empty(), Seq::empty(), 0, 0);
    assert(Seq::empty() + (zeros + Seq::empty()) =~= zeros);
    assert(seq![a, b, c, d] + zeros =~= seq![a, b, c, d, 0u8, 0u8, 0u8, number]);
}

/// Four bytes in the middle add two words.
proof fn lemma_word_sum_of_four(first: Seq<u8>, a: u8, b: u8, c: u8, d: u8, last: Seq<u8>)
    requires
        first.len() % 2 == 0,
    ensures
        word_sum(first + (seq![a, b, c, d] + last)) == word_sum(first) + 256 * a + b + 256 * c + d
            + word_sum(last),
{
    lemma_word_sum_of_parts(first, seq![a, b, c, d] + last, a, b);
    lemma_word_sum_of_parts(seq![a, b, c, d], last, c, d);
    lemma_word_sum_of_parts(seq![a, b], seq![c, d], a, b);
    assert(seq![a, b, c, d] =~= seq![a, b] + seq![c, d]);
}

/// Renewing checksums changes the checksum fields that were not valid, and no
/// other byte.
pub proof fn lemma_renewing_touches_only_checksums(valid: ValidChecksums, data: Seq<u8>, k: int)
    requires
        parses(data),
        valid.renewable(data),
        0 <= k < data.len(),
        data[0] as int / 16 == 4 && !valid.ip ==> k != 10 && k != 11,
        ({
            let (proto, offset) = transport(data)->Ok_0;
            &&& proto is Tcp && !valid.tcp ==> k != offset + 16 && k != offset + 17
            &&& proto is Udp && !valid.udp ==> k != offset + 6 && k != offset + 7
        }),
    ensures
        valid.renewed(data).len() == data.len(),
        valid.renewed(data)[k] == data[k],
{
    lemma_transport_bounds(data);
    lemma_ip_checksum_keeps_transport(data);
    let with_ip = valid.with_ip(data);
    if !valid.tcp {
        lemma_tcp_checksum_keeps_transport(with_ip);
    }
}

/// A packet whose checksums are renewed is one that a receiver accepts, whichever
/// of them were valid. Each checksum that was not valid is such that the words
/// that it covers sum to zero in ones' complement: those of the IPv4 header, and
/// those of the segment along with the addresses, the protocol and the length.
pub proof fn lemma_renewed_packet_is_accepted(valid: ValidChecksums, data: Seq<u8>)
    requires
        parses(data),
        valid.renewable(data),
        data[0] as int / 16 == 4 ==> data[0] % 16 >= 5,
    ensures
        ({
            let renewed = valid.renewed(data);
            let (proto, offset) = transport(data)->Ok_0;
            let len = data.len() - offset;
            let number: int = if proto is Tcp {
                6
            } else {
                17
            };
            &&& data[0] as int / 16 == 4 && !valid.ip ==> word_sum(renewed.take(20)) % 0xffff == 0
            &&& (proto is Tcp && !valid.tcp) || (proto is Udp && !valid.udp) ==> {
                &&& data[0] as int / 16 == 4 ==> (word_sum(data.subrange(12, 20)) + number + len
                    % 0x1_0000 + word_sum(renewed.skip(offset))) % 0xffff == 0
                &&& data[0] as int / 16 == 6 ==> (word_sum(data.subrange(8, 40)) + number + len
                    / 0x1_0000 % 0x1_0000 + len % 0x1_0000 + word_sum(renewed.skip(offset)))
                    % 0xffff == 0
            }
        }),
{
    lemma_transport_bounds(data);
    lemma_regular_offset(data);
    lemma_ip_checksum_keeps_transport(data);
    let renewed = valid.renewed(data);
    let (proto, offset) = transport(data)->Ok_0;
    let with_ip = valid.with_ip(data);
    if !valid.tcp {
        lemma_tcp_checksum_keeps_transport(with_ip);
    }
    if data[0] as int / 16 == 4 && !valid.ip {
        lemma_ip_checksum_is_valid(data);
        assert(renewed.take(20) =~= with_ip_checksum(data).take(20));
    }
    if (proto is Tcp && !valid.tcp) || (proto is Udp && !valid.udp) {
        let field: int = if proto is Tcp {
            16
        } else {
            6
        };
        assert(renewed == with_segment_checksum(with_ip, proto, offset, field));
        lemma_segment_checksum_is_valid(with_ip, proto, offset, field);
        let pseudo = pseudo_header(renewed, proto, offset);
        lemma_pseudo_header_sum(renewed, proto, offset);
        lemma_word_sum_of_parts(pseudo, renewed.skip(offset), 0, 0);
        if data[0] as int / 16 == 4 {
            assert(renewed.subrange(12, 20) =~= data.subrange(12, 20));
        } else {
            assert(renewed.subrange(8, 40) =~= data.subrange(8, 40));
        }
    }
}

/// The checksums of a short packet can be renewed: one whose segment has its
/// checksum field and is shorter than 64 bytes. So can those of a packet where
/// the checksum of its own protocol is valid.
pub proof fn lemma_short_packets_are_renewable(valid: ValidChecksums, data: Seq<u8>)
    requires
        parses(data),
        ({
            let (proto, offset) = transport(data)->Ok_0;
            match proto {
                TransportProtocol::Tcp => valid.tcp || offset + 18 <= data.len() < offset + 64,
                TransportProtocol::Udp => valid.udp || data.len() < offset + 64,
            }
        }),
    ensures
        valid.renewable(data),
{
    lemma_transport_bounds(data);
    lemma_ip_checksum_keeps_transport(data);
    let with_ip = valid.with_ip(data);
    let (proto, offset) = transport(data)->Ok_0;
    if proto is Tcp && !valid.tcp {
        assert(tcp_summable(with_ip));
        lemma_tcp_checksum_keeps_transport(with_ip);
    }
}

/// The checksums of a packet of any length can be renewed if its segment has its
/// checksum field and, with this field blank, the words of the pseudo header and
/// of the first of its bytes never come to one modulo 65535.
pub proof fn lemma_packets_are_renewable_unless_they_come_to_one(
    valid: ValidChecksums,
    data: Seq<u8>,
)
    requires
        parses(data),
        ({
            let (proto, offset) = transport(data)->Ok_0;
            let with_ip = if valid.ip {
                data
            } else {
                with_ip_checksum(data)
            };
            let field: int = if proto is Tcp {
                16
            } else {
                6
            };
            &&& offset + field + 2 <= data.len()
            &&& !comes_to_one(
                with_word(with_ip, offset + field, 0).skip(offset),
                little_endian_word_sum(pseudo_header(with_ip, proto, offset)),
            )
        }),
    ensures
        valid.renewable(data),
{
    lemma_transport_bounds(data);
    lemma_ip_checksum_keeps_transport(data);
    let with_ip = valid.with_ip(data);
    let (proto, offset) = transport(data)->Ok_0;
    let field: int = if proto is Tcp {
        16
    } else {
        6
    };
    let pseudo = pseudo_header(with_ip, proto, offset);
    lemma_transport_bounds(with_ip);
    lemma_little_endian_word_sum_bound(pseudo);
    lemma_rows_add_up_unless_they_come_to_one(
        with_word(with_ip, offset + field, 0).skip(offset),
        little_endian_word_sum(pseudo),
    );
    if proto is Tcp && !valid.tcp {
        assert(tcp_summable(with_ip));
        lemma_tcp_checksum_keeps_transport(with_ip);
    }
}

proof fn lemma_little_endian_word_sum_bound(bytes: Seq<u8>)
    ensures
        little_endian_word_sum(bytes) <= 0x1_0000 * bytes.len(),
    decreases bytes.len(),
{
    if bytes.len() >= 2 {
        lemma_little_endian_word_sum_bound(bytes.skip(2));
    }
}

} // verus!

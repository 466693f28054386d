//! Where the headers of a packet lie, and what they say.

use vstd::prelude::*;

use crate::addr::{IpAddr, SocketAddr};
use crate::checksum::{lemma_pow256_monotonic, lemma_pow256_values, pow256};
use crate::protocol::{ConnectionId, ParseError, TransportProtocol};

verus! {

/// What the headers between the fixed IP header and the transport header lead
/// to.
pub enum Chain {
    /// The packet ends within a header.
    Truncated,
    /// The packet is a fragment.
    Fragment,
    /// A header of length zero names another extension header in its own
    /// place, over and over.
    Endless,
    /// The transport header of the given protocol number, and its offset.
    Transport(u8, int),
}

/// The numbers of the IPv6 extension headers.
pub open spec fn extension_header(number: u8) -> bool {
    number == 0 || number == 43 || number == 44 || number == 50 || number == 51 || number == 60
        || number == 135 || number == 139 || number == 140
}

/// The fragment and the authentication header are read in ways of their own.
pub open spec fn plain_extension_header(number: u8) -> bool {
    extension_header(number) && number != 44 && number != 51
}

/// Follows the IPv6 extension headers from `offset` on, where the header with
/// number `next` stands. The authentication header counts its length in 4-byte
/// units less two; of the others, the length byte is taken as the number of
/// 8-byte units.
pub open spec fn chain(data: Seq<u8>, next: u8, offset: int) -> Chain
    decreases
            if offset < data.len() {
                data.len() - offset
            } else {
                0
            },
            if plain_extension_header(next) {
                1int
            } else {
                0int
            },
    when offset >= 0
{
    if !extension_header(next) {
        Chain::Transport(next, offset)
    } else if data.len() < offset + 8 {
        Chain::Truncated
    } else if next == 44 {
        Chain::Fragment
    } else if next == 51 {
        chain(data, data[offset], offset + (data[offset + 1] + 2) * 4)
    } else if data[offset + 1] == 0 && plain_extension_header(data[offset]) {
        Chain::Endless
    } else {
        chain(data, data[offset], offset + data[offset + 1] * 8)
    }
}

/// The IP version that the first byte names.
pub open spec fn version(data: Seq<u8>) -> int {
    data[0] as int / 16
}

/// Whether `data` is an IPv6 packet whose extension headers lead nowhere.
pub open spec fn endless(data: Seq<u8>) -> bool {
    data.len() >= 40 && version(data) == 6 && chain(data, data[6], 40) is Endless
}

/// Where the headers of a whole IP header lead.
pub open spec fn headers(data: Seq<u8>) -> Chain {
    if data.len() == 0 {
        Chain::Truncated
    } else if version(data) == 4 {
        if data.len() < 20 {
            Chain::Truncated
        } else if data[6] % 64 != 0 || data[7] != 0 {
            Chain::Fragment
        } else {
            Chain::Transport(data[9], (data[0] % 16) * 4)
        }
    } else if version(data) == 6 {
        if data.len() < 40 {
            Chain::Truncated
        } else {
            chain(data, data[6], 40)
        }
    } else {
        Chain::Truncated
    }
}

/// Where the payload begins at the earliest, after the transport header at
/// `offset`.
pub open spec fn payload_offset(data: Seq<u8>, protocol: TransportProtocol, offset: int) -> int {
    match protocol {
        TransportProtocol::Tcp => if offset + 12 < data.len() {
            offset + (data[offset + 12] as int / 16) * 4
        } else {
            offset + 60
        },
        TransportProtocol::Udp => offset + 8,
    }
}

/// The transport protocol of a packet and the offset of its transport header,
/// or why there are none.
pub open spec fn transport(data: Seq<u8>) -> Result<(TransportProtocol, int), ParseError> {
    match headers(data) {
        Chain::Fragment => Err(ParseError::Fragmented),
        Chain::Transport(number, offset) => match TransportProtocol::numbered(number) {
            Err(e) => Err(e),
            Ok(protocol) => if data.len() < payload_offset(data, protocol, offset) {
                Err(ParseError::Malformed)
            } else {
                Ok((protocol, offset))
            },
        },
        _ => Err(ParseError::Malformed),
    }
}

/// Whether `data` is a whole TCP or UDP packet.
pub open spec fn parses(data: Seq<u8>) -> bool {
    !endless(data) && transport(data) is Ok
}

/// The number that the octets of `bytes` form, most significant first.
pub open spec fn big_endian(bytes: Seq<u8>) -> nat
    decreases bytes.len(),
{
    if bytes.len() == 0 {
        0
    } else {
        256 * big_endian(bytes.drop_last()) + bytes.last() as nat
    }
}

/// The IP address of a packet whose first octet stands at `v4` or at `v6`.
pub open spec fn ip_at(data: Seq<u8>, v4: int, v6: int) -> IpAddr {
    if version(data) == 4 {
        IpAddr::V4(big_endian(data.subrange(v4, v4 + 4)) as u32)
    } else {
        IpAddr::V6(big_endian(data.subrange(v6, v6 + 16)) as u128)
    }
}

pub open spec fn src_ip(data: Seq<u8>) -> IpAddr {
    ip_at(data, 12, 8)
}

pub open spec fn dst_ip(data: Seq<u8>) -> IpAddr {
    ip_at(data, 16, 24)
}

/// The port that stands `field` bytes into the transport header.
pub open spec fn port_at(data: Seq<u8>, field: int) -> u16 {
    let at = transport(data)->Ok_0.1 + field;
    (256 * data[at] + data[at + 1]) as u16
}

/// The direction that a packet travels in.
pub open spec fn connection_id(data: Seq<u8>) -> ConnectionId {
    ConnectionId {
        proto: transport(data)->Ok_0.0,
        src: SocketAddr::of(src_ip(data), port_at(data, 0)),
        dst: SocketAddr::of(dst_ip(data), port_at(data, 2)),
    }
}

/// How an executable walk along the headers ended.
enum Scan {
    Truncated,
    Fragment,
    Endless,
    Transport(u8, u128),
}

impl Scan {
    spec fn is_end_of(self, end: Chain) -> bool {
        match end {
            Chain::Truncated => self is Truncated,
            Chain::Fragment => self is Fragment,
            Chain::Endless => self is Endless,
            Chain::Transport(number, offset) => self matches Scan::Transport(n, o) && n == number
                && o == offset,
        }
    }
}

fn is_extension_header(number: u8) -> (result: bool)
    ensures
        result == extension_header(number),
{
    number == 0 || number == 43 || number == 44 || number == 50 || number == 51 || number == 60
        || number == 135 || number == 139 || number == 140
}

/// Follows the IPv6 extension headers of `data`.
fn scan_chain(data: &Vec<u8>) -> (result: Scan)
    requires
        data.len() >= 40,
    ensures
        result.is_end_of(chain(data@, data@[6], 40)),
{
    let len: u128 = data.len() as u128;
    let mut next: u8 = data[6];
    let mut offset: u128 = 40;
    while is_extension_header(next)
        invariant
            data.len() >= 40,
            len == data.len(),
            40 <= offset <= len + 2048,
            chain(data@, data@[6], 40) == chain(data@, next, offset as int),
        decreases
                len + 2048 - offset,
                if plain_extension_header(next) {
                    1int
                } else {
                    0int
                },
    {
        if len < offset + 8 {
            return Scan::Truncated;
        }
        if next == 44 {
            return Scan::Fragment;
        }
        let at: usize = offset as usize;
        let length: u8 = data[at + 1];
        if next == 51 {
            next = data[at];
            offset = offset + (length as u128 + 2) * 4;
        } else {
            next = data[at];
            if length == 0 && is_extension_header(next) && next != 44 && next != 51 {
                return Scan::Endless;
            }
            offset = offset + length as u128 * 8;
        }
    }
    Scan::Transport(next, offset)
}

/// Follows the headers of `data`.
fn scan_headers(data: &Vec<u8>) -> (result: Scan)
    ensures
        result.is_end_of(headers(data@)),
{
    if data.len() == 0 {
        return Scan::Truncated;
    }
    let version: u8 = data[0] / 16;
    if version == 4 {
        if data.len() < 20 {
            Scan::Truncated
        } else if data[6] % 64 != 0 || data[7] != 0 {
            Scan::Fragment
        } else {
            Scan::Transport(data[9], (data[0] % 16) as u128 * 4)
        }
    } else if version == 6 {
        if data.len() < 40 {
            Scan::Truncated
        } else {
            scan_chain(data)
        }
    } else {
        Scan::Truncated
    }
}

/// Whether the extension headers of `data` lead nowhere. Such bytes must be
/// kept away from every function that parses a packet.
pub fn is_endless(data: &Vec<u8>) -> (result: bool)
    ensures
        result == endless(data@),
{
    matches!(scan_headers(data), Scan::Endless)
}

/// The offset of the transport header.
pub(crate) fn transport_offset(data: &Vec<u8>) -> (offset: usize)
    requires
        parses(data@),
    ensures
        offset == transport(data@)->Ok_0.1,
        offset + 8 <= data.len(),
{
    proof {
        lemma_transport_bounds(data@);
        assert(transport(data@)->Ok_0.1 <= data.len());
    }
    match scan_headers(data) {
        Scan::Transport(_, offset) => offset as usize,
        _ => 0,
    }
}

/// A whole packet is long enough for the ports and, of a UDP packet, for the
/// header.
pub(crate) proof fn lemma_transport_bounds(data: Seq<u8>)
    requires
        parses(data),
    ensures
        data.len() >= 20,
        version(data) == 4 || version(data) == 6,
        version(data) == 6 ==> data.len() >= 40,
        0 <= transport(data)->Ok_0.1,
        transport(data)->Ok_0.1 + 8 <= data.len(),
{
    if version(data) == 6 {
        lemma_chain_offset(data, data[6], 40);
    }
}

/// The chain only leads onwards.
pub(crate) proof fn lemma_chain_offset(data: Seq<u8>, next: u8, offset: int)
    requires
        0 <= offset,
    ensures
        chain(data, next, offset) matches Chain::Transport(_, end) ==> offset <= end,
    decreases
            if offset < data.len() {
                data.len() - offset
            } else {
                0
            },
            if plain_extension_header(next) {
                1int
            } else {
                0int
            },
{
    if !extension_header(next) || data.len() < offset + 8 || next == 44 {
    } else if next == 51 {
        lemma_chain_offset(data, data[offset], offset + (data[offset + 1] + 2) * 4);
    } else if data[offset + 1] == 0 && plain_extension_header(data[offset]) {
    } else {
        lemma_chain_offset(data, data[offset], offset + data[offset + 1] * 8);
    }
}

/// Reads `count` octets of `data` from `from` on as a big-endian number.
fn read_big_endian(data: &Vec<u8>, from: usize, count: usize) -> (value: u128)
    requires
        from + count <= data.len(),
        count <= 16,
    ensures
        value == big_endian(data@.subrange(from as int, from + count)),
        value < pow256(count as nat),
{
    let mut value: u128 = 0;
    let mut i: usize = 0;
    while i < count
        invariant
            i <= count <= 16,
            from + count <= data.len(),
            value == big_endian(data@.subrange(from as int, from + i)),
            value < pow256(i as nat),
        decreases count - i,
    {
        proof {
            assert(data@.subrange(from as int, from + i + 1).drop_last() =~= data@.subrange(
                from as int,
                from + i,
            ));
            lemma_pow256_monotonic((i + 1) as nat, 16);
            lemma_pow256_values();
            assert(pow256((i + 1) as nat) == 256 * pow256(i as nat));
        }
        value = 256 * value + data[from + i] as u128;
        i = i + 1;
    }
    value
}

/// Reads the IP address at `v4` or `v6`, whichever the version calls for.
pub(crate) fn read_ip(data: &Vec<u8>, v4: usize, v6: usize) -> (ip: IpAddr)
    requires
        data.len() > 0,
        version(data@) == 4 ==> v4 + 4 <= data.len(),
        version(data@) != 4 ==> v6 + 16 <= data.len(),
    ensures
        ip == ip_at(data@, v4 as int, v6 as int),
{
    if data[0] / 16 == 4 {
        let value: u128 = read_big_endian(data, v4, 4);
        proof {
            lemma_pow256_values();
        }
        IpAddr::V4(value as u32)
    } else {
        IpAddr::V6(read_big_endian(data, v6, 16))
    }
}

/// A number is below the next power of its base.
proof fn lemma_big_endian_bound(bytes: Seq<u8>)
    ensures
        big_endian(bytes) < pow256(bytes.len()),
    decreases bytes.len(),
{
    if bytes.len() > 0 {
        lemma_big_endian_bound(bytes.drop_last());
    }
}

proof fn lemma_pow256_positive(exponent: nat)
    ensures
        pow256(exponent) > 0,
    decreases exponent,
{
    if exponent > 0 {
        lemma_pow256_positive((exponent - 1) as nat);
    }
}

/// Each octet of a number can be read off it.
proof fn lemma_octet(bytes: Seq<u8>, k: int)
    requires
        0 <= k < bytes.len(),
    ensures
        big_endian(bytes) as int / pow256((bytes.len() - 1 - k) as nat) as int % 256 == bytes[k],
    decreases bytes.len(),
{
    let init = bytes.drop_last();
    let value = big_endian(bytes) as int;
    let rest = big_endian(init) as int;
    assert(value == 256 * rest + bytes.last());
    if k == bytes.len() - 1 {
        assert(pow256(0) == 1);
        assert(value / 1 == value);
    } else {
        lemma_octet(init, k);
        let power = pow256((init.len() - 1 - k) as nat) as int;
        lemma_pow256_positive((init.len() - 1 - k) as nat);
        assert(pow256((bytes.len() - 1 - k) as nat) == 256 * power);
        vstd::arithmetic::div_mod::lemma_div_denominator(value, 256, power);
        assert(value / 256 == rest);
    }
}

/// The octet of an IPv6 address with `k` octets before it.
pub open spec fn octet(ip: u128, k: int) -> int {
    ip as int / pow256((15 - k) as nat) as int % 256
}

/// The connection of an IPv4 packet is read from its bytes: the source address
/// from the thirteenth on, the destination address from the seventeenth on, the
/// ports from the beginning of the transport header on.
pub proof fn lemma_ipv4_connection_is_read_from_the_bytes(data: Seq<u8>)
    requires
        parses(data),
        data[0] as int / 16 == 4,
    ensures
        ({
            let (proto, offset) = transport(data)->Ok_0;
            let id = connection_id(data);
            &&& id.proto == proto
            &&& id.src matches SocketAddr::V4(src)
            &&& src.ip == 0x100_0000 * data[12] + 0x1_0000 * data[13] + 0x100 * data[14] + data[15]
            &&& src.port == 256 * data[offset] + data[offset + 1]
            &&& id.dst matches SocketAddr::V4(dst)
            &&& dst.ip == 0x100_0000 * data[16] + 0x1_0000 * data[17] + 0x100 * data[18] + data[19]
            &&& dst.port == 256 * data[offset + 2] + data[offset + 3]
        }),
{
    lemma_transport_bounds(data);
    lemma_four_octets(data, 12);
    lemma_four_octets(data, 16);
}

proof fn lemma_four_octets(data: Seq<u8>, at: int)
    requires
        0 <= at,
        at + 4 <= data.len(),
    ensures
        big_endian(data.subrange(at, at + 4)) == 0x100_0000 * data[at] + 0x1_0000 * data[at + 1]
            + 0x100 * data[at + 2] + data[at + 3],
{
    let bytes = data.subrange(at, at + 4);
    reveal_with_fuel(big_endian, 5);
    assert(bytes.drop_last().drop_last().drop_last().drop_last() =~= Seq::empty());
}

/// The connection of an IPv6 packet is read from its bytes: the source address
/// from the ninth on, the destination address from the twenty-fifth on, the
/// ports from the beginning of the transport header on. It has no flow and no
/// scope.
pub proof fn lemma_ipv6_connection_is_read_from_the_bytes(data: Seq<u8>)
    requires
        parses(data),
        data[0] as int / 16 == 6,
    ensures
        ({
            let (proto, offset) = transport(data)->Ok_0;
            let id = connection_id(data);
            &&& id.proto == proto
            &&& id.src matches SocketAddr::V6(src)
            &&& forall|k: int| 0 <= k < 16 ==> #[trigger] octet(src.ip, k) == data[8 + k]
            &&& src.flowinfo == 0
            &&& src.scope_id == 0
            &&& src.port == 256 * data[offset] + data[offset + 1]
            &&& id.dst matches SocketAddr::V6(dst)
            &&& forall|k: int| 0 <= k < 16 ==> #[trigger] octet(dst.ip, k) == data[24 + k]
            &&& dst.flowinfo == 0
            &&& dst.scope_id == 0
            &&& dst.port == 256 * data[offset + 2] + data[offset + 3]
        }),
{
    lemma_transport_bounds(data);
    lemma_sixteen_octets(data, 8);
    lemma_sixteen_octets(data, 24);
}

proof fn lemma_sixteen_octets(data: Seq<u8>, at: int)
    requires
        0 <= at,
        at + 16 <= data.len(),
    ensures
        forall|k: int|
            0 <= k < 16 ==> #[trigger] octet(
                big_endian(data.subrange(at, at + 16)) as u128,
                k,
            ) == data[at + k],
{
    let bytes = data.subrange(at, at + 16);
    lemma_big_endian_bound(bytes);
    lemma_pow256_values();
    assert forall|k: int| 0 <= k < 16 implies #[trigger] octet(big_endian(bytes) as u128, k)
        == data[at + k] by {
        lemma_octet(bytes, k);
    }
}

/// What an IPv4 packet is: one with a whole header, no fragment, of protocol 6 or
/// 17, whose transport header comes after as many 4-byte words as the header
/// says, and is whole.
pub proof fn lemma_ipv4_packets(data: Seq<u8>)
    requires
        data.len() > 0,
        data[0] as int / 16 == 4,
    ensures
        !endless(data),
        data.len() < 20 ==> transport(data) == Err::<(TransportProtocol, int), _>(
            ParseError::Malformed,
        ),
        data.len() >= 20 && (data[6] % 64 != 0 || data[7] != 0) ==> transport(data) == Err::<
            (TransportProtocol, int),
            _,
        >(ParseError::Fragmented),
        data.len() >= 20 && data[6] % 64 == 0 && data[7] == 0 ==> ({
            let offset = (data[0] % 16) * 4;
            &&& data[9] != 6 && data[9] != 17 ==> transport(data) == Err::<
                (TransportProtocol, int),
                _,
            >(ParseError::UnknownTransportProtocol(data[9]))
            &&& data[9] == 17 ==> transport(data) == if data.len() >= offset + 8 {
                Ok((TransportProtocol::Udp, offset))
            } else {
                Err(ParseError::Malformed)
            }
            &&& data[9] == 6 ==> transport(data) == if data.len() > offset + 12 && data.len()
                >= offset + data[offset + 12] as int / 16 * 4 {
                Ok((TransportProtocol::Tcp, offset))
            } else {
                Err(ParseError::Malformed)
            }
        }),
{
}

/// What an IPv6 packet without extension headers is.
pub proof fn lemma_ipv6_packets(data: Seq<u8>)
    requires
        data.len() > 0,
        data[0] as int / 16 == 6,
    ensures
        data.len() < 40 ==> !endless(data) && transport(data) == Err::<(TransportProtocol, int), _>(
            ParseError::Malformed,
        ),
        data.len() >= 40 && data[6] == 17 ==> !endless(data) && transport(data) == if data.len()
            >= 48 {
            Ok((TransportProtocol::Udp, 40int))
        } else {
            Err(ParseError::Malformed)
        },
        data.len() >= 40 && data[6] == 6 ==> !endless(data) && transport(data) == if data.len() > 52
            && data.len() >= 40 + data[52] as int / 16 * 4 {
            Ok((TransportProtocol::Tcp, 40int))
        } else {
            Err(ParseError::Malformed)
        },
        data.len() >= 48 && data[6] == 44 ==> !endless(data) && transport(data) == Err::<
            (TransportProtocol, int),
            _,
        >(ParseError::Fragmented),
{
}

/// An extension header is passed by its length: four bytes for each unit and two
/// more of the authentication header, eight bytes for each unit of the others.
pub proof fn lemma_extension_headers_are_passed(data: Seq<u8>, next: u8, offset: int)
    requires
        0 <= offset,
        offset + 8 <= data.len(),
    ensures
        next == 51 ==> chain(data, next, offset) == chain(
            data,
            data[offset],
            offset + 8 + 4 * data[offset + 1],
        ),
        (next == 0 || next == 43 || next == 50 || next == 60 || next == 135 || next == 139 || next
            == 140) && data[offset + 1] > 0 ==> chain(data, next, offset) == chain(
            data,
            data[offset],
            offset + 8 * data[offset + 1],
        ),
        next == 44 ==> chain(data, next, offset) is Fragment,
        next == 6 || next == 17 ==> chain(data, next, offset) == Chain::Transport(next, offset),
{
}

/// Bytes of any other version are no packet.
pub proof fn lemma_other_versions_are_malformed(data: Seq<u8>)
    requires
        data.len() > 0 ==> data[0] as int / 16 != 4 && data[0] as int / 16 != 6,
    ensures
        transport(data) == Err::<(TransportProtocol, int), _>(ParseError::Malformed),
        !endless(data),
{
}

/// A number is zero if all its octets are.
proof fn lemma_big_endian_zero(bytes: Seq<u8>)
    ensures
        big_endian(bytes) == 0 <==> forall|k: int| 0 <= k < bytes.len() ==> #[trigger] bytes[k] == 0,
    decreases bytes.len(),
{
    if bytes.len() > 0 {
        let init = bytes.drop_last();
        lemma_big_endian_zero(init);
        assert forall|k: int| 0 <= k < init.len() implies #[trigger] init[k] == bytes[k] by {}
        if big_endian(bytes) == 0 {
            assert forall|k: int| 0 <= k < bytes.len() implies #[trigger] bytes[k] == 0 by {
                if k < init.len() {
                    assert(init[k] == 0);
                }
            }
        }
    }
}

/// What the sixteen octets from `at` on say of the address that they form.
pub(crate) proof fn lemma_ipv6_address_of_octets(data: Seq<u8>, at: int)
    requires
        0 <= at,
        at + 16 <= data.len(),
    ensures
        ({
            let ip = big_endian(data.subrange(at, at + 16)) as u128;
            &&& ip / 0x100_0000_0000_0000_0000_0000_0000_0000 == data[at]
            &&& ip == 1 <==> data[at + 15] == 1 && forall|k: int|
                at <= k < at + 15 ==> #[trigger] data[k] == 0
        }),
{
    let bytes = data.subrange(at, at + 16);
    let init = bytes.drop_last();
    let ip = big_endian(bytes) as u128;
    lemma_big_endian_bound(bytes);
    lemma_pow256_values();
    assert(pow256(16) == 256 * pow256(15));
    lemma_octet(bytes, 0);
    lemma_big_endian_zero(init);
    assert forall|k: int| 0 <= k < 15 implies #[trigger] init[k] == data[at + k] by {}
    if ip == 1 {
        assert forall|k: int| at <= k < at + 15 implies #[trigger] data[k] == 0 by {
            assert(init[k - at] == 0);
        }
    }
    if data[at + 15] == 1 && forall|k: int| at <= k < at + 15 ==> #[trigger] data[k] == 0 {
        assert forall|k: int| 0 <= k < init.len() implies #[trigger] init[k] == 0 by {
            assert(data[at + k] == 0);
        }
    }
}

/// Only an IPv6 packet can lead nowhere, and only by an extension header of
/// length zero that names another extension header.
pub proof fn lemma_what_leads_nowhere(data: Seq<u8>, next: u8, offset: int)
    requires
        0 <= offset,
    ensures
        endless(data) ==> data.len() >= 48 && data[0] as int / 16 == 6,
        chain(data, next, offset) is Endless ==> exists|k: int|
            {
                &&& offset <= k <= data.len() - 8
                &&& (#[trigger] data[k + 1]) == 0
                &&& data[k] == 0 || data[k] == 43 || data[k] == 50 || data[k] == 60 || data[k] == 135
                    || data[k] == 139 || data[k] == 140
            },
    decreases
            if offset < data.len() {
                data.len() - offset
            } else {
                0
            },
            if plain_extension_header(next) {
                1int
            } else {
                0int
            },
{
    if !extension_header(next) || data.len() < offset + 8 || next == 44 {
    } else if next == 51 {
        lemma_what_leads_nowhere(data, data[offset], offset + (data[offset + 1] + 2) * 4);
    } else if data[offset + 1] == 0 && plain_extension_header(data[offset]) {
        assert(data[offset + 1] == 0);
    } else {
        lemma_what_leads_nowhere(data, data[offset], offset + data[offset + 1] * 8);
    }
}

} // verus!

use windows_redirector::addr::{IpAddr, SocketAddr, SocketAddrV4, SocketAddrV6};
use windows_redirector::checksum::can_add_up;
use windows_redirector::header::is_endless;
use windows_redirector::packet::Packet;
use windows_redirector::protocol::{ConnectionId, ParseError, TransportProtocol};
use windows_redirector::renewal::ValidChecksums;

const IPV4_TCP_SYN: &str = "45000034d14b4000800680e0c0a8b2145db8d822d92100508ad94999000000008002faf01da30000020405b40103030801010402";
const IPV6_DNS_REQ: &str = "60000000003c33403ffe050700000001020086fffe0580da3ffe050148190000000000000000004211040000000009070000010bbc09dd98f9b0b12e647f4454095c00350024f0090006010000010000000000000669746f6a756e036f72670000ff0001";
const IPV4_TCP_ACK_WITH_PADDING: &str =
    "4500002869330000320676a85db8d822c0a8b2710050d5224e95b5f3e586c974501000807d6800000000";
const IPV4_FRAG_1: &str = "450005dcd0fe2000401109e6c118e3eeacd9284c";
const IPV4_FRAG_2: &str = "450000fad0fe00b940112e0fc118e3eeacd9284c";
const IPV6_FRAG_1: &str = "600787fd05b02c4020010470765b0000000000000a2500532a00145040130c03000000000000010a1100000128403c0b";
const IPV6_FRAG_2: &str = "600787fd00452c4020010470765b0000000000000a2500532a00145040130c03000000000000010a110005a828403c0b";

const NONE_VALID: ValidChecksums = ValidChecksums { ip: false, tcp: false, udp: false };
const ALL_VALID: ValidChecksums = ValidChecksums { ip: true, tcp: true, udp: true };

fn decode(hex: &str) -> Vec<u8> {
    (0..hex.len() / 2).map(|i| u8::from_str_radix(&hex[2 * i..2 * i + 2], 16).unwrap()).collect()
}

fn parse(data: Vec<u8>) -> Packet {
    assert!(!is_endless(&data));
    Packet::parse(data).unwrap()
}

fn error_of(data: Vec<u8>) -> ParseError {
    assert!(!is_endless(&data));
    Packet::parse(data).unwrap_err()
}

fn renewed(data: Vec<u8>, valid: ValidChecksums) -> Vec<u8> {
    let packet = parse(data);
    assert!(packet.can_renew_checksums(valid));
    packet.renew_checksums(valid)
}

/// 10.0.0.1:1000 to 10.0.0.2:53, with blank checksums.
fn udp_packet(payload: &[u8]) -> Vec<u8> {
    let len = 28 + payload.len();
    let mut data = vec![
        0x45, 0, (len / 256) as u8, (len % 256) as u8, 0, 0, 0, 0, 64, 17, 0, 0, 10, 0, 0, 1, 10,
        0, 0, 2,
    ];
    let segment = 8 + payload.len();
    data.extend([3, 0xe8, 0, 53, (segment / 256) as u8, (segment % 256) as u8, 0, 0]);
    data.extend(payload);
    data
}

/// An IPv6 UDP packet whose first header is `next`, followed by `headers`.
fn ipv6_packet(next: u8, headers: &[u8]) -> Vec<u8> {
    let mut data = vec![0x60, 0, 0, 0, 0, (headers.len() + 8) as u8, next, 64];
    data.extend([0u8; 15]);
    data.push(2);
    data.extend([0u8; 15]);
    data.push(3);
    data.extend(headers);
    data.extend([3, 0xe8, 0, 53, 0, 8, 0, 0]);
    data
}

#[test]
fn ipv4_tcp_packet_is_parsed() {
    let data = decode(IPV4_TCP_SYN);
    let packet = parse(data.clone());
    assert_eq!(
        packet.connection_id(),
        ConnectionId {
            proto: TransportProtocol::Tcp,
            src: SocketAddr::V4(SocketAddrV4 { ip: 0xc0a8_b214, port: 55585 }),
            dst: SocketAddr::V4(SocketAddrV4 { ip: 0x5db8_d822, port: 80 }),
        }
    );
    assert_eq!(packet.inner(), data);
}

#[test]
fn ipv6_udp_packet_is_parsed_behind_its_extension_header() {
    let data = decode(IPV6_DNS_REQ);
    let packet = parse(data.clone());
    assert_eq!(
        packet.connection_id(),
        ConnectionId {
            proto: TransportProtocol::Udp,
            src: SocketAddr::V6(SocketAddrV6 {
                ip: 0x3ffe_0507_0000_0001_0200_86ff_fe05_80da,
                port: 2396,
                flowinfo: 0,
                scope_id: 0,
            }),
            dst: SocketAddr::V6(SocketAddrV6 {
                ip: 0x3ffe_0501_4819_0000_0000_0000_0000_0042,
                port: 53,
                flowinfo: 0,
                scope_id: 0,
            }),
        }
    );
    assert_eq!(packet.inner(), data);
}

#[test]
fn padding_is_kept() {
    let data = decode(IPV4_TCP_ACK_WITH_PADDING);
    let packet = parse(data.clone());
    assert_eq!(packet.connection_id().src.port(), 80);
    assert_eq!(packet.connection_id().dst.port(), 54562);
    assert_eq!(packet.inner(), data);
}

#[test]
fn packets_that_end_early_are_malformed() {
    assert_eq!(error_of(vec![]), ParseError::Malformed);
    assert_eq!(error_of(vec![0x45; 19]), ParseError::Malformed);
    assert_eq!(error_of(vec![0x60; 39]), ParseError::Malformed);
    assert_eq!(error_of(vec![0x50; 60]), ParseError::Malformed);
    let syn = decode(IPV4_TCP_SYN);
    for len in 20..52 {
        assert_eq!(error_of(syn[..len].to_vec()), ParseError::Malformed);
    }
    let udp = udp_packet(&[]);
    assert_eq!(error_of(udp[..27].to_vec()), ParseError::Malformed);
    assert!(Packet::parse(udp).is_ok());
    // The extension header is cut off.
    assert_eq!(error_of(decode(IPV6_DNS_REQ)[..47].to_vec()), ParseError::Malformed);
}

#[test]
fn fragments_are_refused() {
    assert_eq!(error_of(decode(IPV4_FRAG_1)), ParseError::Fragmented);
    assert_eq!(error_of(decode(IPV4_FRAG_2)), ParseError::Fragmented);
    assert_eq!(error_of(decode(IPV6_FRAG_1)), ParseError::Fragmented);
    assert_eq!(error_of(decode(IPV6_FRAG_2)), ParseError::Fragmented);
}

#[test]
fn dont_fragment_is_no_fragment() {
    let mut udp = udp_packet(&[]);
    udp[6] = 0x40;
    assert!(Packet::parse(udp).is_ok());
}

#[test]
fn other_protocols_are_refused() {
    let mut icmp = udp_packet(&[]);
    icmp[9] = 1;
    assert_eq!(error_of(icmp), ParseError::UnknownTransportProtocol(1));
    assert_eq!(
        error_of(ipv6_packet(59, &[])),
        ParseError::UnknownTransportProtocol(59)
    );
}

#[test]
fn extension_headers_are_followed() {
    // The length byte of a plain header counts its 8-byte units.
    let packet = parse(ipv6_packet(60, &[17, 1, 0, 0, 0, 0, 0, 0]));
    assert_eq!(packet.connection_id().src.port(), 1000);
    assert_eq!(packet.connection_id().src.ip(), IpAddr::V6(2));
    assert_eq!(packet.connection_id().dst.ip(), IpAddr::V6(3));
    // That of an authentication header counts 4-byte units less two.
    let packet = parse(ipv6_packet(51, &[17, 1, 0, 0, 0, 0, 0, 0, 0, 0, 0, 0]));
    assert_eq!(packet.connection_id().dst.port(), 53);
    // One after the other.
    let packet = parse(ipv6_packet(0, &[60, 1, 0, 0, 0, 0, 0, 0, 17, 1, 0, 0, 0, 0, 0, 0]));
    assert_eq!(packet.connection_id().dst.port(), 53);
}

#[test]
fn extension_headers_that_lead_nowhere_are_found() {
    assert!(is_endless(&ipv6_packet(60, &[60, 0, 0, 0, 0, 0, 0, 0])));
    assert!(is_endless(&ipv6_packet(0, &[43, 0, 0, 0, 0, 0, 0, 0])));
    // An authentication header is at least eight bytes long.
    assert!(!is_endless(&ipv6_packet(51, &[51, 0, 0, 0, 0, 0, 0, 0])));
    // A header of no length that names a transport protocol ends the chain.
    assert!(!is_endless(&ipv6_packet(60, &[17, 0, 0, 0, 0, 0, 0, 0])));
    assert!(!is_endless(&udp_packet(&[])));
    assert!(!is_endless(&vec![]));
}

#[test]
fn ip_checksum_is_renewed() {
    let raw = decode(IPV4_TCP_SYN);
    let mut blurred = raw.clone();
    blurred[10..12].copy_from_slice(&[0xab, 0xcd]);
    let valid = ValidChecksums { ip: false, tcp: true, udp: true };
    assert_eq!(renewed(blurred, valid), raw);
}

#[test]
fn tcp_checksum_is_renewed() {
    let raw = decode(IPV4_TCP_SYN);
    let mut blurred = raw.clone();
    blurred[36..38].copy_from_slice(&[0xab, 0xcd]);
    let valid = ValidChecksums { ip: true, tcp: false, udp: true };
    assert_eq!(renewed(blurred.clone(), valid), raw);
    // The other checksums are not its business.
    let valid = ValidChecksums { ip: false, tcp: true, udp: false };
    assert_eq!(renewed(blurred.clone(), valid), blurred);
}

#[test]
fn udp_checksum_is_renewed() {
    let raw = decode(IPV6_DNS_REQ);
    let mut blurred = raw.clone();
    blurred[70..72].copy_from_slice(&[0xab, 0xcd]);
    let valid = ValidChecksums { ip: true, tcp: true, udp: false };
    assert_eq!(renewed(blurred.clone(), valid), raw);
    let valid = ValidChecksums { ip: false, tcp: false, udp: true };
    assert_eq!(renewed(blurred.clone(), valid), blurred);
}

#[test]
fn odd_segment_is_completed_by_a_zero_byte() {
    let mut expected = udp_packet(&[1, 2, 3]);
    expected[10..12].copy_from_slice(&[0x66, 0xcc]);
    expected[26..28].copy_from_slice(&[0xe3, 0xb6]);
    assert_eq!(renewed(udp_packet(&[1, 2, 3]), NONE_VALID), expected);
}

#[test]
fn valid_checksums_stay() {
    let mut blurred = decode(IPV4_TCP_SYN);
    blurred[10..12].copy_from_slice(&[0xab, 0xcd]);
    blurred[36..38].copy_from_slice(&[0xab, 0xcd]);
    assert_eq!(renewed(blurred.clone(), ALL_VALID), blurred);
}

/// The ones' complement sum of the 16-bit words.
fn folded(bytes: &[u8]) -> u32 {
    let mut sum: u32 = 0;
    for word in bytes.chunks(2) {
        sum += u32::from(word[0]) * 256 + u32::from(*word.get(1).unwrap_or(&0));
        sum = sum % 0x1_0000 + sum / 0x1_0000;
    }
    sum
}

#[test]
fn renewed_checksums_sum_to_zero() {
    let data = renewed(udp_packet(&[7; 201]), NONE_VALID);
    assert_eq!(folded(&data[..20]), 0xffff);
    let mut covered = data[12..20].to_vec();
    covered.extend([0, 17, 0, 209]);
    covered.extend(&data[20..]);
    assert_eq!(folded(&covered), 0xffff);
}

#[test]
fn renewing_keeps_the_connection() {
    for data in [decode(IPV4_TCP_SYN), decode(IPV6_DNS_REQ), udp_packet(&[9; 100])] {
        let id = parse(data.clone()).connection_id();
        let after = renewed(data.clone(), NONE_VALID);
        assert_eq!(after.len(), data.len());
        assert_eq!(parse(after).connection_id(), id);
    }
}

#[test]
fn tcp_header_without_checksum_field_cannot_be_renewed() {
    let mut data = decode(IPV4_TCP_SYN)[..37].to_vec();
    // A header that claims to be no longer than its first eight bytes.
    data[32] = 0x20;
    let packet = parse(data);
    assert!(!packet.can_renew_checksums(NONE_VALID));
    assert!(packet.can_renew_checksums(ALL_VALID));
    assert!(packet.can_renew_checksums(ValidChecksums { ip: false, tcp: true, udp: false }));
}

#[test]
fn segment_that_overruns_the_adder_cannot_be_renewed() {
    let mut payload = vec![0; 8];
    payload.extend([0xff; 16]);
    payload.extend(decode("e9c3fecaffbfffffffffffffffffffff"));
    payload.extend([0; 16]);
    let packet = parse(udp_packet(&payload));
    assert!(!packet.can_renew_checksums(NONE_VALID));
    payload[24] -= 1;
    let packet = parse(udp_packet(&payload));
    assert!(packet.can_renew_checksums(NONE_VALID));
}

#[test]
fn short_or_ordinary_bytes_add_up() {
    assert!(can_add_up(&vec![0xff; 63], 0, u64::MAX));
    assert!(can_add_up(&vec![0; 64], 0, 0));
    assert!(can_add_up(&vec![], 0, 5));
    assert!(can_add_up(&vec![1; 200], 7, 12345));
    // One carry, and then no room for it.
    let mut bytes = vec![0xff; 8];
    bytes.extend([0xff; 8]);
    bytes.extend([0; 48]);
    assert!(!can_add_up(&bytes, 0, 1));
}

#[test]
fn protocols_have_their_numbers() {
    assert_eq!(TransportProtocol::try_from(6), Ok(TransportProtocol::Tcp));
    assert_eq!(TransportProtocol::try_from(17), Ok(TransportProtocol::Udp));
    for value in 0..=255u8 {
        if value != 6 && value != 17 {
            assert_eq!(
                TransportProtocol::try_from(value),
                Err(ParseError::UnknownTransportProtocol(value))
            );
        }
    }
}

#[test]
fn reversing_twice_leads_back() {
    let id = parse(decode(IPV4_TCP_SYN)).connection_id();
    assert_eq!(id.reverse().src, id.dst);
    assert_eq!(id.reverse().dst, id.src);
    assert_eq!(id.reverse().proto, id.proto);
    assert_eq!(id.reverse().reverse(), id);
    assert_ne!(id.reverse(), id);
}

#[test]
fn addresses_are_classified() {
    assert!(!IpAddr::V4(0xdfff_ffff).is_multicast());
    assert!(IpAddr::V4(0xe000_0000).is_multicast());
    assert!(IpAddr::V4(0xefff_ffff).is_multicast());
    assert!(!IpAddr::V4(0xf000_0000).is_multicast());
    assert!(!IpAddr::V6(0xfeff_ffff_ffff_ffff_ffff_ffff_ffff_ffff).is_multicast());
    assert!(IpAddr::V6(0xff00_0000_0000_0000_0000_0000_0000_0000).is_multicast());
    assert!(IpAddr::V4(0x7f00_0000).is_loopback());
    assert!(IpAddr::V4(0x7fff_ffff).is_loopback());
    assert!(!IpAddr::V4(0x8000_0000).is_loopback());
    assert!(IpAddr::V6(1).is_loopback());
    assert!(!IpAddr::V6(0x7f00_0001).is_loopback());
    assert!(IpAddr::V4(0).is_unspecified());
    assert!(IpAddr::V6(0).is_unspecified());
    assert!(!IpAddr::V4(1).is_unspecified());
    assert!(!IpAddr::V6(1).is_unspecified());
}

#[test]
fn set_ip_reads_back() {
    let v6 = SocketAddr::V6(SocketAddrV6 { ip: 9, port: 80, flowinfo: 3, scope_id: 4 });
    let mut address = v6;
    address.set_ip(IpAddr::V6(10));
    assert_eq!(
        address,
        SocketAddr::V6(SocketAddrV6 { ip: 10, port: 80, flowinfo: 3, scope_id: 4 })
    );
    address.set_ip(IpAddr::V4(11));
    assert_eq!(address, SocketAddr::V4(SocketAddrV4 { ip: 11, port: 80 }));
    address.set_ip(IpAddr::V6(12));
    assert_eq!(address, SocketAddr::new(IpAddr::V6(12), 80));
    assert_eq!(address.ip(), IpAddr::V6(12));
    assert_eq!(address.port(), 80);
    let mut unchanged = v6;
    unchanged.set_ip(v6.ip());
    assert_eq!(unchanged, v6);
}

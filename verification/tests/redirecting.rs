use windows_redirector::addr::{IpAddr, SocketAddr};
use windows_redirector::connections::Placement;
use windows_redirector::dispatch::{Dispatch, Effect};
use windows_redirector::event::{
    NetworkAddress, NetworkTableEntry, SocketAddress, WinDivertEvent,
};
use windows_redirector::packet::Packet;
use windows_redirector::process::{ConnectionAction, ProcessInfo};
use windows_redirector::protocol::{ConnectionId, TransportProtocol};
use windows_redirector::redirector::{
    ConfChangeError, Event, Frontend, Redirector, Step, SYSTEM_PID,
};
use windows_redirector::renewal::ValidChecksums;

const FRONTENDS: [Frontend; 3] = [Frontend::Server, Frontend::Callback, Frontend::Direct];

fn ip(last: u8) -> u32 {
    0x0a00_0000 + u32::from(last)
}

/// From port 1000 of `src` to port 53 of `dst`, with blank checksums.
fn udp(src: u32, dst: u32, payload: u8) -> Vec<u8> {
    let mut data = vec![0x45, 0, 0, 29, 0, 0, 0, 0, 64, 17, 0, 0];
    data.extend(src.to_be_bytes());
    data.extend(dst.to_be_bytes());
    data.extend([3, 0xe8, 0, 53, 0, 9, 0, 0, payload]);
    data
}

fn id(src: u32, dst: u32) -> ConnectionId {
    ConnectionId {
        proto: TransportProtocol::Udp,
        src: SocketAddr::new(IpAddr::V4(src), 1000),
        dst: SocketAddr::new(IpAddr::V4(dst), 53),
    }
}

fn address(outbound: bool) -> NetworkAddress {
    NetworkAddress {
        timestamp: 77,
        event: WinDivertEvent::NetworkPacket,
        sniffed: false,
        outbound,
        loopback: false,
        impostor: false,
        ipv6: false,
        checksums: ValidChecksums { ip: false, tcp: false, udp: false },
        interface_index: 3,
        subinterface_index: 0,
    }
}

fn socket(event: WinDivertEvent, process_id: u32, local: u32, remote: u32) -> SocketAddress {
    SocketAddress {
        event,
        process_id,
        protocol: 17,
        local_address: IpAddr::V4(local),
        local_port: 1000,
        remote_address: IpAddr::V4(remote),
        remote_port: 53,
    }
}

fn listening(event: WinDivertEvent, process_id: u32, local: u32) -> SocketAddress {
    SocketAddress {
        event,
        process_id,
        protocol: 17,
        local_address: IpAddr::V4(local),
        local_port: 53,
        remote_address: IpAddr::V4(0),
        remote_port: 0,
    }
}

fn process(pid: u32) -> ProcessInfo {
    ProcessInfo { pid, process_name: Some("curl".to_string()) }
}

fn row(protocol: u8, local: u32, remote: u32, pid: u32, intercept: bool) -> NetworkTableEntry {
    NetworkTableEntry {
        protocol,
        local_addr: SocketAddr::new(IpAddr::V4(local), if remote == 0 { 53 } else { 1000 }),
        remote_addr: SocketAddr::new(IpAddr::V4(remote), if remote == 0 { 0 } else { 53 }),
        process_info: process(pid),
        intercept,
    }
}

fn handle(redirector: &mut Redirector<u8>, event: Event<u8>) -> Step {
    assert!(event.is_digestible());
    redirector.handle_event(event)
}

fn sent(step: Step) -> Vec<Dispatch> {
    match step {
        Step::Process(dispatches) => dispatches,
        other => panic!("{other:?}"),
    }
}

fn arrives(redirector: &mut Redirector<u8>, outbound: bool, data: Vec<u8>) -> Step {
    handle(redirector, Event::NetworkPacket(address(outbound), data))
}

fn effects(dispatches: Vec<Dispatch>) -> Vec<Effect> {
    dispatches
        .into_iter()
        .map(|dispatch| {
            assert!(dispatch.is_processable());
            dispatch.process_packet()
        })
        .collect()
}

/// The payload bytes, each with the process if the packet is delivered.
fn outcome(dispatches: Vec<Dispatch>) -> Vec<(u8, Option<u32>)> {
    effects(dispatches)
        .into_iter()
        .map(|effect| match effect {
            Effect::Inject { data, .. } => (data[28], None),
            Effect::Deliver { data, process_info } => (data[28], Some(process_info.pid)),
        })
        .collect()
}

#[test]
fn error_ends_all_but_the_callback_frontend() {
    assert!(Frontend::Server.is_ended_by_error());
    assert!(!Frontend::Callback.is_ended_by_error());
    assert!(Frontend::Direct.is_ended_by_error());
}

#[test]
fn callback_frontend_is_not_failed() {
    for table in [None, Some(vec![row(41, ip(1), ip(4), 11, true)])] {
        let mut redirector = Redirector::new(Frontend::Callback, 0);
        let step = handle(&mut redirector, Event::InterceptConf(1, table));
        assert!(sent(step).is_empty());
    }
}

#[test]
fn configuration_changes_are_announced() {
    assert_eq!(Event::InterceptConf(7u8, None).announces(), Some(&7));
    assert_eq!(Event::InterceptConf(8u8, Some(vec![])).announces(), Some(&8));
    let connect = socket(WinDivertEvent::SocketConnect, 99, ip(1), ip(2));
    assert_eq!(Event::<u8>::SocketInfo(connect).announces(), None);
    assert_eq!(Event::<u8>::NetworkPacket(address(true), vec![]).announces(), None);
    assert_eq!(Event::<u8>::PacketToInject(vec![]).announces(), None);
}

#[test]
fn configuration_is_kept() {
    let redirector = Redirector::new(Frontend::Server, 5u8);
    assert_eq!(*redirector.conf(), 5);
}

#[test]
fn malformed_packet_is_dropped() {
    for frontend in FRONTENDS {
        let mut redirector = Redirector::new(frontend, 0);
        assert!(sent(arrives(&mut redirector, true, vec![0x45; 12])).is_empty());
        assert!(sent(arrives(&mut redirector, false, vec![])).is_empty());
    }
}

#[test]
fn endless_packet_is_not_digestible() {
    let mut data = vec![0x60, 0, 0, 0, 0, 8, 60, 64];
    data.extend([0; 32]);
    data.extend([60, 0, 0, 0, 0, 0, 0, 0]);
    assert!(!Event::<u8>::NetworkPacket(address(true), data.clone()).is_digestible());
    assert!(!Event::<u8>::PacketToInject(data).is_digestible());
    assert!(Event::<u8>::PacketToInject(vec![]).is_digestible());
    assert!(Event::InterceptConf(1u8, None).is_digestible());
}

#[test]
fn multicast_and_loopback_packets_pass_through() {
    let mut redirector = Redirector::new(Frontend::Callback, 0);
    for (src, dst) in [
        (ip(1), 0xe000_00fb),
        (0xe000_00fb, ip(1)),
        (0x7f00_0001, 0x7f00_0002),
    ] {
        for outbound in [true, false] {
            let data = udp(src, dst, 5);
            let step = arrives(&mut redirector, outbound, data.clone());
            let mut done = effects(sent(step));
            assert_eq!(done.len(), 1);
            match done.remove(0) {
                Effect::Inject { address: a, data: d } => {
                    assert_eq!(a, address(outbound));
                    assert_eq!(d, data);
                }
                other => panic!("{other:?}"),
            }
        }
    }
    // One loopback address is not enough.
    assert!(sent(arrives(&mut redirector, true, udp(0x7f00_0001, ip(1), 5))).is_empty());
}

#[test]
fn outbound_packets_wait_for_their_socket() {
    for frontend in FRONTENDS {
        let mut redirector = Redirector::new(frontend, 0);
        assert!(sent(arrives(&mut redirector, true, udp(ip(1), ip(2), 5))).is_empty());
        assert!(sent(arrives(&mut redirector, true, udp(ip(1), ip(2), 6))).is_empty());
        let connect = socket(WinDivertEvent::SocketConnect, 99, ip(1), ip(2));
        match handle(&mut redirector, Event::SocketInfo(connect)) {
            Step::Connect(pid, connection) => {
                assert_eq!(pid, 99);
                assert_eq!(connection, id(ip(1), ip(2)));
            }
            other => panic!("{other:?}"),
        }
        let released = redirector.resolve_connection(id(ip(1), ip(2)), process(99), true);
        assert_eq!(outcome(released), vec![(5, Some(99)), (6, Some(99))]);
        let next = sent(arrives(&mut redirector, true, udp(ip(1), ip(2), 7)));
        assert_eq!(outcome(next), vec![(7, Some(99))]);
    }
}

#[test]
fn connection_of_other_process_is_forwarded() {
    let mut redirector = Redirector::new(Frontend::Server, 0);
    assert!(sent(arrives(&mut redirector, true, udp(ip(1), ip(2), 5))).is_empty());
    let released = redirector.resolve_connection(id(ip(1), ip(2)), process(99), false);
    assert_eq!(outcome(released), vec![(5, None)]);
    let next = sent(arrives(&mut redirector, true, udp(ip(1), ip(2), 6)));
    assert_eq!(outcome(next), vec![(6, None)]);
}

#[test]
fn other_direction_of_an_intercepted_connection_is_forwarded() {
    let mut redirector = Redirector::new(Frontend::Server, 0);
    redirector.resolve_connection(id(ip(1), ip(2)), process(99), true);
    let mut data = udp(ip(2), ip(1), 5);
    data[20..24].copy_from_slice(&[0, 53, 3, 0xe8]);
    assert_eq!(outcome(sent(arrives(&mut redirector, false, data))), vec![(5, None)]);
}

#[test]
fn decided_connection_is_not_decided_again() {
    let mut redirector = Redirector::new(Frontend::Server, 0);
    for event in [WinDivertEvent::SocketConnect, WinDivertEvent::SocketAccept] {
        let opened = socket(event, 99, ip(1), ip(2));
        assert!(matches!(redirector.handle_socket_info(opened), Step::Connect(99, _)));
    }
    redirector.resolve_connection(id(ip(1), ip(2)), process(99), true);
    for event in [WinDivertEvent::SocketConnect, WinDivertEvent::SocketAccept] {
        let opened = socket(event, 100, ip(1), ip(2));
        assert!(sent(redirector.handle_socket_info(opened)).is_empty());
    }
}

#[test]
fn unsolicited_inbound_packet_is_forwarded() {
    let mut redirector = Redirector::new(Frontend::Direct, 0);
    let step = arrives(&mut redirector, false, udp(ip(2), ip(1), 5));
    assert_eq!(outcome(sent(step)), vec![(5, None)]);
    // From then on that is known of both directions.
    let next = sent(arrives(&mut redirector, true, udp(ip(2), ip(1), 6)));
    assert_eq!(outcome(next), vec![(6, None)]);
    let opened = socket(WinDivertEvent::SocketAccept, 99, ip(2), ip(1));
    assert!(sent(redirector.handle_socket_info(opened)).is_empty());
}

#[test]
fn inbound_packet_is_put_to_the_configuration() {
    for local in [ip(1), 0] {
        for intercept in [true, false] {
            let mut redirector = Redirector::new(Frontend::Callback, 0);
            let opened = listening(WinDivertEvent::SocketListen, 50, local);
            match redirector.handle_socket_info(opened) {
                Step::Listen(pid, socket, protocol) => {
                    assert_eq!(pid, 50);
                    assert_eq!(socket, SocketAddr::new(IpAddr::V4(local), 53));
                    assert_eq!(protocol, TransportProtocol::Udp);
                    redirector.resolve_listener(socket, protocol, process(50));
                }
                other => panic!("{other:?}"),
            }
            let inbound = match arrives(&mut redirector, false, udp(ip(2), ip(1), 5)) {
                Step::Judge(inbound) => inbound,
                other => panic!("{other:?}"),
            };
            assert_eq!(inbound.process_info.pid, 50);
            assert_eq!(inbound.process_info.process_name, Some("curl".to_string()));
            let expected = if intercept { Some(50) } else { None };
            let released = redirector.resolve_inbound(inbound, intercept);
            assert_eq!(outcome(released), vec![(5, expected)]);
            let next = sent(arrives(&mut redirector, false, udp(ip(2), ip(1), 6)));
            assert_eq!(outcome(next), vec![(6, expected)]);
        }
    }
}

#[test]
fn closed_socket_leaves_nothing() {
    let mut redirector = Redirector::new(Frontend::Server, 0);
    redirector.resolve_listener(id(ip(1), ip(2)).src, TransportProtocol::Udp, process(99));
    assert!(sent(arrives(&mut redirector, true, udp(ip(1), ip(2), 5))).is_empty());
    let closed = socket(WinDivertEvent::SocketClose, 99, ip(1), ip(2));
    assert!(sent(redirector.handle_socket_info(closed)).is_empty());
    assert!(redirector.resolve_connection(id(ip(1), ip(2)), process(99), true).is_empty());
    // Nobody listens on the port any more.
    let mut data = udp(ip(3), ip(1), 6);
    data[22..24].copy_from_slice(&[3, 0xe8]);
    assert_eq!(outcome(sent(arrives(&mut redirector, false, data))), vec![(6, None)]);
}

#[test]
fn kernel_and_other_protocols_are_ignored() {
    for frontend in FRONTENDS {
        let mut redirector = Redirector::new(frontend, 0);
        let kernel = socket(WinDivertEvent::SocketConnect, SYSTEM_PID, ip(1), ip(2));
        assert!(sent(redirector.handle_socket_info(kernel)).is_empty());
        let mut icmp = socket(WinDivertEvent::SocketConnect, 99, ip(1), ip(2));
        icmp.protocol = 1;
        assert!(sent(redirector.handle_socket_info(icmp)).is_empty());
        for event in [
            WinDivertEvent::NetworkPacket,
            WinDivertEvent::FlowStablished,
            WinDivertEvent::FlowDeleted,
            WinDivertEvent::SocketBind,
            WinDivertEvent::ReflectOpen,
            WinDivertEvent::ReflectClose,
        ] {
            let other = socket(event, 99, ip(1), ip(2));
            assert!(sent(redirector.handle_socket_info(other)).is_empty());
        }
    }
}

#[test]
fn multicast_sockets_matter_to_the_direct_frontend_only() {
    for (local, remote) in [(ip(1), 0xe000_00fb), (0xe000_00fb, ip(1))] {
        let opened = socket(WinDivertEvent::SocketConnect, 99, local, remote);
        for frontend in [Frontend::Server, Frontend::Callback] {
            let mut redirector = Redirector::new(frontend, 0u8);
            assert!(sent(redirector.handle_socket_info(opened)).is_empty());
        }
        let mut redirector = Redirector::new(Frontend::Direct, 0u8);
        assert!(matches!(redirector.handle_socket_info(opened), Step::Connect(99, _)));
    }
}

#[test]
fn intercepted_packet_is_delivered_with_valid_checksums() {
    let mut redirector = Redirector::new(Frontend::Direct, 0);
    redirector.resolve_connection(id(ip(1), ip(2)), process(99), true);
    let mut done = effects(sent(arrives(&mut redirector, true, udp(ip(1), ip(2), 5))));
    let mut expected = udp(ip(1), ip(2), 5);
    expected[10..12].copy_from_slice(&[0x66, 0xce]);
    expected[26..28].copy_from_slice(&[0xe2, 0xbc]);
    assert_eq!(done.len(), 1);
    match done.remove(0) {
        Effect::Deliver { data, process_info } => {
            assert_eq!(data, expected);
            assert_eq!(process_info.pid, 99);
            assert_eq!(process_info.process_name, Some("curl".to_string()));
        }
        other => panic!("{other:?}"),
    }
}

#[test]
fn forwarded_packet_leaves_as_it_came() {
    let mut redirector = Redirector::new(Frontend::Direct, 0);
    redirector.resolve_connection(id(ip(1), ip(2)), process(99), false);
    let mut done = effects(sent(arrives(&mut redirector, true, udp(ip(1), ip(2), 5))));
    assert_eq!(done.len(), 1);
    match done.remove(0) {
        Effect::Inject { address: a, data } => {
            assert_eq!(a, address(true));
            assert_eq!(data, udp(ip(1), ip(2), 5));
        }
        other => panic!("{other:?}"),
    }
}

#[test]
fn packet_without_room_for_its_checksum_cannot_be_delivered() {
    let mut data = udp(ip(1), ip(2), 5);
    // A TCP packet that ends before its checksum.
    data[9] = 6;
    data.extend([0; 8]);
    let connection = ConnectionId { proto: TransportProtocol::Tcp, ..id(ip(1), ip(2)) };
    let mut redirector = Redirector::new(Frontend::Server, 0);
    redirector.resolve_connection(connection, process(99), true);
    let dispatches = sent(arrives(&mut redirector, true, data.clone()));
    assert_eq!(dispatches.len(), 1);
    assert!(!dispatches[0].is_processable());
    redirector.resolve_connection(connection, process(99), false);
    let dispatches = sent(arrives(&mut redirector, true, data));
    assert!(dispatches[0].is_processable());
}

#[test]
fn injected_packet_leaves_unchanged() {
    let mut redirector = Redirector::new(Frontend::Callback, 0);
    redirector.resolve_connection(id(ip(1), ip(2)), process(99), true);
    let step = handle(&mut redirector, Event::PacketToInject(udp(ip(1), ip(2), 5)));
    let mut done = effects(sent(step));
    assert_eq!(done.len(), 1);
    match done.remove(0) {
        Effect::Inject { address: a, data } => {
            assert_eq!(data, udp(ip(1), ip(2), 5));
            assert!(a.outbound);
            assert_eq!(a, NetworkAddress::for_injection());
            assert_eq!(a.checksums, ValidChecksums { ip: false, tcp: false, udp: false });
        }
        other => panic!("{other:?}"),
    }
    assert!(sent(handle(&mut redirector, Event::PacketToInject(vec![1, 2, 3]))).is_empty());
}

#[test]
fn configuration_change_forgets_and_takes_the_table_in() {
    for frontend in FRONTENDS {
        let mut redirector = Redirector::new(frontend, 0);
        redirector.resolve_connection(id(ip(1), ip(2)), process(99), true);
        redirector.resolve_listener(
            SocketAddr::new(IpAddr::V4(ip(7)), 53),
            TransportProtocol::Udp,
            process(98),
        );
        assert!(sent(arrives(&mut redirector, true, udp(ip(1), ip(6), 1))).is_empty());
        let table = vec![
            row(17, ip(1), ip(3), 10, true),
            row(17, ip(1), ip(4), 11, false),
            row(17, ip(5), 0, 12, true),
        ];
        let step = handle(&mut redirector, Event::InterceptConf(1, Some(table)));
        assert!(sent(step).is_empty());
        assert_eq!(*redirector.conf(), 1);
        // What the table says.
        let next = sent(arrives(&mut redirector, true, udp(ip(1), ip(3), 5)));
        assert_eq!(outcome(next), vec![(5, Some(10))]);
        let next = sent(arrives(&mut redirector, true, udp(ip(1), ip(4), 6)));
        assert_eq!(outcome(next), vec![(6, None)]);
        match arrives(&mut redirector, false, udp(ip(9), ip(5), 7)) {
            Step::Judge(inbound) => assert_eq!(inbound.process_info.pid, 12),
            other => panic!("{other:?}"),
        }
        // What it does not say is not known.
        assert!(sent(arrives(&mut redirector, true, udp(ip(1), ip(2), 8))).is_empty());
        let next = sent(arrives(&mut redirector, false, udp(ip(9), ip(7), 9)));
        assert_eq!(outcome(next), vec![(9, None)]);
        // The packet that waited is gone.
        assert!(redirector.resolve_connection(id(ip(1), ip(6)), process(1), true).is_empty());
    }
}

#[test]
fn unreadable_table_is_put_up_with_by_the_callback_frontend_only() {
    for frontend in FRONTENDS {
        let mut redirector = Redirector::new(frontend, 0);
        redirector.resolve_connection(id(ip(1), ip(2)), process(99), true);
        let result = redirector.handle_intercept_conf_change(1, None);
        if frontend == Frontend::Callback {
            assert_eq!(result, Ok(()));
        } else {
            assert_eq!(result, Err(ConfChangeError::NetworkTable));
        }
        assert_eq!(*redirector.conf(), 1);
        assert!(sent(arrives(&mut redirector, true, udp(ip(1), ip(2), 5))).is_empty());
    }
}

#[test]
fn unknown_protocol_in_the_table_ends_its_reading() {
    for frontend in FRONTENDS {
        let mut redirector = Redirector::new(frontend, 0);
        let table = vec![
            row(17, ip(1), ip(3), 10, true),
            row(41, ip(1), ip(4), 11, true),
            row(17, ip(1), ip(5), 12, true),
        ];
        let step = handle(&mut redirector, Event::InterceptConf(1, Some(table)));
        let lenient = frontend == Frontend::Callback;
        if lenient {
            assert!(sent(step).is_empty());
        } else {
            assert!(matches!(
                step,
                Step::Fail(ConfChangeError::UnknownTransportProtocol(41))
            ));
        }
        let next = sent(arrives(&mut redirector, true, udp(ip(1), ip(3), 5)));
        assert_eq!(outcome(next), vec![(5, Some(10))]);
        let next = sent(arrives(&mut redirector, true, udp(ip(1), ip(5), 6)));
        let expected = if lenient { vec![(6, Some(12))] } else { vec![] };
        assert_eq!(outcome(next), expected);
    }
}

#[test]
fn placement_decides_about_a_packet() {
    let mut redirector = Redirector::new(Frontend::Server, 0u8);
    let dispatch = Dispatch {
        address: address(true),
        packet: Packet::parse(udp(ip(1), ip(2), 5)).unwrap(),
        action: ConnectionAction::Intercept(process(99)),
    };
    let step = redirector.handle_placement(Placement::Known(dispatch));
    assert_eq!(outcome(sent(step)), vec![(5, Some(99))]);
    assert!(sent(redirector.handle_placement(Placement::Waiting)).is_empty());
    let packet = Packet::parse(udp(ip(1), ip(2), 6)).unwrap();
    let step = redirector.handle_placement(Placement::Unseen(address(true), packet));
    assert!(sent(step).is_empty());
    let released = redirector.resolve_connection(id(ip(1), ip(2)), process(99), false);
    assert_eq!(outcome(released), vec![(6, None)]);
    let packet = Packet::parse(udp(ip(3), ip(4), 7)).unwrap();
    let step = redirector.handle_placement(Placement::Unseen(address(false), packet));
    assert_eq!(outcome(sent(step)), vec![(7, None)]);
}

#[test]
fn undecided_packets_are_released_once_each_and_in_order() {
    for intercept in [true, false] {
        let mut redirector = Redirector::new(Frontend::Callback, 0);
        for payload in 0..20 {
            assert!(sent(arrives(&mut redirector, true, udp(ip(1), ip(2), payload))).is_empty());
            // Another direction does not get in between.
            assert!(sent(arrives(&mut redirector, true, udp(ip(1), ip(3), 99))).is_empty());
        }
        let expected = if intercept { Some(7) } else { None };
        let released = redirector.resolve_connection(id(ip(1), ip(2)), process(7), intercept);
        let all: Vec<(u8, Option<u32>)> = (0..20).map(|payload| (payload, expected)).collect();
        assert_eq!(outcome(released), all);
        let again = redirector.resolve_connection(id(ip(1), ip(2)), process(7), intercept);
        assert!(again.is_empty());
    }
}

#[test]
fn everything_is_forwarded_without_a_verdict() {
    for frontend in FRONTENDS {
        let mut redirector = Redirector::new(frontend, 0);
        let mut dispatches = Vec::new();
        let table = vec![row(17, ip(1), ip(3), 10, false), row(17, ip(5), 0, 12, false)];
        let step = handle(&mut redirector, Event::InterceptConf(1, Some(table)));
        dispatches.extend(sent(step));
        dispatches.extend(sent(arrives(&mut redirector, true, udp(ip(1), ip(3), 1))));
        dispatches.extend(sent(arrives(&mut redirector, true, udp(ip(1), ip(2), 2))));
        dispatches.extend(redirector.resolve_connection(id(ip(1), ip(2)), process(9), false));
        match arrives(&mut redirector, false, udp(ip(4), ip(5), 3)) {
            Step::Judge(inbound) => dispatches.extend(redirector.resolve_inbound(inbound, false)),
            other => panic!("{other:?}"),
        }
        dispatches.extend(sent(arrives(&mut redirector, false, udp(ip(4), ip(6), 4))));
        let step = handle(&mut redirector, Event::PacketToInject(udp(ip(1), ip(2), 5)));
        dispatches.extend(sent(step));
        assert_eq!(
            outcome(dispatches),
            vec![(1, None), (2, None), (3, None), (4, None), (5, None)]
        );
    }
}

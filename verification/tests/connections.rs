use windows_redirector::connections::{
    release_waiting, ConnectionState, Connections, Placement,
};
use windows_redirector::dispatch::Dispatch;
use windows_redirector::event::{NetworkAddress, WinDivertEvent};
use windows_redirector::packet::Packet;
use windows_redirector::process::{ConnectionAction, ProcessInfo};
use windows_redirector::protocol::ConnectionId;
use windows_redirector::renewal::ValidChecksums;

/// 10.0.0.`src` to 10.0.0.`dst`, with one byte of payload.
fn packet(src: u8, dst: u8, payload: u8) -> Packet {
    Packet::parse(vec![
        0x45, 0, 0, 29, 0, 0, 0, 0, 64, 17, 0, 0, 10, 0, 0, src, 10, 0, 0, dst, 3, 0xe8, 0, 53, 0,
        9, 0, 0, payload,
    ])
    .unwrap()
}

fn reply(src: u8, dst: u8, payload: u8) -> Packet {
    let mut data = packet(src, dst, payload).inner();
    data[20..24].copy_from_slice(&[0, 53, 3, 0xe8]);
    Packet::parse(data).unwrap()
}

fn id(src: u8, dst: u8) -> ConnectionId {
    packet(src, dst, 0).connection_id()
}

fn address(timestamp: i64) -> NetworkAddress {
    NetworkAddress {
        timestamp,
        event: WinDivertEvent::NetworkPacket,
        sniffed: false,
        outbound: true,
        loopback: false,
        impostor: false,
        ipv6: false,
        checksums: ValidChecksums { ip: true, tcp: true, udp: true },
        interface_index: 1,
        subinterface_index: 2,
    }
}

fn intercept(pid: u32) -> ConnectionAction {
    ConnectionAction::Intercept(ProcessInfo { pid, process_name: None })
}

/// The timestamp, the payload and, if it is intercepted, the process of a
/// packet.
fn summary(dispatch: Dispatch) -> (i64, u8, Option<u32>) {
    let pid = match dispatch.action {
        ConnectionAction::Forward => None,
        ConnectionAction::Intercept(process_info) => Some(process_info.pid),
    };
    (dispatch.address.timestamp, dispatch.packet.inner()[28], pid)
}

fn summaries(sent: Vec<Dispatch>) -> Vec<(i64, u8, Option<u32>)> {
    sent.into_iter().map(summary).collect()
}

#[test]
fn unseen_packet_comes_back() {
    let mut connections = Connections::new();
    match connections.place(address(1), packet(1, 2, 5)) {
        Placement::Unseen(a, p) => {
            assert_eq!(a, address(1));
            assert_eq!(p.inner(), packet(1, 2, 5).inner());
        }
        other => panic!("{other:?}"),
    }
}

#[test]
fn packets_wait_in_order() {
    let mut connections = Connections::new();
    connections.wait(address(1), packet(1, 2, 5));
    assert!(matches!(connections.place(address(2), packet(1, 2, 6)), Placement::Waiting));
    assert!(matches!(connections.place(address(3), packet(1, 2, 7)), Placement::Waiting));
    let sent = connections.insert_into_connections(&id(1, 2), &intercept(9));
    assert_eq!(
        summaries(sent),
        vec![(1, 5, Some(9)), (2, 6, Some(9)), (3, 7, Some(9))]
    );
}

#[test]
fn other_direction_is_released_first_and_forwarded() {
    let mut connections = Connections::new();
    connections.wait(address(1), packet(1, 2, 5));
    connections.wait(address(2), reply(2, 1, 6));
    let sent = connections.insert_into_connections(&id(1, 2), &intercept(9));
    assert_eq!(summaries(sent), vec![(2, 6, None), (1, 5, Some(9))]);
}

#[test]
fn recorded_action_is_remembered() {
    let mut connections = Connections::new();
    assert!(connections.insert_into_connections(&id(1, 2), &intercept(9)).is_empty());
    match connections.place(address(1), packet(1, 2, 5)) {
        Placement::Known(dispatch) => assert_eq!(summary(dispatch), (1, 5, Some(9))),
        other => panic!("{other:?}"),
    }
    match connections.place(address(2), reply(2, 1, 6)) {
        Placement::Known(dispatch) => assert_eq!(summary(dispatch), (2, 6, None)),
        other => panic!("{other:?}"),
    }
    assert!(matches!(connections.place(address(3), packet(1, 3, 7)), Placement::Unseen(..)));
    assert!(matches!(connections.place(address(4), packet(2, 1, 8)), Placement::Unseen(..)));
}

#[test]
fn later_record_replaces_the_earlier() {
    let mut connections = Connections::new();
    connections.insert_into_connections(&id(1, 2), &intercept(9));
    assert!(connections.insert_into_connections(&id(1, 2).reverse(), &intercept(10)).is_empty());
    match connections.place(address(1), packet(1, 2, 5)) {
        Placement::Known(dispatch) => assert_eq!(summary(dispatch), (1, 5, None)),
        other => panic!("{other:?}"),
    }
    match connections.place(address(2), reply(2, 1, 6)) {
        Placement::Known(dispatch) => assert_eq!(summary(dispatch), (2, 6, Some(10))),
        other => panic!("{other:?}"),
    }
}

#[test]
fn direction_is_undecided_until_it_is_recorded() {
    let mut connections = Connections::new();
    assert!(connections.is_undecided(&id(1, 2)));
    connections.wait(address(1), packet(1, 2, 5));
    assert!(connections.is_undecided(&id(1, 2)));
    connections.insert_into_connections(&id(1, 2), &ConnectionAction::Forward);
    assert!(!connections.is_undecided(&id(1, 2)));
    assert!(!connections.is_undecided(&id(1, 2).reverse()));
    assert!(connections.is_undecided(&id(1, 3)));
}

#[test]
fn dropped_packets_are_not_released() {
    let mut connections = Connections::new();
    connections.wait(address(1), packet(1, 2, 5));
    connections.wait(address(2), packet(1, 3, 6));
    connections.drop_waiting(&id(1, 2));
    connections.drop_waiting(&id(1, 4));
    // Later packets still wait.
    assert!(matches!(connections.place(address(3), packet(1, 2, 7)), Placement::Waiting));
    let sent = connections.insert_into_connections(&id(1, 2), &ConnectionAction::Forward);
    assert_eq!(summaries(sent), vec![(3, 7, None)]);
    let sent = connections.insert_into_connections(&id(1, 3), &ConnectionAction::Forward);
    assert_eq!(summaries(sent), vec![(2, 6, None)]);
}

#[test]
fn dropping_keeps_what_is_known() {
    let mut connections = Connections::new();
    connections.insert_into_connections(&id(1, 2), &intercept(9));
    connections.drop_waiting(&id(1, 2));
    match connections.place(address(1), packet(1, 2, 5)) {
        Placement::Known(dispatch) => assert_eq!(summary(dispatch), (1, 5, Some(9))),
        other => panic!("{other:?}"),
    }
}

#[test]
fn connection_to_itself_takes_the_recorded_action() {
    let mut data = packet(1, 1, 5).inner();
    data[20..24].copy_from_slice(&[0, 53, 0, 53]);
    let own = Packet::parse(data.clone()).unwrap();
    let mut connections = Connections::new();
    connections.insert_into_connections(&own.connection_id(), &intercept(9));
    match connections.place(address(1), own) {
        Placement::Known(dispatch) => assert_eq!(summary(dispatch), (1, 5, Some(9))),
        other => panic!("{other:?}"),
    }
}

#[test]
fn clear_forgets_connections_and_waiting_packets() {
    let mut connections = Connections::new();
    connections.insert_into_connections(&id(1, 2), &intercept(9));
    connections.wait(address(1), packet(1, 3, 5));
    connections.clear();
    assert!(matches!(connections.place(address(2), packet(1, 2, 6)), Placement::Unseen(..)));
    assert!(connections
        .insert_into_connections(&id(1, 3), &ConnectionAction::Forward)
        .is_empty());
}

#[test]
fn state_takes_packets() {
    let mut known = ConnectionState::Known(intercept(9));
    match known.take_packet(address(1), packet(1, 2, 5)) {
        Placement::Known(dispatch) => assert_eq!(summary(dispatch), (1, 5, Some(9))),
        other => panic!("{other:?}"),
    }
    let mut unknown = ConnectionState::Unknown(vec![(address(1), packet(1, 2, 5))]);
    assert!(matches!(unknown.take_packet(address(2), packet(1, 2, 6)), Placement::Waiting));
    match unknown {
        ConnectionState::Unknown(packets) => {
            let timestamps: Vec<i64> = packets.iter().map(|(a, _)| a.timestamp).collect();
            assert_eq!(timestamps, vec![1, 2]);
        }
        other => panic!("{other:?}"),
    }
}

#[test]
fn state_drops_packets() {
    let mut unknown = ConnectionState::Unknown(vec![(address(1), packet(1, 2, 5))]);
    unknown.drop_packets();
    assert!(matches!(unknown, ConnectionState::Unknown(packets) if packets.is_empty()));
    let mut known = ConnectionState::Known(ConnectionAction::Forward);
    known.drop_packets();
    assert!(matches!(known, ConnectionState::Known(ConnectionAction::Forward)));
}

#[test]
fn only_a_known_state_is_not_open() {
    assert!(ConnectionState::is_open(None));
    assert!(ConnectionState::is_open(Some(&ConnectionState::Unknown(vec![]))));
    assert!(!ConnectionState::is_open(Some(&ConnectionState::Known(intercept(9)))));
}

#[test]
fn both_directions_are_released() {
    let other = ConnectionState::Unknown(vec![(address(1), reply(2, 1, 5))]);
    let own = ConnectionState::Unknown(vec![
        (address(2), packet(1, 2, 6)),
        (address(3), packet(1, 2, 7)),
    ]);
    let sent = release_waiting(Some(other), Some(own), &intercept(9));
    assert_eq!(summaries(sent), vec![(1, 5, None), (2, 6, Some(9)), (3, 7, Some(9))]);
    let known = ConnectionState::Known(intercept(8));
    assert!(release_waiting(Some(known), None, &intercept(9)).is_empty());
}

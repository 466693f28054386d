use windows_redirector::addr::{IpAddr, SocketAddr, SocketAddrV6};
use windows_redirector::listeners::ActiveListeners;
use windows_redirector::process::ProcessInfo;
use windows_redirector::protocol::TransportProtocol;

const TCP: TransportProtocol = TransportProtocol::Tcp;
const UDP: TransportProtocol = TransportProtocol::Udp;

fn process(pid: u32) -> ProcessInfo {
    ProcessInfo { pid, process_name: Some(format!("process {pid}")) }
}

fn v4(ip: u32, port: u16) -> SocketAddr {
    SocketAddr::new(IpAddr::V4(ip), port)
}

fn v6(ip: u128, port: u16) -> SocketAddr {
    SocketAddr::new(IpAddr::V6(ip), port)
}

fn pid(listeners: &ActiveListeners, socket: SocketAddr, protocol: TransportProtocol) -> Option<u32> {
    let found = listeners.get(socket, protocol);
    if let Some(process_info) = found {
        assert_eq!(process_info.process_name, Some(format!("process {}", process_info.pid)));
    }
    found.map(|process_info| process_info.pid)
}

#[test]
fn registered_listener_answers() {
    let mut listeners = ActiveListeners::new();
    assert_eq!(pid(&listeners, v4(1, 80), TCP), None);
    assert!(listeners.insert(v4(1, 80), TCP, process(10)).is_none());
    assert_eq!(pid(&listeners, v4(1, 80), TCP), Some(10));
    assert_eq!(pid(&listeners, v4(1, 80), UDP), None);
    assert_eq!(pid(&listeners, v4(1, 81), TCP), None);
    assert_eq!(pid(&listeners, v4(2, 80), TCP), None);
}

#[test]
fn second_listener_replaces_the_first() {
    let mut listeners = ActiveListeners::new();
    listeners.insert(v4(1, 80), TCP, process(10));
    let previous = listeners.insert(v4(1, 80), TCP, process(11)).unwrap();
    assert_eq!(previous.pid, 10);
    assert_eq!(previous.process_name, Some("process 10".to_string()));
    assert_eq!(pid(&listeners, v4(1, 80), TCP), Some(11));
}

#[test]
fn wildcard_listener_answers_on_any_address() {
    for bound in [v4(0, 80), v6(0, 80)] {
        let mut listeners = ActiveListeners::new();
        listeners.insert(bound, TCP, process(10));
        assert_eq!(pid(&listeners, v4(5, 80), TCP), Some(10));
        assert_eq!(pid(&listeners, v6(5, 80), TCP), Some(10));
        assert_eq!(pid(&listeners, v4(0, 80), TCP), Some(10));
        assert_eq!(pid(&listeners, v6(0, 80), TCP), Some(10));
        assert_eq!(pid(&listeners, v4(5, 81), TCP), None);
        // A listener on the very address comes first.
        listeners.insert(v4(5, 80), TCP, process(11));
        assert_eq!(pid(&listeners, v4(5, 80), TCP), Some(11));
        assert_eq!(pid(&listeners, v4(6, 80), TCP), Some(10));
    }
}

#[test]
fn unspecified_ipv6_address_loses_its_scope() {
    let mut listeners = ActiveListeners::new();
    let bound = SocketAddr::V6(SocketAddrV6 { ip: 0, port: 80, flowinfo: 1, scope_id: 2 });
    listeners.insert(bound, TCP, process(10));
    assert_eq!(pid(&listeners, v4(5, 80), TCP), Some(10));
    assert_eq!(listeners.remove(v4(0, 80), TCP).unwrap().pid, 10);
}

#[test]
fn scope_tells_ipv6_listeners_apart() {
    let mut listeners = ActiveListeners::new();
    let bound = SocketAddr::V6(SocketAddrV6 { ip: 9, port: 80, flowinfo: 0, scope_id: 2 });
    listeners.insert(bound, TCP, process(10));
    assert_eq!(pid(&listeners, bound, TCP), Some(10));
    assert_eq!(pid(&listeners, v6(9, 80), TCP), None);
}

#[test]
fn remove_undoes_insert() {
    let mut listeners = ActiveListeners::new();
    listeners.insert(v4(1, 80), TCP, process(10));
    listeners.insert(v4(2, 80), TCP, process(11));
    listeners.insert(v4(3, 80), TCP, process(12));
    assert_eq!(listeners.remove(v4(1, 80), TCP).unwrap().pid, 10);
    assert!(listeners.remove(v4(1, 80), TCP).is_none());
    assert_eq!(pid(&listeners, v4(1, 80), TCP), None);
    assert_eq!(pid(&listeners, v4(2, 80), TCP), Some(11));
    assert_eq!(pid(&listeners, v4(3, 80), TCP), Some(12));
}

#[test]
fn remove_does_not_fall_back_to_the_wildcard() {
    let mut listeners = ActiveListeners::new();
    listeners.insert(v4(0, 80), TCP, process(10));
    assert!(listeners.remove(v4(5, 80), TCP).is_none());
    assert_eq!(pid(&listeners, v4(5, 80), TCP), Some(10));
    assert_eq!(listeners.remove(v6(0, 80), TCP).unwrap().pid, 10);
    assert_eq!(pid(&listeners, v4(5, 80), TCP), None);
}

#[test]
fn clear_forgets_every_listener() {
    let mut listeners = ActiveListeners::new();
    listeners.insert(v4(0, 80), TCP, process(10));
    listeners.insert(v4(1, 53), UDP, process(11));
    listeners.clear();
    assert_eq!(pid(&listeners, v4(5, 80), TCP), None);
    assert_eq!(pid(&listeners, v4(1, 53), UDP), None);
}

#[test]
fn unspecified_addresses_are_one_listener() {
    let mut listeners = ActiveListeners::new();
    listeners.insert(v6(0, 80), TCP, process(10));
    assert_eq!(listeners.insert(v4(0, 80), TCP, process(11)).unwrap().pid, 10);
    assert_eq!(pid(&listeners, v6(0, 80), TCP), Some(11));
    assert_eq!(pid(&listeners, v4(0, 80), TCP), Some(11));
    assert_eq!(listeners.remove(v6(0, 80), TCP).unwrap().pid, 11);
    assert_eq!(pid(&listeners, v4(0, 80), TCP), None);
}

//! What the decisions of the redirector come to, in terms of the bytes of
//! packets, the addresses of sockets and the rows of the table of sockets.

use vstd::prelude::*;

use crate::addr::{IpAddr, SocketAddr, SocketAddrV4, SocketAddrV6};
use crate::connections::{
    aged, connection_key, distinct, last_used, lemma_aged, lemma_keys_are_distinct, lemma_put,
    lookup, put, recorded, recorded_over, released, used, ConnectionKey, ConnectionState, Entries,
    StateView,
};
use crate::dispatch::{Dispatch, DispatchView, Effect, EffectView};
use crate::event::{NetworkAddress, NetworkTableEntry, SocketAddress, WinDivertEvent};
use crate::header::{
    connection_id, dst_ip, endless, lemma_ipv4_connection_is_read_from_the_bytes,
    lemma_ipv6_address_of_octets, lemma_transport_bounds, parses, src_ip, transport,
};
use crate::laws::{
    lemma_connection_is_remembered_for_ten_minutes, lemma_expiry_changes_no_entry,
    lemma_use_touches_one_entry,
};
use crate::listeners::ListenerKey;
use crate::process::{ActionView, ConnectionAction, ProcessInfo, ProcessView};
use crate::protocol::{ConnectionId, TransportProtocol};
use crate::redirector::{
    conf_changed, connection_resolved, event_handled, found_packet_handled, inbound_resolved,
    listener_resolved, packet_handled, packet_injected, passes_through, row_taken_in, rows_of,
    socket_handled, table_read, table_taken_in, table_views, unseen_packet_handled,
    ConfChangeError, Event, Frontend, Inbound, InboundView, Knowledge, RedirectorView, Step,
    StepView, TableEntryView,
};
use crate::renewal::{lemma_short_packets_are_renewable, ValidChecksums};

verus! {

/// Ten minutes, in nanoseconds.
pub open spec fn ten_minutes() -> int {
    600_000_000_000
}

/// Whether the bytes of a packet say that it goes from one machine to another:
/// neither address is in `224.0.0.0/4` or `ff00::/8`, and not both are in
/// `127.0.0.0/8` or `::1`.
pub open spec fn is_ordinary(data: Seq<u8>) -> bool {
    if data[0] as int / 16 == 4 {
        &&& !(224 <= data[12] <= 239)
        &&& !(224 <= data[16] <= 239)
        &&& !(data[12] == 127 && data[16] == 127)
    } else {
        &&& data[8] != 255
        &&& data[24] != 255
        &&& !({
            &&& data[23] == 1 && forall|k: int| 8 <= k < 23 ==> #[trigger] data[k] == 0
            &&& data[39] == 1 && forall|k: int| 24 <= k < 39 ==> #[trigger] data[k] == 0
        })
    }
}

proof fn lemma_ordinary(data: Seq<u8>)
    requires
        transport(data) is Ok,
    ensures
        parses(data),
        passes_through(data) <==> !is_ordinary(data),
{
    assert(parses(data));
    lemma_transport_bounds(data);
    if data[0] as int / 16 == 4 {
        lemma_ipv4_connection_is_read_from_the_bytes(data);
        assert(connection_id(data).src.spec_ip() == src_ip(data));
        assert(connection_id(data).dst.spec_ip() == dst_ip(data));
    } else {
        lemma_ipv6_address_of_octets(data, 8);
        lemma_ipv6_address_of_octets(data, 24);
    }
}

/// Whether an entry was not used for more than ten minutes when the clock showed
/// `now`, and `kept` is what was left without it.
pub open spec fn forgotten(before: Entries, kept: Entries, now: int, key: ConnectionKey) -> bool {
    &&& aged(before, kept, now)
    &&& now - last_used(before, key)->0 > ten_minutes()
    &&& lookup(kept, key) is None
}

/// What a lookup that found nothing, or something, says of the entries before.
proof fn lemma_lookup_of_a_packet<C>(
    before: RedirectorView<C>,
    after: RedirectorView<C>,
    address: NetworkAddress,
    data: Seq<u8>,
    step: StepView,
) -> (result: (Option<StateView>, Entries))
    requires
        packet_handled(before, after, address, data, step),
        transport(data) is Ok,
        is_ordinary(data),
    ensures
        found_packet_handled(
            before.entries,
            result.0,
            result.1,
            after.entries,
            before.listeners,
            address,
            data,
            step,
        ),
        result.0 is Some ==> result.0 == lookup(before.entries, connection_key(connection_id(data))),
        result.0 is None ==> lookup(result.1, connection_key(connection_id(data))) is None
            && exists|now: int| #[trigger] aged(before.entries, result.1, now),
{
    lemma_ordinary(data);
    let key = connection_key(connection_id(data));
    let (found, between) = choose|found: Option<StateView>, between: Entries| #[trigger]
        found_packet_handled(
            before.entries,
            found,
            between,
            after.entries,
            before.listeners,
            address,
            data,
            step,
        );
    if let Some(state) = found {
        let value = state.with_packet(address, data);
        lemma_use_touches_one_entry(before.entries, between, key, found, value, key);
    }
    (found, between)
}

/// A whole packet, IPv4 or IPv6, that goes from one machine to another is
/// dispatched with the action that is known of its direction, and stays known,
/// unless the direction was not used for more than ten minutes.
pub proof fn lemma_known_action_is_applied<C>(
    before: RedirectorView<C>,
    after: RedirectorView<C>,
    address: NetworkAddress,
    data: Seq<u8>,
    step: StepView,
    action: ActionView,
)
    requires
        packet_handled(before, after, address, data, step),
        transport(data) is Ok,
        is_ordinary(data),
        distinct(before.entries),
        lookup(before.entries, connection_key(connection_id(data))) == Some(
            StateView::Known(action),
        ),
    ensures
        ({
            let key = connection_key(connection_id(data));
            ||| {
                &&& step == StepView::Process(seq![DispatchView { address, data, action }])
                &&& lookup(after.entries, key) == Some(StateView::Known(action))
            }
            ||| exists|kept: Entries, now: int| #[trigger]
                forgotten(before.entries, kept, now, key) && unseen_packet_handled(
                    kept,
                    after.entries,
                    before.listeners,
                    address,
                    data,
                    step,
                )
        }),
{
    let key = connection_key(connection_id(data));
    let (found, between) = lemma_lookup_of_a_packet(before, after, address, data, step);
    if found is Some {
        lemma_use_touches_one_entry(
            before.entries,
            between,
            key,
            found,
            StateView::Known(action),
            key,
        );
    } else {
        let now = choose|now: int| #[trigger] aged(before.entries, between, now);
        lemma_connection_is_remembered_for_ten_minutes(before.entries, between, now, key);
        assert(forgotten(before.entries, between, now, key));
    }
}

/// A whole packet that goes from one machine to another and about whose
/// direction nothing is decided, but that packets wait, is the last to wait,
/// unless the direction was not used for more than ten minutes.
pub proof fn lemma_undecided_packet_joins_the_others<C>(
    before: RedirectorView<C>,
    after: RedirectorView<C>,
    address: NetworkAddress,
    data: Seq<u8>,
    step: StepView,
    packets: Seq<(NetworkAddress, Seq<u8>)>,
)
    requires
        packet_handled(before, after, address, data, step),
        transport(data) is Ok,
        is_ordinary(data),
        distinct(before.entries),
        lookup(before.entries, connection_key(connection_id(data))) == Some(
            StateView::Unknown(packets),
        ),
    ensures
        ({
            let key = connection_key(connection_id(data));
            ||| {
                &&& step == StepView::Process(Seq::empty())
                &&& lookup(after.entries, key) == Some(
                    StateView::Unknown(packets.push((address, data))),
                )
            }
            ||| exists|kept: Entries, now: int| #[trigger]
                forgotten(before.entries, kept, now, key) && unseen_packet_handled(
                    kept,
                    after.entries,
                    before.listeners,
                    address,
                    data,
                    step,
                )
        }),
{
    let key = connection_key(connection_id(data));
    let (found, between) = lemma_lookup_of_a_packet(before, after, address, data, step);
    if found is Some {
        lemma_use_touches_one_entry(
            before.entries,
            between,
            key,
            found,
            StateView::Unknown(packets.push((address, data))),
            key,
        );
    } else {
        let now = choose|now: int| #[trigger] aged(before.entries, between, now);
        lemma_connection_is_remembered_for_ten_minutes(before.entries, between, now, key);
        assert(forgotten(before.entries, between, now, key));
    }
}

/// A whole packet that goes from one machine to another in a direction of which
/// nothing is known is dealt with as [`lemma_first_packet`] says.
pub proof fn lemma_unknown_direction_is_unseen<C>(
    before: RedirectorView<C>,
    after: RedirectorView<C>,
    address: NetworkAddress,
    data: Seq<u8>,
    step: StepView,
)
    requires
        packet_handled(before, after, address, data, step),
        transport(data) is Ok,
        is_ordinary(data),
        lookup(before.entries, connection_key(connection_id(data))) is None,
    ensures
        exists|kept: Entries, now: int|
            {
                &&& #[trigger] aged(before.entries, kept, now)
                &&& lookup(kept, connection_key(connection_id(data))) is None
                &&& unseen_packet_handled(
                    kept,
                    after.entries,
                    before.listeners,
                    address,
                    data,
                    step,
                )
            },
{
    let (found, between) = lemma_lookup_of_a_packet(before, after, address, data, step);
    let now = choose|now: int| #[trigger] aged(before.entries, between, now);
    assert(aged(before.entries, between, now));
}

/// The first packet of a direction: one that leaves this machine waits; one that
/// comes in is put to the configuration on behalf of the process that listens
/// under its very destination or, if there is none, under `0.0.0.0` and the
/// destination port; any other is forwarded, along with those that waited in the
/// other direction, and both directions are forwarded from then on.
pub proof fn lemma_first_packet(
    before: Entries,
    after: Entries,
    listeners: Map<ListenerKey, ProcessView>,
    address: NetworkAddress,
    data: Seq<u8>,
    step: StepView,
)
    requires
        unseen_packet_handled(before, after, listeners, address, data, step),
        lookup(before, connection_key(connection_id(data))) is None,
    ensures
        ({
            let id = connection_id(data);
            let own = (id.dst, id.proto);
            let any = (SocketAddr::V4(SocketAddrV4 { ip: 0, port: id.dst.spec_port() }), id.proto);
            &&& address.outbound ==> {
                &&& step == StepView::Process(Seq::empty())
                &&& lookup(after, connection_key(id)) == Some(
                    StateView::Unknown(seq![(address, data)]),
                )
            }
            &&& !address.outbound && listeners.contains_key(own) ==> {
                &&& step == StepView::Judge(
                    InboundView { address, data, process_info: listeners[own] },
                )
                &&& after == before
            }
            &&& !address.outbound && !listeners.contains_key(own) && listeners.contains_key(any)
                ==> {
                &&& step == StepView::Judge(
                    InboundView { address, data, process_info: listeners[any] },
                )
                &&& after == before
            }
            &&& !address.outbound && !listeners.contains_key(own) && !listeners.contains_key(any)
                ==> {
                &&& step matches StepView::Process(sent)
                &&& sent.len() > 0
                &&& sent.last() == (DispatchView { address, data, action: ActionView::Forward })
                &&& recorded(before, after, id, ActionView::Forward, sent.drop_last())
                &&& lookup(after, connection_key(id)) == Some(StateView::Known(ActionView::Forward))
            }
        }),
{
    let id = connection_id(data);
    let key = connection_key(id);
    if address.outbound {
        let state = StateView::Unknown(seq![(address, data)]);
        let (kept, now) = choose|kept: Entries, now: int|
            #[trigger] aged(before, kept, now) && after == put(kept, key, state, now);
        lemma_put(kept, key, state, now, key);
    } else if let StepView::Process(all) = step {
        let packet = DispatchView { address, data, action: ActionView::Forward };
        let sent = choose|sent: Seq<DispatchView>|
            {
                &&& #[trigger] recorded(before, after, id, ActionView::Forward, sent)
                &&& step == StepView::Process(sent.push(packet))
            };
        assert(all.drop_last() =~= sent);
        let (first, earlier, second, now) = choose|
            first: Entries,
            earlier: int,
            second: Entries,
            now: int,
        | #[trigger]
            recorded_over(
                before,
                first,
                earlier,
                second,
                now,
                after,
                id,
                ActionView::Forward,
                sent,
            );
        lemma_put(second, key, StateView::Known(ActionView::Forward), now, key);
    }
}

/// A whole packet that is multicast or does not leave this machine is forwarded
/// as it is, and bytes that are no whole packet are dropped. Neither changes
/// anything.
pub proof fn lemma_other_packets_change_nothing<C>(
    before: RedirectorView<C>,
    after: RedirectorView<C>,
    address: NetworkAddress,
    data: Seq<u8>,
    step: StepView,
)
    requires
        packet_handled(before, after, address, data, step),
        transport(data) is Err || !is_ordinary(data),
    ensures
        after == before,
        transport(data) is Err ==> step == StepView::Process(Seq::empty()),
        transport(data) is Ok ==> step == StepView::Process(
            seq![DispatchView { address, data, action: ActionView::Forward }],
        ),
{
    if transport(data) is Ok {
        lemma_ordinary(data);
    }
}

/// No packet changes the configuration or the listeners.
pub proof fn lemma_packets_change_connections_only<C>(
    before: RedirectorView<C>,
    after: RedirectorView<C>,
    address: NetworkAddress,
    data: Seq<u8>,
    step: StepView,
)
    requires
        packet_handled(before, after, address, data, step),
    ensures
        after.frontend == before.frontend,
        after.conf == before.conf,
        after.listeners == before.listeners,
{
}

/// The packets that wait under `key`, as far as they are not forgotten at the
/// instant `now`.
pub open spec fn still_waiting(
    entries: Entries,
    key: ConnectionKey,
    now: int,
) -> Seq<(NetworkAddress, Seq<u8>)> {
    match lookup(entries, key) {
        Some(StateView::Unknown(packets)) => if now - last_used(entries, key)->0 <= ten_minutes() {
            packets
        } else {
            Seq::empty()
        },
        _ => Seq::empty(),
    }
}

/// Every packet that waited in the direction that is recorded is sent with
/// exactly the action that is recorded, every packet that waited in the other
/// direction is sent before and forwarded, each with its own address and bytes,
/// in the order in which it came, and nothing else is sent. Packets wait for ten
/// minutes after the last use of their direction.
pub proof fn lemma_waiting_packets_are_sent_with_the_verdict(
    before: Entries,
    after: Entries,
    id: ConnectionId,
    action: ActionView,
    sent: Seq<DispatchView>,
    now: int,
)
    requires
        recorded(before, after, id, action, sent),
        distinct(before),
        id.reversed() != id,
        last_used(after, connection_key(id)) == Some(now),
        lookup(before, connection_key(id.reversed())) is Some ==> now - last_used(
            before,
            connection_key(id.reversed()),
        )->0 <= ten_minutes(),
    ensures
        ({
            let other = still_waiting(before, connection_key(id.reversed()), now);
            let own = still_waiting(before, connection_key(id), now);
            &&& sent.len() == other.len() + own.len()
            &&& forall|i: int|
                0 <= i < other.len() ==> {
                    &&& (#[trigger] sent[i]).address == other[i].0
                    &&& sent[i].data == other[i].1
                    &&& sent[i].action == ActionView::Forward
                }
            &&& forall|i: int|
                other.len() <= i < sent.len() ==> {
                    &&& (#[trigger] sent[i]).address == own[i - other.len()].0
                    &&& sent[i].data == own[i - other.len()].1
                    &&& sent[i].action == action
                }
        }),
{
    let key = connection_key(id);
    let reverse = connection_key(id.reversed());
    let forward = StateView::Known(ActionView::Forward);
    let (first, earlier, second, then) = choose|
        first: Entries,
        earlier: int,
        second: Entries,
        then: int,
    | #[trigger]
        recorded_over(before, first, earlier, second, then, after, id, action, sent);
    let between = put(first, reverse, forward, earlier);
    lemma_put(second, key, StateView::Known(action), then, key);
    assert(then == now);
    lemma_keys_are_distinct(id, id.reversed());
    lemma_aged(before, first, earlier);
    assert(earlier <= now) by {
        assert(between[between.len() - 1].2 == earlier);
    }
    lemma_put(first, reverse, forward, earlier, key);
    lemma_expiry_changes_no_entry(before, first, earlier, reverse);
    lemma_expiry_changes_no_entry(before, first, earlier, key);
    lemma_expiry_changes_no_entry(between, second, now, key);
    if lookup(before, reverse) is Some {
        lemma_connection_is_remembered_for_ten_minutes(before, first, earlier, reverse);
    }
    if lookup(before, key) is Some {
        lemma_connection_is_remembered_for_ten_minutes(before, first, earlier, key);
        if lookup(first, key) is Some {
            lemma_connection_is_remembered_for_ten_minutes(between, second, now, key);
        }
    }
    let other = still_waiting(before, reverse, now);
    let own = still_waiting(before, key, now);
    let head = released(lookup(first, reverse), ActionView::Forward);
    let tail = released(lookup(second, key), action);
    assert(sent == head + tail);
    assert(head.len() == other.len());
    assert(tail.len() == own.len());
}

/// Where both ends of a connection are one, there is but one direction: what
/// waited in it is forwarded, each packet with its own address and bytes, and
/// the action is for what follows.
pub proof fn lemma_connection_to_itself(
    before: Entries,
    after: Entries,
    id: ConnectionId,
    action: ActionView,
    sent: Seq<DispatchView>,
    now: int,
)
    requires
        recorded(before, after, id, action, sent),
        distinct(before),
        id.src == id.dst,
        last_used(after, connection_key(id)) == Some(now),
        lookup(before, connection_key(id)) is Some ==> now - last_used(before, connection_key(id))->0
            <= ten_minutes(),
    ensures
        ({
            let own = still_waiting(before, connection_key(id), now);
            &&& sent.len() == own.len()
            &&& forall|i: int|
                0 <= i < sent.len() ==> {
                    &&& (#[trigger] sent[i]).address == own[i].0
                    &&& sent[i].data == own[i].1
                    &&& sent[i].action == ActionView::Forward
                }
        }),
        lookup(after, connection_key(id)) == Some(StateView::Known(action)),
{
    let key = connection_key(id);
    let forward = StateView::Known(ActionView::Forward);
    assert(id.reversed() == id);
    let (first, earlier, second, then) = choose|
        first: Entries,
        earlier: int,
        second: Entries,
        then: int,
    | #[trigger]
        recorded_over(before, first, earlier, second, then, after, id, action, sent);
    let between = put(first, key, forward, earlier);
    lemma_put(second, key, StateView::Known(action), then, key);
    lemma_put(first, key, forward, earlier, key);
    lemma_expiry_changes_no_entry(between, second, now, key);
    assert(earlier <= now) by {
        assert(between[between.len() - 1].2 == earlier);
    }
    lemma_expiry_changes_no_entry(before, first, earlier, key);
    if lookup(before, key) is Some {
        lemma_connection_is_remembered_for_ten_minutes(before, first, earlier, key);
    }
    let head = released(lookup(first, key), ActionView::Forward);
    let tail = released(lookup(second, key), action);
    assert(sent == head + tail);
    assert(tail.len() == 0);
    assert(sent =~= head);
}

/// Once an action is recorded for a direction, it is what is known of it, as the
/// latest use. The other direction is forwarded, if it is known at all. Any
/// other direction stays as it was, if it was used in the ten minutes before, and
/// is forgotten otherwise.
pub proof fn lemma_what_is_known_after_recording(
    before: Entries,
    after: Entries,
    id: ConnectionId,
    action: ActionView,
    sent: Seq<DispatchView>,
    other: ConnectionKey,
)
    requires
        recorded(before, after, id, action, sent),
        distinct(before),
    ensures
        distinct(after),
        after.len() > 0,
        lookup(after, connection_key(id)) == Some(StateView::Known(action)),
        last_used(after, connection_key(id)) == Some(after.last().2),
        before.len() > 0 ==> before.last().2 <= after.last().2,
        id.src != id.dst ==> (lookup(after, connection_key(id.reversed())) matches Some(state)
            ==> state == StateView::Known(ActionView::Forward)),
        other != connection_key(id) && other != connection_key(id.reversed()) ==> {
            &&& lookup(before, other) is None ==> lookup(after, other) is None
            &&& lookup(before, other) is Some ==> if after.last().2 - last_used(before, other)->0
                <= ten_minutes() {
                lookup(after, other) == lookup(before, other) && last_used(after, other)
                    == last_used(before, other)
            } else {
                lookup(after, other) is None
            }
        },
{
    let key = connection_key(id);
    let reverse = connection_key(id.reversed());
    let forward = StateView::Known(ActionView::Forward);
    let (first, earlier, second, now) = choose|
        first: Entries,
        earlier: int,
        second: Entries,
        now: int,
    | #[trigger]
        recorded_over(before, first, earlier, second, now, after, id, action, sent);
    let between = put(first, reverse, forward, earlier);
    lemma_keys_are_distinct(id, id.reversed());
    assert(after.last() == (key, StateView::Known(action), now));
    assert(earlier <= now) by {
        assert(between[between.len() - 1].2 == earlier);
    }
    if before.len() > 0 {
        assert(before[before.len() - 1].2 <= earlier);
    }
    lemma_aged(before, first, earlier);
    lemma_put(first, reverse, forward, earlier, other);
    lemma_aged(between, second, now);
    lemma_put(second, key, StateView::Known(action), now, other);
    lemma_put(second, key, StateView::Known(action), now, reverse);
    lemma_expiry_changes_no_entry(between, second, now, reverse);
    lemma_expiry_changes_no_entry(before, first, earlier, other);
    lemma_expiry_changes_no_entry(between, second, now, other);
    if other != key && other != reverse && lookup(before, other) is Some {
        lemma_connection_is_remembered_for_ten_minutes(before, first, earlier, other);
        if lookup(first, other) is Some {
            lemma_connection_is_remembered_for_ten_minutes(between, second, now, other);
        }
    }
}

/// A verdict to intercept makes the packets of the very process intercepted, and
/// the opposite verdict makes them forwarded.
pub proof fn lemma_verdicts(process_info: ProcessView)
    ensures
        ConnectionAction::of_verdict(process_info, true) == ActionView::Intercept(process_info),
        ConnectionAction::of_verdict(process_info, false) == ActionView::Forward,
{
}

/// Once the verdict on a process that listens is known, the packet that was put
/// to the configuration is dispatched with it, as it came, after those that
/// waited for the same verdict.
pub proof fn lemma_inbound_packet_gets_the_verdict(
    before: Entries,
    after: Entries,
    inbound: InboundView,
    intercept: bool,
    sent: Seq<DispatchView>,
)
    requires
        inbound_resolved(before, after, inbound, intercept, sent),
    ensures
        ({
            let action = if intercept {
                ActionView::Intercept(inbound.process_info)
            } else {
                ActionView::Forward
            };
            &&& sent.len() > 0
            &&& sent.last().address == inbound.address
            &&& sent.last().data == inbound.data
            &&& sent.last().action == action
            &&& recorded(before, after, connection_id(inbound.data), action, sent.drop_last())
        }),
{
    let action = ConnectionAction::of_verdict(inbound.process_info, intercept);
    let earlier = choose|earlier: Seq<DispatchView>|
        {
            &&& #[trigger] recorded(before, after, connection_id(inbound.data), action, earlier)
            &&& sent == earlier.push(
                DispatchView { address: inbound.address, data: inbound.data, action },
            )
        };
    assert(sent.drop_last() =~= earlier);
}

/// Whether an address is in `224.0.0.0/4` or `ff00::/8`.
pub open spec fn in_multicast_range(ip: IpAddr) -> bool {
    match ip {
        IpAddr::V4(ip) => 224 <= ip / 0x100_0000 <= 239,
        IpAddr::V6(ip) => ip / 0x100_0000_0000_0000_0000_0000_0000_0000 == 255,
    }
}

/// The end of a connection with this IP and port.
pub open spec fn end_of(ip: IpAddr, port: u16) -> SocketAddr {
    match ip {
        IpAddr::V4(ip) => SocketAddr::V4(SocketAddrV4 { ip, port }),
        IpAddr::V6(ip) => SocketAddr::V6(SocketAddrV6 { ip, port, flowinfo: 0, scope_id: 0 }),
    }
}

/// The direction from the local to the remote end of a socket.
pub open spec fn outgoing(address: SocketAddress) -> ConnectionId {
    ConnectionId {
        proto: if address.protocol == 6 {
            TransportProtocol::Tcp
        } else {
            TransportProtocol::Udp
        },
        src: end_of(address.local_address, address.local_port),
        dst: end_of(address.remote_address, address.remote_port),
    }
}

/// Whether an operation on a socket is ignored: by the kernel, whose process id
/// is 4, of another protocol than TCP and UDP or, but for the direct frontend, on
/// a multicast address.
pub open spec fn is_ignored(frontend: Frontend, address: SocketAddress) -> bool {
    ||| address.process_id == 4
    ||| address.protocol != 6 && address.protocol != 17
    ||| frontend != Frontend::Direct && (in_multicast_range(address.local_address)
        || in_multicast_range(address.remote_address))
}

/// What is ignored, and any operation but connecting, accepting, listening and
/// closing, changes nothing.
pub proof fn lemma_ignored_operations_change_nothing<C>(
    before: RedirectorView<C>,
    after: RedirectorView<C>,
    address: SocketAddress,
    step: StepView,
)
    requires
        socket_handled(before, after, address, step),
        is_ignored(before.frontend, address) || !(address.event is SocketConnect
            || address.event is SocketAccept || address.event is SocketListen
            || address.event is SocketClose),
    ensures
        after == before,
        step == StepView::Process(Seq::empty()),
{
}

/// When a connection is made, and alike when one is accepted, the process with
/// the id of the operation is put to the configuration for the direction from the
/// local to the remote end, unless it is known already what is done with that
/// direction. No entry is changed.
pub proof fn lemma_opened_connection_is_put_to_the_configuration<C>(
    before: RedirectorView<C>,
    after: RedirectorView<C>,
    address: SocketAddress,
    step: StepView,
    other: ConnectionKey,
)
    requires
        socket_handled(before, after, address, step),
        distinct(before.entries),
        !is_ignored(before.frontend, address),
        address.event is SocketConnect || address.event is SocketAccept,
    ensures
        ({
            let key = connection_key(outgoing(address));
            &&& after.frontend == before.frontend
            &&& after.conf == before.conf
            &&& after.listeners == before.listeners
            &&& lookup(after.entries, other) is None || lookup(after.entries, other) == lookup(
                before.entries,
                other,
            )
            &&& match lookup(before.entries, key) {
                Some(StateView::Known(_)) => {
                    ||| step == StepView::Process(Seq::empty())
                    ||| step == StepView::Connect(address.process_id, outgoing(address))
                        && exists|now: int| #[trigger]
                        forgotten(before.entries, after.entries, now, key)
                },
                _ => step == StepView::Connect(address.process_id, outgoing(address)),
            }
        }),
{
    let id = outgoing(address);
    let key = connection_key(id);
    let (found, value) = choose|found: Option<StateView>, value: StateView|
        {
            &&& #[trigger] used(before.entries, after.entries, key, found, value)
            &&& found matches Some(state) ==> value == state
            &&& step is Connect <==> !(found matches Some(StateView::Known(_)))
        };
    lemma_use_touches_one_entry(before.entries, after.entries, key, found, value, other);
    lemma_use_touches_one_entry(before.entries, after.entries, key, found, value, key);
    if found is None && lookup(before.entries, key) is Some {
        let now = choose|now: int| #[trigger] aged(before.entries, after.entries, now);
        lemma_connection_is_remembered_for_ten_minutes(before.entries, after.entries, now, key);
        assert(forgotten(before.entries, after.entries, now, key));
    }
}

/// When a socket begins to listen, the process with the id of the operation is to
/// be registered under the local address and port.
pub proof fn lemma_listening_socket_is_registered<C>(
    before: RedirectorView<C>,
    after: RedirectorView<C>,
    address: SocketAddress,
    step: StepView,
)
    requires
        socket_handled(before, after, address, step),
        !is_ignored(before.frontend, address),
        address.event is SocketListen,
    ensures
        after == before,
        step == StepView::Listen(
            address.process_id,
            end_of(address.local_address, address.local_port),
            if address.protocol == 6 {
                TransportProtocol::Tcp
            } else {
                TransportProtocol::Udp
            },
        ),
{
}

/// Where a process that listens on `socket` is registered.
pub open spec fn place_of(socket: SocketAddr) -> SocketAddr {
    match socket {
        SocketAddr::V6(a) => if a.ip == 0 {
            SocketAddr::V4(SocketAddrV4 { ip: 0, port: a.port })
        } else {
            socket
        },
        SocketAddr::V4(_) => socket,
    }
}

/// When a socket is closed, the packets that wait in the direction from the local
/// to the remote end are dropped, and no other; nobody listens on the local end
/// any more, and everybody else still listens.
pub proof fn lemma_closed_socket<C>(
    before: RedirectorView<C>,
    after: RedirectorView<C>,
    address: SocketAddress,
    step: StepView,
    other: ConnectionKey,
    listener: ListenerKey,
)
    requires
        socket_handled(before, after, address, step),
        distinct(before.entries),
        !is_ignored(before.frontend, address),
        address.event is SocketClose,
    ensures
        ({
            let id = outgoing(address);
            let key = connection_key(id);
            &&& step == StepView::Process(Seq::empty())
            &&& after.frontend == before.frontend
            &&& after.conf == before.conf
            &&& !after.listeners.contains_key((place_of(id.src), id.proto))
            &&& listener != (place_of(id.src), id.proto) ==> {
                &&& after.listeners.contains_key(listener) == before.listeners.contains_key(
                    listener,
                )
                &&& after.listeners.contains_key(listener) ==> after.listeners[listener]
                    == before.listeners[listener]
            }
            &&& other != key ==> lookup(after.entries, other) is None || lookup(
                after.entries,
                other,
            ) == lookup(before.entries, other)
            &&& lookup(before.entries, key) is None ==> lookup(after.entries, key) is None
            &&& lookup(before.entries, key) is Some && lookup(after.entries, key) is None
                ==> exists|now: int| #[trigger]
                forgotten(before.entries, after.entries, now, key)
            &&& lookup(after.entries, key) is Some ==> lookup(after.entries, key) == match lookup(
                before.entries,
                key,
            ) {
                Some(StateView::Unknown(_)) => Some(StateView::Unknown(Seq::empty())),
                known => known,
            }
        }),
{
    let key = connection_key(outgoing(address));
    let (found, value) = choose|found: Option<StateView>, value: StateView|
        {
            &&& #[trigger] used(before.entries, after.entries, key, found, value)
            &&& found matches Some(state) ==> value == state.emptied()
        };
    lemma_use_touches_one_entry(before.entries, after.entries, key, found, value, other);
    lemma_use_touches_one_entry(before.entries, after.entries, key, found, value, key);
    if found is None && lookup(before.entries, key) is Some {
        let now = choose|now: int| #[trigger] aged(before.entries, after.entries, now);
        lemma_connection_is_remembered_for_ten_minutes(before.entries, after.entries, now, key);
        assert(forgotten(before.entries, after.entries, now, key));
    }
}

/// A connection that was made, or alike accepted, by a process that is then
/// intercepted: the next packet from the local to the remote end is intercepted
/// on behalf of this process, unless more than ten minutes have passed.
pub proof fn lemma_packets_of_an_intercepted_process_are_intercepted<C>(
    before: RedirectorView<C>,
    opened: RedirectorView<C>,
    socket: SocketAddress,
    pid: u32,
    id: ConnectionId,
    process_info: ProcessView,
    decided: RedirectorView<C>,
    released: Seq<DispatchView>,
    after: RedirectorView<C>,
    address: NetworkAddress,
    data: Seq<u8>,
    step: StepView,
)
    requires
        socket_handled(before, opened, socket, StepView::Connect(pid, id)),
        distinct(before.entries),
        distinct(opened.entries),
        recorded(
            opened.entries,
            decided.entries,
            id,
            ConnectionAction::of_verdict(process_info, true),
            released,
        ),
        packet_handled(decided, after, address, data, step),
        transport(data) is Ok,
        is_ordinary(data),
        connection_id(data).proto is Tcp <==> socket.protocol == 6,
        connection_id(data).src == end_of(socket.local_address, socket.local_port),
        connection_id(data).dst == end_of(socket.remote_address, socket.remote_port),
    ensures
        pid == socket.process_id,
        step == StepView::Process(
            seq![DispatchView { address, data, action: ActionView::Intercept(process_info) }],
        ) || exists|kept: Entries, now: int| #[trigger]
            forgotten(decided.entries, kept, now, connection_key(connection_id(data))),
{
    let key = connection_key(connection_id(data));
    let action = ActionView::Intercept(process_info);
    assert(!is_ignored(before.frontend, socket));
    assert(socket.event is SocketConnect || socket.event is SocketAccept);
    lemma_opened_connection_is_put_to_the_configuration(
        before,
        opened,
        socket,
        StepView::Connect(pid, id),
        key,
    );
    assert(id == connection_id(data));
    lemma_what_is_known_after_recording(
        opened.entries,
        decided.entries,
        id,
        action,
        released,
        key,
    );
    lemma_known_action_is_applied(decided, after, address, data, step, action);
}

/// Each event is dealt with as what it is.
pub proof fn lemma_events_are_what_they_are<C>(
    before: RedirectorView<C>,
    after: RedirectorView<C>,
    event: Event<C>,
    step: StepView,
)
    requires
        event_handled(before, after, event, step),
    ensures
        event matches Event::NetworkPacket(address, data) ==> packet_handled(
            before,
            after,
            address,
            data@,
            step,
        ),
        event matches Event::SocketInfo(address) ==> socket_handled(before, after, address, step),
        event matches Event::InterceptConf(conf, table) ==> {
            ||| step == StepView::Process(Seq::empty()) && conf_changed(
                before,
                after,
                conf,
                rows_of(table),
                None,
            )
            ||| step matches StepView::Fail(e) && conf_changed(
                before,
                after,
                conf,
                rows_of(table),
                Some(e),
            )
        },
        event matches Event::PacketToInject(data) ==> after == before && step == StepView::Process(
            packet_injected(data@),
        ),
{
}

/// A packet that the proxy has to send is forwarded as it is, as one that leaves
/// this machine and whose checksums the driver has to see to. Bytes that are no
/// whole packet are dropped.
pub proof fn lemma_injected_packets(data: Seq<u8>)
    ensures
        transport(data) is Err ==> packet_injected(data) == Seq::<DispatchView>::empty(),
        transport(data) is Ok ==> {
            let sent = packet_injected(data);
            &&& sent.len() == 1
            &&& sent[0].data == data
            &&& sent[0].action == ActionView::Forward
            &&& sent[0].address == (NetworkAddress {
                timestamp: 0,
                event: WinDivertEvent::NetworkPacket,
                sniffed: false,
                outbound: true,
                loopback: false,
                impostor: false,
                ipv6: false,
                checksums: ValidChecksums { ip: false, tcp: false, udp: false },
                interface_index: 0,
                subinterface_index: 0,
            })
        },
{
}

/// A forwarded packet is injected as it came. An intercepted one is delivered,
/// with its checksums renewed, on behalf of the process that it is intercepted
/// for.
pub proof fn lemma_effects(dispatch: DispatchView)
    ensures
        dispatch.action is Forward ==> dispatch.processable() && dispatch.effect() == (
        EffectView::Inject { address: dispatch.address, data: dispatch.data }),
        dispatch.action matches ActionView::Intercept(process_info) ==> {
            &&& dispatch.effect() == (EffectView::Deliver {
                data: dispatch.address.checksums.renewed(dispatch.data),
                process_info,
            })
            &&& dispatch.processable() <==> dispatch.address.checksums.renewable(dispatch.data)
        },
{
}

/// Any intercepted packet whose transport checksum is valid or whose segment has
/// its checksum field and is shorter than 64 bytes can be processed.
pub proof fn lemma_short_packets_are_processable(dispatch: DispatchView)
    requires
        parses(dispatch.data),
        ({
            let (proto, offset) = transport(dispatch.data)->Ok_0;
            let valid = dispatch.address.checksums;
            match proto {
                TransportProtocol::Tcp => valid.tcp || offset + 18 <= dispatch.data.len() < offset
                    + 64,
                TransportProtocol::Udp => valid.udp || dispatch.data.len() < offset + 64,
            }
        }),
    ensures
        dispatch.processable(),
{
    lemma_short_packets_are_renewable(dispatch.address.checksums, dispatch.data);
}

/// What is told apart by its value is told apart by each of its parts.
pub proof fn lemma_values_show_every_part(
    dispatch: Dispatch,
    inbound: Inbound,
    process_info: ProcessInfo,
    row: NetworkTableEntry,
    address: NetworkAddress,
    data: Vec<u8>,
)
    ensures
        process_info@.pid == process_info.pid,
        process_info.process_name is None ==> process_info@.process_name is None,
        process_info.process_name matches Some(name) ==> process_info@.process_name == Some(name@),
        ConnectionAction::Forward@ == ActionView::Forward,
        ConnectionAction::Intercept(process_info)@ == ActionView::Intercept(process_info@),
        dispatch@.address == dispatch.address,
        dispatch@.data == dispatch.packet@,
        dispatch@.action == dispatch.action@,
        inbound@.address == inbound.address,
        inbound@.data == inbound.packet@,
        inbound@.process_info == inbound.process_info@,
        row@.protocol == row.protocol,
        row@.local_addr == row.local_addr,
        row@.remote_addr == row.remote_addr,
        row@.process_info == row.process_info@,
        row@.intercept == row.intercept,
        (Effect::Inject { address, data })@ == (EffectView::Inject { address, data: data@ }),
        (Effect::Deliver { data, process_info })@ == (EffectView::Deliver {
            data: data@,
            process_info: process_info@,
        }),
{
}

/// A step shows what is to be done, in its order, and for whom.
pub proof fn lemma_steps_show_every_part(
    dispatches: Vec<Dispatch>,
    inbound: Inbound,
    pid: u32,
    id: ConnectionId,
    socket: SocketAddr,
    protocol: TransportProtocol,
    error: ConfChangeError,
)
    ensures
        ({
            &&& Step::Process(dispatches)@ matches StepView::Process(sent)
            &&& sent.len() == dispatches@.len()
            &&& forall|i: int| 0 <= i < sent.len() ==> #[trigger] sent[i] == dispatches@[i]@
        }),
        Step::Judge(inbound)@ == StepView::Judge(inbound@),
        Step::Connect(pid, id)@ == StepView::Connect(pid, id),
        Step::Listen(pid, socket, protocol)@ == StepView::Listen(pid, socket, protocol),
        Step::Fail(error)@ == StepView::Fail(error),
{
}

/// A state shows the action, or every packet that waits, in its order.
pub proof fn lemma_states_show_every_part(
    action: ConnectionAction,
    packets: Vec<(NetworkAddress, crate::packet::Packet)>,
)
    ensures
        ConnectionState::Known(action)@ == StateView::Known(action@),
        ({
            &&& ConnectionState::Unknown(packets)@ matches StateView::Unknown(waiting)
            &&& waiting.len() == packets@.len()
            &&& forall|i: int|
                0 <= i < waiting.len() ==> #[trigger] waiting[i] == (packets@[i].0, packets@[i].1@)
        }),
{
}

/// Whether a row of the table of sockets is about TCP or UDP.
pub open spec fn is_of_known_protocol(row: NetworkTableEntry) -> bool {
    row.protocol == 6 || row.protocol == 17
}

/// Whether a socket of the table has no remote end.
pub open spec fn has_no_remote_end(row: NetworkTableEntry) -> bool {
    match row.remote_addr {
        SocketAddr::V4(a) => a.ip == 0,
        SocketAddr::V6(a) => a.ip == 0,
    }
}

pub open spec fn protocol_of(row: NetworkTableEntry) -> TransportProtocol {
    if row.protocol == 6 {
        TransportProtocol::Tcp
    } else {
        TransportProtocol::Udp
    }
}

/// The direction from the local to the remote end of a socket of the table.
pub open spec fn direction_of(row: NetworkTableEntry) -> ConnectionId {
    ConnectionId { proto: protocol_of(row), src: row.local_addr, dst: row.remote_addr }
}

/// What the verdict on the process of a socket of the table says.
pub open spec fn verdict_of(row: NetworkTableEntry) -> ActionView {
    if row.intercept {
        ActionView::Intercept(
            ProcessView {
                pid: row.process_info.pid,
                process_name: match row.process_info.process_name {
                    Some(name) => Some(name@),
                    None => None,
                },
            },
        )
    } else {
        ActionView::Forward
    }
}

/// Whether a row of the table is about the direction, or its reverse, under
/// `key`.
pub open spec fn is_about(row: NetworkTableEntry, key: ConnectionKey) -> bool {
    &&& is_of_known_protocol(row)
    &&& !has_no_remote_end(row)
    &&& connection_key(direction_of(row)) == key || connection_key(direction_of(row).reversed())
        == key
}

/// Whether a row of the table is about a socket that listens under `key`.
pub open spec fn is_listener(row: NetworkTableEntry, key: ListenerKey) -> bool {
    &&& is_of_known_protocol(row)
    &&& has_no_remote_end(row)
    &&& (place_of(row.local_addr), protocol_of(row)) == key
}

/// What one row of the table brings: nothing if it is of another protocol than
/// TCP and UDP; a listener, and nothing else, if it has no remote end; what is
/// done with its direction, by the verdict on its process, and nothing else, if
/// it has one.
pub proof fn lemma_what_a_row_brings(
    before: Knowledge,
    row: NetworkTableEntry,
    after: Knowledge,
)
    requires
        row_taken_in(before, row@, after),
        distinct(before.entries),
    ensures
        distinct(after.entries),
        !is_of_known_protocol(row) ==> after == before,
        is_of_known_protocol(row) && has_no_remote_end(row) ==> {
            &&& after.entries == before.entries
            &&& after.listeners == before.listeners.insert(
                (place_of(row.local_addr), protocol_of(row)),
                row.process_info@,
            )
        },
        is_of_known_protocol(row) && !has_no_remote_end(row) ==> {
            &&& after.listeners == before.listeners
            &&& recorded(
                before.entries,
                after.entries,
                direction_of(row),
                verdict_of(row),
                Seq::empty(),
            )
            &&& lookup(after.entries, connection_key(direction_of(row))) == Some(
                StateView::Known(verdict_of(row)),
            )
            &&& last_used(after.entries, connection_key(direction_of(row))) == Some(
                after.entries.last().2,
            )
        },
{
    if is_of_known_protocol(row) && !has_no_remote_end(row) {
        let id = direction_of(row);
        lemma_what_is_known_after_recording(
            before.entries,
            after.entries,
            id,
            verdict_of(row),
            Seq::empty(),
            connection_key(id),
        );
    }
}

/// A table can be taken in in two parts.
proof fn lemma_table_in_two_parts(
    before: Knowledge,
    rows: Seq<TableEntryView>,
    after: Knowledge,
    at: int,
) -> (between: Knowledge)
    requires
        table_taken_in(before, rows, after),
        0 <= at <= rows.len(),
    ensures
        table_taken_in(before, rows.take(at), between),
        table_taken_in(between, rows.skip(at), after),
    decreases rows.len(),
{
    if at == rows.len() {
        assert(rows.take(at) =~= rows);
        assert(rows.skip(at) =~= Seq::empty());
        after
    } else {
        let last = choose|between: Knowledge|
            {
                &&& table_taken_in(before, rows.drop_last(), between)
                &&& #[trigger] row_taken_in(between, rows.last(), after)
            };
        let between = lemma_table_in_two_parts(before, rows.drop_last(), last, at);
        assert(rows.drop_last().take(at) =~= rows.take(at));
        assert(rows.drop_last().skip(at) =~= rows.skip(at).drop_last());
        assert(rows.skip(at).last() == rows.last());
        assert(row_taken_in(last, rows.skip(at).last(), after));
        between
    }
}

/// Rows that are not about a direction leave what is known of it, unless it was
/// not used for ten minutes when the last of them was taken in.
proof fn lemma_other_rows_leave_a_direction(
    before: Knowledge,
    table: Seq<NetworkTableEntry>,
    after: Knowledge,
    key: ConnectionKey,
)
    requires
        table_taken_in(before, table_views(table), after),
        distinct(before.entries),
        forall|j: int| 0 <= j < table.len() ==> !is_about(#[trigger] table[j], key),
    ensures
        distinct(after.entries),
        before.entries.len() > 0 ==> after.entries.len() > 0 && before.entries.last().2
            <= after.entries.last().2,
        lookup(before.entries, key) is Some ==> ({
            ||| lookup(after.entries, key) == lookup(before.entries, key) && last_used(
                after.entries,
                key,
            ) == last_used(before.entries, key)
            ||| after.entries.len() > 0 && after.entries.last().2 - last_used(
                before.entries,
                key,
            )->0 > ten_minutes()
        }),
        (forall|j: int|
            0 <= j < table.len() ==> !is_of_known_protocol(#[trigger] table[j])
                || has_no_remote_end(table[j])) ==> after.entries == before.entries,
    decreases table.len(),
{
    let rows = table_views(table);
    if table.len() > 0 {
        let between = choose|between: Knowledge|
            {
                &&& table_taken_in(before, rows.drop_last(), between)
                &&& #[trigger] row_taken_in(between, rows.last(), after)
            };
        let row = table.last();
        assert(rows.drop_last() =~= table_views(table.drop_last()));
        assert(rows.last() == row@);
        assert forall|j: int| 0 <= j < table.drop_last().len() implies !is_about(
            #[trigger] table.drop_last()[j],
            key,
        ) by {
            assert(!is_about(table[j], key));
        }
        lemma_other_rows_leave_a_direction(before, table.drop_last(), between, key);
        lemma_what_a_row_brings(between, row, after);
        assert(!is_about(table[table.len() - 1], key));
        if is_of_known_protocol(row) && !has_no_remote_end(row) {
            lemma_what_is_known_after_recording(
                between.entries,
                after.entries,
                direction_of(row),
                verdict_of(row),
                Seq::empty(),
                key,
            );
        }
        if forall|j: int|
            0 <= j < table.len() ==> !is_of_known_protocol(#[trigger] table[j])
                || has_no_remote_end(table[j]) {
            assert forall|j: int| 0 <= j < table.drop_last().len() implies !is_of_known_protocol(
                #[trigger] table.drop_last()[j],
            ) || has_no_remote_end(table.drop_last()[j]) by {
                assert(table[j] == table.drop_last()[j]);
            }
            assert(table[table.len() - 1] == row);
        }
    }
}

/// Any table keeps directions apart.
proof fn lemma_table_keeps_directions_apart(
    before: Knowledge,
    table: Seq<NetworkTableEntry>,
    after: Knowledge,
)
    requires
        table_taken_in(before, table_views(table), after),
        distinct(before.entries),
    ensures
        distinct(after.entries),
    decreases table.len(),
{
    let rows = table_views(table);
    if table.len() > 0 {
        let between = choose|between: Knowledge|
            {
                &&& table_taken_in(before, rows.drop_last(), between)
                &&& #[trigger] row_taken_in(between, rows.last(), after)
            };
        assert(rows.drop_last() =~= table_views(table.drop_last()));
        lemma_table_keeps_directions_apart(before, table.drop_last(), between);
        lemma_what_a_row_brings(between, table.last(), after);
    }
}

/// Rows that are not about a listener leave it.
proof fn lemma_other_rows_leave_a_listener(
    before: Knowledge,
    table: Seq<NetworkTableEntry>,
    after: Knowledge,
    key: ListenerKey,
)
    requires
        table_taken_in(before, table_views(table), after),
        distinct(before.entries),
        forall|j: int| 0 <= j < table.len() ==> !is_listener(#[trigger] table[j], key),
    ensures
        distinct(after.entries),
        after.listeners.contains_key(key) == before.listeners.contains_key(key),
        before.listeners.contains_key(key) ==> after.listeners[key] == before.listeners[key],
    decreases table.len(),
{
    let rows = table_views(table);
    if table.len() > 0 {
        let between = choose|between: Knowledge|
            {
                &&& table_taken_in(before, rows.drop_last(), between)
                &&& #[trigger] row_taken_in(between, rows.last(), after)
            };
        assert(rows.drop_last() =~= table_views(table.drop_last()));
        assert forall|j: int| 0 <= j < table.drop_last().len() implies !is_listener(
            #[trigger] table.drop_last()[j],
            key,
        ) by {
            assert(!is_listener(table[j], key));
        }
        lemma_other_rows_leave_a_listener(before, table.drop_last(), between, key);
        lemma_what_a_row_brings(between, table.last(), after);
        assert(!is_listener(table[table.len() - 1], key));
    }
}

/// Whether the rows of a table up to the one at `i` are read: the callback
/// frontend reads them all, the others up to the first that is neither TCP nor
/// UDP.
pub open spec fn is_read(frontend: Frontend, table: Seq<NetworkTableEntry>, i: int) -> bool {
    frontend == Frontend::Callback || forall|j: int|
        0 <= j <= i ==> is_of_known_protocol(#[trigger] table[j])
}

/// How the knowledge that the table brings comes about: the rows before the one
/// at `i`, then that row, then those after it.
proof fn lemma_knowledge_before_and_after_a_row<C>(
    before: RedirectorView<C>,
    after: RedirectorView<C>,
    conf: C,
    table: Seq<NetworkTableEntry>,
    error: Option<ConfChangeError>,
    i: int,
) -> (result: (int, Knowledge, Knowledge))
    requires
        conf_changed(before, after, conf, Some(table_views(table)), error),
        0 <= i < table.len(),
        is_read(before.frontend, table, i),
    ensures
        i < result.0 <= table.len(),
        table_taken_in(Knowledge::nothing(), table_views(table.take(i)), result.1),
        row_taken_in(result.1, table[i]@, result.2),
        table_taken_in(
            result.2,
            table_views(table.subrange(i + 1, result.0)),
            Knowledge { entries: after.entries, listeners: after.listeners },
        ),
        distinct(result.1.entries),
        distinct(result.2.entries),
{
    let rows = table_views(table);
    let known = Knowledge { entries: after.entries, listeners: after.listeners };
    let read = choose|read: int|
        {
            &&& #[trigger] table_read(before.frontend, rows, read, error)
            &&& table_taken_in(Knowledge::nothing(), rows.take(read), known)
        };
    assert forall|j: int| 0 <= j < table.len() implies (#[trigger] rows[j]).protocol
        == table[j].protocol by {}
    assert(i < read <= table.len()) by {
        if error is Some && read <= i {
            assert(is_of_known_protocol(table[read]));
            assert(rows[read].protocol == table[read].protocol);
        }
    }
    let middle = lemma_table_in_two_parts(Knowledge::nothing(), rows.take(read), known, i + 1);
    assert(rows.take(read).take(i + 1) =~= rows.take(i + 1));
    assert(rows.take(read).skip(i + 1) =~= table_views(table.subrange(i + 1, read)));
    assert(rows.take(i + 1).drop_last() =~= table_views(table.take(i)));
    assert(rows.take(i + 1).last() == table[i]@);
    let earlier = choose|between: Knowledge|
        {
            &&& table_taken_in(Knowledge::nothing(), rows.take(i + 1).drop_last(), between)
            &&& #[trigger] row_taken_in(between, rows.take(i + 1).last(), middle)
        };
    lemma_table_keeps_directions_apart(Knowledge::nothing(), table.take(i), earlier);
    lemma_what_a_row_brings(earlier, table[i], middle);
    (read, earlier, middle)
}

/// Whether the direction of the row at `i` was known, by the verdict on its
/// process, once that row was taken in, after which the rows up to `read` led to
/// `after`.
pub open spec fn was_known_then(
    after: Knowledge,
    table: Seq<NetworkTableEntry>,
    i: int,
    read: int,
    earlier: Knowledge,
    then: Knowledge,
) -> bool {
    &&& table_taken_in(Knowledge::nothing(), table_views(table.take(i)), earlier)
    &&& row_taken_in(earlier, table[i]@, then)
    &&& table_taken_in(then, table_views(table.subrange(i + 1, read)), after)
    &&& lookup(then.entries, connection_key(direction_of(table[i]))) == Some(
        StateView::Known(verdict_of(table[i])),
    )
}

/// After a change of the configuration, every TCP or UDP socket of the table with
/// a remote end, that no later row is about, is in force: the direction from its
/// local to its remote end is intercepted on behalf of its process if the verdict
/// says so, and forwarded otherwise. It can be forgotten only if, while the rest
/// of the table was read, more than ten minutes passed; not if no connection
/// comes after it.
pub proof fn lemma_connections_of_the_table_are_in_force<C>(
    before: RedirectorView<C>,
    after: RedirectorView<C>,
    conf: C,
    table: Seq<NetworkTableEntry>,
    error: Option<ConfChangeError>,
    i: int,
)
    requires
        conf_changed(before, after, conf, Some(table_views(table)), error),
        0 <= i < table.len(),
        is_read(before.frontend, table, i),
        is_of_known_protocol(table[i]),
        !has_no_remote_end(table[i]),
        forall|j: int|
            i < j < table.len() ==> !is_about(
                #[trigger] table[j],
                connection_key(direction_of(table[i])),
            ),
    ensures
        ({
            let key = connection_key(direction_of(table[i]));
            let known = Some(StateView::Known(verdict_of(table[i])));
            &&& lookup(after.entries, key) is Some ==> lookup(after.entries, key) == known
            &&& lookup(after.entries, key) is None ==> exists|
                read: int,
                earlier: Knowledge,
                then: Knowledge,
            | #[trigger]
                was_known_then(
                    Knowledge { entries: after.entries, listeners: after.listeners },
                    table,
                    i,
                    read,
                    earlier,
                    then,
                ) && after.entries.last().2 - last_used(then.entries, key)->0 > ten_minutes()
            &&& (forall|j: int|
                i < j < table.len() ==> !is_of_known_protocol(#[trigger] table[j])
                    || has_no_remote_end(table[j])) ==> lookup(after.entries, key) == known
        }),
{
    let key = connection_key(direction_of(table[i]));
    let known = Knowledge { entries: after.entries, listeners: after.listeners };
    let (read, earlier, then) = lemma_knowledge_before_and_after_a_row(
        before,
        after,
        conf,
        table,
        error,
        i,
    );
    lemma_what_a_row_brings(earlier, table[i], then);
    let rest = table.subrange(i + 1, read);
    assert forall|j: int| 0 <= j < rest.len() implies !is_about(#[trigger] rest[j], key) by {
        assert(rest[j] == table[i + 1 + j]);
    }
    lemma_other_rows_leave_a_direction(then, rest, known, key);
    assert(was_known_then(known, table, i, read, earlier, then));
    lemma_found_is_as_before(then, rest, known, key);
    if forall|j: int|
        i < j < table.len() ==> !is_of_known_protocol(#[trigger] table[j]) || has_no_remote_end(
            table[j],
        ) {
        assert forall|j: int| 0 <= j < rest.len() implies !is_of_known_protocol(
            #[trigger] rest[j],
        ) || has_no_remote_end(rest[j]) by {
            assert(rest[j] == table[i + 1 + j]);
        }
    }
}

/// What is found after rows that are not about a direction was found before.
proof fn lemma_found_is_as_before(
    before: Knowledge,
    table: Seq<NetworkTableEntry>,
    after: Knowledge,
    key: ConnectionKey,
)
    requires
        table_taken_in(before, table_views(table), after),
        distinct(before.entries),
        forall|j: int| 0 <= j < table.len() ==> !is_about(#[trigger] table[j], key),
    ensures
        lookup(after.entries, key) is None || lookup(after.entries, key) == lookup(
            before.entries,
            key,
        ),
    decreases table.len(),
{
    let rows = table_views(table);
    if table.len() > 0 {
        let between = choose|between: Knowledge|
            {
                &&& table_taken_in(before, rows.drop_last(), between)
                &&& #[trigger] row_taken_in(between, rows.last(), after)
            };
        let row = table.last();
        assert(rows.drop_last() =~= table_views(table.drop_last()));
        assert forall|j: int| 0 <= j < table.drop_last().len() implies !is_about(
            #[trigger] table.drop_last()[j],
            key,
        ) by {
            assert(!is_about(table[j], key));
        }
        lemma_found_is_as_before(before, table.drop_last(), between, key);
        lemma_table_keeps_directions_apart(before, table.drop_last(), between);
        lemma_what_a_row_brings(between, row, after);
        assert(!is_about(table[table.len() - 1], key));
        if is_of_known_protocol(row) && !has_no_remote_end(row) {
            lemma_what_is_known_after_recording(
                between.entries,
                after.entries,
                direction_of(row),
                verdict_of(row),
                Seq::empty(),
                key,
            );
        }
    }
}

/// After a change of the configuration, every TCP or UDP socket of the table
/// without a remote end is a listener: the process of the last row for its
/// address is registered there, `::` being the same as `0.0.0.0`.
pub proof fn lemma_listeners_of_the_table_are_in_force<C>(
    before: RedirectorView<C>,
    after: RedirectorView<C>,
    conf: C,
    table: Seq<NetworkTableEntry>,
    error: Option<ConfChangeError>,
    i: int,
)
    requires
        conf_changed(before, after, conf, Some(table_views(table)), error),
        0 <= i < table.len(),
        is_read(before.frontend, table, i),
        is_of_known_protocol(table[i]),
        has_no_remote_end(table[i]),
        forall|j: int|
            i < j < table.len() ==> !is_listener(
                #[trigger] table[j],
                (place_of(table[i].local_addr), protocol_of(table[i])),
            ),
    ensures
        ({
            let key = (place_of(table[i].local_addr), protocol_of(table[i]));
            &&& after.listeners.contains_key(key)
            &&& after.listeners[key] == table[i].process_info@
        }),
{
    let key = (place_of(table[i].local_addr), protocol_of(table[i]));
    let known = Knowledge { entries: after.entries, listeners: after.listeners };
    let (read, earlier, then) = lemma_knowledge_before_and_after_a_row(
        before,
        after,
        conf,
        table,
        error,
        i,
    );
    lemma_what_a_row_brings(earlier, table[i], then);
    let rest = table.subrange(i + 1, read);
    assert forall|j: int| 0 <= j < rest.len() implies !is_listener(#[trigger] rest[j], key) by {
        assert(rest[j] == table[i + 1 + j]);
    }
    lemma_other_rows_leave_a_listener(then, rest, known, key);
}

/// What no row of the table is about is not known after a change of the
/// configuration.
pub proof fn lemma_nothing_else_is_in_force<C>(
    before: RedirectorView<C>,
    after: RedirectorView<C>,
    conf: C,
    table: Option<Seq<NetworkTableEntry>>,
    error: Option<ConfChangeError>,
    key: ConnectionKey,
    listener: ListenerKey,
)
    requires
        conf_changed(
            before,
            after,
            conf,
            match table {
                Some(table) => Some(table_views(table)),
                None => None,
            },
            error,
        ),
    ensures
        after.conf == conf,
        after.frontend == before.frontend,
        table is None ==> after.entries.len() == 0 && !after.listeners.contains_key(listener),
        table matches Some(rows) ==> (forall|j: int|
            0 <= j < rows.len() ==> !is_about(#[trigger] rows[j], key)) ==> lookup(
            after.entries,
            key,
        ) is None,
        table matches Some(rows) ==> (forall|j: int|
            0 <= j < rows.len() ==> !is_listener(#[trigger] rows[j], listener))
            ==> !after.listeners.contains_key(listener),
{
    if let Some(rows) = table {
        let views = table_views(rows);
        let known = Knowledge { entries: after.entries, listeners: after.listeners };
        let read = choose|read: int|
            {
                &&& #[trigger] table_read(before.frontend, views, read, error)
                &&& table_taken_in(Knowledge::nothing(), views.take(read), known)
            };
        assert(views.take(read) =~= table_views(rows.take(read)));
        let part = rows.take(read);
        if forall|j: int| 0 <= j < rows.len() ==> !is_about(#[trigger] rows[j], key) {
            assert forall|j: int| 0 <= j < part.len() implies !is_about(
                #[trigger] part[j],
                key,
            ) by {
                assert(part[j] == rows[j]);
            }
            lemma_found_is_as_before(Knowledge::nothing(), part, known, key);
        }
        if forall|j: int| 0 <= j < rows.len() ==> !is_listener(#[trigger] rows[j], listener) {
            assert forall|j: int| 0 <= j < part.len() implies !is_listener(
                #[trigger] part[j],
                listener,
            ) by {
                assert(part[j] == rows[j]);
            }
            lemma_other_rows_leave_a_listener(Knowledge::nothing(), part, known, listener);
        }
    }
}

/// A change of the configuration fails if the table of sockets cannot be read,
/// or with the number of its first protocol that is neither TCP nor UDP; but it
/// never fails the callback frontend.
pub proof fn lemma_when_a_change_fails<C>(
    before: RedirectorView<C>,
    after: RedirectorView<C>,
    conf: C,
    table: Option<Seq<NetworkTableEntry>>,
    error: Option<ConfChangeError>,
    i: int,
)
    requires
        conf_changed(
            before,
            after,
            conf,
            match table {
                Some(table) => Some(table_views(table)),
                None => None,
            },
            error,
        ),
    ensures
        before.frontend == Frontend::Callback ==> error is None,
        before.frontend != Frontend::Callback && table is None ==> error == Some(
            ConfChangeError::NetworkTable,
        ),
        table matches Some(rows) ==> (forall|j: int|
            0 <= j < rows.len() ==> is_of_known_protocol(#[trigger] rows[j])) ==> error is None,
        before.frontend != Frontend::Callback ==> (table matches Some(rows) ==> 0 <= i < rows.len()
            && !is_of_known_protocol(rows[i]) && (forall|j: int|
            0 <= j < i ==> is_of_known_protocol(#[trigger] rows[j])) ==> error == Some(
            ConfChangeError::UnknownTransportProtocol(rows[i].protocol),
        )),
{
    if let Some(rows) = table {
        let views = table_views(rows);
        let known = Knowledge { entries: after.entries, listeners: after.listeners };
        let read = choose|read: int|
            {
                &&& #[trigger] table_read(before.frontend, views, read, error)
                &&& table_taken_in(Knowledge::nothing(), views.take(read), known)
            };
        assert forall|j: int| 0 <= j < rows.len() implies (#[trigger] views[j]).protocol
            == rows[j].protocol by {}
        if error is Some {
            assert(!is_of_known_protocol(rows[read]));
            if 0 <= i < read {
                assert(views[i].protocol == rows[i].protocol);
            }
        } else if 0 <= i < rows.len() {
            assert(views[i].protocol == rows[i].protocol);
        }
    }
}

/// The table of an event is the one that is taken in, row by row.
pub proof fn lemma_table_of_an_event(table: Vec<NetworkTableEntry>)
    ensures
        rows_of(Some(table)) == Some(table_views(table@)),
        rows_of(None) is None,
        table_views(table@).len() == table@.len(),
        forall|i: int|
            0 <= i < table@.len() ==> #[trigger] table_views(table@)[i] == table@[i]@,
{
}

/// Once the process of a connection is known, the action that follows from the
/// verdict on it is recorded for the connection, and nothing else changes.
pub proof fn lemma_resolved_connection<C>(
    before: RedirectorView<C>,
    after: RedirectorView<C>,
    id: ConnectionId,
    process_info: ProcessView,
    intercept: bool,
    sent: Seq<DispatchView>,
)
    requires
        connection_resolved(before, after, id, process_info, intercept, sent),
    ensures
        after.frontend == before.frontend,
        after.conf == before.conf,
        after.listeners == before.listeners,
        intercept ==> recorded(
            before.entries,
            after.entries,
            id,
            ActionView::Intercept(process_info),
            sent,
        ),
        !intercept ==> recorded(before.entries, after.entries, id, ActionView::Forward, sent),
{
}

/// Once the process that listens is known, it is the one that is registered for
/// its socket, `::` being the same as `0.0.0.0`, and nothing else changes.
pub proof fn lemma_resolved_listener<C>(
    before: RedirectorView<C>,
    after: RedirectorView<C>,
    socket: SocketAddr,
    protocol: TransportProtocol,
    process_info: ProcessView,
    other: ListenerKey,
)
    requires
        listener_resolved(before, after, socket, protocol, process_info),
    ensures
        after.frontend == before.frontend,
        after.conf == before.conf,
        after.entries == before.entries,
        after.listeners.contains_key((place_of(socket), protocol)),
        after.listeners[(place_of(socket), protocol)] == process_info,
        other != (place_of(socket), protocol) ==> {
            &&& after.listeners.contains_key(other) == before.listeners.contains_key(other)
            &&& after.listeners.contains_key(other) ==> after.listeners[other]
                == before.listeners[other]
        },
{
}

/// How the three frontends differ.
pub proof fn lemma_frontends()
    ensures
        Frontend::Server.skips_multicast() && Frontend::Callback.skips_multicast(),
        !Frontend::Direct.skips_multicast(),
        Frontend::Callback.is_lenient(),
        !Frontend::Server.is_lenient() && !Frontend::Direct.is_lenient(),
        !Frontend::Callback.ends_on_error(),
        Frontend::Server.ends_on_error() && Frontend::Direct.ends_on_error(),
{
}

/// Every event can be dealt with, but for packets whose extension headers lead
/// nowhere.
pub proof fn lemma_what_can_be_dealt_with<C>(event: Event<C>)
    ensures
        event is SocketInfo || event is InterceptConf ==> event.digestible(),
        event matches Event::NetworkPacket(_, data) ==> (event.digestible() <==> !endless(data@)),
        event matches Event::PacketToInject(data) ==> (event.digestible() <==> !endless(data@)),
{
}

} // verus!

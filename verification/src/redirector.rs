//! Decides, for every packet and every operation on a socket, what is done.

use vstd::prelude::*;

use crate::addr::SocketAddr;
use crate::connections::{
    aged, connection_key, distinct, lemma_lookup, lemma_without, looked_up, lookup, orderly, placed,
    put, recorded, recorded_over, timely, waiting_dropped, without, ConnectionKey, Connections,
    Entries, Placement, StateView,
};
use crate::dispatch::{dispatch_views, Dispatch, DispatchView};
use crate::event::{NetworkAddress, NetworkTableEntry, SocketAddress, WinDivertEvent};
use crate::header::{connection_id, dst_ip, endless, is_endless, src_ip, transport};
use crate::listeners::{answering, registered, unified, ActiveListeners, ListenerKey};
use crate::packet::Packet;
use crate::process::{ActionView, ConnectionAction, ProcessInfo, ProcessView};
use crate::protocol::{ConnectionId, ParseError, TransportProtocol};

verus! {

/// Whom intercepted packets are handed to. The three differ in how they deal
/// with what they do not understand.
#[derive(Debug, Clone, Copy, PartialEq, Eq, Structural)]
pub enum Frontend {
    /// Nobody; they are dropped.
    Server,
    /// A callback.
    Callback,
    /// The network layer of the proxy.
    Direct,
}

impl Frontend {
    /// Whether operations on multicast sockets are ignored.
    pub open spec fn skips_multicast(self) -> bool {
        !(self is Direct)
    }

    /// Whether a table of sockets that cannot be read, or that holds an unknown
    /// protocol, is put up with.
    pub open spec fn is_lenient(self) -> bool {
        self is Callback
    }

    /// Whether no further event is dealt with once one has failed.
    pub open spec fn ends_on_error(self) -> bool {
        !(self is Callback)
    }

    pub fn is_ended_by_error(&self) -> (result: bool)
        ensures
            result == self.ends_on_error(),
    {
        !matches!(self, Frontend::Callback)
    }
}

/// The process id of the Windows kernel.
pub const SYSTEM_PID: u32 = 4;

/// A packet from outside for a process that listens. Whether it is intercepted
/// is up to the configuration.
#[derive(Debug)]
pub struct Inbound {
    pub address: NetworkAddress,
    pub packet: Packet,
    pub process_info: ProcessInfo,
}

/// The value of an [`Inbound`].
pub struct InboundView {
    pub address: NetworkAddress,
    pub data: Seq<u8>,
    pub process_info: ProcessView,
}

impl View for Inbound {
    type V = InboundView;

    open spec fn view(&self) -> InboundView {
        InboundView {
            address: self.address,
            data: self.packet@,
            process_info: self.process_info@,
        }
    }
}

/// Why a change of the configuration was not carried out completely.
#[derive(Debug, Clone, Copy, PartialEq, Eq, Structural)]
pub enum ConfChangeError {
    /// The table of sockets could not be read.
    NetworkTable,
    /// A socket of the table has a protocol of this number.
    UnknownTransportProtocol(u8),
}

/// What is to be done next.
#[derive(Debug)]
pub enum Step {
    /// Process these packets, in this order, up to the first failure.
    Process(Vec<Dispatch>),
    /// Find out whether the process is intercepted, and go on with
    /// [`Redirector::resolve_inbound`].
    Judge(Inbound),
    /// Find out about the process with this id and whether it is intercepted,
    /// and go on with [`Redirector::resolve_connection`].
    Connect(u32, ConnectionId),
    /// Find out about the process with this id, and go on with
    /// [`Redirector::resolve_listener`].
    Listen(u32, SocketAddr, TransportProtocol),
    /// Give up.
    Fail(ConfChangeError),
}

/// The value of a [`Step`].
pub enum StepView {
    Process(Seq<DispatchView>),
    Judge(InboundView),
    Connect(u32, ConnectionId),
    Listen(u32, SocketAddr, TransportProtocol),
    Fail(ConfChangeError),
}

impl View for Step {
    type V = StepView;

    open spec fn view(&self) -> StepView {
        match self {
            Step::Process(dispatches) => StepView::Process(dispatch_views(dispatches@)),
            Step::Judge(inbound) => StepView::Judge(inbound@),
            Step::Connect(pid, id) => StepView::Connect(*pid, *id),
            Step::Listen(pid, socket, protocol) => StepView::Listen(*pid, *socket, *protocol),
            Step::Fail(error) => StepView::Fail(*error),
        }
    }
}

/// What has happened.
#[derive(Debug)]
pub enum Event<C> {
    /// The driver took a packet out.
    NetworkPacket(NetworkAddress, Vec<u8>),
    /// The driver observed an operation on a socket.
    SocketInfo(SocketAddress),
    /// The configuration has changed. With it comes the table of sockets, if it
    /// could be read.
    InterceptConf(C, Option<Vec<NetworkTableEntry>>),
    /// The proxy has a packet to send.
    PacketToInject(Vec<u8>),
}

/// Tracks connections and listeners, under a configuration that says which
/// processes are intercepted.
pub struct Redirector<C> {
    frontend: Frontend,
    conf: C,
    connections: Connections,
    active_listeners: ActiveListeners,
}

/// The value of a [`Redirector`].
pub struct RedirectorView<C> {
    pub frontend: Frontend,
    pub conf: C,
    pub entries: Entries,
    pub listeners: Map<ListenerKey, ProcessView>,
}

impl<C> View for Redirector<C> {
    type V = RedirectorView<C>;

    closed spec fn view(&self) -> RedirectorView<C> {
        RedirectorView {
            frontend: self.frontend,
            conf: self.conf,
            entries: self.connections@,
            listeners: self.active_listeners@,
        }
    }
}

/// Whether a packet is none of the redirector's business: it goes to or comes
/// from a multicast address, or never leaves this machine.
pub open spec fn passes_through(data: Seq<u8>) -> bool {
    ||| src_ip(data).multicast()
    ||| dst_ip(data).multicast()
    ||| src_ip(data).loopback() && dst_ip(data).loopback()
}

/// What becomes of a packet of a direction that has not been seen, and of the
/// entries `before`.
pub open spec fn unseen_packet_handled(
    before: Entries,
    after: Entries,
    listeners: Map<ListenerKey, ProcessView>,
    address: NetworkAddress,
    data: Seq<u8>,
    step: StepView,
) -> bool {
    let id = connection_id(data);
    if address.outbound {
        // It waits until the socket that it comes from is known.
        &&& step == StepView::Process(Seq::empty())
        &&& exists|kept: Entries, now: int|
            #[trigger] aged(before, kept, now) && after == put(
                kept,
                connection_key(id),
                StateView::Unknown(seq![(address, data)]),
                now,
            )
    } else {
        match answering(listeners, id.dst, id.proto) {
            Some(process_info) => {
                &&& step == StepView::Judge(InboundView { address, data, process_info })
                &&& after == before
            },
            None => exists|sent: Seq<DispatchView>|
                {
                    &&& #[trigger] recorded(before, after, id, ActionView::Forward, sent)
                    &&& step == StepView::Process(
                        sent.push(DispatchView { address, data, action: ActionView::Forward }),
                    )
                },
        }
    }
}

/// What becomes of a packet whose direction was looked up in the entries
/// `before` and `found`, which left them as `between`.
pub open spec fn found_packet_handled(
    before: Entries,
    found: Option<StateView>,
    between: Entries,
    after: Entries,
    listeners: Map<ListenerKey, ProcessView>,
    address: NetworkAddress,
    data: Seq<u8>,
    step: StepView,
) -> bool {
    &&& placed(before, between, address, data, found)
    &&& match found {
        Some(StateView::Known(action)) => after == between && step == StepView::Process(
            seq![DispatchView { address, data, action }],
        ),
        Some(StateView::Unknown(_)) => after == between && step == StepView::Process(Seq::empty()),
        None => unseen_packet_handled(between, after, listeners, address, data, step),
    }
}

/// What becomes of a packet that is neither malformed nor passes through, and
/// of the entries `before`.
pub open spec fn ordinary_packet_handled(
    before: Entries,
    after: Entries,
    listeners: Map<ListenerKey, ProcessView>,
    address: NetworkAddress,
    data: Seq<u8>,
    step: StepView,
) -> bool {
    exists|found: Option<StateView>, between: Entries| #[trigger]
        found_packet_handled(before, found, between, after, listeners, address, data, step)
}

/// What becomes of any packet, and of the redirector `before`.
pub open spec fn packet_handled<C>(
    before: RedirectorView<C>,
    after: RedirectorView<C>,
    address: NetworkAddress,
    data: Seq<u8>,
    step: StepView,
) -> bool {
    &&& after.frontend == before.frontend
    &&& after.conf == before.conf
    &&& after.listeners == before.listeners
    &&& if transport(data) is Err {
        after.entries == before.entries && step == StepView::Process(Seq::empty())
    } else if passes_through(data) {
        after.entries == before.entries && step == StepView::Process(
            seq![DispatchView { address, data, action: ActionView::Forward }],
        )
    } else {
        ordinary_packet_handled(
            before.entries,
            after.entries,
            before.listeners,
            address,
            data,
            step,
        )
    }
}

/// What becomes of a packet once the verdict on the process that listens is
/// known, and of the entries `before`.
pub open spec fn inbound_resolved(
    before: Entries,
    after: Entries,
    inbound: InboundView,
    intercept: bool,
    sent: Seq<DispatchView>,
) -> bool {
    let action = ConnectionAction::of_verdict(inbound.process_info, intercept);
    exists|earlier: Seq<DispatchView>|
        {
            &&& #[trigger] recorded(before, after, connection_id(inbound.data), action, earlier)
            &&& sent == earlier.push(
                DispatchView { address: inbound.address, data: inbound.data, action },
            )
        }
}

/// What becomes of the redirector `before` once the process of a connection is
/// known, and the verdict on it.
pub open spec fn connection_resolved<C>(
    before: RedirectorView<C>,
    after: RedirectorView<C>,
    id: ConnectionId,
    process_info: ProcessView,
    intercept: bool,
    sent: Seq<DispatchView>,
) -> bool {
    &&& after == (RedirectorView { entries: after.entries, ..before })
    &&& recorded(
        before.entries,
        after.entries,
        id,
        ConnectionAction::of_verdict(process_info, intercept),
        sent,
    )
}

/// What becomes of the redirector `before` once the process that listens is
/// known.
pub open spec fn listener_resolved<C>(
    before: RedirectorView<C>,
    after: RedirectorView<C>,
    socket: SocketAddr,
    protocol: TransportProtocol,
    process_info: ProcessView,
) -> bool {
    after == (RedirectorView {
        listeners: before.listeners.insert((registered(socket), protocol), process_info),
        ..before
    })
}

/// The connection that a socket operation is about.
pub open spec fn socket_connection(
    address: SocketAddress,
    proto: TransportProtocol,
) -> ConnectionId {
    ConnectionId {
        proto,
        src: SocketAddr::of(address.local_address, address.local_port),
        dst: SocketAddr::of(address.remote_address, address.remote_port),
    }
}

/// The connection that a socket operation is about, unless it is ignored: what
/// the kernel does, what uses another protocol and, for most frontends, what is
/// multicast.
pub open spec fn observed_connection(frontend: Frontend, address: SocketAddress) -> Option<
    ConnectionId,
> {
    match TransportProtocol::numbered(address.protocol) {
        Ok(proto) => if address.process_id == SYSTEM_PID || (frontend.skips_multicast() && (
        address.local_address.multicast() || address.remote_address.multicast())) {
            None
        } else {
            Some(socket_connection(address, proto))
        },
        Err(_) => None,
    }
}

/// What becomes of the redirector `before` when a connection is made or
/// accepted.
pub open spec fn socket_opened<C>(
    before: RedirectorView<C>,
    after: RedirectorView<C>,
    address: SocketAddress,
    id: ConnectionId,
    step: StepView,
) -> bool {
    &&& after.listeners == before.listeners
    &&& match step {
        StepView::Connect(pid, connection) => {
            &&& looked_up(before.entries, after.entries, connection_key(id), true)
            &&& pid == address.process_id
            &&& connection == id
        },
        _ => {
            &&& looked_up(before.entries, after.entries, connection_key(id), false)
            &&& step == StepView::Process(Seq::empty())
        },
    }
}

/// What becomes of the redirector `before` when a socket is closed.
pub open spec fn socket_closed<C>(
    before: RedirectorView<C>,
    after: RedirectorView<C>,
    id: ConnectionId,
) -> bool {
    &&& after.listeners == before.listeners.remove((registered(id.src), id.proto))
    &&& waiting_dropped(before.entries, after.entries, connection_key(id))
}

/// What becomes of a socket operation, and of the redirector `before`.
pub open spec fn socket_handled<C>(
    before: RedirectorView<C>,
    after: RedirectorView<C>,
    address: SocketAddress,
    step: StepView,
) -> bool {
    &&& after.frontend == before.frontend
    &&& after.conf == before.conf
    &&& match observed_connection(before.frontend, address) {
        None => after == before && step == StepView::Process(Seq::empty()),
        Some(id) => match address.event {
            WinDivertEvent::SocketConnect | WinDivertEvent::SocketAccept => socket_opened(
                before,
                after,
                address,
                id,
                step,
            ),
            WinDivertEvent::SocketListen => after == before && step == StepView::Listen(
                address.process_id,
                id.src,
                id.proto,
            ),
            WinDivertEvent::SocketClose => socket_closed(before, after, id) && step
                == StepView::Process(Seq::empty()),
            _ => after == before && step == StepView::Process(Seq::empty()),
        },
    }
}

/// Where no packet waits.
pub open spec fn nothing_waits(entries: Entries) -> bool {
    forall|i: int| 0 <= i < entries.len() ==> (#[trigger] entries[i]).1 is Known
}

/// The value of a [`NetworkTableEntry`].
pub struct TableEntryView {
    pub protocol: u8,
    pub local_addr: SocketAddr,
    pub remote_addr: SocketAddr,
    pub process_info: ProcessView,
    pub intercept: bool,
}

impl View for NetworkTableEntry {
    type V = TableEntryView;

    open spec fn view(&self) -> TableEntryView {
        TableEntryView {
            protocol: self.protocol,
            local_addr: self.local_addr,
            remote_addr: self.remote_addr,
            process_info: self.process_info@,
            intercept: self.intercept,
        }
    }
}

pub open spec fn table_views(table: Seq<NetworkTableEntry>) -> Seq<TableEntryView> {
    table.map_values(|entry: NetworkTableEntry| entry@)
}

/// What a redirector knows.
pub struct Knowledge {
    pub entries: Entries,
    pub listeners: Map<ListenerKey, ProcessView>,
}

impl Knowledge {
    pub open spec fn nothing() -> Knowledge {
        Knowledge { entries: Seq::empty(), listeners: Map::empty() }
    }
}

/// Whether `after` is `before` with one socket of the table taken in. A socket
/// with no remote end listens; one of an unknown protocol is passed over.
pub open spec fn row_taken_in(before: Knowledge, entry: TableEntryView, after: Knowledge) -> bool {
    match TransportProtocol::numbered(entry.protocol) {
        Err(_) => after == before,
        Ok(proto) => if entry.remote_addr.spec_ip().unspecified() {
            &&& after.entries == before.entries
            &&& after.listeners == before.listeners.insert(
                (registered(entry.local_addr), proto),
                entry.process_info,
            )
        } else {
            &&& after.listeners == before.listeners
            &&& recorded(
                before.entries,
                after.entries,
                ConnectionId { proto, src: entry.local_addr, dst: entry.remote_addr },
                ConnectionAction::of_verdict(entry.process_info, entry.intercept),
                Seq::empty(),
            )
        },
    }
}

/// Whether `after` is `before` with every socket of the table taken in, one
/// after the other.
pub open spec fn table_taken_in(
    before: Knowledge,
    table: Seq<TableEntryView>,
    after: Knowledge,
) -> bool
    decreases table.len(),
{
    if table.len() == 0 {
        after == before
    } else {
        exists|between: Knowledge|
            {
                &&& table_taken_in(before, table.drop_last(), between)
                &&& #[trigger] row_taken_in(between, table.last(), after)
            }
    }
}

/// Whether the socket at `i` is the first of an unknown protocol.
pub open spec fn first_unknown(table: Seq<TableEntryView>, i: int) -> bool {
    &&& 0 <= i < table.len()
    &&& TransportProtocol::numbered(table[i].protocol) is Err
    &&& forall|j: int|
        0 <= j < i ==> TransportProtocol::numbered((#[trigger] table[j]).protocol) is Ok
}

/// How far the table is read, and whether that is an error.
pub open spec fn table_read(
    frontend: Frontend,
    table: Seq<TableEntryView>,
    read: int,
    error: Option<ConfChangeError>,
) -> bool {
    match error {
        None => read == table.len() && (frontend.is_lenient() || forall|i: int|
            0 <= i < table.len() ==> TransportProtocol::numbered((#[trigger] table[i]).protocol)
                is Ok),
        Some(e) => !frontend.is_lenient() && first_unknown(table, read) && e
            == ConfChangeError::UnknownTransportProtocol(table[read].protocol),
    }
}

/// Whether a redirector that knew nothing learns `known` from the table of
/// sockets.
pub open spec fn learned(
    frontend: Frontend,
    table: Seq<TableEntryView>,
    known: Knowledge,
    error: Option<ConfChangeError>,
) -> bool {
    exists|read: int|
        {
            &&& #[trigger] table_read(frontend, table, read, error)
            &&& table_taken_in(Knowledge::nothing(), table.take(read), known)
        }
}

/// What becomes of the redirector `before` when the configuration changes:
/// whatever was known is forgotten, and the table of sockets is taken in.
pub open spec fn conf_changed<C>(
    before: RedirectorView<C>,
    after: RedirectorView<C>,
    conf: C,
    table: Option<Seq<TableEntryView>>,
    error: Option<ConfChangeError>,
) -> bool {
    let known = Knowledge { entries: after.entries, listeners: after.listeners };
    &&& after.frontend == before.frontend
    &&& after.conf == conf
    &&& nothing_waits(after.entries)
    &&& match table {
        None => {
            &&& known == Knowledge::nothing()
            &&& error == if before.frontend.is_lenient() {
                None
            } else {
                Some(ConfChangeError::NetworkTable)
            }
        },
        Some(table) => learned(before.frontend, table, known, error),
    }
}

/// The error that a change of the configuration ended in.
pub open spec fn error_of(result: Result<(), ConfChangeError>) -> Option<ConfChangeError> {
    match result {
        Ok(_) => None,
        Err(e) => Some(e),
    }
}

/// The rows of a table of sockets, if there is one.
pub open spec fn rows_of(table: Option<Vec<NetworkTableEntry>>) -> Option<Seq<TableEntryView>> {
    match table {
        Some(table) => Some(table_views(table@)),
        None => None,
    }
}

impl<C> Redirector<C> {
    pub closed spec fn wf(&self) -> bool {
        self.connections.wf() && self.active_listeners.wf()
    }

    /// The invariant, as far as the value shows it.
    pub proof fn lemma_value_is_in_order(&self)
        requires
            self.wf(),
        ensures
            distinct(self@.entries),
            orderly(self@.entries),
            timely(self@.entries),
            unified(self@.listeners),
    {
        self.connections.lemma_entries_are_in_order();
        self.active_listeners.lemma_wildcards_are_unified();
    }

    pub fn new(frontend: Frontend, conf: C) -> (result: Redirector<C>)
        ensures
            result.wf(),
            result@ == (RedirectorView {
                frontend,
                conf,
                entries: Seq::empty(),
                listeners: Map::empty(),
            }),
    {
        Redirector {
            frontend,
            conf,
            connections: Connections::new(),
            active_listeners: ActiveListeners::new(),
        }
    }

    /// The configuration in force.
    pub fn conf(&self) -> (conf: &C)
        ensures
            *conf == self@.conf,
    {
        &self.conf
    }

    /// Decides what is done with a packet that the driver took out.
    pub fn handle_network_packet(&mut self, address: NetworkAddress, data: Vec<u8>) -> (step: Step)
        requires
            old(self).wf(),
            !endless(data@),
        ensures
            final(self).wf(),
            packet_handled(old(self)@, final(self)@, address, data@, step@),
    {
        let packet = match Packet::parse(data) {
            Ok(packet) => packet,
            Err(_) => {
                return Step::Process(nothing());
            },
        };
        let id = packet.connection_id();
        let src_ip = id.src.ip();
        let dst_ip = id.dst.ip();
        let is_multicast = src_ip.is_multicast() || dst_ip.is_multicast();
        let is_loopback_only = src_ip.is_loopback() && dst_ip.is_loopback();
        if is_multicast || is_loopback_only {
            return Step::Process(forwarded(address, packet));
        }
        let ghost bytes = packet@;
        let placement = self.connections.place(address, packet);
        let ghost between = self.connections@;
        let ghost found = choose|found: Option<StateView>|
            {
                &&& #[trigger] placed(old(self)@.entries, between, address, bytes, found)
                &&& placement.follows_from(found, address, bytes)
            };
        let step = self.handle_placement(placement);
        assert(found_packet_handled(
            old(self)@.entries,
            found,
            between,
            self@.entries,
            self@.listeners,
            address,
            bytes,
            step@,
        ));
        step
    }

    /// Decides what is done with a packet whose direction was looked up.
    pub fn handle_placement(&mut self, placement: Placement) -> (step: Step)
        requires
            old(self).wf(),
        ensures
            final(self).wf(),
            match placement {
                Placement::Known(dispatch) => final(self)@ == old(self)@ && step@
                    == StepView::Process(seq![dispatch@]),
                Placement::Waiting => final(self)@ == old(self)@ && step@ == StepView::Process(
                    Seq::empty(),
                ),
                Placement::Unseen(address, packet) => final(self)@ == (RedirectorView {
                    entries: final(self)@.entries,
                    ..old(self)@
                }) && unseen_packet_handled(
                    old(self)@.entries,
                    final(self)@.entries,
                    old(self)@.listeners,
                    address,
                    packet@,
                    step@,
                ),
            },
    {
        match placement {
            Placement::Known(dispatch) => {
                let mut sent: Vec<Dispatch> = Vec::new();
                sent.push(dispatch);
                assert(dispatch_views(sent@) =~= seq![dispatch@]);
                Step::Process(sent)
            },
            Placement::Waiting => Step::Process(nothing()),
            Placement::Unseen(address, packet) => self.handle_unseen_packet(address, packet),
        }
    }

    /// Decides what is done with a packet of a direction that has not been
    /// seen.
    fn handle_unseen_packet(&mut self, address: NetworkAddress, packet: Packet) -> (step: Step)
        requires
            old(self).wf(),
        ensures
            final(self).wf(),
            final(self)@ == (RedirectorView { entries: final(self)@.entries, ..old(self)@ }),
            unseen_packet_handled(
                old(self)@.entries,
                final(self)@.entries,
                old(self)@.listeners,
                address,
                packet@,
                step@,
            ),
    {
        if address.outbound {
            self.connections.wait(address, packet);
            return Step::Process(nothing());
        }
        let id = packet.connection_id();
        match self.active_listeners.get(id.dst, id.proto) {
            Some(process_info) => {
                let process_info = process_info.clone();
                Step::Judge(Inbound { address, packet, process_info })
            },
            None => {
                let action = ConnectionAction::Forward;
                let mut sent = self.connections.insert_into_connections(&id, &action);
                let ghost earlier = sent@;
                sent.push(Dispatch { address, packet, action });
                assert(dispatch_views(sent@) =~= dispatch_views(earlier).push(sent@.last()@));
                Step::Process(sent)
            },
        }
    }

    /// Goes on with a packet for a process that listens, once it is known
    /// whether the process is intercepted.
    pub fn resolve_inbound(&mut self, inbound: Inbound, intercept: bool) -> (sent: Vec<Dispatch>)
        requires
            old(self).wf(),
        ensures
            final(self).wf(),
            final(self)@ == (RedirectorView { entries: final(self)@.entries, ..old(self)@ }),
            inbound_resolved(
                old(self)@.entries,
                final(self)@.entries,
                inbound@,
                intercept,
                dispatch_views(sent@),
            ),
    {
        let Inbound { address, packet, process_info } = inbound;
        let action = ConnectionAction::from_verdict(process_info, intercept);
        let mut sent = self.connections.insert_into_connections(&packet.connection_id(), &action);
        let ghost earlier = sent@;
        sent.push(Dispatch { address, packet, action });
        assert(dispatch_views(sent@) =~= dispatch_views(earlier).push(sent@.last()@));
        sent
    }

    /// Decides what follows from an operation on a socket.
    pub fn handle_socket_info(&mut self, address: SocketAddress) -> (step: Step)
        requires
            old(self).wf(),
        ensures
            final(self).wf(),
            socket_handled(old(self)@, final(self)@, address, step@),
    {
        if address.process_id == SYSTEM_PID {
            return Step::Process(nothing());
        }
        let proto = match TransportProtocol::try_from(address.protocol) {
            Ok(proto) => proto,
            Err(_) => {
                return Step::Process(nothing());
            },
        };
        let id = ConnectionId {
            proto,
            src: SocketAddr::new(address.local_address, address.local_port),
            dst: SocketAddr::new(address.remote_address, address.remote_port),
        };
        if !matches!(self.frontend, Frontend::Direct) && (id.src.ip().is_multicast()
            || id.dst.ip().is_multicast()) {
            return Step::Process(nothing());
        }
        match address.event {
            WinDivertEvent::SocketConnect | WinDivertEvent::SocketAccept => {
                let make_entry = self.connections.is_undecided(&id);
                let step = if make_entry {
                    Step::Connect(address.process_id, id)
                } else {
                    Step::Process(nothing())
                };
                step
            },
            WinDivertEvent::SocketListen => Step::Listen(address.process_id, id.src, proto),
            WinDivertEvent::SocketClose => {
                self.connections.drop_waiting(&id);
                self.active_listeners.remove(id.src, proto);
                Step::Process(nothing())
            },
            _ => Step::Process(nothing()),
        }
    }

    /// Goes on with a connection that was made or accepted, once the process is
    /// known, and whether it is intercepted.
    pub fn resolve_connection(
        &mut self,
        id: ConnectionId,
        process_info: ProcessInfo,
        intercept: bool,
    ) -> (sent: Vec<Dispatch>)
        requires
            old(self).wf(),
        ensures
            final(self).wf(),
            connection_resolved(
                old(self)@,
                final(self)@,
                id,
                process_info@,
                intercept,
                dispatch_views(sent@),
            ),
    {
        let action = ConnectionAction::from_verdict(process_info, intercept);
        self.connections.insert_into_connections(&id, &action)
    }

    /// Goes on with a socket that began to listen, once the process is known.
    pub fn resolve_listener(
        &mut self,
        socket: SocketAddr,
        protocol: TransportProtocol,
        process_info: ProcessInfo,
    )
        requires
            old(self).wf(),
        ensures
            final(self).wf(),
            listener_resolved(old(self)@, final(self)@, socket, protocol, process_info@),
    {
        self.active_listeners.insert(socket, protocol, process_info);
    }

    /// Takes one socket of the table in.
    fn take_in(&mut self, proto: TransportProtocol, entry: NetworkTableEntry)
        requires
            old(self).wf(),
            nothing_waits(old(self)@.entries),
            TransportProtocol::numbered(entry.protocol) == Ok::<_, ParseError>(proto),
        ensures
            final(self).wf(),
            final(self)@.frontend == old(self)@.frontend,
            final(self)@.conf == old(self)@.conf,
            nothing_waits(final(self)@.entries),
            row_taken_in(old(self).knowledge(), entry@, final(self).knowledge()),
    {
        if entry.remote_addr.ip().is_unspecified() {
            self.active_listeners.insert(entry.local_addr, proto, entry.process_info);
        } else {
            let id = ConnectionId { proto, src: entry.local_addr, dst: entry.remote_addr };
            let action = ConnectionAction::from_verdict(entry.process_info, entry.intercept);
            let sent = self.connections.insert_into_connections(&id, &action);
            proof {
                lemma_nothing_to_release(
                    old(self)@.entries,
                    self@.entries,
                    id,
                    action@,
                    dispatch_views(sent@),
                );
            }
        }
    }

    spec fn knowledge(&self) -> Knowledge {
        Knowledge { entries: self@.entries, listeners: self@.listeners }
    }

    /// Puts a configuration in force. What is known of connections and
    /// listeners is forgotten, along with the packets that wait, and taken from
    /// the table of sockets instead.
    #[verifier::loop_isolation(false)]
    pub fn handle_intercept_conf_change(
        &mut self,
        conf: C,
        table: Option<Vec<NetworkTableEntry>>,
    ) -> (result: Result<(), ConfChangeError>)
        requires
            old(self).wf(),
        ensures
            final(self).wf(),
            conf_changed(old(self)@, final(self)@, conf, rows_of(table), error_of(result)),
    {
        self.conf = conf;
        self.connections.clear();
        self.active_listeners.clear();
        let lenient = matches!(self.frontend, Frontend::Callback);
        let table = match table {
            Some(table) => table,
            None => {
                return if lenient {
                    Ok(())
                } else {
                    Err(ConfChangeError::NetworkTable)
                };
            },
        };
        let ghost rows = table_views(table@);
        let ghost start = self.knowledge();
        assert(start == Knowledge::nothing());
        for entry in iter: table
            invariant
                self.wf(),
                self@.frontend == old(self)@.frontend,
                self@.conf == conf,
                nothing_waits(self@.entries),
                lenient == old(self)@.frontend.is_lenient(),
                rows == table_views(iter.seq()),
                lenient || forall|j: int|
                    0 <= j < iter.index() ==> TransportProtocol::numbered(
                        (#[trigger] rows[j]).protocol,
                    ) is Ok,
                table_taken_in(start, rows.take(iter.index()), self.knowledge()),
        {
            let ghost between = self.knowledge();
            let ghost done = rows.take(iter.index());
            let ghost more = rows.take(iter.index() + 1);
            let ghost row = entry@;
            proof {
                assert(rows[iter.index()] == row);
                assert(more.drop_last() =~= done);
            }
            match TransportProtocol::try_from(entry.protocol) {
                Ok(proto) => {
                    self.take_in(proto, entry);
                },
                Err(_) => {
                    if !lenient {
                        proof {
                            assert(first_unknown(rows, iter.index()));
                            let error = ConfChangeError::UnknownTransportProtocol(row.protocol);
                            assert(table_read(self.frontend, rows, iter.index(), Some(error)));
                            assert(learned(self.frontend, rows, self.knowledge(), Some(error)));
                        }
                        return Err(ConfChangeError::UnknownTransportProtocol(entry.protocol));
                    }
                },
            }
            proof {
                assert(row_taken_in(between, more.last(), self.knowledge()));
            }
        }
        proof {
            assert(rows.take(rows.len() as int) =~= rows);
            assert(table_read(self.frontend, rows, rows.len() as int, None));
            assert(learned(self.frontend, rows, self.knowledge(), None));
        }
        Ok(())
    }

    /// What is done with a packet that the proxy has to send.
    pub fn handle_packet_injection(data: Vec<u8>) -> (sent: Vec<Dispatch>)
        requires
            !endless(data@),
        ensures
            dispatch_views(sent@) == packet_injected(data@),
    {
        match Packet::parse(data) {
            Ok(packet) => forwarded(NetworkAddress::for_injection(), packet),
            Err(_) => nothing(),
        }
    }

    /// Deals with whatever has happened.
    pub fn handle_event(&mut self, event: Event<C>) -> (step: Step)
        requires
            old(self).wf(),
            event.digestible(),
        ensures
            final(self).wf(),
            event_handled(old(self)@, final(self)@, event, step@),
    {
        match event {
            Event::NetworkPacket(address, data) => self.handle_network_packet(address, data),
            Event::SocketInfo(address) => self.handle_socket_info(address),
            Event::InterceptConf(conf, table) => {
                match self.handle_intercept_conf_change(conf, table) {
                    Ok(()) => Step::Process(nothing()),
                    Err(e) => Step::Fail(e),
                }
            },
            Event::PacketToInject(data) => Step::Process(
                Redirector::<C>::handle_packet_injection(data),
            ),
        }
    }
}

/// What is sent for a packet that the proxy has to send.
pub open spec fn packet_injected(data: Seq<u8>) -> Seq<DispatchView> {
    if transport(data) is Ok {
        seq![
            DispatchView {
                address: NetworkAddress::injected(),
                data,
                action: ActionView::Forward,
            },
        ]
    } else {
        Seq::empty()
    }
}

impl<C> Event<C> {
    /// Whether the packet of the event, if there is one, can be parsed at all.
    pub open spec fn digestible(self) -> bool {
        match self {
            Event::NetworkPacket(_, data) => !endless(data@),
            Event::PacketToInject(data) => !endless(data@),
            _ => true,
        }
    }

    pub fn is_digestible(&self) -> (result: bool)
        ensures
            result == self.digestible(),
    {
        match self {
            Event::NetworkPacket(_, data) => !is_endless(data),
            Event::PacketToInject(data) => !is_endless(data),
            _ => true,
        }
    }

    /// The configuration that those who want to know of every change are told
    /// of because of the event, if there is one.
    pub fn announces(&self) -> (result: Option<&C>)
        ensures
            match self {
                Event::InterceptConf(conf, _) => result == Some(conf),
                _ => result is None,
            },
    {
        match self {
            Event::InterceptConf(conf, _) => Some(conf),
            _ => None,
        }
    }
}

/// What becomes of an event, and of the redirector `before`.
pub open spec fn event_handled<C>(
    before: RedirectorView<C>,
    after: RedirectorView<C>,
    event: Event<C>,
    step: StepView,
) -> bool {
    match event {
        Event::NetworkPacket(address, data) => packet_handled(before, after, address, data@, step),
        Event::SocketInfo(address) => socket_handled(before, after, address, step),
        Event::InterceptConf(conf, table) => match step {
            StepView::Process(sent) => {
                &&& sent == Seq::<DispatchView>::empty()
                &&& conf_changed(before, after, conf, rows_of(table), None)
            },
            StepView::Fail(e) => conf_changed(before, after, conf, rows_of(table), Some(e)),
            _ => false,
        },
        Event::PacketToInject(data) => after == before && step == StepView::Process(
            packet_injected(data@),
        ),
    }
}

/// Where nothing waits, nothing is released, and nothing waits afterwards.
proof fn lemma_nothing_to_release(
    before: Entries,
    after: Entries,
    id: ConnectionId,
    action: ActionView,
    sent: Seq<DispatchView>,
)
    requires
        recorded(before, after, id, action, sent),
        nothing_waits(before),
    ensures
        sent == Seq::<DispatchView>::empty(),
        nothing_waits(after),
{
    let reverse = connection_key(id.reversed());
    let forward = StateView::Known(ActionView::Forward);
    let (first, earlier, second, now) = choose|
        first: Entries,
        earlier: int,
        second: Entries,
        now: int,
    | #[trigger]
        recorded_over(before, first, earlier, second, now, after, id, action, sent);
    lemma_known_aged(before, first, earlier);
    lemma_known_put(first, reverse, forward, earlier);
    lemma_known_aged(put(first, reverse, forward, earlier), second, now);
    lemma_known_put(second, connection_key(id), StateView::Known(action), now);
    assert(sent =~= Seq::empty());
}

proof fn lemma_known_aged(before: Entries, kept: Entries, now: int)
    requires
        aged(before, kept, now),
        nothing_waits(before),
    ensures
        nothing_waits(kept),
{
    let expired = choose|expired: int|
        0 <= expired <= before.len() && kept == #[trigger] before.skip(expired);
    assert forall|i: int| 0 <= i < kept.len() implies (#[trigger] kept[i]).1 is Known by {
        assert(before[i + expired].1 is Known);
    }
}

proof fn lemma_known_put(entries: Entries, key: ConnectionKey, state: StateView, now: int)
    requires
        nothing_waits(entries),
        state is Known,
    ensures
        lookup(entries, key) matches Some(found) ==> found is Known,
        nothing_waits(put(entries, key, state, now)),
{
    lemma_without(entries, key, key);
    lemma_lookup(entries, key);
    let rest = without(entries, key);
    let after = put(entries, key, state, now);
    assert forall|i: int| 0 <= i < after.len() implies (#[trigger] after[i]).1 is Known by {
        if i < rest.len() {
            let j = choose|j: int| 0 <= j < entries.len() && entries[j] == rest[i];
            assert(entries[j].1 is Known);
        }
    }
}

fn nothing() -> (sent: Vec<Dispatch>)
    ensures
        dispatch_views(sent@) == Seq::<DispatchView>::empty(),
{
    let sent: Vec<Dispatch> = Vec::new();
    assert(dispatch_views(sent@) =~= Seq::empty());
    sent
}

fn forwarded(address: NetworkAddress, packet: Packet) -> (sent: Vec<Dispatch>)
    ensures
        dispatch_views(sent@) == seq![
            DispatchView { address, data: packet@, action: ActionView::Forward },
        ],
{
    let mut sent: Vec<Dispatch> = Vec::new();
    sent.push(Dispatch { address, packet, action: ConnectionAction::Forward });
    assert(dispatch_views(sent@) =~= seq![sent@[0]@]);
    sent
}

} // verus!

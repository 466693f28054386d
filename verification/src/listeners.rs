//! The sockets that processes listen on.

use vstd::prelude::*;

use crate::addr::{IpAddr, SocketAddr, SocketAddrV4};
use crate::process::{ProcessInfo, ProcessView};
use crate::protocol::TransportProtocol;

verus! {

/// Where a listener is registered.
pub type ListenerKey = (SocketAddr, TransportProtocol);

struct Listener {
    socket: SocketAddr,
    protocol: TransportProtocol,
    process_info: ProcessInfo,
}

/// The process that listens on each socket.
pub struct ActiveListeners {
    listeners: Vec<Listener>,
}

/// The address that stands for every local address.
pub open spec fn wildcard(socket: SocketAddr) -> SocketAddr {
    socket.with_ip(IpAddr::V4(0))
}

/// Where a listener on `socket` is registered: a socket that is bound to the
/// unspecified IPv6 address listens on every address.
pub open spec fn registered(socket: SocketAddr) -> SocketAddr {
    if socket.spec_ip() == IpAddr::V6(0) {
        wildcard(socket)
    } else {
        socket
    }
}

/// The process that answers on `socket`: the one that listens on exactly this
/// address, or else the one that listens on every address.
pub open spec fn answering(
    listeners: Map<ListenerKey, ProcessView>,
    socket: SocketAddr,
    protocol: TransportProtocol,
) -> Option<ProcessView> {
    if listeners.contains_key((socket, protocol)) {
        Some(listeners[(socket, protocol)])
    } else if listeners.contains_key((wildcard(socket), protocol)) {
        Some(listeners[(wildcard(socket), protocol)])
    } else {
        None
    }
}

/// Whether no listener is registered under the unspecified IPv6 address: those
/// on every address are all registered under the unspecified IPv4 address.
pub open spec fn unified(listeners: Map<ListenerKey, ProcessView>) -> bool {
    forall|key: ListenerKey| #[trigger]
        listeners.contains_key(key) ==> key.0.spec_ip() != IpAddr::V6(0)
}

spec fn key_of(listener: Listener) -> ListenerKey {
    (listener.socket, listener.protocol)
}

spec fn keyed(listeners: Seq<Listener>, i: int, key: ListenerKey) -> bool {
    0 <= i < listeners.len() && key_of(listeners[i]) == key
}

spec fn occupied(listeners: Seq<Listener>, key: ListenerKey) -> bool {
    exists|i: int| keyed(listeners, i, key)
}

spec fn occupant(listeners: Seq<Listener>, key: ListenerKey) -> ProcessView {
    let i = choose|i: int| keyed(listeners, i, key);
    listeners[i].process_info@
}

impl View for ActiveListeners {
    type V = Map<ListenerKey, ProcessView>;

    closed spec fn view(&self) -> Map<ListenerKey, ProcessView> {
        Map::new(
            |key: ListenerKey| occupied(self.listeners@, key),
            |key: ListenerKey| occupant(self.listeners@, key),
        )
    }
}

impl ActiveListeners {
    /// No socket is listed twice.
    spec fn unrepeated(&self) -> bool {
        forall|i: int, j: int|
            0 <= i < j < self.listeners@.len() ==> key_of(#[trigger] self.listeners@[i]) != key_of(
                #[trigger] self.listeners@[j],
            )
    }

    /// No socket is listed twice, and none under the unspecified IPv6 address.
    pub closed spec fn wf(&self) -> bool {
        self.unrepeated() && unified(self@)
    }

    /// The invariant, as far as the value shows it.
    pub proof fn lemma_wildcards_are_unified(&self)
        requires
            self.wf(),
        ensures
            unified(self@),
    {
    }

    proof fn lemma_entry(&self, i: int)
        requires
            self.unrepeated(),
            0 <= i < self.listeners@.len(),
        ensures
            self@.contains_key(key_of(self.listeners@[i])),
            self@[key_of(self.listeners@[i])] == self.listeners@[i].process_info@,
    {
        assert(keyed(self.listeners@, i, key_of(self.listeners@[i])));
    }

    pub fn new() -> (result: ActiveListeners)
        ensures
            result.wf(),
            result@ == Map::<ListenerKey, ProcessView>::empty(),
    {
        let result = ActiveListeners { listeners: Vec::new() };
        assert(result@ =~= Map::<ListenerKey, ProcessView>::empty());
        result
    }

    /// Finds the listener with exactly the given key.
    fn position(&self, socket: SocketAddr, protocol: TransportProtocol) -> (result: Option<usize>)
        requires
            self.wf(),
        ensures
            match result {
                Some(i) => keyed(self.listeners@, i as int, (socket, protocol)),
                None => !self@.contains_key((socket, protocol)),
            },
    {
        let mut i: usize = 0;
        while i < self.listeners.len()
            invariant
                i <= self.listeners.len(),
                forall|j: int| 0 <= j < i ==> !keyed(self.listeners@, j, (socket, protocol)),
            decreases self.listeners.len() - i,
        {
            if self.listeners[i].socket == socket && self.listeners[i].protocol == protocol {
                return Some(i);
            }
            i = i + 1;
        }
        None
    }

    /// Registers a listener. Returns the one that was registered there before.
    pub fn insert(
        &mut self,
        socket: SocketAddr,
        protocol: TransportProtocol,
        process_info: ProcessInfo,
    ) -> (result: Option<ProcessInfo>)
        requires
            old(self).wf(),
        ensures
            final(self).wf(),
            final(self)@ == old(self)@.insert((registered(socket), protocol), process_info@),
            match result {
                Some(previous) => old(self)@.contains_key((registered(socket), protocol))
                    && previous@ == old(self)@[(registered(socket), protocol)],
                None => !old(self)@.contains_key((registered(socket), protocol)),
            },
    {
        let mut socket = socket;
        if socket.ip() == IpAddr::V6(0) {
            socket.set_ip(IpAddr::V4(0));
        }
        match self.position(socket, protocol) {
            Some(i) => {
                let mut listener = Listener { socket, protocol, process_info };
                std::mem::swap(&mut self.listeners[i], &mut listener);
                proof {
                    old(self).lemma_entry(i as int);
                    self.lemma_replaced(*old(self), i as int);
                }
                Some(listener.process_info)
            },
            None => {
                self.listeners.push(Listener { socket, protocol, process_info });
                proof {
                    assert(self.listeners@.drop_last() =~= old(self).listeners@);
                    self.lemma_pushed(*old(self));
                }
                None
            },
        }
    }

    proof fn lemma_pushed(&self, before: ActiveListeners)
        requires
            before.unrepeated(),
            self.listeners@.len() > 0,
            self.listeners@.drop_last() == before.listeners@,
            !before@.contains_key(key_of(self.listeners@.last())),
        ensures
            self.unrepeated(),
            self@ == before@.insert(
                key_of(self.listeners@.last()),
                self.listeners@.last().process_info@,
            ),
    {
        let last = self.listeners@.len() - 1;
        let key = key_of(self.listeners@[last]);
        assert forall|i: int| 0 <= i < last implies key_of(#[trigger] self.listeners@[i]) != key by {
            assert(self.listeners@[i] == before.listeners@[i]);
            before.lemma_entry(i);
        }
        assert(self.unrepeated()) by {
            assert forall|i: int, j: int| 0 <= i < j < self.listeners@.len() implies key_of(
                #[trigger] self.listeners@[i],
            ) != key_of(#[trigger] self.listeners@[j]) by {
                assert(self.listeners@[i] == before.listeners@[i]);
                if j < last {
                    assert(self.listeners@[j] == before.listeners@[j]);
                }
            }
        }
        let after = before@.insert(key, self.listeners@[last].process_info@);
        assert forall|k: ListenerKey|
            #![trigger self@.dom().contains(k)]
            #![trigger after.dom().contains(k)]
            #![trigger self@[k]]
            self@.dom().contains(k) == after.dom().contains(k) && (self@.dom().contains(k)
                ==> self@[k] == after[k]) by {
            if k == key {
                self.lemma_entry(last);
            } else if occupied(before.listeners@, k) {
                let i = choose|i: int| keyed(before.listeners@, i, k);
                assert(self.listeners@[i] == before.listeners@[i]);
                before.lemma_entry(i);
                self.lemma_entry(i);
            } else if occupied(self.listeners@, k) {
                let i = choose|i: int| keyed(self.listeners@, i, k);
                assert(self.listeners@[i] == before.listeners@[i]);
                assert(keyed(before.listeners@, i, k));
            }
        }
        assert(self@ =~= after);
    }

    proof fn lemma_replaced(&self, before: ActiveListeners, at: int)
        requires
            before.unrepeated(),
            0 <= at < before.listeners@.len(),
            self.listeners@ == before.listeners@.update(at, self.listeners@[at]),
            key_of(self.listeners@[at]) == key_of(before.listeners@[at]),
        ensures
            self.unrepeated(),
            self@ == before@.insert(
                key_of(self.listeners@[at]),
                self.listeners@[at].process_info@,
            ),
    {
        let key = key_of(self.listeners@[at]);
        assert(self.unrepeated()) by {
            assert forall|i: int, j: int| 0 <= i < j < self.listeners@.len() implies key_of(
                #[trigger] self.listeners@[i],
            ) != key_of(#[trigger] self.listeners@[j]) by {
                assert(key_of(self.listeners@[i]) == key_of(before.listeners@[i]));
                assert(key_of(self.listeners@[j]) == key_of(before.listeners@[j]));
            }
        }
        let after = before@.insert(key, self.listeners@[at].process_info@);
        assert forall|k: ListenerKey|
            #![trigger self@.dom().contains(k)]
            #![trigger after.dom().contains(k)]
            #![trigger self@[k]]
            self@.dom().contains(k) == after.dom().contains(k) && (self@.dom().contains(k)
                ==> self@[k] == after[k]) by {
            if k == key {
                self.lemma_entry(at);
            } else if occupied(before.listeners@, k) {
                let i = choose|i: int| keyed(before.listeners@, i, k);
                assert(self.listeners@[i] == before.listeners@[i]);
                before.lemma_entry(i);
                self.lemma_entry(i);
            } else if occupied(self.listeners@, k) {
                let i = choose|i: int| keyed(self.listeners@, i, k);
                assert(self.listeners@[i] == before.listeners@[i]);
                assert(keyed(before.listeners@, i, k));
            }
        }
        assert(self@ =~= after);
    }

    proof fn lemma_removed(&self, before: ActiveListeners, at: int)
        requires
            before.unrepeated(),
            0 <= at < before.listeners@.len(),
            self.listeners@ == before.listeners@.remove(at),
        ensures
            self.unrepeated(),
            self@ == before@.remove(key_of(before.listeners@[at])),
    {
        let key = key_of(before.listeners@[at]);
        assert forall|i: int| 0 <= i < self.listeners@.len() implies #[trigger] self.listeners@[i]
            == before.listeners@[if i < at {
            i
        } else {
            i + 1
        }] by {}
        assert(self.unrepeated()) by {
            assert forall|i: int, j: int| 0 <= i < j < self.listeners@.len() implies key_of(
                #[trigger] self.listeners@[i],
            ) != key_of(#[trigger] self.listeners@[j]) by {}
        }
        let after = before@.remove(key);
        assert forall|k: ListenerKey|
            #![trigger self@.dom().contains(k)]
            #![trigger after.dom().contains(k)]
            #![trigger self@[k]]
            self@.dom().contains(k) == after.dom().contains(k) && (self@.dom().contains(k)
                ==> self@[k] == after[k]) by {
            if occupied(self.listeners@, k) {
                let i = choose|i: int| keyed(self.listeners@, i, k);
                let j = if i < at {
                    i
                } else {
                    i + 1
                };
                assert(self.listeners@[i] == before.listeners@[j]);
                before.lemma_entry(j);
                self.lemma_entry(i);
                assert(k != key);
            } else if k != key && occupied(before.listeners@, k) {
                let j = choose|j: int| keyed(before.listeners@, j, k);
                let i = if j < at {
                    j
                } else {
                    j - 1
                };
                assert(keyed(self.listeners@, i, k));
            }
        }
        assert(self@ =~= after);
    }

    /// Forgets a listener. Returns the one that was registered there.
    pub fn remove(&mut self, socket: SocketAddr, protocol: TransportProtocol) -> (result: Option<
        ProcessInfo,
    >)
        requires
            old(self).wf(),
        ensures
            final(self).wf(),
            final(self)@ == old(self)@.remove((registered(socket), protocol)),
            match result {
                Some(previous) => old(self)@.contains_key((registered(socket), protocol))
                    && previous@ == old(self)@[(registered(socket), protocol)],
                None => !old(self)@.contains_key((registered(socket), protocol)),
            },
    {
        let mut socket = socket;
        if socket.ip() == IpAddr::V6(0) {
            socket.set_ip(IpAddr::V4(0));
        }
        match self.position(socket, protocol) {
            Some(i) => {
                let listener = self.listeners.remove(i);
                proof {
                    old(self).lemma_entry(i as int);
                    self.lemma_removed(*old(self), i as int);
                }
                Some(listener.process_info)
            },
            None => {
                assert(self@ =~= old(self)@.remove((socket, protocol)));
                None
            },
        }
    }

    /// The process that answers on `socket`.
    pub fn get(&self, socket: SocketAddr, protocol: TransportProtocol) -> (result: Option<
        &ProcessInfo,
    >)
        requires
            self.wf(),
        ensures
            match result {
                Some(process_info) => answering(self@, socket, protocol) == Some(process_info@),
                None => answering(self@, socket, protocol) is None,
            },
    {
        let mut position = self.position(socket, protocol);
        if position.is_none() {
            let mut any = socket;
            any.set_ip(IpAddr::V4(0));
            position = self.position(any, protocol);
        }
        match position {
            Some(i) => {
                proof {
                    self.lemma_entry(i as int);
                }
                Some(&self.listeners[i].process_info)
            },
            None => None,
        }
    }

    pub fn clear(&mut self)
        ensures
            final(self).wf(),
            final(self)@ == Map::<ListenerKey, ProcessView>::empty(),
    {
        self.listeners.clear();
        assert(self@ =~= Map::<ListenerKey, ProcessView>::empty());
    }
}

/// A listener that was registered is the one that answers on its address.
pub proof fn lemma_registered_listener_answers(
    listeners: Map<ListenerKey, ProcessView>,
    socket: SocketAddr,
    protocol: TransportProtocol,
    process_info: ProcessView,
)
    ensures
        answering(
            listeners.insert((registered(socket), protocol), process_info),
            registered(socket),
            protocol,
        ) == Some(process_info),
{
}

/// A listener on every address answers on any address with its port where no
/// other listener has that very address. It does not matter whether it was
/// bound to the unspecified IPv4 or IPv6 address.
pub proof fn lemma_wildcard_listener_answers(
    listeners: Map<ListenerKey, ProcessView>,
    bound: SocketAddr,
    socket: SocketAddr,
    protocol: TransportProtocol,
    process_info: ProcessView,
)
    requires
        bound.spec_ip().unspecified(),
        bound.spec_port() == socket.spec_port(),
        !listeners.contains_key((socket, protocol)),
    ensures
        registered(bound) == wildcard(socket),
        answering(
            listeners.insert((registered(bound), protocol), process_info),
            socket,
            protocol,
        ) == Some(process_info),
{
}

/// The unspecified addresses of IPv4 and IPv6 stand for one and the same
/// listener: it is registered, forgotten and found under either.
pub proof fn lemma_unspecified_addresses_are_one(
    listeners: Map<ListenerKey, ProcessView>,
    v4: SocketAddr,
    v6: SocketAddr,
    protocol: TransportProtocol,
)
    requires
        unified(listeners),
        v4.spec_ip() == IpAddr::V4(0),
        v6.spec_ip() == IpAddr::V6(0),
        v4.spec_port() == v6.spec_port(),
    ensures
        registered(v6) == v4,
        registered(v4) == v4,
        answering(listeners, v6, protocol) == answering(listeners, v4, protocol),
{
    assert(!listeners.contains_key((v6, protocol)));
}

/// Registering a listener where there was none and removing it leads back.
pub proof fn lemma_remove_undoes_insert(
    listeners: Map<ListenerKey, ProcessView>,
    socket: SocketAddr,
    protocol: TransportProtocol,
    process_info: ProcessView,
)
    requires
        !listeners.contains_key((registered(socket), protocol)),
    ensures
        listeners.insert((registered(socket), protocol), process_info).remove(
            (registered(socket), protocol),
        ) == listeners,
{
    assert(listeners.insert((registered(socket), protocol), process_info).remove(
        (registered(socket), protocol),
    ) =~= listeners);
}

/// A listener is registered under its own address, but under `0.0.0.0` with its
/// port if it is bound to `::`.
pub proof fn lemma_where_a_listener_is_registered(socket: SocketAddr)
    ensures
        registered(socket) == match socket {
            SocketAddr::V6(a) => if a.ip == 0 {
                SocketAddr::V4(SocketAddrV4 { ip: 0, port: a.port })
            } else {
                socket
            },
            SocketAddr::V4(_) => socket,
        },
{
}

/// Who answers on a socket is the process that is registered under its address
/// or, if there is none, the one that is registered under `0.0.0.0` with its
/// port.
pub proof fn lemma_who_answers(
    listeners: Map<ListenerKey, ProcessView>,
    socket: SocketAddr,
    protocol: TransportProtocol,
    process_info: ProcessView,
)
    ensures
        ({
            let any = SocketAddr::V4(SocketAddrV4 { ip: 0, port: socket.spec_port() });
            &&& answering(listeners, socket, protocol) == Some(process_info) <==> {
                ||| listeners.contains_key((socket, protocol)) && listeners[(socket, protocol)]
                    == process_info
                ||| !listeners.contains_key((socket, protocol)) && listeners.contains_key(
                    (any, protocol),
                ) && listeners[(any, protocol)] == process_info
            }
            &&& answering(listeners, socket, protocol) is None <==> !listeners.contains_key(
                (socket, protocol),
            ) && !listeners.contains_key((any, protocol))
        }),
{
}

} // verus!

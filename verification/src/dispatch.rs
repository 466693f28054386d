//! Packets on their way out.

use vstd::prelude::*;

use crate::event::NetworkAddress;
use crate::packet::Packet;
use crate::process::{ActionView, ConnectionAction, ProcessInfo, ProcessView};

verus! {

/// A packet for which it is decided what is done with it.
#[derive(Debug)]
pub struct Dispatch {
    pub address: NetworkAddress,
    pub packet: Packet,
    pub action: ConnectionAction,
}

/// The value of a [`Dispatch`].
pub struct DispatchView {
    pub address: NetworkAddress,
    pub data: Seq<u8>,
    pub action: ActionView,
}

impl View for Dispatch {
    type V = DispatchView;

    open spec fn view(&self) -> DispatchView {
        DispatchView { address: self.address, data: self.packet@, action: self.action@ }
    }
}

pub open spec fn dispatch_views(dispatches: Seq<Dispatch>) -> Seq<DispatchView> {
    dispatches.map_values(|dispatch: Dispatch| dispatch@)
}

/// What is left to do for a packet.
#[derive(Debug)]
pub enum Effect {
    /// Hand the bytes to the driver, which sends them.
    Inject { address: NetworkAddress, data: Vec<u8> },
    /// Hand the bytes to whoever asked for the packets of the process.
    Deliver { data: Vec<u8>, process_info: ProcessInfo },
}

/// The value of an [`Effect`].
pub enum EffectView {
    Inject { address: NetworkAddress, data: Seq<u8> },
    Deliver { data: Seq<u8>, process_info: ProcessView },
}

impl View for Effect {
    type V = EffectView;

    open spec fn view(&self) -> EffectView {
        match self {
            Effect::Inject { address, data } => EffectView::Inject {
                address: *address,
                data: data@,
            },
            Effect::Deliver { data, process_info } => EffectView::Deliver {
                data: data@,
                process_info: process_info@,
            },
        }
    }
}

impl DispatchView {
    /// What a packet is processed into: a forwarded packet leaves as it came,
    /// an intercepted one is delivered with checksums that are valid.
    pub open spec fn effect(self) -> EffectView {
        match self.action {
            ActionView::Forward => EffectView::Inject { address: self.address, data: self.data },
            ActionView::Intercept(process_info) => EffectView::Deliver {
                data: self.address.checksums.renewed(self.data),
                process_info,
            },
        }
    }

    /// Whether the packet can be processed: an intercepted one must have
    /// checksums that can be renewed.
    pub open spec fn processable(self) -> bool {
        self.action is Intercept ==> self.address.checksums.renewable(self.data)
    }
}

impl Dispatch {
    pub fn is_processable(&self) -> (result: bool)
        ensures
            result == self@.processable(),
    {
        match self.action {
            ConnectionAction::Forward => true,
            ConnectionAction::Intercept(_) => self.packet.can_renew_checksums(
                self.address.checksums,
            ),
        }
    }

    /// Processes the packet as it was decided.
    pub fn process_packet(self) -> (effect: Effect)
        requires
            self@.processable(),
        ensures
            effect@ == self@.effect(),
    {
        match self.action {
            ConnectionAction::Forward => Effect::Inject {
                address: self.address,
                data: self.packet.inner(),
            },
            ConnectionAction::Intercept(process_info) => Effect::Deliver {
                data: self.packet.renew_checksums(self.address.checksums),
                process_info,
            },
        }
    }
}

} // verus!

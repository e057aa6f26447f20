//! The port-pair registry and the decision logic of the forwarding loop.
//!
//! The loop itself lives with the unverified I/O code: it polls the
//! channels, reads datagrams, and performs the actions decided here.

use crate::udp::{
    create_ipv4_udp_packet, dst_addr_spec, dst_port_spec, encode_spec, parse_ipv4_udp_packet,
    parse_ok, payload_spec, src_addr_spec, src_port_spec, Ipv4Addr,
};
use vstd::prelude::*;
use vstd::slice::slice_to_vec;

verus! {

/// The (local port, remote port) tuple identifying a local channel.
#[derive(Clone, Copy, Debug, Hash, PartialEq, Eq, Structural)]
pub struct PortPair {
    pub local: u16,
    pub remote: u16,
}

/// The immutable association between local-channel indices and port pairs,
/// built once at startup from the two port lists.
pub struct Registry {
    entries: Vec<PortPair>,
}

impl Registry {
    /// The ordered sequence of port pairs, one per local channel.
    pub closed spec fn pairs(&self) -> Seq<PortPair> {
        self.entries@
    }

    /// Pair the two port lists element by element.  Fails exactly when the
    /// lists differ in length.
    pub fn build(local_ports: &Vec<u16>, remote_ports: &Vec<u16>) -> (r: Option<Registry>)
        ensures
            r is Some <==> local_ports@.len() == remote_ports@.len(),
            r matches Some(reg) ==> {
                &&& reg.pairs().len() == local_ports@.len()
                &&& forall|i: int|
                    0 <= i < reg.pairs().len() ==> reg.pairs()[i] == (PortPair {
                        local: local_ports@[i],
                        remote: remote_ports@[i],
                    })
            },
    {
        if local_ports.len() != remote_ports.len() {
            return None;
        }
        let n = local_ports.len();
        let mut entries: Vec<PortPair> = Vec::new();
        let mut i: usize = 0;
        while i < n
            invariant
                i <= n,
                n == local_ports@.len(),
                n == remote_ports@.len(),
                entries@.len() == i,
                forall|j: int|
                    0 <= j < i ==> entries@[j] == (PortPair {
                        local: local_ports@[j],
                        remote: remote_ports@[j],
                    }),
            decreases n - i,
        {
            entries.push(PortPair { local: local_ports[i], remote: remote_ports[i] });
            i = i + 1;
        }
        Some(Registry { entries })
    }

    /// The number of configured channels.
    pub fn len(&self) -> (n: usize)
        ensures
            n == self.pairs().len(),
    {
        self.entries.len()
    }

    /// Forward direction: the port pair of local channel `index`.
    pub fn forward(&self, index: usize) -> (p: PortPair)
        requires
            index < self.pairs().len(),
        ensures
            p == self.pairs()[index as int],
    {
        self.entries[index]
    }

    /// Reverse direction: the channel configured for `pair`, if any.  When
    /// several channels carry the same pair, the greatest index wins, as an
    /// inverted lookup table built front to back would behave.
    pub fn reverse(&self, pair: PortPair) -> (r: Option<usize>)
        ensures
            r is Some <==> exists|j: int|
                0 <= j < self.pairs().len() && self.pairs()[j] == pair,
            r matches Some(i) ==> {
                &&& i < self.pairs().len()
                &&& self.pairs()[i as int] == pair
                &&& forall|j: int| i < j < self.pairs().len() ==> self.pairs()[j] != pair
            },
    {
        let mut i: usize = self.entries.len();
        while i > 0
            invariant
                i <= self.entries@.len(),
                forall|j: int| i <= j < self.entries@.len() ==> self.entries@[j] != pair,
            decreases i,
        {
            i = i - 1;
            if self.entries[i] == pair {
                proof {
                    assert(0 <= i < self.pairs().len() && self.pairs()[i as int] == pair);
                }
                return Some(i);
            }
        }
        None
    }
}

/// Why an inbound datagram from the outside channel was discarded.
#[derive(Clone, Copy, Debug, PartialEq, Eq, Structural)]
pub enum DropReason {
    /// The buffer did not decode as a valid IPv4/UDP packet.
    Malformed,
    /// The decoded source address is not the configured remote address.
    SourceMismatch,
    /// The decoded destination address is not the configured local address.
    DestinationMismatch,
    /// No channel is configured for the decoded port pair.
    NoRoute,
}

/// Whether the forwarding loop keeps running.
#[derive(Clone, Copy, Debug, PartialEq, Eq, Structural)]
pub enum EngineState {
    Running,
    Terminated,
}

/// One readiness event, as observed by the surrounding loop.
pub enum Event {
    /// The control channel became readable or was closed.
    Control,
    /// Local channel `.0` delivered the datagram `.1`.
    Local(usize, Vec<u8>),
    /// The outside channel delivered a datagram.
    Outside(Vec<u8>),
}

/// What the surrounding loop must do in response to an event.
pub enum Action {
    /// Return from the loop; no further sends.
    Stop,
    /// Send this framed packet on the outside channel.
    SendOutside(Vec<u8>),
    /// Send this bare payload on local channel `.0`.
    SendLocal(usize, Vec<u8>),
    /// Drop the datagram for the given reason and carry on.
    Discard(DropReason),
    /// Do nothing.
    Ignore,
}

/// The forwarding engine's read-only configuration: the two fixed endpoint
/// addresses and the port-pair registry.
pub struct Forwarder {
    pub local_addr: Ipv4Addr,
    pub remote_addr: Ipv4Addr,
    pub registry: Registry,
}

/// The registry key under which an inbound packet is routed: its
/// destination port as the local port, its source port as the remote port.
pub open spec fn route_key(d: Seq<u8>) -> PortPair {
    PortPair { local: dst_port_spec(d) as u16, remote: src_port_spec(d) as u16 }
}

/// Exactly how a datagram read from the outside channel must be handled:
/// delivered to the channel routed for it when it decodes and both
/// addresses match, and discarded with the fitting reason otherwise.
pub open spec fn outside_action_ok(fw: Forwarder, d: Seq<u8>, a: Action) -> bool {
    match a {
        Action::SendLocal(idx, data) => {
            &&& parse_ok(d)
            &&& src_addr_spec(d) == fw.remote_addr
            &&& dst_addr_spec(d) == fw.local_addr
            &&& idx < fw.registry.pairs().len()
            &&& fw.registry.pairs()[idx as int] == route_key(d)
            &&& forall|j: int|
                idx < j < fw.registry.pairs().len() ==> fw.registry.pairs()[j] != route_key(d)
            &&& data@ == payload_spec(d)
        },
        Action::Discard(reason) => match reason {
            DropReason::Malformed => !parse_ok(d),
            DropReason::SourceMismatch => parse_ok(d) && src_addr_spec(d) != fw.remote_addr,
            DropReason::DestinationMismatch => parse_ok(d) && src_addr_spec(d) == fw.remote_addr
                && dst_addr_spec(d) != fw.local_addr,
            DropReason::NoRoute => {
                &&& parse_ok(d)
                &&& src_addr_spec(d) == fw.remote_addr
                &&& dst_addr_spec(d) == fw.local_addr
                &&& forall|j: int|
                    0 <= j < fw.registry.pairs().len() ==> fw.registry.pairs()[j] != route_key(d)
            },
        },
        _ => false,
    }
}

impl Forwarder {
    pub fn new(local_addr: Ipv4Addr, remote_addr: Ipv4Addr, registry: Registry) -> (r: Forwarder)
        ensures
            r.local_addr == local_addr,
            r.remote_addr == remote_addr,
            r.registry == registry,
    {
        Forwarder { local_addr, remote_addr, registry }
    }

    /// Frame a datagram read from local channel `index` for the outside
    /// channel: the local address and port become the source, the remote
    /// address and port the destination.
    pub fn frame_local(&self, index: usize, payload: &[u8]) -> (pkt: Vec<u8>)
        requires
            index < self.registry.pairs().len(),
            payload@.len() + 28 <= 0xFFFF,
        ensures
            pkt@ == encode_spec(
                payload@,
                self.local_addr,
                self.remote_addr,
                self.registry.pairs()[index as int].local,
                self.registry.pairs()[index as int].remote,
            ),
    {
        let pp = self.registry.forward(index);
        create_ipv4_udp_packet(payload, self.local_addr, self.remote_addr, pp.local, pp.remote)
    }

    /// Decide what to do with a datagram read from the outside channel:
    /// decode it, validate both addresses against the configuration, look up
    /// the reverse route, and either deliver the bare payload to the routed
    /// local channel or discard the datagram.
    pub fn route_outside(&self, datagram: &[u8]) -> (a: Action)
        ensures
            outside_action_ok(*self, datagram@, a),
            a is SendLocal || a is Discard,
    {
        match parse_ipv4_udp_packet(datagram) {
            Option::None => Action::Discard(DropReason::Malformed),
            Option::Some((src_ip, dst_ip, src_port, dst_port, data)) => {
                if src_ip != self.remote_addr {
                    return Action::Discard(DropReason::SourceMismatch);
                }
                if dst_ip != self.local_addr {
                    return Action::Discard(DropReason::DestinationMismatch);
                }
                let key = PortPair { local: dst_port, remote: src_port };
                match self.registry.reverse(key) {
                    Option::None => Action::Discard(DropReason::NoRoute),
                    Option::Some(idx) => Action::SendLocal(idx, slice_to_vec(data)),
                }
            },
        }
    }

    /// One decision step of the forwarding loop.  The control channel wins
    /// over all data traffic: a control event moves the engine to
    /// `Terminated` with no send, and a terminated engine never acts again.
    pub fn step(&self, state: EngineState, event: Event) -> (r: (EngineState, Action))
        requires
            event matches Event::Local(index, payload) ==> index < self.registry.pairs().len()
                && payload@.len() + 28 <= 0xFFFF,
        ensures
            state is Terminated ==> r.0 is Terminated && r.1 is Ignore,
            state is Running && event is Control ==> r.0 is Terminated && r.1 is Stop,
            state is Running ==> (event matches Event::Local(index, payload) ==> r.0 is Running
                && (r.1 matches Action::SendOutside(pkt) && pkt@ == encode_spec(
                payload@,
                self.local_addr,
                self.remote_addr,
                self.registry.pairs()[index as int].local,
                self.registry.pairs()[index as int].remote,
            ))),
            state is Running ==> (event matches Event::Outside(d) ==> r.0 is Running
                && outside_action_ok(*self, d@, r.1)),
    {
        match state {
            EngineState::Terminated => (EngineState::Terminated, Action::Ignore),
            EngineState::Running => match event {
                Event::Control => (EngineState::Terminated, Action::Stop),
                Event::Local(index, payload) => {
                    let pkt = self.frame_local(index, payload.as_slice());
                    (EngineState::Running, Action::SendOutside(pkt))
                },
                Event::Outside(d) => (EngineState::Running, self.route_outside(d.as_slice())),
            },
        }
    }
}

} // verus!

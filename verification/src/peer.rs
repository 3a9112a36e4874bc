//! Identifiers of nodes and of the connections between them.
use vstd::prelude::*;

verus! {

/// A node of the network.
#[derive(Debug, Clone, Copy, PartialEq, Eq, Hash, Structural)]
pub struct PeerId(pub u64);

impl From<u64> for PeerId {
    fn from(v: u64) -> (r: PeerId) {
        PeerId(v)
    }
}

impl vstd::std_specs::convert::FromSpecImpl<u64> for PeerId {
    open spec fn obeys_from_spec() -> bool {
        true
    }

    open spec fn from_spec(v: u64) -> PeerId {
        PeerId(v)
    }
}

/// One connection between two nodes.
#[derive(Debug, Clone, Copy, PartialEq, Eq, Hash, Structural)]
pub struct ConnectionId(pub u64);

impl From<u64> for ConnectionId {
    fn from(v: u64) -> (r: ConnectionId) {
        ConnectionId(v)
    }
}

impl vstd::std_specs::convert::FromSpecImpl<u64> for ConnectionId {
    open spec fn obeys_from_spec() -> bool {
        true
    }

    open spec fn from_spec(v: u64) -> ConnectionId {
        ConnectionId(v)
    }
}

/// Measurements of one connection.
#[derive(Debug, Clone, Copy, PartialEq, Eq, Structural)]
pub struct PeerConnectionMetric {
    pub uptime: u64,
    pub rtt: u64,
    pub sent_pkt: u64,
    pub lost_pkt: u64,
    pub lost_bytes: u64,
    pub send_bytes: u64,
    pub recv_bytes: u64,
    pub current_mtu: u16,
}

} // verus!

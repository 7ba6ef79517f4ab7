//! The Kademlia wire protocol: its configuration and the requests and
//! responses exchanged with peers.

use vstd::prelude::*;
use crate::record::{Key, Record};

verus! {

/// The name of the protocol, as negotiated with multistream-select.
pub const DEFAULT_PROTO_NAME: &'static str = "/ipfs/kad/1.0.0";

/// The default maximum size of a length-delimited packet.
pub const DEFAULT_MAX_PACKET_SIZE: usize = 16384;

/// The status of the sender's connection to a peer.
#[derive(Copy, Clone, PartialEq, Eq, Debug, Hash, Structural)]
pub enum ConnectionType {
    /// The sender has not tried to connect to the peer.
    NotConnected,
    /// The sender is connected to the peer.
    Connected,
    /// The sender was recently connected to the peer.
    CanConnect,
    /// The sender tried to connect to the peer and failed.
    CannotConnect,
}

/// A peer as the sender knows it: its id, the addresses that may reach it,
/// and how the sender is connected to it.
#[derive(Debug, Clone, PartialEq, Eq)]
pub struct KadPeer {
    pub node_id: Vec<u8>,
    pub multiaddrs: Vec<Vec<u8>>,
    pub connection_ty: ConnectionType,
}

/// The configuration of the protocol on a connection.
#[derive(Debug, Clone)]
pub struct ProtocolConfig {
    protocol_names: Vec<String>,
    max_packet_size: usize,
}

impl ProtocolConfig {
    /// The names, in order.
    pub closed spec fn names(&self) -> Seq<Seq<char>> {
        self.protocol_names@.map_values(|n: String| n@)
    }

    /// The maximum size of a packet.
    pub closed spec fn spec_max_packet_size(&self) -> usize {
        self.max_packet_size
    }

    /// A configuration with the single protocol name `protocol_name` and
    /// the default maximum packet size.
    pub fn new(protocol_name: String) -> (r: Self)
        ensures
            r.names() == seq![protocol_name@],
            r.spec_max_packet_size() == DEFAULT_MAX_PACKET_SIZE,
    {
        let r = ProtocolConfig { protocol_names: vec![protocol_name], max_packet_size: DEFAULT_MAX_PACKET_SIZE };
        assert(r.names() =~= seq![protocol_name@]);
        r
    }

    /// The protocol names.
    pub fn protocol_names(&self) -> (r: &[String])
        ensures
            r@.map_values(|n: String| n@) == self.names(),
    {
        self.protocol_names.as_slice()
    }

    /// Sets the maximum size of a packet.
    pub fn set_max_packet_size(&mut self, size: usize)
        ensures
            final(self).names() == old(self).names(),
            final(self).spec_max_packet_size() == size,
    {
        self.max_packet_size = size;
    }

    /// The maximum size of a packet.
    pub fn max_packet_size(&self) -> (r: usize)
        ensures
            r == self.spec_max_packet_size(),
    {
        self.max_packet_size
    }
}

/// A request sent to a peer or received from one.
#[derive(Debug, Clone, PartialEq, Eq)]
pub enum KadRequestMsg {
    /// Ping.
    Ping,
    /// Asks for the peers closest to `key`.
    FindNode { key: Vec<u8> },
    /// Asks for the closest peers and the known providers of `key`.
    GetProviders { key: Key },
    /// Announces that `provider` provides `key`.
    AddProvider { key: Key, provider: KadPeer },
    /// Asks for the records of `key`.
    GetValue { key: Key },
    /// Asks the peer to store `record`.
    PutValue { record: Record },
}

/// A response sent to a peer or received from one.
#[derive(Debug, Clone, PartialEq, Eq)]
pub enum KadResponseMsg {
    /// Answer to a ping.
    Pong,
    /// Answer to `FindNode`.
    FindNode { closer_peers: Vec<KadPeer> },
    /// Answer to `GetProviders`.
    GetProviders { closer_peers: Vec<KadPeer>, provider_peers: Vec<KadPeer> },
    /// Answer to `GetValue`: the record, if found, and closer peers.
    GetValue { record: Option<Record>, closer_peers: Vec<KadPeer> },
    /// Answer to `PutValue`: the key and value stored.
    PutValue { key: Key, value: Vec<u8> },
}

} // verus!

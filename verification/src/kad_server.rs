//! A Kademlia server connection: its configuration, and the decisions of
//! the loop that serves it.

use vstd::prelude::*;

verus! {

/// The configuration of the Kademlia wire protocol.
#[derive(Debug, Copy, Clone, PartialEq, Eq, Structural)]
pub struct KademliaProtocolConfig;

/// The configuration of an upcoming Kademlia server connection.
#[derive(Debug, Copy, Clone, PartialEq, Eq, Structural)]
pub struct KadConnecConfig {
    raw_proto: KademliaProtocolConfig,
}

impl KadConnecConfig {
    /// The configuration of the wire protocol.
    pub closed spec fn spec_proto(&self) -> KademliaProtocolConfig {
        self.raw_proto
    }

    /// Builds the configuration of an upcoming Kademlia server.
    pub fn new() -> (r: Self)
        ensures
            r.spec_proto() == KademliaProtocolConfig,
    {
        KadConnecConfig { raw_proto: KademliaProtocolConfig }
    }
}

/// The kinds of messages of the wire protocol.
#[derive(Debug, Copy, Clone, PartialEq, Eq, Structural)]
pub enum KadMsgKind {
    Ping,
    PutValue,
    GetValueReq,
    GetValueRes,
    FindNodeReq,
    FindNodeRes,
    GetProvidersReq,
    GetProvidersRes,
    AddProvider,
}

/// What wakes the loop of a connection up.
#[derive(Debug, Copy, Clone, PartialEq, Eq, Structural)]
pub enum EventSource {
    /// A message of the remote.
    Remote(KadMsgKind),
    /// A request of the local node, to send to the remote.
    LocalRequest(KadMsgKind),
    /// The local answer to a request of the remote is ready.
    LocalResponse,
    /// The remote closed the connection.
    Finished,
}

/// What the loop of a connection remembers: how many local requests wait
/// for the remote's response, how many pongs are expected, and whether the
/// connection is over.
#[derive(Debug, Copy, Clone, PartialEq, Eq, Structural)]
pub struct ServerState {
    pub send_back_queue: usize,
    pub expected_pongs: u32,
    pub finished: bool,
}

/// What the loop does with an event.
#[derive(Debug, Copy, Clone, PartialEq, Eq, Structural)]
pub enum ServerAction {
    /// Nothing to do.
    Nothing,
    /// Sends the message of the event to the remote.
    SendToRemote,
    /// Sends a ping back, and reports a ping or pong of the remote.
    SendPingAndReport,
    /// Reports a ping or pong of the remote.
    ReportPingPong,
    /// Hands the remote's response to the oldest local request waiting
    /// for one.
    DeliverResponse,
    /// Reports the remote's request to the user, with an object to answer
    /// it with.
    ReportRequest,
    /// Reports the remote's announcement of a provider.
    ReportAddProvider,
    /// Fails: the remote sent a response that nothing waits for.
    FailUnexpectedResponse,
    /// Fails: the remote asked for a record, which is not supported.
    FailUnsupported,
}

/// The state and action after `event` in state `s`.
pub open spec fn server_step(s: ServerState, event: EventSource) -> (ServerState, ServerAction) {
    match event {
        EventSource::Finished => (ServerState { finished: true, ..s }, ServerAction::Nothing),
        EventSource::LocalResponse => (s, ServerAction::SendToRemote),
        EventSource::LocalRequest(kind) => match kind {
            KadMsgKind::PutValue | KadMsgKind::AddProvider => (s, ServerAction::SendToRemote),
            KadMsgKind::Ping => (ServerState { expected_pongs: (s.expected_pongs + 1) as u32, ..s }, ServerAction::SendToRemote),
            _ => (ServerState { send_back_queue: (s.send_back_queue + 1) as usize, ..s }, ServerAction::SendToRemote),
        },
        EventSource::Remote(kind) => match kind {
            KadMsgKind::Ping => if s.expected_pongs > 0 {
                (ServerState { expected_pongs: (s.expected_pongs - 1) as u32, ..s }, ServerAction::ReportPingPong)
            } else {
                (s, ServerAction::SendPingAndReport)
            },
            KadMsgKind::FindNodeRes | KadMsgKind::GetValueRes | KadMsgKind::GetProvidersRes => if s.send_back_queue > 0 {
                (ServerState { send_back_queue: (s.send_back_queue - 1) as usize, ..s }, ServerAction::DeliverResponse)
            } else {
                (s, ServerAction::FailUnexpectedResponse)
            },
            KadMsgKind::FindNodeReq | KadMsgKind::GetProvidersReq => (s, ServerAction::ReportRequest),
            KadMsgKind::AddProvider => (s, ServerAction::ReportAddProvider),
            KadMsgKind::GetValueReq => (s, ServerAction::FailUnsupported),
            KadMsgKind::PutValue => (s, ServerAction::Nothing),
        },
    }
}

/// Whether the loop still waits for events: until the remote closes.
pub fn wants_event(s: &ServerState) -> (r: bool)
    ensures
        r == !s.finished,
{
    !s.finished
}

/// Decides what the loop of a connection does with `event`: local
/// requests go to the remote, those that expect an answer queue for it and
/// pings count the pongs expected; a ping of the remote is answered unless
/// it is an expected pong; responses of the remote go to the oldest request
/// waiting; requests of the remote go to the user.
pub fn kademlia_handler(s: ServerState, event: EventSource) -> (r: (ServerState, ServerAction))
    requires
        !s.finished,
        event == EventSource::LocalRequest(KadMsgKind::Ping) ==> s.expected_pongs < u32::MAX,
        event matches EventSource::LocalRequest(k) && k != KadMsgKind::Ping && k != KadMsgKind::PutValue
            && k != KadMsgKind::AddProvider ==> s.send_back_queue < usize::MAX,
    ensures
        r == server_step(s, event),
{
    match event {
        EventSource::Finished => (ServerState { finished: true, ..s }, ServerAction::Nothing),
        EventSource::LocalResponse => (s, ServerAction::SendToRemote),
        EventSource::LocalRequest(kind) => match kind {
            KadMsgKind::PutValue | KadMsgKind::AddProvider => (s, ServerAction::SendToRemote),
            KadMsgKind::Ping => (ServerState { expected_pongs: s.expected_pongs + 1, ..s }, ServerAction::SendToRemote),
            _ => (ServerState { send_back_queue: s.send_back_queue + 1, ..s }, ServerAction::SendToRemote),
        },
        EventSource::Remote(kind) => match kind {
            KadMsgKind::Ping => if s.expected_pongs > 0 {
                (ServerState { expected_pongs: s.expected_pongs - 1, ..s }, ServerAction::ReportPingPong)
            } else {
                (s, ServerAction::SendPingAndReport)
            },
            KadMsgKind::FindNodeRes | KadMsgKind::GetValueRes | KadMsgKind::GetProvidersRes => if s.send_back_queue > 0 {
                (ServerState { send_back_queue: s.send_back_queue - 1, ..s }, ServerAction::DeliverResponse)
            } else {
                (s, ServerAction::FailUnexpectedResponse)
            },
            KadMsgKind::FindNodeReq | KadMsgKind::GetProvidersReq => (s, ServerAction::ReportRequest),
            KadMsgKind::AddProvider => (s, ServerAction::ReportAddProvider),
            KadMsgKind::GetValueReq => (s, ServerAction::FailUnsupported),
            KadMsgKind::PutValue => (s, ServerAction::Nothing),
        },
    }
}

/// Every response of the remote that the loop delivers answers a local
/// request that waited for one: the number of requests waiting never goes
/// below zero, and it goes down by one exactly on a delivery.
pub proof fn lemma_responses_match_requests(s: ServerState, event: EventSource)
    requires
        s.send_back_queue < usize::MAX,
    ensures
        server_step(s, event).1 == ServerAction::DeliverResponse ==> {
            &&& s.send_back_queue >= 1
            &&& server_step(s, event).0.send_back_queue == s.send_back_queue - 1
        },
        server_step(s, event).1 != ServerAction::DeliverResponse ==>
            server_step(s, event).0.send_back_queue >= s.send_back_queue,
{
}

} // verus!

//! What a connection handler remembers of the remote's protocol support,
//! and what it does with the messages of the behaviour.

use vstd::prelude::*;
use crate::behaviour::Mode;
use crate::protocol::{KadPeer, KadRequestMsg, KadResponseMsg};
use crate::query::QueryId;
use crate::record::{Key, Record};

verus! {

/// Whether the remote supports one of our Kademlia protocols, and whether
/// that state was reported to the behaviour.
#[derive(Debug, Copy, Clone, PartialEq, Eq)]
pub struct ProtocolStatus {
    /// Whether the remote node supports one of our kademlia protocols.
    pub supported: bool,
    /// Whether we reported the state to the behaviour.
    pub reported: bool,
}

/// The protocol status after the remote was seen to support our protocols
/// (`now_supported`) or not, given the status held so far.
///
/// The state counts as reported only when it is unchanged from one held:
/// a first sighting, or a change, is still to be reported.
pub fn compute_new_protocol_status(
    now_supported: bool,
    current_status: Option<ProtocolStatus>,
) -> (r: ProtocolStatus)
    ensures
        r.supported == now_supported,
        r.reported == (match current_status {
            Some(current) => current.supported == now_supported,
            None => false,
        }),
{
    let current_status = match current_status {
        None => {
            return ProtocolStatus { supported: now_supported, reported: false };
        },
        Some(current) => current,
    };
    if now_supported == current_status.supported {
        return ProtocolStatus { supported: now_supported, reported: true };
    }
    ProtocolStatus { supported: now_supported, reported: false }
}

/// Identifies a request of the remote, to answer it.
#[derive(Debug, PartialEq, Eq, Copy, Clone, Structural)]
pub struct RequestId {
    /// The identifier of the inbound substream of the request.
    pub connec_unique_id: u64,
}

/// A message from the behaviour to the handler of a connection.
#[derive(Debug)]
pub enum HandlerIn {
    /// Resets the substream of the request, signalling an error to the
    /// remote.
    Reset(RequestId),
    /// Switches the connection to `new_mode`.
    ReconfigureMode { new_mode: Mode },
    /// Asks the remote for the peers closest to `key`.
    FindNodeReq { key: Vec<u8>, query_id: QueryId },
    /// Answers a `FindNode` request of the remote.
    FindNodeRes { closer_peers: Vec<KadPeer>, request_id: RequestId },
    /// Asks the remote for the closest peers and providers of `key`.
    GetProvidersReq { key: Key, query_id: QueryId },
    /// Answers a `GetProviders` request of the remote.
    GetProvidersRes { closer_peers: Vec<KadPeer>, provider_peers: Vec<KadPeer>, request_id: RequestId },
    /// Announces `provider` as a provider of `key` to the remote.
    AddProvider { key: Key, provider: KadPeer, query_id: QueryId },
    /// Asks the remote for the record of `key`.
    GetRecord { key: Key, query_id: QueryId },
    /// Answers a `GetValue` request of the remote.
    GetRecordRes { record: Option<Record>, closer_peers: Vec<KadPeer>, request_id: RequestId },
    /// Asks the remote to store `record`.
    PutRecord { record: Record, query_id: QueryId },
    /// Answers a `PutValue` request of the remote.
    PutRecordRes { key: Key, value: Vec<u8>, request_id: RequestId },
}

/// What the handler does with a message of the behaviour.
#[derive(Debug)]
pub enum HandlerAction {
    /// Closes the substream of the request `id`, if one waits for the
    /// behaviour.
    Reset(RequestId),
    /// Sends the request on a new outbound substream, for the query.
    SendRequest(KadRequestMsg, QueryId),
    /// Answers the pending request `id` with the response.
    Answer(RequestId, KadResponseMsg),
    /// Switches the connection to the mode.
    SetMode(Mode),
}

/// The action for the message `m` of the behaviour: requests become
/// outbound requests, responses answer the pending request they name.
pub open spec fn action_of(m: HandlerIn) -> HandlerAction {
    match m {
        HandlerIn::Reset(id) => HandlerAction::Reset(id),
        HandlerIn::ReconfigureMode { new_mode } => HandlerAction::SetMode(new_mode),
        HandlerIn::FindNodeReq { key, query_id } => HandlerAction::SendRequest(KadRequestMsg::FindNode { key }, query_id),
        HandlerIn::FindNodeRes { closer_peers, request_id } =>
            HandlerAction::Answer(request_id, KadResponseMsg::FindNode { closer_peers }),
        HandlerIn::GetProvidersReq { key, query_id } =>
            HandlerAction::SendRequest(KadRequestMsg::GetProviders { key }, query_id),
        HandlerIn::GetProvidersRes { closer_peers, provider_peers, request_id } =>
            HandlerAction::Answer(request_id, KadResponseMsg::GetProviders { closer_peers, provider_peers }),
        HandlerIn::AddProvider { key, provider, query_id } =>
            HandlerAction::SendRequest(KadRequestMsg::AddProvider { key, provider }, query_id),
        HandlerIn::GetRecord { key, query_id } => HandlerAction::SendRequest(KadRequestMsg::GetValue { key }, query_id),
        HandlerIn::GetRecordRes { record, closer_peers, request_id } =>
            HandlerAction::Answer(request_id, KadResponseMsg::GetValue { record, closer_peers }),
        HandlerIn::PutRecord { record, query_id } => HandlerAction::SendRequest(KadRequestMsg::PutValue { record }, query_id),
        HandlerIn::PutRecordRes { key, value, request_id } =>
            HandlerAction::Answer(request_id, KadResponseMsg::PutValue { key, value }),
    }
}

/// Decides what the handler does with the message of the behaviour.
pub fn on_behaviour_event(message: HandlerIn) -> (r: HandlerAction)
    ensures
        r == action_of(message),
{
    match message {
        HandlerIn::Reset(request_id) => HandlerAction::Reset(request_id),
        HandlerIn::ReconfigureMode { new_mode } => HandlerAction::SetMode(new_mode),
        HandlerIn::FindNodeReq { key, query_id } => HandlerAction::SendRequest(KadRequestMsg::FindNode { key }, query_id),
        HandlerIn::FindNodeRes { closer_peers, request_id } =>
            HandlerAction::Answer(request_id, KadResponseMsg::FindNode { closer_peers }),
        HandlerIn::GetProvidersReq { key, query_id } =>
            HandlerAction::SendRequest(KadRequestMsg::GetProviders { key }, query_id),
        HandlerIn::GetProvidersRes { closer_peers, provider_peers, request_id } =>
            HandlerAction::Answer(request_id, KadResponseMsg::GetProviders { closer_peers, provider_peers }),
        HandlerIn::AddProvider { key, provider, query_id } =>
            HandlerAction::SendRequest(KadRequestMsg::AddProvider { key, provider }, query_id),
        HandlerIn::GetRecord { key, query_id } => HandlerAction::SendRequest(KadRequestMsg::GetValue { key }, query_id),
        HandlerIn::GetRecordRes { record, closer_peers, request_id } =>
            HandlerAction::Answer(request_id, KadResponseMsg::GetValue { record, closer_peers }),
        HandlerIn::PutRecord { record, query_id } => HandlerAction::SendRequest(KadRequestMsg::PutValue { record }, query_id),
        HandlerIn::PutRecordRes { key, value, request_id } =>
            HandlerAction::Answer(request_id, KadResponseMsg::PutValue { key, value }),
    }
}

/// Whether the connection accepts inbound substreams: only in server mode.
pub fn accepts_inbound(mode: Mode) -> (r: bool)
    ensures
        r == (mode == Mode::Server),
{
    match mode {
        Mode::Server => true,
        Mode::Client => false,
    }
}

/// How a connection was established: by dialing `address`, or by accepting
/// a connection on `local_addr` from `send_back_addr`.
#[derive(Debug, Clone, PartialEq, Eq)]
pub enum ConnectedPoint {
    Dialer { address: Vec<u8> },
    Listener { local_addr: Vec<u8>, send_back_addr: Vec<u8> },
}

/// Why a request of ours failed.
#[derive(Debug)]
pub enum HandlerQueryErr {
    /// The remote answered with a message of the wrong kind.
    UnexpectedMessage,
    /// An I/O error, described.
    Io(String),
}

/// An event of the handler of a connection, for the behaviour.
#[derive(Debug)]
pub enum HandlerEvent {
    /// The remote supports the protocol.
    ProtocolConfirmed { endpoint: ConnectedPoint },
    /// The remote does not support the protocol.
    ProtocolNotSupported { endpoint: ConnectedPoint },
    /// The remote asks for the peers closest to `key`.
    FindNodeReq { key: Vec<u8>, request_id: RequestId },
    /// The remote answered our `FindNode` request.
    FindNodeRes { closer_peers: Vec<KadPeer>, query_id: QueryId },
    /// The remote asks for the closest peers and providers of `key`.
    GetProvidersReq { key: Key, request_id: RequestId },
    /// The remote answered our `GetProviders` request.
    GetProvidersRes { closer_peers: Vec<KadPeer>, provider_peers: Vec<KadPeer>, query_id: QueryId },
    /// A request of ours failed.
    QueryError { error: HandlerQueryErr, query_id: QueryId },
    /// The remote announces `provider` as a provider of `key`.
    AddProvider { key: Key, provider: KadPeer },
    /// The remote asks for the record of `key`.
    GetRecord { key: Key, request_id: RequestId },
    /// The remote answered our `GetValue` request.
    GetRecordRes { record: Option<Record>, closer_peers: Vec<KadPeer>, query_id: QueryId },
    /// The remote asks us to store `record`.
    PutRecord { record: Record, request_id: RequestId },
    /// The remote answered our `PutValue` request.
    PutRecordRes { key: Key, value: Vec<u8>, query_id: QueryId },
}

/// The event for the response `event` of a remote to our request of the
/// query `query_id`: the response itself, or an error for a pong, since we
/// never send pings.
pub open spec fn response_event(event: KadResponseMsg, query_id: QueryId) -> HandlerEvent {
    match event {
        KadResponseMsg::Pong => HandlerEvent::QueryError { error: HandlerQueryErr::UnexpectedMessage, query_id },
        KadResponseMsg::FindNode { closer_peers } => HandlerEvent::FindNodeRes { closer_peers, query_id },
        KadResponseMsg::GetProviders { closer_peers, provider_peers } =>
            HandlerEvent::GetProvidersRes { closer_peers, provider_peers, query_id },
        KadResponseMsg::GetValue { record, closer_peers } => HandlerEvent::GetRecordRes { record, closer_peers, query_id },
        KadResponseMsg::PutValue { key, value } => HandlerEvent::PutRecordRes { key, value, query_id },
    }
}

/// Turns the response of a remote to a request of the query `query_id`
/// into an event for the behaviour.
pub fn process_kad_response(event: KadResponseMsg, query_id: QueryId) -> (r: HandlerEvent)
    ensures
        r == response_event(event, query_id),
{
    match event {
        KadResponseMsg::Pong => HandlerEvent::QueryError { error: HandlerQueryErr::UnexpectedMessage, query_id },
        KadResponseMsg::FindNode { closer_peers } => HandlerEvent::FindNodeRes { closer_peers, query_id },
        KadResponseMsg::GetProviders { closer_peers, provider_peers } =>
            HandlerEvent::GetProvidersRes { closer_peers, provider_peers, query_id },
        KadResponseMsg::GetValue { record, closer_peers } => HandlerEvent::GetRecordRes { record, closer_peers, query_id },
        KadResponseMsg::PutValue { key, value } => HandlerEvent::PutRecordRes { key, value, query_id },
    }
}

/// The state of an inbound substream, which serves the requests of the
/// remote one after the other. Each state but the last two goes with the
/// substream itself, which the caller holds.
#[derive(Debug)]
pub enum InboundSubstreamState {
    /// Waiting for a request of the remote.
    WaitingMessage { first: bool, connection_id: u64 },
    /// Waiting for the behaviour to answer the request; whether the task is
    /// to be woken when it does.
    WaitingBehaviour(u64, bool),
    /// Waiting to send the answer.
    PendingSend(u64, KadResponseMsg),
    /// Waiting to flush the answer.
    PendingFlush(u64),
    /// Closing the substream.
    Closing,
    /// Cancelled in favour of a new substream.
    Cancelled,
    /// The substream is done with; it is never polled again.
    Poisoned,
}

/// What polling the substream gave.
#[derive(Debug)]
pub enum SubstreamIo {
    /// Not ready yet.
    Pending,
    /// The substream ended or failed.
    Ended,
    /// A request of the remote (when waiting for one).
    Received(KadRequestMsg),
    /// The operation of the state completed: the answer was sent, flushed,
    /// or the substream closed.
    Ready,
}

/// What one turn of polling an inbound substream gives.
#[derive(Debug)]
pub enum PollOutput {
    /// Poll again, in the new state.
    Continue,
    /// An event for the behaviour.
    Yield(HandlerEvent),
    /// Nothing before the substream is ready.
    Pending,
    /// The substream is done with.
    End,
}

/// The substream is polled in this state; in the others one turn decides
/// without it.
pub open spec fn polls_substream(s: InboundSubstreamState) -> bool {
    s is WaitingMessage || s is PendingSend || s is PendingFlush || s is Closing
}

/// The state and output of one turn in state `s` with the outcome `io` of
/// polling the substream.
pub open spec fn step_of(s: InboundSubstreamState, io: SubstreamIo) -> (InboundSubstreamState, PollOutput) {
    match s {
        InboundSubstreamState::WaitingMessage { first, connection_id } => {
            let rid = RequestId { connec_unique_id: connection_id };
            let waiting = InboundSubstreamState::WaitingBehaviour(connection_id, false);
            match io {
                SubstreamIo::Received(KadRequestMsg::Ping) => (InboundSubstreamState::Closing, PollOutput::Continue),
                SubstreamIo::Received(KadRequestMsg::FindNode { key }) =>
                    (waiting, PollOutput::Yield(HandlerEvent::FindNodeReq { key, request_id: rid })),
                SubstreamIo::Received(KadRequestMsg::GetProviders { key }) =>
                    (waiting, PollOutput::Yield(HandlerEvent::GetProvidersReq { key, request_id: rid })),
                SubstreamIo::Received(KadRequestMsg::AddProvider { key, provider }) => (
                    InboundSubstreamState::WaitingMessage { first: false, connection_id },
                    PollOutput::Yield(HandlerEvent::AddProvider { key, provider }),
                ),
                SubstreamIo::Received(KadRequestMsg::GetValue { key }) =>
                    (waiting, PollOutput::Yield(HandlerEvent::GetRecord { key, request_id: rid })),
                SubstreamIo::Received(KadRequestMsg::PutValue { record }) =>
                    (waiting, PollOutput::Yield(HandlerEvent::PutRecord { record, request_id: rid })),
                SubstreamIo::Pending => (InboundSubstreamState::WaitingMessage { first, connection_id }, PollOutput::Pending),
                _ => (InboundSubstreamState::Poisoned, PollOutput::End),
            }
        },
        InboundSubstreamState::WaitingBehaviour(id, _) =>
            (InboundSubstreamState::WaitingBehaviour(id, true), PollOutput::Pending),
        InboundSubstreamState::PendingSend(id, msg) => match io {
            SubstreamIo::Ready => (InboundSubstreamState::PendingFlush(id), PollOutput::Continue),
            SubstreamIo::Pending => (InboundSubstreamState::PendingSend(id, msg), PollOutput::Pending),
            _ => (InboundSubstreamState::Poisoned, PollOutput::End),
        },
        InboundSubstreamState::PendingFlush(id) => match io {
            SubstreamIo::Ready =>
                (InboundSubstreamState::WaitingMessage { first: false, connection_id: id }, PollOutput::Continue),
            SubstreamIo::Pending => (InboundSubstreamState::PendingFlush(id), PollOutput::Pending),
            _ => (InboundSubstreamState::Poisoned, PollOutput::End),
        },
        InboundSubstreamState::Closing => match io {
            SubstreamIo::Pending => (InboundSubstreamState::Closing, PollOutput::Pending),
            _ => (InboundSubstreamState::Poisoned, PollOutput::End),
        },
        _ => (InboundSubstreamState::Poisoned, PollOutput::End),
    }
}

/// The substream `s` waits for the behaviour's answer to the request of
/// the substream `id`.
pub open spec fn waits_for(s: InboundSubstreamState, id: u64) -> bool {
    s matches InboundSubstreamState::WaitingBehaviour(c, _) && c == id
}

impl InboundSubstreamState {
    /// One turn of polling: in the states that poll the substream (see
    /// `polls_substream`), `io` is what it gave; a request waits for the
    /// behaviour's answer (an announcement of a provider needs none, and a
    /// ping closes the substream); the answer is sent, then flushed, and
    /// the substream waits for the next request. The caller polls again
    /// while the output is `Continue`.
    pub fn poll_next(self, io: SubstreamIo) -> (r: (InboundSubstreamState, PollOutput))
        requires
            !(self is Poisoned),
            io is Received ==> self is WaitingMessage,
        ensures
            r == step_of(self, io),
    {
        match self {
            InboundSubstreamState::WaitingMessage { first, connection_id } => {
                let rid = RequestId { connec_unique_id: connection_id };
                match io {
                    SubstreamIo::Received(KadRequestMsg::Ping) => (InboundSubstreamState::Closing, PollOutput::Continue),
                    SubstreamIo::Received(KadRequestMsg::FindNode { key }) => (
                        InboundSubstreamState::WaitingBehaviour(connection_id, false),
                        PollOutput::Yield(HandlerEvent::FindNodeReq { key, request_id: rid }),
                    ),
                    SubstreamIo::Received(KadRequestMsg::GetProviders { key }) => (
                        InboundSubstreamState::WaitingBehaviour(connection_id, false),
                        PollOutput::Yield(HandlerEvent::GetProvidersReq { key, request_id: rid }),
                    ),
                    SubstreamIo::Received(KadRequestMsg::AddProvider { key, provider }) => (
                        InboundSubstreamState::WaitingMessage { first: false, connection_id },
                        PollOutput::Yield(HandlerEvent::AddProvider { key, provider }),
                    ),
                    SubstreamIo::Received(KadRequestMsg::GetValue { key }) => (
                        InboundSubstreamState::WaitingBehaviour(connection_id, false),
                        PollOutput::Yield(HandlerEvent::GetRecord { key, request_id: rid }),
                    ),
                    SubstreamIo::Received(KadRequestMsg::PutValue { record }) => (
                        InboundSubstreamState::WaitingBehaviour(connection_id, false),
                        PollOutput::Yield(HandlerEvent::PutRecord { record, request_id: rid }),
                    ),
                    SubstreamIo::Pending =>
                        (InboundSubstreamState::WaitingMessage { first, connection_id }, PollOutput::Pending),
                    _ => (InboundSubstreamState::Poisoned, PollOutput::End),
                }
            },
            InboundSubstreamState::WaitingBehaviour(id, _) =>
                (InboundSubstreamState::WaitingBehaviour(id, true), PollOutput::Pending),
            InboundSubstreamState::PendingSend(id, msg) => match io {
                SubstreamIo::Ready => (InboundSubstreamState::PendingFlush(id), PollOutput::Continue),
                SubstreamIo::Pending => (InboundSubstreamState::PendingSend(id, msg), PollOutput::Pending),
                _ => (InboundSubstreamState::Poisoned, PollOutput::End),
            },
            InboundSubstreamState::PendingFlush(id) => match io {
                SubstreamIo::Ready =>
                    (InboundSubstreamState::WaitingMessage { first: false, connection_id: id }, PollOutput::Continue),
                SubstreamIo::Pending => (InboundSubstreamState::PendingFlush(id), PollOutput::Pending),
                _ => (InboundSubstreamState::Poisoned, PollOutput::End),
            },
            InboundSubstreamState::Closing => match io {
                SubstreamIo::Pending => (InboundSubstreamState::Closing, PollOutput::Pending),
                _ => (InboundSubstreamState::Poisoned, PollOutput::End),
            },
            _ => (InboundSubstreamState::Poisoned, PollOutput::End),
        }
    }

    /// Answers with `msg` if this substream waits for the behaviour's
    /// answer to the request `id`: it then waits to send it. Otherwise
    /// nothing changes and `msg` is given back.
    pub fn try_answer_with(&mut self, id: RequestId, msg: KadResponseMsg) -> (r: Result<(), KadResponseMsg>)
        ensures
            if waits_for(*old(self), id.connec_unique_id) {
                r is Ok && *final(self) == InboundSubstreamState::PendingSend(id.connec_unique_id, msg)
            } else {
                r == Err::<(), KadResponseMsg>(msg) && *final(self) == *old(self)
            },
    {
        let mut taken = InboundSubstreamState::Poisoned;
        std::mem::swap(self, &mut taken);
        match taken {
            InboundSubstreamState::WaitingBehaviour(conn_id, waker) => {
                if conn_id == id.connec_unique_id {
                    *self = InboundSubstreamState::PendingSend(conn_id, msg);
                    Ok(())
                } else {
                    *self = InboundSubstreamState::WaitingBehaviour(conn_id, waker);
                    Err(msg)
                }
            },
            other => {
                *self = other;
                Err(msg)
            },
        }
    }

    /// Starts closing the substream, unless it was cancelled.
    pub fn close(&mut self)
        requires
            !(*old(self) is Poisoned),
        ensures
            *final(self) == if *old(self) is Cancelled {
                InboundSubstreamState::Cancelled
            } else {
                InboundSubstreamState::Closing
            },
    {
        match self {
            InboundSubstreamState::Cancelled => {},
            _ => {
                *self = InboundSubstreamState::Closing;
            },
        }
    }
}

/// The substream at `i` of `s` is the first that waits for the answer to
/// the request of the substream `id`.
pub open spec fn first_waiting_at(s: Seq<InboundSubstreamState>, id: u64, i: int) -> bool {
    &&& 0 <= i < s.len()
    &&& waits_for(s[i], id)
    &&& forall|j: int| 0 <= j < i ==> !waits_for(#[trigger] s[j], id)
}

/// The first substream of `s` that waits for the answer to the request of
/// the substream `id`.
pub open spec fn first_waiting(s: Seq<InboundSubstreamState>, id: u64) -> int {
    choose|i: int| first_waiting_at(s, id, i)
}

/// Answers the pending request `request_id` with `answer`: the first
/// substream waiting for that answer takes it. Tells whether one did.
pub fn answer_pending_request(
    substreams: &mut Vec<InboundSubstreamState>,
    request_id: RequestId,
    answer: KadResponseMsg,
) -> (r: bool)
    ensures
        final(substreams)@.len() == old(substreams)@.len(),
        r == exists|i: int| 0 <= i < old(substreams)@.len()
            && waits_for(#[trigger] old(substreams)@[i], request_id.connec_unique_id),
        r ==> final(substreams)@ == old(substreams)@.update(
            first_waiting(old(substreams)@, request_id.connec_unique_id),
            InboundSubstreamState::PendingSend(request_id.connec_unique_id, answer),
        ),
        !r ==> final(substreams)@ == old(substreams)@,
{
    let mut msg = answer;
    let mut i: usize = 0;
    while i < substreams.len()
        invariant
            i <= substreams@.len(),
            substreams@ == old(substreams)@,
            msg == answer,
            forall|j: int| 0 <= j < i ==> !waits_for(#[trigger] old(substreams)@[j], request_id.connec_unique_id),
        decreases substreams@.len() - i,
    {
        let mut state = substreams.remove(i);
        match state.try_answer_with(request_id, msg) {
            Ok(()) => {
                substreams.insert(i, state);
                proof {
                    assert(substreams@ =~= old(substreams)@.update(
                        i as int,
                        InboundSubstreamState::PendingSend(request_id.connec_unique_id, answer),
                    ));
                    assert(waits_for(old(substreams)@[i as int], request_id.connec_unique_id));
                    let id = request_id.connec_unique_id;
                    assert(first_waiting_at(old(substreams)@, id, i as int));
                    let k = first_waiting(old(substreams)@, id);
                    assert(first_waiting_at(old(substreams)@, id, k));
                    if k < i {
                        assert(!waits_for(old(substreams)@[k], id));
                    } else if k > i {
                        assert(!waits_for(old(substreams)@[i as int], id));
                    }
                }
                return true;
            },
            Err(m) => {
                msg = m;
                substreams.insert(i, state);
                proof {
                    assert(substreams@ =~= old(substreams)@);
                }
            },
        }
        i += 1;
    }
    false
}

} // verus!

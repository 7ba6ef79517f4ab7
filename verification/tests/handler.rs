use kad::handler::{
    accepts_inbound, answer_pending_request, on_behaviour_event, process_kad_response, HandlerAction,
    HandlerEvent, HandlerIn, HandlerQueryErr, InboundSubstreamState, PollOutput, RequestId, SubstreamIo,
};
use kad::protocol::{KadRequestMsg, KadResponseMsg};
use kad::query::QueryId;
use kad::behaviour::Mode;
use kad::handler::{compute_new_protocol_status, ProtocolStatus};

fn prop(now_supported: bool, current: Option<ProtocolStatus>) {
    let new = compute_new_protocol_status(now_supported, current);

    match current {
        None => {
            assert!(!new.reported);
            assert_eq!(new.supported, now_supported);
        }
        Some(current) => {
            if current.supported == now_supported {
                assert!(new.reported);
            } else {
                assert!(!new.reported);
            }

            assert_eq!(new.supported, now_supported);
        }
    }
}

#[test]
fn compute_next_protocol_status_test() {
    for now_supported in [false, true] {
        prop(now_supported, None);
        for supported in [false, true] {
            for reported in [false, true] {
                prop(now_supported, Some(ProtocolStatus { supported, reported }));
            }
        }
    }
}

#[test]
fn first_status_is_unreported() {
    let s = compute_new_protocol_status(true, None);
    assert_eq!(s, ProtocolStatus { supported: true, reported: false });
}

#[test]
fn changed_status_is_unreported() {
    let s = compute_new_protocol_status(false, Some(ProtocolStatus { supported: true, reported: true }));
    assert_eq!(s, ProtocolStatus { supported: false, reported: false });
}

#[test]
fn behaviour_requests_become_outbound_requests() {
    match on_behaviour_event(HandlerIn::FindNodeReq { key: vec![1, 2], query_id: QueryId(7) }) {
        HandlerAction::SendRequest(KadRequestMsg::FindNode { key }, QueryId(7)) => assert_eq!(key, vec![1u8, 2]),
        other => panic!("unexpected {:?}", other),
    }
    match on_behaviour_event(HandlerIn::GetRecord { key: kad::record::Key::new(b"k"), query_id: QueryId(1) }) {
        HandlerAction::SendRequest(KadRequestMsg::GetValue { key }, QueryId(1)) => {
            assert_eq!(key.to_vec(), b"k".to_vec())
        }
        other => panic!("unexpected {:?}", other),
    }
}

#[test]
fn behaviour_responses_answer_the_request() {
    let id = RequestId { connec_unique_id: 3 };
    match on_behaviour_event(HandlerIn::PutRecordRes { key: kad::record::Key::new(b"k"), value: vec![9], request_id: id }) {
        HandlerAction::Answer(rid, KadResponseMsg::PutValue { key, value }) => {
            assert_eq!(rid, id);
            assert_eq!(key.to_vec(), b"k".to_vec());
            assert_eq!(value, vec![9u8]);
        }
        other => panic!("unexpected {:?}", other),
    }
    assert!(matches!(on_behaviour_event(HandlerIn::Reset(id)), HandlerAction::Reset(r) if r == id));
    assert!(matches!(
        on_behaviour_event(HandlerIn::ReconfigureMode { new_mode: Mode::Client }),
        HandlerAction::SetMode(Mode::Client)
    ));
}

#[test]
fn only_servers_accept_inbound_streams() {
    assert!(accepts_inbound(Mode::Server));
    assert!(!accepts_inbound(Mode::Client));
}


#[test]
fn responses_become_events() {
    let e = process_kad_response(KadResponseMsg::Pong, QueryId(2));
    assert!(matches!(e, HandlerEvent::QueryError { error: HandlerQueryErr::UnexpectedMessage, query_id: QueryId(2) }));
    match process_kad_response(KadResponseMsg::FindNode { closer_peers: vec![] }, QueryId(3)) {
        HandlerEvent::FindNodeRes { closer_peers, query_id } => {
            assert!(closer_peers.is_empty());
            assert_eq!(query_id, QueryId(3));
        }
        other => panic!("unexpected {:?}", other),
    }
    match process_kad_response(
        KadResponseMsg::PutValue { key: kad::record::Key::new(b"k"), value: vec![1] },
        QueryId(4),
    ) {
        HandlerEvent::PutRecordRes { key, value, query_id } => {
            assert_eq!(key.to_vec(), b"k".to_vec());
            assert_eq!(value, vec![1u8]);
            assert_eq!(query_id, QueryId(4));
        }
        other => panic!("unexpected {:?}", other),
    }
}

#[test]
fn inbound_substream_serves_a_request() {
    let s = InboundSubstreamState::WaitingMessage { first: true, connection_id: 9 };
    let (s, out) = s.poll_next(SubstreamIo::Pending);
    assert!(matches!(out, PollOutput::Pending));
    let (mut s, out) = s.poll_next(SubstreamIo::Received(KadRequestMsg::FindNode { key: vec![1] }));
    match out {
        PollOutput::Yield(HandlerEvent::FindNodeReq { key, request_id }) => {
            assert_eq!(key, vec![1u8]);
            assert_eq!(request_id, RequestId { connec_unique_id: 9 });
        }
        other => panic!("unexpected {:?}", other),
    }
    assert!(matches!(s, InboundSubstreamState::WaitingBehaviour(9, false)));
    let (s2, out) = s.poll_next(SubstreamIo::Pending);
    assert!(matches!(out, PollOutput::Pending));
    s = s2;
    assert!(matches!(s, InboundSubstreamState::WaitingBehaviour(9, true)));
    let wrong = s.try_answer_with(RequestId { connec_unique_id: 8 }, KadResponseMsg::Pong);
    assert!(matches!(wrong, Err(KadResponseMsg::Pong)));
    assert!(s.try_answer_with(RequestId { connec_unique_id: 9 }, KadResponseMsg::Pong).is_ok());
    assert!(matches!(s, InboundSubstreamState::PendingSend(9, KadResponseMsg::Pong)));
    let (s, out) = s.poll_next(SubstreamIo::Ready);
    assert!(matches!(out, PollOutput::Continue));
    assert!(matches!(s, InboundSubstreamState::PendingFlush(9)));
    let (s, out) = s.poll_next(SubstreamIo::Ready);
    assert!(matches!(out, PollOutput::Continue));
    assert!(matches!(s, InboundSubstreamState::WaitingMessage { first: false, connection_id: 9 }));
    let (s, out) = s.poll_next(SubstreamIo::Ended);
    assert!(matches!(out, PollOutput::End));
    assert!(matches!(s, InboundSubstreamState::Poisoned));
}

#[test]
fn inbound_ping_closes_and_provider_needs_no_answer() {
    let s = InboundSubstreamState::WaitingMessage { first: true, connection_id: 1 };
    let (s, out) = s.poll_next(SubstreamIo::Received(KadRequestMsg::Ping));
    assert!(matches!(out, PollOutput::Continue));
    assert!(matches!(s, InboundSubstreamState::Closing));
    let (s, out) = s.poll_next(SubstreamIo::Ready);
    assert!(matches!(out, PollOutput::End) && matches!(s, InboundSubstreamState::Poisoned));

    let s = InboundSubstreamState::WaitingMessage { first: true, connection_id: 2 };
    let provider = kad::protocol::KadPeer {
        node_id: vec![5],
        multiaddrs: vec![],
        connection_ty: kad::protocol::ConnectionType::Connected,
    };
    let (s, out) = s.poll_next(SubstreamIo::Received(KadRequestMsg::AddProvider {
        key: kad::record::Key::new(b"p"),
        provider,
    }));
    assert!(matches!(out, PollOutput::Yield(HandlerEvent::AddProvider { .. })));
    assert!(matches!(s, InboundSubstreamState::WaitingMessage { first: false, connection_id: 2 }));
}

#[test]
fn closing_and_cancelled_substreams() {
    let mut s = InboundSubstreamState::PendingFlush(3);
    s.close();
    assert!(matches!(s, InboundSubstreamState::Closing));
    let mut s = InboundSubstreamState::Cancelled;
    s.close();
    assert!(matches!(s, InboundSubstreamState::Cancelled));
    let (s, out) = s.poll_next(SubstreamIo::Pending);
    assert!(matches!(out, PollOutput::End) && matches!(s, InboundSubstreamState::Poisoned));
}

#[test]
fn pending_request_answered_by_its_substream() {
    let mut subs = vec![
        InboundSubstreamState::WaitingMessage { first: true, connection_id: 1 },
        InboundSubstreamState::WaitingBehaviour(2, false),
        InboundSubstreamState::WaitingBehaviour(3, true),
    ];
    assert!(answer_pending_request(&mut subs, RequestId { connec_unique_id: 3 }, KadResponseMsg::Pong));
    assert!(matches!(subs[1], InboundSubstreamState::WaitingBehaviour(2, false)));
    assert!(matches!(subs[2], InboundSubstreamState::PendingSend(3, KadResponseMsg::Pong)));
    assert!(!answer_pending_request(&mut subs, RequestId { connec_unique_id: 1 }, KadResponseMsg::Pong));
    assert_eq!(subs.len(), 3);
}

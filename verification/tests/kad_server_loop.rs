use kad::kad_server::{kademlia_handler, wants_event, EventSource, KadMsgKind, ServerAction, ServerState};

#[test]
fn server_loop_routes_responses_to_requests() {
    let s = ServerState { send_back_queue: 0, expected_pongs: 0, finished: false };
    let (s, a) = kademlia_handler(s, EventSource::LocalRequest(KadMsgKind::FindNodeReq));
    assert_eq!(a, ServerAction::SendToRemote);
    assert_eq!(s.send_back_queue, 1);
    let (s, a) = kademlia_handler(s, EventSource::LocalRequest(KadMsgKind::PutValue));
    assert_eq!(a, ServerAction::SendToRemote);
    assert_eq!(s.send_back_queue, 1);
    let (s, a) = kademlia_handler(s, EventSource::Remote(KadMsgKind::FindNodeRes));
    assert_eq!(a, ServerAction::DeliverResponse);
    assert_eq!(s.send_back_queue, 0);
    let (_, a) = kademlia_handler(s, EventSource::Remote(KadMsgKind::GetValueRes));
    assert_eq!(a, ServerAction::FailUnexpectedResponse);
}

#[test]
fn server_loop_pings() {
    let s = ServerState { send_back_queue: 0, expected_pongs: 0, finished: false };
    let (s, a) = kademlia_handler(s, EventSource::Remote(KadMsgKind::Ping));
    assert_eq!(a, ServerAction::SendPingAndReport);
    let (s, _) = kademlia_handler(s, EventSource::LocalRequest(KadMsgKind::Ping));
    assert_eq!(s.expected_pongs, 1);
    let (s, a) = kademlia_handler(s, EventSource::Remote(KadMsgKind::Ping));
    assert_eq!(a, ServerAction::ReportPingPong);
    assert_eq!(s.expected_pongs, 0);
}

#[test]
fn server_loop_requests_and_end() {
    let s = ServerState { send_back_queue: 2, expected_pongs: 0, finished: false };
    assert_eq!(kademlia_handler(s, EventSource::Remote(KadMsgKind::FindNodeReq)).1, ServerAction::ReportRequest);
    assert_eq!(kademlia_handler(s, EventSource::Remote(KadMsgKind::AddProvider)).1, ServerAction::ReportAddProvider);
    assert_eq!(kademlia_handler(s, EventSource::Remote(KadMsgKind::GetValueReq)).1, ServerAction::FailUnsupported);
    assert_eq!(kademlia_handler(s, EventSource::Remote(KadMsgKind::PutValue)).1, ServerAction::Nothing);
    assert_eq!(kademlia_handler(s, EventSource::LocalResponse).1, ServerAction::SendToRemote);
    let (s, a) = kademlia_handler(s, EventSource::Finished);
    assert_eq!(a, ServerAction::Nothing);
    assert!(!wants_event(&s));
}

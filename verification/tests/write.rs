use kad::write::WriteState;

#[test]
fn write_state_counts_each_peer_once() {
    let peers = vec![vec![1u8], vec![2u8], vec![1u8], vec![3u8]];
    let mut w = WriteState::new("target", peers);
    assert!(!w.done());
    w.inject_write_success(&vec![1u8]);
    w.inject_write_success(&vec![1u8]);
    w.inject_write_error(&vec![1u8]);
    assert!(!w.done());
    w.inject_write_error(&vec![2u8]);
    assert!(!w.done());
    w.inject_write_success(&vec![3u8]);
    assert!(w.done());
    assert_eq!(w.into_inner(), ("target", 2, 1));
}

#[test]
fn write_state_ignores_unknown_peers() {
    let mut w = WriteState::new(7u32, vec![vec![9u8, 9]]);
    w.inject_write_success(&vec![8u8]);
    w.inject_write_error(&vec![9u8]);
    assert!(!w.done());
    assert_eq!(w.into_inner(), (7, 0, 0));
}

#[test]
fn write_state_with_no_peers_is_done() {
    let w = WriteState::new((), Vec::new());
    assert!(w.done());
    assert_eq!(w.into_inner(), ((), 0, 0));
}

#[test]
fn write_state_all_failures() {
    let mut w = WriteState::new(0u8, vec![vec![1u8], vec![2u8]]);
    w.inject_write_error(&vec![2u8]);
    w.inject_write_error(&vec![1u8]);
    w.inject_write_success(&vec![2u8]);
    assert!(w.done());
    assert_eq!(w.into_inner(), (0, 0, 2));
}

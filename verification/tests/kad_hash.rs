use kad::kad_hash::KadHash;

#[test]
fn kad_hash_of_abc() {
    let h = KadHash::from_peer_id(b"abc".to_vec());
    assert_eq!(h.peer_id(), &b"abc".to_vec());
    let expected: [u8; 32] = [
        0xba, 0x78, 0x16, 0xbf, 0x8f, 0x01, 0xcf, 0xea, 0x41, 0x41, 0x40, 0xde, 0x5d, 0xae, 0x22,
        0x23, 0xb0, 0x03, 0x61, 0xa3, 0x96, 0x17, 0x7a, 0x9c, 0xb4, 0x10, 0xff, 0x61, 0xf2, 0x00,
        0x15, 0xad,
    ];
    assert_eq!(h.hash(), &expected);
}

#[test]
fn kad_hash_clone_keeps_both() {
    let h = KadHash::from_peer_id(vec![1, 2, 3]);
    let c = h.clone();
    assert_eq!(c, h);
    assert_eq!(c.peer_id(), &vec![1u8, 2, 3]);
}

use kad::high_level::gen_random_id;

#[test]
fn random_id_out_of_range_is_refused() {
    let my_id = vec![0x12, 0x20, 1, 2, 3, 4];
    // 4 bytes after the multihash prefix: 32 bits.
    assert!(gen_random_id(&my_id, 32).is_err());
    assert!(gen_random_id(&my_id, 31).is_ok());
}

#[test]
fn random_id_keeps_the_leading_bits() {
    let my_id: Vec<u8> = (0..34).map(|i| i as u8).collect();
    for bucket in [0usize, 5, 7, 8, 100, 255] {
        let id = gen_random_id(&my_id, bucket).unwrap();
        assert_eq!(id.len(), my_id.len());
        let bits_diff = bucket + 1;
        let pos = my_id.len() - bits_diff / 8 - 1;
        assert_eq!(&id[..pos], &my_id[..pos]);
        let mask: u8 = (1u8 << (bits_diff % 8)) - 1;
        assert_eq!(id[pos] & !mask, my_id[pos] & !mask);
    }
}

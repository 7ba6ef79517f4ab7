use kad::addresses::Addresses;

/// Helper function to easily initialize Addresses struct with multiple addresses.
fn make_addresses(addresses: Vec<Vec<u8>>) -> Addresses {
    let mut it = addresses.into_iter();
    let mut a = Addresses::new(it.next().unwrap());
    for addr in it {
        assert!(a.insert(addr));
    }
    a
}

/// Helper function to create a tcp address with a specific port
fn tcp_addr(port: u16) -> Vec<u8> {
    format!("/ip4/127.0.0.1/tcp/{port}").into_bytes()
}

#[test]
fn given_one_address_when_removing_different_one_returns_ok() {
    let mut addresses = make_addresses(vec![tcp_addr(1234)]);

    let result = addresses.remove(&tcp_addr(4321));

    assert!(result.is_ok());
    assert_eq!(
        addresses.into_vec(),
        vec![tcp_addr(1234)],
        "`Addresses` to not change because we tried to remove a non-present address"
    );
}

#[test]
fn given_one_address_when_removing_correct_one_returns_err() {
    let mut addresses = make_addresses(vec![tcp_addr(1234)]);

    let result = addresses.remove(&tcp_addr(1234));

    assert!(result.is_err());
    assert_eq!(
        addresses.into_vec(),
        vec![tcp_addr(1234)],
        "`Addresses` to not be empty because it would have been the last address to be removed"
    );
}

#[test]
fn given_many_addresses_when_removing_different_one_does_not_remove_and_returns_ok() {
    let mut addresses = make_addresses(vec![tcp_addr(1234), tcp_addr(4321)]);

    let result = addresses.remove(&tcp_addr(5678));

    assert!(result.is_ok());
    assert_eq!(
        addresses.into_vec(),
        vec![tcp_addr(1234), tcp_addr(4321)],
        "`Addresses` to not change because we tried to remove a non-present address"
    );
}

#[test]
fn given_many_addresses_when_removing_correct_one_removes_and_returns_ok() {
    let mut addresses = make_addresses(vec![tcp_addr(1234), tcp_addr(4321)]);

    let result = addresses.remove(&tcp_addr(1234));

    assert!(result.is_ok());
    assert_eq!(
        addresses.into_vec(),
        vec![tcp_addr(4321)],
        "`Addresses to no longer contain address was present and then removed`"
    );
}

#[test]
fn insert_refuses_duplicates() {
    let mut addresses = make_addresses(vec![tcp_addr(1)]);
    assert!(!addresses.insert(tcp_addr(1)));
    assert!(addresses.insert(tcp_addr(2)));
    assert_eq!(addresses.len(), 2);
    assert_eq!(addresses.first(), &tcp_addr(1));
    assert_eq!(addresses.iter(), &[tcp_addr(1), tcp_addr(2)][..]);
}

#[test]
fn replace_swaps_the_address_in_place() {
    let mut addresses = make_addresses(vec![tcp_addr(1), tcp_addr(2), tcp_addr(3)]);
    assert!(addresses.replace(&tcp_addr(2), &tcp_addr(9)));
    assert!(!addresses.replace(&tcp_addr(7), &tcp_addr(8)));
    assert_eq!(addresses.into_vec(), vec![tcp_addr(1), tcp_addr(9), tcp_addr(3)]);
}

use kad::addresses::Addresses;
use kad::contact::Contact;

#[test]
fn contact_delegates_to_addresses() {
    let mut c = Contact::new(Addresses::new(vec![1, 1]), vec![7; 32]);
    assert_eq!(c.len(), 1);
    assert_eq!(c.first(), &vec![1u8, 1]);
    assert!(c.insert(vec![2, 2]));
    assert!(!c.insert(vec![1, 1]));
    assert_eq!(c.len(), 2);
    assert_eq!(c.iter(), &[vec![1u8, 1], vec![2u8, 2]][..]);
    assert_eq!(c.public_key, vec![7u8; 32]);
    let a = c.clone().into_addresses();
    assert_eq!(a.len(), 2);
    assert_eq!(c.into_vec(), vec![vec![1u8, 1], vec![2u8, 2]]);
}

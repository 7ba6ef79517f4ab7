use kad::kbucket::key::{Distance, KadKey, Key, KeyBytes};
use rand::Rng;

fn random_key() -> Key {
    let preimage: Vec<u8> = (0..38).map(|_| rand::thread_rng().gen::<u8>()).collect();
    Key::new(preimage)
}

/// Adds two 256-bit big-endian numbers; `None` on overflow.
fn add_256(a: [u8; 32], b: [u8; 32]) -> Option<[u8; 32]> {
    let mut out = [0u8; 32];
    let mut carry = 0u16;
    for i in (0..32).rev() {
        let s = a[i] as u16 + b[i] as u16 + carry;
        out[i] = (s & 0xff) as u8;
        carry = s >> 8;
    }
    if carry == 0 {
        Some(out)
    } else {
        None
    }
}

#[test]
fn identity() {
    for _ in 0..100 {
        let a = random_key();
        assert_eq!(a.distance(&a), Distance::zero());
    }
}

#[test]
fn symmetry() {
    for _ in 0..100 {
        let a = random_key();
        let b = random_key();
        assert_eq!(a.distance(&b), b.distance(&a));
    }
}

#[test]
fn triangle_inequality() {
    let mut checked = 0;
    while checked < 100 {
        let a = random_key();
        let b = random_key();
        let c = random_key();
        let ab = a.distance(&b);
        let bc = b.distance(&c);
        if let Some(sum) = add_256(ab.to_bytes(), bc.to_bytes()) {
            assert!(a.distance(&c) <= Distance::from_bytes(sum));
            checked += 1;
        }
    }
}

#[test]
fn unidirectionality() {
    for _ in 0..20 {
        let a = random_key();
        let b = random_key();
        let d = a.distance(&b);
        for _ in 0..100 {
            let c = random_key();
            assert!(a.distance(&c) != d || b == c);
        }
    }
}

#[test]
fn key_is_the_sha256_digest_of_its_preimage() {
    // SHA-256 of the empty input.
    let k = Key::new(Vec::new());
    let expected: [u8; 32] = [
        0xe3, 0xb0, 0xc4, 0x42, 0x98, 0xfc, 0x1c, 0x14, 0x9a, 0xfb, 0xf4, 0xc8, 0x99, 0x6f, 0xb9, 0x24,
        0x27, 0xae, 0x41, 0xe4, 0x64, 0x9b, 0x93, 0x4c, 0xa4, 0x95, 0x99, 0x1b, 0x78, 0x52, 0xb8, 0x55,
    ];
    assert_eq!(k.key_bytes().to_bytes(), expected);
    assert_eq!(k.preimage(), &Vec::<u8>::new());
    // SHA-256 of "abc".
    let k = Key::new(b"abc".to_vec());
    assert_eq!(k.key_bytes().to_bytes()[0], 0xba);
    assert_eq!(k.key_bytes().to_bytes()[31], 0xad);
}

#[test]
fn for_distance_gives_back_the_distance() {
    for _ in 0..50 {
        let a = random_key();
        let d = Distance::from_bytes(rand::thread_rng().gen::<[u8; 32]>());
        let b = a.for_distance(d);
        assert_eq!(a.distance(&b), d);
    }
}

#[test]
fn distance_of_key_bytes() {
    let mut x = [0u8; 32];
    let mut y = [0u8; 32];
    x[0] = 0b1010_0000;
    y[0] = 0b0110_0000;
    x[31] = 7;
    y[31] = 1;
    let d = KeyBytes::from_unchecked(x).distance(&KeyBytes::from_unchecked(y));
    let mut e = [0u8; 32];
    e[0] = 0b1100_0000;
    e[31] = 6;
    assert_eq!(d.to_bytes(), e);
    assert_eq!(d.ilog2(), Some(255));
    assert!(d.bit(255));
    assert!(!d.bit(253));
    assert!(d.bit(1));
    assert!(!d.bit(0));
}

#[test]
fn ilog2_of_small_distances() {
    assert_eq!(Distance::zero().ilog2(), None);
    let mut one = [0u8; 32];
    one[31] = 1;
    assert_eq!(Distance::from_bytes(one).ilog2(), Some(0));
    let mut b = [0u8; 32];
    b[30] = 0x80;
    b[31] = 0xff;
    assert_eq!(Distance::from_bytes(b).ilog2(), Some(15));
}

#[test]
fn lt_orders_distances_as_numbers() {
    let mut a = [0u8; 32];
    let mut b = [0u8; 32];
    a[5] = 1;
    b[5] = 1;
    b[6] = 1;
    let da = Distance::from_bytes(a);
    let db = Distance::from_bytes(b);
    assert!(da.lt(&db));
    assert!(!db.lt(&da));
    assert!(!da.lt(&da));
}

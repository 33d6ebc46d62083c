use storage::key::{Key, KEY_ADDR_LEN, KEY_BYTES_LEN};

#[test]
fn key_bytes_are_tag_then_address() {
    let mut addr = [0u8; 32];
    for (i, b) in addr.iter_mut().enumerate() {
        *b = (i * 3) as u8;
    }
    let mut expected = vec![0u8];
    expected.extend_from_slice(&addr);
    assert_eq!(Key::Account(addr).to_bytes(), expected);
    expected[0] = 1;
    assert_eq!(Key::Hash(addr).to_bytes(), expected);
    expected[0] = 2;
    assert_eq!(Key::URef(addr).to_bytes(), expected);
    assert_eq!(expected.len(), KEY_BYTES_LEN);
    assert_eq!(KEY_ADDR_LEN, 32);
    assert_eq!(KEY_BYTES_LEN, 33);
}

#[test]
fn key_equality_is_by_kind_and_address() {
    let a = Key::Hash([1u8; 32]);
    let mut other = [1u8; 32];
    other[31] = 2;
    assert!(a.equals(&Key::Hash([1u8; 32])));
    assert!(!a.equals(&Key::Hash(other)));
    assert!(!a.equals(&Key::URef([1u8; 32])));
    assert!(!a.equals(&Key::Account([1u8; 32])));
    assert_eq!(a.equals(&Key::Hash(other)), a == Key::Hash(other));
}

#[test]
fn key_order_is_the_order_of_the_bytes() {
    let low = [0u8; 32];
    let mut mid = [0u8; 32];
    mid[31] = 1;
    let mut high = [0u8; 32];
    high[0] = 1;
    let ordered = vec![
        Key::Account(low),
        Key::Account(mid),
        Key::Account(high),
        Key::Hash(low),
        Key::Hash(high),
        Key::URef(low),
        Key::URef(mid),
    ];
    for i in 0..ordered.len() {
        for j in 0..ordered.len() {
            assert_eq!(ordered[i].less_than(&ordered[j]), i < j);
            assert_eq!(ordered[i].less_than(&ordered[j]), ordered[i].to_bytes() < ordered[j].to_bytes());
            assert_eq!(ordered[i].less_than(&ordered[j]), ordered[i] < ordered[j]);
        }
    }
}

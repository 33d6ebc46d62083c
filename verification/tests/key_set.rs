use storage::bytesrepr::deserialize;
use storage::error::Error;
use storage::gs::inmem::InMemGs;
use storage::gs::{DbReader, GlobalState};
use storage::key::Key;
use storage::key_set::KeySet;
use storage::transform::Transform;
use storage::value::Value;

fn a(n: u8) -> Key {
    Key::Account([n; 32])
}

fn h(n: u8) -> Key {
    Key::Hash([n; 32])
}

fn u(n: u8) -> Key {
    Key::URef([n; 32])
}

#[test]
fn key_set_keeps_each_key_once_in_ascending_order() {
    let mut s = KeySet::new();
    assert_eq!(s.len(), 0);
    assert!(!s.contains(&a(1)));
    s.insert(u(1));
    s.insert(a(2));
    s.insert(h(9));
    s.insert(a(1));
    s.insert(a(2));
    s.insert(u(1));
    assert_eq!(s.len(), 4);
    assert_eq!(s.to_vec(), vec![a(1), a(2), h(9), u(1)]);
    assert_eq!(s.key_at(0), a(1));
    assert_eq!(s.key_at(3), u(1));
    assert!(s.contains(&h(9)));
    assert!(!s.contains(&h(1)));
    assert!(!s.contains(&u(2)));
}

#[test]
fn key_set_from_keys_ignores_order_and_repeats() {
    let one = KeySet::from_keys(&[u(1), a(1), h(1), a(1)]);
    let two = KeySet::from_keys(&[a(1), h(1), u(1)]);
    assert!(one.equals(&two));
    assert_eq!(one, two);
    assert_eq!(one.clone(), one);
    assert!(!one.equals(&KeySet::from_keys(&[a(1), h(1)])));
    assert!(!one.equals(&KeySet::from_keys(&[a(1), h(1), u(2)])));
    assert!(KeySet::from_keys(&[]).equals(&KeySet::new()));
}

#[test]
fn key_set_from_ordered_takes_only_ascending_lists() {
    assert_eq!(KeySet::from_ordered(vec![]), Some(KeySet::new()));
    assert_eq!(
        KeySet::from_ordered(vec![a(1), a(2), u(0)]),
        Some(KeySet::from_keys(&[u(0), a(2), a(1)]))
    );
    assert_eq!(KeySet::from_ordered(vec![a(2), a(1)]), None);
    assert_eq!(KeySet::from_ordered(vec![a(1), a(1)]), None);
    assert_eq!(KeySet::from_ordered(vec![a(1), u(1), h(1)]), None);
}

#[test]
fn key_set_union_holds_the_keys_of_both() {
    let left = KeySet::from_keys(&[a(1), h(2)]);
    let right = KeySet::from_keys(&[h(2), u(3), a(0)]);
    let both = left.union(&right);
    assert_eq!(both.to_vec(), vec![a(0), a(1), h(2), u(3)]);
    assert_eq!(right.union(&left), both);
    assert_eq!(left.union(&left), left);
    assert_eq!(left.union(&KeySet::new()), left);
    let mut grown = KeySet::from_keys(&[a(1)]);
    grown.insert_all(&[u(3), a(0), h(2), a(0)]);
    assert_eq!(grown, both);
}

#[test]
fn key_set_bytes_are_tag_count_and_the_keys_in_order() {
    assert_eq!(
        Value::KeySet(KeySet::new()).to_bytes(),
        vec![4, 0, 0, 0, 0, 0, 0, 0, 0]
    );
    let v = Value::KeySet(KeySet::from_keys(&[u(7), a(9)]));
    let mut expected = vec![4u8, 2, 0, 0, 0, 0, 0, 0, 0];
    expected.push(0);
    expected.extend_from_slice(&[9u8; 32]);
    expected.push(2);
    expected.extend_from_slice(&[7u8; 32]);
    assert_eq!(v.to_bytes(), expected);
    assert_eq!(deserialize(&expected), Ok(v.clone()));
    assert_eq!(v.shape_name(), "KeySet");
    assert!(v.equals(&Value::KeySet(KeySet::from_keys(&[a(9), u(7)]))));
    assert!(!v.equals(&Value::KeySet(KeySet::from_keys(&[a(9)]))));
    assert!(!v.equals(&Value::ByteArray(vec![])));
}

#[test]
fn key_set_bytes_out_of_order_or_out_of_shape_do_not_decode() {
    let mut two = vec![4u8, 2, 0, 0, 0, 0, 0, 0, 0];
    two.push(2);
    two.extend_from_slice(&[7u8; 32]);
    two.push(0);
    two.extend_from_slice(&[9u8; 32]);
    // descending
    assert_eq!(deserialize(&two), Err(Error::DecodeError));
    // the same key twice
    let mut twice = vec![4u8, 2, 0, 0, 0, 0, 0, 0, 0];
    for _ in 0..2 {
        twice.push(1);
        twice.extend_from_slice(&[5u8; 32]);
    }
    assert_eq!(deserialize(&twice), Err(Error::DecodeError));
    // a count that is not the number of keys
    let mut miscounted = vec![4u8, 2, 0, 0, 0, 0, 0, 0, 0];
    miscounted.push(1);
    miscounted.extend_from_slice(&[5u8; 32]);
    assert_eq!(deserialize(&miscounted), Err(Error::DecodeError));
    miscounted[1] = 0;
    assert_eq!(deserialize(&miscounted), Err(Error::DecodeError));
    miscounted[1] = 1;
    assert_eq!(
        deserialize(&miscounted),
        Ok(Value::KeySet(KeySet::from_keys(&[h(5)])))
    );
    // half a key
    let mut half = miscounted.clone();
    half.truncate(20);
    assert_eq!(deserialize(&half), Err(Error::DecodeError));
    // a key of no kind
    let mut unknown = miscounted.clone();
    unknown[9] = 3;
    assert_eq!(deserialize(&unknown), Err(Error::DecodeError));
    // no count
    assert_eq!(deserialize(&[4, 0, 0]), Err(Error::DecodeError));
    assert_eq!(deserialize(&[4]), Err(Error::DecodeError));
}

#[test]
fn key_from_bytes_reads_what_to_bytes_wrote() {
    for k in [a(0), h(200), u(255)] {
        assert_eq!(Key::from_bytes(&k.to_bytes()), Some(k));
    }
    assert_eq!(Key::from_bytes(&[]), None);
    assert_eq!(Key::from_bytes(&[0u8; 32]), None);
    assert_eq!(Key::from_bytes(&[0u8; 34]), None);
    assert_eq!(Key::from_bytes(&[3u8; 33]), None);
    assert_eq!(Key::from_bytes(&[2u8; 33]), Some(u(2)));
}

#[test]
fn add_keys_is_union_and_needs_a_key_set() {
    let current = Value::KeySet(KeySet::from_keys(&[a(1)]));
    assert_eq!(
        Transform::AddKeys(KeySet::from_keys(&[h(1), a(1)])).merge(current),
        Ok(Value::KeySet(KeySet::from_keys(&[a(1), h(1)])))
    );
    assert_eq!(
        Transform::AddKeys(KeySet::new()).merge(Value::UInt64(1)),
        Err(Error::MergeTypeError)
    );
    assert_eq!(
        Transform::AddUInt64(1).merge(Value::KeySet(KeySet::new())),
        Err(Error::MergeTypeError)
    );
    assert_eq!(
        Transform::AddInt32(1).merge(Value::KeySet(KeySet::new())),
        Err(Error::MergeTypeError)
    );
    assert!(Transform::AddKeys(KeySet::new()).is_accumulation());
    let t = Transform::AddKeys(KeySet::from_keys(&[u(1)]));
    assert_eq!(t.clone(), t);
}

#[test]
fn add_keys_in_any_order_leaves_the_same_set() {
    let adds = [
        KeySet::from_keys(&[a(1), h(1)]),
        KeySet::from_keys(&[h(1), u(1)]),
        KeySet::from_keys(&[a(0)]),
    ];
    let orders = [[0, 1, 2], [0, 2, 1], [1, 0, 2], [1, 2, 0], [2, 0, 1], [2, 1, 0]];
    let k = Key::Account([0xee; 32]);
    for order in orders.iter() {
        let mut gs = InMemGs::new(2);
        assert_eq!(gs.apply(k, Transform::Write(Value::KeySet(KeySet::from_keys(&[u(9)])))), Ok(()));
        for i in order.iter() {
            assert_eq!(gs.apply(k, Transform::AddKeys(adds[*i].clone())), Ok(()));
        }
        assert_eq!(
            gs.get(&k),
            Ok(Value::KeySet(KeySet::from_keys(&[a(0), a(1), h(1), u(1), u(9)])))
        );
    }
    let mut gs = InMemGs::new(2);
    assert_eq!(
        gs.apply(k, Transform::AddKeys(KeySet::new())),
        Err(Error::KeyNotFound { key: k })
    );
}

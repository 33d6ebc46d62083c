use storage::error::Error;
use storage::gs::inmem::InMemGs;
use storage::gs::tracking_copy::{overlay_value, TrackingCopy};
use storage::gs::{DbReader, GlobalState};
use storage::key::Key;
use storage::key_map::KeyMap;
use storage::transform::Transform;
use storage::value::Value;

fn key(n: u8) -> Key {
    Key::URef([n; 32])
}

fn engine() -> InMemGs {
    let mut gs = InMemGs::new(8);
    assert_eq!(gs.apply(key(1), Transform::Write(Value::UInt64(100))), Ok(()));
    assert_eq!(gs.apply(key(2), Transform::Write(Value::String(String::from("hello")))), Ok(()));
    gs
}

#[test]
fn fresh_copy_reads_through() {
    let gs = engine();
    let mut copy = gs.tracking_copy().unwrap();
    assert_eq!(copy.read(&key(1)), Ok(Value::UInt64(100)));
    assert_eq!(copy.read(&key(1)), Ok(Value::UInt64(100)));
    assert_eq!(copy.read(&key(3)), Err(Error::KeyNotFound { key: key(3) }));
    assert!(copy.effects().is_empty());
}

#[test]
fn copy_sees_its_own_writes_and_the_engine_does_not() {
    let gs = engine();
    let mut copy = TrackingCopy::new(&gs);
    let mut other = TrackingCopy::new(&gs);
    copy.write(key(1), Transform::AddUInt64(50));
    copy.write(key(3), Transform::Write(Value::Int32(-1)));
    assert_eq!(copy.read(&key(1)), Ok(Value::UInt64(150)));
    assert_eq!(copy.read(&key(3)), Ok(Value::Int32(-1)));
    assert_eq!(gs.get(&key(1)), Ok(Value::UInt64(100)));
    assert_eq!(gs.get(&key(3)), Err(Error::KeyNotFound { key: key(3) }));
    assert_eq!(other.read(&key(1)), Ok(Value::UInt64(100)));
    assert_eq!(other.read(&key(3)), Err(Error::KeyNotFound { key: key(3) }));
    assert!(other.effects().is_empty());
}

#[test]
fn write_after_a_cached_read_is_seen() {
    let gs = engine();
    let mut copy = TrackingCopy::new(&gs);
    assert_eq!(copy.read(&key(1)), Ok(Value::UInt64(100)));
    copy.write(key(1), Transform::Write(Value::UInt64(1)));
    assert_eq!(copy.read(&key(1)), Ok(Value::UInt64(1)));
    copy.write(key(1), Transform::AddUInt64(2));
    copy.write(key(2), Transform::AddUInt64(2));
    assert_eq!(copy.read(&key(1)), Ok(Value::UInt64(3)));
}

#[test]
fn pending_accumulation_that_does_not_fit_shows_on_read() {
    let gs = engine();
    let mut copy = TrackingCopy::new(&gs);
    copy.write(key(2), Transform::AddInt32(1));
    assert_eq!(copy.read(&key(2)), Err(Error::MergeTypeError));
    copy.write(key(3), Transform::AddInt32(1));
    assert_eq!(copy.read(&key(3)), Err(Error::KeyNotFound { key: key(3) }));
    copy.write(key(2), Transform::Write(Value::Int32(5)));
    assert_eq!(copy.read(&key(2)), Ok(Value::Int32(5)));
}

#[test]
fn effects_come_out_in_the_order_recorded() {
    let gs = engine();
    let mut copy = TrackingCopy::new(&gs);
    copy.write(key(2), Transform::Write(Value::Int32(1)));
    copy.write(key(1), Transform::AddUInt64(5));
    copy.write(key(2), Transform::AddInt32(2));
    assert_eq!(
        copy.effects(),
        vec![
            (key(2), Transform::Write(Value::Int32(1))),
            (key(1), Transform::AddUInt64(5)),
            (key(2), Transform::AddInt32(2)),
        ]
    );
}

#[test]
fn replaying_the_effects_leaves_what_the_copy_read() {
    let mut gs = engine();
    let (effects, seen_one, seen_two, seen_three) = {
        let mut copy = TrackingCopy::new(&gs);
        copy.write(key(1), Transform::AddUInt64(50));
        copy.write(key(2), Transform::Write(Value::Int32(7)));
        copy.write(key(3), Transform::Write(Value::ByteArray(vec![1, 2, 3])));
        copy.write(key(2), Transform::AddInt32(-8));
        (copy.effects(), copy.read(&key(1)), copy.read(&key(2)), copy.read(&key(3)))
    };
    assert_eq!(seen_one, Ok(Value::UInt64(150)));
    assert_eq!(seen_two, Ok(Value::Int32(-1)));
    assert_eq!(seen_three, Ok(Value::ByteArray(vec![1, 2, 3])));
    for (k, t) in effects {
        assert_eq!(gs.apply(k, t), Ok(()));
    }
    assert_eq!(gs.get(&key(1)), seen_one);
    assert_eq!(gs.get(&key(2)), seen_two);
    assert_eq!(gs.get(&key(3)), seen_three);
}

#[test]
fn dropped_copy_leaves_the_engine_untouched() {
    let gs = engine();
    {
        let mut copy = TrackingCopy::new(&gs);
        copy.write(key(1), Transform::Write(Value::UInt64(0)));
        assert_eq!(copy.read(&key(1)), Ok(Value::UInt64(0)));
    }
    assert_eq!(gs.get(&key(1)), Ok(Value::UInt64(100)));
    assert_eq!(gs.len(), 2);
}

#[test]
fn overlay_value_lays_the_log_over_the_base() {
    let log = vec![
        (key(1), Transform::AddUInt64(1)),
        (key(2), Transform::Write(Value::UInt64(10))),
        (key(1), Transform::AddUInt64(2)),
        (key(2), Transform::AddUInt64(5)),
    ];
    assert_eq!(overlay_value(&key(1), Ok(Value::UInt64(100)), &log), Ok(Value::UInt64(103)));
    assert_eq!(overlay_value(&key(2), Ok(Value::UInt64(100)), &log), Ok(Value::UInt64(15)));
    assert_eq!(overlay_value(&key(2), Err(Error::DecodeError), &log), Ok(Value::UInt64(15)));
    assert_eq!(overlay_value(&key(1), Err(Error::DecodeError), &log), Err(Error::DecodeError));
    assert_eq!(
        overlay_value(&key(1), Ok(Value::Int32(1)), &log),
        Err(Error::MergeTypeError)
    );
    assert_eq!(
        overlay_value(&key(3), Err(Error::KeyNotFound { key: key(3) }), &log),
        Err(Error::KeyNotFound { key: key(3) })
    );
    assert_eq!(overlay_value(&key(3), Ok(Value::Int32(1)), &Vec::new()), Ok(Value::Int32(1)));
}

#[test]
fn key_map_keeps_one_value_per_key() {
    let mut m: KeyMap<u32> = KeyMap::new();
    assert_eq!(m.len(), 0);
    assert_eq!(m.get(&key(1)), None);
    assert!(!m.contains_key(&key(1)));
    m.insert(key(1), 10);
    m.insert(key(2), 20);
    m.insert(key(1), 11);
    assert_eq!(m.len(), 2);
    assert_eq!(m.get(&key(1)), Some(&11));
    assert_eq!(m.get(&key(2)), Some(&20));
    assert!(m.contains_key(&key(2)));
    assert_eq!(m.get(&Key::Hash([1u8; 32])), None);
}

use storage::error::Error;
use storage::gs::lmdb::{
    commit_report, conclude, frame_description, interpret_found, stage_batch, LmdbGs, Stored,
};
use storage::gs::{DbReader, GlobalState};
use storage::key::Key;
use storage::key_set::KeySet;
use storage::transform::Transform;
use storage::value::Value;
use tempfile::tempdir;

fn sample_values() -> Vec<Value> {
    vec![
        Value::Int32(0),
        Value::Int32(-1),
        Value::Int32(i32::MIN),
        Value::Int32(i32::MAX),
        Value::UInt64(0),
        Value::UInt64(100),
        Value::UInt64(u64::MAX),
        Value::ByteArray(vec![]),
        Value::ByteArray(vec![0, 1, 2, 255]),
        Value::String(String::new()),
        Value::String(String::from("hello")),
        Value::String(String::from("gr\u{fc}\u{df}e \u{4e16}\u{754c} \u{1f600}")),
        Value::KeySet(KeySet::new()),
        Value::KeySet(KeySet::from_keys(&[
            Key::URef([1u8; 32]),
            Key::Account([2u8; 32]),
            Key::Hash([3u8; 32]),
        ])),
    ]
}

fn sample_keys() -> Vec<Key> {
    let mut counting = [0u8; 32];
    for (i, b) in counting.iter_mut().enumerate() {
        *b = i as u8;
    }
    vec![
        Key::Account([0u8; 32]),
        Key::Hash([0u8; 32]),
        Key::URef([0u8; 32]),
        Key::Account([255u8; 32]),
        Key::Hash(counting),
        Key::URef(counting),
    ]
}

#[test]
fn lmdb_new() {
    let temp_dir = tempdir().unwrap();
    let path = temp_dir.path();
    let lmdb = LmdbGs::new(&path.to_path_buf());

    assert!(matches!(lmdb, Ok(_)));
}

#[test]
fn lmdb_rw() {
    let temp_dir = tempdir().unwrap();
    let path = temp_dir.path();
    let lmdb = LmdbGs::new(&path.to_path_buf()).unwrap();

    for k in sample_keys() {
        for v in sample_values() {
            let write = lmdb.write_single(k, &v);
            let read = lmdb.read(&k);
            assert!(matches!(write, Ok(_)));
            assert_eq!(read, Ok(v.clone()));
        }
    }
}

#[test]
fn lmdb_new_fails_without_directory() {
    let temp_dir = tempdir().unwrap();
    let missing = temp_dir.path().join("not-there");
    let lmdb = LmdbGs::new(&missing);
    assert!(matches!(lmdb, Err(Error::BackingStoreError)));
}

#[test]
fn lmdb_same_path_shares_one_environment() {
    let temp_dir = tempdir().unwrap();
    let path = temp_dir.path().to_path_buf();
    let first = LmdbGs::new(&path).unwrap();
    let second = LmdbGs::new(&path).unwrap();
    let k = Key::Hash([7u8; 32]);
    assert_eq!(first.write_single(k, &Value::UInt64(5)), Ok(()));
    assert_eq!(second.read(&k), Ok(Value::UInt64(5)));
}

#[test]
fn lmdb_missing_key_is_key_not_found() {
    let temp_dir = tempdir().unwrap();
    let mut lmdb = LmdbGs::new(&temp_dir.path().to_path_buf()).unwrap();
    let k = Key::Account([9u8; 32]);
    assert_eq!(lmdb.read(&k), Err(Error::KeyNotFound { key: k }));
    assert_eq!(lmdb.get(&k), Err(Error::KeyNotFound { key: k }));
    assert_eq!(lmdb.apply(k, Transform::AddUInt64(1)), Err(Error::KeyNotFound { key: k }));
    assert_eq!(lmdb.apply(k, Transform::AddInt32(1)), Err(Error::KeyNotFound { key: k }));
    assert_eq!(lmdb.read(&k), Err(Error::KeyNotFound { key: k }));
}

#[test]
fn lmdb_keys_of_different_kinds_do_not_collide() {
    let temp_dir = tempdir().unwrap();
    let lmdb = LmdbGs::new(&temp_dir.path().to_path_buf()).unwrap();
    let addr = [3u8; 32];
    assert_eq!(lmdb.write_single(Key::Account(addr), &Value::UInt64(1)), Ok(()));
    assert_eq!(lmdb.write_single(Key::Hash(addr), &Value::UInt64(2)), Ok(()));
    assert_eq!(lmdb.read(&Key::Account(addr)), Ok(Value::UInt64(1)));
    assert_eq!(lmdb.read(&Key::Hash(addr)), Ok(Value::UInt64(2)));
    assert_eq!(lmdb.read(&Key::URef(addr)), Err(Error::KeyNotFound { key: Key::URef(addr) }));
}

#[test]
fn lmdb_batch_write_puts_every_pair() {
    let temp_dir = tempdir().unwrap();
    let lmdb = LmdbGs::new(&temp_dir.path().to_path_buf()).unwrap();
    let a = Key::Account([1u8; 32]);
    let b = Key::Hash([2u8; 32]);
    let first = Value::UInt64(1);
    let second = Value::String(String::from("two"));
    let third = Value::UInt64(3);
    assert_eq!(lmdb.write(&[(a, &first), (b, &second), (a, &third)]), Ok(()));
    assert_eq!(lmdb.read(&a), Ok(Value::UInt64(3)));
    assert_eq!(lmdb.read(&b), Ok(Value::String(String::from("two"))));
    assert_eq!(lmdb.write(&[]), Ok(()));
}

#[test]
fn lmdb_balance_scenario() {
    let temp_dir = tempdir().unwrap();
    let mut lmdb = LmdbGs::new(&temp_dir.path().to_path_buf()).unwrap();
    let a = Key::Account([0xaau8; 32]);
    let b = Key::Account([0xbbu8; 32]);

    assert_eq!(lmdb.apply(a, Transform::Write(Value::UInt64(100))), Ok(()));
    assert_eq!(lmdb.apply(a, Transform::AddUInt64(50)), Ok(()));
    assert_eq!(lmdb.get(&a), Ok(Value::UInt64(150)));

    assert_eq!(lmdb.apply(b, Transform::AddUInt64(50)), Err(Error::KeyNotFound { key: b }));

    assert_eq!(lmdb.apply(b, Transform::Write(Value::String(String::from("hello")))), Ok(()));
    assert_eq!(lmdb.apply(b, Transform::AddInt32(1)), Err(Error::MergeTypeError));
    assert_eq!(lmdb.get(&b), Ok(Value::String(String::from("hello"))));
}

#[test]
fn lmdb_tracking_copy_commit() {
    let temp_dir = tempdir().unwrap();
    let mut lmdb = LmdbGs::new(&temp_dir.path().to_path_buf()).unwrap();
    let k = Key::URef([4u8; 32]);
    assert_eq!(lmdb.apply(k, Transform::Write(Value::Int32(10))), Ok(()));
    let effects = {
        let mut copy = lmdb.tracking_copy().unwrap();
        assert_eq!(copy.read(&k), Ok(Value::Int32(10)));
        copy.write(k, Transform::AddInt32(5));
        assert_eq!(copy.read(&k), Ok(Value::Int32(15)));
        assert_eq!(lmdb.get(&k), Ok(Value::Int32(10)));
        copy.effects()
    };
    for (key, t) in effects {
        assert_eq!(lmdb.apply(key, t), Ok(()));
    }
    assert_eq!(lmdb.get(&k), Ok(Value::Int32(15)));
}

#[test]
fn interpret_found_tells_the_three_cases_apart() {
    let k = Key::Hash([1u8; 32]);
    assert_eq!(interpret_found(&k, None), Err(Error::KeyNotFound { key: k }));
    assert_eq!(
        interpret_found(&k, Some(Stored::Blob(Value::UInt64(7).to_bytes()))),
        Ok(Value::UInt64(7))
    );
    assert_eq!(interpret_found(&k, Some(Stored::Blob(vec![9, 9]))), Err(Error::DecodeError));
    assert_eq!(interpret_found(&k, Some(Stored::Blob(vec![]))), Err(Error::DecodeError));
    assert_eq!(interpret_found(&k, Some(Stored::Other)), Err(Error::BackingStoreError));
}

#[test]
fn lmdb_describes_itself() {
    let temp_dir = tempdir().unwrap();
    let lmdb = LmdbGs::new(&temp_dir.path().to_path_buf()).unwrap();
    let text = lmdb.describe();
    assert!(text.starts_with("LMDB("));
    assert!(text.ends_with(")"));
}

#[test]
fn description_is_the_environment_text_in_brackets_after_the_name() {
    assert_eq!(frame_description(""), "LMDB()");
    assert_eq!(frame_description("RwLock { data: Rkv }"), "LMDB(RwLock { data: Rkv })");
    let temp_dir = tempdir().unwrap();
    let lmdb = LmdbGs::new(&temp_dir.path().to_path_buf()).unwrap();
    let text = lmdb.describe();
    assert!(text.len() > "LMDB()".len());
    assert!(text.contains("Rkv"));
}

fn oversized() -> Value {
    // more than the environment has room for
    Value::ByteArray(vec![7u8; 16 * 1024 * 1024])
}

#[test]
fn lmdb_failed_batch_leaves_absent_keys_absent() {
    let temp_dir = tempdir().unwrap();
    let lmdb = LmdbGs::new(&temp_dir.path().to_path_buf()).unwrap();
    let a = Key::Account([1u8; 32]);
    let b = Key::Account([2u8; 32]);
    let c = Key::Account([3u8; 32]);
    let small = Value::UInt64(1);
    let large = oversized();
    assert_eq!(
        lmdb.write(&[(a, &small), (b, &large), (c, &small)]),
        Err(Error::BackingStoreError)
    );
    assert_eq!(lmdb.read(&a), Err(Error::KeyNotFound { key: a }));
    assert_eq!(lmdb.read(&b), Err(Error::KeyNotFound { key: b }));
    assert_eq!(lmdb.read(&c), Err(Error::KeyNotFound { key: c }));
    assert_eq!(lmdb.write_single(b, &large), Err(Error::BackingStoreError));
    assert_eq!(lmdb.read(&b), Err(Error::KeyNotFound { key: b }));
}

#[test]
fn lmdb_failed_batch_leaves_present_keys_as_they_were() {
    let temp_dir = tempdir().unwrap();
    let mut lmdb = LmdbGs::new(&temp_dir.path().to_path_buf()).unwrap();
    let a = Key::Hash([1u8; 32]);
    let b = Key::Hash([2u8; 32]);
    let old = Value::String(String::from("old"));
    assert_eq!(lmdb.write_single(a, &old), Ok(()));
    let new = Value::String(String::from("new"));
    let large = oversized();
    assert_eq!(lmdb.write(&[(a, &new), (b, &large)]), Err(Error::BackingStoreError));
    assert_eq!(lmdb.read(&a), Ok(Value::String(String::from("old"))));
    assert_eq!(lmdb.read(&b), Err(Error::KeyNotFound { key: b }));
    assert_eq!(lmdb.apply(b, Transform::Write(oversized())), Err(Error::BackingStoreError));
    assert_eq!(lmdb.read(&b), Err(Error::KeyNotFound { key: b }));
    // the store still takes what fits
    assert_eq!(lmdb.write(&[(a, &new), (b, &new)]), Ok(()));
    assert_eq!(lmdb.read(&a), Ok(Value::String(String::from("new"))));
    assert_eq!(lmdb.read(&b), Ok(Value::String(String::from("new"))));
}

#[test]
fn lmdb_batch_beside_a_key_written_before() {
    let temp_dir = tempdir().unwrap();
    let lmdb = LmdbGs::new(&temp_dir.path().to_path_buf()).unwrap();
    let a = Key::Account([0xa; 32]);
    let b = Key::Account([0xb; 32]);
    let c = Key::Account([0xc; 32]);
    assert_eq!(lmdb.write_single(a, &Value::UInt64(100)), Ok(()));
    let one = Value::UInt64(1);
    let two = Value::UInt64(2);
    assert_eq!(lmdb.write(&[(b, &one), (c, &two)]), Ok(()));
    assert_eq!(lmdb.read(&a), Ok(Value::UInt64(100)));
    assert_eq!(lmdb.read(&b), Ok(Value::UInt64(1)));
    assert_eq!(lmdb.read(&c), Ok(Value::UInt64(2)));
}

#[test]
fn lmdb_empty_batch_changes_nothing() {
    let temp_dir = tempdir().unwrap();
    let lmdb = LmdbGs::new(&temp_dir.path().to_path_buf()).unwrap();
    let a = Key::URef([1u8; 32]);
    let b = Key::URef([2u8; 32]);
    assert_eq!(lmdb.write_single(a, &Value::Int32(-1)), Ok(()));
    assert_eq!(lmdb.write(&[]), Ok(()));
    assert_eq!(lmdb.read(&a), Ok(Value::Int32(-1)));
    assert_eq!(lmdb.read(&b), Err(Error::KeyNotFound { key: b }));
}

#[test]
fn lmdb_later_pair_of_a_repeated_key_wins() {
    let temp_dir = tempdir().unwrap();
    let lmdb = LmdbGs::new(&temp_dir.path().to_path_buf()).unwrap();
    let a = Key::Account([5u8; 32]);
    let one = Value::UInt64(1);
    let two = Value::UInt64(2);
    assert_eq!(lmdb.write(&[(a, &one), (a, &two)]), Ok(()));
    assert_eq!(lmdb.read(&a), Ok(Value::UInt64(2)));
}

#[test]
fn staged_batch_is_held_by_the_transaction_and_gone_when_abandoned() {
    let temp_dir = tempdir().unwrap();
    let env = rkv::Rkv::new(temp_dir.path()).unwrap();
    let store = env.open_single("global_state", rkv::StoreOptions::create()).unwrap();
    let a = Key::Account([1u8; 32]);
    let b = Key::Hash([2u8; 32]);
    let c = Key::URef([3u8; 32]);
    let first = Value::UInt64(1);
    let second = Value::String(String::from("two"));
    let third = Value::Int32(-3);
    {
        let mut writer = env.write().unwrap();
        let batch = [(a, &first), (b, &second), (a, &third)];
        let staging = stage_batch(store, &mut writer, &batch);
        assert_eq!(staging, Ok(()));
        assert_eq!(
            store.get(&writer, a.to_bytes()).unwrap(),
            Some(rkv::Value::Blob(&third.to_bytes()))
        );
        assert_eq!(
            store.get(&writer, b.to_bytes()).unwrap(),
            Some(rkv::Value::Blob(&second.to_bytes()))
        );
        assert_eq!(store.get(&writer, c.to_bytes()).unwrap(), None);
        assert_eq!(
            conclude(writer, store, &batch, Err(Error::BackingStoreError)),
            Err(Error::BackingStoreError)
        );
    }
    {
        let reader = env.read().unwrap();
        assert_eq!(store.get(&reader, a.to_bytes()).unwrap(), None);
        assert_eq!(store.get(&reader, b.to_bytes()).unwrap(), None);
    }
    {
        let mut writer = env.write().unwrap();
        let batch = [(c, &first), (a, &second)];
        let staging = stage_batch(store, &mut writer, &batch);
        assert_eq!(conclude(writer, store, &batch, staging), Ok(()));
    }
    {
        let reader = env.read().unwrap();
        assert_eq!(
            store.get(&reader, c.to_bytes()).unwrap(),
            Some(rkv::Value::Blob(&first.to_bytes()))
        );
        assert_eq!(
            store.get(&reader, a.to_bytes()).unwrap(),
            Some(rkv::Value::Blob(&second.to_bytes()))
        );
        assert_eq!(store.get(&reader, b.to_bytes()).unwrap(), None);
    }
}

#[test]
fn staging_stops_at_the_put_that_fails() {
    let temp_dir = tempdir().unwrap();
    let env = rkv::Rkv::new(temp_dir.path()).unwrap();
    let store = env.open_single("global_state", rkv::StoreOptions::create()).unwrap();
    let a = Key::Account([1u8; 32]);
    let b = Key::Account([2u8; 32]);
    let small = Value::UInt64(1);
    let large = oversized();
    let mut writer = env.write().unwrap();
    let batch = [(a, &small), (b, &large)];
    let staging = stage_batch(store, &mut writer, &batch);
    assert_eq!(staging, Err(Error::BackingStoreError));
    assert_eq!(conclude(writer, store, &batch, staging), Err(Error::BackingStoreError));
    let reader = env.read().unwrap();
    assert_eq!(store.get(&reader, a.to_bytes()).unwrap(), None);
}

#[test]
fn empty_batch_stages_and_commits() {
    let temp_dir = tempdir().unwrap();
    let env = rkv::Rkv::new(temp_dir.path()).unwrap();
    let store = env.open_single("global_state", rkv::StoreOptions::create()).unwrap();
    let a = Key::Account([1u8; 32]);
    let mut writer = env.write().unwrap();
    let batch: [(Key, &Value); 0] = [];
    let staging = stage_batch(store, &mut writer, &batch);
    assert_eq!(staging, Ok(()));
    assert_eq!(store.get(&writer, a.to_bytes()).unwrap(), None);
    assert_eq!(conclude(writer, store, &batch, staging), Ok(()));
}

#[test]
fn commit_report_passes_success_and_names_failure() {
    assert_eq!(commit_report(Ok(())), Ok(()));
    let gone = rkv::StoreError::DirectoryDoesNotExistError(std::path::PathBuf::from("nowhere"));
    assert_eq!(commit_report(Err(gone)), Err(Error::BackingStoreError));
}

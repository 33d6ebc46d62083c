//! Global state kept in an LMDB environment on disk, through the `rkv` crate.
//!
//! One named store of the environment holds the state: each key is filed under its
//! byte form, and each value is kept as a blob of its encoded bytes. What the
//! environment holds is not in the program's hands (another handle on the same
//! path, or another process, may write to it), so nothing is claimed here about
//! what a read finds; that part is stated by the functions that take what was found
//! as an argument ([`interpret_found`], [`crate::gs::resolve_effect`]). What a write
//! hands to the store is stated over the write transaction ([`stage_batch`]): within
//! it the store is the transaction's own. What the environment holds once a
//! transaction has ended is again LMDB's to say.
use crate::bytesrepr::{decode_outcome, encodable, lemma_decode_encode, value_bytes};
use crate::error::Error;
use crate::gs::tracking_copy::TrackingCopy;
use crate::gs::{decode_found, resolve, resolve_effect, DbReader, GlobalState};
use crate::key::{lemma_key_bytes_injective, Key};
use crate::transform::{Transform, TransformView};
use crate::value::{outcome_view, Value, ValueView};
use std::sync::Arc;
use vstd::prelude::*;

verus! {

/// The name of the store that holds the global state.
pub const STORE_NAME: &'static str = "global_state";

/// `rkv::Rkv`: an open LMDB environment.
#[verifier::external_type_specification]
#[verifier::external_body]
pub struct ExRkv(rkv::Rkv);

/// `rkv::SingleStore`: the handle of one named store of an environment.
#[verifier::external_type_specification]
#[verifier::external_body]
pub struct ExSingleStore(rkv::SingleStore);

/// `rkv::StoreError`: why the environment could not carry out a request.
#[verifier::external_type_specification]
#[verifier::external_body]
pub struct ExStoreError(rkv::StoreError);

/// `rkv::Manager`: the registry of the environments that this process has open.
#[verifier::external_type_specification]
#[verifier::external_body]
pub struct ExManager(rkv::Manager);

/// `rkv::Reader`: a read transaction.
#[verifier::external_type_specification]
#[verifier::external_body]
pub struct ExReader<'env>(rkv::Reader<'env>);

/// `rkv::Writer`: a write transaction.
#[verifier::external_type_specification]
#[verifier::external_body]
pub struct ExWriter<'env>(rkv::Writer<'env>);

/// `std::sync::RwLock`.
#[verifier::external_type_specification]
#[verifier::external_body]
#[verifier::reject_recursive_types(T)]
pub struct ExRwLock<T: ?Sized>(std::sync::RwLock<T>);

/// `std::sync::RwLockReadGuard`.
#[verifier::external_type_specification]
#[verifier::external_body]
#[verifier::reject_recursive_types(T)]
pub struct ExRwLockReadGuard<'a, T: ?Sized>(std::sync::RwLockReadGuard<'a, T>);

/// `std::sync::RwLockWriteGuard`.
#[verifier::external_type_specification]
#[verifier::external_body]
#[verifier::reject_recursive_types(T)]
pub struct ExRwLockWriteGuard<'a, T: ?Sized + 'a>(std::sync::RwLockWriteGuard<'a, T>);

/// `std::path::PathBuf`.
#[verifier::external_type_specification]
#[verifier::external_body]
pub struct ExPathBuf(std::path::PathBuf);

/// The blobs that a lookup through the write transaction finds, each under its key,
/// in the database that the handle names in the transaction's environment: what the
/// database held when the transaction began, with the transaction's own puts over it.
pub uninterp spec fn held(w: rkv::Writer<'_>, store: rkv::SingleStore) -> Map<Seq<u8>, Seq<u8>>;

/// The database that the handle names in the transaction's environment keeps one
/// value per key: it was made without the flag for duplicates. Whether it was is
/// for the environment to say; no function of this crate claims it of a store.
pub uninterp spec fn single_valued(w: rkv::Writer<'_>, store: rkv::SingleStore) -> bool;

/// A batch as the bytes that are handed to the store: for each pair, the byte form
/// of the key and the encoding of the value.
pub open spec fn encoded(batch: Seq<(Key, &Value)>) -> Seq<(Seq<u8>, Seq<u8>)> {
    batch.map_values(|p: (Key, &Value)| (p.0.bytes(), value_bytes(p.1@)))
}

/// What a store holds after the pairs were put into it one after the other.
pub open spec fn put_all(m: Map<Seq<u8>, Seq<u8>>, pairs: Seq<(Seq<u8>, Seq<u8>)>) -> Map<
    Seq<u8>,
    Seq<u8>,
>
    decreases pairs.len(),
{
    if pairs.len() == 0 {
        m
    } else {
        put_all(m, pairs.drop_last()).insert(pairs.last().0, pairs.last().1)
    }
}

/// Between the two states of a write transaction the pairs were put, all of them,
/// in order: if the database keeps one value per key, it holds afterwards what it
/// held before with the pairs put into it.
pub open spec fn staged_between<'a>(
    before: rkv::Writer<'a>,
    after: rkv::Writer<'a>,
    store: rkv::SingleStore,
    pairs: Seq<(Seq<u8>, Seq<u8>)>,
) -> bool {
    single_valued(before, store) ==> held(after, store) == put_all(held(before, store), pairs)
}

/// The write transaction holds a whole batch: the pairs were put through it, all of
/// them, in order, since some earlier state of it.
pub open spec fn holds_batch<'a>(
    w: rkv::Writer<'a>,
    store: rkv::SingleStore,
    pairs: Seq<(Seq<u8>, Seq<u8>)>,
) -> bool {
    exists|before: rkv::Writer<'a>| #[trigger] staged_between(before, w, store, pairs)
}

/// Some write transaction on the store came to hold the pairs, all of them, in
/// order. It says nothing of how that transaction ended.
pub open spec fn was_staged(store: rkv::SingleStore, pairs: Seq<(Seq<u8>, Seq<u8>)>) -> bool {
    exists|before: rkv::Writer<'static>, after: rkv::Writer<'static>| #[trigger]
        staged_between(before, after, store, pairs)
}

/// What a read of `k` can give: any value, and any error but a merge-type error or
/// a missing key other than `k`.
pub open spec fn readable(k: Key, cur: Result<ValueView, Error>) -> bool {
    match cur {
        Ok(_) => true,
        Err(Error::KeyNotFound { key }) => key == k,
        Err(Error::MergeTypeError) => false,
        Err(_) => true,
    }
}

/// Applying `t` to `k` met the outcome `cur` of the read, resolved it to the value
/// `v`, and staged the encoding of `v` under the byte form of `k`.
pub open spec fn staged_resolution(
    store: rkv::SingleStore,
    k: Key,
    t: TransformView,
    cur: Result<ValueView, Error>,
    v: ValueView,
) -> bool {
    &&& readable(k, cur)
    &&& resolve(k, cur, t) == Ok::<ValueView, Error>(v)
    &&& was_staged(store, seq![(k.bytes(), value_bytes(v))])
}

/// The application of `t` to `k` resolved to a value against some outcome of the
/// read, and that value was staged under `k`.
pub open spec fn applied(store: rkv::SingleStore, k: Key, t: TransformView) -> bool {
    exists|cur: Result<ValueView, Error>, v: ValueView| #[trigger]
        staged_resolution(store, k, t, cur, v)
}

/// Against the outcome `cur` of the read, applying `t` to `k` resolves to the error
/// `e`.
pub open spec fn refused_against(
    k: Key,
    t: TransformView,
    cur: Result<ValueView, Error>,
    e: Error,
) -> bool {
    readable(k, cur) && resolve(k, cur, t) == Err::<ValueView, Error>(e)
}

/// The error `e` is what applying `t` to `k` resolves to against some outcome of
/// the read.
pub open spec fn refused(k: Key, t: TransformView, e: Error) -> bool {
    exists|cur: Result<ValueView, Error>| #[trigger] refused_against(k, t, cur, e)
}

/// What a lookup in the store found under a key.
pub enum Stored {
    /// A blob, with its bytes.
    Blob(Vec<u8>),
    /// A value of another of the store's kinds, which this crate never writes.
    Other,
}

/// The outcome of a read, given what the store found under the key: no entry is a
/// missing key, a blob is whatever its bytes decode to, and anything else is a fault
/// of the store.
pub open spec fn stored_outcome(k: Key, found: Option<Stored>) -> Result<ValueView, Error> {
    match found {
        None => Err(Error::KeyNotFound { key: k }),
        Some(Stored::Blob(bytes)) => decode_outcome(bytes@),
        Some(Stored::Other) => Err(Error::BackingStoreError),
    }
}

/// Turns what the store found under `k` into the outcome of the read.
pub fn interpret_found(k: &Key, found: Option<Stored>) -> (r: Result<Value, Error>)
    ensures
        outcome_view(r) == stored_outcome(*k, found),
{
    match found {
        None => decode_found(k, None),
        Some(Stored::Blob(bytes)) => decode_found(k, Some(bytes.as_slice())),
        Some(Stored::Other) => Err(Error::BackingStoreError),
    }
}

/// `rkv::Manager::singleton`: the registry of this process. Nothing is claimed of it.
#[verifier::external_body]
fn manager_singleton() -> &'static std::sync::RwLock<rkv::Manager> {
    rkv::Manager::singleton()
}

/// `std::sync::RwLock::write`: the lock held for writing, or nothing if the lock is
/// poisoned. Nothing is claimed of which.
#[verifier::external_body]
fn lock_manager<'a>(lock: &'a std::sync::RwLock<rkv::Manager>) -> Option<
    std::sync::RwLockWriteGuard<'a, rkv::Manager>,
> {
    match lock.write() {
        Ok(guard) => Some(guard),
        Err(_) => None,
    }
}

/// `rkv::Manager::get_or_create` with `rkv::Rkv::new`: the environment at `path`,
/// opened if this process had not opened it yet, or the store's error. Nothing is
/// claimed of which.
#[verifier::external_body]
fn get_or_create(
    manager: &mut std::sync::RwLockWriteGuard<'_, rkv::Manager>,
    path: &std::path::PathBuf,
) -> Result<Arc<std::sync::RwLock<rkv::Rkv>>, rkv::StoreError> {
    manager.get_or_create(path.as_path(), rkv::Rkv::new)
}

/// `std::sync::RwLock::read`: the lock held for reading, or nothing if the lock is
/// poisoned. Nothing is claimed of which.
#[verifier::external_body]
fn lock_env<'a>(env: &'a Arc<std::sync::RwLock<rkv::Rkv>>) -> Option<
    std::sync::RwLockReadGuard<'a, rkv::Rkv>,
> {
    match env.read() {
        Ok(guard) => Some(guard),
        Err(_) => None,
    }
}

/// `rkv::Rkv::open_single` with the options of `rkv::StoreOptions::create`: the
/// handle of the store of that name, made if need be, or the store's error. Nothing
/// is claimed of which, nor of the store that comes of it: a database of that name
/// that is already there is opened as it was made. The name may hold no NUL
/// character: LMDB passes it on as a C string, and the conversion panics on one.
#[verifier::external_body]
fn open_single(rkv: &std::sync::RwLockReadGuard<'_, rkv::Rkv>, name: &str) -> (r: Result<
    rkv::SingleStore,
    rkv::StoreError,
>)
    requires
        forall|i: int| 0 <= i < name@.len() ==> name@[i] != '\0',
{
    rkv.open_single(Some(name), rkv::StoreOptions::create())
}

/// `rkv::Rkv::read`: a new read transaction, or the store's error. Nothing is
/// claimed of which.
#[verifier::external_body]
fn begin_read<'a>(rkv: &'a std::sync::RwLockReadGuard<'_, rkv::Rkv>) -> Result<
    rkv::Reader<'a>,
    rkv::StoreError,
> {
    rkv.read()
}

/// `rkv::Rkv::write`: a new write transaction, or the store's error. Nothing is
/// claimed of which.
#[verifier::external_body]
fn begin_write<'a>(rkv: &'a std::sync::RwLockReadGuard<'_, rkv::Rkv>) -> Result<
    rkv::Writer<'a>,
    rkv::StoreError,
> {
    rkv.write()
}

/// `rkv::SingleStore::get`: what the store holds under the key in the reader's
/// snapshot, or the store's error. Nothing is claimed of what is found.
#[verifier::external_body]
fn store_get(store: rkv::SingleStore, reader: &rkv::Reader<'_>, key: &[u8]) -> Result<
    Option<Stored>,
    rkv::StoreError,
> {
    match store.get(reader, key) {
        Ok(None) => Ok(None),
        Ok(Some(rkv::Value::Blob(bytes))) => Ok(Some(Stored::Blob(bytes.to_vec()))),
        Ok(Some(_)) => Ok(Some(Stored::Other)),
        Err(e) => Err(e),
    }
}

/// `rkv::SingleStore::put` of a blob: files the bytes under the key within the
/// write transaction, or gives the store's error. Nothing is claimed of which. When
/// it succeeds on a database that keeps one value per key, the transaction holds
/// the bytes under the key, in place of what it held there, and everything else as
/// before: LMDB documents a put without flags as replacing the entry of the key
/// where duplicates are not allowed. A put does not change how the database was
/// made.
#[verifier::external_body]
fn store_put(store: rkv::SingleStore, writer: &mut rkv::Writer<'_>, key: &[u8], bytes: &[u8])
    -> (r: Result<(), rkv::StoreError>)
    ensures
        r is Ok && single_valued(*old(writer), store) ==> held(*final(writer), store) == held(
            *old(writer),
            store,
        ).insert(key@, bytes@),
        single_valued(*final(writer), store) == single_valued(*old(writer), store),
{
    store.put(writer, key, &rkv::Value::Blob(bytes))
}

/// `rkv::Writer::commit`: asks the environment to make the transaction's writes
/// durable, and gives its answer. Nothing is claimed of the answer. The library
/// commits only a transaction that holds a whole batch: `store` and `batch` say
/// which, and take no part in the call.
#[verifier::external_body]
fn commit(writer: rkv::Writer<'_>, store: rkv::SingleStore, batch: &[(Key, &Value)]) -> Result<
    (),
    rkv::StoreError,
>
    requires
        holds_batch(writer, store, encoded(batch@)),
{
    writer.commit()
}

/// `rkv::Writer::abort`: drops the transaction and all its writes.
#[verifier::external_body]
fn abort(writer: rkv::Writer<'_>) {
    writer.abort()
}

/// The `Debug` form of the environment handle, as the standard library and `rkv`
/// print it. Nothing is claimed of the text.
#[verifier::external_body]
fn debug_env(env: &Arc<std::sync::RwLock<rkv::Rkv>>) -> String {
    format!("{:?}", env)
}

/// Puts a batch into the store within a write transaction: each pair in order, the
/// encoding of the value under the byte form of the key.
///
/// Stops at the first put that the store refuses and reports a store failure. An
/// empty batch succeeds and leaves the transaction as it was. On success every pair
/// of the batch was put: where the database keeps one value per key, the
/// transaction then holds the last pair of each key of the batch, and every other
/// key as before.
pub fn stage_batch(store: rkv::SingleStore, writer: &mut rkv::Writer<'_>, batch: &[(Key, &Value)])
    -> (r: Result<(), Error>)
    ensures
        r is Ok ==> staged_between(*old(writer), *final(writer), store, encoded(batch@)),
        batch@.len() == 0 ==> r is Ok && held(*final(writer), store) == held(*old(writer), store),
        r matches Err(e) ==> e == Error::BackingStoreError,
{
    let ghost start = held(*writer, store);
    let ghost single = single_valued(*writer, store);
    let ghost pairs = encoded(batch@);
    let mut i: usize = 0;
    while i < batch.len()
        invariant
            i <= batch@.len(),
            pairs == encoded(batch@),
            single_valued(*writer, store) == single,
            single ==> held(*writer, store) == put_all(start, pairs.take(i as int)),
            i == 0 ==> held(*writer, store) == start,
        decreases batch@.len() - i,
    {
        let key_bytes = batch[i].0.to_bytes();
        let bytes = batch[i].1.to_bytes();
        proof {
            assert(pairs.take(i + 1).drop_last() =~= pairs.take(i as int));
            assert(pairs.take(i + 1).last() == (key_bytes@, bytes@));
        }
        match store_put(store, writer, key_bytes.as_slice(), bytes.as_slice()) {
            Ok(()) => {},
            Err(_) => {
                return Err(Error::BackingStoreError);
            },
        }
        i += 1;
    }
    assert(pairs.take(i as int) =~= pairs);
    Ok(())
}

/// What the library reports of a commit: success for a commit that succeeded, a
/// store failure for one that did not.
pub fn commit_report(outcome: Result<(), rkv::StoreError>) -> (r: Result<(), Error>)
    ensures
        outcome is Ok ==> r == Ok::<(), Error>(()),
        outcome is Err ==> r == Err::<(), Error>(Error::BackingStoreError),
{
    match outcome {
        Ok(()) => Ok(()),
        Err(_) => Err(Error::BackingStoreError),
    }
}

/// Ends the write transaction of a batch, given how the staging went: asks for the
/// commit of a transaction that holds the whole batch and reports what
/// [`commit_report`] makes of the answer; abandons a transaction whose staging
/// failed, with everything put in it, and reports the failure as it is.
///
/// A transaction whose staging failed cannot be handed to the commit: the commit
/// takes only a transaction that holds the whole batch. What is stated of the
/// report: a failure to stage is reported as it is, and a staged batch is reported
/// as success or as a store failure; which of the two is the commit's answer.
pub fn conclude(
    writer: rkv::Writer<'_>,
    store: rkv::SingleStore,
    batch: &[(Key, &Value)],
    staging: Result<(), Error>,
) -> (r: Result<(), Error>)
    requires
        staging is Ok ==> holds_batch(writer, store, encoded(batch@)),
    ensures
        staging matches Err(e) ==> r == Err::<(), Error>(e),
        staging is Ok ==> r is Ok || r == Err::<(), Error>(Error::BackingStoreError),
{
    match staging {
        Ok(()) => commit_report(commit(writer, store, batch)),
        Err(e) => {
            abort(writer);
            Err(e)
        },
    }
}

/// Global state in an LMDB environment.
pub struct LmdbGs {
    store: rkv::SingleStore,
    env: Arc<std::sync::RwLock<rkv::Rkv>>,
}

impl LmdbGs {
    /// The handle of the store that holds the state.
    pub closed spec fn store(&self) -> rkv::SingleStore {
        self.store
    }

    /// Opens the global state kept in the directory `p`, creating its store if the
    /// environment has none yet.
    ///
    /// Handles opened on one path by one process share one environment. Any failure
    /// of the environment is reported as a store failure.
    pub fn new(p: &std::path::PathBuf) -> (r: Result<LmdbGs, Error>)
        ensures
            r matches Err(e) ==> e == Error::BackingStoreError,
    {
        let opened = match lock_manager(manager_singleton()) {
            Some(mut manager) => get_or_create(&mut manager, p),
            None => {
                return Err(Error::BackingStoreError);
            },
        };
        let env = match opened {
            Ok(env) => env,
            Err(_) => {
                return Err(Error::BackingStoreError);
            },
        };
        proof {
            reveal_strlit("global_state");
        }
        let store = match lock_env(&env) {
            Some(rkv) => match open_single(&rkv, STORE_NAME) {
                Ok(store) => store,
                Err(_) => {
                    return Err(Error::BackingStoreError);
                },
            },
            None => {
                return Err(Error::BackingStoreError);
            },
        };
        Ok(LmdbGs { store, env })
    }

    /// Reads the value of a key: looks up the key's bytes in a read transaction and
    /// interprets what was found ([`interpret_found`]).
    ///
    /// A key without an entry is `KeyNotFound` with that key; bytes that do not
    /// decode are a decode error; a failure of the environment is a store failure.
    pub fn read(&self, k: &Key) -> (r: Result<Value, Error>)
        ensures
            r matches Err(Error::KeyNotFound { key }) ==> key == *k,
            !(r matches Err(Error::MergeTypeError)),
    {
        let rkv = match lock_env(&self.env) {
            Some(rkv) => rkv,
            None => {
                return Err(Error::BackingStoreError);
            },
        };
        let reader = match begin_read(&rkv) {
            Ok(reader) => reader,
            Err(_) => {
                return Err(Error::BackingStoreError);
            },
        };
        let key_bytes = k.to_bytes();
        match store_get(self.store, &reader, key_bytes.as_slice()) {
            Ok(found) => interpret_found(k, found),
            Err(_) => Err(Error::BackingStoreError),
        }
    }

    /// Writes a batch of values, each under its key, in one write transaction.
    ///
    /// The batch is staged in the transaction ([`stage_batch`]) and the transaction
    /// is then ended ([`conclude`]): the commit is asked for if every pair was put,
    /// and the transaction is abandoned at the first put that fails. The only error
    /// is a store failure, and success is reported only after a transaction took the
    /// whole batch, in order. That a commit makes the whole batch durable, and that
    /// an abandoned transaction leaves nothing of it, is LMDB's part.
    pub fn write(&self, batch: &[(Key, &Value)]) -> (r: Result<(), Error>)
        ensures
            r matches Err(e) ==> e == Error::BackingStoreError,
            r is Ok ==> was_staged(self.store(), encoded(batch@)),
    {
        let rkv = match lock_env(&self.env) {
            Some(rkv) => rkv,
            None => {
                return Err(Error::BackingStoreError);
            },
        };
        let mut writer = match begin_write(&rkv) {
            Ok(writer) => writer,
            Err(_) => {
                return Err(Error::BackingStoreError);
            },
        };
        let ghost before = writer;
        let staging = stage_batch(self.store, &mut writer, batch);
        proof {
            if staging is Ok {
                assert(staged_between(before, writer, self.store, encoded(batch@)));
            }
        }
        conclude(writer, self.store, batch, staging)
    }

    /// Writes one value under its key: a batch of that one pair.
    pub fn write_single(&self, k: Key, v: &Value) -> (r: Result<(), Error>)
        ensures
            r matches Err(e) ==> e == Error::BackingStoreError,
            r is Ok ==> was_staged(self.store(), seq![(k.bytes(), value_bytes(v@))]),
    {
        let batch = [(k, v)];
        assert(encoded(batch@) =~= seq![(k.bytes(), value_bytes(v@))]);
        self.write(batch.as_slice())
    }

    /// A line of text that names the engine and shows its environment, for logs:
    /// the environment's `Debug` text, framed as [`frame_description`] frames it.
    pub fn describe(&self) -> (text: String)
        ensures
            exists|inner: Seq<char>| text@ == #[trigger] framed(inner),
    {
        let inner = debug_env(&self.env);
        let text = frame_description(inner.as_str());
        assert(text@ == framed(inner@));
        text
    }
}

impl DbReader for LmdbGs {
    /// What the environment holds is not the program's to state.
    open spec fn contents(&self) -> Option<Map<Key, ValueView>> {
        None
    }

    fn get(&self, k: &Key) -> (r: Result<Value, Error>) {
        self.read(k)
    }
}

impl GlobalState for LmdbGs {
    /// On success the transform was resolved against what the read gave, and the
    /// value it resolved to was staged under the key; an error is a store failure or
    /// what the transform resolved to. The read and the write are two transactions:
    /// another writer may come between them.
    fn apply(&mut self, k: Key, t: Transform) -> (r: Result<(), Error>)
        ensures
            final(self).store() == old(self).store(),
            r is Ok ==> applied(final(self).store(), k, t@),
            r matches Err(e) ==> e == Error::BackingStoreError || refused(k, t@, e),
    {
        let current = self.read(&k);
        let ghost cur = outcome_view(current);
        match resolve_effect(k, current, t) {
            Ok(v) => {
                let r = self.write_single(k, &v);
                proof {
                    if r is Ok {
                        assert(staged_resolution(self.store(), k, t@, cur, v@));
                    }
                }
                r
            },
            Err(e) => {
                assert(refused_against(k, t@, cur, e));
                Err(e)
            },
        }
    }

    fn tracking_copy(&self) -> (r: Result<TrackingCopy<'_, Self>, Error>) {
        Ok(TrackingCopy::new(self))
    }
}

/// **A staged batch is there whole.** In what a store holds after a batch was put
/// into it, a key of the batch has the encoding of the value of its last pair, which
/// reads back as that value, and a key that is not in the batch has what it had.
pub proof fn lemma_staged_batch(m: Map<Seq<u8>, Seq<u8>>, batch: Seq<(Key, &Value)>, k: Key)
    requires
        forall|i: int| 0 <= i < batch.len() ==> encodable((#[trigger] batch[i]).1@),
    ensures
        (forall|i: int| 0 <= i < batch.len() ==> (#[trigger] batch[i]).0 != k) ==> {
            let after = put_all(m, encoded(batch));
            &&& after.dom().contains(k.bytes()) == m.dom().contains(k.bytes())
            &&& m.dom().contains(k.bytes()) ==> after[k.bytes()] == m[k.bytes()]
        },
        forall|i: int|
            0 <= i < batch.len() && (#[trigger] batch[i]).0 == k && (forall|j: int|
                i < j < batch.len() ==> (#[trigger] batch[j]).0 != k) ==> {
                let after = put_all(m, encoded(batch));
                &&& after.dom().contains(k.bytes())
                &&& after[k.bytes()] == value_bytes(batch[i].1@)
                &&& decode_outcome(after[k.bytes()]) == Ok::<ValueView, Error>(batch[i].1@)
            },
        batch.len() == 0 ==> put_all(m, encoded(batch)) == m,
    decreases batch.len(),
{
    if batch.len() > 0 {
        let front = batch.drop_last();
        let last = batch.last();
        assert(encoded(batch).drop_last() =~= encoded(front));
        assert(encoded(batch).last() == (last.0.bytes(), value_bytes(last.1@)));
        assert forall|i: int| 0 <= i < front.len() implies encodable((#[trigger] front[i]).1@) by {
            assert(front[i] == batch[i]);
        }
        lemma_staged_batch(m, front, k);
        if last.0 != k {
            if last.0.bytes() == k.bytes() {
                lemma_key_bytes_injective(last.0, k);
            }
        } else {
            assert(encodable(batch[batch.len() - 1].1@));
            lemma_decode_encode(last.1@);
        }
        assert forall|i: int|
            0 <= i < batch.len() && (#[trigger] batch[i]).0 == k && (forall|j: int|
                i < j < batch.len() ==> (#[trigger] batch[j]).0 != k) implies {
            let after = put_all(m, encoded(batch));
            &&& after.dom().contains(k.bytes())
            &&& after[k.bytes()] == value_bytes(batch[i].1@)
            &&& decode_outcome(after[k.bytes()]) == Ok::<ValueView, Error>(batch[i].1@)
        } by {
            if i < front.len() {
                assert(batch[batch.len() - 1].0 != k);
                assert(front[i] == batch[i]);
                assert forall|j: int| i < j < front.len() implies (#[trigger] front[j]).0
                    != k by {
                    assert(front[j] == batch[j]);
                }
            }
        }
        if forall|i: int| 0 <= i < batch.len() ==> (#[trigger] batch[i]).0 != k {
            assert(batch[batch.len() - 1].0 != k);
            assert forall|i: int| 0 <= i < front.len() implies (#[trigger] front[i]).0 != k by {
                assert(front[i] == batch[i]);
            }
        }
    }
}

/// **What is found is what is read.** A key without an entry reads as not found,
/// with that key; a key whose entry is the encoding of a value reads as that value.
pub proof fn lemma_found_is_read(k: Key, v: ValueView, blob: Vec<u8>)
    requires
        encodable(v),
        blob@ == value_bytes(v),
    ensures
        stored_outcome(k, None) == Err::<ValueView, Error>(Error::KeyNotFound { key: k }),
        stored_outcome(k, Some(Stored::Blob(blob))) == Ok::<ValueView, Error>(v),
{
    lemma_decode_encode(v);
}

/// The description of an engine whose environment prints as `inner`: the name of
/// the engine, and the environment in brackets.
pub open spec fn framed(inner: Seq<char>) -> Seq<char> {
    "LMDB("@ + inner + ")"@
}

/// Frames the text of an environment as the description of the engine over it.
pub fn frame_description(inner: &str) -> (text: String)
    ensures
        text@ == framed(inner@),
{
    let mut text = String::new();
    vstd::string::StringExecFns::append(&mut text, "LMDB(");
    vstd::string::StringExecFns::append(&mut text, inner);
    vstd::string::StringExecFns::append(&mut text, ")");
    assert(text@ =~= framed(inner@));
    text
}

} // verus!

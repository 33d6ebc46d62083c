//! The tracking copy: one execution's view of the global state.
//!
//! A tracking copy reads through to an engine, remembers what it read, and keeps the
//! effects of the execution in a log, in the order in which they were made. Nothing
//! it records reaches the engine: the log is handed out by [`TrackingCopy::effects`]
//! for whoever decides to commit, and dropped with the copy otherwise.
use crate::error::Error;
use crate::gs::{lookup, replay, DbReader};
use crate::key::Key;
use crate::key_map::KeyMap;
use crate::transform::{Transform, TransformView};
use crate::value::{outcome_view, Value, ValueView};
use vstd::prelude::*;

verus! {

/// What one pending transform makes of the value observed so far: a `Write` stands
/// for itself, whatever was there; an accumulation builds on a value and leaves a
/// failure as it is.
pub open spec fn overlay_step(current: Result<ValueView, Error>, t: TransformView) -> Result<
    ValueView,
    Error,
> {
    match t {
        TransformView::Write(v) => Ok(v),
        _ => match current {
            Ok(v) => t.merge(v),
            Err(e) => Err(e),
        },
    }
}

/// What a read of `k` observes: the pending effects on `k`, in log order, laid over
/// what the engine gave.
pub open spec fn observe(
    k: Key,
    base: Result<ValueView, Error>,
    log: Seq<(Key, TransformView)>,
) -> Result<ValueView, Error>
    decreases log.len(),
{
    if log.len() == 0 {
        base
    } else {
        let before = observe(k, base, log.drop_last());
        if log.last().0 == k {
            overlay_step(before, log.last().1)
        } else {
            before
        }
    }
}

/// The log holds a `Write` to `k`.
pub open spec fn has_pending_write(k: Key, log: Seq<(Key, TransformView)>) -> bool {
    exists|i: int| 0 <= i < log.len() && (#[trigger] log[i]).0 == k && log[i].1 is Write
}

/// A log as the effects it stands for.
pub open spec fn log_view(log: Seq<(Key, Transform)>) -> Seq<(Key, TransformView)> {
    log.map_values(|e: (Key, Transform)| (e.0, e.1@))
}

/// The values that a cache stands for.
pub open spec fn cache_view(cache: Map<Key, Value>) -> Map<Key, ValueView> {
    Map::new(|k: Key| cache.dom().contains(k), |k: Key| cache[k]@)
}

/// **Own writes shadow the engine.** Once a `Write` to the key is pending, what the
/// engine holds under the key no longer matters to a read.
pub proof fn lemma_pending_write_shadows(
    k: Key,
    log: Seq<(Key, TransformView)>,
    a: Result<ValueView, Error>,
    b: Result<ValueView, Error>,
)
    requires
        has_pending_write(k, log),
    ensures
        observe(k, a, log) == observe(k, b, log),
    decreases log.len(),
{
    let i = choose|i: int| 0 <= i < log.len() && (#[trigger] log[i]).0 == k && log[i].1 is Write;
    if i < log.len() - 1 {
        assert(log.drop_last()[i] == log[i]);
        lemma_pending_write_shadows(k, log.drop_last(), a, b);
    }
}

/// **Reads see the copy's own writes.** After a `Write` was recorded, a read of its
/// key gives the written value; an accumulation recorded after that is seen merged
/// into it.
pub proof fn lemma_read_your_writes(
    k: Key,
    base: Result<ValueView, Error>,
    log: Seq<(Key, TransformView)>,
    v: ValueView,
    t: TransformView,
)
    ensures
        observe(k, base, log.push((k, TransformView::Write(v)))) == Ok::<ValueView, Error>(v),
        t.is_accumulation() ==> observe(
            k,
            base,
            log.push((k, TransformView::Write(v))).push((k, t)),
        ) == t.merge(v),
{
    let one = log.push((k, TransformView::Write(v)));
    assert(one.drop_last() =~= log);
    assert(one.push((k, t)).drop_last() =~= one);
}

/// **Effects stay with their key.** An effect recorded for one key changes nothing
/// about what is read under another, and a copy with nothing pending reads what the
/// engine gives.
pub proof fn lemma_other_keys_unchanged(
    k: Key,
    base: Result<ValueView, Error>,
    log: Seq<(Key, TransformView)>,
    other: Key,
    t: TransformView,
)
    ensures
        other != k ==> observe(k, base, log.push((other, t))) == observe(k, base, log),
        observe(k, base, Seq::<(Key, TransformView)>::empty()) == base,
{
    assert(log.push((other, t)).drop_last() =~= log);
}

/// **Commit keeps what was read.** If a copy over the state `m` reads a value under
/// a key, then the state that replaying its log leaves holds that value under the
/// key.
pub proof fn lemma_commit_matches_read(
    m: Map<Key, ValueView>,
    log: Seq<(Key, TransformView)>,
    k: Key,
    v: ValueView,
)
    requires
        observe(k, lookup(m, k), log) == Ok::<ValueView, Error>(v),
    ensures
        lookup(replay(m, log), k) == Ok::<ValueView, Error>(v),
    decreases log.len(),
{
    if log.len() > 0 {
        let front = log.drop_last();
        let (key, t) = log.last();
        let before = observe(k, lookup(m, k), front);
        if key == k {
            match t {
                TransformView::Write(_) => {},
                _ => {
                    lemma_commit_matches_read(m, front, k, before->Ok_0);
                },
            }
        } else {
            lemma_commit_matches_read(m, front, k, v);
        }
    }
}

/// Lays the pending effects on `k` over what the engine gave for it.
///
/// `base` is the outcome of reading `k` from the engine (or anything at all, if the
/// log holds a `Write` to `k`); the result is what a read through the copy observes.
pub fn overlay_value(k: &Key, base: Result<Value, Error>, log: &Vec<(Key, Transform)>) -> (r:
    Result<Value, Error>)
    ensures
        outcome_view(r) == observe(*k, outcome_view(base), log_view(log@)),
{
    let ghost start = outcome_view(base);
    let ghost effects = log_view(log@);
    let mut current = base;
    let mut i: usize = 0;
    while i < log.len()
        invariant
            i <= log@.len(),
            effects == log_view(log@),
            outcome_view(current) == observe(*k, start, effects.take(i as int)),
        decreases log@.len() - i,
    {
        proof {
            assert(effects.take(i + 1).drop_last() =~= effects.take(i as int));
            assert(effects.take(i + 1).last() == (log@[i as int].0, log@[i as int].1@));
        }
        if log[i].0.equals(k) {
            let t = log[i].1.clone();
            current =
            match t {
                Transform::Write(v) => Ok(v),
                _ => match current {
                    Ok(v) => t.merge(v),
                    Err(e) => Err(e),
                },
            };
        }
        i += 1;
    }
    assert(effects.take(i as int) =~= effects);
    current
}

/// An engine seen through a cache of what was already read from it.
struct CachedReader<'a, R: DbReader> {
    reader: &'a R,
    cache: KeyMap<Value>,
}

impl<'a, R: DbReader> CachedReader<'a, R> {
    #[verifier::type_invariant]
    spec fn inv(self) -> bool {
        self.reader.contents() matches Some(m) ==> forall|k: Key| #[trigger]
            self.cache@.dom().contains(k) ==> lookup(m, k) == Ok::<ValueView, Error>(
                self.cache@[k]@,
            )
    }

    fn new(reader: &'a R) -> (c: Self)
        ensures
            c.reader == reader,
            cache_view(c.cache@) == Map::<Key, ValueView>::empty(),
    {
        let c = CachedReader { reader, cache: KeyMap::new() };
        assert(cache_view(c.cache@) =~= Map::<Key, ValueView>::empty());
        c
    }

    /// The cached value of the key, or, if there is none, what the engine gives,
    /// which is remembered if it is a value.
    fn get(&mut self, k: &Key) -> (r: Result<Value, Error>)
        ensures
            final(self).reader == old(self).reader,
            old(self).reader.contents() matches Some(m) ==> outcome_view(r) == lookup(m, *k),
            r matches Err(Error::KeyNotFound { key }) ==> key == *k,
            !(r matches Err(Error::MergeTypeError)),
            cache_view(final(self).cache@) == (if cache_view(old(self).cache@).dom().contains(*k) {
                cache_view(old(self).cache@)
            } else {
                match r {
                    Ok(v) => cache_view(old(self).cache@).insert(*k, v@),
                    Err(_) => cache_view(old(self).cache@),
                }
            }),
            cache_view(old(self).cache@).dom().contains(*k) ==> outcome_view(r) == Ok::<
                ValueView,
                Error,
            >(cache_view(old(self).cache@)[*k]),
    {
        proof {
            use_type_invariant(&*self);
        }
        match self.cache.get(k) {
            Some(v) => Ok(v.clone()),
            None => {
                let fetched = self.reader.get(k);
                match &fetched {
                    Ok(v) => {
                        let ghost before = self.cache@;
                        let mut cache: KeyMap<Value> = KeyMap::new();
                        core::mem::swap(&mut self.cache, &mut cache);
                        cache.insert(*k, v.clone());
                        assert(cache_view(cache@) =~= cache_view(before).insert(*k, v@));
                        self.cache = cache;
                    },
                    Err(_) => {},
                }
                fetched
            },
        }
    }
}

/// One execution's view of the global state: reads through to the engine `R`, with
/// the execution's own pending effects laid over what the engine holds.
pub struct TrackingCopy<'a, R: DbReader> {
    source: CachedReader<'a, R>,
    log: Vec<(Key, Transform)>,
}

impl<'a, R: DbReader> TrackingCopy<'a, R> {
    /// The engine that the copy reads from.
    pub closed spec fn reader(&self) -> &R {
        self.source.reader
    }

    /// The values read from the engine so far.
    pub closed spec fn cached(&self) -> Map<Key, ValueView> {
        cache_view(self.source.cache@)
    }

    /// The pending effects, in the order in which they were recorded.
    pub closed spec fn log(&self) -> Seq<(Key, TransformView)> {
        log_view(self.log@)
    }

    /// A tracking copy over `reader`, with nothing read and nothing pending.
    pub fn new(reader: &'a R) -> (copy: Self)
        ensures
            copy.reader() == reader,
            copy.log() == Seq::<(Key, TransformView)>::empty(),
            copy.cached() == Map::<Key, ValueView>::empty(),
    {
        let copy = TrackingCopy { source: CachedReader::new(reader), log: Vec::new() };
        assert(copy.log() =~= Seq::<(Key, TransformView)>::empty());
        copy
    }

    fn pending_write(&self, k: &Key) -> (found: bool)
        ensures
            found == has_pending_write(*k, self.log()),
    {
        let ghost effects = log_view(self.log@);
        let mut i: usize = 0;
        while i < self.log.len()
            invariant
                i <= self.log@.len(),
                effects == log_view(self.log@),
                forall|j: int| 0 <= j < i ==> !((#[trigger] effects[j]).0 == *k && effects[j].1 is Write),
            decreases self.log@.len() - i,
        {
            if self.log[i].0.equals(k) {
                match &self.log[i].1 {
                    Transform::Write(_) => {
                        assert(effects[i as int].0 == *k && effects[i as int].1 is Write);
                        return true;
                    },
                    _ => {},
                }
            }
            i += 1;
        }
        false
    }

    /// Reads the value of a key as this execution sees it.
    ///
    /// If a `Write` to the key is pending, the engine is not asked. Otherwise the
    /// value comes from the cache or, failing that, from the engine, and is
    /// remembered. Either way the pending effects on the key are laid over it, in
    /// log order ([`observe`]). The log and the engine are left as they were.
    pub fn read(&mut self, k: &Key) -> (r: Result<Value, Error>)
        ensures
            final(self).reader() == old(self).reader(),
            final(self).log() == old(self).log(),
            old(self).reader().contents() matches Some(m) ==> outcome_view(r) == observe(
                *k,
                lookup(m, *k),
                old(self).log(),
            ),
            has_pending_write(*k, old(self).log()) ==> final(self).cached() == old(self).cached()
                && outcome_view(r) == observe(
                *k,
                Err(Error::KeyNotFound { key: *k }),
                old(self).log(),
            ),
            !has_pending_write(*k, old(self).log()) && old(self).cached().dom().contains(*k)
                ==> final(self).cached() == old(self).cached() && outcome_view(r) == observe(
                *k,
                Ok(old(self).cached()[*k]),
                old(self).log(),
            ),
            !has_pending_write(*k, old(self).log()) && !old(self).cached().dom().contains(*k)
                ==> exists|fetched: Result<ValueView, Error>|
                {
                    &&& outcome_view(r) == #[trigger] observe(*k, fetched, old(self).log())
                    &&& final(self).cached() == (match fetched {
                        Ok(v) => old(self).cached().insert(*k, v),
                        Err(_) => old(self).cached(),
                    })
                    &&& !(fetched matches Err(Error::MergeTypeError))
                    &&& fetched matches Err(Error::KeyNotFound { key }) ==> key == *k
                },
    {
        if self.pending_write(k) {
            proof {
                if self.reader().contents() is Some {
                    lemma_pending_write_shadows(
                        *k,
                        self.log(),
                        Err(Error::KeyNotFound { key: *k }),
                        lookup(self.reader().contents()->0, *k),
                    );
                }
            }
            overlay_value(k, Err(Error::KeyNotFound { key: *k }), &self.log)
        } else {
            let base = self.source.get(k);
            let r = overlay_value(k, base, &self.log);
            assert(outcome_view(r) == observe(*k, outcome_view(base), old(self).log()));
            r
        }
    }

    /// Records an effect: appends it to the log. The engine is not touched, and
    /// neither is what was read from it.
    pub fn write(&mut self, k: Key, t: Transform)
        ensures
            final(self).log() == old(self).log().push((k, t@)),
            final(self).reader() == old(self).reader(),
            final(self).cached() == old(self).cached(),
    {
        self.log.push((k, t));
        assert(log_view(self.log@) =~= log_view(old(self).log@).push((k, t@)));
    }

    /// The pending effects, in the order in which they were recorded, for commit.
    pub fn effects(&self) -> (out: Vec<(Key, Transform)>)
        ensures
            log_view(out@) == self.log(),
    {
        let mut out: Vec<(Key, Transform)> = Vec::new();
        let mut i: usize = 0;
        while i < self.log.len()
            invariant
                i <= self.log@.len(),
                log_view(out@) == log_view(self.log@).take(i as int),
            decreases self.log@.len() - i,
        {
            let ghost before = out@;
            let entry = (self.log[i].0, self.log[i].1.clone());
            out.push(entry);
            proof {
                let done = log_view(self.log@).take(i as int);
                let next = log_view(self.log@).take(i + 1);
                assert(log_view(before) == done);
                assert(log_view(out@) =~= log_view(before).push((entry.0, entry.1@)));
                assert(next =~= done.push(log_view(self.log@)[i as int]));
            }
            i += 1;
        }
        assert(log_view(self.log@).take(i as int) =~= log_view(self.log@));
        out
    }
}

} // verus!

//! Transactions over an ordered store: each write is a new version of its
//! key, tagged with the writer's identifier, and each transaction reads the
//! versions that were committed when it began, and its own.
use vstd::prelude::*;

use crate::error::{Error, ErrorView, Mismatch, MismatchView};
use crate::storage::engine::{
    is_scan, kept, lemma_scan_filter, lemma_scan_is, pairs_of, scan_of, Contents, Engine, Pair,
};
use crate::storage::keycode::{be64, get_u64, lemma_be64_read_back, put_u64};
use crate::storage::order::{compare, starts_with, Order};
use crate::storage::versions::{
    active_key, active_prefix, as_active, as_version, is_tagged, lemma_active_key, lemma_newest,
    lemma_newest_is, lemma_version_key, lemma_version_prefix, logical, next_key, state_of, stored,
    stored_as, version_key, version_prefix, written_by, Snapshot, State,
};

verus! {

// ------------------------------------------------------------------
// Keys and values, written and read
// ------------------------------------------------------------------
/// The key of the counter.
fn key_of_next() -> (raw: Vec<u8>)
    ensures
        raw@ == next_key(),
{
    let mut raw: Vec<u8> = Vec::new();
    raw.push(0u8);
    assert(raw@ =~= next_key());
    raw
}

/// The beginning of the active keys.
fn prefix_of_active() -> (raw: Vec<u8>)
    ensures
        raw@ == active_prefix(),
{
    let mut raw: Vec<u8> = Vec::new();
    raw.push(1u8);
    assert(raw@ =~= active_prefix());
    raw
}

/// The key that marks `version` as active.
fn key_of_active(version: u64) -> (raw: Vec<u8>)
    ensures
        raw@ == active_key(version),
{
    let mut raw = prefix_of_active();
    put_u64(&mut raw, version);
    raw
}

/// The beginning of the version keys of the logical keys that begin with `key`.
fn prefix_of_version(key: &Vec<u8>) -> (raw: Vec<u8>)
    ensures
        raw@ == version_prefix(key@),
{
    let mut raw: Vec<u8> = Vec::new();
    raw.push(2u8);
    let mut i: usize = 0;
    while i < key.len()
        invariant
            i <= key.len(),
            raw@ == seq![2u8] + key@.take(i as int),
        decreases key.len() - i,
    {
        raw.push(key[i]);
        assert(raw@ =~= seq![2u8] + key@.take(i + 1));
        i = i + 1;
    }
    assert(key@.take(key.len() as int) == key@);
    raw
}

/// The key of what `version` wrote to `key`.
fn key_of_version(key: &Vec<u8>, version: u64) -> (raw: Vec<u8>)
    ensures
        raw@ == version_key(key@, version),
{
    let mut raw = prefix_of_version(key);
    put_u64(&mut raw, version);
    raw
}

/// The identifier of an active key.
fn read_active(raw: &Vec<u8>) -> (r: Option<u64>)
    ensures
        r == as_active(raw@),
{
    if raw.len() == 9 && raw[0] == 1 {
        assert(raw@.subrange(1, 9) == raw@.skip(1));
        Some(get_u64(raw, 1))
    } else {
        None
    }
}

/// The logical key and the identifier of a version key.
fn read_version(raw: &Vec<u8>) -> (r: Option<(Vec<u8>, u64)>)
    ensures
        match r {
            Some((key, version)) => as_version(raw@) == Some((key@, version)),
            None => as_version(raw@) is None,
        },
{
    if raw.len() >= 9 && raw[0] == 2 {
        let end = raw.len() - 8;
        assert(raw@.subrange(end as int, end + 8) == raw@.skip(end as int));
        let version = get_u64(raw, end);
        let mut key: Vec<u8> = Vec::new();
        let mut i: usize = 1;
        while i < end
            invariant
                1 <= i <= end <= raw.len(),
                key@ == raw@.subrange(1, i as int),
            decreases end - i,
        {
            key.push(raw[i]);
            assert(key@ =~= raw@.subrange(1, i + 1));
            i = i + 1;
        }
        Some((key, version))
    } else {
        None
    }
}

/// What is stored for a value, or for a deletion.
fn write_stored(value: Option<&Vec<u8>>) -> (raw: Vec<u8>)
    ensures
        raw@ == stored_as(
            match value {
                Some(bytes) => Some(bytes@),
                None => None,
            },
        ),
{
    let mut raw: Vec<u8> = Vec::new();
    match value {
        None => {
            raw.push(0u8);
            assert(raw@ =~= seq![0u8]);
        },
        Some(bytes) => {
            raw.push(1u8);
            let mut i: usize = 0;
            while i < bytes.len()
                invariant
                    i <= bytes.len(),
                    raw@ == seq![1u8] + bytes@.take(i as int),
                decreases bytes.len() - i,
            {
                raw.push(bytes[i]);
                assert(raw@ =~= seq![1u8] + bytes@.take(i + 1));
                i = i + 1;
            }
            assert(bytes@.take(bytes.len() as int) == bytes@);
        },
    }
    raw
}

/// The value that stored bytes stand for, if they stand for one.
fn read_stored(raw: &Vec<u8>) -> (r: Option<Vec<u8>>)
    ensures
        match r {
            Some(bytes) => stored(raw@) == Some(bytes@),
            None => stored(raw@) is None,
        },
{
    if raw.len() > 0 && raw[0] == 1 {
        let mut bytes: Vec<u8> = Vec::new();
        let mut i: usize = 1;
        while i < raw.len()
            invariant
                1 <= i <= raw.len(),
                bytes@ == raw@.subrange(1, i as int),
            decreases raw.len() - i,
        {
            bytes.push(raw[i]);
            assert(bytes@ =~= raw@.subrange(1, i + 1));
            i = i + 1;
        }
        assert(raw@.subrange(1, raw.len() as int) == raw@.skip(1));
        Some(bytes)
    } else {
        None
    }
}

// ------------------------------------------------------------------
// Transactions
// ------------------------------------------------------------------
/// A transaction: its identifier, and the identifiers that were active when
/// it began.
pub struct MvccTransaction {
    version: u64,
    excluded: Vec<u64>,
}

impl View for MvccTransaction {
    type V = Snapshot;

    closed spec fn view(&self) -> Snapshot {
        Snapshot { version: self.version, excluded: self.excluded@.to_set() }
    }
}

impl MvccTransaction {
    /// The transaction's identifier.
    pub fn version(&self) -> (v: u64)
        ensures
            v == self@.version,
    {
        self.version
    }

    /// Whether the transaction sees what `version` wrote.
    pub fn sees(&self, version: u64) -> (b: bool)
        ensures
            b == self@.sees(version),
    {
        if version > self.version {
            return false;
        }
        let mut i: usize = 0;
        while i < self.excluded.len()
            invariant
                i <= self.excluded.len(),
                forall|j: int| 0 <= j < i ==> self.excluded@[j] != version,
            decreases self.excluded.len() - i,
        {
            if self.excluded[i] == version {
                assert(self.excluded@.contains(version));
                return false;
            }
            i = i + 1;
        }
        true
    }
}

/// The keys among the first `n` of `pairs` that `version` wrote.
pub open spec fn taken(pairs: Seq<Pair>, version: u64, n: int) -> Set<Seq<u8>> {
    Set::new(
        |k: Seq<u8>| exists|j: int| 0 <= j < n && (#[trigger] pairs[j]).0 == k && written_by(k, version),
    )
}

/// The transaction layer over a store.
pub struct Mvcc<E: Engine> {
    engine: E,
}

impl<E: Engine> View for Mvcc<E> {
    type V = State;

    closed spec fn view(&self) -> State {
        state_of(self.engine.contents())
    }
}

/// A store that holds nothing stands for a state in which nothing is in
/// use.
pub proof fn lemma_empty_state()
    ensures
        state_of(Contents::empty()).wf(),
        state_of(Contents::empty()).next == 1,
        state_of(Contents::empty()).active == Set::<u64>::empty(),
        state_of(Contents::empty()).store == Contents::empty(),
{
    let s = state_of(Contents::empty());
    assert(s.active =~= Set::<u64>::empty());
    assert(s.store =~= Contents::empty());
}

impl<E: Engine> Mvcc<E> {
    /// Whether the store is in order.
    pub closed spec fn sane(&self) -> bool {
        self.engine.wf()
    }

    /// The transaction layer over `engine`.
    pub fn new(engine: E) -> (mvcc: Mvcc<E>)
        requires
            engine.wf(),
        ensures
            mvcc.sane(),
            mvcc@ == state_of(engine.contents()),
    {
        Mvcc { engine }
    }

    /// The versions of the logical keys that begin alike can be read in
    /// order.
    pub proof fn lemma_scannable(&self, prefix: Seq<u8>)
        requires
            self.sane(),
        ensures
            self@.scannable(prefix),
    {
        let c = self.engine.contents();
        let vp = version_prefix(prefix);
        self.engine.lemma_scannable(vp);
        let pairs = scan_of(c, vp);
        assert(is_scan(pairs, self@.store, vp)) by {
            assert forall|i: int| 0 <= i < pairs.len() implies self@.store.contains_key(
                (#[trigger] pairs[i]).0,
            ) by {
                assert(vp.is_prefix_of(pairs[i].0));
                assert(pairs[i].0[0] == vp[0]);
            }
        }
        lemma_scan_is(pairs, self@.store, vp);
    }

    /// Begins a transaction: it gets the next identifier, and remembers the
    /// transactions that are active. Fails where no identifier is left.
    pub fn begin(&mut self) -> (r: Result<MvccTransaction, Error>)
        requires
            old(self).sane(),
            old(self)@.wf(),
        ensures
            final(self).sane(),
            match r {
                Ok(txn) => {
                    &&& old(self)@.next < u64::MAX
                    &&& (final(self)@, txn@) == old(self)@.begin()
                },
                Err(e) => {
                    &&& old(self)@.next == u64::MAX
                    &&& e@ == ErrorView::Internal(MismatchView::Exhausted)
                    &&& final(self)@ == old(self)@
                },
            },
    {
        let ghost c0 = self.engine.contents();
        let ghost s0 = state_of(c0);
        let next = match self.engine.get(&key_of_next()) {
            Some(bytes) => {
                if bytes.len() == 8 {
                    assert(bytes@.subrange(0, 8) == bytes@);
                    get_u64(&bytes, 0)
                } else {
                    1
                }
            },
            None => 1,
        };
        assert(next == s0.next);
        if next == u64::MAX {
            return Err(Error::Internal(Mismatch::Exhausted));
        }
        let raw = self.engine.scan_prefix(&prefix_of_active());
        let ghost pairs = pairs_of(raw@);
        let mut excluded: Vec<u64> = Vec::new();
        let mut i: usize = 0;
        while i < raw.len()
            invariant
                i <= raw.len(),
                pairs == pairs_of(raw@),
                forall|v: u64|
                    excluded@.contains(v) <==> exists|j: int|
                        0 <= j < i && as_active((#[trigger] pairs[j]).0) == Some(v),
            decreases raw.len() - i,
        {
            let ghost before = excluded@;
            assert(pairs[i as int] == (raw@[i as int].0@, raw@[i as int].1@));
            match read_active(&raw[i].0) {
                Some(v) => {
                    excluded.push(v);
                    assert forall|w: u64| excluded@.contains(w) <==> exists|j: int|
                        0 <= j < i + 1 && as_active((#[trigger] pairs[j]).0) == Some(w) by {
                        if excluded@.contains(w) {
                            let n = choose|n: int| 0 <= n < excluded@.len() && excluded@[n] == w;
                            if n < before.len() {
                                assert(before[n] == w);
                                assert(before.contains(w));
                            } else {
                                assert(as_active(pairs[i as int].0) == Some(w));
                            }
                        }
                        if exists|j: int|
                            0 <= j < i + 1 && as_active((#[trigger] pairs[j]).0) == Some(w) {
                            let j = choose|j: int|
                                0 <= j < i + 1 && as_active((#[trigger] pairs[j]).0) == Some(w);
                            if j < i {
                                assert(before.contains(w));
                                let n = choose|n: int| 0 <= n < before.len() && before[n] == w;
                                assert(excluded@[n] == w);
                            } else {
                                assert(excluded@[before.len() as int] == w);
                            }
                        }
                    }
                },
                None => {},
            }
            i = i + 1;
        }
        proof {
            assert forall|v: u64| excluded@.to_set().contains(v) == s0.active.contains(v) by {
                lemma_active_key(v, active_key(v));
                if s0.active.contains(v) {
                    assert(active_prefix().is_prefix_of(active_key(v))) by {
                        assert(active_key(v).subrange(0, 1) =~= active_prefix());
                    }
                    assert(c0.contains_key(active_key(v)) && active_prefix().is_prefix_of(
                        active_key(v),
                    ));
                    let j = choose|j: int|
                        0 <= j < pairs.len() && (#[trigger] pairs[j]).0 == active_key(v);
                    assert(as_active(pairs[j].0) == Some(v));
                }
                if excluded@.contains(v) {
                    let j = choose|j: int|
                        0 <= j < raw.len() && as_active((#[trigger] pairs[j]).0) == Some(v);
                    lemma_active_key(v, pairs[j].0);
                    assert(c0.contains_key(pairs[j].0));
                }
            }
            assert(excluded@.to_set() =~= s0.active);
        }
        let mut counter: Vec<u8> = Vec::new();
        put_u64(&mut counter, next + 1);
        assert(counter@ =~= be64((next + 1) as u64));
        self.engine.set(key_of_next(), counter);
        self.engine.set(key_of_active(next), Vec::new());
        proof {
            let c2 = self.engine.contents();
            let s2 = state_of(c2);
            lemma_active_key(next, next_key());
            lemma_be64_read_back((next + 1) as u64);
            assert(s2.next == next + 1);
            assert forall|v: u64| s2.active.contains(v) == s0.active.insert(next).contains(v) by {
                lemma_active_key(v, active_key(next));
                lemma_active_key(next, active_key(v));
            }
            assert(s2.active =~= s0.active.insert(next));
            assert(s2.store =~= s0.store);
        }
        Ok(MvccTransaction { version: next, excluded })
    }

    /// Commits a transaction: what it wrote is there for those that begin
    /// from now on.
    pub fn commit(&mut self, txn: MvccTransaction)
        requires
            old(self).sane(),
        ensures
            final(self).sane(),
            final(self)@ == old(self)@.commit(txn@),
    {
        let ghost c0 = self.engine.contents();
        let ghost s0 = state_of(c0);
        self.engine.delete(&key_of_active(txn.version));
        proof {
            let s1 = state_of(self.engine.contents());
            lemma_active_key(txn.version, next_key());
            assert forall|v: u64| s1.active.contains(v) == s0.active.remove(txn.version).contains(
                v,
            ) by {
                lemma_active_key(v, active_key(txn.version));
                lemma_active_key(txn.version, active_key(v));
            }
            assert(s1.active =~= s0.active.remove(txn.version));
            assert(s1.store =~= s0.store);
        }
    }

    /// Rolls a transaction back: what it wrote is taken out of the store.
    pub fn rollback(&mut self, txn: MvccTransaction)
        requires
            old(self).sane(),
        ensures
            final(self).sane(),
            final(self)@ == old(self)@.rollback(txn@),
    {
        let ghost c0 = self.engine.contents();
        let ghost s0 = state_of(c0);
        let ghost mine = txn.version;
        let mut all: Vec<u8> = Vec::new();
        all.push(2u8);
        let raw = self.engine.scan_prefix(&all);
        let ghost pairs = pairs_of(raw@);
        let mut i: usize = 0;
        assert(c0.remove_keys(taken(pairs, mine, 0)) =~= c0);
        while i < raw.len()
            invariant
                i <= raw.len(),
                pairs == pairs_of(raw@),
                mine == txn.version,
                self.engine.wf(),
                self.engine.contents() == c0.remove_keys(taken(pairs, mine, i as int)),
            decreases raw.len() - i,
        {
            let ghost before = self.engine.contents();
            assert(pairs[i as int] == (raw@[i as int].0@, raw@[i as int].1@));
            let mut hit = false;
            match read_version(&raw[i].0) {
                Some((_, version)) => {
                    if version == txn.version {
                        hit = true;
                        self.engine.delete(&raw[i].0);
                    }
                },
                None => {},
            }
            proof {
                let k = pairs[i as int].0;
                assert(hit == written_by(k, mine));
                if hit {
                    assert(taken(pairs, mine, i + 1) =~= taken(pairs, mine, i as int).insert(k));
                    assert(before.remove(k) =~= c0.remove_keys(taken(pairs, mine, i + 1)));
                } else {
                    assert(taken(pairs, mine, i + 1) =~= taken(pairs, mine, i as int));
                }
            }
            i = i + 1;
        }
        let ghost c_mid = self.engine.contents();
        self.engine.delete(&key_of_active(txn.version));
        proof {
            let c1 = self.engine.contents();
            let s1 = state_of(c1);
            let want = s0.rollback(txn@);
            lemma_active_key(mine, next_key());
            assert forall|v: u64| s1.active.contains(v) == want.active.contains(v) by {
                lemma_active_key(v, active_key(mine));
                lemma_active_key(mine, active_key(v));
                assert(!written_by(active_key(v), mine));
            }
            assert(s1.active =~= want.active);
            assert(!written_by(next_key(), mine));
            assert forall|k: Seq<u8>| s1.store.contains_key(k) == want.store.contains_key(k) by {
                if c0.contains_key(k) && is_tagged(k) && written_by(k, mine) {
                    assert(all@.is_prefix_of(k)) by {
                        assert(k.subrange(0, 1) =~= all@);
                    }
                    assert(c0.contains_key(k) && all@.is_prefix_of(k));
                    let j = choose|j: int| 0 <= j < pairs.len() && (#[trigger] pairs[j]).0 == k;
                    assert(pairs[j].0 == k && written_by(k, mine));
                    assert(taken(pairs, mine, raw.len() as int).contains(k));
                }
            }
            assert(s1.store =~= want.store);
        }
    }

    /// Writes `value` under `key`, or deletes `key` where `value` is
    /// `None`. Fails where another transaction wrote to `key` and `txn` does
    /// not see it.
    pub fn write(&mut self, txn: &MvccTransaction, key: &Vec<u8>, value: Option<&Vec<u8>>) -> (r:
        Result<(), Error>)
        requires
            old(self).sane(),
        ensures
            final(self).sane(),
            match r {
                Ok(()) => {
                    &&& !old(self)@.conflicts(txn@, key@)
                    &&& final(self)@ == old(self)@.write(
                        txn@,
                        key@,
                        match value {
                            Some(bytes) => Some(bytes@),
                            None => None,
                        },
                    )
                },
                Err(e) => {
                    &&& old(self)@.conflicts(txn@, key@)
                    &&& e@ == ErrorView::Conflict
                    &&& final(self)@ == old(self)@
                },
            },
    {
        let ghost c0 = self.engine.contents();
        let ghost s0 = state_of(c0);
        let ghost t = txn@;
        let prefix = prefix_of_version(key);
        let raw = self.engine.scan_prefix(&prefix);
        let ghost pairs = pairs_of(raw@);
        let mut i: usize = 0;
        while i < raw.len()
            invariant
                i <= raw.len(),
                pairs == pairs_of(raw@),
                t == txn@,
                self.engine.wf(),
                c0 == self.engine.contents(),
                s0 == state_of(c0),
                is_scan(pairs, c0, version_prefix(key@)),
                forall|j: int, v: u64|
                    0 <= j < i && as_version((#[trigger] pairs[j]).0) == Some((key@, v))
                        ==> #[trigger] t.sees(v),
            decreases raw.len() - i,
        {
            assert(pairs[i as int] == (raw@[i as int].0@, raw@[i as int].1@));
            match read_version(&raw[i].0) {
                Some((k, v)) => {
                    if compare(&k, key) == Order::Equal && !txn.sees(v) {
                        proof {
                            lemma_version_key(key@, v, pairs[i as int].0);
                            assert(s0.has(key@, v));
                        }
                        return Err(Error::Conflict);
                    }
                },
                None => {},
            }
            i = i + 1;
        }
        proof {
            assert forall|v: u64| #[trigger] s0.has(key@, v) implies t.sees(v) by {
                let vk = version_key(key@, v);
                lemma_version_key(key@, v, vk);
                lemma_version_prefix(key@, key@, v);
                assert(c0.contains_key(vk) && version_prefix(key@).is_prefix_of(vk));
                let j = choose|j: int| 0 <= j < pairs.len() && (#[trigger] pairs[j]).0 == vk;
                assert(as_version(pairs[j].0) == Some((key@, v)));
            }
        }
        let stored = write_stored(value);
        let vk = key_of_version(key, txn.version);
        self.engine.set(vk, stored);
        proof {
            let s1 = state_of(self.engine.contents());
            let rk = version_key(key@, txn.version);
            lemma_version_key(key@, txn.version, rk);
            assert forall|v: u64| s1.active.contains(v) == s0.active.contains(v) by {
                lemma_active_key(v, rk);
            }
            assert(s1.active =~= s0.active);
            assert(s1.store =~= s0.store.insert(rk, stored@));
        }
        Ok(())
    }

    /// Writes `value` under `key`.
    pub fn set(&mut self, txn: &MvccTransaction, key: &Vec<u8>, value: &Vec<u8>) -> (r: Result<
        (),
        Error,
    >)
        requires
            old(self).sane(),
        ensures
            final(self).sane(),
            match r {
                Ok(()) => {
                    &&& !old(self)@.conflicts(txn@, key@)
                    &&& final(self)@ == old(self)@.write(txn@, key@, Some(value@))
                },
                Err(e) => {
                    &&& old(self)@.conflicts(txn@, key@)
                    &&& e@ == ErrorView::Conflict
                    &&& final(self)@ == old(self)@
                },
            },
    {
        self.write(txn, key, Some(value))
    }

    /// Deletes `key`.
    pub fn delete(&mut self, txn: &MvccTransaction, key: &Vec<u8>) -> (r: Result<(), Error>)
        requires
            old(self).sane(),
        ensures
            final(self).sane(),
            match r {
                Ok(()) => {
                    &&& !old(self)@.conflicts(txn@, key@)
                    &&& final(self)@ == old(self)@.write(txn@, key@, None)
                },
                Err(e) => {
                    &&& old(self)@.conflicts(txn@, key@)
                    &&& e@ == ErrorView::Conflict
                    &&& final(self)@ == old(self)@
                },
            },
    {
        self.write(txn, key, None)
    }

    /// The value of `key` that `txn` sees, if it sees one.
    pub fn get(&self, txn: &MvccTransaction, key: &Vec<u8>) -> (r: Option<Vec<u8>>)
        requires
            self.sane(),
        ensures
            match r {
                Some(value) => self@.read(txn@, key@) == Some(value@),
                None => self@.read(txn@, key@) is None,
            },
    {
        let ghost c0 = self.engine.contents();
        let ghost s0 = state_of(c0);
        let ghost t = txn@;
        let prefix = prefix_of_version(key);
        let raw = self.engine.scan_prefix(&prefix);
        let ghost pairs = pairs_of(raw@);
        let mut best: Option<(u64, usize)> = None;
        let mut i: usize = 0;
        while i < raw.len()
            invariant
                i <= raw.len(),
                pairs == pairs_of(raw@),
                t == txn@,
                match best {
                    Some((v, n)) => n < i && as_version(pairs[n as int].0) == Some((key@, v))
                        && t.sees(v),
                    None => true,
                },
                forall|j: int, w: u64|
                    0 <= j < i && as_version((#[trigger] pairs[j]).0) == Some((key@, w))
                        && #[trigger] t.sees(w) ==> best is Some && w <= best->Some_0.0,
            decreases raw.len() - i,
        {
            assert(pairs[i as int] == (raw@[i as int].0@, raw@[i as int].1@));
            match read_version(&raw[i].0) {
                Some((k, v)) => {
                    if compare(&k, key) == Order::Equal && txn.sees(v) {
                        let better = match best {
                            Some((b, _)) => v > b,
                            None => true,
                        };
                        if better {
                            best = Some((v, i));
                        }
                    }
                },
                None => {},
            }
            i = i + 1;
        }
        proof {
            assert forall|w: u64| #[trigger] s0.has(key@, w) && t.sees(w) implies best is Some && w
                <= best->Some_0.0 by {
                let vk = version_key(key@, w);
                lemma_version_key(key@, w, vk);
                lemma_version_prefix(key@, key@, w);
                assert(c0.contains_key(vk) && version_prefix(key@).is_prefix_of(vk));
                let j = choose|j: int| 0 <= j < pairs.len() && (#[trigger] pairs[j]).0 == vk;
                assert(as_version(pairs[j].0) == Some((key@, w)));
            }
            lemma_newest(s0, t, key@);
        }
        match best {
            Some((v, n)) => {
                proof {
                    lemma_version_key(key@, v, pairs[n as int].0);
                    assert(s0.has(key@, v));
                    lemma_newest_is(s0, t, key@, v);
                }
                read_stored(&raw[n].1)
            },
            None => None,
        }
    }

    /// Whether `version` is the newest version of `key` among `raw` that
    /// `txn` sees.
    fn newest_among(
        txn: &MvccTransaction,
        raw: &Vec<(Vec<u8>, Vec<u8>)>,
        key: &Vec<u8>,
        version: u64,
    ) -> (b: bool)
        ensures
            b == (forall|j: int, w: u64|
                0 <= j < raw.len() && as_version((#[trigger] pairs_of(raw@)[j]).0) == Some(
                    (key@, w),
                ) && #[trigger] txn@.sees(w) ==> w <= version),
    {
        let ghost pairs = pairs_of(raw@);
        let mut i: usize = 0;
        while i < raw.len()
            invariant
                i <= raw.len(),
                pairs == pairs_of(raw@),
                forall|j: int, w: u64|
                    0 <= j < i && as_version((#[trigger] pairs[j]).0) == Some((key@, w))
                        && #[trigger] txn@.sees(w) ==> w <= version,
            decreases raw.len() - i,
        {
            assert(pairs[i as int] == (raw@[i as int].0@, raw@[i as int].1@));
            match read_version(&raw[i].0) {
                Some((k, w)) => {
                    if w > version && compare(&k, key) == Order::Equal && txn.sees(w) {
                        assert(as_version(pairs[i as int].0) == Some((key@, w)) && txn@.sees(w));
                        return false;
                    }
                },
                None => {},
            }
            i = i + 1;
        }
        true
    }

    /// The logical keys that begin with `prefix` and have a value that `txn`
    /// sees, each with that value, in the order of their version keys.
    pub fn scan_prefix(&self, txn: &MvccTransaction, prefix: &Vec<u8>) -> (r: Vec<
        (Vec<u8>, Vec<u8>),
    >)
        requires
            self.sane(),
        ensures
            pairs_of(r@) == self@.scan(txn@, prefix@),
    {
        let ghost c0 = self.engine.contents();
        let ghost s0 = state_of(c0);
        let ghost t = txn@;
        let ghost vp = version_prefix(prefix@);
        let raw = self.engine.scan_prefix(&prefix_of_version(prefix));
        let ghost pairs = pairs_of(raw@);
        let ghost keep = |p: Pair| s0.shows(t, prefix@, p.0);
        proof {
            assert(is_scan(pairs, s0.store, vp)) by {
                assert forall|i: int| 0 <= i < pairs.len() implies s0.store.contains_key(
                    (#[trigger] pairs[i]).0,
                ) by {
                    assert(vp.is_prefix_of(pairs[i].0));
                    assert(pairs[i].0[0] == vp[0]);
                }
            }
            lemma_scan_filter(pairs, s0.store, vp, keep);
            assert(kept(s0.store, keep) =~= s0.shown(t, prefix@));
        }
        let mut out: Vec<(Vec<u8>, Vec<u8>)> = Vec::new();
        let mut i: usize = 0;
        assert(pairs.take(0).filter(keep) =~= Seq::<Pair>::empty()) by {
            reveal(Seq::filter);
        }
        while i < raw.len()
            invariant
                i <= raw.len(),
                pairs == pairs_of(raw@),
                t == txn@,
                c0 == self.engine.contents(),
                s0 == state_of(c0),
                vp == version_prefix(prefix@),
                keep == (|p: Pair| s0.shows(t, prefix@, p.0)),
                is_scan(pairs, s0.store, vp),
                pairs_of(out@) == pairs.take(i as int).filter(keep).map_values(
                    |p: Pair| logical(p),
                ),
            decreases raw.len() - i,
        {
            let ghost done = pairs_of(out@);
            let ghost p = pairs[i as int];
            assert(p == (raw@[i as int].0@, raw@[i as int].1@));
            let mut shown = false;
            match read_version(&raw[i].0) {
                Some((k, v)) => {
                    if starts_with(&k, prefix) && txn.sees(v) && Self::newest_among(
                        txn,
                        &raw,
                        &k,
                        v,
                    ) {
                        proof {
                            lemma_version_key(k@, v, p.0);
                            assert(s0.has(k@, v));
                            assert forall|w: u64| #[trigger] s0.has(k@, w) && t.sees(w) implies w
                                <= v by {
                                let vk = version_key(k@, w);
                                lemma_version_key(k@, w, vk);
                                lemma_version_prefix(prefix@, k@, w);
                                assert(s0.store.contains_key(vk) && vp.is_prefix_of(vk));
                                let j = choose|j: int|
                                    0 <= j < pairs.len() && (#[trigger] pairs[j]).0 == vk;
                                assert(as_version(pairs[j].0) == Some((k@, w)));
                            }
                            lemma_newest_is(s0, t, k@, v);
                        }
                        match read_stored(&raw[i].1) {
                            Some(value) => {
                                shown = true;
                                out.push((k, value));
                                assert(pairs_of(out@) == done.push(logical(p)));
                            },
                            None => {},
                        }
                    } else {
                        proof {
                            lemma_newest(s0, t, k@);
                            if s0.newest(t, k@) == Some(v) {
                                assert(s0.is_newest(t, k@, v));
                                assert forall|j: int, w: u64|
                                    0 <= j < raw.len() && as_version((#[trigger] pairs[j]).0)
                                        == Some((k@, w)) && #[trigger] t.sees(w) implies w <= v by {
                                    lemma_version_key(k@, w, pairs[j].0);
                                    assert(s0.has(k@, w));
                                }
                            }
                        }
                    }
                },
                None => {},
            }
            proof {
                reveal(Seq::filter);
                assert(keep(p) == shown);
                assert(pairs.take(i + 1).drop_last() == pairs.take(i as int));
                assert(pairs.take(i + 1).last() == p);
                let f = pairs.take(i as int).filter(keep);
                assert(pairs.take(i + 1).filter(keep) == if shown {
                    f.push(p)
                } else {
                    f
                });
                assert(f.push(p).map_values(|p: Pair| logical(p)) =~= f.map_values(
                    |p: Pair| logical(p),
                ).push(logical(p)));
            }
            i = i + 1;
        }
        assert(pairs.take(raw.len() as int) == pairs);
        out
    }
}

} // verus!

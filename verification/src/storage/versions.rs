//! The model of the transaction layer: what the store holds, read as
//! versions of values, and what each step of a transaction does to it.
//!
//! The store holds three kinds of keys. Under the counter key stands the
//! identifier that the next transaction gets. Under the active key of an
//! identifier stands nothing: the key is there while the transaction is
//! neither committed nor rolled back. Under the version key of a logical key
//! and an identifier stands what the transaction of that identifier wrote to
//! the logical key: a value, or the mark of a deletion.
use vstd::prelude::*;

use crate::storage::engine::{is_scan, scan_of, Contents, Pair};
use crate::storage::keycode::{be64, from_be64, lemma_be64_of_bytes, lemma_be64_read_back};

verus! {

// ------------------------------------------------------------------
// Keys and values
// ------------------------------------------------------------------
/// The key of the counter.
pub open spec fn next_key() -> Seq<u8> {
    seq![0u8]
}

/// The beginning of the active keys.
pub open spec fn active_prefix() -> Seq<u8> {
    seq![1u8]
}

/// The key that marks `version` as active.
pub open spec fn active_key(version: u64) -> Seq<u8> {
    active_prefix() + be64(version)
}

/// The beginning of the version keys of the logical keys that begin with
/// `key`.
pub open spec fn version_prefix(key: Seq<u8>) -> Seq<u8> {
    seq![2u8] + key
}

/// The key of what `version` wrote to `key`.
pub open spec fn version_key(key: Seq<u8>, version: u64) -> Seq<u8> {
    version_prefix(key) + be64(version)
}

/// Whether `raw` begins as the version keys do.
pub open spec fn is_tagged(raw: Seq<u8>) -> bool {
    raw.len() > 0 && raw[0] == 2
}

/// The identifier of an active key.
pub open spec fn as_active(raw: Seq<u8>) -> Option<u64> {
    if raw.len() == 9 && raw[0] == 1 {
        Some(from_be64(raw.skip(1)))
    } else {
        None
    }
}

/// The logical key and the identifier of a version key.
pub open spec fn as_version(raw: Seq<u8>) -> Option<(Seq<u8>, u64)> {
    if raw.len() >= 9 && raw[0] == 2 {
        Some((raw.subrange(1, raw.len() - 8), from_be64(raw.skip(raw.len() - 8))))
    } else {
        None
    }
}

/// What is stored for a value, or for a deletion.
pub open spec fn stored_as(value: Option<Seq<u8>>) -> Seq<u8> {
    match value {
        Some(bytes) => seq![1u8] + bytes,
        None => seq![0u8],
    }
}

/// The value that stored bytes stand for, if they stand for one.
pub open spec fn stored(raw: Seq<u8>) -> Option<Seq<u8>> {
    if raw.len() > 0 && raw[0] == 1 {
        Some(raw.skip(1))
    } else {
        None
    }
}

/// An active key is read back, and only an active key reads as one.
pub proof fn lemma_active_key(version: u64, raw: Seq<u8>)
    ensures
        as_active(active_key(version)) == Some(version),
        as_version(active_key(version)) is None,
        !is_tagged(active_key(version)),
        active_key(version) != next_key(),
        as_active(raw) == Some(version) ==> raw == active_key(version),
{
    lemma_be64_read_back(version);
    assert(active_key(version).skip(1) =~= be64(version));
    if as_active(raw) == Some(version) {
        lemma_be64_of_bytes(raw.skip(1));
        assert(raw =~= active_key(version));
    }
}

/// A version key is read back, and only a version key reads as one.
pub proof fn lemma_version_key(key: Seq<u8>, version: u64, raw: Seq<u8>)
    ensures
        as_version(version_key(key, version)) == Some((key, version)),
        as_active(version_key(key, version)) is None,
        is_tagged(version_key(key, version)),
        version_key(key, version) != next_key(),
        as_version(raw) == Some((key, version)) ==> raw == version_key(key, version),
{
    lemma_be64_read_back(version);
    let r = version_key(key, version);
    assert(r.len() == key.len() + 9);
    assert(r.skip(r.len() - 8) =~= be64(version));
    assert(r.subrange(1, r.len() - 8) =~= key);
    if as_version(raw) == Some((key, version)) {
        lemma_be64_of_bytes(raw.skip(raw.len() - 8));
        assert(raw =~= version_key(key, version));
    }
}

/// What is stored is read back.
pub proof fn lemma_stored(value: Option<Seq<u8>>)
    ensures
        stored(stored_as(value)) == value,
{
    if let Some(bytes) = value {
        assert(stored_as(value).skip(1) =~= bytes);
    }
}

/// The version keys of the logical keys that begin alike begin alike.
pub proof fn lemma_version_prefix(prefix: Seq<u8>, key: Seq<u8>, version: u64)
    requires
        prefix.is_prefix_of(key),
    ensures
        version_prefix(prefix).is_prefix_of(version_key(key, version)),
{
    let r = version_key(key, version);
    let p = version_prefix(prefix);
    assert(r.subrange(0, p.len() as int) =~= p);
}

// ------------------------------------------------------------------
// Transactions
// ------------------------------------------------------------------
/// What a transaction knows: its identifier, and the identifiers that were
/// active when it began.
pub struct Snapshot {
    pub version: u64,
    pub excluded: Set<u64>,
}

impl Snapshot {
    /// Whether the transaction sees what `version` wrote: what it wrote
    /// itself, and what those before it wrote that were no longer active
    /// when it began.
    pub open spec fn sees(self, version: u64) -> bool {
        version <= self.version && !self.excluded.contains(version)
    }
}

// ------------------------------------------------------------------
// The state
// ------------------------------------------------------------------
/// What the store holds, read as the state of the transaction layer.
pub struct State {
    /// The identifier that the next transaction gets.
    pub next: u64,
    /// The identifiers of the transactions that are active.
    pub active: Set<u64>,
    /// The version keys, each with what is stored under it.
    pub store: Contents,
}

/// The state that the contents of a store stand for.
pub open spec fn state_of(contents: Contents) -> State {
    State {
        next: if contents.contains_key(next_key()) && contents[next_key()].len() == 8 {
            from_be64(contents[next_key()])
        } else {
            1
        },
        active: Set::new(|v: u64| contents.contains_key(active_key(v))),
        store: contents.restrict(Set::new(|raw: Seq<u8>| is_tagged(raw))),
    }
}

impl State {
    /// Whether `version` wrote to `key`.
    pub open spec fn has(self, key: Seq<u8>, version: u64) -> bool {
        self.store.contains_key(version_key(key, version))
    }

    /// Every identifier in use is below the counter.
    pub open spec fn wf(self) -> bool {
        &&& forall|v: u64| self.active.contains(v) ==> v < self.next
        &&& forall|k: Seq<u8>, v: u64| #[trigger] self.has(k, v) ==> v < self.next
        &&& forall|raw: Seq<u8>| #[trigger] self.store.contains_key(raw) ==> is_tagged(raw)
    }

    /// Whether the versions of the logical keys that begin with `prefix`
    /// can be read in order.
    pub open spec fn scannable(self, prefix: Seq<u8>) -> bool {
        is_scan(
            scan_of(self.store, version_prefix(prefix)),
            self.store,
            version_prefix(prefix),
        )
    }

    /// Whether `t` is an active transaction of this state that knows of
    /// every active transaction before it.
    pub open spec fn admits(self, t: Snapshot) -> bool {
        &&& self.wf()
        &&& self.active.contains(t.version)
        &&& forall|v: u64| self.active.contains(v) && v < t.version ==> t.excluded.contains(v)
        &&& forall|v: u64| t.excluded.contains(v) ==> v < t.version
    }

    /// Whether `version` is the newest version of `key` that `t` sees.
    pub open spec fn is_newest(self, t: Snapshot, key: Seq<u8>, version: u64) -> bool {
        &&& self.has(key, version)
        &&& t.sees(version)
        &&& forall|w: u64| #[trigger] self.has(key, w) && t.sees(w) ==> w <= version
    }

    /// The newest version of `key` that `t` sees, if it sees one.
    pub open spec fn newest(self, t: Snapshot, key: Seq<u8>) -> Option<u64> {
        if exists|v: u64| self.is_newest(t, key, v) {
            Some(choose|v: u64| self.is_newest(t, key, v))
        } else {
            None
        }
    }

    /// The value of `key` that `t` sees, if it sees one: that of the newest
    /// version it sees, unless that is a deletion.
    pub open spec fn read(self, t: Snapshot, key: Seq<u8>) -> Option<Seq<u8>> {
        match self.newest(t, key) {
            Some(v) => stored(self.store[version_key(key, v)]),
            None => None,
        }
    }

    /// Whether `raw` is the version key of a value that `t` sees under a
    /// logical key that begins with `prefix`.
    pub open spec fn shows(self, t: Snapshot, prefix: Seq<u8>, raw: Seq<u8>) -> bool {
        match as_version(raw) {
            Some((key, version)) => {
                &&& prefix.is_prefix_of(key)
                &&& self.newest(t, key) == Some(version)
                &&& stored(self.store[raw]) is Some
            },
            None => false,
        }
    }

    /// The version keys of the values that `t` sees under the logical keys
    /// that begin with `prefix`, each with what is stored under it.
    pub open spec fn shown(self, t: Snapshot, prefix: Seq<u8>) -> Contents {
        self.store.restrict(Set::new(|raw: Seq<u8>| self.shows(t, prefix, raw)))
    }

    /// The logical keys that begin with `prefix` and have a value that `t`
    /// sees, each with that value, in the order of their version keys.
    pub open spec fn scan(self, t: Snapshot, prefix: Seq<u8>) -> Seq<Pair> {
        scan_of(self.shown(t, prefix), version_prefix(prefix)).map_values(|p: Pair| logical(p))
    }

    /// Whether a version of `key` stands in the way of a write by `t`: one
    /// that `t` does not see, written by a later transaction or by one that
    /// was active when `t` began.
    pub open spec fn conflicts(self, t: Snapshot, key: Seq<u8>) -> bool {
        exists|v: u64| #[trigger] self.has(key, v) && !t.sees(v)
    }

    /// The state with one more transaction, and what that transaction
    /// knows.
    pub open spec fn begin(self) -> (State, Snapshot)
        recommends
            self.next < u64::MAX,
    {
        (
            State {
                next: (self.next + 1) as u64,
                active: self.active.insert(self.next),
                store: self.store,
            },
            Snapshot { version: self.next, excluded: self.active },
        )
    }

    /// The state after `t` wrote `value` to `key`, or deleted it.
    pub open spec fn write(self, t: Snapshot, key: Seq<u8>, value: Option<Seq<u8>>) -> State {
        State { store: self.store.insert(version_key(key, t.version), stored_as(value)), ..self }
    }

    /// The state after `t` committed.
    pub open spec fn commit(self, t: Snapshot) -> State {
        State { active: self.active.remove(t.version), ..self }
    }

    /// The state after `t` was rolled back: what it wrote is gone.
    pub open spec fn rollback(self, t: Snapshot) -> State {
        State {
            active: self.active.remove(t.version),
            store: self.store.remove_keys(Set::new(|raw: Seq<u8>| written_by(raw, t.version))),
            ..self
        }
    }
}

/// Whether `raw` is the key of a version that `version` wrote.
pub open spec fn written_by(raw: Seq<u8>, version: u64) -> bool {
    match as_version(raw) {
        Some((_, v)) => v == version,
        None => false,
    }
}

/// The logical key and the value of a version key and what is stored under
/// it.
pub open spec fn logical(p: Pair) -> Pair {
    (as_version(p.0).unwrap().0, stored(p.1).unwrap())
}

// ------------------------------------------------------------------
// The newest version
// ------------------------------------------------------------------
/// What `newest` returns is the newest version, and it returns nothing only
/// where the transaction sees no version.
pub proof fn lemma_newest(s: State, t: Snapshot, key: Seq<u8>)
    ensures
        match s.newest(t, key) {
            Some(v) => s.is_newest(t, key, v),
            None => forall|v: u64| !s.is_newest(t, key, v),
        },
{
}

/// The newest version is `newest`.
pub proof fn lemma_newest_is(s: State, t: Snapshot, key: Seq<u8>, version: u64)
    requires
        s.is_newest(t, key, version),
    ensures
        s.newest(t, key) == Some(version),
{
    let v = choose|v: u64| s.is_newest(t, key, v);
    assert(s.has(key, v) && t.sees(v));
    assert(s.has(key, version) && t.sees(version));
}

/// A transaction that sees a version of `key` sees a newest one.
pub proof fn lemma_newest_exists(s: State, t: Snapshot, key: Seq<u8>, version: u64)
    requires
        s.has(key, version),
        t.sees(version),
    ensures
        s.newest(t, key) is Some,
        s.newest(t, key)->Some_0 >= version,
    decreases t.version - version,
{
    if exists|w: u64| #[trigger] s.has(key, w) && t.sees(w) && w > version {
        let w = choose|w: u64| #[trigger] s.has(key, w) && t.sees(w) && w > version;
        lemma_newest_exists(s, t, key, w);
    } else {
        assert(s.is_newest(t, key, version));
        lemma_newest_is(s, t, key, version);
    }
}

/// Where two states hold the same versions of `key` that a transaction
/// sees, it sees the same newest one.
pub proof fn lemma_newest_same(a: State, ta: Snapshot, b: State, tb: Snapshot, key: Seq<u8>)
    requires
        forall|v: u64|
            #![trigger a.has(key, v)]
            #![trigger b.has(key, v)]
            (a.has(key, v) && ta.sees(v)) == (b.has(key, v) && tb.sees(v)),
    ensures
        a.newest(ta, key) == b.newest(tb, key),
{
    match a.newest(ta, key) {
        Some(v) => {
            assert(a.has(key, v) && ta.sees(v));
            assert forall|w: u64| #[trigger] b.has(key, w) && tb.sees(w) implies w <= v by {
                assert(a.has(key, w) && ta.sees(w));
            }
            lemma_newest_is(b, tb, key, v);
        },
        None => {
            if let Some(v) = b.newest(tb, key) {
                assert(b.has(key, v) && tb.sees(v));
                lemma_newest_exists(a, ta, key, v);
            }
        },
    }
}

// ------------------------------------------------------------------
// What a transaction sees, from one state to another
// ------------------------------------------------------------------
/// That `ta` sees in `a` the versions that `tb` sees in `b`, each with what
/// is stored for it.
pub open spec fn same_versions(a: State, ta: Snapshot, b: State, tb: Snapshot) -> bool {
    &&& forall|k: Seq<u8>, v: u64|
        #![trigger a.has(k, v)]
        #![trigger b.has(k, v)]
        (a.has(k, v) && ta.sees(v)) == (b.has(k, v) && tb.sees(v))
    &&& forall|k: Seq<u8>, v: u64|
        #![trigger a.has(k, v)]
        a.has(k, v) && ta.sees(v) ==> a.store[version_key(k, v)] == b.store[version_key(k, v)]
}

/// Transactions that see the same versions read the same.
pub proof fn lemma_same_read(a: State, ta: Snapshot, b: State, tb: Snapshot, key: Seq<u8>)
    requires
        same_versions(a, ta, b, tb),
    ensures
        a.newest(ta, key) == b.newest(tb, key),
        a.read(ta, key) == b.read(tb, key),
{
    lemma_newest_same(a, ta, b, tb, key);
    lemma_newest(a, ta, key);
}

/// Transactions that see the same versions scan the same.
pub proof fn lemma_same_scan(a: State, ta: Snapshot, b: State, tb: Snapshot, prefix: Seq<u8>)
    requires
        same_versions(a, ta, b, tb),
    ensures
        a.shown(ta, prefix) == b.shown(tb, prefix),
        a.scan(ta, prefix) == b.scan(tb, prefix),
{
    let g = a.shown(ta, prefix);
    let h = b.shown(tb, prefix);
    assert forall|raw: Seq<u8>| g.contains_key(raw) == h.contains_key(raw) by {
        if let Some((k, v)) = as_version(raw) {
            lemma_version_key(k, v, raw);
            lemma_same_read(a, ta, b, tb, k);
            lemma_newest(a, ta, k);
            lemma_newest(b, tb, k);
            if g.contains_key(raw) {
                assert(a.has(k, v) && ta.sees(v));
            }
            if h.contains_key(raw) {
                assert(b.has(k, v) && tb.sees(v));
                assert(a.has(k, v) && ta.sees(v));
            }
        }
    }
    assert forall|raw: Seq<u8>| g.contains_key(raw) implies g[raw] == h[raw] by {
        let (k, v) = as_version(raw).unwrap();
        lemma_version_key(k, v, raw);
        lemma_newest(a, ta, k);
        assert(a.has(k, v) && ta.sees(v));
    }
    assert(g =~= h);
}

/// What a write adds: the version of the writer under the key.
pub proof fn lemma_write_has(
    s: State,
    t: Snapshot,
    key: Seq<u8>,
    value: Option<Seq<u8>>,
    k: Seq<u8>,
    v: u64,
)
    ensures
        s.write(t, key, value).has(k, v) == (s.has(k, v) || (k == key && v == t.version)),
        !(k == key && v == t.version) ==> s.write(t, key, value).store[version_key(k, v)]
            == s.store[version_key(k, v)],
        s.write(t, key, value).store[version_key(key, t.version)] == stored_as(value),
{
    lemma_version_key(key, t.version, version_key(k, v));
    lemma_version_key(k, v, version_key(key, t.version));
}

/// A transaction reads what it wrote.
pub proof fn lemma_write_read(s: State, t: Snapshot, key: Seq<u8>, value: Option<Seq<u8>>)
    requires
        s.admits(t),
        !s.conflicts(t, key),
    ensures
        s.write(t, key, value).newest(t, key) == Some(t.version),
        s.write(t, key, value).read(t, key) == value,
{
    let w = s.write(t, key, value);
    lemma_write_has(s, t, key, value, key, t.version);
    assert forall|v: u64| #[trigger] w.has(key, v) && t.sees(v) implies v <= t.version by {}
    assert(t.sees(t.version));
    lemma_newest_is(w, t, key, t.version);
    lemma_stored(value);
}

/// A write to one key changes nothing under the others.
pub proof fn lemma_write_elsewhere(
    s: State,
    t: Snapshot,
    key: Seq<u8>,
    value: Option<Seq<u8>>,
    u: Snapshot,
    k: Seq<u8>,
)
    requires
        k != key,
    ensures
        s.write(t, key, value).newest(u, k) == s.newest(u, k),
        s.write(t, key, value).read(u, k) == s.read(u, k),
{
    let w = s.write(t, key, value);
    assert forall|v: u64|
        #![trigger w.has(k, v)]
        #![trigger s.has(k, v)]
        (w.has(k, v) && u.sees(v)) == (s.has(k, v) && u.sees(v)) by {
        lemma_write_has(s, t, key, value, k, v);
    }
    lemma_newest_same(w, u, s, u, k);
    lemma_newest(s, u, k);
    if let Some(v) = s.newest(u, k) {
        lemma_write_has(s, t, key, value, k, v);
    }
}

/// A write changes nothing for a transaction that does not see the writer.
pub proof fn lemma_write_unseen(
    s: State,
    t: Snapshot,
    key: Seq<u8>,
    value: Option<Seq<u8>>,
    u: Snapshot,
)
    requires
        !u.sees(t.version),
    ensures
        same_versions(s.write(t, key, value), u, s, u),
{
    let w = s.write(t, key, value);
    assert forall|k: Seq<u8>, v: u64|
        #![trigger w.has(k, v)]
        #![trigger s.has(k, v)]
        (w.has(k, v) && u.sees(v)) == (s.has(k, v) && u.sees(v)) by {
        lemma_write_has(s, t, key, value, k, v);
    }
    assert forall|k: Seq<u8>, v: u64|
        #![trigger w.has(k, v)]
        w.has(k, v) && u.sees(v) implies w.store[version_key(k, v)] == s.store[version_key(
        k,
        v,
    )] by {
        lemma_write_has(s, t, key, value, k, v);
    }
}

/// A rollback changes nothing for a transaction that does not see the one
/// that is rolled back.
pub proof fn lemma_rollback_unseen(s: State, t: Snapshot, u: Snapshot)
    requires
        !u.sees(t.version),
    ensures
        same_versions(s.rollback(t), u, s, u),
{
    let r = s.rollback(t);
    assert forall|k: Seq<u8>, v: u64|
        #![trigger r.has(k, v)]
        #![trigger s.has(k, v)]
        (r.has(k, v) && u.sees(v)) == (s.has(k, v) && u.sees(v)) by {
        lemma_version_key(k, v, version_key(k, v));
    }
    assert forall|k: Seq<u8>, v: u64|
        #![trigger r.has(k, v)]
        r.has(k, v) && u.sees(v) implies r.store[version_key(k, v)] == s.store[version_key(
        k,
        v,
    )] by {
        lemma_version_key(k, v, version_key(k, v));
    }
}

/// What is in order stays in order: after a transaction began.
pub proof fn lemma_begin_wf(s: State)
    requires
        s.wf(),
        s.next < u64::MAX,
    ensures
        s.begin().0.wf(),
        s.begin().0.admits(s.begin().1),
        forall|u: Snapshot| s.admits(u) ==> s.begin().0.admits(u) && u.version != s.next,
{
    let b = s.begin().0;
    assert forall|k: Seq<u8>, v: u64| #[trigger] b.has(k, v) implies v < b.next by {
        assert(s.has(k, v));
    }
}

/// What is in order stays in order: after a write of a transaction under
/// way.
pub proof fn lemma_write_wf(s: State, t: Snapshot, key: Seq<u8>, value: Option<Seq<u8>>)
    requires
        s.admits(t),
    ensures
        s.write(t, key, value).wf(),
        forall|u: Snapshot| s.admits(u) ==> s.write(t, key, value).admits(u),
{
    let w = s.write(t, key, value);
    assert forall|k: Seq<u8>, v: u64| #[trigger] w.has(k, v) implies v < w.next by {
        lemma_write_has(s, t, key, value, k, v);
        if s.has(k, v) {
        }
    }
    lemma_version_key(key, t.version, version_key(key, t.version));
}

/// What is in order stays in order: after a commit.
pub proof fn lemma_commit_wf(s: State, t: Snapshot)
    requires
        s.wf(),
    ensures
        s.commit(t).wf(),
        forall|u: Snapshot| s.admits(u) && u.version != t.version ==> s.commit(t).admits(u),
{
    let c = s.commit(t);
    assert forall|k: Seq<u8>, v: u64| #[trigger] c.has(k, v) implies v < c.next by {
        assert(s.has(k, v));
    }
}

/// What is in order stays in order: after a rollback.
pub proof fn lemma_rollback_wf(s: State, t: Snapshot)
    requires
        s.wf(),
    ensures
        s.rollback(t).wf(),
        forall|u: Snapshot| s.admits(u) && u.version != t.version ==> s.rollback(t).admits(u),
        forall|k: Seq<u8>, v: u64|
            #![trigger s.rollback(t).has(k, v)]
            s.rollback(t).has(k, v) == (s.has(k, v) && v != t.version),
{
    let r = s.rollback(t);
    assert forall|k: Seq<u8>, v: u64|
        #![trigger r.has(k, v)]
        r.has(k, v) == (s.has(k, v) && v != t.version) by {
        lemma_version_key(k, v, version_key(k, v));
    }
    assert forall|k: Seq<u8>, v: u64| #[trigger] r.has(k, v) implies v < r.next by {
        assert(s.has(k, v));
    }
}

/// Of two transactions under way, neither sees what the other writes.
pub proof fn lemma_strangers(s: State, t: Snapshot, u: Snapshot)
    requires
        s.admits(t),
        s.admits(u),
        t.version != u.version,
    ensures
        !u.sees(t.version),
        !t.sees(u.version),
{
}

/// The transaction that would begin now.
pub open spec fn newcomer(s: State) -> Snapshot {
    Snapshot { version: s.next, excluded: s.active }
}

/// A transaction that would begin now sees nothing of those under way.
pub proof fn lemma_newcomer(s: State, t: Snapshot)
    requires
        s.admits(t),
    ensures
        !newcomer(s).sees(t.version),
{
}

} // verus!

//! What the transaction layer guarantees, stated over its model: snapshot
//! isolation, the detection of conflicting writes, and rollback.
use vstd::prelude::*;

use crate::storage::versions::{
    lemma_begin_wf, lemma_newest_is, lemma_same_read, lemma_stored, lemma_strangers,
    lemma_version_key, lemma_write_has, lemma_write_read, lemma_write_unseen, lemma_write_wf,
    newcomer, same_versions, version_key, written_by, Snapshot, State,
};

verus! {

/// A transaction gets an identifier that is above every identifier in use,
/// and the next transaction gets the one above it.
pub proof fn identifiers_ascend(s: State)
    requires
        s.wf(),
        s.next < u64::MAX,
    ensures
        s.begin().1.version == s.next,
        s.begin().0.next == s.next + 1,
        forall|v: u64| s.active.contains(v) ==> v < s.begin().1.version,
        forall|k: Seq<u8>, v: u64| #[trigger] s.has(k, v) ==> v < s.begin().1.version,
{
}

/// A transaction sees at most one newest version of a key.
pub proof fn one_version_is_seen(s: State, t: Snapshot, key: Seq<u8>, v: u64, w: u64)
    requires
        s.is_newest(t, key, v),
        s.is_newest(t, key, w),
    ensures
        v == w,
{
    assert(s.has(key, v) && t.sees(v));
    assert(s.has(key, w) && t.sees(w));
}

/// A write of one transaction changes nothing in what another one reads,
/// under whatever key.
pub proof fn writes_are_not_seen(
    s: State,
    writer: Snapshot,
    reader: Snapshot,
    key: Seq<u8>,
    value: Option<Seq<u8>>,
    other: Seq<u8>,
)
    requires
        s.admits(writer),
        s.admits(reader),
        writer.version != reader.version,
    ensures
        s.write(writer, key, value).admits(reader),
        s.write(writer, key, value).read(reader, other) == s.read(reader, other),
{
    lemma_strangers(s, writer, reader);
    lemma_write_unseen(s, writer, key, value, reader);
    lemma_same_read(s.write(writer, key, value), reader, s, reader, other);
    lemma_write_wf(s, writer, key, value);
}

/// A transaction that begins while another one is under way reads what was
/// committed before, also when the other one has committed; a transaction
/// that begins after the commit reads what the other one wrote.
pub proof fn snapshots_are_isolated(s0: State, key: Seq<u8>, value: Seq<u8>)
    requires
        s0.wf(),
        s0.next + 2 < u64::MAX,
        !s0.begin().0.conflicts(s0.begin().1, key),
    ensures
        ({
            let (s1, a) = s0.begin();
            let s2 = s1.write(a, key, Some(value));
            let (s3, b) = s2.begin();
            let s4 = s3.commit(a);
            let (s5, c) = s4.begin();
            &&& s2.read(a, key) == Some(value)
            &&& s3.read(b, key) == s0.read(newcomer(s0), key)
            &&& s4.read(b, key) == s0.read(newcomer(s0), key)
            &&& s5.read(c, key) == Some(value)
        }),
{
    let (s1, a) = s0.begin();
    let s2 = s1.write(a, key, Some(value));
    let (s3, b) = s2.begin();
    let s4 = s3.commit(a);
    let (s5, c) = s4.begin();
    lemma_begin_wf(s0);
    lemma_write_wf(s1, a, key, Some(value));
    lemma_write_read(s1, a, key, Some(value));
    lemma_begin_wf(s2);
    // the second transaction sees the versions that were committed
    assert(same_versions(s3, b, s0, newcomer(s0))) by {
        assert forall|k: Seq<u8>, v: u64|
            #![trigger s3.has(k, v)]
            #![trigger s0.has(k, v)]
            (s3.has(k, v) && b.sees(v)) == (s0.has(k, v) && newcomer(s0).sees(v)) by {
            lemma_write_has(s1, a, key, Some(value), k, v);
            if s0.has(k, v) {
                assert(v < s0.next);
            }
        }
        assert forall|k: Seq<u8>, v: u64|
            #![trigger s3.has(k, v)]
            s3.has(k, v) && b.sees(v) implies s3.store[version_key(k, v)]
            == s0.store[version_key(k, v)] by {
            lemma_write_has(s1, a, key, Some(value), k, v);
        }
    }
    lemma_same_read(s3, b, s0, newcomer(s0), key);
    assert(same_versions(s4, b, s3, b));
    lemma_same_read(s4, b, s3, b, key);
    // the third one sees what the first one wrote, and nothing newer
    lemma_write_has(s1, a, key, Some(value), key, a.version);
    assert(s5.has(key, a.version));
    assert(c.sees(a.version));
    assert forall|v: u64| #[trigger] s5.has(key, v) && c.sees(v) implies v <= a.version by {
        lemma_write_has(s1, a, key, Some(value), key, v);
        if s0.has(key, v) {
            assert(v < s0.next);
        }
    }
    lemma_newest_is(s5, c, key, a.version);
    lemma_stored(Some(value));
}

/// A version of a key that a later transaction wrote, or one that is under
/// way, stands in the way of a write.
pub proof fn unseen_versions_conflict(s: State, t: Snapshot, key: Seq<u8>, version: u64)
    requires
        s.admits(t),
        s.has(key, version),
        version > t.version || (s.active.contains(version) && version != t.version),
    ensures
        s.conflicts(t, key),
{
}

/// Of two transactions under way that write one key, the second fails: when
/// the first has written, and also when the first has committed.
pub proof fn first_writer_wins(
    s: State,
    first: Snapshot,
    second: Snapshot,
    key: Seq<u8>,
    value: Option<Seq<u8>>,
)
    requires
        s.admits(first),
        s.admits(second),
        first.version != second.version,
    ensures
        s.write(first, key, value).conflicts(second, key),
        s.write(first, key, value).commit(first).conflicts(second, key),
{
    let w = s.write(first, key, value);
    lemma_strangers(s, first, second);
    lemma_write_has(s, first, key, value, key, first.version);
    assert(w.has(key, first.version) && !second.sees(first.version));
    assert(w.commit(first).has(key, first.version));
}

/// The state after `t` made the writes `writes`, one after the other.
pub open spec fn write_all(s: State, t: Snapshot, writes: Seq<(Seq<u8>, Option<Seq<u8>>)>)
    -> State
    decreases writes.len(),
{
    if writes.len() == 0 {
        s
    } else {
        write_all(s, t, writes.drop_last()).write(t, writes.last().0, writes.last().1)
    }
}

/// Writes change nothing but the versions of the writer.
pub proof fn lemma_write_all(s: State, t: Snapshot, writes: Seq<(Seq<u8>, Option<Seq<u8>>)>)
    ensures
        write_all(s, t, writes).next == s.next,
        write_all(s, t, writes).active == s.active,
        forall|raw: Seq<u8>|
            !written_by(raw, t.version) ==> write_all(s, t, writes).store.contains_key(raw)
                == s.store.contains_key(raw) && write_all(s, t, writes).store[raw]
                == s.store[raw],
    decreases writes.len(),
{
    if writes.len() > 0 {
        lemma_write_all(s, t, writes.drop_last());
        let (key, value) = writes.last();
        lemma_version_key(key, t.version, version_key(key, t.version));
    }
}

/// A transaction that is rolled back leaves the store as it was when the
/// transaction began, whatever it wrote: but for the counter, the state is
/// the same, and a transaction that begins reads what one would have read
/// before.
pub proof fn rollback_restores(
    s0: State,
    writes: Seq<(Seq<u8>, Option<Seq<u8>>)>,
    key: Seq<u8>,
)
    requires
        s0.wf(),
        s0.next < u64::MAX,
    ensures
        ({
            let (s1, a) = s0.begin();
            let r = write_all(s1, a, writes).rollback(a);
            &&& r.store == s0.store
            &&& r.active == s0.active
            &&& r.next == s0.next + 1
            &&& r.read(newcomer(r), key) == s0.read(newcomer(s0), key)
        }),
{
    let (s1, a) = s0.begin();
    let w = write_all(s1, a, writes);
    let r = w.rollback(a);
    lemma_write_all(s1, a, writes);
    assert forall|raw: Seq<u8>| r.store.contains_key(raw) == s0.store.contains_key(raw) by {
        if written_by(raw, a.version) && s0.store.contains_key(raw) {
            let (k, v) = crate::storage::versions::as_version(raw).unwrap();
            lemma_version_key(k, v, raw);
            assert(s0.has(k, v));
        }
    }
    assert(r.store =~= s0.store);
    assert(r.active =~= s0.active);
    assert(same_versions(r, newcomer(r), s0, newcomer(s0))) by {
        assert forall|k: Seq<u8>, v: u64|
            #![trigger r.has(k, v)]
            #![trigger s0.has(k, v)]
            (r.has(k, v) && newcomer(r).sees(v)) == (s0.has(k, v) && newcomer(s0).sees(v)) by {
            if s0.has(k, v) {
                assert(v < s0.next);
            }
        }
    }
    lemma_same_read(r, newcomer(r), s0, newcomer(s0), key);
}

} // verus!

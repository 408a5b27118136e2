//! Where tables and rows lie in the key space of the transaction layer, and
//! what a transaction therefore sees of them.
//!
//! A table lies under the key of its name. A row lies under the prefix of
//! its table's name, followed by the identifier of the transaction that
//! created it and by a number that this transaction counts up: no two rows
//! have one key, and a scan of the prefix returns the rows in the order in
//! which they were created by transactions that began one after the other.
use vstd::prelude::*;
use vstd::utf8::{encode_utf8, encode_utf8_decode_utf8};

use crate::sql::codec::{
    dec_row, dec_table, enc_row, enc_table, enc_text, lemma_row_read_back, lemma_table_read_back,
    table_fits, values_fit,
};
use crate::sql::engine::Database;
use crate::sql::schema::TableView;
use crate::sql::types::ValueView;
use crate::storage::engine::{
    is_scan, kept, lemma_scan_filter, lemma_scan_is, lemma_scan_push, scan_of, Contents, Pair,
};
use crate::storage::keycode::{be64, lemma_be64_injective, lemma_be64_order, lemma_be64_read_back};
use crate::storage::order::{lemma_less_after_prefix, lemma_less_extend, less};
use crate::storage::versions::{
    as_version, lemma_begin_wf, lemma_commit_wf, lemma_newcomer, lemma_newest, lemma_newest_exists,
    lemma_newest_is,
    lemma_rollback_unseen, lemma_rollback_wf, lemma_same_read, lemma_same_scan, lemma_stored,
    lemma_strangers, lemma_version_key, lemma_write_elsewhere, lemma_write_has, lemma_write_read,
    lemma_write_unseen, lemma_write_wf, logical, newcomer, same_versions, stored_as, state_of,
    version_key, version_prefix, Snapshot, State,
};

verus! {

// ------------------------------------------------------------------
// Keys
// ------------------------------------------------------------------
/// Whether the length of a name can be written.
pub open spec fn name_fits(name: Seq<char>) -> bool {
    encode_utf8(name).len() <= u64::MAX
}

/// The key of the table `name`.
pub open spec fn table_key(name: Seq<char>) -> Seq<u8> {
    seq![1u8] + encode_utf8(name)
}

/// The beginning of the keys of the rows of the table `name`.
pub open spec fn rows_prefix(name: Seq<char>) -> Seq<u8> {
    seq![2u8] + enc_text(name)
}

/// The key of the `count`-th row that the transaction `id` created in the
/// table `name`.
pub open spec fn row_key(name: Seq<char>, id: u64, count: u64) -> Seq<u8> {
    rows_prefix(name) + be64(id) + be64(count)
}

/// Whether `k` begins as the keys of tables do.
pub open spec fn is_table_key(k: Seq<u8>) -> bool {
    k.len() > 0 && k[0] == 1
}

/// Whether `k` is the key of a row that the transaction `id` created.
pub open spec fn is_row_key_of(k: Seq<u8>, id: u64) -> bool {
    exists|name: Seq<char>, count: u64| name_fits(name) && k == #[trigger] row_key(name, id, count)
}

/// Different tables have different keys.
pub proof fn lemma_table_key(a: Seq<char>, b: Seq<char>)
    requires
        table_key(a) == table_key(b),
    ensures
        a == b,
{
    assert(table_key(a).skip(1) =~= encode_utf8(a));
    assert(table_key(b).skip(1) =~= encode_utf8(b));
    encode_utf8_decode_utf8(a);
    encode_utf8_decode_utf8(b);
}

/// The keys of the rows of one table begin with the prefix of no other.
pub proof fn lemma_rows_prefix(a: Seq<char>, b: Seq<char>, rest: Seq<u8>)
    requires
        name_fits(a),
        name_fits(b),
        rows_prefix(a).is_prefix_of(rows_prefix(b) + rest),
    ensures
        a == b,
{
    let pa = rows_prefix(a);
    let pb = rows_prefix(b) + rest;
    let ua = encode_utf8(a);
    let ub = encode_utf8(b);
    lemma_be64_read_back(ua.len() as u64);
    lemma_be64_read_back(ub.len() as u64);
    assert(pa.len() == 9 + ua.len() as int);
    assert(pa =~= pb.subrange(0, pa.len() as int));
    assert(pa.subrange(1, 9) =~= be64(ua.len() as u64));
    assert(pb.subrange(1, 9) =~= be64(ub.len() as u64));
    assert(pa.subrange(1, 9) =~= pb.subrange(0, pa.len() as int).subrange(1, 9));
    assert(pb.subrange(0, pa.len() as int).subrange(1, 9) =~= pb.subrange(1, 9));
    lemma_be64_injective(ua.len() as u64, ub.len() as u64);
    assert(pa.subrange(9, 9 + ua.len() as int) =~= ua);
    assert(pb.subrange(9, 9 + ub.len() as int) =~= ub);
    assert(pa.subrange(9, 9 + ua.len() as int) =~= pb.subrange(0, pa.len() as int).subrange(
        9,
        9 + ua.len() as int,
    ));
    assert(ua == ub);
    encode_utf8_decode_utf8(a);
    encode_utf8_decode_utf8(b);
}

/// The key of a row begins with the prefix of its table, and is the key of
/// no table.
pub proof fn lemma_row_key(name: Seq<char>, id: u64, count: u64)
    ensures
        rows_prefix(name).is_prefix_of(row_key(name, id, count)),
        !is_table_key(row_key(name, id, count)),
        !is_table_key(rows_prefix(name)),
        is_table_key(table_key(name)),
        row_key(name, id, count).len() == rows_prefix(name).len() + 16,
{
    let k = row_key(name, id, count);
    let p = rows_prefix(name);
    assert(k.subrange(0, p.len() as int) =~= p);
}

/// Different rows have different keys.
pub proof fn lemma_row_key_injective(
    a: Seq<char>,
    ia: u64,
    ca: u64,
    b: Seq<char>,
    ib: u64,
    cb: u64,
)
    requires
        name_fits(a),
        name_fits(b),
        row_key(a, ia, ca) == row_key(b, ib, cb),
    ensures
        a == b,
        ia == ib,
        ca == cb,
{
    let ka = row_key(a, ia, ca);
    let kb = row_key(b, ib, cb);
    lemma_row_key(a, ia, ca);
    assert(kb =~= rows_prefix(b) + (be64(ib) + be64(cb)));
    lemma_rows_prefix(a, b, be64(ib) + be64(cb));
    let n = rows_prefix(a).len() as int;
    assert(ka.subrange(n, n + 8) =~= be64(ia));
    assert(kb.subrange(n, n + 8) =~= be64(ib));
    assert(ka.subrange(n + 8, n + 16) =~= be64(ca));
    assert(kb.subrange(n + 8, n + 16) =~= be64(cb));
    lemma_be64_injective(ia, ib);
    lemma_be64_injective(ca, cb);
}

// ------------------------------------------------------------------
// What a transaction sees
// ------------------------------------------------------------------
/// The table `name`, if the transaction sees one.
pub open spec fn table_at(s: State, t: Snapshot, name: Seq<char>) -> Option<TableView> {
    match s.read(t, table_key(name)) {
        Some(bytes) => dec_table(bytes),
        None => None,
    }
}

/// The tables that the transaction sees.
pub open spec fn tables(s: State, t: Snapshot) -> Map<Seq<char>, TableView> {
    Map::new(
        |name: Seq<char>| table_at(s, t, name) is Some,
        |name: Seq<char>| table_at(s, t, name).unwrap(),
    )
}

/// The rows that the values of `pairs` spell, in their order.
pub open spec fn rows_in(pairs: Seq<Pair>) -> Seq<Seq<ValueView>>
    decreases pairs.len(),
{
    if pairs.len() == 0 {
        Seq::empty()
    } else {
        match dec_row(pairs.last().1) {
            Some(row) => rows_in(pairs.drop_last()).push(row),
            None => rows_in(pairs.drop_last()),
        }
    }
}

/// The rows of the table `name` that the transaction sees.
pub open spec fn rows(s: State, t: Snapshot, name: Seq<char>) -> Seq<Seq<ValueView>> {
    rows_in(s.scan(t, rows_prefix(name)))
}

/// What the transaction sees.
pub open spec fn database(s: State, t: Snapshot) -> Database {
    Database {
        tables: tables(s, t),
        rows: Map::new(|name: Seq<char>| name_fits(name), |name: Seq<char>| rows(s, t, name)),
    }
}

// ------------------------------------------------------------------
// What holds of every state that the engine makes
// ------------------------------------------------------------------
/// Every version lies under the key of a table, or under the key of a row
/// that its writer created.
pub open spec fn keyed(s: State) -> bool {
    forall|k: Seq<u8>, v: u64| #[trigger] s.has(k, v) ==> is_table_key(k) || is_row_key_of(k, v)
}

/// The rows that the transaction `id` created are those that it counted.
pub open spec fn counted(s: State, id: u64, count: u64) -> bool {
    forall|name: Seq<char>, c: u64|
        name_fits(name) && #[trigger] s.has(row_key(name, id, c), id) ==> c < count
}

/// Whether stored bytes are those of a table.
pub open spec fn holds_table(raw: Seq<u8>) -> bool {
    exists|table: TableView| table_fits(table) && raw == stored_as(Some(#[trigger] enc_table(table)))
}

/// Every version under the key of a table holds a table.
pub open spec fn tabled(s: State) -> bool {
    forall|k: Seq<u8>, v: u64|
        #![trigger s.has(k, v)]
        s.has(k, v) && is_table_key(k) ==> holds_table(s.store[version_key(k, v)])
}

/// Where the transaction sees no table of a name, it sees no row under the
/// name.
pub open spec fn housed(s: State, t: Snapshot) -> bool {
    forall|name: Seq<char>, raw: Seq<u8>|
        name_fits(name) && table_at(s, t, name) is None ==> !#[trigger] s.shown(
            t,
            rows_prefix(name),
        ).contains_key(raw)
}

/// The state is in order: every identifier in use is below the counter,
/// every version lies under the key of a table or of a row and the tables
/// hold tables, and what is committed holds rows only in tables.
pub open spec fn sound(s: State) -> bool {
    s.wf() && keyed(s) && tabled(s) && housed(s, newcomer(s))
}

/// The transaction `t`, which has counted `count` rows, is under way: it
/// is a transaction of a state in order, and sees rows only in tables.
pub open spec fn under_way(s: State, t: Snapshot, count: u64) -> bool {
    sound(s) && s.admits(t) && counted(s, t.version, count) && housed(s, t)
}

/// No other transaction is, or was since `t` began, under way.
pub open spec fn alone(s: State, t: Snapshot) -> bool {
    &&& s.active == set![t.version]
    &&& t.excluded == Set::<u64>::empty()
    &&& s.next == t.version + 1
}

/// What is committed: what a transaction that begins now sees.
pub open spec fn committed(s: State) -> Database {
    database(s, newcomer(s))
}

// ------------------------------------------------------------------
// Steps
// ------------------------------------------------------------------
/// Transactions that see the same versions see the same tables and rows.
pub proof fn lemma_same_database(a: State, ta: Snapshot, b: State, tb: Snapshot)
    requires
        same_versions(a, ta, b, tb),
    ensures
        database(a, ta) == database(b, tb),
        housed(b, tb) ==> housed(a, ta),
{
    assert forall|name: Seq<char>| table_at(a, ta, name) == table_at(b, tb, name) by {
        lemma_same_read(a, ta, b, tb, table_key(name));
    }
    if housed(b, tb) {
        assert forall|name: Seq<char>, raw: Seq<u8>|
            name_fits(name) && table_at(a, ta, name) is None implies !#[trigger] a.shown(
            ta,
            rows_prefix(name),
        ).contains_key(raw) by {
            lemma_same_scan(a, ta, b, tb, rows_prefix(name));
            assert(table_at(b, tb, name) is None);
            assert(!b.shown(tb, rows_prefix(name)).contains_key(raw));
        }
    }
    assert(tables(a, ta) =~= tables(b, tb));
    assert forall|name: Seq<char>| rows(a, ta, name) == rows(b, tb, name) by {
        lemma_same_scan(a, ta, b, tb, rows_prefix(name));
    }
    assert(database(a, ta).rows =~= database(b, tb).rows);
}

/// A write under a key that does not begin with `prefix` changes nothing in
/// what the writer sees under `prefix`.
pub proof fn lemma_write_aside(
    s: State,
    t: Snapshot,
    key: Seq<u8>,
    value: Option<Seq<u8>>,
    prefix: Seq<u8>,
)
    requires
        !prefix.is_prefix_of(key),
    ensures
        s.write(t, key, value).scan(t, prefix) == s.scan(t, prefix),
{
    let w = s.write(t, key, value);
    let g = w.shown(t, prefix);
    let h = s.shown(t, prefix);
    assert forall|raw: Seq<u8>| g.contains_key(raw) == h.contains_key(raw) by {
        lemma_write_shows(s, t, key, value, prefix, raw);
    }
    assert forall|raw: Seq<u8>| g.contains_key(raw) implies g[raw] == h[raw] by {
        lemma_write_shows(s, t, key, value, prefix, raw);
    }
    assert(g =~= h);
}

/// What a write changes in what the writer sees under `prefix`: nothing but
/// under the key that is written.
pub proof fn lemma_write_shows(
    s: State,
    t: Snapshot,
    key: Seq<u8>,
    value: Option<Seq<u8>>,
    prefix: Seq<u8>,
    raw: Seq<u8>,
)
    requires
        match as_version(raw) {
            Some((k, _)) => k != key || !prefix.is_prefix_of(key),
            None => true,
        },
    ensures
        s.write(t, key, value).shown(t, prefix).contains_key(raw) == s.shown(
            t,
            prefix,
        ).contains_key(raw),
        s.shown(t, prefix).contains_key(raw) ==> s.write(t, key, value).shown(t, prefix)[raw]
            == s.shown(t, prefix)[raw],
{
    let w = s.write(t, key, value);
    match as_version(raw) {
        Some((k, v)) => {
            lemma_version_key(k, v, raw);
            lemma_write_has(s, t, key, value, k, v);
            assert(w.store.contains_key(raw) == w.has(k, v));
            assert(s.store.contains_key(raw) == s.has(k, v));
            if k != key {
                lemma_write_elsewhere(s, t, key, value, t, k);
                assert(w.store[raw] == s.store[raw]);
                assert(w.shows(t, prefix, raw) == s.shows(t, prefix, raw));
            } else {
                assert(!w.shows(t, prefix, raw));
                assert(!s.shows(t, prefix, raw));
            }
        },
        None => {
            assert(!w.shows(t, prefix, raw));
            assert(!s.shows(t, prefix, raw));
        },
    }
}

/// One more pair is one more row, where its value spells one.
pub proof fn lemma_rows_in_push(pairs: Seq<Pair>, p: Pair)
    ensures
        rows_in(pairs.push(p)) == match dec_row(p.1) {
            Some(row) => rows_in(pairs).push(row),
            None => rows_in(pairs),
        },
{
    assert(pairs.push(p).drop_last() =~= pairs);
}

/// Creating a table: the writer sees one more table, and the rows it saw.
pub proof fn lemma_create_table(s: State, t: Snapshot, table: TableView)
    requires
        s.admits(t),
        !s.conflicts(t, table_key(table.name)),
        table_fits(table),
    ensures
        database(s.write(t, table_key(table.name), Some(enc_table(table))), t) == database(
            s,
            t,
        ).with_table(table),
{
    let key = table_key(table.name);
    let w = s.write(t, key, Some(enc_table(table)));
    lemma_write_read(s, t, key, Some(enc_table(table)));
    lemma_table_read_back(table);
    assert forall|name: Seq<char>| table_at(w, t, name) == (if name == table.name {
        Some(table)
    } else {
        table_at(s, t, name)
    }) by {
        if name != table.name {
            if table_key(name) == key {
                lemma_table_key(name, table.name);
            }
            lemma_write_elsewhere(s, t, key, Some(enc_table(table)), t, table_key(name));
        }
    }
    assert(tables(w, t) =~= tables(s, t).insert(table.name, table));
    assert forall|name: Seq<char>| rows(w, t, name) == rows(s, t, name) by {
        let p = rows_prefix(name);
        if p.is_prefix_of(key) {
            assert(key.subrange(0, p.len() as int)[0] == p[0]);
        }
        lemma_write_aside(s, t, key, Some(enc_table(table)), p);
    }
    assert(database(w, t).rows =~= database(s, t).rows);
}

/// Nothing lies under the key of the next row of a transaction.
pub proof fn lemma_row_key_free(s: State, t: Snapshot, name: Seq<char>, count: u64)
    requires
        keyed(s),
        counted(s, t.version, count),
        name_fits(name),
    ensures
        forall|v: u64| !s.has(row_key(name, t.version, count), v),
        !s.conflicts(t, row_key(name, t.version, count)),
{
    let me = t.version;
    let key = row_key(name, me, count);
    lemma_row_key(name, me, count);
    assert forall|v: u64| !s.has(key, v) by {
        if s.has(key, v) {
            assert(is_row_key_of(key, v));
            let (n, c) = choose|n: Seq<char>, c: u64|
                name_fits(n) && key == #[trigger] row_key(n, v, c);
            lemma_row_key_injective(name, me, count, n, v, c);
            assert(s.has(row_key(name, me, count), me));
        }
    }
}

/// The version key of an earlier row comes before that of a later one: of
/// one table, rows of an earlier transaction before rows of a later one,
/// and the rows of one transaction as it counted them.
pub proof fn lemma_row_order(name: Seq<char>, v: u64, c: u64, me: u64, count: u64)
    requires
        v < me || (v == me && c < count),
    ensures
        less(version_key(row_key(name, v, c), v), version_key(row_key(name, me, count), me)),
{
    let p = rows_prefix(name);
    let head = seq![2u8] + p;
    let other = version_key(row_key(name, v, c), v);
    let raw = version_key(row_key(name, me, count), me);
    assert(other =~= head + (be64(v) + (be64(c) + be64(v))));
    assert(raw =~= head + (be64(me) + (be64(count) + be64(me))));
    lemma_be64_read_back(v);
    lemma_be64_read_back(me);
    lemma_be64_read_back(c);
    lemma_be64_read_back(count);
    if v < me {
        lemma_be64_order(v, me);
        lemma_less_extend(be64(v), be64(me), be64(c) + be64(v), be64(count) + be64(me));
    } else {
        lemma_be64_order(c, count);
        lemma_less_extend(be64(c), be64(count), be64(v), be64(me));
        lemma_less_after_prefix(be64(v), be64(c) + be64(v), be64(count) + be64(me));
    }
    lemma_less_after_prefix(
        head,
        be64(v) + (be64(c) + be64(v)),
        be64(me) + (be64(count) + be64(me)),
    );
}

/// What a transaction sees of a table lies before its next row.
pub proof fn lemma_row_last(s: State, t: Snapshot, name: Seq<char>, count: u64, other: Seq<u8>)
    requires
        s.admits(t),
        keyed(s),
        counted(s, t.version, count),
        name_fits(name),
        s.shown(t, rows_prefix(name)).contains_key(other),
    ensures
        less(other, version_key(row_key(name, t.version, count), t.version)),
{
    let me = t.version;
    let p = rows_prefix(name);
    let (k, v) = as_version(other).unwrap();
    lemma_version_key(k, v, other);
    lemma_newest(s, t, k);
    assert(s.has(k, v) && t.sees(v));
    assert(!is_table_key(k)) by {
        assert(k.subrange(0, p.len() as int)[0] == p[0]);
    }
    assert(is_row_key_of(k, v));
    let (n, c) = choose|n: Seq<char>, c: u64| name_fits(n) && k == #[trigger] row_key(n, v, c);
    assert(k =~= rows_prefix(n) + (be64(v) + be64(c)));
    lemma_rows_prefix(name, n, be64(v) + be64(c));
    if v == me {
        assert(s.has(row_key(name, me, c), me));
    }
    lemma_row_order(name, v, c, me, count);
}

/// Creating a row changes nothing in what the writer sees elsewhere.
pub proof fn lemma_row_scan_other(
    s: State,
    t: Snapshot,
    name: Seq<char>,
    count: u64,
    bytes: Seq<u8>,
    other: Seq<u8>,
)
    requires
        keyed(s),
        counted(s, t.version, count),
        name_fits(name),
        other != version_key(row_key(name, t.version, count), t.version),
    ensures
        ({
            let key = row_key(name, t.version, count);
            let w = s.write(t, key, Some(bytes));
            let p = rows_prefix(name);
            &&& w.shown(t, p).contains_key(other) == s.shown(t, p).contains_key(other)
            &&& s.shown(t, p).contains_key(other) ==> w.shown(t, p)[other] == s.shown(
                t,
                p,
            )[other]
        }),
{
    let me = t.version;
    let key = row_key(name, me, count);
    let value = Some(bytes);
    let w = s.write(t, key, value);
    let p = rows_prefix(name);
    lemma_row_key_free(s, t, name, count);
    match as_version(other) {
        Some((k, v)) => {
            lemma_version_key(k, v, other);
            if k == key {
                lemma_write_has(s, t, key, value, k, v);
                assert(!s.has(k, v));
                assert(v != me);
                assert(!w.has(k, v));
                assert(!w.store.contains_key(other));
                assert(!s.store.contains_key(other));
            } else {
                lemma_write_shows(s, t, key, value, p, other);
            }
        },
        None => {
            lemma_write_shows(s, t, key, value, p, other);
        },
    }
}

/// Creating a row: the writer sees one more row in the table, behind the
/// others.
pub proof fn lemma_create_row_scan(
    s: State,
    t: Snapshot,
    name: Seq<char>,
    count: u64,
    bytes: Seq<u8>,
)
    requires
        s.admits(t),
        keyed(s),
        counted(s, t.version, count),
        name_fits(name),
        s.scannable(rows_prefix(name)),
    ensures
        s.write(t, row_key(name, t.version, count), Some(bytes)).scan(t, rows_prefix(name))
            == s.scan(t, rows_prefix(name)).push((row_key(name, t.version, count), bytes)),
{
    let me = t.version;
    let key = row_key(name, me, count);
    let value = Some(bytes);
    let w = s.write(t, key, value);
    let p = rows_prefix(name);
    let vp = version_prefix(p);
    let raw = version_key(key, me);
    let g = s.shown(t, p);
    let h = w.shown(t, p);
    lemma_row_key(name, me, count);
    lemma_row_key_free(s, t, name, count);
    lemma_write_read(s, t, key, value);
    lemma_version_key(key, me, raw);
    lemma_stored(value);
    lemma_write_has(s, t, key, value, key, me);
    assert(h.contains_key(raw) && h[raw] == stored_as(value));
    assert(!g.contains_key(raw)) by {
        assert(!s.has(key, me));
    }
    let gi = g.insert(raw, stored_as(value));
    assert forall|other: Seq<u8>| h.contains_key(other) == gi.contains_key(other) by {
        if other != raw {
            lemma_row_scan_other(s, t, name, count, bytes, other);
        }
    }
    assert forall|other: Seq<u8>| h.contains_key(other) implies h[other] == gi[other] by {
        if other != raw {
            lemma_row_scan_other(s, t, name, count, bytes, other);
        }
    }
    assert(h =~= g.insert(raw, stored_as(value)));
    assert(is_scan(scan_of(g, vp), g, vp)) by {
        let keep = |q: Pair| s.shows(t, p, q.0);
        lemma_scan_filter(scan_of(s.store, vp), s.store, vp, keep);
        assert(kept(s.store, keep) =~= g);
    }
    assert(vp.is_prefix_of(raw)) by {
        crate::storage::versions::lemma_version_prefix(p, key, me);
    }
    assert forall|other: Seq<u8>| #[trigger]
        g.contains_key(other) && vp.is_prefix_of(other) implies less(other, raw) by {
        lemma_row_last(s, t, name, count, other);
    }
    lemma_scan_push(g, vp, raw, stored_as(value));
    assert(logical((raw, stored_as(value))) == (key, bytes));
    assert(w.scan(t, p) =~= s.scan(t, p).push((key, bytes)));
}

/// Creating a row: nothing is in the way, and the writer sees one more row
/// in the table, behind the others.
pub proof fn lemma_create_row(
    s: State,
    t: Snapshot,
    name: Seq<char>,
    count: u64,
    row: Seq<ValueView>,
)
    requires
        s.admits(t),
        keyed(s),
        counted(s, t.version, count),
        name_fits(name),
        values_fit(row),
        s.scannable(rows_prefix(name)),
    ensures
        !s.conflicts(t, row_key(name, t.version, count)),
        database(s.write(t, row_key(name, t.version, count), Some(enc_row(row))), t) == database(
            s,
            t,
        ).with_row(name, row),
{
    let me = t.version;
    let key = row_key(name, me, count);
    let value = Some(enc_row(row));
    let w = s.write(t, key, value);
    lemma_row_key(name, me, count);
    lemma_row_key_free(s, t, name, count);
    assert forall|n: Seq<char>| table_at(w, t, n) == table_at(s, t, n) by {
        lemma_row_key(n, me, count);
        lemma_write_elsewhere(s, t, key, value, t, table_key(n));
    }
    assert(tables(w, t) =~= tables(s, t));
    assert forall|n: Seq<char>| name_fits(n) && n != name implies rows(w, t, n) == rows(
        s,
        t,
        n,
    ) by {
        let p = rows_prefix(n);
        if p.is_prefix_of(key) {
            assert(key =~= rows_prefix(name) + (be64(me) + be64(count)));
            lemma_rows_prefix(n, name, be64(me) + be64(count));
        }
        lemma_write_aside(s, t, key, value, p);
    }
    lemma_create_row_scan(s, t, name, count, enc_row(row));
    lemma_rows_in_push(s.scan(t, rows_prefix(name)), (key, enc_row(row)));
    lemma_row_read_back(row);
    assert(rows(w, t, name) == rows(s, t, name).push(row));
    assert(database(w, t).rows =~= database(s, t).with_row(name, row).rows);
}

// ------------------------------------------------------------------
// What each step keeps
// ------------------------------------------------------------------
/// After a transaction began: it sees what was committed, and nothing has
/// changed for the others, nor in what is committed.
pub proof fn lemma_begin_step(s: State)
    requires
        sound(s),
        s.next < u64::MAX,
    ensures
        under_way(s.begin().0, s.begin().1, 0),
        database(s.begin().0, s.begin().1) == committed(s),
        committed(s.begin().0) == committed(s),
        s.active == Set::<u64>::empty() ==> alone(s.begin().0, s.begin().1),
        forall|u: Snapshot, d: u64|
            #![trigger under_way(s, u, d)]
            under_way(s, u, d) ==> under_way(s.begin().0, u, d) && database(s.begin().0, u)
                == database(s, u) && u.version != s.next,
{
    let (b, n) = s.begin();
    lemma_begin_wf(s);
    assert forall|k: Seq<u8>, v: u64| #[trigger] b.has(k, v) implies is_table_key(k)
        || is_row_key_of(k, v) by {
        assert(s.has(k, v));
    }
    assert(tabled(b)) by {
        assert forall|k: Seq<u8>, v: u64|
            #![trigger b.has(k, v)]
            b.has(k, v) && is_table_key(k) implies holds_table(b.store[version_key(k, v)]) by {
            assert(s.has(k, v));
        }
    }
    assert(counted(b, n.version, 0)) by {
        assert forall|name: Seq<char>, c: u64|
            name_fits(name) && #[trigger] b.has(row_key(name, n.version, c), n.version) implies c
            < 0 by {
            assert(s.has(row_key(name, n.version, c), n.version));
        }
    }
    assert(same_versions(b, n, s, newcomer(s)));
    lemma_same_database(b, n, s, newcomer(s));
    assert(same_versions(b, newcomer(b), s, newcomer(s))) by {
        assert forall|k: Seq<u8>, v: u64|
            #![trigger b.has(k, v)]
            #![trigger s.has(k, v)]
            (b.has(k, v) && newcomer(b).sees(v)) == (s.has(k, v) && newcomer(s).sees(v)) by {
            if s.has(k, v) {
                assert(v < s.next);
            }
        }
    }
    lemma_same_database(b, newcomer(b), s, newcomer(s));
    if s.active == Set::<u64>::empty() {
        assert(b.active =~= set![n.version]);
    }
    assert forall|u: Snapshot, d: u64|
        #![trigger under_way(s, u, d)]
        under_way(s, u, d) implies under_way(b, u, d) && database(b, u) == database(s, u)
        && u.version != s.next by {
        assert(counted(b, u.version, d)) by {
            assert forall|name: Seq<char>, c: u64|
                name_fits(name) && #[trigger] b.has(row_key(name, u.version, c), u.version) implies c
                < d by {
                assert(s.has(row_key(name, u.version, c), u.version));
            }
        }
        assert(same_versions(b, u, s, u));
        lemma_same_database(b, u, s, u);
    }
}

/// Whether `key` is a key under which the transaction `id`, which has
/// counted `count` rows, writes: the key of a table, or the key of its next
/// row.
pub open spec fn writes(key: Seq<u8>, id: u64, count: u64) -> bool {
    is_table_key(key) || exists|name: Seq<char>|
        name_fits(name) && key == #[trigger] row_key(name, id, count)
}

/// After a write of a table where the writer saw none and nothing was in
/// the way, or of a row in a table that the writer sees: the writer sees
/// rows only in tables.
pub proof fn lemma_write_housed(
    s: State,
    t: Snapshot,
    key: Seq<u8>,
    value: Option<Seq<u8>>,
    count: u64,
)
    requires
        under_way(s, t, count),
        writes(key, t.version, count),
        is_table_key(key) ==> !s.conflicts(t, key) && holds_table(stored_as(value)),
        forall|name: Seq<char>|
            name_fits(name) && key == #[trigger] row_key(name, t.version, count) ==> table_at(
                s,
                t,
                name,
            ) is Some,
    ensures
        housed(s.write(t, key, value), t),
{
    let w = s.write(t, key, value);
    let me = t.version;
    assert forall|name: Seq<char>, raw: Seq<u8>|
        name_fits(name) && table_at(w, t, name) is None implies !#[trigger] w.shown(
        t,
        rows_prefix(name),
    ).contains_key(raw) by {
        let p = rows_prefix(name);
        lemma_row_key(name, me, count);
        if is_table_key(key) {
            // the rows are what they were, and no table is gone
            if p.is_prefix_of(key) {
                assert(key.subrange(0, p.len() as int)[0] == p[0]);
            }
            lemma_write_shows(s, t, key, value, p, raw);
            if table_key(name) == key {
                lemma_write_read(s, t, key, value);
                let table = choose|table: TableView|
                    table_fits(table) && stored_as(value) == stored_as(
                        Some(#[trigger] enc_table(table)),
                    );
                lemma_stored(value);
                lemma_stored(Some(enc_table(table)));
                lemma_table_read_back(table);
                assert(false);
            } else {
                lemma_write_elsewhere(s, t, key, value, t, table_key(name));
            }
            assert(table_at(s, t, name) is None);
            assert(!s.shown(t, p).contains_key(raw));
        } else {
            // the tables are what they were, and the row lies in one of them
            let other = choose|other: Seq<char>|
                name_fits(other) && key == #[trigger] row_key(other, me, count);
            lemma_write_elsewhere(s, t, key, value, t, table_key(name));
            assert(table_at(s, t, name) is None);
            assert(name != other);
            if p.is_prefix_of(key) {
                assert(key =~= rows_prefix(other) + (be64(me) + be64(count)));
                lemma_rows_prefix(name, other, be64(me) + be64(count));
            }
            lemma_write_shows(s, t, key, value, p, raw);
            assert(!s.shown(t, p).contains_key(raw));
        }
    }
}

/// After a write: the writer is under way, and nothing has changed for the
/// others, nor in what is committed.
pub proof fn lemma_write_step(
    s: State,
    t: Snapshot,
    key: Seq<u8>,
    value: Option<Seq<u8>>,
    count: u64,
    counts: u64,
)
    requires
        under_way(s, t, count),
        writes(key, t.version, count),
        counts == count || counts == count + 1,
        !is_table_key(key) ==> counts == count + 1,
        is_table_key(key) ==> !s.conflicts(t, key) && holds_table(stored_as(value)),
        forall|name: Seq<char>|
            name_fits(name) && key == #[trigger] row_key(name, t.version, count) ==> table_at(
                s,
                t,
                name,
            ) is Some,
    ensures
        under_way(s.write(t, key, value), t, counts),
        committed(s.write(t, key, value)) == committed(s),
        alone(s, t) ==> alone(s.write(t, key, value), t),
        forall|u: Snapshot, d: u64|
            #![trigger under_way(s, u, d)]
            under_way(s, u, d) && u.version != t.version ==> under_way(
                s.write(t, key, value),
                u,
                d,
            ) && database(s.write(t, key, value), u) == database(s, u),
{
    let w = s.write(t, key, value);
    let me = t.version;
    lemma_write_wf(s, t, key, value);
    assert forall|k: Seq<u8>, v: u64| #[trigger] w.has(k, v) implies is_table_key(k)
        || is_row_key_of(k, v) by {
        lemma_write_has(s, t, key, value, k, v);
        if !s.has(k, v) {
            if !is_table_key(key) {
                let name = choose|name: Seq<char>|
                    name_fits(name) && key == #[trigger] row_key(name, me, count);
                assert(k == row_key(name, v, count));
            }
        }
    }
    assert(counted(w, me, counts)) by {
        assert forall|name: Seq<char>, c: u64|
            name_fits(name) && #[trigger] w.has(row_key(name, me, c), me) implies c < counts by {
            lemma_write_has(s, t, key, value, row_key(name, me, c), me);
            if !s.has(row_key(name, me, c), me) {
                lemma_row_key(name, me, c);
                let other = choose|other: Seq<char>|
                    name_fits(other) && key == #[trigger] row_key(other, me, count);
                lemma_row_key_injective(name, me, c, other, me, count);
            }
        }
    }
    assert(tabled(w)) by {
        assert forall|k: Seq<u8>, v: u64|
            #![trigger w.has(k, v)]
            w.has(k, v) && is_table_key(k) implies holds_table(w.store[version_key(k, v)]) by {
            lemma_write_has(s, t, key, value, k, v);
            if k == key && v == me {
            } else {
                assert(s.has(k, v));
            }
        }
    }
    lemma_write_housed(s, t, key, value, count);
    lemma_newcomer(s, t);
    lemma_write_unseen(s, t, key, value, newcomer(s));
    lemma_same_database(w, newcomer(s), s, newcomer(s));
    assert forall|u: Snapshot, d: u64|
        #![trigger under_way(s, u, d)]
        under_way(s, u, d) && u.version != t.version implies under_way(w, u, d) && database(w, u)
        == database(s, u) by {
        lemma_strangers(s, t, u);
        lemma_write_unseen(s, t, key, value, u);
        lemma_same_database(w, u, s, u);
        assert(counted(w, u.version, d)) by {
            assert forall|name: Seq<char>, c: u64|
                name_fits(name) && #[trigger] w.has(row_key(name, u.version, c), u.version) implies c
                < d by {
                lemma_write_has(s, t, key, value, row_key(name, u.version, c), u.version);
            }
        }
    }
}

/// A table of which a version is seen is seen.
pub proof fn lemma_table_seen(s: State, t: Snapshot, name: Seq<char>, version: u64)
    requires
        tabled(s),
        s.has(table_key(name), version),
        t.sees(version),
    ensures
        table_at(s, t, name) is Some,
{
    let key = table_key(name);
    lemma_newest_exists(s, t, key, version);
    lemma_newest(s, t, key);
    let v = s.newest(t, key)->Some_0;
    lemma_row_key(name, 0, 0);
    assert(s.has(key, v) && is_table_key(key));
    let raw = s.store[version_key(key, v)];
    let table = choose|table: TableView|
        table_fits(table) && raw == stored_as(Some(#[trigger] enc_table(table)));
    lemma_stored(Some(enc_table(table)));
    lemma_table_read_back(table);
}

/// A version of a table that is seen, where a table is seen.
pub proof fn lemma_seen_table(s: State, t: Snapshot, name: Seq<char>) -> (version: u64)
    requires
        table_at(s, t, name) is Some,
    ensures
        s.has(table_key(name), version),
        t.sees(version),
{
    lemma_newest(s, t, table_key(name));
    s.newest(t, table_key(name))->Some_0
}

/// After a commit, what is committed holds rows only in tables: the rows
/// that were committed lie in tables that were committed, and the rows of
/// the transaction lie in tables that it saw, which are committed now.
pub proof fn lemma_commit_housed(s: State, a: Snapshot)
    requires
        sound(s),
        s.admits(a),
        housed(s, a),
    ensures
        housed(s.commit(a), newcomer(s.commit(a))),
{
    let c = s.commit(a);
    let nc = newcomer(c);
    let ns = newcomer(s);
    assert forall|name: Seq<char>, raw: Seq<u8>|
        name_fits(name) && table_at(c, nc, name) is None implies !#[trigger] c.shown(
        nc,
        rows_prefix(name),
    ).contains_key(raw) by {
        let p = rows_prefix(name);
        if c.shown(nc, p).contains_key(raw) {
            let (k, v) = as_version(raw).unwrap();
            lemma_version_key(k, v, raw);
            lemma_newest(c, nc, k);
            assert(c.has(k, v) && nc.sees(v));
            assert(s.has(k, v));
            assert(tabled(c)) by {
                assert forall|k2: Seq<u8>, v2: u64|
                    #![trigger c.has(k2, v2)]
                    c.has(k2, v2) && is_table_key(k2) implies holds_table(
                    c.store[version_key(k2, v2)],
                ) by {
                    assert(s.has(k2, v2));
                }
            }
            if v == a.version {
                // a row of the transaction: it lies in a table that the transaction saw
                lemma_newest_exists(s, a, k, v);
                lemma_newest(s, a, k);
                assert(s.newest(a, k) == Some(v));
                assert(s.shown(a, p).contains_key(raw));
                assert(table_at(s, a, name) is Some);
                let w = lemma_seen_table(s, a, name);
                assert(nc.sees(w));
                assert(c.has(table_key(name), w));
                lemma_table_seen(c, nc, name, w);
            } else {
                // a row that was committed: it lies in a table that was committed
                assert(ns.sees(v));
                assert forall|x: u64| #[trigger] s.has(k, x) && ns.sees(x) implies x <= v by {
                    assert(c.has(k, x) && nc.sees(x));
                }
                lemma_newest_is(s, ns, k, v);
                assert(s.shown(ns, p).contains_key(raw));
                assert(table_at(s, ns, name) is Some);
                let w = lemma_seen_table(s, ns, name);
                assert(nc.sees(w));
                assert(c.has(table_key(name), w));
                lemma_table_seen(c, nc, name, w);
            }
        }
    }
}

/// After a row was created in a table that the writer sees: the writer is
/// under way and sees one more row in the table, behind the others, and
/// nothing has changed for the others, nor in what is committed.
pub proof fn lemma_row_step(s: State, t: Snapshot, name: Seq<char>, count: u64, row: Seq<ValueView>)
    requires
        under_way(s, t, count),
        count < u64::MAX,
        name_fits(name),
        values_fit(row),
        s.scannable(rows_prefix(name)),
        table_at(s, t, name) is Some,
    ensures
        ({
            let w = s.write(t, row_key(name, t.version, count), Some(enc_row(row)));
            &&& under_way(w, t, (count + 1) as u64)
            &&& database(w, t) == database(s, t).with_row(name, row)
            &&& committed(w) == committed(s)
            &&& forall|u: Snapshot, d: u64|
                #![trigger under_way(s, u, d)]
                under_way(s, u, d) && u.version != t.version ==> under_way(w, u, d) && database(
                    w,
                    u,
                ) == database(s, u)
        }),
{
    let key = row_key(name, t.version, count);
    lemma_row_key(name, t.version, count);
    assert(writes(key, t.version, count));
    assert forall|other: Seq<char>|
        name_fits(other) && key == #[trigger] row_key(other, t.version, count) implies table_at(
        s,
        t,
        other,
    ) is Some by {
        lemma_row_key_injective(other, t.version, count, name, t.version, count);
    }
    lemma_write_step(s, t, key, Some(enc_row(row)), count, (count + 1) as u64);
    lemma_create_row(s, t, name, count, row);
}

/// After a commit: nothing has changed for the others, and where the
/// transaction was alone, what is committed is what it saw.
pub proof fn lemma_commit_step(s: State, t: Snapshot)
    requires
        sound(s),
        s.admits(t),
        housed(s, t),
    ensures
        sound(s.commit(t)),
        alone(s, t) ==> s.commit(t).active == Set::<u64>::empty() && committed(s.commit(t))
            == database(s, t),
        forall|u: Snapshot, d: u64|
            #![trigger under_way(s, u, d)]
            under_way(s, u, d) && u.version != t.version ==> under_way(s.commit(t), u, d)
                && database(s.commit(t), u) == database(s, u),
{
    let c = s.commit(t);
    lemma_commit_wf(s, t);
    assert forall|k: Seq<u8>, v: u64| #[trigger] c.has(k, v) implies is_table_key(k)
        || is_row_key_of(k, v) by {
        assert(s.has(k, v));
    }
    assert(tabled(c)) by {
        assert forall|k: Seq<u8>, v: u64|
            #![trigger c.has(k, v)]
            c.has(k, v) && is_table_key(k) implies holds_table(c.store[version_key(k, v)]) by {
            assert(s.has(k, v));
        }
    }
    lemma_commit_housed(s, t);
    if alone(s, t) {
        assert(c.active =~= Set::<u64>::empty());
        assert(same_versions(c, newcomer(c), s, t)) by {
            assert forall|k: Seq<u8>, v: u64|
                #![trigger c.has(k, v)]
                #![trigger s.has(k, v)]
                (c.has(k, v) && newcomer(c).sees(v)) == (s.has(k, v) && t.sees(v)) by {
                if s.has(k, v) {
                    assert(v < s.next);
                }
            }
        }
        lemma_same_database(c, newcomer(c), s, t);
    }
    assert forall|u: Snapshot, d: u64|
        #![trigger under_way(s, u, d)]
        under_way(s, u, d) && u.version != t.version implies under_way(c, u, d) && database(c, u)
        == database(s, u) by {
        assert(counted(c, u.version, d)) by {
            assert forall|name: Seq<char>, n: u64|
                name_fits(name) && #[trigger] c.has(row_key(name, u.version, n), u.version) implies n
                < d by {
                assert(s.has(row_key(name, u.version, n), u.version));
            }
        }
        assert(same_versions(c, u, s, u));
        lemma_same_database(c, u, s, u);
    }
}

/// After a rollback: nothing has changed for the others, nor in what is
/// committed.
pub proof fn lemma_rollback_step(s: State, t: Snapshot)
    requires
        sound(s),
        s.admits(t),
    ensures
        sound(s.rollback(t)),
        committed(s.rollback(t)) == committed(s),
        alone(s, t) ==> s.rollback(t).active == Set::<u64>::empty(),
        forall|u: Snapshot, d: u64|
            #![trigger under_way(s, u, d)]
            under_way(s, u, d) && u.version != t.version ==> under_way(s.rollback(t), u, d)
                && database(s.rollback(t), u) == database(s, u),
{
    let r = s.rollback(t);
    lemma_rollback_wf(s, t);
    assert forall|k: Seq<u8>, v: u64| #[trigger] r.has(k, v) implies is_table_key(k)
        || is_row_key_of(k, v) by {
        assert(s.has(k, v));
    }
    assert(tabled(r)) by {
        assert forall|k: Seq<u8>, v: u64|
            #![trigger r.has(k, v)]
            r.has(k, v) && is_table_key(k) implies holds_table(r.store[version_key(k, v)]) by {
            assert(s.has(k, v));
            lemma_version_key(k, v, version_key(k, v));
        }
    }
    if alone(s, t) {
        assert(r.active =~= Set::<u64>::empty());
    }
    // a transaction that would begin now sees nothing of the one rolled back
    lemma_newcomer(s, t);
    lemma_rollback_unseen(s, t, newcomer(s));
    assert(same_versions(r, newcomer(r), s, newcomer(s))) by {
        assert forall|k: Seq<u8>, v: u64|
            #![trigger r.has(k, v)]
            #![trigger s.has(k, v)]
            (r.has(k, v) && newcomer(r).sees(v)) == (s.has(k, v) && newcomer(s).sees(v)) by {
            assert((r.has(k, v) && newcomer(s).sees(v)) == (s.has(k, v) && newcomer(s).sees(v)));
        }
        assert forall|k: Seq<u8>, v: u64|
            #![trigger r.has(k, v)]
            r.has(k, v) && newcomer(r).sees(v) implies r.store[version_key(k, v)]
            == s.store[version_key(k, v)] by {
            lemma_version_key(k, v, version_key(k, v));
        }
    }
    lemma_same_database(r, newcomer(r), s, newcomer(s));
    assert forall|u: Snapshot, d: u64|
        #![trigger under_way(s, u, d)]
        under_way(s, u, d) && u.version != t.version implies under_way(r, u, d) && database(r, u)
        == database(s, u) by {
        lemma_strangers(s, t, u);
        lemma_rollback_unseen(s, t, u);
        lemma_same_database(r, u, s, u);
        assert(counted(r, u.version, d)) by {
            assert forall|name: Seq<char>, n: u64|
                name_fits(name) && #[trigger] r.has(row_key(name, u.version, n), u.version) implies n
                < d by {
                assert(s.has(row_key(name, u.version, n), u.version));
            }
        }
    }
}

/// A transaction that is alone sees every version: nothing is in its way.
pub proof fn lemma_alone_free(s: State, t: Snapshot, key: Seq<u8>)
    requires
        s.wf(),
        alone(s, t),
    ensures
        !s.conflicts(t, key),
{
    assert forall|v: u64| #[trigger] s.has(key, v) implies t.sees(v) by {
        assert(v < s.next);
    }
}

/// A store that holds nothing is in order, and nothing is committed over
/// it.
pub proof fn an_empty_store_is_in_order()
    ensures
        sound(state_of(Contents::empty())),
        committed(state_of(Contents::empty())).is_empty(),
{
    crate::storage::mvcc::lemma_empty_state();
    let s = state_of(Contents::empty());
    let t = newcomer(s);
    assert forall|key: Seq<u8>| s.read(t, key) is None by {
        lemma_newest(s, t, key);
        if let Some(v) = s.newest(t, key) {
            assert(s.has(key, v));
        }
    }
    assert(tables(s, t) =~= Map::<Seq<char>, TableView>::empty());
    assert(housed(s, t)) by {
        assert forall|name: Seq<char>, raw: Seq<u8>|
            name_fits(name) && table_at(s, t, name) is None implies !#[trigger] s.shown(
            t,
            rows_prefix(name),
        ).contains_key(raw) by {
            assert(!s.store.contains_key(raw));
        }
    }
    assert forall|name: Seq<char>| rows(s, t, name) == Seq::<Seq<ValueView>>::empty() by {
        let p = rows_prefix(name);
        let vp = version_prefix(p);
        let g = s.shown(t, p);
        assert(g =~= Contents::empty());
        assert(is_scan(Seq::<Pair>::empty(), g, vp));
        lemma_scan_is(Seq::<Pair>::empty(), g, vp);
        assert(s.scan(t, p) =~= Seq::<Pair>::empty());
    }
    assert forall|name: Seq<char>| #[trigger]
        committed(s).rows_of(name) == Seq::<Seq<ValueView>>::empty() by {
        assert(rows(s, t, name) == Seq::<Seq<ValueView>>::empty());
    }
}

/// A transaction that sees rows only in tables sees no row under a name
/// under which it sees no table.
pub proof fn lemma_housed_database(s: State, t: Snapshot)
    requires
        housed(s, t),
    ensures
        database(s, t).housed(),
{
    let db = database(s, t);
    assert forall|name: Seq<char>| !db.tables.contains_key(name) implies #[trigger] db.rows_of(
        name,
    ) == Seq::<Seq<ValueView>>::empty() by {
        if name_fits(name) {
            let p = rows_prefix(name);
            let g = s.shown(t, p);
            assert(table_at(s, t, name) is None);
            assert forall|raw: Seq<u8>| !g.contains_key(raw) by {
                assert(!s.shown(t, rows_prefix(name)).contains_key(raw));
            }
            assert(g =~= Contents::empty());
            assert(is_scan(Seq::<Pair>::empty(), g, version_prefix(p)));
            lemma_scan_is(Seq::<Pair>::empty(), g, version_prefix(p));
            assert(s.scan(t, p) =~= Seq::<Pair>::empty());
        }
    }
}

} // verus!

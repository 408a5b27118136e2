//! The engine over the transaction layer of a key-value store.
use vstd::prelude::*;
use vstd::string::StrSliceExecFns;

use crate::error::{Error, Mismatch};
use crate::sql::codec::{
    enc_row, enc_table, put_all, put_text, read_row, read_table, write_row, write_table,
};
use crate::sql::codec::table_fits;
use crate::sql::engine::layout::{
    holds_table, lemma_housed_database, lemma_row_key_injective, table_at,
    alone, committed, database, lemma_alone_free, lemma_begin_step, lemma_commit_step,
    lemma_create_row, lemma_create_table, lemma_rollback_step, lemma_row_key, lemma_rows_in_push,
    lemma_write_step, name_fits, row_key, rows, rows_in, rows_prefix, sound, table_key, under_way,
    writes,
};
use crate::sql::engine::{Database, Engine, Transaction};
use crate::sql::schema::Table;
use crate::sql::types::Row;
use crate::storage::engine::{pairs_of, Engine as StorageEngine};
use crate::storage::keycode::put_u64;
use crate::storage::mvcc::{Mvcc, MvccTransaction};
use crate::storage::versions::{newcomer, state_of, stored_as, Snapshot, State};

verus! {

/// The key of the table `name`.
fn key_of_table(name: &str) -> (key: Vec<u8>)
    ensures
        key@ == table_key(name@),
{
    let mut key: Vec<u8> = Vec::new();
    key.push(1u8);
    let raw = name.as_bytes_vec();
    put_all(&mut key, &raw);
    assert(key@ =~= table_key(name@));
    key
}

/// The beginning of the keys of the rows of the table `name`.
fn prefix_of_rows(name: &str) -> (key: Vec<u8>)
    ensures
        key@ == rows_prefix(name@),
        name_fits(name@),
{
    let mut key: Vec<u8> = Vec::new();
    key.push(2u8);
    put_text(&mut key, name);
    assert(key@ =~= rows_prefix(name@));
    key
}

/// The key of a row.
fn key_of_row(name: &str, id: u64, count: u64) -> (key: Vec<u8>)
    ensures
        key@ == row_key(name@, id, count),
        name_fits(name@),
{
    let mut key = prefix_of_rows(name);
    put_u64(&mut key, id);
    put_u64(&mut key, count);
    key
}

/// An engine over the transaction layer of a store.
pub struct KVEngine<E: StorageEngine> {
    kv: Mvcc<E>,
}

/// A transaction of a [`KVEngine`].
pub struct KVTransaction<E: StorageEngine> {
    txn: MvccTransaction,
    /// How many rows the transaction has created.
    rows: u64,
    store: core::marker::PhantomData<E>,
}

impl<E: StorageEngine> KVTransaction<E> {
    /// What the transaction knows of the others.
    pub closed spec fn snapshot(&self) -> Snapshot {
        self.txn@
    }

    /// How many rows the transaction has created.
    pub closed spec fn count(&self) -> u64 {
        self.rows
    }

    /// A transaction that has created no row yet.
    pub fn new(txn: MvccTransaction) -> (t: KVTransaction<E>)
        ensures
            t.snapshot() == txn@,
            t.count() == 0,
    {
        KVTransaction { txn, rows: 0, store: core::marker::PhantomData }
    }
}

impl<E: StorageEngine> KVEngine<E> {
    /// The state of the transaction layer.
    pub closed spec fn state(&self) -> State {
        self.kv@
    }

    /// Whether the store is in order.
    pub closed spec fn sane(&self) -> bool {
        self.kv.sane()
    }

    /// An engine over a store whose contents are in order: a store that holds
    /// nothing, or one that an engine has worked on.
    pub fn new(engine: E) -> (kv: KVEngine<E>)
        requires
            engine.wf(),
            sound(state_of(engine.contents())),
        ensures
            kv.sane(),
            kv.state() == state_of(engine.contents()),
            KVTransaction::<E>::sound(&kv),
    {
        KVEngine { kv: Mvcc::new(engine) }
    }
}

impl<E: StorageEngine> Transaction<KVEngine<E>> for KVTransaction<E> {
    open spec fn sound(engine: &KVEngine<E>) -> bool {
        engine.sane() && sound(engine.state())
    }

    open spec fn committed(engine: &KVEngine<E>) -> Database {
        committed(engine.state())
    }

    open spec fn idle(engine: &KVEngine<E>) -> bool {
        engine.state().active == Set::<u64>::empty()
    }

    open spec fn exhausted(engine: &KVEngine<E>) -> bool {
        engine.state().next == u64::MAX
    }

    open spec fn id(&self) -> nat {
        self.snapshot().version as nat
    }

    open spec fn active(&self, engine: &KVEngine<E>) -> bool {
        engine.sane() && under_way(engine.state(), self.snapshot(), self.count())
    }

    open spec fn database(&self, engine: &KVEngine<E>) -> Database {
        database(engine.state(), self.snapshot())
    }

    open spec fn alone(&self, engine: &KVEngine<E>) -> bool {
        alone(engine.state(), self.snapshot())
    }

    open spec fn contended(&self, engine: &KVEngine<E>, table: Seq<char>) -> bool {
        engine.state().conflicts(self.snapshot(), table_key(table))
    }

    open spec fn room(&self) -> nat {
        (u64::MAX - self.count()) as nat
    }

    open spec fn reliable() -> bool {
        true
    }

    proof fn lemma_active_sound(&self, engine: &KVEngine<E>) {
    }

    proof fn lemma_committed_housed(engine: &KVEngine<E>) {
        lemma_housed_database(engine.state(), newcomer(engine.state()));
    }

    proof fn lemma_housed(&self, engine: &KVEngine<E>) {
        lemma_housed_database(engine.state(), self.snapshot());
    }

    proof fn lemma_alone_uncontended(&self, engine: &KVEngine<E>, table: Seq<char>) {
        lemma_alone_free(engine.kv@, self.txn@, table_key(table));
    }

    fn commit(self, engine: &mut KVEngine<E>) -> (r: Result<(), Error>)
        ensures
            final(engine).state() == old(engine).state().commit(self.snapshot()),
    {
        let ghost s = engine.kv@;
        let ghost t = self.txn@;
        proof {
            lemma_commit_step(s, t);
        }
        engine.kv.commit(self.txn);
        proof {
            assert forall|u: Self|
                #![trigger u.active(old(engine))]
                u.active(old(engine)) && u.id() != self.id() implies u.active(engine)
                && u.database(engine) == u.database(old(engine)) by {
                assert(under_way(s, u.txn@, u.rows));
            }
        }
        Ok(())
    }

    fn rollback(self, engine: &mut KVEngine<E>) -> (r: Result<(), Error>)
        ensures
            final(engine).state() == old(engine).state().rollback(self.snapshot()),
    {
        let ghost s = engine.kv@;
        let ghost t = self.txn@;
        proof {
            lemma_rollback_step(s, t);
        }
        engine.kv.rollback(self.txn);
        proof {
            assert forall|u: Self|
                #![trigger u.active(old(engine))]
                u.active(old(engine)) && u.id() != self.id() implies u.active(engine)
                && u.database(engine) == u.database(old(engine)) by {
                assert(under_way(s, u.txn@, u.rows));
            }
        }
        Ok(())
    }

    fn create_table(&mut self, engine: &mut KVEngine<E>, table: Table) -> (r: Result<(), Error>)
        ensures
            final(self).snapshot() == old(self).snapshot(),
            final(self).count() == old(self).count(),
            final(engine).state() == (if r is Ok {
                old(engine).state().write(
                    old(self).snapshot(),
                    table_key(table@.name),
                    Some(enc_table(table@)),
                )
            } else {
                old(engine).state()
            }),
    {
        let ghost s = engine.kv@;
        let ghost t = self.txn@;
        if self.get_table(engine, table.name.as_str()).is_some() {
            return Err(Error::Internal(Mismatch::TableExists(table.name.clone())));
        }
        let key = key_of_table(table.name.as_str());
        let bytes = write_table(&table);
        match engine.kv.set(&self.txn, &key, &bytes) {
            Ok(()) => {
                proof {
                    lemma_row_key(table@.name, 0, 0);
                    assert(writes(key@, t.version, self.rows));
                    assert(holds_table(stored_as(Some(bytes@)))) by {
                        assert(table_fits(table@) && stored_as(Some(bytes@)) == stored_as(
                            Some(enc_table(table@)),
                        ));
                    }
                    assert forall|name: Seq<char>|
                        name_fits(name) && key@ == #[trigger] row_key(
                            name,
                            t.version,
                            self.rows,
                        ) implies table_at(s, t, name) is Some by {
                        lemma_row_key(name, t.version, self.rows);
                    }
                    lemma_write_step(s, t, key@, Some(bytes@), self.rows, self.rows);
                    lemma_create_table(s, t, table@);
                    assert forall|u: Self|
                        #![trigger u.active(old(engine))]
                        u.active(old(engine)) && u.id() != old(self).id() implies u.active(engine)
                        && u.database(engine) == u.database(old(engine)) by {
                        assert(under_way(s, u.txn@, u.rows));
                    }
                }
                Ok(())
            },
            Err(e) => Err(e),
        }
    }

    fn get_table(&self, engine: &KVEngine<E>, table_name: &str) -> (r: Option<Table>) {
        let key = key_of_table(table_name);
        match engine.kv.get(&self.txn, &key) {
            Some(bytes) => read_table(&bytes),
            None => None,
        }
    }

    fn create_row(&mut self, engine: &mut KVEngine<E>, table_name: &str, row: Row) -> (r: Result<
        (),
        Error,
    >)
        ensures
            final(self).snapshot() == old(self).snapshot(),
            final(engine).state() == (if r is Ok {
                old(engine).state().write(
                    old(self).snapshot(),
                    row_key(table_name@, old(self).snapshot().version, old(self).count()),
                    Some(enc_row(row.deep_view())),
                )
            } else {
                old(engine).state()
            }),
    {
        let ghost s = engine.kv@;
        let ghost t = self.txn@;
        if self.get_table(engine, table_name).is_none() {
            return Err(Error::NotFound(String::from_str(table_name)));
        }
        if self.rows == u64::MAX {
            return Err(Error::Internal(Mismatch::Exhausted));
        }
        let key = key_of_row(table_name, self.txn.version(), self.rows);
        let bytes = write_row(&row);
        proof {
            engine.kv.lemma_scannable(rows_prefix(table_name@));
            lemma_row_key(table_name@, t.version, self.rows);
            assert(writes(key@, t.version, self.rows));
            assert forall|name: Seq<char>|
                name_fits(name) && key@ == #[trigger] row_key(
                    name,
                    t.version,
                    self.rows,
                ) implies table_at(s, t, name) is Some by {
                lemma_row_key_injective(
                    name,
                    t.version,
                    self.rows,
                    table_name@,
                    t.version,
                    self.rows,
                );
            }
            lemma_write_step(s, t, key@, Some(bytes@), self.rows, (self.rows + 1) as u64);
            lemma_create_row(s, t, table_name@, self.rows, row.deep_view());
        }
        match engine.kv.set(&self.txn, &key, &bytes) {
            Ok(()) => {
                self.rows = self.rows + 1;
                proof {
                    assert forall|u: Self|
                        #![trigger u.active(old(engine))]
                        u.active(old(engine)) && u.id() != old(self).id() implies u.active(engine)
                        && u.database(engine) == u.database(old(engine)) by {
                        assert(under_way(s, u.txn@, u.rows));
                    }
                }
                Ok(())
            },
            Err(e) => Err(e),
        }
    }

    fn scan_table(&self, engine: &KVEngine<E>, table_name: &str) -> (r: Result<Vec<Row>, Error>) {
        if self.get_table(engine, table_name).is_none() {
            return Err(Error::NotFound(String::from_str(table_name)));
        }
        let prefix = prefix_of_rows(table_name);
        let found = engine.kv.scan_prefix(&self.txn, &prefix);
        let ghost pairs = pairs_of(found@);
        let mut out: Vec<Row> = Vec::new();
        let mut i: usize = 0;
        assert(out.deep_view() =~= rows_in(pairs.take(0)));
        while i < found.len()
            invariant
                i <= found.len(),
                pairs == pairs_of(found@),
                out.deep_view() == rows_in(pairs.take(i as int)),
            decreases found.len() - i,
        {
            let ghost done = out.deep_view();
            proof {
                assert(pairs.take(i + 1) =~= pairs.take(i as int).push(pairs[i as int]));
                lemma_rows_in_push(pairs.take(i as int), pairs[i as int]);
                assert(pairs[i as int].1 == found@[i as int].1@);
            }
            match read_row(&found[i].1) {
                Some(row) => {
                    out.push(row);
                    assert(out.deep_view() =~= done.push(row.deep_view()));
                },
                None => {},
            }
            i = i + 1;
        }
        assert(pairs.take(found.len() as int) == pairs);
        Ok(out)
    }
}

impl<E: StorageEngine> Engine for KVEngine<E> {
    type Transaction = KVTransaction<E>;

    fn begin(&mut self) -> (r: Result<KVTransaction<E>, Error>)
        ensures
            match r {
                Ok(txn) => (final(self).state(), txn.snapshot()) == old(self).state().begin()
                    && txn.count() == 0,
                Err(_) => final(self).state() == old(self).state(),
            },
    {
        let ghost s = self.kv@;
        match self.kv.begin() {
            Ok(txn) => {
                proof {
                    lemma_begin_step(s);
                    assert forall|u: KVTransaction<E>|
                        #![trigger u.active(old(self))]
                        u.active(old(self)) implies u.active(self) && u.database(self)
                        == u.database(old(self)) && u.id() != txn@.version by {
                        assert(under_way(s, u.txn@, u.rows));
                    }
                }
                Ok(KVTransaction::new(txn))
            },
            Err(e) => Err(e),
        }
    }
}

} // verus!

//! What the executor asks of an engine: transactions over tables and rows.
//!
//! An engine is passed to each step of its transactions, so that several
//! transactions can be under way on one engine. Each sees the tables and
//! rows that were committed when it began, and what it wrote itself.
use vstd::prelude::*;

use crate::error::{Error, ErrorView, MismatchView};
use crate::sql::executor::{run, ResultSet};
use crate::sql::parser::grammar;
use crate::sql::parser::lexer::lex;
use crate::sql::parser::Parser;
use crate::sql::plan::{node_of, Plan};
use crate::sql::schema::{Table, TableView};
use crate::sql::types::{Row, ValueView};

pub mod kv;
pub mod layout;

verus! {

/// Tables and their rows, as a transaction sees them.
pub struct Database {
    /// The tables, by name.
    pub tables: Map<Seq<char>, TableView>,
    /// The rows under each name, in the order in which a scan returns them.
    pub rows: Map<Seq<char>, Seq<Seq<ValueView>>>,
}

impl Database {
    /// The rows under `name`.
    pub open spec fn rows_of(self, name: Seq<char>) -> Seq<Seq<ValueView>> {
        if self.rows.contains_key(name) {
            self.rows[name]
        } else {
            Seq::empty()
        }
    }

    /// Whether the database holds nothing.
    pub open spec fn is_empty(self) -> bool {
        &&& self.tables == Map::<Seq<char>, TableView>::empty()
        &&& forall|name: Seq<char>| #[trigger] self.rows_of(name) == Seq::<Seq<ValueView>>::empty()
    }

    /// Whether rows stand only under the names of tables.
    pub open spec fn housed(self) -> bool {
        forall|name: Seq<char>|
            !self.tables.contains_key(name) ==> #[trigger] self.rows_of(name) == Seq::<
                Seq<ValueView>,
            >::empty()
    }

    /// The database with one more table.
    pub open spec fn with_table(self, table: TableView) -> Database {
        Database { tables: self.tables.insert(table.name, table), ..self }
    }

    /// The database with one more row under `name`, behind the others.
    pub open spec fn with_row(self, name: Seq<char>, row: Seq<ValueView>) -> Database {
        Database { rows: self.rows.insert(name, self.rows_of(name).push(row)), ..self }
    }
}

/// A transaction on an engine of type `E`.
pub trait Transaction<E>: Sized {
    /// Whether the engine is in order.
    spec fn sound(engine: &E) -> bool;

    /// What is committed: what a transaction that begins now sees.
    spec fn committed(engine: &E) -> Database;

    /// Whether no transaction is under way.
    spec fn idle(engine: &E) -> bool;

    /// Whether no transaction can begin any more.
    spec fn exhausted(engine: &E) -> bool;

    /// The transaction's identifier.
    spec fn id(&self) -> nat;

    /// Whether the transaction is under way on `engine`.
    spec fn active(&self, engine: &E) -> bool;

    /// What the transaction sees.
    spec fn database(&self, engine: &E) -> Database;

    /// Whether no other transaction is, or was since this one began, under
    /// way.
    spec fn alone(&self, engine: &E) -> bool;

    /// Whether a transaction that this one does not see wrote the table
    /// `table`.
    spec fn contended(&self, engine: &E, table: Seq<char>) -> bool;

    /// How many more rows the transaction can create.
    spec fn room(&self) -> nat;

    /// Whether transactions of this kind can always be ended: whether
    /// `commit` and `rollback` never fail.
    spec fn reliable() -> bool;

    /// A transaction is under way only on an engine that is in order.
    proof fn lemma_active_sound(&self, engine: &E)
        requires
            self.active(engine),
        ensures
            Self::sound(engine),
    ;

    /// On an engine in order, rows are committed only in tables.
    proof fn lemma_committed_housed(engine: &E)
        requires
            Self::sound(engine),
        ensures
            Self::committed(engine).housed(),
    ;

    /// A transaction under way sees rows only in tables.
    proof fn lemma_housed(&self, engine: &E)
        requires
            self.active(engine),
        ensures
            self.database(engine).housed(),
    ;

    /// A transaction that is alone is in nobody's way.
    proof fn lemma_alone_uncontended(&self, engine: &E, table: Seq<char>)
        requires
            self.active(engine),
            self.alone(engine),
        ensures
            !self.contended(engine, table),
    ;

    /// Commits: what the transaction wrote is there for those that begin from
    /// now on. Where it was alone, what is committed is what it saw. Where
    /// the commit fails, nothing more is committed than was.
    fn commit(self, engine: &mut E) -> (r: Result<(), Error>)
        requires
            self.active(old(engine)),
        ensures
            Self::sound(final(engine)),
            Self::exhausted(final(engine)) == Self::exhausted(old(engine)),
            forall|u: Self|
                #![trigger u.active(old(engine))]
                u.active(old(engine)) && u.id() != self.id() ==> u.active(final(engine))
                    && u.database(final(engine)) == u.database(old(engine)),
            Self::reliable() ==> r is Ok,
            match r {
                Ok(()) => self.alone(old(engine)) ==> Self::idle(final(engine))
                    && Self::committed(final(engine)) == self.database(old(engine)),
                Err(_) => Self::committed(final(engine)) == Self::committed(old(engine)),
            },
    ;

    /// Rolls back: what is committed is what was committed, also where the
    /// rollback fails.
    fn rollback(self, engine: &mut E) -> (r: Result<(), Error>)
        requires
            self.active(old(engine)),
        ensures
            Self::sound(final(engine)),
            Self::exhausted(final(engine)) == Self::exhausted(old(engine)),
            Self::committed(final(engine)) == Self::committed(old(engine)),
            forall|u: Self|
                #![trigger u.active(old(engine))]
                u.active(old(engine)) && u.id() != self.id() ==> u.active(final(engine))
                    && u.database(final(engine)) == u.database(old(engine)),
            Self::reliable() ==> r is Ok,
            r is Ok && self.alone(old(engine)) ==> Self::idle(final(engine)),
    ;

    /// Creates a table. Fails where the transaction sees a table of that
    /// name, and where another transaction is in the way.
    fn create_table(&mut self, engine: &mut E, table: Table) -> (r: Result<(), Error>)
        requires
            old(self).active(old(engine)),
        ensures
            Self::sound(final(engine)),
            final(self).active(final(engine)),
            final(self).id() == old(self).id(),
            Self::committed(final(engine)) == Self::committed(old(engine)),
            Self::exhausted(final(engine)) == Self::exhausted(old(engine)),
            old(self).alone(old(engine)) ==> final(self).alone(final(engine)),
            forall|u: Self|
                #![trigger u.active(old(engine))]
                u.active(old(engine)) && u.id() != old(self).id() ==> u.active(final(engine))
                    && u.database(final(engine)) == u.database(old(engine)),
            final(self).room() == old(self).room(),
            ({
                let before = old(self).database(old(engine));
                let after = final(self).database(final(engine));
                match r {
                    Ok(()) => {
                        &&& !before.tables.contains_key(table@.name)
                        &&& !old(self).contended(old(engine), table@.name)
                        &&& after == before.with_table(table@)
                    },
                    Err(e) => {
                        &&& after == before
                        &&& if before.tables.contains_key(table@.name) {
                            e@ == ErrorView::Internal(MismatchView::TableExists(table@.name))
                        } else {
                            old(self).contended(old(engine), table@.name) && e@
                                == ErrorView::Conflict
                        }
                    },
                }
            }),
    ;

    /// The table of that name, if the transaction sees one.
    fn get_table(&self, engine: &E, table_name: &str) -> (r: Option<Table>)
        requires
            self.active(engine),
        ensures
            match r {
                Some(table) => self.database(engine).tables.contains_key(table_name@)
                    && self.database(engine).tables[table_name@] == table@,
                None => !self.database(engine).tables.contains_key(table_name@),
            },
    ;

    /// The table of that name, which must be there.
    fn must_get_table(&self, engine: &E, table_name: &str) -> (r: Result<Table, Error>)
        requires
            self.active(engine),
        ensures
            match r {
                Ok(table) => self.database(engine).tables.contains_key(table_name@)
                    && self.database(engine).tables[table_name@] == table@,
                Err(e) => !self.database(engine).tables.contains_key(table_name@) && e@
                    == ErrorView::NotFound(table_name@),
            },
    {
        match self.get_table(engine, table_name) {
            Some(table) => Ok(table),
            None => Err(Error::NotFound(String::from_str(table_name))),
        }
    }

    /// Creates a row in a table, behind the rows that the transaction sees
    /// there. Fails where the transaction sees no such table, and where it
    /// has no room for one more row.
    fn create_row(&mut self, engine: &mut E, table_name: &str, row: Row) -> (r: Result<(), Error>)
        requires
            old(self).active(old(engine)),
        ensures
            Self::sound(final(engine)),
            final(self).active(final(engine)),
            final(self).id() == old(self).id(),
            Self::committed(final(engine)) == Self::committed(old(engine)),
            Self::exhausted(final(engine)) == Self::exhausted(old(engine)),
            old(self).alone(old(engine)) ==> final(self).alone(final(engine)),
            forall|u: Self|
                #![trigger u.active(old(engine))]
                u.active(old(engine)) && u.id() != old(self).id() ==> u.active(final(engine))
                    && u.database(final(engine)) == u.database(old(engine)),
            ({
                let before = old(self).database(old(engine));
                let after = final(self).database(final(engine));
                match r {
                    Ok(()) => {
                        &&& before.tables.contains_key(table_name@)
                        &&& old(self).room() > 0
                        &&& final(self).room() == old(self).room() - 1
                        &&& after == before.with_row(table_name@, row.deep_view())
                    },
                    Err(e) => {
                        &&& after == before
                        &&& final(self).room() == old(self).room()
                        &&& if !before.tables.contains_key(table_name@) {
                            e@ == ErrorView::NotFound(table_name@)
                        } else {
                            old(self).room() == 0 && e@ == ErrorView::Internal(
                                MismatchView::Exhausted,
                            )
                        }
                    },
                }
            }),
    ;

    /// The rows of a table that the transaction sees. Fails where it sees no
    /// such table.
    fn scan_table(&self, engine: &E, table_name: &str) -> (r: Result<Vec<Row>, Error>)
        requires
            self.active(engine),
        ensures
            match r {
                Ok(rows) => self.database(engine).tables.contains_key(table_name@)
                    && rows.deep_view() == self.database(engine).rows_of(table_name@),
                Err(e) => !self.database(engine).tables.contains_key(table_name@) && e@
                    == ErrorView::NotFound(table_name@),
            },
    ;
}

/// That between `before` and `after` every transaction under way, but the
/// one called `id`, is still under way and sees what it saw.
pub open spec fn undisturbed<E, T: Transaction<E>>(before: &E, after: &E, id: nat) -> bool {
    forall|u: T|
        #![trigger u.active(before)]
        u.active(before) && u.id() != id ==> u.active(after) && u.database(after) == u.database(
            before,
        )
}

/// What every step of a transaction keeps: the engine is in order, the
/// transaction is under way under its identifier, and nothing changes for
/// anybody else, nor in what is committed.
pub open spec fn carried<E, T: Transaction<E>>(t0: &T, e0: &E, t1: &T, e1: &E) -> bool {
    &&& T::sound(e1)
    &&& t1.active(e1)
    &&& t1.id() == t0.id()
    &&& T::committed(e1) == T::committed(e0)
    &&& T::exhausted(e1) == T::exhausted(e0)
    &&& (t0.alone(e0) ==> t1.alone(e1))
    &&& undisturbed::<E, T>(e0, e1, t0.id())
}

/// An engine: where transactions begin.
pub trait Engine: Sized {
    type Transaction: Transaction<Self>;

    /// Begins a transaction. It sees what is committed. Fails where the
    /// engine is exhausted.
    fn begin(&mut self) -> (r: Result<Self::Transaction, Error>)
        requires
            Self::Transaction::sound(old(self)),
        ensures
            Self::Transaction::sound(final(self)),
            Self::Transaction::committed(final(self)) == Self::Transaction::committed(old(self)),
            forall|u: Self::Transaction|
                #![trigger u.active(old(self))]
                u.active(old(self)) ==> u.active(final(self)) && u.database(final(self))
                    == u.database(old(self)),
            match r {
                Ok(txn) => {
                    &&& !Self::Transaction::exhausted(old(self))
                    &&& txn.active(final(self))
                    &&& txn.database(final(self)) == Self::Transaction::committed(old(self))
                    &&& txn.room() >= usize::MAX
                    &&& Self::Transaction::idle(old(self)) ==> txn.alone(final(self))
                    &&& forall|u: Self::Transaction|
                        #![trigger u.active(old(self))]
                        u.active(old(self)) ==> u.id() != txn.id()
                },
                Err(e) => {
                    &&& Self::Transaction::exhausted(old(self))
                    &&& Self::Transaction::exhausted(final(self))
                    &&& e@ == ErrorView::Internal(MismatchView::Exhausted)
                    &&& Self::Transaction::idle(final(self)) == Self::Transaction::idle(
                        old(self),
                    )
                },
            },
    ;
}

/// What a statement returns: what carrying it out returned, unless the
/// transaction could not be ended; then the failure of that.
pub fn settle(outcome: Result<ResultSet, Error>, ending: Result<(), Error>) -> (r: Result<
    ResultSet,
    Error,
>)
    ensures
        r == (match ending {
            Ok(()) => outcome,
            Err(e) => Err::<ResultSet, Error>(e),
        }),
{
    match ending {
        Ok(()) => outcome,
        Err(e) => Err(e),
    }
}

/// A session: statements are carried out one after the other, each in a
/// transaction of its own.
pub struct Session<E: Engine> {
    engine: E,
    /// Whether a transaction could not be ended.
    stuck: bool,
}

impl<E: Engine> Session<E> {
    /// The engine is in order, no transaction is under way, and every
    /// transaction so far was ended.
    pub closed spec fn wf(&self) -> bool {
        !self.stuck && E::Transaction::sound(&self.engine) && E::Transaction::idle(&self.engine)
    }

    /// Whether a transaction of the session could not be ended. The session
    /// carries out no statement after that.
    pub closed spec fn stuck(&self) -> bool {
        self.stuck
    }

    /// Whether a transaction of the session could not be ended.
    pub fn is_stuck(&self) -> (b: bool)
        ensures
            b == self.stuck(),
    {
        self.stuck
    }

    /// What is committed.
    pub closed spec fn database(&self) -> Database {
        E::Transaction::committed(&self.engine)
    }

    /// Whether no statement can be carried out any more.
    pub closed spec fn exhausted(&self) -> bool {
        E::Transaction::exhausted(&self.engine)
    }

    /// Rows are committed only in tables: a table that is created holds no
    /// row.
    pub proof fn rows_stand_in_tables(&self)
        requires
            self.wf(),
        ensures
            self.database().housed(),
    {
        E::Transaction::lemma_committed_housed(&self.engine);
    }

    /// A session on `engine`.
    pub fn new(engine: E) -> (session: Session<E>)
        requires
            E::Transaction::sound(&engine),
            E::Transaction::idle(&engine),
        ensures
            session.wf(),
            session.database() == E::Transaction::committed(&engine),
            session.exhausted() == E::Transaction::exhausted(&engine),
    {
        Session { engine, stuck: false }
    }

    /// Carries out one statement: parses and plans it, begins a transaction,
    /// carries the plan out, and commits. Where the statement fails, the
    /// transaction is rolled back, and nothing has changed. Where the
    /// transaction cannot be ended, that failure is returned, nothing has
    /// changed in what is committed, and the session is stuck.
    pub fn exexutor(&mut self, sql: &str) -> (r: Result<ResultSet, Error>)
        requires
            old(self).wf(),
        ensures
            final(self).wf() != final(self).stuck(),
            E::Transaction::reliable() ==> final(self).wf(),
            match grammar::parse(lex(sql@)) {
                Err(e) => {
                    &&& r matches Err(x) && x@ == ErrorView::Parse(e)
                    &&& final(self).wf()
                    &&& final(self).database() == old(self).database()
                    &&& final(self).exhausted() == old(self).exhausted()
                },
                Ok(stmt) => if old(self).exhausted() {
                    &&& r matches Err(x) && x@ == ErrorView::Internal(MismatchView::Exhausted)
                    &&& final(self).wf()
                    &&& final(self).database() == old(self).database()
                    &&& final(self).exhausted()
                } else if final(self).stuck() {
                    &&& r is Err
                    &&& final(self).database() == old(self).database()
                } else {
                    match run(node_of(stmt), old(self).database()).result {
                        Ok(done) => {
                            &&& r matches Ok(x) && x@ == done
                            &&& final(self).database() == run(
                                node_of(stmt),
                                old(self).database(),
                            ).database
                        },
                        Err(e) => {
                            &&& r matches Err(x) && x@ == e
                            &&& final(self).database() == old(self).database()
                        },
                    }
                },
            },
    {
        let mut parser = Parser::new(sql);
        let stmt = parser.parse()?;
        let mut txn = self.engine.begin()?;
        let plan = Plan::build(stmt);
        proof {
            if let crate::sql::plan::Node::Insert { values, .. } = &plan.0 {
                assert(values.deep_view().len() == values.len());
            }
            crate::sql::executor::lemma_run(
                plan@,
                txn.database(&self.engine),
                txn.room(),
            );
            crate::sql::executor::lemma_uncontended(&txn, &self.engine, plan@);
        }
        let outcome = plan.executor(&mut self.engine, &mut txn);
        let ending = if outcome.is_ok() {
            txn.commit(&mut self.engine)
        } else {
            txn.rollback(&mut self.engine)
        };
        if ending.is_err() {
            self.stuck = true;
        }
        settle(outcome, ending)
    }
}

} // verus!

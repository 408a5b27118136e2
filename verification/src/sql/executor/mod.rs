//! The operators that carry out a plan.
use vstd::prelude::*;

use crate::error::{Error, ErrorView, MismatchView};
use crate::sql::engine::{carried, Database, Engine, Transaction};
use crate::sql::executor::mutation::{arranged, padded, Insert};
use crate::sql::executor::query::Scan;
use crate::sql::executor::schema::CreateTable;
use crate::sql::parser::ast::ExpressionView;
use crate::sql::plan::{Node, NodeView};
use crate::sql::schema::TableView;
use crate::sql::types::{values_of, Row, ValueView};

pub mod mutation;
pub mod query;
pub mod schema;

verus! {

/// What a statement returns.
#[derive(Debug, PartialEq)]
pub enum ResultSet {
    /// A table was created.
    CreateTable { table_name: String },
    /// So many rows were inserted.
    Insert { count: usize },
    /// The names of a table's columns, and its rows.
    Scan { columns: Vec<String>, rows: Vec<Row> },
}

/// The model of a [`ResultSet`].
pub enum ResultSetView {
    CreateTable { table_name: Seq<char> },
    Insert { count: nat },
    Scan { columns: Seq<Seq<char>>, rows: Seq<Seq<ValueView>> },
}

impl View for ResultSet {
    type V = ResultSetView;

    open spec fn view(&self) -> ResultSetView {
        match self {
            ResultSet::CreateTable { table_name } => ResultSetView::CreateTable {
                table_name: table_name@,
            },
            ResultSet::Insert { count } => ResultSetView::Insert { count: *count as nat },
            ResultSet::Scan { columns, rows } => ResultSetView::Scan {
                columns: columns.deep_view(),
                rows: rows.deep_view(),
            },
        }
    }
}

impl DeepView for ResultSet {
    type V = ResultSetView;

    open spec fn deep_view(&self) -> ResultSetView {
        self.view()
    }
}

/// What carrying out a plan comes to: what the transaction sees afterwards,
/// and what is returned.
pub struct Effect {
    pub database: Database,
    pub result: Result<ResultSetView, ErrorView>,
}

/// The row that a value tuple makes in `table`: by position where there is
/// no column list, by the names of the list otherwise.
pub open spec fn row_of(
    table: TableView,
    columns: Option<Seq<Seq<char>>>,
    tuple: Seq<ExpressionView>,
) -> Result<Seq<ValueView>, MismatchView> {
    match columns {
        None => padded(table, values_of(tuple)),
        Some(names) => arranged(table, names, values_of(tuple)),
    }
}

/// What inserting the tuples from the `from`-th on comes to, in a
/// transaction that sees `db` and has room for `room` rows. The first tuple
/// that makes no row, or for which there is no room, ends the statement;
/// the rows before it are there.
pub open spec fn insert_from(
    db: Database,
    table_name: Seq<char>,
    columns: Option<Seq<Seq<char>>>,
    values: Seq<Seq<ExpressionView>>,
    from: nat,
    room: nat,
) -> Effect
    decreases values.len() - from,
{
    if from >= values.len() {
        Effect { database: db, result: Ok(ResultSetView::Insert { count: values.len() }) }
    } else {
        match row_of(db.tables[table_name], columns, values[from as int]) {
            Err(e) => Effect { database: db, result: Err(ErrorView::Internal(e)) },
            Ok(row) => if room == 0 {
                Effect {
                    database: db,
                    result: Err(ErrorView::Internal(MismatchView::Exhausted)),
                }
            } else {
                insert_from(
                    db.with_row(table_name, row),
                    table_name,
                    columns,
                    values,
                    from + 1,
                    (room - 1) as nat,
                )
            },
        }
    }
}

/// What carrying out `node` comes to, in a transaction that sees `db`, has
/// room for `room` rows, and is `blocked` or not from writing the table
/// that `node` names.
pub open spec fn effect(node: NodeView, db: Database, room: nat, blocked: bool) -> Effect {
    match node {
        NodeView::CreateTable { schema } => if db.tables.contains_key(schema.name) {
            Effect {
                database: db,
                result: Err(ErrorView::Internal(MismatchView::TableExists(schema.name))),
            }
        } else if blocked {
            Effect { database: db, result: Err(ErrorView::Conflict) }
        } else {
            Effect {
                database: db.with_table(schema),
                result: Ok(ResultSetView::CreateTable { table_name: schema.name }),
            }
        },
        NodeView::Insert { table_name, columns, values } => if !db.tables.contains_key(
            table_name,
        ) {
            Effect { database: db, result: Err(ErrorView::NotFound(table_name)) }
        } else {
            insert_from(db, table_name, columns, values, 0, room)
        },
        NodeView::Scan { table_name } => if !db.tables.contains_key(table_name) {
            Effect { database: db, result: Err(ErrorView::NotFound(table_name)) }
        } else {
            Effect {
                database: db,
                result: Ok(
                    ResultSetView::Scan {
                        columns: db.tables[table_name].column_names(),
                        rows: db.rows_of(table_name),
                    },
                ),
            }
        },
    }
}

/// The table that a node names.
pub open spec fn table_of(node: NodeView) -> Seq<char> {
    match node {
        NodeView::CreateTable { schema } => schema.name,
        NodeView::Insert { table_name, .. } => table_name,
        NodeView::Scan { table_name } => table_name,
    }
}

/// How many rows a node asks to insert.
pub open spec fn needed(node: NodeView) -> nat {
    match node {
        NodeView::Insert { values, .. } => values.len(),
        _ => 0,
    }
}

/// What carrying out `node` comes to where nothing is in the way: in a
/// transaction that sees `db`, has room for all the rows, and is alone.
pub open spec fn run(node: NodeView, db: Database) -> Effect {
    effect(node, db, needed(node), false)
}

/// With room for all the tuples that are left, more room changes nothing.
pub proof fn lemma_insert_room(
    db: Database,
    table_name: Seq<char>,
    columns: Option<Seq<Seq<char>>>,
    values: Seq<Seq<ExpressionView>>,
    from: nat,
    a: nat,
    b: nat,
)
    requires
        from <= values.len(),
        a >= values.len() - from,
        b >= values.len() - from,
    ensures
        insert_from(db, table_name, columns, values, from, a) == insert_from(
            db,
            table_name,
            columns,
            values,
            from,
            b,
        ),
    decreases values.len() - from,
{
    if from < values.len() {
        if let Ok(row) = row_of(db.tables[table_name], columns, values[from as int]) {
            lemma_insert_room(
                db.with_row(table_name, row),
                table_name,
                columns,
                values,
                from + 1,
                (a - 1) as nat,
                (b - 1) as nat,
            );
        }
    }
}

/// A transaction with room for as many rows as a list can hold has room for
/// the rows of any node.
pub proof fn lemma_run(node: NodeView, db: Database, room: nat)
    requires
        room >= needed(node),
    ensures
        effect(node, db, room, false) == run(node, db),
{
    if let NodeView::Insert { table_name, columns, values } = node {
        lemma_insert_room(db, table_name, columns, values, 0, room, values.len());
    }
}

/// A transaction that is alone is not blocked.
pub proof fn lemma_uncontended<E, T: Transaction<E>>(txn: &T, engine: &E, node: NodeView)
    requires
        txn.active(engine),
        txn.alone(engine),
    ensures
        !txn.contended(engine, table_of(node)),
{
    txn.lemma_alone_uncontended(engine, table_of(node));
}

/// An operator: what carries out one node of a plan, once, in a
/// transaction.
pub trait Executor<E: Engine> {
    /// The node that the operator carries out.
    spec fn node(&self) -> NodeView;

    /// Carries the node out.
    fn executor(self, engine: &mut E, txn: &mut E::Transaction) -> (r: Result<ResultSet, Error>)
        requires
            old(txn).active(old(engine)),
        ensures
            carried(old(txn), old(engine), final(txn), final(engine)),
            ({
                let done = effect(
                    self.node(),
                    old(txn).database(old(engine)),
                    old(txn).room(),
                    old(txn).contended(old(engine), table_of(self.node())),
                );
                &&& final(txn).database(final(engine)) == done.database
                &&& crate::sql::parser::outcome(r) == done.result
            }),
    ;
}

/// The operators.
pub enum Operator {
    CreateTable(CreateTable),
    Insert(Insert),
    Scan(Scan),
}

impl<E: Engine> Executor<E> for Operator {
    open spec fn node(&self) -> NodeView {
        match self {
            Operator::CreateTable(op) => <CreateTable as Executor<E>>::node(op),
            Operator::Insert(op) => <Insert as Executor<E>>::node(op),
            Operator::Scan(op) => <Scan as Executor<E>>::node(op),
        }
    }

    fn executor(self, engine: &mut E, txn: &mut E::Transaction) -> (r: Result<ResultSet, Error>) {
        match self {
            Operator::CreateTable(op) => op.executor(engine, txn),
            Operator::Insert(op) => op.executor(engine, txn),
            Operator::Scan(op) => op.executor(engine, txn),
        }
    }
}

impl<E: Engine> dyn Executor<E> {
    /// The operator for a node.
    pub fn build(node: Node) -> (op: Operator)
        ensures
            <Operator as Executor<E>>::node(&op) == node@,
    {
        match node {
            Node::CreateTable { schema } => Operator::CreateTable(CreateTable::new(schema)),
            Node::Insert { table_name, columns, values } => Operator::Insert(
                Insert::new(table_name, columns, values),
            ),
            Node::Scan { table_name } => Operator::Scan(Scan::new(table_name)),
        }
    }
}

} // verus!

//! Plans: what a statement asks for, as the executor takes it.
use vstd::prelude::*;

use crate::error::Error;
use crate::sql::engine::{carried, Engine, Transaction};
use crate::sql::executor::{effect, table_of, Executor, Operator, ResultSet};
use crate::sql::parser::ast;
use crate::sql::parser::ast::{Expression, ExpressionView, Statement, StatementView};
use crate::sql::schema::{Column, ColumnView, Table, TableView};
use crate::sql::types::{value_of, Value};

verus! {

/// A node of a plan.
#[derive(Debug, PartialEq)]
pub enum Node {
    /// Create the table `schema`.
    CreateTable { schema: Table },
    /// Insert the rows that `values` spell into `table_name`: by the order of
    /// the table's columns where `columns` is `None`, and by the names in
    /// `columns` otherwise.
    Insert { table_name: String, columns: Option<Vec<String>>, values: Vec<Vec<Expression>> },
    /// Read all the rows of `table_name`.
    Scan { table_name: String },
}

/// The model of a [`Node`].
pub enum NodeView {
    CreateTable { schema: TableView },
    Insert {
        table_name: Seq<char>,
        columns: Option<Seq<Seq<char>>>,
        values: Seq<Seq<ExpressionView>>,
    },
    Scan { table_name: Seq<char> },
}

impl View for Node {
    type V = NodeView;

    open spec fn view(&self) -> NodeView {
        match self {
            Node::CreateTable { schema } => NodeView::CreateTable { schema: schema@ },
            Node::Insert { table_name, columns, values } => NodeView::Insert {
                table_name: table_name@,
                columns: columns.deep_view(),
                values: values.deep_view(),
            },
            Node::Scan { table_name } => NodeView::Scan { table_name: table_name@ },
        }
    }
}

/// A plan.
#[derive(Debug, PartialEq)]
pub struct Plan(pub Node);

impl View for Plan {
    type V = NodeView;

    open spec fn view(&self) -> NodeView {
        self.0@
    }
}

/// The column of a table that a declaration asks for. It is nullable only
/// where the declaration says so, and its default is the value of the
/// declared expression.
pub open spec fn column_of(c: ast::ColumnView) -> ColumnView {
    ColumnView {
        name: c.name,
        datatype: c.datatype,
        nullable: match c.nullable {
            Some(b) => b,
            None => false,
        },
        default: match c.default {
            Some(e) => Some(value_of(e)),
            None => None,
        },
    }
}

/// The node that a statement asks for.
pub open spec fn node_of(stmt: StatementView) -> NodeView {
    match stmt {
        StatementView::CreateTable { name, columns } => NodeView::CreateTable {
            schema: TableView {
                name,
                columns: columns.map_values(|c: ast::ColumnView| column_of(c)),
            },
        },
        StatementView::Insert { table_name, columns, values } => NodeView::Insert {
            table_name,
            columns,
            values,
        },
        StatementView::Select { table_name } => NodeView::Scan { table_name },
    }
}

/// The column of a table that a declaration asks for.
fn build_column(c: &ast::Column) -> (column: Column)
    ensures
        column@ == column_of(c@),
{
    let nullable = match c.nullable {
        Some(b) => b,
        None => false,
    };
    let default = match &c.default {
        Some(e) => Some(Value::from_expression(e.clone())),
        None => None,
    };
    Column { name: c.name.clone(), datatype: c.datatype, nullable, default }
}

impl Plan {
    /// The plan of a statement: the same request, with nothing checked
    /// against the tables and nothing rearranged.
    pub fn build(stmt: Statement) -> (plan: Plan)
        ensures
            plan@ == node_of(stmt@),
    {
        match stmt {
            Statement::CreateTable { name, columns } => {
                let ghost decls = columns.deep_view();
                let ghost wanted = decls.map_values(|c: ast::ColumnView| column_of(c));
                let mut built: Vec<Column> = Vec::new();
                let mut i: usize = 0;
                while i < columns.len()
                    invariant
                        i <= columns.len(),
                        decls == columns.deep_view(),
                        wanted == decls.map_values(|c: ast::ColumnView| column_of(c)),
                        built.deep_view() == wanted.take(i as int),
                    decreases columns.len() - i,
                {
                    let ghost done = built.deep_view();
                    let column = build_column(&columns[i]);
                    built.push(column);
                    assert(built.deep_view() == done.push(column@));
                    assert(wanted.take(i + 1) == wanted.take(i as int).push(wanted[i as int]));
                    i = i + 1;
                }
                assert(wanted.take(columns.len() as int) == wanted);
                Plan(Node::CreateTable { schema: Table { name, columns: built } })
            },
            Statement::Insert { table_name, columns, values } => Plan(
                Node::Insert { table_name, columns, values },
            ),
            Statement::Select { table_name } => Plan(Node::Scan { table_name }),
        }
    }

    /// Carries the plan out in a transaction.
    pub fn executor<E: Engine>(self, engine: &mut E, txn: &mut E::Transaction) -> (r: Result<
        ResultSet,
        Error,
    >)
        requires
            old(txn).active(old(engine)),
        ensures
            carried(old(txn), old(engine), final(txn), final(engine)),
            ({
                let done = effect(
                    self@,
                    old(txn).database(old(engine)),
                    old(txn).room(),
                    old(txn).contended(old(engine), table_of(self@)),
                );
                &&& final(txn).database(final(engine)) == done.database
                &&& crate::sql::parser::outcome(r) == done.result
            }),
    {
        let op: Operator = <dyn Executor<E>>::build(self.0);
        op.executor(engine, txn)
    }
}

} // verus!

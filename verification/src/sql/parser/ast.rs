//! The abstract syntax of a statement.
use vstd::prelude::*;

use crate::sql::types::DataType;

verus! {

/// A constant. A floating-point constant is carried as the decimal text that
/// spelled it.
#[derive(Debug, PartialEq)]
pub enum Consts {
    Null,
    Boolean(bool),
    Integer(i64),
    Float(String),
    String(String),
}

/// The model of a [`Consts`].
pub enum ConstsView {
    Null,
    Boolean(bool),
    Integer(i64),
    Float(Seq<char>),
    String(Seq<char>),
}

/// An expression. There are only constants so far.
#[derive(Debug, PartialEq)]
pub enum Expression {
    Consts(Consts),
}

/// The model of an [`Expression`].
pub enum ExpressionView {
    Consts(ConstsView),
}

/// A column as it is declared.
#[derive(Debug, PartialEq)]
pub struct Column {
    pub name: String,
    pub datatype: DataType,
    pub nullable: Option<bool>,
    pub default: Option<Expression>,
}

/// The model of a [`Column`].
pub struct ColumnView {
    pub name: Seq<char>,
    pub datatype: DataType,
    pub nullable: Option<bool>,
    pub default: Option<ExpressionView>,
}

/// A statement.
#[derive(Debug, PartialEq)]
#[allow(inconsistent_fields)]
pub enum Statement {
    CreateTable { name: String, columns: Vec<Column> },
    Insert { table_name: String, columns: Option<Vec<String>>, values: Vec<Vec<Expression>> },
    Select { table_name: String },
}

/// The model of a [`Statement`].
#[allow(inconsistent_fields)]
pub enum StatementView {
    CreateTable { name: Seq<char>, columns: Seq<ColumnView> },
    Insert {
        table_name: Seq<char>,
        columns: Option<Seq<Seq<char>>>,
        values: Seq<Seq<ExpressionView>>,
    },
    Select { table_name: Seq<char> },
}

impl View for Consts {
    type V = ConstsView;

    open spec fn view(&self) -> ConstsView {
        match self {
            Consts::Null => ConstsView::Null,
            Consts::Boolean(b) => ConstsView::Boolean(*b),
            Consts::Integer(i) => ConstsView::Integer(*i),
            Consts::Float(s) => ConstsView::Float(s@),
            Consts::String(s) => ConstsView::String(s@),
        }
    }
}

impl View for Expression {
    type V = ExpressionView;

    open spec fn view(&self) -> ExpressionView {
        match self {
            Expression::Consts(c) => ExpressionView::Consts(c@),
        }
    }
}

impl DeepView for Expression {
    type V = ExpressionView;

    open spec fn deep_view(&self) -> ExpressionView {
        self.view()
    }
}

impl View for Column {
    type V = ColumnView;

    open spec fn view(&self) -> ColumnView {
        ColumnView {
            name: self.name@,
            datatype: self.datatype,
            nullable: self.nullable,
            default: self.default.deep_view(),
        }
    }
}

impl DeepView for Column {
    type V = ColumnView;

    open spec fn deep_view(&self) -> ColumnView {
        self.view()
    }
}

impl View for Statement {
    type V = StatementView;

    open spec fn view(&self) -> StatementView {
        match self {
            Statement::CreateTable { name, columns } => StatementView::CreateTable {
                name: name@,
                columns: columns.deep_view(),
            },
            Statement::Insert { table_name, columns, values } => StatementView::Insert {
                table_name: table_name@,
                columns: columns.deep_view(),
                values: values.deep_view(),
            },
            Statement::Select { table_name } => StatementView::Select { table_name: table_name@ },
        }
    }
}

impl DeepView for Statement {
    type V = StatementView;

    open spec fn deep_view(&self) -> StatementView {
        self.view()
    }
}

impl Clone for Consts {
    fn clone(&self) -> (r: Self)
        ensures
            r == *self,
    {
        match self {
            Consts::Null => Consts::Null,
            Consts::Boolean(b) => Consts::Boolean(*b),
            Consts::Integer(i) => Consts::Integer(*i),
            Consts::Float(s) => Consts::Float(s.clone()),
            Consts::String(s) => Consts::String(s.clone()),
        }
    }
}

impl Clone for Expression {
    fn clone(&self) -> (r: Self)
        ensures
            r == *self,
    {
        match self {
            Expression::Consts(c) => Expression::Consts(c.clone()),
        }
    }
}

impl From<Consts> for Expression {
    fn from(value: Consts) -> (r: Self) {
        Expression::Consts(value)
    }
}

impl vstd::std_specs::convert::FromSpecImpl<Consts> for Expression {
    open spec fn obeys_from_spec() -> bool {
        true
    }

    open spec fn from_spec(value: Consts) -> Self {
        Expression::Consts(value)
    }
}

} // verus!

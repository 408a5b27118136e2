//! The values that a table holds.
use vstd::prelude::*;

use crate::sql::parser::ast::{Consts, ConstsView, Expression, ExpressionView};

verus! {

/// The type that a column declares.
#[derive(Debug, Clone, Copy, PartialEq, Eq, Structural)]
pub enum DataType {
    Boolean,
    Integer,
    Float,
    String,
}

/// A value of a row. A floating-point value is carried as the decimal text
/// that spelled it.
#[derive(Debug, PartialEq)]
pub enum Value {
    Null,
    Boolean(bool),
    Integer(i64),
    Float(String),
    String(String),
}

/// The model of a [`Value`].
pub enum ValueView {
    Null,
    Boolean(bool),
    Integer(i64),
    Float(Seq<char>),
    String(Seq<char>),
}

/// A row: its values, in the order of the table's columns.
pub type Row = Vec<Value>;

impl View for Value {
    type V = ValueView;

    open spec fn view(&self) -> ValueView {
        match self {
            Value::Null => ValueView::Null,
            Value::Boolean(b) => ValueView::Boolean(*b),
            Value::Integer(i) => ValueView::Integer(*i),
            Value::Float(s) => ValueView::Float(s@),
            Value::String(s) => ValueView::String(s@),
        }
    }
}

impl DeepView for Value {
    type V = ValueView;

    open spec fn deep_view(&self) -> ValueView {
        self.view()
    }
}

impl Clone for Value {
    fn clone(&self) -> (r: Self)
        ensures
            r == *self,
    {
        match self {
            Value::Null => Value::Null,
            Value::Boolean(b) => Value::Boolean(*b),
            Value::Integer(i) => Value::Integer(*i),
            Value::Float(s) => Value::Float(s.clone()),
            Value::String(s) => Value::String(s.clone()),
        }
    }
}

/// The value that an expression stands for.
pub open spec fn value_of(e: ExpressionView) -> ValueView {
    match e {
        ExpressionView::Consts(ConstsView::Null) => ValueView::Null,
        ExpressionView::Consts(ConstsView::Boolean(b)) => ValueView::Boolean(b),
        ExpressionView::Consts(ConstsView::Integer(i)) => ValueView::Integer(i),
        ExpressionView::Consts(ConstsView::Float(s)) => ValueView::Float(s),
        ExpressionView::Consts(ConstsView::String(s)) => ValueView::String(s),
    }
}

/// The values that a tuple of expressions stands for.
pub open spec fn values_of(es: Seq<ExpressionView>) -> Seq<ValueView> {
    es.map_values(|e: ExpressionView| value_of(e))
}

impl Value {
    /// Evaluates an expression.
    pub fn from_expression(expr: Expression) -> (v: Value)
        ensures
            v@ == value_of(expr@),
    {
        match expr {
            Expression::Consts(Consts::Null) => Value::Null,
            Expression::Consts(Consts::Boolean(b)) => Value::Boolean(b),
            Expression::Consts(Consts::Integer(i)) => Value::Integer(i),
            Expression::Consts(Consts::Float(s)) => Value::Float(s),
            Expression::Consts(Consts::String(s)) => Value::String(s),
        }
    }
}

/// A copy of a row.
pub fn clone_row(row: &Row) -> (r: Row)
    ensures
        r@ == row@,
{
    let mut r: Row = Vec::new();
    let mut i: usize = 0;
    while i < row.len()
        invariant
            i <= row.len(),
            r@ == row@.subrange(0, i as int),
        decreases row.len() - i,
    {
        r.push(row[i].clone());
        i = i + 1;
    }
    assert(row@.subrange(0, row.len() as int) == row@);
    r
}

} // verus!

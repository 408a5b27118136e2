//! Tables and their columns.
use vstd::prelude::*;

use crate::sql::types::{DataType, Value, ValueView};

verus! {

/// A column of a table.
#[derive(Debug, PartialEq)]
pub struct Column {
    pub name: String,
    pub datatype: DataType,
    /// Whether the column may hold `Null`. A column is not nullable unless
    /// it is declared so.
    pub nullable: bool,
    /// The value that a row gets where it gives none.
    pub default: Option<Value>,
}

/// The model of a [`Column`].
pub struct ColumnView {
    pub name: Seq<char>,
    pub datatype: DataType,
    pub nullable: bool,
    pub default: Option<ValueView>,
}

/// A table: its name and its columns. The order of the columns is the order
/// of the values in each of its rows.
#[derive(Debug, PartialEq)]
pub struct Table {
    pub name: String,
    pub columns: Vec<Column>,
}

/// The model of a [`Table`].
pub struct TableView {
    pub name: Seq<char>,
    pub columns: Seq<ColumnView>,
}

impl View for Column {
    type V = ColumnView;

    open spec fn view(&self) -> ColumnView {
        ColumnView {
            name: self.name@,
            datatype: self.datatype,
            nullable: self.nullable,
            default: self.default.deep_view(),
        }
    }
}

impl DeepView for Column {
    type V = ColumnView;

    open spec fn deep_view(&self) -> ColumnView {
        self.view()
    }
}

impl View for Table {
    type V = TableView;

    open spec fn view(&self) -> TableView {
        TableView { name: self.name@, columns: self.columns.deep_view() }
    }
}

impl DeepView for Table {
    type V = TableView;

    open spec fn deep_view(&self) -> TableView {
        self.view()
    }
}

impl TableView {
    /// The names of the columns, in their order.
    pub open spec fn column_names(self) -> Seq<Seq<char>> {
        self.columns.map_values(|c: ColumnView| c.name)
    }
}

impl Table {
    /// The names of the columns, in their order.
    pub fn column_names(&self) -> (names: Vec<String>)
        ensures
            names.deep_view() == self@.column_names(),
    {
        let mut names: Vec<String> = Vec::new();
        let mut i: usize = 0;
        while i < self.columns.len()
            invariant
                i <= self.columns.len(),
                names.deep_view() == self@.column_names().take(i as int),
            decreases self.columns.len() - i,
        {
            let ghost done = names.deep_view();
            names.push(self.columns[i].name.clone());
            assert(names.deep_view() == done.push(self.columns[i as int].name@));
            assert(self@.column_names().take(i + 1) == self@.column_names().take(i as int).push(
                self@.columns[i as int].name,
            ));
            i = i + 1;
        }
        assert(self@.column_names().take(self.columns.len() as int) == self@.column_names());
        names
    }
}

} // verus!

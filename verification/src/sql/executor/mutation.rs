//! Inserting rows.
use vstd::prelude::*;

use crate::error::{Error, ErrorView, Mismatch, MismatchView};
use crate::sql::engine::{carried, undisturbed, Engine, Transaction};
use crate::sql::executor::{insert_from, Executor, ResultSet};
use crate::sql::parser::ast::{Expression, ExpressionView};
use crate::sql::plan::NodeView;
use crate::sql::schema::{ColumnView, Table, TableView};
use crate::sql::types::{clone_row, values_of, Row, Value, ValueView};

verus! {

// ------------------------------------------------------------------
// Rows given by position
// ------------------------------------------------------------------
/// The first column from `from` on that has no default, if there is one.
pub open spec fn first_without_default(columns: Seq<ColumnView>, from: nat) -> Option<nat>
    decreases columns.len() - from,
{
    if from >= columns.len() {
        None
    } else if columns[from as int].default is None {
        Some(from)
    } else {
        first_without_default(columns, from + 1)
    }
}

/// The row that values given by position make in `table`: the values, and
/// then the defaults of the columns that are left. There may be no more
/// values than columns, and each column that is left must have a default.
pub open spec fn padded(table: TableView, row: Seq<ValueView>) -> Result<
    Seq<ValueView>,
    MismatchView,
> {
    if row.len() > table.columns.len() {
        Err(MismatchView::TooManyValues)
    } else {
        match first_without_default(table.columns, row.len()) {
            Some(i) => Err(MismatchView::MissingDefault(table.columns[i as int].name)),
            None => Ok(
                Seq::new(
                    table.columns.len(),
                    |i: int|
                        if i < row.len() {
                            row[i]
                        } else {
                            table.columns[i].default.unwrap()
                        },
                ),
            ),
        }
    }
}

/// `first_without_default` finds the first such column.
pub proof fn lemma_first_without_default(columns: Seq<ColumnView>, from: nat)
    ensures
        match first_without_default(columns, from) {
            Some(i) => {
                &&& from <= i < columns.len()
                &&& columns[i as int].default is None
                &&& forall|j: int| from <= j < i ==> (#[trigger] columns[j]).default is Some
            },
            None => forall|j: int|
                from <= j < columns.len() ==> (#[trigger] columns[j]).default is Some,
        },
    decreases columns.len() - from,
{
    if from < columns.len() && columns[from as int].default is Some {
        lemma_first_without_default(columns, from + 1);
    }
}

/// Completes a row whose values are given in the order of the table's
/// columns.
pub fn pad_row(table: &Table, row: &Row) -> (r: Result<Row, Error>)
    ensures
        match padded(table@, row.deep_view()) {
            Ok(full) => r matches Ok(x) && x.deep_view() == full,
            Err(e) => r matches Err(x) && x@ == ErrorView::Internal(e),
        },
{
    if row.len() > table.columns.len() {
        return Err(Error::Internal(Mismatch::TooManyValues));
    }
    let mut results = clone_row(row);
    assert(results.deep_view() == row.deep_view());
    let ghost cols = table@.columns;
    let ghost given = row.deep_view();
    let mut i: usize = row.len();
    while i < table.columns.len()
        invariant
            row.len() <= i <= table.columns.len(),
            cols == table@.columns,
            given == row.deep_view(),
            results.len() == i,
            first_without_default(cols, given.len()) == first_without_default(cols, i as nat),
            forall|j: int| 0 <= j < given.len() ==> results.deep_view()[j] == given[j],
            forall|j: int|
                given.len() <= j < i ==> cols[j].default == Some(#[trigger] results.deep_view()[j]),
        decreases table.columns.len() - i,
    {
        let column = &table.columns[i];
        assert(cols[i as int] == column@);
        match &column.default {
            Some(default) => {
                let ghost before = results.deep_view();
                results.push(default.clone());
                assert(results.deep_view() == before.push(default@));
            },
            None => {
                return Err(Error::Internal(Mismatch::MissingDefault(column.name.clone())));
            },
        }
        i = i + 1;
    }
    assert(results.deep_view() == padded(table@, given)->Ok_0);
    Ok(results)
}

// ------------------------------------------------------------------
// Rows given by column names
// ------------------------------------------------------------------
/// The value that is paired with `name`, if it is among `columns`. Where it
/// is there more than once, the last pairing counts.
pub open spec fn given(columns: Seq<Seq<char>>, values: Seq<ValueView>, name: Seq<char>) -> Option<
    ValueView,
>
    decreases columns.len(),
{
    if columns.len() == 0 {
        None
    } else if columns.last() == name {
        Some(values[columns.len() - 1])
    } else {
        given(columns.drop_last(), values, name)
    }
}

/// The value of a column in a row that is given by names: the value paired
/// with the column's name, or else the column's default.
pub open spec fn value_for(column: ColumnView, columns: Seq<Seq<char>>, values: Seq<ValueView>)
    -> Option<ValueView> {
    match given(columns, values, column.name) {
        Some(v) => Some(v),
        None => column.default,
    }
}

/// The first column of the table from `from` on that gets no value, if there
/// is one.
pub open spec fn first_without_value(
    table: Seq<ColumnView>,
    columns: Seq<Seq<char>>,
    values: Seq<ValueView>,
    from: nat,
) -> Option<nat>
    decreases table.len() - from,
{
    if from >= table.len() {
        None
    } else if value_for(table[from as int], columns, values) is None {
        Some(from)
    } else {
        first_without_value(table, columns, values, from + 1)
    }
}

/// Whether the table has a column of this name.
pub open spec fn has_column(table: Seq<ColumnView>, name: Seq<char>) -> bool {
    exists|j: int| 0 <= j < table.len() && (#[trigger] table[j]).name == name
}

/// The first of the names from `from` on that the table has no column for,
/// if there is one.
pub open spec fn first_unknown(table: Seq<ColumnView>, columns: Seq<Seq<char>>, from: nat)
    -> Option<nat>
    decreases columns.len() - from,
{
    if from >= columns.len() {
        None
    } else if !has_column(table, columns[from as int]) {
        Some(from)
    } else {
        first_unknown(table, columns, from + 1)
    }
}

/// The row that values given by column names make in `table`: for each
/// column of the table, in the table's order, its value. There must be as
/// many names as values, each name must be that of a column of the table,
/// and each column must get a value.
pub open spec fn arranged(table: TableView, columns: Seq<Seq<char>>, values: Seq<ValueView>)
    -> Result<Seq<ValueView>, MismatchView> {
    if columns.len() != values.len() {
        Err(MismatchView::ColumnCountMismatch)
    } else {
        match first_unknown(table.columns, columns, 0) {
            Some(i) => Err(MismatchView::UnknownColumn(columns[i as int])),
            None => match first_without_value(table.columns, columns, values, 0) {
                Some(i) => Err(MismatchView::MissingValue(table.columns[i as int].name)),
                None => Ok(
                    Seq::new(
                        table.columns.len(),
                        |i: int| value_for(table.columns[i], columns, values).unwrap(),
                    ),
                ),
            },
        }
    }
}

/// `first_unknown` finds the first such name.
pub proof fn lemma_first_unknown(table: Seq<ColumnView>, columns: Seq<Seq<char>>, from: nat)
    ensures
        match first_unknown(table, columns, from) {
            Some(i) => {
                &&& from <= i < columns.len()
                &&& !has_column(table, columns[i as int])
                &&& forall|j: int| from <= j < i ==> has_column(table, #[trigger] columns[j])
            },
            None => forall|j: int|
                from <= j < columns.len() ==> has_column(table, #[trigger] columns[j]),
        },
    decreases columns.len() - from,
{
    if from < columns.len() && has_column(table, columns[from as int]) {
        lemma_first_unknown(table, columns, from + 1);
    }
}

/// `first_without_value` finds the first such column.
pub proof fn lemma_first_without_value(
    table: Seq<ColumnView>,
    columns: Seq<Seq<char>>,
    values: Seq<ValueView>,
    from: nat,
)
    ensures
        match first_without_value(table, columns, values, from) {
            Some(i) => {
                &&& from <= i < table.len()
                &&& value_for(table[i as int], columns, values) is None
                &&& forall|j: int|
                    from <= j < i ==> value_for(#[trigger] table[j], columns, values) is Some
            },
            None => forall|j: int|
                from <= j < table.len() ==> value_for(#[trigger] table[j], columns, values) is Some,
        },
    decreases table.len() - from,
{
    if from < table.len() && value_for(table[from as int], columns, values) is Some {
        lemma_first_without_value(table, columns, values, from + 1);
    }
}

/// The value that is paired with `name`, if it is among `columns`.
fn find_given(columns: &Vec<String>, values: &Row, name: &String) -> (r: Option<Value>)
    requires
        columns.len() == values.len(),
    ensures
        r.deep_view() == given(columns.deep_view(), values.deep_view(), name@),
{
    let ghost cs = columns.deep_view();
    let ghost vs = values.deep_view();
    assert(cs.take(cs.len() as int) == cs);
    let mut i: usize = columns.len();
    while i > 0
        invariant
            i <= columns.len(),
            columns.len() == values.len(),
            cs == columns.deep_view(),
            vs == values.deep_view(),
            given(cs, vs, name@) == given(cs.take(i as int), vs, name@),
        decreases i,
    {
        assert(cs.take(i as int).last() == columns[i - 1]@);
        assert(cs.take(i as int).drop_last() == cs.take(i - 1));
        if columns[i - 1] == *name {
            assert(vs[i - 1] == values[i - 1]@);
            return Some(values[i - 1].clone());
        }
        i = i - 1;
    }
    None
}

/// Whether the table has a column of this name.
fn is_column(table: &Table, name: &String) -> (b: bool)
    ensures
        b == has_column(table@.columns, name@),
{
    let mut j: usize = 0;
    while j < table.columns.len()
        invariant
            j <= table.columns.len(),
            forall|k: int| 0 <= k < j ==> (#[trigger] table@.columns[k]).name != name@,
        decreases table.columns.len() - j,
    {
        assert(table@.columns[j as int] == table.columns[j as int]@);
        if table.columns[j].name == *name {
            return true;
        }
        j = j + 1;
    }
    false
}

/// Arranges a row whose values are given for the columns that `columns`
/// names, in whatever order, into the order of the table's columns.
pub fn make_row(table: &Table, columns: &Vec<String>, values: &Row) -> (r: Result<Row, Error>)
    ensures
        match arranged(table@, columns.deep_view(), values.deep_view()) {
            Ok(full) => r matches Ok(x) && x.deep_view() == full,
            Err(e) => r matches Err(x) && x@ == ErrorView::Internal(e),
        },
{
    if columns.len() != values.len() {
        return Err(Error::Internal(Mismatch::ColumnCountMismatch));
    }
    let ghost cols = table@.columns;
    let ghost cs = columns.deep_view();
    let ghost vs = values.deep_view();
    let mut n: usize = 0;
    while n < columns.len()
        invariant
            n <= columns.len(),
            columns.len() == values.len(),
            cols == table@.columns,
            cs == columns.deep_view(),
            first_unknown(cols, cs, 0) == first_unknown(cols, cs, n as nat),
        decreases columns.len() - n,
    {
        assert(cs[n as int] == columns[n as int]@);
        if !is_column(table, &columns[n]) {
            return Err(Error::Internal(Mismatch::UnknownColumn(columns[n].clone())));
        }
        n = n + 1;
    }
    let mut results: Row = Vec::new();
    let mut i: usize = 0;
    while i < table.columns.len()
        invariant
            i <= table.columns.len(),
            columns.len() == values.len(),
            cols == table@.columns,
            cs == columns.deep_view(),
            vs == values.deep_view(),
            results.len() == i,
            first_unknown(cols, cs, 0) is None,
            first_without_value(cols, cs, vs, 0) == first_without_value(cols, cs, vs, i as nat),
            forall|j: int|
                0 <= j < i ==> value_for(cols[j], cs, vs) == Some(
                    #[trigger] results.deep_view()[j],
                ),
        decreases table.columns.len() - i,
    {
        let col = &table.columns[i];
        assert(cols[i as int] == col@);
        let ghost before = results.deep_view();
        match find_given(columns, values, &col.name) {
            Some(value) => {
                results.push(value);
                assert(results.deep_view() == before.push(value@));
            },
            None => match &col.default {
                Some(value) => {
                    results.push(value.clone());
                    assert(results.deep_view() == before.push(value@));
                },
                None => {
                    return Err(Error::Internal(Mismatch::MissingValue(col.name.clone())));
                },
            },
        }
        i = i + 1;
    }
    assert(results.deep_view() == arranged(table@, cs, vs)->Ok_0);
    Ok(results)
}

// ------------------------------------------------------------------
// The operator
// ------------------------------------------------------------------
/// The operator that inserts rows into a table.
pub struct Insert {
    table_name: String,
    columns: Option<Vec<String>>,
    values: Vec<Vec<Expression>>,
}

/// The values of a tuple of expressions.
fn evaluate(exprs: &Vec<Expression>) -> (row: Row)
    ensures
        row.deep_view() == values_of(exprs.deep_view()),
{
    let ghost wanted = values_of(exprs.deep_view());
    let mut row: Row = Vec::new();
    let mut i: usize = 0;
    while i < exprs.len()
        invariant
            i <= exprs.len(),
            wanted == values_of(exprs.deep_view()),
            row.deep_view() == wanted.take(i as int),
        decreases exprs.len() - i,
    {
        let ghost done = row.deep_view();
        let value = Value::from_expression(exprs[i].clone());
        row.push(value);
        assert(row.deep_view() == done.push(value@));
        assert(wanted.take(i + 1) == wanted.take(i as int).push(wanted[i as int]));
        i = i + 1;
    }
    assert(wanted.take(exprs.len() as int) == wanted);
    row
}

impl Insert {
    /// The table that the rows go to.
    pub closed spec fn table_name(&self) -> Seq<char> {
        self.table_name@
    }

    /// The names of the columns that the values are given for, if they are
    /// named.
    pub closed spec fn columns(&self) -> Option<Seq<Seq<char>>> {
        self.columns.deep_view()
    }

    /// The value tuples.
    pub closed spec fn values(&self) -> Seq<Seq<ExpressionView>> {
        self.values.deep_view()
    }

    /// The operator that inserts the rows that `values` spell into `table_name`.
    pub fn new(table_name: String, columns: Option<Vec<String>>, values: Vec<Vec<Expression>>) -> (op:
        Insert)
        ensures
            op.table_name() == table_name@,
            op.columns() == columns.deep_view(),
            op.values() == values.deep_view(),
    {
        Insert { table_name, columns, values }
    }
}

impl<E: Engine> Executor<E> for Insert {
    open spec fn node(&self) -> NodeView {
        NodeView::Insert {
            table_name: self.table_name(),
            columns: self.columns(),
            values: self.values(),
        }
    }

    fn executor(self, engine: &mut E, txn: &mut E::Transaction) -> (r: Result<ResultSet, Error>) {
        proof {
            txn.lemma_active_sound(engine);
        }
        let table = txn.must_get_table(engine, self.table_name.as_str())?;
        let ghost name = self.table_name@;
        let ghost columns = self.columns.deep_view();
        let ghost values = self.values.deep_view();
        let ghost db0 = txn.database(engine);
        let ghost room0 = txn.room();
        let ghost t0 = *txn;
        let ghost e0 = *engine;
        let mut count: usize = 0;
        while count < self.values.len()
            invariant
                count <= self.values.len(),
                name == self.table_name@,
                columns == self.columns.deep_view(),
                values == self.values.deep_view(),
                t0 == *old(txn),
                e0 == *old(engine),
                db0 == t0.database(&e0),
                room0 == t0.room(),
                db0.tables.contains_key(name),
                txn.active(engine),
                carried(&t0, &e0, txn, engine),
                txn.database(engine).tables.contains_key(name),
                txn.database(engine).tables[name] == table@,
                insert_from(db0, name, columns, values, 0, room0) == insert_from(
                    txn.database(engine),
                    name,
                    columns,
                    values,
                    count as nat,
                    txn.room(),
                ),
            decreases self.values.len() - count,
        {
            let row = evaluate(&self.values[count]);
            assert(values[count as int] == self.values[count as int].deep_view());
            let insert_row = match &self.columns {
                None => pad_row(&table, &row)?,
                Some(names) => make_row(&table, names, &row)?,
            };
            let ghost e1 = *engine;
            let ghost t1 = *txn;
            txn.create_row(engine, self.table_name.as_str(), insert_row)?;
            proof {
                assert(undisturbed::<E, E::Transaction>(&e0, engine, t0.id())) by {
                    assert forall|u: E::Transaction|
                        #![trigger u.active(&e0)]
                        u.active(&e0) && u.id() != t0.id() implies u.active(engine) && u.database(
                        engine,
                    ) == u.database(&e0) by {
                        assert(u.active(&e1));
                    }
                }
            }
            count = count + 1;
        }
        Ok(ResultSet::Insert { count })
    }
}

} // verus!

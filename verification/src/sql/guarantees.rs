//! What the database guarantees, stated over its model.
use vstd::prelude::*;

use crate::error::ErrorView;
use crate::sql::codec::{enc_row, values_fit};
use crate::sql::engine::layout::{
    committed, database, lemma_begin_step, lemma_commit_step, lemma_row_step,
    lemma_same_database, name_fits, row_key, rows_prefix, sound, under_way,
};
use crate::sql::engine::Database;
use crate::error::MismatchView;
use crate::sql::executor::mutation::{
    arranged, has_column, lemma_first_unknown, lemma_first_without_default,
    lemma_first_without_value, padded, value_for,
};
use crate::sql::executor::{insert_from, row_of, run, ResultSetView};
use crate::sql::parser::ast::ExpressionView;
use crate::sql::plan::NodeView;
use crate::sql::schema::TableView;
use crate::sql::types::{values_of, ValueView};
use crate::storage::isolation::{rollback_restores, write_all};
use crate::storage::versions::{newcomer, same_versions, Snapshot, State};

verus! {

/// A row that is made for a table has as many values as the table has
/// columns, however its values were given.
pub proof fn rows_fit_their_table(
    table: TableView,
    columns: Option<Seq<Seq<char>>>,
    tuple: Seq<ExpressionView>,
)
    ensures
        row_of(table, columns, tuple) matches Ok(row) ==> row.len() == table.columns.len(),
{
}

/// A row that is given by names gets, for each column of the table, the
/// value that is paired with the column's name, or else the column's
/// default. Where a name is that of no column of the table, the first such
/// name is named in the failure, and no value is dropped; where a column
/// gets no value, the first such column is named in the failure.
pub proof fn rows_by_name_are_complete(
    table: TableView,
    columns: Seq<Seq<char>>,
    values: Seq<ValueView>,
)
    requires
        columns.len() == values.len(),
    ensures
        match arranged(table, columns, values) {
            Ok(row) => {
                &&& row.len() == table.columns.len()
                &&& forall|j: int|
                    0 <= j < columns.len() ==> has_column(table.columns, #[trigger] columns[j])
                &&& forall|i: int|
                    0 <= i < row.len() ==> value_for(#[trigger] table.columns[i], columns, values)
                        == Some(row[i])
            },
            Err(MismatchView::UnknownColumn(name)) => exists|i: int|
                {
                    &&& 0 <= i < columns.len()
                    &&& #[trigger] columns[i] == name
                    &&& !has_column(table.columns, name)
                    &&& forall|j: int|
                        0 <= j < i ==> has_column(table.columns, #[trigger] columns[j])
                },
            Err(MismatchView::MissingValue(name)) => exists|i: int|
                {
                    &&& 0 <= i < table.columns.len()
                    &&& (#[trigger] table.columns[i]).name == name
                    &&& value_for(table.columns[i], columns, values) is None
                    &&& forall|j: int|
                        0 <= j < i ==> value_for(#[trigger] table.columns[j], columns, values)
                            is Some
                },
            Err(_) => false,
        },
{
    lemma_first_unknown(table.columns, columns, 0);
    lemma_first_without_value(table.columns, columns, values, 0);
}

/// A row that is given by position gets, behind its values, the defaults of
/// the columns that are left; where one of them has no default, the first
/// such column is named in the failure.
pub proof fn rows_by_position_are_complete(table: TableView, row: Seq<ValueView>)
    requires
        row.len() <= table.columns.len(),
    ensures
        match padded(table, row) {
            Ok(full) => {
                &&& full.len() == table.columns.len()
                &&& forall|i: int| 0 <= i < row.len() ==> full[i] == row[i]
                &&& forall|i: int|
                    row.len() <= i < full.len() ==> (#[trigger] table.columns[i]).default == Some(
                        full[i],
                    )
            },
            Err(MismatchView::MissingDefault(name)) => exists|i: int|
                {
                    &&& row.len() <= i < table.columns.len()
                    &&& (#[trigger] table.columns[i]).name == name
                    &&& table.columns[i].default is None
                    &&& forall|j: int|
                        row.len() <= j < i ==> (#[trigger] table.columns[j]).default is Some
                },
            Err(_) => false,
        },
{
    lemma_first_without_default(table.columns, row.len());
}

/// Values that are given for all the columns, in their order, are the row.
pub proof fn full_rows_are_kept(table: TableView, row: Seq<ValueView>)
    requires
        row.len() == table.columns.len(),
    ensures
        padded(table, row) == Ok::<Seq<ValueView>, MismatchView>(row),
{
    lemma_first_without_default(table.columns, row.len());
    assert(padded(table, row)->Ok_0 =~= row);
}

/// Inserting values for all the columns of a table, and then scanning the
/// table, returns the rows that were there and, behind them, the row of
/// these values, in the order of the table's columns.
pub proof fn insert_then_scan(db: Database, table_name: Seq<char>, tuple: Seq<ExpressionView>)
    requires
        db.tables.contains_key(table_name),
        tuple.len() == db.tables[table_name].columns.len(),
    ensures
        ({
            let insert = NodeView::Insert { table_name, columns: None, values: seq![tuple] };
            let after = run(insert, db);
            &&& after.result == Ok::<ResultSetView, ErrorView>(ResultSetView::Insert { count: 1 })
            &&& after.database == db.with_row(table_name, values_of(tuple))
            &&& run(NodeView::Scan { table_name }, after.database).result == Ok::<
                ResultSetView,
                ErrorView,
            >(
                ResultSetView::Scan {
                    columns: db.tables[table_name].column_names(),
                    rows: db.rows_of(table_name).push(values_of(tuple)),
                },
            )
        }),
{
    let table = db.tables[table_name];
    let row = values_of(tuple);
    let values = seq![tuple];
    full_rows_are_kept(table, row);
    let next = db.with_row(table_name, row);
    assert(insert_from(db, table_name, None, values, 0, 1) == insert_from(
        next,
        table_name,
        None,
        values,
        1,
        0,
    ));
}

/// Creating a table, inserting values for all its columns, and scanning it,
/// returns the row of these values and no other: a table that is created
/// holds no row.
pub proof fn create_insert_scan(db: Database, table: TableView, tuple: Seq<ExpressionView>)
    requires
        db.housed(),
        !db.tables.contains_key(table.name),
        tuple.len() == table.columns.len(),
    ensures
        ({
            let created = run(NodeView::CreateTable { schema: table }, db);
            let inserted = run(
                NodeView::Insert { table_name: table.name, columns: None, values: seq![tuple] },
                created.database,
            );
            let scanned = run(NodeView::Scan { table_name: table.name }, inserted.database);
            &&& created.result == Ok::<ResultSetView, ErrorView>(
                ResultSetView::CreateTable { table_name: table.name },
            )
            &&& inserted.result == Ok::<ResultSetView, ErrorView>(
                ResultSetView::Insert { count: 1 },
            )
            &&& scanned.result == Ok::<ResultSetView, ErrorView>(
                ResultSetView::Scan {
                    columns: table.column_names(),
                    rows: seq![values_of(tuple)],
                },
            )
        }),
{
    let created = db.with_table(table);
    assert(db.rows_of(table.name) == Seq::<Seq<ValueView>>::empty());
    assert(created.rows_of(table.name) == db.rows_of(table.name));
    insert_then_scan(created, table.name, tuple);
    assert(Seq::<Seq<ValueView>>::empty().push(values_of(tuple)) =~= seq![values_of(tuple)]);
}

/// A transaction that begins while another one is under way does not see
/// the row that the other one creates, even when the other one has
/// committed; a transaction that begins after the commit sees the rows that
/// were committed before and, behind them, the new one.
pub proof fn uncommitted_rows_are_not_seen(s0: State, name: Seq<char>, row: Seq<ValueView>)
    requires
        sound(s0),
        s0.next + 2 < u64::MAX,
        name_fits(name),
        values_fit(row),
        s0.scannable(rows_prefix(name)),
        committed(s0).tables.contains_key(name),
    ensures
        ({
            let (s1, a) = s0.begin();
            let s2 = s1.write(a, row_key(name, a.version, 0), Some(enc_row(row)));
            let (s3, b) = s2.begin();
            let s4 = s3.commit(a);
            let (s5, c) = s4.begin();
            &&& database(s2, a) == committed(s0).with_row(name, row)
            &&& database(s3, b) == committed(s0)
            &&& database(s4, b) == committed(s0)
            &&& database(s5, c) == committed(s0).with_row(name, row)
        }),
{
    let (s1, a) = s0.begin();
    let key = row_key(name, a.version, 0);
    let s2 = s1.write(a, key, Some(enc_row(row)));
    let (s3, b) = s2.begin();
    let s4 = s3.commit(a);
    let (s5, c) = s4.begin();
    lemma_begin_step(s0);
    assert(under_way(s1, a, 0) && database(s1, a) == committed(s0));
    lemma_row_step(s1, a, name, 0, row);
    assert(under_way(s2, a, 1) && committed(s2) == committed(s0));
    lemma_begin_step(s2);
    assert(under_way(s3, a, 1) && under_way(s3, b, 0) && b.version != a.version);
    assert(database(s3, b) == committed(s0));
    lemma_commit_step(s3, a);
    assert(database(s4, b) == database(s3, b));
    assert(s4.next < u64::MAX);
    lemma_begin_step(s4);
    assert(database(s5, c) == committed(s4));
    lemma_seen_after_commit(s2, s4, a);
}

/// After nothing but the beginning of another transaction and its own
/// commit, what is committed is what the transaction saw.
proof fn lemma_seen_after_commit(s2: State, s4: State, a: Snapshot)
    requires
        s2.wf(),
        s2.admits(a),
        s2.next == a.version + 1,
        s2.next < u64::MAX,
        s4 == s2.begin().0.commit(a),
        forall|v: u64| a.excluded.contains(v) <==> s2.active.contains(v) && v != a.version,
    ensures
        committed(s4) == database(s2, a),
{
    assert(same_versions(s4, newcomer(s4), s2, a)) by {
        assert forall|k: Seq<u8>, v: u64|
            #![trigger s4.has(k, v)]
            #![trigger s2.has(k, v)]
            (s4.has(k, v) && newcomer(s4).sees(v)) == (s2.has(k, v) && a.sees(v)) by {
            if s2.has(k, v) {
                assert(v < s2.next);
            }
        }
    }
    lemma_same_database(s4, newcomer(s4), s2, a);
}

/// A transaction that is rolled back leaves the tables and their rows as
/// they were when it began, whatever it wrote.
pub proof fn rollback_restores_tables(s0: State, made: Seq<(Seq<u8>, Option<Seq<u8>>)>)
    requires
        s0.wf(),
        s0.next < u64::MAX,
    ensures
        committed(write_all(s0.begin().0, s0.begin().1, made).rollback(s0.begin().1))
            == committed(s0),
{
    let (s1, a) = s0.begin();
    let r = write_all(s1, a, made).rollback(a);
    rollback_restores(s0, made, Seq::empty());
    assert(same_versions(r, newcomer(r), s0, newcomer(s0))) by {
        assert forall|k: Seq<u8>, v: u64|
            #![trigger r.has(k, v)]
            #![trigger s0.has(k, v)]
            (r.has(k, v) && newcomer(r).sees(v)) == (s0.has(k, v) && newcomer(s0).sees(v)) by {
            if s0.has(k, v) {
                assert(v < s0.next);
            }
        }
    }
    lemma_same_database(r, newcomer(r), s0, newcomer(s0));
}

} // verus!

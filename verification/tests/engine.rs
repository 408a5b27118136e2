use sqldb::error::{Error, Mismatch, ParseError};
use sqldb::sql::engine::kv::{KVEngine, KVTransaction};
use sqldb::sql::engine::{settle, Engine, Session, Transaction};
use sqldb::sql::executor::{Executor, ResultSet};
use sqldb::sql::parser::Parser;
use sqldb::sql::plan::{Node, Plan};
use sqldb::sql::schema::{Column, Table};
use sqldb::sql::types::{DataType, Row, Value};
use sqldb::storage::engine::Engine as Store;
use sqldb::storage::memory::MemoryEngine;
use sqldb::storage::mvcc::Mvcc;

type Kv = KVEngine<MemoryEngine>;

fn engine() -> Kv {
    KVEngine::new(MemoryEngine::new())
}

fn session() -> Session<Kv> {
    Session::new(engine())
}

fn table(name: &str, columns: &[&str]) -> Table {
    Table {
        name: name.to_string(),
        columns: columns
            .iter()
            .map(|c| Column {
                name: c.to_string(),
                datatype: DataType::Integer,
                nullable: false,
                default: None,
            })
            .collect(),
    }
}

fn ints(list: &[i64]) -> Row {
    list.iter().map(|i| Value::Integer(*i)).collect()
}

fn rows_of(session: &mut Session<Kv>, name: &str) -> Vec<Row> {
    match session.exexutor(&format!("select * from {};", name)).unwrap() {
        ResultSet::Scan { rows, .. } => rows,
        other => panic!("not a scan: {:?}", other),
    }
}

#[test]
fn a_row_that_is_inserted_is_scanned() {
    let mut s = session();
    assert_eq!(
        s.exexutor("create table t (a int, b varchar default 'x', c bool, d float);"),
        Ok(ResultSet::CreateTable {
            table_name: "t".to_string()
        })
    );
    assert_eq!(
        s.exexutor("insert into t values (1, 'y', true, 2.5);"),
        Ok(ResultSet::Insert { count: 1 })
    );
    assert_eq!(
        s.exexutor("select * from t;"),
        Ok(ResultSet::Scan {
            columns: vec![
                "a".to_string(),
                "b".to_string(),
                "c".to_string(),
                "d".to_string()
            ],
            rows: vec![vec![
                Value::Integer(1),
                Value::String("y".to_string()),
                Value::Boolean(true),
                Value::Float("2.5".to_string()),
            ]],
        })
    );
}

#[test]
fn rows_are_scanned_in_the_order_of_their_insertion() {
    let mut s = session();
    s.exexutor("create table t (a int);").unwrap();
    s.exexutor("create table u (a int);").unwrap();
    s.exexutor("insert into t values (3), (1);").unwrap();
    s.exexutor("insert into u values (7);").unwrap();
    s.exexutor("insert into t values (2);").unwrap();
    assert_eq!(rows_of(&mut s, "t"), vec![ints(&[3]), ints(&[1]), ints(&[2])]);
    assert_eq!(rows_of(&mut s, "u"), vec![ints(&[7])]);
}

#[test]
fn insert_with_columns_out_of_order() {
    let mut s = session();
    s.exexutor("create table t (c1 int, c2 int);").unwrap();
    assert_eq!(
        s.exexutor("INSERT INTO t(c2,c1) VALUES (5,9);"),
        Ok(ResultSet::Insert { count: 1 })
    );
    assert_eq!(rows_of(&mut s, "t"), vec![ints(&[9, 5])]);
}

#[test]
fn insert_fills_in_defaults() {
    let mut s = session();
    s.exexutor("create table t (a int default 1, b int, c int default 3);")
        .unwrap();
    s.exexutor("INSERT INTO t(b) VALUES (2);").unwrap();
    assert_eq!(rows_of(&mut s, "t"), vec![ints(&[1, 2, 3])]);
    // by position, only columns behind the values are filled in
    s.exexutor("insert into t values (10, 20);").unwrap();
    assert_eq!(
        rows_of(&mut s, "t"),
        vec![ints(&[1, 2, 3]), ints(&[10, 20, 3])]
    );
    assert_eq!(
        s.exexutor("insert into t values (NULL);"),
        Err(Error::Internal(Mismatch::MissingDefault("b".to_string())))
    );
}

#[test]
fn insert_without_a_value_for_a_column_fails() {
    let mut s = session();
    s.exexutor("create table t (a int, b int not null);").unwrap();
    assert_eq!(
        s.exexutor("insert into t (a) values (1);"),
        Err(Error::Internal(Mismatch::MissingValue("b".to_string())))
    );
    assert_eq!(rows_of(&mut s, "t"), Vec::<Row>::new());
}

#[test]
fn a_failed_statement_leaves_nothing_behind() {
    let mut s = session();
    s.exexutor("create table t (a int, b int);").unwrap();
    // the second tuple makes no row: the first one is not kept
    assert_eq!(
        s.exexutor("insert into t values (1, 2), (3, 4, 5);"),
        Err(Error::Internal(Mismatch::TooManyValues))
    );
    assert_eq!(rows_of(&mut s, "t"), Vec::<Row>::new());
    assert_eq!(
        s.exexutor("insert into t (a) values (1, 2);"),
        Err(Error::Internal(Mismatch::ColumnCountMismatch))
    );
    // and the session goes on
    assert_eq!(
        s.exexutor("insert into t values (1, 2), (3, 4);"),
        Ok(ResultSet::Insert { count: 2 })
    );
    assert_eq!(rows_of(&mut s, "t"), vec![ints(&[1, 2]), ints(&[3, 4])]);
}

#[test]
fn tables_must_exist_and_be_created_once() {
    let mut s = session();
    assert_eq!(
        s.exexutor("select * from t;"),
        Err(Error::NotFound("t".to_string()))
    );
    assert_eq!(
        s.exexutor("insert into t values (1);"),
        Err(Error::NotFound("t".to_string()))
    );
    s.exexutor("create table t (a int);").unwrap();
    assert_eq!(
        s.exexutor("create table t (b int);"),
        Err(Error::Internal(Mismatch::TableExists("t".to_string())))
    );
    assert_eq!(
        s.exexutor("select * from t;"),
        Ok(ResultSet::Scan {
            columns: vec!["a".to_string()],
            rows: vec![],
        })
    );
}

#[test]
fn a_text_that_is_no_statement_touches_nothing() {
    let mut s = session();
    assert_eq!(
        s.exexutor("create table t (a int)"),
        Err(Error::Parse(ParseError::UnexpectedEnd))
    );
    assert_eq!(
        s.exexutor("select * from t;"),
        Err(Error::NotFound("t".to_string()))
    );
}

#[test]
fn a_transaction_does_not_see_what_is_not_committed() {
    let mut e = engine();
    let mut setup = e.begin().unwrap();
    setup.create_table(&mut e, table("t", &["a"])).unwrap();
    setup.commit(&mut e).unwrap();

    let mut a = e.begin().unwrap();
    a.create_row(&mut e, "t", ints(&[1])).unwrap();
    // a transaction that begins before the commit does not see the row
    let b = e.begin().unwrap();
    assert_eq!(b.scan_table(&e, "t"), Ok(vec![]));
    assert_eq!(a.scan_table(&e, "t"), Ok(vec![ints(&[1])]));
    a.commit(&mut e).unwrap();
    // not even after the commit
    assert_eq!(b.scan_table(&e, "t"), Ok(vec![]));
    // one that begins after the commit does
    let c = e.begin().unwrap();
    assert_eq!(c.scan_table(&e, "t"), Ok(vec![ints(&[1])]));
}

#[test]
fn of_two_writers_of_one_table_the_later_fails() {
    let mut e = engine();
    let mut a = e.begin().unwrap();
    let mut b = e.begin().unwrap();
    a.create_table(&mut e, table("t", &["a"])).unwrap();
    assert_eq!(
        b.create_table(&mut e, table("t", &["b"])),
        Err(Error::Conflict)
    );
    a.commit(&mut e).unwrap();
    assert_eq!(
        b.create_table(&mut e, table("t", &["b"])),
        Err(Error::Conflict)
    );
    assert_eq!(b.get_table(&e, "t"), None);
    // rows never collide
    let mut c = e.begin().unwrap();
    let mut d = e.begin().unwrap();
    c.create_row(&mut e, "t", ints(&[1])).unwrap();
    d.create_row(&mut e, "t", ints(&[2])).unwrap();
    c.create_row(&mut e, "t", ints(&[3])).unwrap();
    c.commit(&mut e).unwrap();
    d.commit(&mut e).unwrap();
    let r = e.begin().unwrap();
    assert_eq!(
        r.scan_table(&e, "t"),
        Ok(vec![ints(&[1]), ints(&[3]), ints(&[2])])
    );
}

#[test]
fn a_rollback_leaves_the_table_as_it_was() {
    let mut e = engine();
    let mut setup = e.begin().unwrap();
    setup.create_table(&mut e, table("t", &["a"])).unwrap();
    setup.create_row(&mut e, "t", ints(&[1])).unwrap();
    setup.commit(&mut e).unwrap();

    let before = e.begin().unwrap();
    let seen = before.scan_table(&e, "t");
    before.commit(&mut e).unwrap();

    let mut a = e.begin().unwrap();
    a.create_row(&mut e, "t", ints(&[2])).unwrap();
    a.create_row(&mut e, "t", ints(&[3])).unwrap();
    a.create_table(&mut e, table("u", &["x"])).unwrap();
    a.rollback(&mut e).unwrap();

    let after = e.begin().unwrap();
    assert_eq!(after.scan_table(&e, "t"), seen);
    assert_eq!(after.scan_table(&e, "t"), Ok(vec![ints(&[1])]));
    assert_eq!(after.get_table(&e, "u"), None);
    assert_eq!(
        after.scan_table(&e, "u"),
        Err(Error::NotFound("u".to_string()))
    );
}

#[test]
fn the_steps_of_a_transaction() {
    let mut e = engine();
    let mut t = e.begin().unwrap();
    assert_eq!(t.get_table(&e, "t"), None);
    assert_eq!(
        t.must_get_table(&e, "t"),
        Err(Error::NotFound("t".to_string()))
    );
    assert_eq!(
        t.create_row(&mut e, "t", ints(&[1])),
        Err(Error::NotFound("t".to_string()))
    );
    t.create_table(&mut e, table("t", &["a", "b"])).unwrap();
    assert_eq!(t.get_table(&e, "t"), Some(table("t", &["a", "b"])));
    assert_eq!(t.must_get_table(&e, "t"), Ok(table("t", &["a", "b"])));
    assert_eq!(
        t.create_table(&mut e, table("t", &["a"])),
        Err(Error::Internal(Mismatch::TableExists("t".to_string())))
    );
    // a table whose name begins like another's is another table
    t.create_table(&mut e, table("tt", &["a"])).unwrap();
    t.create_row(&mut e, "tt", ints(&[5])).unwrap();
    t.create_row(&mut e, "t", ints(&[1, 2])).unwrap();
    assert_eq!(t.scan_table(&e, "t"), Ok(vec![ints(&[1, 2])]));
    assert_eq!(t.scan_table(&e, "tt"), Ok(vec![ints(&[5])]));
}

#[test]
fn operators_are_built_by_the_kind_of_node() {
    let mut e = engine();
    let mut t = e.begin().unwrap();
    let create = <dyn Executor<Kv>>::build(Node::CreateTable {
        schema: table("t", &["a"]),
    });
    assert_eq!(
        create.executor(&mut e, &mut t),
        Ok(ResultSet::CreateTable {
            table_name: "t".to_string()
        })
    );
    let insert = Plan::build(Parser::new("insert into t values (4), (5);").parse().unwrap());
    assert_eq!(
        insert.executor(&mut e, &mut t),
        Ok(ResultSet::Insert { count: 2 })
    );
    let scan = <dyn Executor<Kv>>::build(Node::Scan {
        table_name: "t".to_string(),
    });
    assert_eq!(
        scan.executor(&mut e, &mut t),
        Ok(ResultSet::Scan {
            columns: vec!["a".to_string()],
            rows: vec![ints(&[4]), ints(&[5])],
        })
    );
}

#[test]
fn a_transaction_is_made_of_one_of_the_layer_below() {
    let mut m = Mvcc::new(MemoryEngine::new());
    let raw = m.begin().unwrap();
    assert_eq!(raw.version(), 1);
    let _t: KVTransaction<MemoryEngine> = KVTransaction::new(raw);
}

#[test]
fn a_name_that_the_table_does_not_have_is_refused() {
    let mut s = session();
    s.exexutor("create table t (a int default 1);").unwrap();
    assert_eq!(
        s.exexutor("insert into t (x) values (5);"),
        Err(Error::Internal(Mismatch::UnknownColumn("x".to_string())))
    );
    assert_eq!(
        s.exexutor("insert into t (a, x) values (5, 6), (7, 8);"),
        Err(Error::Internal(Mismatch::UnknownColumn("x".to_string())))
    );
    assert_eq!(rows_of(&mut s, "t"), Vec::<Row>::new());
}

#[test]
fn a_new_table_is_empty() {
    let mut s = session();
    s.exexutor("create table t (a int, b int default 7);").unwrap();
    assert_eq!(rows_of(&mut s, "t"), Vec::<Row>::new());
    s.exexutor("insert into t values (1, 2);").unwrap();
    assert_eq!(
        s.exexutor("select * from t;"),
        Ok(ResultSet::Scan {
            columns: vec!["a".to_string(), "b".to_string()],
            rows: vec![ints(&[1, 2])],
        })
    );
}

#[test]
fn an_engine_on_a_store_that_was_worked_on() {
    // a store on which four transactions have begun and ended
    let mut store = MemoryEngine::new();
    store.set(vec![0u8], vec![0, 0, 0, 0, 0, 0, 0, 5]);
    let mut e = KVEngine::new(store);
    let mut t = e.begin().unwrap();
    t.create_table(&mut e, table("t", &["a"])).unwrap();
    t.create_row(&mut e, "t", ints(&[1])).unwrap();
    t.commit(&mut e).unwrap();
    let u = e.begin().unwrap();
    assert_eq!(u.scan_table(&e, "t"), Ok(vec![ints(&[1])]));
    assert_eq!(u.rollback(&mut e), Ok(()));
}

#[test]
fn the_failure_to_end_a_transaction_is_what_is_returned() {
    let done = Ok(ResultSet::Insert { count: 2 });
    assert_eq!(settle(done, Ok(())), Ok(ResultSet::Insert { count: 2 }));
    assert_eq!(
        settle(Ok(ResultSet::Insert { count: 2 }), Err(Error::Conflict)),
        Err(Error::Conflict)
    );
    assert_eq!(
        settle(Err(Error::NotFound("t".to_string())), Ok(())),
        Err(Error::NotFound("t".to_string()))
    );
    assert_eq!(
        settle(Err(Error::NotFound("t".to_string())), Err(Error::Conflict)),
        Err(Error::Conflict)
    );
}

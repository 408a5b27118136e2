use sqldb::error::{Error, Mismatch};
use sqldb::sql::executor::mutation::{make_row, pad_row};
use sqldb::sql::parser::ast::{Consts, Expression, Statement};
use sqldb::sql::parser::Parser;
use sqldb::sql::plan::{Node, Plan};
use sqldb::sql::schema::{Column, Table};
use sqldb::sql::types::{clone_row, DataType, Value};

fn column(name: &str, default: Option<Value>) -> Column {
    Column {
        name: name.to_string(),
        datatype: DataType::Integer,
        nullable: false,
        default,
    }
}

fn table(columns: Vec<Column>) -> Table {
    Table {
        name: "t".to_string(),
        columns,
    }
}

fn names(list: &[&str]) -> Vec<String> {
    list.iter().map(|s| s.to_string()).collect()
}

fn ints(list: &[i64]) -> Vec<Value> {
    list.iter().map(|i| Value::Integer(*i)).collect()
}

#[test]
fn columns_given_out_of_order_are_put_in_order() {
    let t = table(vec![column("c1", None), column("c2", None)]);
    assert_eq!(
        make_row(&t, &names(&["c2", "c1"]), &ints(&[5, 9])),
        Ok(ints(&[9, 5]))
    );
}

#[test]
fn missing_columns_get_their_defaults() {
    let t = table(vec![
        column("a", Some(Value::Integer(1))),
        column("b", None),
        column("c", Some(Value::Integer(3))),
    ]);
    assert_eq!(make_row(&t, &names(&["b"]), &ints(&[2])), Ok(ints(&[1, 2, 3])));
    // a value that is given wins over the default
    assert_eq!(
        make_row(&t, &names(&["c", "b"]), &ints(&[30, 2])),
        Ok(ints(&[1, 2, 30]))
    );
}

#[test]
fn a_column_without_value_and_default_fails() {
    let t = table(vec![column("a", None), column("b", None)]);
    assert_eq!(
        make_row(&t, &names(&["a"]), &ints(&[1])),
        Err(Error::Internal(Mismatch::MissingValue("b".to_string())))
    );
    // the first such column is named
    assert_eq!(
        make_row(&t, &names(&[]), &ints(&[])),
        Err(Error::Internal(Mismatch::MissingValue("a".to_string())))
    );
}

#[test]
fn names_and_values_must_pair_up() {
    let t = table(vec![column("a", None), column("b", None)]);
    assert_eq!(
        make_row(&t, &names(&["a", "b"]), &ints(&[1])),
        Err(Error::Internal(Mismatch::ColumnCountMismatch))
    );
    assert_eq!(
        make_row(&t, &names(&["a"]), &ints(&[1, 2])),
        Err(Error::Internal(Mismatch::ColumnCountMismatch))
    );
}

#[test]
fn the_last_pairing_of_a_name_counts() {
    let t = table(vec![column("a", None)]);
    assert_eq!(
        make_row(&t, &names(&["a", "a"]), &ints(&[1, 2])),
        Ok(ints(&[2]))
    );
}

#[test]
fn a_name_that_is_no_column_is_refused() {
    let t = table(vec![column("a", Some(Value::Integer(1)))]);
    assert_eq!(
        make_row(&t, &names(&["x"]), &ints(&[5])),
        Err(Error::Internal(Mismatch::UnknownColumn("x".to_string())))
    );
    // the first such name is named
    assert_eq!(
        make_row(&t, &names(&["a", "zz", "y"]), &ints(&[7, 8, 9])),
        Err(Error::Internal(Mismatch::UnknownColumn("zz".to_string())))
    );
    // the lengths are held against each other first
    assert_eq!(
        make_row(&t, &names(&["x"]), &ints(&[5, 6])),
        Err(Error::Internal(Mismatch::ColumnCountMismatch))
    );
    // and a name that is no column comes before a column without a value
    let two = table(vec![column("a", None), column("b", None)]);
    assert_eq!(
        make_row(&two, &names(&["x"]), &ints(&[5])),
        Err(Error::Internal(Mismatch::UnknownColumn("x".to_string())))
    );
}

#[test]
fn values_by_position_are_padded_with_defaults() {
    let t = table(vec![
        column("a", None),
        column("b", Some(Value::Integer(20))),
        column("c", Some(Value::Null)),
    ]);
    assert_eq!(
        pad_row(&t, &ints(&[1])),
        Ok(vec![Value::Integer(1), Value::Integer(20), Value::Null])
    );
    assert_eq!(pad_row(&t, &ints(&[1, 2, 3])), Ok(ints(&[1, 2, 3])));
    assert_eq!(
        pad_row(&t, &ints(&[])),
        Err(Error::Internal(Mismatch::MissingDefault("a".to_string())))
    );
}

#[test]
fn padding_needs_a_default_for_each_column_left() {
    let t = table(vec![
        column("a", None),
        column("b", Some(Value::Integer(2))),
        column("c", None),
    ]);
    assert_eq!(
        pad_row(&t, &ints(&[1])),
        Err(Error::Internal(Mismatch::MissingDefault("c".to_string())))
    );
}

#[test]
fn more_values_than_columns_are_refused() {
    let t = table(vec![column("a", None)]);
    assert_eq!(
        pad_row(&t, &ints(&[1, 2])),
        Err(Error::Internal(Mismatch::TooManyValues))
    );
    let none = table(vec![]);
    assert_eq!(pad_row(&none, &ints(&[])), Ok(vec![]));
}

#[test]
fn a_row_has_as_many_values_as_its_table_has_columns() {
    let t = table(vec![
        column("a", Some(Value::Integer(1))),
        column("b", Some(Value::Integer(2))),
        column("c", Some(Value::Integer(3))),
    ]);
    for given in 0..=3usize {
        let row = ints(&vec![9; given]);
        assert_eq!(pad_row(&t, &row).unwrap().len(), 3);
    }
    assert_eq!(make_row(&t, &names(&["b"]), &ints(&[0])).unwrap().len(), 3);
    assert_eq!(clone_row(&ints(&[4, 5])), ints(&[4, 5]));
}

#[test]
fn values_of_expressions() {
    assert_eq!(
        Value::from_expression(Expression::Consts(Consts::Null)),
        Value::Null
    );
    assert_eq!(
        Value::from_expression(Expression::Consts(Consts::Boolean(true))),
        Value::Boolean(true)
    );
    assert_eq!(
        Value::from_expression(Expression::Consts(Consts::Integer(-3))),
        Value::Integer(-3)
    );
    assert_eq!(
        Value::from_expression(Expression::Consts(Consts::Float("1.5".to_string()))),
        Value::Float("1.5".to_string())
    );
    assert_eq!(
        Value::from_expression(Expression::Consts(Consts::String("s".to_string()))),
        Value::String("s".to_string())
    );
    assert_eq!(
        Expression::from(Consts::Integer(1)),
        Expression::Consts(Consts::Integer(1))
    );
}

#[test]
fn a_plan_is_the_statement_as_it_stands() {
    let stmt = Parser::new("create table t (a int, b text null default 'x', c bool not null);")
        .parse()
        .unwrap();
    assert_eq!(
        Plan::build(stmt),
        Plan(Node::CreateTable {
            schema: Table {
                name: "t".to_string(),
                columns: vec![
                    Column {
                        name: "a".to_string(),
                        datatype: DataType::Integer,
                        nullable: false,
                        default: None,
                    },
                    Column {
                        name: "b".to_string(),
                        datatype: DataType::String,
                        nullable: true,
                        default: Some(Value::String("x".to_string())),
                    },
                    Column {
                        name: "c".to_string(),
                        datatype: DataType::Boolean,
                        nullable: false,
                        default: None,
                    },
                ],
            }
        })
    );
    assert_eq!(
        Plan::build(Statement::Select {
            table_name: "t".to_string()
        }),
        Plan(Node::Scan {
            table_name: "t".to_string()
        })
    );
    let insert = Parser::new("insert into t (b) values (1), (2);")
        .parse()
        .unwrap();
    assert_eq!(
        Plan::build(insert),
        Plan(Node::Insert {
            table_name: "t".to_string(),
            columns: Some(vec!["b".to_string()]),
            values: vec![
                vec![Expression::Consts(Consts::Integer(1))],
                vec![Expression::Consts(Consts::Integer(2))],
            ],
        })
    );
}

use sqldb::sql::codec::{read_row, read_table, write_row, write_table};
use sqldb::sql::schema::{Column, Table};
use sqldb::sql::types::{DataType, Value};

#[test]
fn a_row_is_read_back() {
    let row = vec![
        Value::Null,
        Value::Boolean(true),
        Value::Boolean(false),
        Value::Integer(0),
        Value::Integer(-1),
        Value::Integer(i64::MIN),
        Value::Integer(i64::MAX),
        Value::Float("3.25".to_string()),
        Value::String("".to_string()),
        Value::String("grüße, 世界".to_string()),
    ];
    let bytes = write_row(&row);
    assert_eq!(read_row(&bytes), Some(row));
    assert_eq!(read_row(&write_row(&vec![])), Some(vec![]));
}

#[test]
fn an_integer_takes_nine_bytes() {
    let bytes = write_row(&vec![Value::Integer(1)]);
    assert_eq!(
        bytes,
        vec![0, 0, 0, 0, 0, 0, 0, 1, 2, 0x80, 0, 0, 0, 0, 0, 0, 1]
    );
    let text = write_row(&vec![Value::String("ab".to_string())]);
    assert_eq!(
        text,
        vec![0, 0, 0, 0, 0, 0, 0, 1, 4, 0, 0, 0, 0, 0, 0, 0, 2, b'a', b'b']
    );
}

#[test]
fn bytes_that_spell_no_row_are_refused() {
    assert_eq!(read_row(&vec![]), None);
    assert_eq!(read_row(&vec![0, 0, 0, 0, 0, 0, 0]), None);
    // a value is missing
    assert_eq!(read_row(&vec![0, 0, 0, 0, 0, 0, 0, 1]), None);
    // an unknown kind of value
    assert_eq!(read_row(&vec![0, 0, 0, 0, 0, 0, 0, 1, 9]), None);
    // something behind the row
    assert_eq!(read_row(&vec![0, 0, 0, 0, 0, 0, 0, 1, 0, 0]), None);
    // a flag that is neither 0 nor 1
    assert_eq!(read_row(&vec![0, 0, 0, 0, 0, 0, 0, 1, 1, 2]), None);
    // a text that is no UTF-8
    assert_eq!(
        read_row(&vec![0, 0, 0, 0, 0, 0, 0, 1, 4, 0, 0, 0, 0, 0, 0, 0, 1, 0xff]),
        None
    );
    // a text that is longer than the bytes
    assert_eq!(
        read_row(&vec![0, 0, 0, 0, 0, 0, 0, 1, 4, 255, 255, 255, 255, 255, 255, 255, 255, b'a']),
        None
    );
}

#[test]
fn a_table_is_read_back() {
    let table = Table {
        name: "orders".to_string(),
        columns: vec![
            Column {
                name: "id".to_string(),
                datatype: DataType::Integer,
                nullable: false,
                default: None,
            },
            Column {
                name: "note".to_string(),
                datatype: DataType::String,
                nullable: true,
                default: Some(Value::String("none".to_string())),
            },
            Column {
                name: "price".to_string(),
                datatype: DataType::Float,
                nullable: true,
                default: Some(Value::Null),
            },
            Column {
                name: "paid".to_string(),
                datatype: DataType::Boolean,
                nullable: false,
                default: Some(Value::Boolean(false)),
            },
        ],
    };
    let bytes = write_table(&table);
    assert_eq!(read_table(&bytes), Some(table));
    let empty = Table {
        name: "".to_string(),
        columns: vec![],
    };
    assert_eq!(read_table(&write_table(&empty)), Some(empty));
    assert_eq!(read_table(&vec![1, 2, 3]), None);
    let mut longer = bytes.clone();
    longer.push(0);
    assert_eq!(read_table(&longer), None);
}

use sqldb::error::{Error, ParseError};
use sqldb::sql::parser::ast::{Column, Consts, Expression, Statement};
use sqldb::sql::parser::lexer::{tokenize, Keyword, Token};
use sqldb::sql::parser::Parser;
use sqldb::sql::types::DataType;

#[test]
fn test_parser_create_table() -> Result<(), Error> {
    let sql1 = "
            create table tbl1 (
                a int default 100,
                b float not null,
                c varchar null,
                d bool default true
            );
        ";
    let stmt1 = Parser::new(sql1).parse()?;

    let sql2 = "
        create            table tbl1 (
            a int default     100,
            b float not null     ,
            c varchar      null,
            d       bool default        true
        );
        ";
    let stmt2 = Parser::new(sql2).parse()?;
    assert_eq!(stmt1, stmt2);

    let sql3 = "
            create            table tbl1 (
            a int default     100,
            b float not null     ,
            c varchar      null,
            d       bool default        true
        )
        ";

    let stmt3 = Parser::new(sql3).parse();
    assert!(stmt3.is_err());
    Ok(())
}

#[test]
fn test_parser_insert() -> Result<(), Error> {
    let sql1 = "insert into tbl1 values (1, 2, 3, 'a', true);";
    let stmt1 = Parser::new(sql1).parse()?;
    assert_eq!(
        stmt1,
        Statement::Insert {
            table_name: "tbl1".to_string(),
            columns: None,
            values: vec![vec![
                Consts::Integer(1).into(),
                Consts::Integer(2).into(),
                Consts::Integer(3).into(),
                Consts::String("a".to_string()).into(),
                Consts::Boolean(true).into(),
            ]],
        }
    );

    let sql2 = "insert into tbl2 (c1, c2, c3) values (3, 'a', true),(4, 'b', false);";
    let stmt2 = Parser::new(sql2).parse()?;
    assert_eq!(
        stmt2,
        Statement::Insert {
            table_name: "tbl2".to_string(),
            columns: Some(vec!["c1".to_string(), "c2".to_string(), "c3".to_string()]),
            values: vec![
                vec![
                    Consts::Integer(3).into(),
                    Consts::String("a".to_string()).into(),
                    Consts::Boolean(true).into(),
                ],
                vec![
                    Consts::Integer(4).into(),
                    Consts::String("b".to_string()).into(),
                    Consts::Boolean(false).into(),
                ],
            ],
        }
    );

    Ok(())
}

#[test]
fn test_parser_select() -> Result<(), Error> {
    let sql = "select * from tbl1;";
    let stmt = Parser::new(sql).parse()?;
    assert_eq!(
        stmt,
        Statement::Select {
            table_name: "tbl1".to_string()
        }
    );
    Ok(())
}

#[test]
fn create_table_columns_are_read_in_full() {
    let stmt = Parser::new("CREATE TABLE T (a INT DEFAULT 100, b FLOAT NOT NULL, c VARCHAR NULL, d BOOL DEFAULT TRUE);")
        .parse()
        .unwrap();
    assert_eq!(
        stmt,
        Statement::CreateTable {
            name: "t".to_string(),
            columns: vec![
                Column {
                    name: "a".to_string(),
                    datatype: DataType::Integer,
                    nullable: None,
                    default: Some(Expression::Consts(Consts::Integer(100))),
                },
                Column {
                    name: "b".to_string(),
                    datatype: DataType::Float,
                    nullable: Some(false),
                    default: None,
                },
                Column {
                    name: "c".to_string(),
                    datatype: DataType::String,
                    nullable: Some(true),
                    default: None,
                },
                Column {
                    name: "d".to_string(),
                    datatype: DataType::Boolean,
                    nullable: None,
                    default: Some(Expression::Consts(Consts::Boolean(true))),
                },
            ],
        }
    );
}

#[test]
fn keywords_are_read_in_any_case() {
    let lower = Parser::new("select * from tbl1;").parse().unwrap();
    let upper = Parser::new("SELECT * FROM TBL1;").parse().unwrap();
    let mixed = Parser::new("  SeLeCt\t*\nFrOm   tbl1  ;  ").parse().unwrap();
    assert_eq!(lower, upper);
    assert_eq!(lower, mixed);
    assert_eq!(Keyword::from_str("vArChAr"), Some(Keyword::Varchar));
    assert_eq!(Keyword::from_str("varchars"), None);
    assert_eq!(Keyword::Primary.to_str(), "PRIMARY");
}

#[test]
fn missing_semicolon_is_refused() {
    assert_eq!(
        Parser::new("select * from tbl1").parse(),
        Err(Error::Parse(ParseError::UnexpectedEnd))
    );
}

#[test]
fn tokens_after_the_semicolon_are_refused() {
    assert_eq!(
        Parser::new("select * from tbl1; select").parse(),
        Err(Error::Parse(ParseError::UnexpectedToken(Token::Keyword(
            Keyword::Select
        ))))
    );
    assert_eq!(
        Parser::new("select * from tbl1;;").parse(),
        Err(Error::Parse(ParseError::UnexpectedToken(Token::Semicolon)))
    );
}

#[test]
fn unknown_leading_keyword_is_refused() {
    assert_eq!(
        Parser::new("table t;").parse(),
        Err(Error::Parse(ParseError::UnexpectedToken(Token::Keyword(
            Keyword::Table
        ))))
    );
    assert_eq!(
        Parser::new("").parse(),
        Err(Error::Parse(ParseError::UnexpectedEnd))
    );
    assert_eq!(
        Parser::new("create index;").parse(),
        Err(Error::Parse(ParseError::UnexpectedToken(Token::Ident(
            "index".to_string()
        ))))
    );
}

#[test]
fn malformed_lists_are_refused() {
    assert_eq!(
        Parser::new("insert into t (a b) values (1);").parse(),
        Err(Error::Parse(ParseError::UnexpectedToken(Token::Ident(
            "b".to_string()
        ))))
    );
    assert_eq!(
        Parser::new("insert into t values (1, 2;").parse(),
        Err(Error::Parse(ParseError::UnexpectedToken(Token::Semicolon)))
    );
    assert_eq!(
        Parser::new("create table t (a int;").parse(),
        Err(Error::Parse(ParseError::Expected {
            expect: Token::CloseParen,
            got: Token::Semicolon
        }))
    );
    assert_eq!(
        Parser::new("insert into 5 values (1);").parse(),
        Err(Error::Parse(ParseError::ExpectedIdent(Token::Number(
            "5".to_string()
        ))))
    );
}

#[test]
fn unknown_datatype_and_literal_are_refused() {
    assert_eq!(
        Parser::new("create table t (a table);").parse(),
        Err(Error::Parse(ParseError::UnexpectedToken(Token::Keyword(
            Keyword::Table
        ))))
    );
    assert_eq!(
        Parser::new("insert into t values (into);").parse(),
        Err(Error::Parse(ParseError::UnexpectedExpressionToken(
            Token::Keyword(Keyword::Into)
        )))
    );
}

#[test]
fn not_must_be_followed_by_null() {
    assert_eq!(
        Parser::new("create table t (a int not default 1);").parse(),
        Err(Error::Parse(ParseError::Expected {
            expect: Token::Keyword(Keyword::Null),
            got: Token::Keyword(Keyword::Default)
        }))
    );
    assert_eq!(
        Parser::new("create table t (a int primary key);").parse(),
        Err(Error::Parse(ParseError::UnexpectedKeyword(Keyword::Primary)))
    );
}

#[test]
fn numbers_are_integers_or_decimal_text() {
    assert_eq!(
        Parser::new("insert into t values (9223372036854775807, 0012, 3.25, 7.);").parse(),
        Ok(Statement::Insert {
            table_name: "t".to_string(),
            columns: None,
            values: vec![vec![
                Expression::Consts(Consts::Integer(i64::MAX)),
                Expression::Consts(Consts::Integer(12)),
                Expression::Consts(Consts::Float("3.25".to_string())),
                Expression::Consts(Consts::Float("7.".to_string())),
            ]],
        })
    );
    assert_eq!(
        Parser::new("insert into t values (9223372036854775808);").parse(),
        Err(Error::Parse(ParseError::InvalidInteger(
            "9223372036854775808".to_string()
        )))
    );
}

#[test]
fn lexical_faults_surface_where_the_parser_reaches_them() {
    assert_eq!(
        Parser::new("select * from t; @").parse(),
        Err(Error::Parse(ParseError::UnexpectedCharacter('@')))
    );
    assert_eq!(
        Parser::new("insert into t values ('abc);").parse(),
        Err(Error::Parse(ParseError::UnterminatedString))
    );
    // a syntax error before the fault wins
    assert_eq!(
        Parser::new("select from t @").parse(),
        Err(Error::Parse(ParseError::Expected {
            expect: Token::Asterisk,
            got: Token::Keyword(Keyword::From)
        }))
    );
}

#[test]
fn tokens_of_a_text() {
    let stream = tokenize("Insert INTO Tbl_1(a)\nvalues ('It s', 1.5, -2)*/+;");
    assert_eq!(stream.fault, None);
    assert_eq!(
        stream.tokens,
        vec![
            Token::Keyword(Keyword::Insert),
            Token::Keyword(Keyword::Into),
            Token::Ident("tbl_1".to_string()),
            Token::OpenParen,
            Token::Ident("a".to_string()),
            Token::CloseParen,
            Token::Keyword(Keyword::Values),
            Token::OpenParen,
            Token::String("It s".to_string()),
            Token::Comma,
            Token::Number("1.5".to_string()),
            Token::Comma,
            Token::Minus,
            Token::Number("2".to_string()),
            Token::CloseParen,
            Token::Asterisk,
            Token::Slash,
            Token::Plus,
            Token::Semicolon,
        ]
    );
    let broken = tokenize("a ? b");
    assert_eq!(broken.tokens, vec![Token::Ident("a".to_string())]);
    assert_eq!(broken.fault, Some(ParseError::UnexpectedCharacter('?')));
}

#[test]
fn a_parser_goes_on_where_it_stopped() {
    // a token that begins no statement is left unread
    let mut p = Parser::new("table select * from t;");
    assert_eq!(
        p.parse(),
        Err(Error::Parse(ParseError::UnexpectedToken(Token::Keyword(
            Keyword::Table
        ))))
    );
    assert_eq!(
        p.parse(),
        Err(Error::Parse(ParseError::UnexpectedToken(Token::Keyword(
            Keyword::Table
        ))))
    );
    // a token that is refused where another one is expected is read
    let mut q = Parser::new("select x select * from t;");
    assert_eq!(
        q.parse(),
        Err(Error::Parse(ParseError::Expected {
            expect: Token::Asterisk,
            got: Token::Ident("x".to_string())
        }))
    );
    assert_eq!(
        q.parse(),
        Ok(Statement::Select {
            table_name: "t".to_string()
        })
    );
    // so is a token that is no literal
    let mut r = Parser::new("insert into t values (into select * from u;");
    assert_eq!(
        r.parse(),
        Err(Error::Parse(ParseError::UnexpectedExpressionToken(
            Token::Keyword(Keyword::Into)
        )))
    );
    assert_eq!(
        r.parse(),
        Ok(Statement::Select {
            table_name: "u".to_string()
        })
    );
    // after a statement the parser stands at the end
    let mut done = Parser::new("select * from t;");
    assert!(done.parse().is_ok());
    assert_eq!(
        done.parse(),
        Err(Error::Parse(ParseError::UnexpectedEnd))
    );
}

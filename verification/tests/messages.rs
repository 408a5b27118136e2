use sqldb::error::{Error, Mismatch, ParseError};
use sqldb::sql::parser::lexer::{Keyword, Token};
use sqldb::sql::parser::Parser;

#[test]
fn tokens_as_they_are_written() {
    assert_eq!(Token::Keyword(Keyword::Create).text(), "CREATE");
    assert_eq!(Token::Ident("tbl".to_string()).text(), "tbl");
    assert_eq!(Token::String("it is".to_string()).text(), "it is");
    assert_eq!(Token::Number("1.5".to_string()).text(), "1.5");
    assert_eq!(Token::OpenParen.text(), "(");
    assert_eq!(Token::CloseParen.text(), ")");
    assert_eq!(Token::Comma.text(), ",");
    assert_eq!(Token::Semicolon.text(), ";");
    assert_eq!(Token::Asterisk.text(), "*");
    assert_eq!(Token::Plus.text(), "+");
    assert_eq!(Token::Minus.text(), "-");
    assert_eq!(Token::Slash.text(), "/");
    assert!(Token::Comma.same(&Token::Comma));
    assert!(!Token::Comma.same(&Token::Semicolon));
    assert!(Token::Ident("a".to_string()).same(&Token::Ident("a".to_string())));
    assert!(!Token::Ident("a".to_string()).same(&Token::String("a".to_string())));
    assert_eq!(Token::Number("1".to_string()).clone(), Token::Number("1".to_string()));
}

#[test]
fn parse_errors_in_words() {
    assert_eq!(
        ParseError::UnexpectedCharacter('@').message(),
        "[Lexer] Unexpected character @"
    );
    assert_eq!(
        ParseError::UnterminatedString.message(),
        "[Lexer] Unexpected end of string"
    );
    assert_eq!(
        ParseError::UnexpectedEnd.message(),
        "[Parser] Unexpected end of input"
    );
    assert_eq!(
        ParseError::UnexpectedToken(Token::Semicolon).message(),
        "[Parser] Unexpected token ;"
    );
    assert_eq!(
        ParseError::ExpectedIdent(Token::Number("5".to_string())).message(),
        "[Parser] Expected ident, got token 5"
    );
    assert_eq!(
        ParseError::Expected {
            expect: Token::Keyword(Keyword::Null),
            got: Token::Keyword(Keyword::Default)
        }
        .message(),
        "[Parser] Expected token NULL, got DEFAULT"
    );
    assert_eq!(
        ParseError::UnexpectedKeyword(Keyword::Primary).message(),
        "[Parser] Unexpected keyword PRIMARY"
    );
    assert_eq!(
        ParseError::UnexpectedExpressionToken(Token::Ident("x".to_string())).message(),
        "[Parser] Unexpected expression token x"
    );
    assert_eq!(
        ParseError::InvalidInteger("99999999999999999999".to_string()).message(),
        "[Parser] Invalid integer 99999999999999999999"
    );
}

#[test]
fn errors_in_words() {
    assert_eq!(
        Error::Internal(Mismatch::TableExists("t".to_string())).message(),
        "Table t already exists"
    );
    assert_eq!(
        Error::Internal(Mismatch::TooManyValues).message(),
        "More values than columns"
    );
    assert_eq!(
        Error::Internal(Mismatch::ColumnCountMismatch).message(),
        "columns and values num mismatch"
    );
    assert_eq!(
        Error::Internal(Mismatch::UnknownColumn("x".to_string())).message(),
        "No column x in the table"
    );
    assert_eq!(
        Error::Internal(Mismatch::MissingDefault("b".to_string())).message(),
        "No default value for column b"
    );
    assert_eq!(
        Error::Internal(Mismatch::MissingValue("b".to_string())).message(),
        "No value given for the column b"
    );
    assert_eq!(
        Error::Internal(Mismatch::Exhausted).message(),
        "No identifier is left"
    );
    assert_eq!(
        Error::Conflict.message(),
        "Write conflict, try the statement again"
    );
    assert_eq!(
        Error::NotFound("t".to_string()).message(),
        "Table t does not exist"
    );
    assert_eq!(
        Parser::new("select * from;").parse().unwrap_err().message(),
        "[Parser] Expected ident, got token ;"
    );
    let e = Error::Parse(ParseError::UnexpectedEnd);
    assert_eq!(e.clone(), e);
    assert_eq!(Mismatch::Exhausted.clone(), Mismatch::Exhausted);
}

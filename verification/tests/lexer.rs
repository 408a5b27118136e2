use sqldb::error::ParseError;
use sqldb::sql::parser::lexer::{
    chars_of, digit, letter, lower_char, space, text_of, tokenize, upper_char, word_char, Class,
    Keyword, Lexer, Token,
};

#[test]
fn tokens_are_read_one_by_one() {
    let mut lexer = Lexer::new("  select*from t1 ;");
    assert_eq!(lexer.next(), Some(Ok(Token::Keyword(Keyword::Select))));
    assert_eq!(lexer.next(), Some(Ok(Token::Asterisk)));
    assert_eq!(lexer.next(), Some(Ok(Token::Keyword(Keyword::From))));
    assert_eq!(lexer.next(), Some(Ok(Token::Ident("t1".to_string()))));
    assert_eq!(lexer.next(), Some(Ok(Token::Semicolon)));
    assert_eq!(lexer.next(), None);
    assert_eq!(lexer.next(), None);
}

#[test]
fn a_fault_is_reported_again_and_again() {
    let mut lexer = Lexer::new("a #");
    assert_eq!(lexer.next(), Some(Ok(Token::Ident("a".to_string()))));
    assert_eq!(
        lexer.next(),
        Some(Err(ParseError::UnexpectedCharacter('#')))
    );
    assert_eq!(
        lexer.next(),
        Some(Err(ParseError::UnexpectedCharacter('#')))
    );
    let mut open = Lexer::new("'abc");
    assert_eq!(open.next(), Some(Err(ParseError::UnterminatedString)));
    assert_eq!(open.next(), Some(Err(ParseError::UnterminatedString)));
}

#[test]
fn strings_keep_their_characters() {
    let stream = tokenize("'Select  *  FROM' ''");
    assert_eq!(
        stream.tokens,
        vec![
            Token::String("Select  *  FROM".to_string()),
            Token::String("".to_string()),
        ]
    );
    assert_eq!(stream.fault, None);
}

#[test]
fn numbers_take_a_point_and_the_digits_behind_it() {
    let stream = tokenize("12 3.5 4. 6.7.8 9a");
    assert_eq!(
        stream.tokens,
        vec![
            Token::Number("12".to_string()),
            Token::Number("3.5".to_string()),
            Token::Number("4.".to_string()),
            Token::Number("6.7".to_string()),
        ]
    );
    assert_eq!(stream.fault, Some(ParseError::UnexpectedCharacter('.')));
    let glued = tokenize("9a");
    assert_eq!(
        glued.tokens,
        vec![Token::Number("9".to_string()), Token::Ident("a".to_string())]
    );
}

#[test]
fn words_are_keywords_or_names_in_lower_case() {
    let stream = tokenize("Create TABLE Tbl_1 notnull NULL x9 _y");
    assert_eq!(
        stream.tokens,
        vec![
            Token::Keyword(Keyword::Create),
            Token::Keyword(Keyword::Table),
            Token::Ident("tbl_1".to_string()),
            Token::Ident("notnull".to_string()),
            Token::Keyword(Keyword::Null),
            Token::Ident("x9".to_string()),
        ]
    );
    assert_eq!(stream.fault, Some(ParseError::UnexpectedCharacter('_')));
    for (word, keyword) in [
        ("create", Keyword::Create),
        ("TABLE", Keyword::Table),
        ("Int", Keyword::Int),
        ("integer", Keyword::Integer),
        ("boolean", Keyword::Boolean),
        ("bool", Keyword::Bool),
        ("string", Keyword::String),
        ("text", Keyword::Text),
        ("varchar", Keyword::Varchar),
        ("float", Keyword::Float),
        ("double", Keyword::Double),
        ("select", Keyword::Select),
        ("from", Keyword::From),
        ("insert", Keyword::Insert),
        ("into", Keyword::Into),
        ("values", Keyword::Values),
        ("true", Keyword::True),
        ("false", Keyword::False),
        ("default", Keyword::Default),
        ("not", Keyword::Not),
        ("null", Keyword::Null),
        ("primary", Keyword::Primary),
        ("key", Keyword::Key),
    ] {
        assert_eq!(Keyword::from_str(word), Some(keyword));
        assert_eq!(Keyword::from_str(keyword.to_str()), Some(keyword));
        assert_eq!(Keyword::from_chars(&word.chars().collect()), Some(keyword));
    }
    assert_eq!(Keyword::from_str(""), None);
    assert_eq!(Keyword::from_str("keys"), None);
}

#[test]
fn white_space_and_case_do_not_matter() {
    let plain = tokenize("insert into t(a,b) values(1,'x');");
    let spaced = tokenize("\n\tINSERT  Into  T ( A , B )\r\n VALUES ( 1 , 'x' ) ;  \x0c");
    assert_eq!(plain.tokens, spaced.tokens);
    assert_eq!(plain.fault, None);
    assert_eq!(spaced.fault, None);
    // but not inside a string
    assert_ne!(tokenize("'a b'").tokens, tokenize("'a  b'").tokens);
    assert_ne!(tokenize("'a'").tokens, tokenize("'A'").tokens);
}

#[test]
fn classes_of_characters() {
    for c in [' ', '\t', '\n', '\r', '\x0c'] {
        assert!(space(c));
        assert!(Class::Space.has(c));
    }
    assert!(!space('a'));
    assert!(!space('\u{a0}'));
    assert!(digit('0') && digit('9') && !digit('a') && !digit('/') && !digit(':'));
    assert!(letter('a') && letter('z') && letter('A') && letter('Z'));
    assert!(!letter('@') && !letter('[') && !letter('`') && !letter('{') && !letter('é'));
    assert!(word_char('_') && word_char('a') && word_char('5') && !word_char('-'));
    assert!(Class::Digit.has('5') && !Class::Digit.has('x'));
    assert!(Class::Word.has('x') && !Class::Word.has(' '));
    assert!(Class::Unquoted.has('x') && !Class::Unquoted.has('\''));
    assert_eq!(upper_char('a'), 'A');
    assert_eq!(upper_char('z'), 'Z');
    assert_eq!(upper_char('A'), 'A');
    assert_eq!(upper_char('1'), '1');
    assert_eq!(upper_char('é'), 'é');
    assert_eq!(lower_char('A'), 'a');
    assert_eq!(lower_char('Z'), 'z');
    assert_eq!(lower_char('a'), 'a');
    assert_eq!(lower_char('['), '[');
}

#[test]
fn characters_of_a_text() {
    assert_eq!(chars_of("aé世"), vec!['a', 'é', '世']);
    assert_eq!(chars_of(""), Vec::<char>::new());
    assert_eq!(text_of(&vec!['a', 'b', 'c', 'd'], 1, 3), "bc");
    assert_eq!(text_of(&vec!['a'], 1, 1), "");
}

//! The errors of the database, by kind.
use vstd::prelude::*;
use vstd::string::StringExecFns;

use crate::sql::parser::lexer::{Keyword, Token, TokenView};

verus! {

/// Why a text is not a statement.
#[derive(Debug, PartialEq)]
pub enum ParseError {
    /// A character that begins no token.
    UnexpectedCharacter(char),
    /// A string literal without its closing quote.
    UnterminatedString,
    /// The text ended where a token was needed.
    UnexpectedEnd,
    /// A token that cannot stand where it was found.
    UnexpectedToken(Token),
    /// A token where a name was needed.
    ExpectedIdent(Token),
    /// A token where another one was needed.
    Expected { expect: Token, got: Token },
    /// A keyword that cannot follow a column's datatype.
    UnexpectedKeyword(Keyword),
    /// A token where a literal was needed.
    UnexpectedExpressionToken(Token),
    /// Digits that spell no 64-bit integer.
    InvalidInteger(String),
}

/// The model of a [`ParseError`].
pub enum ParseErrorView {
    UnexpectedCharacter(char),
    UnterminatedString,
    UnexpectedEnd,
    UnexpectedToken(TokenView),
    ExpectedIdent(TokenView),
    Expected { expect: TokenView, got: TokenView },
    UnexpectedKeyword(Keyword),
    UnexpectedExpressionToken(TokenView),
    InvalidInteger(Seq<char>),
}

impl View for ParseError {
    type V = ParseErrorView;

    open spec fn view(&self) -> ParseErrorView {
        match self {
            ParseError::UnexpectedCharacter(c) => ParseErrorView::UnexpectedCharacter(*c),
            ParseError::UnterminatedString => ParseErrorView::UnterminatedString,
            ParseError::UnexpectedEnd => ParseErrorView::UnexpectedEnd,
            ParseError::UnexpectedToken(t) => ParseErrorView::UnexpectedToken(t@),
            ParseError::ExpectedIdent(t) => ParseErrorView::ExpectedIdent(t@),
            ParseError::Expected { expect, got } => ParseErrorView::Expected {
                expect: expect@,
                got: got@,
            },
            ParseError::UnexpectedKeyword(k) => ParseErrorView::UnexpectedKeyword(*k),
            ParseError::UnexpectedExpressionToken(t) => ParseErrorView::UnexpectedExpressionToken(
                t@,
            ),
            ParseError::InvalidInteger(s) => ParseErrorView::InvalidInteger(s@),
        }
    }
}

/// Why a statement cannot be carried out on the tables as they are.
#[derive(Debug, PartialEq)]
pub enum Mismatch {
    /// A table of this name is there already.
    TableExists(String),
    /// More values than the table has columns.
    TooManyValues,
    /// The column list and the value tuple differ in length.
    ColumnCountMismatch,
    /// The column list names a column that the table does not have.
    UnknownColumn(String),
    /// This column is past the values given, and it has no default.
    MissingDefault(String),
    /// No value was given for this column, and it has no default.
    MissingValue(String),
    /// No identifier is left, for a transaction or for a row.
    Exhausted,
}

/// The model of a [`Mismatch`].
pub enum MismatchView {
    TableExists(Seq<char>),
    TooManyValues,
    ColumnCountMismatch,
    UnknownColumn(Seq<char>),
    MissingDefault(Seq<char>),
    MissingValue(Seq<char>),
    Exhausted,
}

impl View for Mismatch {
    type V = MismatchView;

    open spec fn view(&self) -> MismatchView {
        match self {
            Mismatch::TableExists(s) => MismatchView::TableExists(s@),
            Mismatch::TooManyValues => MismatchView::TooManyValues,
            Mismatch::ColumnCountMismatch => MismatchView::ColumnCountMismatch,
            Mismatch::UnknownColumn(s) => MismatchView::UnknownColumn(s@),
            Mismatch::MissingDefault(s) => MismatchView::MissingDefault(s@),
            Mismatch::MissingValue(s) => MismatchView::MissingValue(s@),
            Mismatch::Exhausted => MismatchView::Exhausted,
        }
    }
}

/// An error of the database.
#[derive(Debug, PartialEq)]
pub enum Error {
    /// Malformed SQL.
    Parse(ParseError),
    /// A statement that does not fit the tables.
    Internal(Mismatch),
    /// Another transaction wrote the key first.
    Conflict,
    /// No table of this name is visible.
    NotFound(String),
}

/// The model of an [`Error`].
pub enum ErrorView {
    Parse(ParseErrorView),
    Internal(MismatchView),
    Conflict,
    NotFound(Seq<char>),
}

impl View for Error {
    type V = ErrorView;

    open spec fn view(&self) -> ErrorView {
        match self {
            Error::Parse(e) => ErrorView::Parse(e@),
            Error::Internal(e) => ErrorView::Internal(e@),
            Error::Conflict => ErrorView::Conflict,
            Error::NotFound(s) => ErrorView::NotFound(s@),
        }
    }
}

impl Clone for ParseError {
    fn clone(&self) -> (r: Self)
        ensures
            r == *self,
    {
        match self {
            ParseError::UnexpectedCharacter(c) => ParseError::UnexpectedCharacter(*c),
            ParseError::UnterminatedString => ParseError::UnterminatedString,
            ParseError::UnexpectedEnd => ParseError::UnexpectedEnd,
            ParseError::UnexpectedToken(t) => ParseError::UnexpectedToken(t.clone()),
            ParseError::ExpectedIdent(t) => ParseError::ExpectedIdent(t.clone()),
            ParseError::Expected { expect, got } => ParseError::Expected {
                expect: expect.clone(),
                got: got.clone(),
            },
            ParseError::UnexpectedKeyword(k) => ParseError::UnexpectedKeyword(*k),
            ParseError::UnexpectedExpressionToken(t) => ParseError::UnexpectedExpressionToken(
                t.clone(),
            ),
            ParseError::InvalidInteger(s) => ParseError::InvalidInteger(s.clone()),
        }
    }
}

impl Clone for Mismatch {
    fn clone(&self) -> (r: Self)
        ensures
            r == *self,
    {
        match self {
            Mismatch::TableExists(s) => Mismatch::TableExists(s.clone()),
            Mismatch::TooManyValues => Mismatch::TooManyValues,
            Mismatch::ColumnCountMismatch => Mismatch::ColumnCountMismatch,
            Mismatch::UnknownColumn(s) => Mismatch::UnknownColumn(s.clone()),
            Mismatch::MissingDefault(s) => Mismatch::MissingDefault(s.clone()),
            Mismatch::MissingValue(s) => Mismatch::MissingValue(s.clone()),
            Mismatch::Exhausted => Mismatch::Exhausted,
        }
    }
}

impl Clone for Error {
    fn clone(&self) -> (r: Self)
        ensures
            r == *self,
    {
        match self {
            Error::Parse(e) => Error::Parse(e.clone()),
            Error::Internal(e) => Error::Internal(e.clone()),
            Error::Conflict => Error::Conflict,
            Error::NotFound(s) => Error::NotFound(s.clone()),
        }
    }
}

// ------------------------------------------------------------------
// Messages
// ------------------------------------------------------------------
impl ParseErrorView {
    /// The error in words.
    pub open spec fn message(self) -> Seq<char> {
        match self {
            ParseErrorView::UnexpectedCharacter(c) => "[Lexer] Unexpected character "@.push(c),
            ParseErrorView::UnterminatedString => "[Lexer] Unexpected end of string"@,
            ParseErrorView::UnexpectedEnd => "[Parser] Unexpected end of input"@,
            ParseErrorView::UnexpectedToken(t) => "[Parser] Unexpected token "@ + t.text(),
            ParseErrorView::ExpectedIdent(t) => "[Parser] Expected ident, got token "@ + t.text(),
            ParseErrorView::Expected { expect, got } => "[Parser] Expected token "@ + expect.text()
                + ", got "@ + got.text(),
            ParseErrorView::UnexpectedKeyword(k) => "[Parser] Unexpected keyword "@ + k.name(),
            ParseErrorView::UnexpectedExpressionToken(t) => "[Parser] Unexpected expression token "@
                + t.text(),
            ParseErrorView::InvalidInteger(s) => "[Parser] Invalid integer "@ + s,
        }
    }
}

impl MismatchView {
    /// The error in words.
    pub open spec fn message(self) -> Seq<char> {
        match self {
            MismatchView::TableExists(name) => "Table "@ + name + " already exists"@,
            MismatchView::TooManyValues => "More values than columns"@,
            MismatchView::ColumnCountMismatch => "columns and values num mismatch"@,
            MismatchView::UnknownColumn(name) => "No column "@ + name + " in the table"@,
            MismatchView::MissingDefault(name) => "No default value for column "@ + name,
            MismatchView::MissingValue(name) => "No value given for the column "@ + name,
            MismatchView::Exhausted => "No identifier is left"@,
        }
    }
}

impl ErrorView {
    /// The error in words.
    pub open spec fn message(self) -> Seq<char> {
        match self {
            ErrorView::Parse(e) => e.message(),
            ErrorView::Internal(e) => e.message(),
            ErrorView::Conflict => "Write conflict, try the statement again"@,
            ErrorView::NotFound(name) => "Table "@ + name + " does not exist"@,
        }
    }
}

/// `begin`, and then `rest`.
fn join(begin: &str, rest: &str) -> (text: String)
    ensures
        text@ == begin@ + rest@,
{
    let mut text = String::from_str(begin);
    text.append(rest);
    text
}

impl ParseError {
    /// The error in words.
    pub fn message(&self) -> (text: String)
        ensures
            text@ == self@.message(),
    {
        match self {
            ParseError::UnexpectedCharacter(c) => {
                let mut text = String::from_str("[Lexer] Unexpected character ");
                text.push(*c);
                text
            },
            ParseError::UnterminatedString => String::from_str("[Lexer] Unexpected end of string"),
            ParseError::UnexpectedEnd => String::from_str("[Parser] Unexpected end of input"),
            ParseError::UnexpectedToken(t) => join(
                "[Parser] Unexpected token ",
                t.text().as_str(),
            ),
            ParseError::ExpectedIdent(t) => join(
                "[Parser] Expected ident, got token ",
                t.text().as_str(),
            ),
            ParseError::Expected { expect, got } => {
                let mut text = join("[Parser] Expected token ", expect.text().as_str());
                text.append(", got ");
                text.append(got.text().as_str());
                text
            },
            ParseError::UnexpectedKeyword(k) => join("[Parser] Unexpected keyword ", k.to_str()),
            ParseError::UnexpectedExpressionToken(t) => join(
                "[Parser] Unexpected expression token ",
                t.text().as_str(),
            ),
            ParseError::InvalidInteger(s) => join("[Parser] Invalid integer ", s.as_str()),
        }
    }
}

impl Mismatch {
    /// The error in words.
    pub fn message(&self) -> (text: String)
        ensures
            text@ == self@.message(),
    {
        match self {
            Mismatch::TableExists(name) => {
                let mut text = join("Table ", name.as_str());
                text.append(" already exists");
                text
            },
            Mismatch::TooManyValues => String::from_str("More values than columns"),
            Mismatch::ColumnCountMismatch => String::from_str("columns and values num mismatch"),
            Mismatch::UnknownColumn(name) => {
                let mut text = join("No column ", name.as_str());
                text.append(" in the table");
                text
            },
            Mismatch::MissingDefault(name) => join("No default value for column ", name.as_str()),
            Mismatch::MissingValue(name) => join("No value given for the column ", name.as_str()),
            Mismatch::Exhausted => String::from_str("No identifier is left"),
        }
    }
}

impl Error {
    /// The error in words.
    pub fn message(&self) -> (text: String)
        ensures
            text@ == self@.message(),
    {
        match self {
            Error::Parse(e) => e.message(),
            Error::Internal(e) => e.message(),
            Error::Conflict => String::from_str("Write conflict, try the statement again"),
            Error::NotFound(name) => {
                let mut text = join("Table ", name.as_str());
                text.append(" does not exist");
                text
            },
        }
    }
}

} // verus!

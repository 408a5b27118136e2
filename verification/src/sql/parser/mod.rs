//! Recursive-descent parsing of SQL text into a statement.
use vstd::prelude::*;

use crate::error::{Error, ErrorView, ParseError};
use crate::sql::parser::ast::{Column, Consts, Expression, Statement};
use crate::sql::parser::grammar::Parsed;
use crate::sql::parser::lexer::{chars_of, digit, lex, tokenize, Keyword, Token, TokenStream, TokenStreamView};
use crate::sql::types::DataType;

pub mod ast;
pub mod grammar;
pub mod lexer;
pub mod shape;

verus! {

/// The model of what a parsing step returned.
pub open spec fn outcome<T: DeepView>(r: Result<T, Error>) -> Result<T::V, ErrorView> {
    match r {
        Ok(v) => Ok(v.deep_view()),
        Err(e) => Err(e@),
    }
}

/// A parser: the tokens of a text, and how far they have been read.
pub struct Parser {
    stream: TokenStream,
    pos: usize,
}

impl Parser {
    #[verifier::type_invariant]
    spec fn inv(&self) -> bool {
        self.pos <= self.stream.tokens.len()
    }

    /// The tokens of the text.
    pub closed spec fn tokens(&self) -> TokenStreamView {
        self.stream@
    }

    /// How many tokens have been read.
    pub closed spec fn position(&self) -> nat {
        self.pos as nat
    }

    /// That a step from `before` to `after` returned `r` where the grammar
    /// finds `expected`: the tokens are the same, a value comes with the
    /// position behind it, and a failure comes as a parse error, with the
    /// position at which the reading stopped.
    pub open spec fn step<V>(
        before: Parser,
        after: Parser,
        r: Result<V, ErrorView>,
        expected: Parsed<V>,
    ) -> bool {
        &&& after.tokens() == before.tokens()
        &&& match expected {
            Ok((v, n)) => r == Ok::<V, ErrorView>(v) && after.position() == n,
            Err(f) => r == Err::<V, ErrorView>(ErrorView::Parse(f.error)) && after.position()
                == f.at,
        }
    }

    /// A parser at the start of `input`.
    pub fn new(input: &str) -> (parser: Parser)
        ensures
            parser.tokens() == lex(input@),
            parser.position() == 0,
    {
        Parser { stream: tokenize(input), pos: 0 }
    }

    /// Parses one statement, its semicolon, and the end of the text.
    pub fn parse(&mut self) -> (r: Result<Statement, Error>)
        ensures
            Parser::step(
                *old(self),
                *final(self),
                outcome(r),
                grammar::terminated(old(self).tokens(), old(self).position()),
            ),
    {
        let stmt = self.parse_statement()?;
        self.next_expect(Token::Semicolon)?;
        match self.peek()? {
            Some(token) => Err(Error::Parse(ParseError::UnexpectedToken(token))),
            None => Ok(stmt),
        }
    }

    /// A statement, chosen by its first token.
    fn parse_statement(&mut self) -> (r: Result<Statement, Error>)
        ensures
            Parser::step(
                *old(self),
                *final(self),
                outcome(r),
                grammar::statement(old(self).tokens(), old(self).position()),
            ),
    {
        match self.peek()? {
            Some(Token::Keyword(Keyword::Create)) => self.parse_ddl(),
            Some(Token::Keyword(Keyword::Select)) => self.parse_select(),
            Some(Token::Keyword(Keyword::Insert)) => self.parse_insert(),
            Some(t) => Err(Error::Parse(ParseError::UnexpectedToken(t))),
            None => Err(Error::Parse(ParseError::UnexpectedEnd)),
        }
    }

    /// A data definition statement.
    fn parse_ddl(&mut self) -> (r: Result<Statement, Error>)
        ensures
            Parser::step(
                *old(self),
                *final(self),
                outcome(r),
                grammar::ddl(old(self).tokens(), old(self).position()),
            ),
    {
        match self.next()? {
            Token::Keyword(Keyword::Create) => match self.next()? {
                Token::Keyword(Keyword::Table) => self.parse_ddl_create_table(),
                token => Err(Error::Parse(ParseError::UnexpectedToken(token))),
            },
            token => Err(Error::Parse(ParseError::UnexpectedToken(token))),
        }
    }

    /// A `SELECT` statement.
    fn parse_select(&mut self) -> (r: Result<Statement, Error>)
        ensures
            Parser::step(
                *old(self),
                *final(self),
                outcome(r),
                grammar::select(old(self).tokens(), old(self).position()),
            ),
    {
        self.next_expect(Token::Keyword(Keyword::Select))?;
        self.next_expect(Token::Asterisk)?;
        self.next_expect(Token::Keyword(Keyword::From))?;
        let table_name = self.next_ident()?;
        Ok(Statement::Select { table_name })
    }

    /// An `INSERT` statement.
    fn parse_insert(&mut self) -> (r: Result<Statement, Error>)
        ensures
            Parser::step(
                *old(self),
                *final(self),
                outcome(r),
                grammar::insert(old(self).tokens(), old(self).position()),
            ),
    {
        self.next_expect(Token::Keyword(Keyword::Insert))?;
        self.next_expect(Token::Keyword(Keyword::Into))?;
        let table_name = self.next_ident()?;
        let columns = if self.next_if_token(Token::OpenParen).is_some() {
            Some(self.parse_names()?)
        } else {
            None
        };
        self.next_expect(Token::Keyword(Keyword::Values))?;
        let values = self.parse_tuples()?;
        Ok(Statement::Insert { table_name, columns, values })
    }

    /// The names of a column list, up to and with its closing parenthesis.
    fn parse_names(&mut self) -> (r: Result<Vec<String>, Error>)
        ensures
            Parser::step(
                *old(self),
                *final(self),
                outcome(r),
                grammar::names(old(self).tokens(), old(self).position(), Seq::empty()),
            ),
    {
        let ghost ts = self.tokens();
        let ghost start = self.position();
        let mut names: Vec<String> = Vec::new();
        assert(names.deep_view() == Seq::<Seq<char>>::empty());
        loop
            invariant
                self.tokens() == ts,
                ts == old(self).tokens(),
                start == old(self).position(),
                grammar::names(ts, start, Seq::empty()) == grammar::names(
                    ts,
                    self.position(),
                    names.deep_view(),
                ),
            decreases ts.tokens.len() - self.position(),
        {
            let ghost done = names.deep_view();
            let name = self.next_ident()?;
            names.push(name);
            assert(names.deep_view() == done.push(name@));
            match self.next()? {
                Token::CloseParen => {
                    return Ok(names);
                },
                Token::Comma => {},
                token => {
                    return Err(Error::Parse(ParseError::UnexpectedToken(token)));
                },
            }
        }
    }

    /// The expressions of a value tuple, up to and with its closing
    /// parenthesis.
    fn parse_expressions(&mut self) -> (r: Result<Vec<Expression>, Error>)
        ensures
            Parser::step(
                *old(self),
                *final(self),
                outcome(r),
                grammar::expressions(old(self).tokens(), old(self).position(), Seq::empty()),
            ),
    {
        let ghost ts = self.tokens();
        let ghost start = self.position();
        let mut exprs: Vec<Expression> = Vec::new();
        assert(exprs.deep_view() == Seq::<ast::ExpressionView>::empty());
        loop
            invariant
                self.tokens() == ts,
                ts == old(self).tokens(),
                start == old(self).position(),
                grammar::expressions(ts, start, Seq::empty()) == grammar::expressions(
                    ts,
                    self.position(),
                    exprs.deep_view(),
                ),
            decreases ts.tokens.len() - self.position(),
        {
            let ghost done = exprs.deep_view();
            let x = self.parse_expression()?;
            exprs.push(x);
            assert(exprs.deep_view() == done.push(x@));
            match self.next()? {
                Token::CloseParen => {
                    return Ok(exprs);
                },
                Token::Comma => {},
                token => {
                    return Err(Error::Parse(ParseError::UnexpectedToken(token)));
                },
            }
        }
    }

    /// The value tuples of an `INSERT`.
    fn parse_tuples(&mut self) -> (r: Result<Vec<Vec<Expression>>, Error>)
        ensures
            Parser::step(
                *old(self),
                *final(self),
                outcome(r),
                grammar::tuples(old(self).tokens(), old(self).position(), Seq::empty()),
            ),
    {
        let ghost ts = self.tokens();
        let ghost start = self.position();
        let mut values: Vec<Vec<Expression>> = Vec::new();
        assert(values.deep_view() == Seq::<Seq<ast::ExpressionView>>::empty());
        loop
            invariant
                self.tokens() == ts,
                ts == old(self).tokens(),
                start == old(self).position(),
                grammar::tuples(ts, start, Seq::empty()) == grammar::tuples(
                    ts,
                    self.position(),
                    values.deep_view(),
                ),
            decreases ts.tokens.len() - self.position(),
        {
            let ghost done = values.deep_view();
            self.next_expect(Token::OpenParen)?;
            proof {
                grammar::lemma_expressions_advance(ts, self.position(), Seq::empty());
            }
            let exprs = self.parse_expressions()?;
            values.push(exprs);
            assert(values.deep_view() == done.push(exprs.deep_view()));
            if self.next_if_token(Token::Comma).is_none() {
                return Ok(values);
            }
        }
    }

    /// What follows `CREATE TABLE`: a name and the columns in parentheses.
    fn parse_ddl_create_table(&mut self) -> (r: Result<Statement, Error>)
        ensures
            Parser::step(
                *old(self),
                *final(self),
                outcome(r),
                grammar::create_table(old(self).tokens(), old(self).position()),
            ),
    {
        let table_name = self.next_ident()?;
        self.next_expect(Token::OpenParen)?;
        let columns = self.parse_ddl_columns()?;
        self.next_expect(Token::CloseParen)?;
        Ok(Statement::CreateTable { name: table_name, columns })
    }

    /// The column declarations of a `CREATE TABLE`.
    fn parse_ddl_columns(&mut self) -> (r: Result<Vec<Column>, Error>)
        ensures
            Parser::step(
                *old(self),
                *final(self),
                outcome(r),
                grammar::columns(old(self).tokens(), old(self).position(), Seq::empty()),
            ),
    {
        let ghost ts = self.tokens();
        let ghost start = self.position();
        let mut columns: Vec<Column> = Vec::new();
        assert(columns.deep_view() == Seq::<ast::ColumnView>::empty());
        loop
            invariant
                self.tokens() == ts,
                ts == old(self).tokens(),
                start == old(self).position(),
                grammar::columns(ts, start, Seq::empty()) == grammar::columns(
                    ts,
                    self.position(),
                    columns.deep_view(),
                ),
            decreases ts.tokens.len() - self.position(),
        {
            let ghost done = columns.deep_view();
            proof {
                grammar::lemma_column_advances(ts, self.position());
            }
            let column = self.parse_ddl_column()?;
            columns.push(column);
            assert(columns.deep_view() == done.push(column@));
            if self.next_if_token(Token::Comma).is_none() {
                return Ok(columns);
            }
        }
    }

    /// A column declaration: a name, a datatype, and the keywords that follow
    /// it.
    fn parse_ddl_column(&mut self) -> (r: Result<Column, Error>)
        ensures
            Parser::step(
                *old(self),
                *final(self),
                outcome(r),
                grammar::column(old(self).tokens(), old(self).position()),
            ),
    {
        let ghost ts = self.tokens();
        let ghost start = self.position();
        let mut column = Column {
            name: self.next_ident()?,
            datatype: match self.next()? {
                Token::Keyword(Keyword::Int) | Token::Keyword(Keyword::Integer) => {
                    DataType::Integer
                },
                Token::Keyword(Keyword::Bool) | Token::Keyword(Keyword::Boolean) => {
                    DataType::Boolean
                },
                Token::Keyword(Keyword::Float) | Token::Keyword(Keyword::Double) => DataType::Float,
                Token::Keyword(Keyword::String)
                | Token::Keyword(Keyword::Text)
                | Token::Keyword(Keyword::Varchar) => DataType::String,
                token => {
                    return Err(Error::Parse(ParseError::UnexpectedToken(token)));
                },
            },
            nullable: None,
            default: None,
        };
        loop
            invariant
                self.tokens() == ts,
                ts == old(self).tokens(),
                start == old(self).position(),
                grammar::column(ts, start) == grammar::column_options(
                    ts,
                    self.position(),
                    column@,
                ),
            decreases ts.tokens.len() - self.position(),
        {
            match self.next_if_keyword() {
                Some(Token::Keyword(keyword)) => match keyword {
                    Keyword::Null => {
                        column.nullable = Some(true);
                    },
                    Keyword::Not => {
                        self.next_expect(Token::Keyword(Keyword::Null))?;
                        column.nullable = Some(false);
                    },
                    Keyword::Default => {
                        column.default = Some(self.parse_expression()?);
                    },
                    k => {
                        return Err(Error::Parse(ParseError::UnexpectedKeyword(k)));
                    },
                },
                _ => {
                    return Ok(column);
                },
            }
        }
    }

    /// An expression.
    fn parse_expression(&mut self) -> (r: Result<Expression, Error>)
        ensures
            Parser::step(
                *old(self),
                *final(self),
                outcome(r),
                grammar::expression(old(self).tokens(), old(self).position()),
            ),
    {
        Ok(
            match self.next()? {
                Token::Number(n) => Expression::from(parse_number(n)?),
                Token::String(s) => Expression::from(Consts::String(s)),
                Token::Keyword(Keyword::True) => Expression::from(Consts::Boolean(true)),
                Token::Keyword(Keyword::False) => Expression::from(Consts::Boolean(false)),
                Token::Keyword(Keyword::Null) => Expression::from(Consts::Null),
                t => {
                    return Err(Error::Parse(ParseError::UnexpectedExpressionToken(t)));
                },
            },
        )
    }

    /// The next token, if the text goes on; the fault that ended the tokens,
    /// if one did.
    fn peek(&mut self) -> (r: Result<Option<Token>, Error>)
        ensures
            final(self).tokens() == old(self).tokens(),
            final(self).position() == old(self).position(),
            match grammar::peek(old(self).tokens(), old(self).position()) {
                Ok(t) => outcome(r) == Ok::<Option<lexer::TokenView>, ErrorView>(t),
                Err(e) => outcome(r) == Err::<Option<lexer::TokenView>, ErrorView>(
                    ErrorView::Parse(e),
                ),
            },
    {
        proof {
            use_type_invariant(&*self);
        }
        if self.pos < self.stream.tokens.len() {
            Ok(Some(self.stream.tokens[self.pos].clone()))
        } else {
            match &self.stream.fault {
                Some(e) => Err(Error::Parse(e.clone())),
                None => Ok(None),
            }
        }
    }

    /// Reads the next token, which must be there.
    fn next(&mut self) -> (r: Result<Token, Error>)
        ensures
            Parser::step(
                *old(self),
                *final(self),
                outcome(r),
                grammar::next(old(self).tokens(), old(self).position()),
            ),
    {
        proof {
            use_type_invariant(&*self);
        }
        if self.pos < self.stream.tokens.len() {
            let token = self.stream.tokens[self.pos].clone();
            self.pos = self.pos + 1;
            Ok(token)
        } else {
            match &self.stream.fault {
                Some(e) => Err(Error::Parse(e.clone())),
                None => Err(Error::Parse(ParseError::UnexpectedEnd)),
            }
        }
    }

    /// Reads a name.
    fn next_ident(&mut self) -> (r: Result<String, Error>)
        ensures
            Parser::step(
                *old(self),
                *final(self),
                outcome(r),
                grammar::ident(old(self).tokens(), old(self).position()),
            ),
    {
        match self.next()? {
            Token::Ident(ident) => Ok(ident),
            token => Err(Error::Parse(ParseError::ExpectedIdent(token))),
        }
    }

    /// Reads the token `expect`.
    fn next_expect(&mut self, expect: Token) -> (r: Result<(), Error>)
        ensures
            Parser::step(
                *old(self),
                *final(self),
                outcome(r),
                grammar::expect(old(self).tokens(), old(self).position(), expect@),
            ),
    {
        let token = self.next()?;
        if !token.same(&expect) {
            return Err(Error::Parse(ParseError::Expected { expect, got: token }));
        }
        Ok(())
    }

    /// Reads the next token if there is one and `predicate` accepts it.
    fn next_if<F: Fn(&Token) -> bool>(&mut self, predicate: F) -> (r: Option<Token>)
        requires
            forall|t: &Token| call_requires(predicate, (t,)),
        ensures
            final(self).tokens() == old(self).tokens(),
            match r {
                Some(token) => {
                    &&& old(self).position() < old(self).tokens().tokens.len()
                    &&& token@ == old(self).tokens().tokens[old(self).position() as int]
                    &&& final(self).position() == old(self).position() + 1
                    &&& exists|t: &Token| t@ == token@ && call_ensures(predicate, (t,), true)
                },
                None => {
                    &&& final(self).position() == old(self).position()
                    &&& old(self).position() < old(self).tokens().tokens.len() ==> exists|
                        t: &Token,
                    |
                        t@ == old(self).tokens().tokens[old(self).position() as int]
                            && call_ensures(predicate, (t,), false)
                },
            },
    {
        proof {
            use_type_invariant(&*self);
        }
        if self.pos < self.stream.tokens.len() {
            let ghost at = &self.stream.tokens[self.pos as int];
            if predicate(&self.stream.tokens[self.pos]) {
                let token = self.stream.tokens[self.pos].clone();
                self.pos = self.pos + 1;
                assert(at@ == token@ && call_ensures(predicate, (at,), true));
                Some(token)
            } else {
                assert(at@ == self.tokens().tokens[self.pos as int] && call_ensures(
                    predicate,
                    (at,),
                    false,
                ));
                None
            }
        } else {
            None
        }
    }

    /// Reads the next token if it is a keyword.
    fn next_if_keyword(&mut self) -> (r: Option<Token>)
        ensures
            final(self).tokens() == old(self).tokens(),
            match r {
                Some(token) => {
                    &&& old(self).position() < old(self).tokens().tokens.len()
                    &&& token@ == old(self).tokens().tokens[old(self).position() as int]
                    &&& token@ is Keyword
                    &&& final(self).position() == old(self).position() + 1
                },
                None => {
                    &&& final(self).position() == old(self).position()
                    &&& old(self).position() < old(self).tokens().tokens.len() ==> !(old(
                        self,
                    ).tokens().tokens[old(self).position() as int] is Keyword)
                },
            },
    {
        let is_keyword = |t: &Token| -> (b: bool)
            ensures
                b == (t@ is Keyword),
            {
                matches!(t, Token::Keyword(_))
            };
        self.next_if(is_keyword)
    }

    /// Reads the next token if it is `token`.
    fn next_if_token(&mut self, token: Token) -> (r: Option<Token>)
        ensures
            final(self).tokens() == old(self).tokens(),
            r is Some <==> grammar::at(old(self).tokens(), old(self).position(), token@),
            r matches Some(t) ==> t@ == token@,
            final(self).position() == old(self).position() + (if r is Some {
                1nat
            } else {
                0nat
            }),
    {
        let is_token = |t: &Token| -> (b: bool)
            ensures
                b == (t@ == token@),
            {
                t.same(&token)
            };
        self.next_if(is_token)
    }
}

/// The number that decimal digits spell, if it fits 64 bits.
fn integer_of(digits: &Vec<char>) -> (r: Option<i64>)
    requires
        grammar::all_digits(digits@),
    ensures
        r == (if digits.len() > 0 && grammar::decimal(digits@) <= i64::MAX {
            Some(grammar::decimal(digits@) as i64)
        } else {
            None
        }),
{
    if digits.len() == 0 {
        return None;
    }
    let mut acc: i64 = 0;
    let mut i: usize = 0;
    while i < digits.len()
        invariant
            i <= digits.len(),
            grammar::all_digits(digits@),
            0 <= acc,
            acc == grammar::decimal(digits@.take(i as int)),
        decreases digits.len() - i,
    {
        let c = digits[i];
        assert(lexer::is_digit(digits@[i as int]));
        let d: i64 = ((c as u8) - 48u8) as i64;
        proof {
            let next = digits@.take(i + 1);
            assert(next.drop_last() == digits@.take(i as int));
            assert(next.last() == c);
            grammar::lemma_decimal_grows(digits@, i + 1);
        }
        match acc.checked_mul(10) {
            None => {
                return None;
            },
            Some(tens) => match tens.checked_add(d) {
                None => {
                    return None;
                },
                Some(sum) => {
                    acc = sum;
                },
            },
        }
        i = i + 1;
    }
    assert(digits@.take(digits.len() as int) == digits@);
    Some(acc)
}

/// The constant that the text of a number token spells.
fn parse_number(text: String) -> (r: Result<Consts, Error>)
    ensures
        match grammar::number(text@) {
            Ok(c) => r matches Ok(x) && x@ == c,
            Err(e) => r matches Err(x) && x@ == ErrorView::Parse(e),
        },
{
    let chars = chars_of(text.as_str());
    let mut i: usize = 0;
    while i < chars.len()
        invariant
            i <= chars.len(),
            chars@ == text@,
            forall|j: int| 0 <= j < i ==> lexer::is_digit(#[trigger] chars@[j]),
        decreases chars.len() - i,
    {
        if !digit(chars[i]) {
            assert(!lexer::is_digit(text@[i as int]));
            return Ok(Consts::Float(text));
        }
        i = i + 1;
    }
    match integer_of(&chars) {
        Some(n) => Ok(Consts::Integer(n)),
        None => Err(Error::Parse(ParseError::InvalidInteger(text))),
    }
}

} // verus!

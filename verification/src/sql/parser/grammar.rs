//! The grammar, as functions from a position in the tokens of a text to what
//! stands there and the position behind it.
//!
//! ```text
//! statement    := create_table | select | insert
//! create_table := CREATE TABLE ident '(' column (',' column)* ')'
//! column       := ident datatype (NULL | NOT NULL | DEFAULT expr)*
//! select       := SELECT '*' FROM ident
//! insert       := INSERT INTO ident ('(' ident (',' ident)* ')')?
//!                 VALUES '(' expr (',' expr)* ')' (',' '(' ... ')')*
//! expr         := NUMBER | STRING | TRUE | FALSE | NULL
//! ```
use vstd::prelude::*;

use crate::error::ParseErrorView;
use crate::sql::parser::ast::{ColumnView, ConstsView, ExpressionView, StatementView};
use crate::sql::parser::lexer::{is_digit, Keyword, TokenStreamView, TokenView};
use crate::sql::types::DataType;

verus! {

/// Why nothing of a kind stands at a position, and how far the tokens were
/// read when that was found.
pub struct Failure {
    pub error: ParseErrorView,
    pub at: nat,
}

/// What stands at a position: a value and the position behind it, or the
/// reason why nothing of the kind stands there, with the position at which
/// the reading stopped.
pub type Parsed<T> = Result<(T, nat), Failure>;

/// What is reported where the tokens end: the fault that ended them, or that
/// the text ended.
pub open spec fn end_error(ts: TokenStreamView) -> ParseErrorView {
    match ts.fault {
        Some(e) => e,
        None => ParseErrorView::UnexpectedEnd,
    }
}

/// The token at `p`, which must be there. It is read, whatever it is.
pub open spec fn next(ts: TokenStreamView, p: nat) -> Parsed<TokenView> {
    if p < ts.tokens.len() {
        Ok((ts.tokens[p as int], p + 1))
    } else {
        Err(Failure { error: end_error(ts), at: p })
    }
}

/// The token at `p`, if the text goes on.
pub open spec fn peek(ts: TokenStreamView, p: nat) -> Result<Option<TokenView>, ParseErrorView> {
    if p < ts.tokens.len() {
        Ok(Some(ts.tokens[p as int]))
    } else {
        match ts.fault {
            Some(e) => Err(e),
            None => Ok(None),
        }
    }
}

/// Whether the token `t` stands at `p`.
pub open spec fn at(ts: TokenStreamView, p: nat, t: TokenView) -> bool {
    p < ts.tokens.len() && ts.tokens[p as int] == t
}

/// The token `expect` at `p`.
pub open spec fn expect(ts: TokenStreamView, p: nat, expect: TokenView) -> Parsed<()> {
    match next(ts, p) {
        Err(e) => Err(e),
        Ok((got, n)) => if got == expect {
            Ok(((), n))
        } else {
            Err(Failure { error: ParseErrorView::Expected { expect, got }, at: n })
        },
    }
}

/// A name at `p`.
pub open spec fn ident(ts: TokenStreamView, p: nat) -> Parsed<Seq<char>> {
    match next(ts, p) {
        Err(e) => Err(e),
        Ok((TokenView::Ident(name), n)) => Ok((name, n)),
        Ok((got, n)) => Err(Failure { error: ParseErrorView::ExpectedIdent(got), at: n }),
    }
}

/// Whether a text holds digits only.
pub open spec fn all_digits(s: Seq<char>) -> bool {
    forall|i: int| 0 <= i < s.len() ==> is_digit(#[trigger] s[i])
}

/// The number that decimal digits spell.
pub open spec fn decimal(digits: Seq<char>) -> nat
    decreases digits.len(),
{
    if digits.len() == 0 {
        0
    } else {
        decimal(digits.drop_last()) * 10 + (digits.last() as nat - '0' as nat) as nat
    }
}

/// The constant that a number token spells: an integer where it holds digits
/// only, which must then fit 64 bits, and a floating-point constant
/// otherwise.
pub open spec fn number(text: Seq<char>) -> Result<ConstsView, ParseErrorView> {
    if all_digits(text) {
        if text.len() > 0 && decimal(text) <= i64::MAX {
            Ok(ConstsView::Integer(decimal(text) as i64))
        } else {
            Err(ParseErrorView::InvalidInteger(text))
        }
    } else {
        Ok(ConstsView::Float(text))
    }
}

/// An expression at `p`.
pub open spec fn expression(ts: TokenStreamView, p: nat) -> Parsed<ExpressionView> {
    match next(ts, p) {
        Err(e) => Err(e),
        Ok((TokenView::Number(text), n)) => match number(text) {
            Ok(c) => Ok((ExpressionView::Consts(c), n)),
            Err(e) => Err(Failure { error: e, at: n }),
        },
        Ok((TokenView::String(s), n)) => Ok((ExpressionView::Consts(ConstsView::String(s)), n)),
        Ok((TokenView::Keyword(Keyword::True), n)) => Ok(
            (ExpressionView::Consts(ConstsView::Boolean(true)), n),
        ),
        Ok((TokenView::Keyword(Keyword::False), n)) => Ok(
            (ExpressionView::Consts(ConstsView::Boolean(false)), n),
        ),
        Ok((TokenView::Keyword(Keyword::Null), n)) => Ok(
            (ExpressionView::Consts(ConstsView::Null), n),
        ),
        Ok((got, n)) => Err(
            Failure { error: ParseErrorView::UnexpectedExpressionToken(got), at: n },
        ),
    }
}

/// The datatype that a token names.
pub open spec fn datatype(t: TokenView) -> Option<DataType> {
    match t {
        TokenView::Keyword(Keyword::Int) | TokenView::Keyword(Keyword::Integer) => Some(
            DataType::Integer,
        ),
        TokenView::Keyword(Keyword::Bool) | TokenView::Keyword(Keyword::Boolean) => Some(
            DataType::Boolean,
        ),
        TokenView::Keyword(Keyword::Float) | TokenView::Keyword(Keyword::Double) => Some(
            DataType::Float,
        ),
        TokenView::Keyword(Keyword::String)
        | TokenView::Keyword(Keyword::Text)
        | TokenView::Keyword(Keyword::Varchar) => Some(DataType::String),
        _ => None,
    }
}

/// The keywords that follow a column's datatype, from `p` on, applied to
/// `column` one after the other. A later one overrides an earlier one.
pub open spec fn column_options(ts: TokenStreamView, p: nat, column: ColumnView) -> Parsed<
    ColumnView,
>
    decreases ts.tokens.len() - p,
{
    if p < ts.tokens.len() {
        match ts.tokens[p as int] {
            TokenView::Keyword(Keyword::Null) => column_options(
                ts,
                p + 1,
                ColumnView { nullable: Some(true), ..column },
            ),
            TokenView::Keyword(Keyword::Not) => match expect(
                ts,
                p + 1,
                TokenView::Keyword(Keyword::Null),
            ) {
                Err(e) => Err(e),
                Ok((_, n)) => column_options(ts, n, ColumnView { nullable: Some(false), ..column }),
            },
            TokenView::Keyword(Keyword::Default) => match expression(ts, p + 1) {
                Err(e) => Err(e),
                Ok((x, n)) => column_options(ts, n, ColumnView { default: Some(x), ..column }),
            },
            TokenView::Keyword(k) => Err(
                Failure { error: ParseErrorView::UnexpectedKeyword(k), at: p + 1 },
            ),
            _ => Ok((column, p)),
        }
    } else {
        Ok((column, p))
    }
}

/// A column declaration at `p`.
pub open spec fn column(ts: TokenStreamView, p: nat) -> Parsed<ColumnView> {
    match ident(ts, p) {
        Err(e) => Err(e),
        Ok((name, n)) => match next(ts, n) {
            Err(e) => Err(e),
            Ok((t, m)) => match datatype(t) {
                None => Err(Failure { error: ParseErrorView::UnexpectedToken(t), at: m }),
                Some(datatype) => column_options(
                    ts,
                    m,
                    ColumnView { name, datatype, nullable: None, default: None },
                ),
            },
        },
    }
}

/// Column declarations with commas between them, from `p` on, after those
/// in `done`.
pub open spec fn columns(ts: TokenStreamView, p: nat, done: Seq<ColumnView>) -> Parsed<
    Seq<ColumnView>,
>
    decreases ts.tokens.len() - p,
{
    match column(ts, p) {
        Err(e) => Err(e),
        Ok((c, n)) => {
            proof {
                lemma_column_advances(ts, p);
            }
            if at(ts, n, TokenView::Comma) {
                columns(ts, n + 1, done.push(c))
            } else {
                Ok((done.push(c), n))
            }
        },
    }
}

/// What follows `CREATE TABLE`: a name and the columns in parentheses.
pub open spec fn create_table(ts: TokenStreamView, p: nat) -> Parsed<StatementView> {
    match ident(ts, p) {
        Err(e) => Err(e),
        Ok((name, n)) => match expect(ts, n, TokenView::OpenParen) {
            Err(e) => Err(e),
            Ok((_, m)) => match columns(ts, m, Seq::empty()) {
                Err(e) => Err(e),
                Ok((columns, k)) => match expect(ts, k, TokenView::CloseParen) {
                    Err(e) => Err(e),
                    Ok((_, end)) => Ok((StatementView::CreateTable { name, columns }, end)),
                },
            },
        },
    }
}

/// A data definition statement at `p`.
pub open spec fn ddl(ts: TokenStreamView, p: nat) -> Parsed<StatementView> {
    match next(ts, p) {
        Err(e) => Err(e),
        Ok((TokenView::Keyword(Keyword::Create), n)) => match next(ts, n) {
            Err(e) => Err(e),
            Ok((TokenView::Keyword(Keyword::Table), m)) => create_table(ts, m),
            Ok((t, m)) => Err(Failure { error: ParseErrorView::UnexpectedToken(t), at: m }),
        },
        Ok((t, n)) => Err(Failure { error: ParseErrorView::UnexpectedToken(t), at: n }),
    }
}

/// A `SELECT` statement at `p`.
pub open spec fn select(ts: TokenStreamView, p: nat) -> Parsed<StatementView> {
    match expect(ts, p, TokenView::Keyword(Keyword::Select)) {
        Err(e) => Err(e),
        Ok((_, a)) => match expect(ts, a, TokenView::Asterisk) {
            Err(e) => Err(e),
            Ok((_, b)) => match expect(ts, b, TokenView::Keyword(Keyword::From)) {
                Err(e) => Err(e),
                Ok((_, c)) => match ident(ts, c) {
                    Err(e) => Err(e),
                    Ok((table_name, end)) => Ok((StatementView::Select { table_name }, end)),
                },
            },
        },
    }
}

/// Names with commas between them and a closing parenthesis behind them,
/// from `p` on, after those in `done`.
pub open spec fn names(ts: TokenStreamView, p: nat, done: Seq<Seq<char>>) -> Parsed<
    Seq<Seq<char>>,
>
    decreases ts.tokens.len() - p,
{
    match ident(ts, p) {
        Err(e) => Err(e),
        Ok((name, n)) => match next(ts, n) {
            Err(e) => Err(e),
            Ok((TokenView::CloseParen, m)) => Ok((done.push(name), m)),
            Ok((TokenView::Comma, m)) => names(ts, m, done.push(name)),
            Ok((t, m)) => Err(Failure { error: ParseErrorView::UnexpectedToken(t), at: m }),
        },
    }
}

/// Expressions with commas between them and a closing parenthesis behind
/// them, from `p` on, after those in `done`.
pub open spec fn expressions(ts: TokenStreamView, p: nat, done: Seq<ExpressionView>) -> Parsed<
    Seq<ExpressionView>,
>
    decreases ts.tokens.len() - p,
{
    match expression(ts, p) {
        Err(e) => Err(e),
        Ok((x, n)) => match next(ts, n) {
            Err(e) => Err(e),
            Ok((TokenView::CloseParen, m)) => Ok((done.push(x), m)),
            Ok((TokenView::Comma, m)) => expressions(ts, m, done.push(x)),
            Ok((t, m)) => Err(Failure { error: ParseErrorView::UnexpectedToken(t), at: m }),
        },
    }
}

/// Value tuples in parentheses, with commas between them, from `p` on, after
/// those in `done`.
pub open spec fn tuples(ts: TokenStreamView, p: nat, done: Seq<Seq<ExpressionView>>) -> Parsed<
    Seq<Seq<ExpressionView>>,
>
    decreases ts.tokens.len() - p,
{
    match expect(ts, p, TokenView::OpenParen) {
        Err(e) => Err(e),
        Ok((_, n)) => match expressions(ts, n, Seq::empty()) {
            Err(e) => Err(e),
            Ok((xs, m)) => {
                proof {
                    lemma_expressions_advance(ts, n, Seq::empty());
                }
                if at(ts, m, TokenView::Comma) {
                    tuples(ts, m + 1, done.push(xs))
                } else {
                    Ok((done.push(xs), m))
                }
            },
        },
    }
}

/// The column list of an `INSERT`, if one stands at `p`.
pub open spec fn column_list(ts: TokenStreamView, p: nat) -> Parsed<Option<Seq<Seq<char>>>> {
    if at(ts, p, TokenView::OpenParen) {
        match names(ts, p + 1, Seq::empty()) {
            Err(e) => Err(e),
            Ok((list, n)) => Ok((Some(list), n)),
        }
    } else {
        Ok((None, p))
    }
}

/// An `INSERT` statement at `p`.
pub open spec fn insert(ts: TokenStreamView, p: nat) -> Parsed<StatementView> {
    match expect(ts, p, TokenView::Keyword(Keyword::Insert)) {
        Err(e) => Err(e),
        Ok((_, a)) => match expect(ts, a, TokenView::Keyword(Keyword::Into)) {
            Err(e) => Err(e),
            Ok((_, b)) => match ident(ts, b) {
                Err(e) => Err(e),
                Ok((table_name, c)) => match column_list(ts, c) {
                    Err(e) => Err(e),
                    Ok((columns, d)) => match expect(ts, d, TokenView::Keyword(Keyword::Values)) {
                        Err(e) => Err(e),
                        Ok((_, f)) => match tuples(ts, f, Seq::empty()) {
                            Err(e) => Err(e),
                            Ok((values, end)) => Ok(
                                (StatementView::Insert { table_name, columns, values }, end),
                            ),
                        },
                    },
                },
            },
        },
    }
}

/// A statement at `p`, chosen by its first token. A token that begins no
/// statement is left unread.
pub open spec fn statement(ts: TokenStreamView, p: nat) -> Parsed<StatementView> {
    match peek(ts, p) {
        Err(e) => Err(Failure { error: e, at: p }),
        Ok(None) => Err(Failure { error: ParseErrorView::UnexpectedEnd, at: p }),
        Ok(Some(TokenView::Keyword(Keyword::Create))) => ddl(ts, p),
        Ok(Some(TokenView::Keyword(Keyword::Select))) => select(ts, p),
        Ok(Some(TokenView::Keyword(Keyword::Insert))) => insert(ts, p),
        Ok(Some(t)) => Err(Failure { error: ParseErrorView::UnexpectedToken(t), at: p }),
    }
}

/// A statement at `p`, its semicolon, and then the end of the text.
pub open spec fn terminated(ts: TokenStreamView, p: nat) -> Parsed<StatementView> {
    match statement(ts, p) {
        Err(e) => Err(e),
        Ok((s, n)) => match expect(ts, n, TokenView::Semicolon) {
            Err(e) => Err(e),
            Ok((_, m)) => match peek(ts, m) {
                Err(e) => Err(Failure { error: e, at: m }),
                Ok(Some(t)) => Err(Failure { error: ParseErrorView::UnexpectedToken(t), at: m }),
                Ok(None) => Ok((s, m)),
            },
        },
    }
}

/// The statement that the tokens of a text spell.
pub open spec fn parse(ts: TokenStreamView) -> Result<StatementView, ParseErrorView> {
    match terminated(ts, 0) {
        Err(f) => Err(f.error),
        Ok((s, _)) => Ok(s),
    }
}

/// The digits of a number's beginning spell no more than the whole.
pub proof fn lemma_decimal_grows(digits: Seq<char>, n: int)
    requires
        0 <= n <= digits.len(),
        all_digits(digits),
    ensures
        decimal(digits.take(n)) <= decimal(digits),
    decreases digits.len(),
{
    if n < digits.len() {
        let front = digits.drop_last();
        assert(front.take(n) == digits.take(n));
        assert(is_digit(digits[digits.len() - 1]));
        lemma_decimal_grows(front, n);
    } else {
        assert(digits.take(n) == digits);
    }
}

/// The options of a column end no earlier than they begin.
pub proof fn lemma_column_options_advance(ts: TokenStreamView, p: nat, column: ColumnView)
    requires
        p <= ts.tokens.len(),
    ensures
        column_options(ts, p, column) matches Ok((_, n)) ==> p <= n <= ts.tokens.len(),
    decreases ts.tokens.len() - p,
{
    if p < ts.tokens.len() {
        match ts.tokens[p as int] {
            TokenView::Keyword(Keyword::Null) => {
                lemma_column_options_advance(
                    ts,
                    p + 1,
                    ColumnView { nullable: Some(true), ..column },
                );
            },
            TokenView::Keyword(Keyword::Not) => {
                if let Ok((_, n)) = expect(ts, p + 1, TokenView::Keyword(Keyword::Null)) {
                    lemma_column_options_advance(
                        ts,
                        n,
                        ColumnView { nullable: Some(false), ..column },
                    );
                }
            },
            TokenView::Keyword(Keyword::Default) => {
                if let Ok((x, n)) = expression(ts, p + 1) {
                    lemma_column_options_advance(ts, n, ColumnView { default: Some(x), ..column });
                }
            },
            _ => {},
        }
    }
}

/// A column declaration takes at least its name and its datatype.
pub proof fn lemma_column_advances(ts: TokenStreamView, p: nat)
    ensures
        column(ts, p) matches Ok((_, n)) ==> p + 2 <= n <= ts.tokens.len(),
{
    if let Ok((name, n)) = ident(ts, p) {
        if let Ok((t, m)) = next(ts, n) {
            if let Some(datatype) = datatype(t) {
                lemma_column_options_advance(
                    ts,
                    m,
                    ColumnView { name, datatype, nullable: None, default: None },
                );
            }
        }
    }
}

/// A value tuple takes at least one expression and the closing parenthesis.
pub proof fn lemma_expressions_advance(ts: TokenStreamView, p: nat, done: Seq<ExpressionView>)
    ensures
        expressions(ts, p, done) matches Ok((_, n)) ==> p + 2 <= n <= ts.tokens.len(),
    decreases ts.tokens.len() - p,
{
    if let Ok((x, n)) = expression(ts, p) {
        if let Ok((TokenView::Comma, m)) = next(ts, n) {
            lemma_expressions_advance(ts, m, done.push(x));
        }
    }
}

} // verus!

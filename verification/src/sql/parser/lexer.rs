//! Tokens of SQL text.
//!
//! A text is a sequence of tokens, with white space between them where it is
//! needed. Keywords are read without regard to case, and a name is carried in
//! lower case. Reading stops at the first character that begins no token, or
//! at a string literal that is never closed; the tokens before that point are
//! still handed out, followed by the fault.
use vstd::prelude::*;
use vstd::string::StringExecFns;

use crate::error::{ParseError, ParseErrorView};

verus! {

/// `String::push` appends one character to the text.
pub assume_specification[ std::string::String::push ](text: &mut std::string::String, c: char)
    ensures
        final(text)@ == old(text)@.push(c),
;

/// The reserved words.
#[derive(Debug, Clone, Copy, PartialEq, Eq, Structural)]
pub enum Keyword {
    Create,
    Table,
    Int,
    Integer,
    Boolean,
    Bool,
    String,
    Text,
    Varchar,
    Float,
    Double,
    Select,
    From,
    Insert,
    Into,
    Values,
    True,
    False,
    Default,
    Not,
    Null,
    Primary,
    Key,
}

/// A token.
#[derive(Debug, PartialEq)]
pub enum Token {
    /// A reserved word.
    Keyword(Keyword),
    /// A name, in lower case.
    Ident(String),
    /// A string literal, without its quotes.
    String(String),
    /// A number: digits, and perhaps a point and more digits.
    Number(String),
    OpenParen,
    CloseParen,
    Comma,
    Semicolon,
    Asterisk,
    Plus,
    Minus,
    Slash,
}

/// The model of a [`Token`].
pub enum TokenView {
    Keyword(Keyword),
    Ident(Seq<char>),
    String(Seq<char>),
    Number(Seq<char>),
    OpenParen,
    CloseParen,
    Comma,
    Semicolon,
    Asterisk,
    Plus,
    Minus,
    Slash,
}

impl View for Token {
    type V = TokenView;

    open spec fn view(&self) -> TokenView {
        match self {
            Token::Keyword(k) => TokenView::Keyword(*k),
            Token::Ident(s) => TokenView::Ident(s@),
            Token::String(s) => TokenView::String(s@),
            Token::Number(s) => TokenView::Number(s@),
            Token::OpenParen => TokenView::OpenParen,
            Token::CloseParen => TokenView::CloseParen,
            Token::Comma => TokenView::Comma,
            Token::Semicolon => TokenView::Semicolon,
            Token::Asterisk => TokenView::Asterisk,
            Token::Plus => TokenView::Plus,
            Token::Minus => TokenView::Minus,
            Token::Slash => TokenView::Slash,
        }
    }
}

impl Clone for Token {
    fn clone(&self) -> (r: Self)
        ensures
            r == *self,
    {
        match self {
            Token::Keyword(k) => Token::Keyword(*k),
            Token::Ident(s) => Token::Ident(s.clone()),
            Token::String(s) => Token::String(s.clone()),
            Token::Number(s) => Token::Number(s.clone()),
            Token::OpenParen => Token::OpenParen,
            Token::CloseParen => Token::CloseParen,
            Token::Comma => Token::Comma,
            Token::Semicolon => Token::Semicolon,
            Token::Asterisk => Token::Asterisk,
            Token::Plus => Token::Plus,
            Token::Minus => Token::Minus,
            Token::Slash => Token::Slash,
        }
    }
}

impl TokenView {
    /// The token as it is written in a message.
    pub open spec fn text(self) -> Seq<char> {
        match self {
            TokenView::Keyword(k) => k.name(),
            TokenView::Ident(s) => s,
            TokenView::String(s) => s,
            TokenView::Number(s) => s,
            TokenView::OpenParen => "("@,
            TokenView::CloseParen => ")"@,
            TokenView::Comma => ","@,
            TokenView::Semicolon => ";"@,
            TokenView::Asterisk => "*"@,
            TokenView::Plus => "+"@,
            TokenView::Minus => "-"@,
            TokenView::Slash => "/"@,
        }
    }
}

impl Token {
    /// The token as it is written in a message.
    pub fn text(&self) -> (text: String)
        ensures
            text@ == self@.text(),
    {
        match self {
            Token::Keyword(k) => String::from_str(k.to_str()),
            Token::Ident(s) => s.clone(),
            Token::String(s) => s.clone(),
            Token::Number(s) => s.clone(),
            Token::OpenParen => String::from_str("("),
            Token::CloseParen => String::from_str(")"),
            Token::Comma => String::from_str(","),
            Token::Semicolon => String::from_str(";"),
            Token::Asterisk => String::from_str("*"),
            Token::Plus => String::from_str("+"),
            Token::Minus => String::from_str("-"),
            Token::Slash => String::from_str("/"),
        }
    }

    /// Whether two tokens are the same token.
    pub fn same(&self, other: &Token) -> (b: bool)
        ensures
            b == (self@ == other@),
    {
        match self {
            Token::Keyword(k) => match other {
                Token::Keyword(o) => *k == *o,
                _ => false,
            },
            Token::Ident(s) => match other {
                Token::Ident(o) => *s == *o,
                _ => false,
            },
            Token::String(s) => match other {
                Token::String(o) => *s == *o,
                _ => false,
            },
            Token::Number(s) => match other {
                Token::Number(o) => *s == *o,
                _ => false,
            },
            Token::OpenParen => matches!(other, Token::OpenParen),
            Token::CloseParen => matches!(other, Token::CloseParen),
            Token::Comma => matches!(other, Token::Comma),
            Token::Semicolon => matches!(other, Token::Semicolon),
            Token::Asterisk => matches!(other, Token::Asterisk),
            Token::Plus => matches!(other, Token::Plus),
            Token::Minus => matches!(other, Token::Minus),
            Token::Slash => matches!(other, Token::Slash),
        }
    }
}

impl DeepView for Token {
    type V = TokenView;

    open spec fn deep_view(&self) -> TokenView {
        self.view()
    }
}

// ------------------------------------------------------------------
// Characters
// ------------------------------------------------------------------
/// White space between tokens.
pub open spec fn is_space(c: char) -> bool {
    c == ' ' || c == '\t' || c == '\n' || c == '\r' || c == '\x0C'
}

/// A decimal digit.
pub open spec fn is_digit(c: char) -> bool {
    '0' <= c && c <= '9'
}

/// A letter of the Latin alphabet.
pub open spec fn is_letter(c: char) -> bool {
    ('a' <= c && c <= 'z') || ('A' <= c && c <= 'Z')
}

/// What may follow the first letter of a word.
pub open spec fn is_word_char(c: char) -> bool {
    is_letter(c) || is_digit(c) || c == '_'
}

/// What a string literal may hold.
pub open spec fn is_unquoted(c: char) -> bool {
    c != '\''
}

/// The letter in upper case; any other character as it is.
pub open spec fn to_upper(c: char) -> char {
    if 'a' <= c && c <= 'z' {
        ((c as u8) - 32) as char
    } else {
        c
    }
}

/// The letter in lower case; any other character as it is.
pub open spec fn to_lower(c: char) -> char {
    if 'A' <= c && c <= 'Z' {
        ((c as u8) + 32) as char
    } else {
        c
    }
}

/// The text in upper case.
pub open spec fn upper(s: Seq<char>) -> Seq<char> {
    s.map_values(|c: char| to_upper(c))
}

/// The text in lower case.
pub open spec fn lower(s: Seq<char>) -> Seq<char> {
    s.map_values(|c: char| to_lower(c))
}

/// The classes of characters that a token is a run of.
#[derive(Debug, Clone, Copy, PartialEq, Eq, Structural)]
pub enum Class {
    Space,
    Digit,
    Word,
    Unquoted,
}

impl Class {
    /// Whether `c` belongs to the class.
    pub open spec fn holds(self, c: char) -> bool {
        match self {
            Class::Space => is_space(c),
            Class::Digit => is_digit(c),
            Class::Word => is_word_char(c),
            Class::Unquoted => is_unquoted(c),
        }
    }

    /// Whether `c` belongs to the class.
    pub fn has(self, c: char) -> (b: bool)
        ensures
            b == self.holds(c),
    {
        match self {
            Class::Space => space(c),
            Class::Digit => digit(c),
            Class::Word => word_char(c),
            Class::Unquoted => c != '\'',
        }
    }
}

/// Whether `c` is white space.
pub fn space(c: char) -> (b: bool)
    ensures
        b == is_space(c),
{
    c == ' ' || c == '\t' || c == '\n' || c == '\r' || c == '\x0C'
}

/// Whether `c` is a digit.
pub fn digit(c: char) -> (b: bool)
    ensures
        b == is_digit(c),
{
    '0' <= c && c <= '9'
}

/// Whether `c` is a letter.
pub fn letter(c: char) -> (b: bool)
    ensures
        b == is_letter(c),
{
    ('a' <= c && c <= 'z') || ('A' <= c && c <= 'Z')
}

/// Whether `c` may follow the first letter of a word.
pub fn word_char(c: char) -> (b: bool)
    ensures
        b == is_word_char(c),
{
    letter(c) || digit(c) || c == '_'
}

/// The letter in upper case.
pub fn upper_char(c: char) -> (r: char)
    ensures
        r == to_upper(c),
{
    if 'a' <= c && c <= 'z' {
        ((c as u8) - 32u8) as char
    } else {
        c
    }
}

/// The letter in lower case.
pub fn lower_char(c: char) -> (r: char)
    ensures
        r == to_lower(c),
{
    if 'A' <= c && c <= 'Z' {
        ((c as u8) + 32u8) as char
    } else {
        c
    }
}

// ------------------------------------------------------------------
// Keywords
// ------------------------------------------------------------------
impl Keyword {
    /// The keyword's spelling, in upper case.
    pub open spec fn name(self) -> Seq<char> {
        match self {
            Keyword::Create => "CREATE"@,
            Keyword::Table => "TABLE"@,
            Keyword::Int => "INT"@,
            Keyword::Integer => "INTEGER"@,
            Keyword::Boolean => "BOOLEAN"@,
            Keyword::Bool => "BOOL"@,
            Keyword::String => "STRING"@,
            Keyword::Text => "TEXT"@,
            Keyword::Varchar => "VARCHAR"@,
            Keyword::Float => "FLOAT"@,
            Keyword::Double => "DOUBLE"@,
            Keyword::Select => "SELECT"@,
            Keyword::From => "FROM"@,
            Keyword::Insert => "INSERT"@,
            Keyword::Into => "INTO"@,
            Keyword::Values => "VALUES"@,
            Keyword::True => "TRUE"@,
            Keyword::False => "FALSE"@,
            Keyword::Default => "DEFAULT"@,
            Keyword::Not => "NOT"@,
            Keyword::Null => "NULL"@,
            Keyword::Primary => "PRIMARY"@,
            Keyword::Key => "KEY"@,
        }
    }

    /// The keyword spelled exactly so, if there is one.
    pub open spec fn named(word: Seq<char>) -> Option<Keyword> {
        if word == Keyword::Create.name() {
            Some(Keyword::Create)
        } else if word == Keyword::Table.name() {
            Some(Keyword::Table)
        } else if word == Keyword::Int.name() {
            Some(Keyword::Int)
        } else if word == Keyword::Integer.name() {
            Some(Keyword::Integer)
        } else if word == Keyword::Boolean.name() {
            Some(Keyword::Boolean)
        } else if word == Keyword::Bool.name() {
            Some(Keyword::Bool)
        } else if word == Keyword::String.name() {
            Some(Keyword::String)
        } else if word == Keyword::Text.name() {
            Some(Keyword::Text)
        } else if word == Keyword::Varchar.name() {
            Some(Keyword::Varchar)
        } else if word == Keyword::Float.name() {
            Some(Keyword::Float)
        } else if word == Keyword::Double.name() {
            Some(Keyword::Double)
        } else if word == Keyword::Select.name() {
            Some(Keyword::Select)
        } else if word == Keyword::From.name() {
            Some(Keyword::From)
        } else if word == Keyword::Insert.name() {
            Some(Keyword::Insert)
        } else if word == Keyword::Into.name() {
            Some(Keyword::Into)
        } else if word == Keyword::Values.name() {
            Some(Keyword::Values)
        } else if word == Keyword::True.name() {
            Some(Keyword::True)
        } else if word == Keyword::False.name() {
            Some(Keyword::False)
        } else if word == Keyword::Default.name() {
            Some(Keyword::Default)
        } else if word == Keyword::Not.name() {
            Some(Keyword::Not)
        } else if word == Keyword::Null.name() {
            Some(Keyword::Null)
        } else if word == Keyword::Primary.name() {
            Some(Keyword::Primary)
        } else if word == Keyword::Key.name() {
            Some(Keyword::Key)
        } else {
            None
        }
    }

    /// The keyword that a word stands for, whatever the case of its letters.
    pub open spec fn of(word: Seq<char>) -> Option<Keyword> {
        Keyword::named(upper(word))
    }

    /// The keyword's spelling, in upper case.
    pub fn to_str(&self) -> (s: &'static str)
        ensures
            s@ == self.name(),
    {
        match self {
            Keyword::Create => "CREATE",
            Keyword::Table => "TABLE",
            Keyword::Int => "INT",
            Keyword::Integer => "INTEGER",
            Keyword::Boolean => "BOOLEAN",
            Keyword::Bool => "BOOL",
            Keyword::String => "STRING",
            Keyword::Text => "TEXT",
            Keyword::Varchar => "VARCHAR",
            Keyword::Float => "FLOAT",
            Keyword::Double => "DOUBLE",
            Keyword::Select => "SELECT",
            Keyword::From => "FROM",
            Keyword::Insert => "INSERT",
            Keyword::Into => "INTO",
            Keyword::Values => "VALUES",
            Keyword::True => "TRUE",
            Keyword::False => "FALSE",
            Keyword::Default => "DEFAULT",
            Keyword::Not => "NOT",
            Keyword::Null => "NULL",
            Keyword::Primary => "PRIMARY",
            Keyword::Key => "KEY",
        }
    }

    /// The keyword that `ident` stands for, whatever the case of its letters.
    pub fn from_str(ident: &str) -> (r: Option<Keyword>)
        ensures
            r == Keyword::of(ident@),
    {
        let word = chars_of(ident);
        Keyword::from_chars(&word)
    }

    /// The keyword that `word` stands for, whatever the case of its letters.
    pub fn from_chars(word: &Vec<char>) -> (r: Option<Keyword>)
        ensures
            r == Keyword::of(word@),
    {
        let up = fold_upper(word);
        if spells(&up, Keyword::Create) {
            Some(Keyword::Create)
        } else if spells(&up, Keyword::Table) {
            Some(Keyword::Table)
        } else if spells(&up, Keyword::Int) {
            Some(Keyword::Int)
        } else if spells(&up, Keyword::Integer) {
            Some(Keyword::Integer)
        } else if spells(&up, Keyword::Boolean) {
            Some(Keyword::Boolean)
        } else if spells(&up, Keyword::Bool) {
            Some(Keyword::Bool)
        } else if spells(&up, Keyword::String) {
            Some(Keyword::String)
        } else if spells(&up, Keyword::Text) {
            Some(Keyword::Text)
        } else if spells(&up, Keyword::Varchar) {
            Some(Keyword::Varchar)
        } else if spells(&up, Keyword::Float) {
            Some(Keyword::Float)
        } else if spells(&up, Keyword::Double) {
            Some(Keyword::Double)
        } else if spells(&up, Keyword::Select) {
            Some(Keyword::Select)
        } else if spells(&up, Keyword::From) {
            Some(Keyword::From)
        } else if spells(&up, Keyword::Insert) {
            Some(Keyword::Insert)
        } else if spells(&up, Keyword::Into) {
            Some(Keyword::Into)
        } else if spells(&up, Keyword::Values) {
            Some(Keyword::Values)
        } else if spells(&up, Keyword::True) {
            Some(Keyword::True)
        } else if spells(&up, Keyword::False) {
            Some(Keyword::False)
        } else if spells(&up, Keyword::Default) {
            Some(Keyword::Default)
        } else if spells(&up, Keyword::Not) {
            Some(Keyword::Not)
        } else if spells(&up, Keyword::Null) {
            Some(Keyword::Null)
        } else if spells(&up, Keyword::Primary) {
            Some(Keyword::Primary)
        } else if spells(&up, Keyword::Key) {
            Some(Keyword::Key)
        } else {
            None
        }
    }
}

/// Whether `word` is the spelling of `keyword`.
fn spells(word: &Vec<char>, keyword: Keyword) -> (b: bool)
    ensures
        b == (word@ == keyword.name()),
{
    let name = keyword.to_str();
    let n: usize = name.unicode_len();
    if word.len() != n {
        return false;
    }
    let mut i: usize = 0;
    while i < n
        invariant
            n == name@.len(),
            n == word.len(),
            name@ == keyword.name(),
            i <= n,
            word@.subrange(0, i as int) == name@.subrange(0, i as int),
        decreases n - i,
    {
        if word[i] != name.get_char(i) {
            assert(word@[i as int] != name@[i as int]);
            return false;
        }
        assert(word@.subrange(0, i + 1) == word@.subrange(0, i as int).push(word@[i as int]));
        assert(name@.subrange(0, i + 1) == name@.subrange(0, i as int).push(name@[i as int]));
        i = i + 1;
    }
    assert(word@.subrange(0, n as int) == word@);
    assert(name@.subrange(0, n as int) == name@);
    true
}

/// The characters of a text.
pub fn chars_of(s: &str) -> (v: Vec<char>)
    ensures
        v@ == s@,
{
    let n: usize = s.unicode_len();
    let mut v: Vec<char> = Vec::new();
    let mut i: usize = 0;
    while i < n
        invariant
            n == s@.len(),
            i <= n,
            v@ == s@.subrange(0, i as int),
        decreases n - i,
    {
        v.push(s.get_char(i));
        i = i + 1;
    }
    v
}

/// The text that a run of characters spells, from `from` up to `to`.
pub fn text_of(chars: &Vec<char>, from: usize, to: usize) -> (s: String)
    requires
        from <= to <= chars.len(),
    ensures
        s@ == chars@.subrange(from as int, to as int),
{
    let mut s = String::new();
    let mut i: usize = from;
    while i < to
        invariant
            from <= i <= to <= chars.len(),
            s@ == chars@.subrange(from as int, i as int),
        decreases to - i,
    {
        s.push(chars[i]);
        i = i + 1;
    }
    s
}

/// The word in upper case.
fn fold_upper(word: &Vec<char>) -> (r: Vec<char>)
    ensures
        r@ == upper(word@),
{
    let mut r: Vec<char> = Vec::new();
    let mut i: usize = 0;
    while i < word.len()
        invariant
            i <= word.len(),
            r@ == upper(word@.subrange(0, i as int)),
        decreases word.len() - i,
    {
        r.push(upper_char(word[i]));
        assert(r@ == upper(word@.subrange(0, i + 1)));
        i = i + 1;
    }
    assert(word@.subrange(0, word.len() as int) == word@);
    r
}

/// The word in lower case.
fn fold_lower(word: &Vec<char>) -> (r: String)
    ensures
        r@ == lower(word@),
{
    let mut r = String::new();
    let mut i: usize = 0;
    while i < word.len()
        invariant
            i <= word.len(),
            r@ == lower(word@.subrange(0, i as int)),
        decreases word.len() - i,
    {
        r.push(lower_char(word[i]));
        assert(r@ == lower(word@.subrange(0, i + 1)));
        i = i + 1;
    }
    assert(word@.subrange(0, word.len() as int) == word@);
    r
}

// ------------------------------------------------------------------
// One token
// ------------------------------------------------------------------
/// How many characters at the start of `s` belong to `class`.
pub open spec fn run_len(s: Seq<char>, class: Class) -> nat
    decreases s.len(),
{
    if s.len() > 0 && class.holds(s[0]) {
        1 + run_len(s.drop_first(), class)
    } else {
        0
    }
}

/// The token that a word is: its keyword, or else a name in lower case.
pub open spec fn word_token(word: Seq<char>) -> TokenView {
    match Keyword::of(word) {
        Some(k) => TokenView::Keyword(k),
        None => TokenView::Ident(lower(word)),
    }
}

/// The token that a single character is, if it is one.
pub open spec fn symbol(c: char) -> Option<TokenView> {
    if c == '*' {
        Some(TokenView::Asterisk)
    } else if c == '(' {
        Some(TokenView::OpenParen)
    } else if c == ')' {
        Some(TokenView::CloseParen)
    } else if c == ',' {
        Some(TokenView::Comma)
    } else if c == ';' {
        Some(TokenView::Semicolon)
    } else if c == '+' {
        Some(TokenView::Plus)
    } else if c == '-' {
        Some(TokenView::Minus)
    } else if c == '/' {
        Some(TokenView::Slash)
    } else {
        None
    }
}

/// How many characters the number at the start of `s` takes: its digits,
/// and a point with the digits after it, if a point follows them.
pub open spec fn number_len(s: Seq<char>) -> nat {
    let whole = run_len(s, Class::Digit);
    if whole < s.len() && s[whole as int] == '.' {
        whole + 1 + run_len(s.skip(whole as int + 1), Class::Digit)
    } else {
        whole
    }
}

/// What stands at the start of a text.
pub enum Scan {
    /// A token, and the number of characters up to its end.
    Token(TokenView, nat),
    /// Nothing but white space.
    End,
    /// No token.
    Fault(ParseErrorView),
}

/// The first token of `s` that begins at its first character.
pub open spec fn scan_token(s: Seq<char>) -> Scan
    recommends
        s.len() > 0,
{
    let c = s[0];
    if c == '\'' {
        let n = run_len(s.skip(1), Class::Unquoted);
        if 1 + n < s.len() {
            Scan::Token(TokenView::String(s.subrange(1, 1 + n as int)), n + 2)
        } else {
            Scan::Fault(ParseErrorView::UnterminatedString)
        }
    } else if is_digit(c) {
        let n = number_len(s);
        Scan::Token(TokenView::Number(s.take(n as int)), n)
    } else if is_letter(c) {
        let n = 1 + run_len(s.skip(1), Class::Word);
        Scan::Token(word_token(s.take(n as int)), n)
    } else {
        match symbol(c) {
            Some(t) => Scan::Token(t, 1),
            None => Scan::Fault(ParseErrorView::UnexpectedCharacter(c)),
        }
    }
}

/// The first token of `s`, after the white space before it.
pub open spec fn scan(s: Seq<char>) -> Scan {
    let w = run_len(s, Class::Space);
    if w >= s.len() {
        Scan::End
    } else {
        match scan_token(s.skip(w as int)) {
            Scan::Token(t, n) => Scan::Token(t, w + n),
            other => other,
        }
    }
}

// ------------------------------------------------------------------
// All tokens
// ------------------------------------------------------------------
/// The tokens of a text, and what stopped the reading if it was not the end
/// of the text.
pub struct TokenStream {
    pub tokens: Vec<Token>,
    pub fault: Option<ParseError>,
}

/// The model of a [`TokenStream`].
pub struct TokenStreamView {
    pub tokens: Seq<TokenView>,
    pub fault: Option<ParseErrorView>,
}

impl View for TokenStream {
    type V = TokenStreamView;

    open spec fn view(&self) -> TokenStreamView {
        TokenStreamView {
            tokens: self.tokens.deep_view(),
            fault: match self.fault {
                Some(e) => Some(e@),
                None => None,
            },
        }
    }
}

/// The tokens of `s`.
pub open spec fn lex(s: Seq<char>) -> TokenStreamView
    decreases s.len(),
{
    match scan(s) {
        Scan::End => TokenStreamView { tokens: Seq::empty(), fault: None },
        Scan::Fault(e) => TokenStreamView { tokens: Seq::empty(), fault: Some(e) },
        Scan::Token(t, n) => {
            proof {
                lemma_scan_bounds(s);
            }
            let rest = lex(s.skip(n as int));
            TokenStreamView { tokens: seq![t] + rest.tokens, fault: rest.fault }
        },
    }
}

/// A run of a class ends within the text, at a character outside the class
/// or at the end of the text, and holds only characters of the class.
pub proof fn lemma_run_len(s: Seq<char>, class: Class)
    ensures
        run_len(s, class) <= s.len(),
        forall|i: int| 0 <= i < run_len(s, class) ==> class.holds(#[trigger] s[i]),
        run_len(s, class) < s.len() ==> !class.holds(s[run_len(s, class) as int]),
    decreases s.len(),
{
    if s.len() > 0 && class.holds(s[0]) {
        lemma_run_len(s.drop_first(), class);
        let n = run_len(s.drop_first(), class);
        assert forall|i: int| 0 <= i < run_len(s, class) implies class.holds(#[trigger] s[i]) by {
            if i > 0 {
                assert(s[i] == s.drop_first()[i - 1]);
            }
        }
        if run_len(s, class) < s.len() {
            assert(s[run_len(s, class) as int] == s.drop_first()[n as int]);
        }
    }
}

/// A run is as long as the stretch of the class's characters that ends at a
/// character outside the class, or at the end of the text.
pub proof fn lemma_run_len_is(s: Seq<char>, class: Class, n: nat)
    requires
        n <= s.len(),
        forall|i: int| 0 <= i < n ==> class.holds(#[trigger] s[i]),
        n < s.len() ==> !class.holds(s[n as int]),
    ensures
        run_len(s, class) == n,
    decreases s.len(),
{
    if n > 0 {
        assert(class.holds(s[0]));
        let t = s.drop_first();
        assert forall|i: int| 0 <= i < n - 1 implies class.holds(#[trigger] t[i]) by {
            assert(t[i] == s[i + 1]);
        }
        if n - 1 < t.len() {
            assert(t[n - 1] == s[n as int]);
        }
        lemma_run_len_is(t, class, (n - 1) as nat);
    }
}

/// A token takes at least one character, and none beyond the text.
pub proof fn lemma_scan_bounds(s: Seq<char>)
    ensures
        match scan(s) {
            Scan::Token(_, n) => 0 < n <= s.len(),
            _ => true,
        },
{
    let w = run_len(s, Class::Space);
    lemma_run_len(s, Class::Space);
    if w < s.len() {
        let t = s.skip(w as int);
        lemma_run_len(t.skip(1), Class::Unquoted);
        lemma_run_len(t.skip(1), Class::Word);
        lemma_run_len(t, Class::Digit);
        let whole = run_len(t, Class::Digit);
        if whole < t.len() {
            lemma_run_len(t.skip(whole as int + 1), Class::Digit);
        }
        if is_digit(t[0]) {
            assert(whole > 0);
        }
    }
}

// ------------------------------------------------------------------
// Reading
// ------------------------------------------------------------------
/// Where the run of `class` that begins at `from` ends.
fn run_end(chars: &Vec<char>, from: usize, class: Class) -> (to: usize)
    requires
        from <= chars.len(),
    ensures
        from <= to <= chars.len(),
        to - from == run_len(chars@.skip(from as int), class),
{
    let mut i: usize = from;
    let mut going = true;
    while going
        invariant
            from <= i <= chars.len(),
            forall|j: int| from <= j < i ==> class.holds(#[trigger] chars@[j]),
            !going ==> (i == chars.len() || !class.holds(chars@[i as int])),
        decreases chars.len() - i + (if going { 1int } else { 0int }),
    {
        if i < chars.len() && class.has(chars[i]) {
            i = i + 1;
        } else {
            going = false;
        }
    }
    proof {
        let s = chars@.skip(from as int);
        assert forall|j: int| 0 <= j < i - from implies class.holds(#[trigger] s[j]) by {
            assert(s[j] == chars@[from + j]);
        }
        lemma_run_len_is(s, class, (i - from) as nat);
    }
    i
}

/// The characters from `from` up to `to`.
fn slice_of(chars: &Vec<char>, from: usize, to: usize) -> (r: Vec<char>)
    requires
        from <= to <= chars.len(),
    ensures
        r@ == chars@.subrange(from as int, to as int),
{
    let mut r: Vec<char> = Vec::new();
    let mut i: usize = from;
    while i < to
        invariant
            from <= i <= to <= chars.len(),
            r@ == chars@.subrange(from as int, i as int),
        decreases to - i,
    {
        r.push(chars[i]);
        i = i + 1;
    }
    r
}

/// The token that a single character is, if it is one.
fn symbol_of(c: char) -> (r: Option<Token>)
    ensures
        r.deep_view() == symbol(c),
{
    if c == '*' {
        Some(Token::Asterisk)
    } else if c == '(' {
        Some(Token::OpenParen)
    } else if c == ')' {
        Some(Token::CloseParen)
    } else if c == ',' {
        Some(Token::Comma)
    } else if c == ';' {
        Some(Token::Semicolon)
    } else if c == '+' {
        Some(Token::Plus)
    } else if c == '-' {
        Some(Token::Minus)
    } else if c == '/' {
        Some(Token::Slash)
    } else {
        None
    }
}

/// A reader of tokens: a text, and how far it has been read.
pub struct Lexer {
    chars: Vec<char>,
    pos: usize,
}

impl Lexer {
    #[verifier::type_invariant]
    spec fn inv(&self) -> bool {
        self.pos <= self.chars.len()
    }

    /// The text that is still to be read.
    pub closed spec fn rest(&self) -> Seq<char> {
        self.chars@.skip(self.pos as int)
    }

    /// A reader at the start of `input`.
    pub fn new(input: &str) -> (lexer: Lexer)
        ensures
            lexer.rest() == input@,
    {
        let chars = chars_of(input);
        assert(chars@.skip(0) == chars@);
        Lexer { chars, pos: 0 }
    }

    /// Reads the next token. At the end of the text there is none. Where the
    /// text holds no token, the reader stays before the fault and reports it.
    pub fn next(&mut self) -> (r: Option<Result<Token, ParseError>>)
        ensures
            match scan(old(self).rest()) {
                Scan::End => r is None && final(self).rest().len() == 0,
                Scan::Fault(e) => r matches Some(Err(f)) && f@ == e && final(self).rest() == old(
                    self,
                ).rest().skip(run_len(old(self).rest(), Class::Space) as int),
                Scan::Token(t, n) => r matches Some(Ok(token)) && token@ == t && n <= old(
                    self,
                ).rest().len() && final(self).rest() == old(self).rest().skip(n as int),
            },
    {
        proof {
            use_type_invariant(&*self);
            lemma_scan_bounds(self.rest());
        }
        let ghost before = self.rest();
        let len = self.chars.len();
        let start = run_end(&self.chars, self.pos, Class::Space);
        self.pos = start;
        let ghost s = self.chars@.skip(start as int);
        assert(s == before.skip(run_len(before, Class::Space) as int));
        if start >= len {
            return None;
        }
        let c = self.chars[start];
        assert(c == s[0]);
        if c == '\'' {
            let end = run_end(&self.chars, start + 1, Class::Unquoted);
            assert(self.chars@.skip(start + 1) == s.skip(1));
            if end < len {
                let text = text_of(&self.chars, start + 1, end);
                assert(self.chars@.subrange(start + 1, end as int) == s.subrange(
                    1,
                    1 + (end - start - 1),
                ));
                self.pos = end + 1;
                assert(self.chars@.skip(end + 1) == before.skip(end + 1 - old(self).pos));
                Some(Ok(Token::String(text)))
            } else {
                Some(Err(ParseError::UnterminatedString))
            }
        } else if digit(c) {
            let whole = run_end(&self.chars, start, Class::Digit);
            let end = if whole < len && self.chars[whole] == '.' {
                assert(self.chars@.skip(whole + 1) == s.skip(whole - start + 1));
                run_end(&self.chars, whole + 1, Class::Digit)
            } else {
                whole
            };
            assert(whole < len ==> self.chars@[whole as int] == s[whole - start]);
            let text = text_of(&self.chars, start, end);
            assert(self.chars@.subrange(start as int, end as int) == s.take(end - start));
            self.pos = end;
            assert(self.chars@.skip(end as int) == before.skip(end - old(self).pos));
            Some(Ok(Token::Number(text)))
        } else if letter(c) {
            let end = run_end(&self.chars, start + 1, Class::Word);
            assert(self.chars@.skip(start + 1) == s.skip(1));
            let word = slice_of(&self.chars, start, end);
            assert(self.chars@.subrange(start as int, end as int) == s.take(end - start));
            self.pos = end;
            assert(self.chars@.skip(end as int) == before.skip(end - old(self).pos));
            match Keyword::from_chars(&word) {
                Some(k) => Some(Ok(Token::Keyword(k))),
                None => Some(Ok(Token::Ident(fold_lower(&word)))),
            }
        } else {
            match symbol_of(c) {
                Some(t) => {
                    self.pos = start + 1;
                    assert(self.chars@.skip(start + 1) == before.skip(start + 1 - old(self).pos));
                    Some(Ok(t))
                },
                None => Some(Err(ParseError::UnexpectedCharacter(c))),
            }
        }
    }
}

/// Reads all the tokens of `input`.
pub fn tokenize(input: &str) -> (stream: TokenStream)
    ensures
        stream@ == lex(input@),
{
    let mut lexer = Lexer::new(input);
    let mut tokens: Vec<Token> = Vec::new();
    loop
        invariant
            lex(input@).tokens == tokens.deep_view() + lex(lexer.rest()).tokens,
            lex(input@).fault == lex(lexer.rest()).fault,
        decreases lexer.rest().len(),
    {
        let ghost before = lexer.rest();
        let ghost read = tokens.deep_view();
        proof {
            lemma_scan_bounds(before);
        }
        match lexer.next() {
            None => {
                assert(tokens.deep_view() + Seq::<TokenView>::empty() == tokens.deep_view());
                return TokenStream { tokens, fault: None };
            },
            Some(Err(e)) => {
                assert(tokens.deep_view() + Seq::<TokenView>::empty() == tokens.deep_view());
                return TokenStream { tokens, fault: Some(e) };
            },
            Some(Ok(t)) => {
                tokens.push(t);
                assert(tokens.deep_view() == read.push(t@));
                assert(read.push(t@) + lex(lexer.rest()).tokens == read + (seq![t@] + lex(
                    lexer.rest(),
                ).tokens));
            },
        }
    }
}

} // verus!

use vstd::prelude::*;

use crate::context::{errors_view, Context};
use crate::literal::Number;
use vstd::utf8::{encode_utf8, valid_utf8};

verus! {

/// A lexical token. Literal tokens carry their text: a string's contents, a
/// number's lexeme, an identifier's name.
#[derive(Debug, Clone, PartialEq)]
pub enum Token {
    LeftParen,
    RightParen,
    LeftBrace,
    RightBrace,
    RightBracket,
    LeftBracket,
    Star,
    Dot,
    Comma,
    Plus,
    Minus,
    SemiColon,
    Equal,
    EqualEqual,
    Bang,
    BangEqual,
    Less,
    LessEqual,
    Greater,
    GreaterEqual,
    EOF,
    Slash,
    String(String),
    Number(String),
    Identifier(String),
    And,
    Class,
    Else,
    False,
    For,
    Fun,
    If,
    Nil,
    Or,
    Print,
    Return,
    Super,
    This,
    True,
    Var,
    While,
}

/// The kind of a token, without its text.
#[derive(Debug, Clone, Copy, PartialEq, Eq, Structural)]
pub enum TokenKind {
    LeftParen,
    RightParen,
    LeftBrace,
    RightBrace,
    RightBracket,
    LeftBracket,
    Star,
    Dot,
    Comma,
    Plus,
    Minus,
    SemiColon,
    Equal,
    EqualEqual,
    Bang,
    BangEqual,
    Less,
    LessEqual,
    Greater,
    GreaterEqual,
    EOF,
    Slash,
    String,
    Number,
    Identifier,
    And,
    Class,
    Else,
    False,
    For,
    Fun,
    If,
    Nil,
    Or,
    Print,
    Return,
    Super,
    This,
    True,
    Var,
    While,
}
/// The model of a token: its kind and its text (empty for fixed tokens).
pub type TokenView = (TokenKind, Seq<char>);

impl View for Token {
    type V = TokenView;

    open spec fn view(&self) -> TokenView {
        (self.spec_kind(), self.spec_text())
    }
}

pub open spec fn token_views(t: Seq<Token>) -> Seq<TokenView> {
    t.map_values(|x: Token| x@)
}

/// The spelling of a fixed token, and of a keyword.
pub open spec fn fixed_lexeme(k: TokenKind) -> Seq<char> {
    fixed_lexeme_str(k)@
}

pub open spec fn fixed_lexeme_str(k: TokenKind) -> &'static str {
    match k {
        TokenKind::LeftParen => "(",
        TokenKind::RightParen => ")",
        TokenKind::LeftBrace => "{",
        TokenKind::RightBrace => "}",
        TokenKind::RightBracket => "]",
        TokenKind::LeftBracket => "[",
        TokenKind::Star => "*",
        TokenKind::Dot => ".",
        TokenKind::Comma => ",",
        TokenKind::Plus => "+",
        TokenKind::Minus => "-",
        TokenKind::SemiColon => ";",
        TokenKind::Equal => "=",
        TokenKind::EqualEqual => "==",
        TokenKind::Bang => "!",
        TokenKind::BangEqual => "!=",
        TokenKind::Less => "<",
        TokenKind::LessEqual => "<=",
        TokenKind::Greater => ">",
        TokenKind::GreaterEqual => ">=",
        TokenKind::EOF => "",
        TokenKind::Slash => "/",
        TokenKind::And => "and",
        TokenKind::Class => "class",
        TokenKind::Else => "else",
        TokenKind::False => "false",
        TokenKind::For => "for",
        TokenKind::Fun => "fun",
        TokenKind::If => "if",
        TokenKind::Nil => "nil",
        TokenKind::Or => "or",
        TokenKind::Print => "print",
        TokenKind::Return => "return",
        TokenKind::Super => "super",
        TokenKind::This => "this",
        TokenKind::True => "true",
        TokenKind::Var => "var",
        TokenKind::While => "while",
        _ => "",
    }
}

/// The token's name as the `tokenize` listing prints it.
pub open spec fn kind_name_str(k: TokenKind) -> &'static str {
    match k {
        TokenKind::LeftParen => "LEFT_PAREN",
        TokenKind::RightParen => "RIGHT_PAREN",
        TokenKind::LeftBrace => "LEFT_BRACE",
        TokenKind::RightBrace => "RIGHT_BRACE",
        TokenKind::RightBracket => "RIGHT_BRACKET",
        TokenKind::LeftBracket => "LEFT_BRACKET",
        TokenKind::Star => "STAR",
        TokenKind::Dot => "DOT",
        TokenKind::Comma => "COMMA",
        TokenKind::Plus => "PLUS",
        TokenKind::Minus => "MINUS",
        TokenKind::SemiColon => "SEMICOLON",
        TokenKind::Equal => "EQUAL",
        TokenKind::EqualEqual => "EQUAL_EQUAL",
        TokenKind::Bang => "BANG",
        TokenKind::BangEqual => "BANG_EQUAL",
        TokenKind::Less => "LESS",
        TokenKind::LessEqual => "LESS_EQUAL",
        TokenKind::Greater => "GREATER",
        TokenKind::GreaterEqual => "GREATER_EQUAL",
        TokenKind::EOF => "EOF",
        TokenKind::Slash => "SLASH",
        TokenKind::String => "STRING",
        TokenKind::Number => "NUMBER",
        TokenKind::Identifier => "IDENTIFIER",
        TokenKind::And => "AND",
        TokenKind::Class => "CLASS",
        TokenKind::Else => "ELSE",
        TokenKind::False => "FALSE",
        TokenKind::For => "FOR",
        TokenKind::Fun => "FUN",
        TokenKind::If => "IF",
        TokenKind::Nil => "NIL",
        TokenKind::Or => "OR",
        TokenKind::Print => "PRINT",
        TokenKind::Return => "RETURN",
        TokenKind::Super => "SUPER",
        TokenKind::This => "THIS",
        TokenKind::True => "TRUE",
        TokenKind::Var => "VAR",
        TokenKind::While => "WHILE",
    }
}

/// The text a token was lexed from.
pub open spec fn lexeme_of(t: TokenView) -> Seq<char> {
    match t.0 {
        TokenKind::String => seq!['"'] + t.1 + seq!['"'],
        TokenKind::Number | TokenKind::Identifier => t.1,
        _ => fixed_lexeme(t.0),
    }
}

impl Token {
    pub open spec fn spec_kind(&self) -> TokenKind {
        match self {
            Token::LeftParen => TokenKind::LeftParen,
            Token::RightParen => TokenKind::RightParen,
            Token::LeftBrace => TokenKind::LeftBrace,
            Token::RightBrace => TokenKind::RightBrace,
            Token::RightBracket => TokenKind::RightBracket,
            Token::LeftBracket => TokenKind::LeftBracket,
            Token::Star => TokenKind::Star,
            Token::Dot => TokenKind::Dot,
            Token::Comma => TokenKind::Comma,
            Token::Plus => TokenKind::Plus,
            Token::Minus => TokenKind::Minus,
            Token::SemiColon => TokenKind::SemiColon,
            Token::Equal => TokenKind::Equal,
            Token::EqualEqual => TokenKind::EqualEqual,
            Token::Bang => TokenKind::Bang,
            Token::BangEqual => TokenKind::BangEqual,
            Token::Less => TokenKind::Less,
            Token::LessEqual => TokenKind::LessEqual,
            Token::Greater => TokenKind::Greater,
            Token::GreaterEqual => TokenKind::GreaterEqual,
            Token::EOF => TokenKind::EOF,
            Token::Slash => TokenKind::Slash,
            Token::String(_) => TokenKind::String,
            Token::Number(_) => TokenKind::Number,
            Token::Identifier(_) => TokenKind::Identifier,
            Token::And => TokenKind::And,
            Token::Class => TokenKind::Class,
            Token::Else => TokenKind::Else,
            Token::False => TokenKind::False,
            Token::For => TokenKind::For,
            Token::Fun => TokenKind::Fun,
            Token::If => TokenKind::If,
            Token::Nil => TokenKind::Nil,
            Token::Or => TokenKind::Or,
            Token::Print => TokenKind::Print,
            Token::Return => TokenKind::Return,
            Token::Super => TokenKind::Super,
            Token::This => TokenKind::This,
            Token::True => TokenKind::True,
            Token::Var => TokenKind::Var,
            Token::While => TokenKind::While,
        }
    }

    pub open spec fn spec_text(&self) -> Seq<char> {
        match self {
            Token::String(s) => s@,
            Token::Number(s) => s@,
            Token::Identifier(s) => s@,
            _ => Seq::empty(),
        }
    }

    pub fn kind(&self) -> (r: TokenKind)
        ensures
            r == self@.0,
    {
        match self {
            Token::LeftParen => TokenKind::LeftParen,
            Token::RightParen => TokenKind::RightParen,
            Token::LeftBrace => TokenKind::LeftBrace,
            Token::RightBrace => TokenKind::RightBrace,
            Token::RightBracket => TokenKind::RightBracket,
            Token::LeftBracket => TokenKind::LeftBracket,
            Token::Star => TokenKind::Star,
            Token::Dot => TokenKind::Dot,
            Token::Comma => TokenKind::Comma,
            Token::Plus => TokenKind::Plus,
            Token::Minus => TokenKind::Minus,
            Token::SemiColon => TokenKind::SemiColon,
            Token::Equal => TokenKind::Equal,
            Token::EqualEqual => TokenKind::EqualEqual,
            Token::Bang => TokenKind::Bang,
            Token::BangEqual => TokenKind::BangEqual,
            Token::Less => TokenKind::Less,
            Token::LessEqual => TokenKind::LessEqual,
            Token::Greater => TokenKind::Greater,
            Token::GreaterEqual => TokenKind::GreaterEqual,
            Token::EOF => TokenKind::EOF,
            Token::Slash => TokenKind::Slash,
            Token::String(_) => TokenKind::String,
            Token::Number(_) => TokenKind::Number,
            Token::Identifier(_) => TokenKind::Identifier,
            Token::And => TokenKind::And,
            Token::Class => TokenKind::Class,
            Token::Else => TokenKind::Else,
            Token::False => TokenKind::False,
            Token::For => TokenKind::For,
            Token::Fun => TokenKind::Fun,
            Token::If => TokenKind::If,
            Token::Nil => TokenKind::Nil,
            Token::Or => TokenKind::Or,
            Token::Print => TokenKind::Print,
            Token::Return => TokenKind::Return,
            Token::Super => TokenKind::Super,
            Token::This => TokenKind::This,
            Token::True => TokenKind::True,
            Token::Var => TokenKind::Var,
            Token::While => TokenKind::While,
        }
    }

    /// The name of the token's kind (`LEFT_PAREN`, `NUMBER`, `WHILE`, ...).
    pub fn token_type(&self) -> (r: String)
        ensures
            r@ == kind_name_str(self@.0)@,
    {
        String::from_str(kind_name(self.kind()))
    }

    /// The source text of the token; a string token is quoted.
    pub fn lexeme(&self) -> (r: String)
        ensures
            r@ == lexeme_of(self@),
    {
        match self {
            Token::String(text) => {
                let mut r = String::from_str("\"");
                r.append(text.as_str());
                r.append("\"");
                proof {
                    reveal_strlit("\"");
                }
                r
            },
            Token::Number(text) => text.clone(),
            Token::Identifier(name) => name.clone(),
            _ => String::from_str(fixed_spelling(self.kind())),
        }
    }
}

fn kind_name(k: TokenKind) -> (r: &'static str)
    ensures
        r == kind_name_str(k),
{
    match k {
        TokenKind::LeftParen => "LEFT_PAREN",
        TokenKind::RightParen => "RIGHT_PAREN",
        TokenKind::LeftBrace => "LEFT_BRACE",
        TokenKind::RightBrace => "RIGHT_BRACE",
        TokenKind::RightBracket => "RIGHT_BRACKET",
        TokenKind::LeftBracket => "LEFT_BRACKET",
        TokenKind::Star => "STAR",
        TokenKind::Dot => "DOT",
        TokenKind::Comma => "COMMA",
        TokenKind::Plus => "PLUS",
        TokenKind::Minus => "MINUS",
        TokenKind::SemiColon => "SEMICOLON",
        TokenKind::Equal => "EQUAL",
        TokenKind::EqualEqual => "EQUAL_EQUAL",
        TokenKind::Bang => "BANG",
        TokenKind::BangEqual => "BANG_EQUAL",
        TokenKind::Less => "LESS",
        TokenKind::LessEqual => "LESS_EQUAL",
        TokenKind::Greater => "GREATER",
        TokenKind::GreaterEqual => "GREATER_EQUAL",
        TokenKind::EOF => "EOF",
        TokenKind::Slash => "SLASH",
        TokenKind::String => "STRING",
        TokenKind::Number => "NUMBER",
        TokenKind::Identifier => "IDENTIFIER",
        TokenKind::And => "AND",
        TokenKind::Class => "CLASS",
        TokenKind::Else => "ELSE",
        TokenKind::False => "FALSE",
        TokenKind::For => "FOR",
        TokenKind::Fun => "FUN",
        TokenKind::If => "IF",
        TokenKind::Nil => "NIL",
        TokenKind::Or => "OR",
        TokenKind::Print => "PRINT",
        TokenKind::Return => "RETURN",
        TokenKind::Super => "SUPER",
        TokenKind::This => "THIS",
        TokenKind::True => "TRUE",
        TokenKind::Var => "VAR",
        TokenKind::While => "WHILE",
    }
}

pub(crate) fn fixed_spelling(k: TokenKind) -> (r: &'static str)
    ensures
        r == fixed_lexeme_str(k),
{
    match k {
        TokenKind::LeftParen => "(",
        TokenKind::RightParen => ")",
        TokenKind::LeftBrace => "{",
        TokenKind::RightBrace => "}",
        TokenKind::RightBracket => "]",
        TokenKind::LeftBracket => "[",
        TokenKind::Star => "*",
        TokenKind::Dot => ".",
        TokenKind::Comma => ",",
        TokenKind::Plus => "+",
        TokenKind::Minus => "-",
        TokenKind::SemiColon => ";",
        TokenKind::Equal => "=",
        TokenKind::EqualEqual => "==",
        TokenKind::Bang => "!",
        TokenKind::BangEqual => "!=",
        TokenKind::Less => "<",
        TokenKind::LessEqual => "<=",
        TokenKind::Greater => ">",
        TokenKind::GreaterEqual => ">=",
        TokenKind::EOF => "",
        TokenKind::Slash => "/",
        TokenKind::And => "and",
        TokenKind::Class => "class",
        TokenKind::Else => "else",
        TokenKind::False => "false",
        TokenKind::For => "for",
        TokenKind::Fun => "fun",
        TokenKind::If => "if",
        TokenKind::Nil => "nil",
        TokenKind::Or => "or",
        TokenKind::Print => "print",
        TokenKind::Return => "return",
        TokenKind::Super => "super",
        TokenKind::This => "this",
        TokenKind::True => "true",
        TokenKind::Var => "var",
        TokenKind::While => "while",
        _ => "",
    }
}



pub open spec fn is_digit(c: char) -> bool {
    '0' <= c && c <= '9'
}

pub open spec fn is_alpha(c: char) -> bool {
    ('a' <= c && c <= 'z') || ('A' <= c && c <= 'Z')
}

pub open spec fn starts_identifier(c: char) -> bool {
    is_alpha(c) || c == '_'
}

pub open spec fn continues_identifier(c: char) -> bool {
    starts_identifier(c) || is_digit(c)
}

/// The first index at or after `j` that holds `c`, or the length of `s`.
pub open spec fn find_from(s: Seq<char>, j: int, c: char) -> int
    decreases s.len() - j,
{
    if j < 0 || j >= s.len() {
        s.len() as int
    } else if s[j] == c {
        j
    } else {
        find_from(s, j + 1, c)
    }
}

/// Where an identifier that continues at `j` ends.
pub open spec fn identifier_end(s: Seq<char>, j: int) -> int
    decreases s.len() - j,
{
    if 0 <= j < s.len() && continues_identifier(s[j]) {
        identifier_end(s, j + 1)
    } else {
        j
    }
}

/// Where a number that continues at `j` ends: digits, and at most one `.`.
pub open spec fn number_end(s: Seq<char>, j: int, seen_dot: bool) -> int
    decreases s.len() - j,
{
    if 0 <= j < s.len() && (is_digit(s[j]) || (s[j] == '.' && !seen_dot)) {
        number_end(s, j + 1, seen_dot || s[j] == '.')
    } else {
        j
    }
}

/// The number of newlines in `s[a..b]`.
pub open spec fn newlines(s: Seq<char>, a: int, b: int) -> int
    decreases b - a,
{
    if a >= b || a < 0 || b > s.len() {
        0
    } else {
        newlines(s, a, b - 1) + if s[b - 1] == '\n' { 1int } else { 0int }
    }
}

pub open spec fn keyword(w: Seq<char>) -> Option<TokenKind> {
    if w == seq!['a', 'n', 'd'] {
        Some(TokenKind::And)
    } else if w == seq!['c', 'l', 'a', 's', 's'] {
        Some(TokenKind::Class)
    } else if w == seq!['e', 'l', 's', 'e'] {
        Some(TokenKind::Else)
    } else if w == seq!['f', 'a', 'l', 's', 'e'] {
        Some(TokenKind::False)
    } else if w == seq!['f', 'o', 'r'] {
        Some(TokenKind::For)
    } else if w == seq!['f', 'u', 'n'] {
        Some(TokenKind::Fun)
    } else if w == seq!['i', 'f'] {
        Some(TokenKind::If)
    } else if w == seq!['n', 'i', 'l'] {
        Some(TokenKind::Nil)
    } else if w == seq!['o', 'r'] {
        Some(TokenKind::Or)
    } else if w == seq!['p', 'r', 'i', 'n', 't'] {
        Some(TokenKind::Print)
    } else if w == seq!['r', 'e', 't', 'u', 'r', 'n'] {
        Some(TokenKind::Return)
    } else if w == seq!['s', 'u', 'p', 'e', 'r'] {
        Some(TokenKind::Super)
    } else if w == seq!['t', 'h', 'i', 's'] {
        Some(TokenKind::This)
    } else if w == seq!['t', 'r', 'u', 'e'] {
        Some(TokenKind::True)
    } else if w == seq!['v', 'a', 'r'] {
        Some(TokenKind::Var)
    } else if w == seq!['w', 'h', 'i', 'l', 'e'] {
        Some(TokenKind::While)
    } else {
        None
    }
}

pub open spec fn unexpected_message(c: char) -> Seq<char> {
    "Unexpected character: '"@ + seq![c] + "'"@
}

pub open spec fn unterminated_message() -> Seq<char> {
    "Unterminated string."@
}

/// What one scanning step at `i` yields: at most one token, at most one
/// error, where scanning resumes and on which line.
pub struct Step {
    pub token: Option<TokenView>,
    pub error: Option<(Seq<char>, int)>,
    pub next: int,
    pub line: int,
}

pub open spec fn emit(k: TokenKind, text: Seq<char>, next: int, line: int) -> Step {
    Step { token: Some((k, text)), error: None, next, line }
}

pub open spec fn skip(next: int, line: int) -> Step {
    Step { token: None, error: None, next, line }
}

pub open spec fn one_or_two(s: Seq<char>, i: int, line: int, one: TokenKind, two: TokenKind) -> Step {
    if i + 1 < s.len() && s[i + 1] == '=' {
        emit(two, Seq::empty(), i + 2, line)
    } else {
        emit(one, Seq::empty(), i + 1, line)
    }
}

/// One scanning step at index `i` (with `i < s.len()`), on line `line`.
pub open spec fn step_at(s: Seq<char>, i: int, line: int) -> Step {
    let c = s[i];
    let e = Seq::<char>::empty();
    if c == '(' { emit(TokenKind::LeftParen, e, i + 1, line) }
    else if c == ')' { emit(TokenKind::RightParen, e, i + 1, line) }
    else if c == '{' { emit(TokenKind::LeftBrace, e, i + 1, line) }
    else if c == '}' { emit(TokenKind::RightBrace, e, i + 1, line) }
    else if c == '[' { emit(TokenKind::LeftBracket, e, i + 1, line) }
    else if c == ']' { emit(TokenKind::RightBracket, e, i + 1, line) }
    else if c == '*' { emit(TokenKind::Star, e, i + 1, line) }
    else if c == '.' { emit(TokenKind::Dot, e, i + 1, line) }
    else if c == '+' { emit(TokenKind::Plus, e, i + 1, line) }
    else if c == '-' { emit(TokenKind::Minus, e, i + 1, line) }
    else if c == ';' { emit(TokenKind::SemiColon, e, i + 1, line) }
    else if c == ',' { emit(TokenKind::Comma, e, i + 1, line) }
    else if c == '=' { one_or_two(s, i, line, TokenKind::Equal, TokenKind::EqualEqual) }
    else if c == '!' { one_or_two(s, i, line, TokenKind::Bang, TokenKind::BangEqual) }
    else if c == '<' { one_or_two(s, i, line, TokenKind::Less, TokenKind::LessEqual) }
    else if c == '>' { one_or_two(s, i, line, TokenKind::Greater, TokenKind::GreaterEqual) }
    else if c == '/' {
        if i + 1 < s.len() && s[i + 1] == '/' {
            let end = find_from(s, i + 2, '\n');
            if end < s.len() { skip(end + 1, line + 1) } else { skip(end, line) }
        } else {
            emit(TokenKind::Slash, e, i + 1, line)
        }
    } else if c == '"' {
        let end = find_from(s, i + 1, '"');
        if end < s.len() {
            emit(TokenKind::String, s.subrange(i + 1, end), end + 1, line + newlines(s, i + 1, end))
        } else {
            Step {
                token: None,
                error: Some((unterminated_message(), line)),
                next: end,
                line: line + newlines(s, i + 1, end),
            }
        }
    } else if c == '\n' {
        skip(i + 1, line + 1)
    } else if c == ' ' || c == '\t' || c == '\r' {
        skip(i + 1, line)
    } else if is_digit(c) {
        let end = number_end(s, i + 1, false);
        emit(TokenKind::Number, s.subrange(i, end), end, line)
    } else if starts_identifier(c) {
        let end = identifier_end(s, i + 1);
        let w = s.subrange(i, end);
        match keyword(w) {
            Some(k) => emit(k, e, end, line),
            None => emit(TokenKind::Identifier, w, end, line),
        }
    } else {
        Step { token: None, error: Some((unexpected_message(c), line)), next: i + 1, line }
    }
}

pub open spec fn option_seq<T>(o: Option<T>) -> Seq<T> {
    match o {
        Some(x) => seq![x],
        None => Seq::empty(),
    }
}

/// The tokens and errors of scanning `s` from index `i` on line `line`; the
/// tokens end with one `EOF`.
pub open spec fn lex_from(s: Seq<char>, i: int, line: int) -> (Seq<TokenView>, Seq<(Seq<char>, int)>)
    decreases s.len() - i,
{
    if i < 0 || i >= s.len() {
        (seq![(TokenKind::EOF, Seq::empty())], Seq::empty())
    } else {
        let st = step_at(s, i, line);
        if st.next <= i || st.next > s.len() {
            (Seq::empty(), Seq::empty())
        } else {
            let rest = lex_from(s, st.next, st.line);
            (option_seq(st.token) + rest.0, option_seq(st.error) + rest.1)
        }
    }
}

/// The line on which each token of `lex_from(s, i, line)` starts.
pub open spec fn token_lines_from(s: Seq<char>, i: int, line: int) -> Seq<int>
    decreases s.len() - i,
{
    if i < 0 || i >= s.len() {
        seq![line]
    } else {
        let st = step_at(s, i, line);
        if st.next <= i || st.next > s.len() {
            Seq::empty()
        } else {
            let here = if st.token is Some {
                seq![line]
            } else {
                Seq::empty()
            };
            here + token_lines_from(s, st.next, st.line)
        }
    }
}

/// The tokens and errors of scanning the whole of `s`.
pub open spec fn lex(s: Seq<char>) -> (Seq<TokenView>, Seq<(Seq<char>, int)>) {
    lex_from(s, 0, 1)
}

/// Relies on String::push: the character is appended.
#[verifier::external_body]
pub(crate) fn push_char(s: &mut String, c: char)
    ensures
        final(s)@ == old(s)@.push(c),
{
    s.push(c)
}

fn is_word(chars: &Vec<char>, a: usize, b: usize, kw: &[char]) -> (r: bool)
    requires
        a <= b <= chars@.len(),
    ensures
        r == (chars@.subrange(a as int, b as int) == kw@),
{
    let ghost w = chars@.subrange(a as int, b as int);
    if b - a != kw.len() {
        return false;
    }
    let mut i: usize = 0;
    while i < kw.len()
        invariant
            w.len() == kw@.len(),
            w == chars@.subrange(a as int, b as int),
            a <= b <= chars@.len(),
            i <= w.len(),
            forall|k: int| 0 <= k < i ==> w[k] == kw@[k],
        decreases w.len() - i,
    {
        if chars[a + i] != kw[i] {
            return false;
        }
        i += 1;
    }
    assert(w =~= kw@);
    true
}

fn keyword_token(chars: &Vec<char>, a: usize, b: usize) -> (r: Option<Token>)
    requires
        a <= b <= chars@.len(),
    ensures
        match r {
            Some(t) => keyword(chars@.subrange(a as int, b as int)) == Some(t@.0) && t@.1
                == Seq::<char>::empty(),
            None => keyword(chars@.subrange(a as int, b as int)) is None,
        },
{
    if is_word(chars, a, b, &['a', 'n', 'd']) {
        Some(Token::And)
    } else if is_word(chars, a, b, &['c', 'l', 'a', 's', 's']) {
        Some(Token::Class)
    } else if is_word(chars, a, b, &['e', 'l', 's', 'e']) {
        Some(Token::Else)
    } else if is_word(chars, a, b, &['f', 'a', 'l', 's', 'e']) {
        Some(Token::False)
    } else if is_word(chars, a, b, &['f', 'o', 'r']) {
        Some(Token::For)
    } else if is_word(chars, a, b, &['f', 'u', 'n']) {
        Some(Token::Fun)
    } else if is_word(chars, a, b, &['i', 'f']) {
        Some(Token::If)
    } else if is_word(chars, a, b, &['n', 'i', 'l']) {
        Some(Token::Nil)
    } else if is_word(chars, a, b, &['o', 'r']) {
        Some(Token::Or)
    } else if is_word(chars, a, b, &['p', 'r', 'i', 'n', 't']) {
        Some(Token::Print)
    } else if is_word(chars, a, b, &['r', 'e', 't', 'u', 'r', 'n']) {
        Some(Token::Return)
    } else if is_word(chars, a, b, &['s', 'u', 'p', 'e', 'r']) {
        Some(Token::Super)
    } else if is_word(chars, a, b, &['t', 'h', 'i', 's']) {
        Some(Token::This)
    } else if is_word(chars, a, b, &['t', 'r', 'u', 'e']) {
        Some(Token::True)
    } else if is_word(chars, a, b, &['v', 'a', 'r']) {
        Some(Token::Var)
    } else if is_word(chars, a, b, &['w', 'h', 'i', 'l', 'e']) {
        Some(Token::While)
    } else {
        None
    }
}

pub(crate) fn chars_of(input: &str) -> (r: Vec<char>)
    ensures
        r@ == input@,
{
    let mut r: Vec<char> = Vec::new();
    for c in it: input.chars()
        invariant
            r@ == it.seq().take(it.index() as int),
    {
        r.push(c);
    }
    assert(r@ =~= input@);
    r
}

fn is_digit_char(c: char) -> (r: bool)
    ensures
        r == is_digit(c),
{
    '0' <= c && c <= '9'
}

/// Whether `c` may start an identifier: an ASCII letter or `_`.
pub fn is_valid_identifier_char(c: char) -> (r: bool)
    ensures
        r == starts_identifier(c),
{
    ('a' <= c && c <= 'z') || ('A' <= c && c <= 'Z') || c == '_'
}

fn is_identifier_continue(c: char) -> (r: bool)
    ensures
        r == continues_identifier(c),
{
    is_valid_identifier_char(c) || is_digit_char(c)
}

fn find_exec(chars: &Vec<char>, j: usize, c: char) -> (r: usize)
    requires
        j <= chars@.len(),
    ensures
        r == find_from(chars@, j as int, c),
        j <= r <= chars@.len(),
{
    let mut k = j;
    while k < chars.len() && chars[k] != c
        invariant
            j <= k <= chars@.len(),
            find_from(chars@, j as int, c) == find_from(chars@, k as int, c),
        decreases chars@.len() - k,
    {
        k += 1;
    }
    k
}

fn identifier_end_exec(chars: &Vec<char>, j: usize) -> (r: usize)
    requires
        j <= chars@.len(),
    ensures
        r == identifier_end(chars@, j as int),
        j <= r <= chars@.len(),
{
    let mut k = j;
    while k < chars.len() && is_identifier_continue(chars[k])
        invariant
            j <= k <= chars@.len(),
            identifier_end(chars@, j as int) == identifier_end(chars@, k as int),
        decreases chars@.len() - k,
    {
        k += 1;
    }
    k
}

fn number_end_exec(chars: &Vec<char>, j: usize) -> (r: usize)
    requires
        j <= chars@.len(),
    ensures
        r == number_end(chars@, j as int, false),
        j <= r <= chars@.len(),
{
    let mut k = j;
    let mut seen_dot = false;
    while k < chars.len() && (is_digit_char(chars[k]) || (chars[k] == '.' && !seen_dot))
        invariant
            j <= k <= chars@.len(),
            number_end(chars@, j as int, false) == number_end(chars@, k as int, seen_dot),
        decreases chars@.len() - k,
    {
        if chars[k] == '.' {
            seen_dot = true;
        }
        k += 1;
    }
    k
}

fn count_newlines(chars: &Vec<char>, a: usize, b: usize) -> (r: u64)
    requires
        a <= b <= chars@.len(),
    ensures
        r == newlines(chars@, a as int, b as int),
        r <= b - a,
{
    let mut n: u64 = 0;
    let mut k = a;
    while k < b
        invariant
            a <= k <= b <= chars@.len(),
            n == newlines(chars@, a as int, k as int),
            n <= k - a,
        decreases b - k,
    {
        if chars[k] == '\n' {
            n += 1;
        }
        k += 1;
    }
    n
}

fn slice_string(chars: &Vec<char>, a: usize, b: usize) -> (r: String)
    requires
        a <= b <= chars@.len(),
    ensures
        r@ == chars@.subrange(a as int, b as int),
{
    let mut r = String::new();
    let mut k = a;
    while k < b
        invariant
            a <= k <= b <= chars@.len(),
            r@ == chars@.subrange(a as int, k as int),
        decreases b - k,
    {
        push_char(&mut r, chars[k]);
        assert(chars@.subrange(a as int, k + 1) =~= chars@.subrange(a as int, k as int).push(
            chars@[k as int],
        ));
        k += 1;
    }
    r
}

/// One scanning step in executable form: the token, the error, where scanning
/// resumes and on which line.
pub struct Scanned {
    pub token: Option<Token>,
    pub error: Option<(String, u64)>,
    pub next: usize,
    pub line: u64,
}

pub open spec fn scanned_matches(r: Scanned, st: Step) -> bool {
    &&& match r.token {
        Some(t) => st.token == Some(t@),
        None => st.token is None,
    }
    &&& match r.error {
        Some(e) => st.error == Some((e.0@, e.1 as int)),
        None => st.error is None,
    }
    &&& r.next == st.next
    &&& r.line == st.line
}

fn fixed(t: Token, next: usize, line: u64) -> (r: Scanned)
    ensures
        r.token == Some(t),
        r.error is None,
        r.next == next,
        r.line == line,
{
    Scanned { token: Some(t), error: None, next, line }
}

fn skipped(next: usize, line: u64) -> (r: Scanned)
    ensures
        r.token is None,
        r.error is None,
        r.next == next,
        r.line == line,
{
    Scanned { token: None, error: None, next, line }
}

fn followed_by_equal(chars: &Vec<char>, i: usize) -> (r: bool)
    requires
        i < chars@.len(),
    ensures
        r == (i + 1 < chars@.len() && chars@[i + 1] == '='),
{
    chars.len() - i > 1 && chars[i + 1] == '='
}

/// Scans the token that starts at `i`.
fn scan_step(chars: &Vec<char>, i: usize, line: u64) -> (r: Scanned)
    requires
        i < chars@.len(),
        chars@.len() < u64::MAX,
        line <= i + 1,
    ensures
        scanned_matches(r, step_at(chars@, i as int, line as int)),
        r.line <= r.next + 1,
        i < r.next <= chars@.len(),
{
    let len = chars.len();
    let c = chars[i];
    let n = i + 1;
    if c == '(' {
        fixed(Token::LeftParen, n, line)
    } else if c == ')' {
        fixed(Token::RightParen, n, line)
    } else if c == '{' {
        fixed(Token::LeftBrace, n, line)
    } else if c == '}' {
        fixed(Token::RightBrace, n, line)
    } else if c == '[' {
        fixed(Token::LeftBracket, n, line)
    } else if c == ']' {
        fixed(Token::RightBracket, n, line)
    } else if c == '*' {
        fixed(Token::Star, n, line)
    } else if c == '.' {
        fixed(Token::Dot, n, line)
    } else if c == '+' {
        fixed(Token::Plus, n, line)
    } else if c == '-' {
        fixed(Token::Minus, n, line)
    } else if c == ';' {
        fixed(Token::SemiColon, n, line)
    } else if c == ',' {
        fixed(Token::Comma, n, line)
    } else if c == '=' {
        if followed_by_equal(chars, i) {
            fixed(Token::EqualEqual, i + 2, line)
        } else {
            fixed(Token::Equal, n, line)
        }
    } else if c == '!' {
        if followed_by_equal(chars, i) {
            fixed(Token::BangEqual, i + 2, line)
        } else {
            fixed(Token::Bang, n, line)
        }
    } else if c == '<' {
        if followed_by_equal(chars, i) {
            fixed(Token::LessEqual, i + 2, line)
        } else {
            fixed(Token::Less, n, line)
        }
    } else if c == '>' {
        if followed_by_equal(chars, i) {
            fixed(Token::GreaterEqual, i + 2, line)
        } else {
            fixed(Token::Greater, n, line)
        }
    } else if c == '/' {
        if n < chars.len() && chars[n] == '/' {
            let end = find_exec(chars, i + 2, '\n');
            if end < chars.len() {
                skipped(end + 1, line + 1)
            } else {
                skipped(end, line)
            }
        } else {
            fixed(Token::Slash, n, line)
        }
    } else if c == '"' {
        let end = find_exec(chars, n, '"');
        let lines = count_newlines(chars, n, end);
        if end < chars.len() {
            let text = slice_string(chars, n, end);
            fixed(Token::String(text), end + 1, line + lines)
        } else {
            let message = String::from_str("Unterminated string.");
            Scanned { token: None, error: Some((message, line)), next: end, line: line + lines }
        }
    } else if c == '\n' {
        skipped(n, line + 1)
    } else if c == ' ' || c == '\t' || c == '\r' {
        skipped(n, line)
    } else if is_digit_char(c) {
        let end = number_end_exec(chars, n);
        let text = slice_string(chars, i, end);
        fixed(Token::Number(text), end, line)
    } else if is_valid_identifier_char(c) {
        let end = identifier_end_exec(chars, n);
        let text = slice_string(chars, i, end);
        match keyword_token(chars, i, end) {
            Some(t) => fixed(t, end, line),
            None => fixed(Token::Identifier(text), end, line),
        }
    } else {
        let mut message = String::from_str("Unexpected character: '");
        push_char(&mut message, c);
        message.append("'");
        assert(message@ =~= unexpected_message(c));
        Scanned { token: None, error: Some((message, line)), next: n, line }
    }
}

/// Scans `input` into tokens that end with one `EOF`, with the line on which
/// each token starts, recording each lexical error in `ctx` and going on after
/// it.
pub fn scan(input: &str, ctx: &mut Context) -> (r: (Vec<Token>, Vec<u64>))
    requires
        input@.len() < u64::MAX,
    ensures
        token_views(r.0@) == lex(input@).0,
        r.1@.map_values(|l: u64| l as int) == token_lines_from(input@, 0, 1),
        errors_view(final(ctx).errors@) == errors_view(old(ctx).errors@) + lex(input@).1,
{
    let chars = chars_of(input);
    let ghost s = chars@;
    let mut tokens: Vec<Token> = Vec::new();
    let mut lines: Vec<u64> = Vec::new();
    let mut i: usize = 0;
    let mut line: u64 = 1;
    assert(token_views(tokens@) + lex_from(s, 0, 1).0 =~= lex(s).0);
    assert(lines@.map_values(|l: u64| l as int) + token_lines_from(s, 0, 1) =~= token_lines_from(
        s,
        0,
        1,
    ));
    assert(errors_view(ctx.errors@) + lex_from(s, 0, 1).1 =~= errors_view(old(ctx).errors@)
        + lex(s).1);
    while i < chars.len()
        invariant
            s == chars@,
            s == input@,
            s.len() < u64::MAX,
            i <= s.len(),
            line <= i + 1,
            token_views(tokens@) + lex_from(s, i as int, line as int).0 == lex(s).0,
            lines@.map_values(|l: u64| l as int) + token_lines_from(s, i as int, line as int)
                == token_lines_from(s, 0, 1),
            errors_view(ctx.errors@) + lex_from(s, i as int, line as int).1 == errors_view(
                old(ctx).errors@,
            ) + lex(s).1,
        decreases s.len() - i,
    {
        let st = scan_step(&chars, i, line);
        let ghost sp = step_at(s, i as int, line as int);
        let ghost rest = lex_from(s, st.next as int, st.line as int);
        let ghost before_t = token_views(tokens@);
        let ghost before_l = lines@.map_values(|l: u64| l as int);
        let ghost rest_l = token_lines_from(s, st.next as int, st.line as int);
        let ghost before_e = errors_view(ctx.errors@);
        assert(lex_from(s, i as int, line as int) == (option_seq(sp.token) + rest.0, option_seq(
            sp.error,
        ) + rest.1));
        match st.token {
            Some(t) => {
                tokens.push(t);
                lines.push(line);
                assert(token_views(tokens@) =~= before_t.push(t@));
                assert(lines@.map_values(|l: u64| l as int) + rest_l =~= before_l + (seq![
                    line as int,
                ] + rest_l));
            },
            None => {
                assert(before_l + rest_l =~= before_l + (Seq::<int>::empty() + rest_l));
            },
        }
        assert(token_views(tokens@) + rest.0 =~= before_t + (option_seq(sp.token) + rest.0));
        match st.error {
            Some(e) => {
                ctx.errors.push(e);
                assert(errors_view(ctx.errors@) =~= before_e.push((e.0@, e.1 as int)));
            },
            None => {},
        }
        assert(errors_view(ctx.errors@) + rest.1 =~= before_e + (option_seq(sp.error) + rest.1));
        i = st.next;
        line = st.line;
    }
    let ghost before_t = token_views(tokens@);
    let ghost before_l = lines@.map_values(|l: u64| l as int);
    tokens.push(Token::EOF);
    lines.push(line);
    assert(lines@.map_values(|l: u64| l as int) =~= before_l.push(line as int));
    assert(token_views(tokens@) =~= before_t.push((TokenKind::EOF, Seq::empty())));
    assert(errors_view(ctx.errors@) + Seq::empty() =~= errors_view(ctx.errors@));
    (tokens, lines)
}

/// Scans `input` into tokens that end with one `EOF`, recording each lexical
/// error in `ctx` and going on after it.
pub fn tokenize(input: &str, ctx: &mut Context) -> (tokens: Vec<Token>)
    requires
        input@.len() < u64::MAX,
    ensures
        token_views(tokens@) == lex(input@).0,
        errors_view(final(ctx).errors@) == errors_view(old(ctx).errors@) + lex(input@).1,
{
    scan(input, ctx).0
}

/// What the `tokenize` listing shows as a token's literal: a string's text,
/// `null` for tokens without a literal (a number's is the host's rendering).
pub open spec fn literal_text(t: TokenView) -> Seq<char> {
    if t.0 == TokenKind::String {
        t.1
    } else {
        "null"@
    }
}

impl Token {
    /// The token's literal value as text; a whole number keeps a `.0`.
    pub fn literal<N: Number>(&self) -> (r: String)
        ensures
            self@.0 != TokenKind::Number ==> r@ == literal_text(self@),
    {
        match self {
            Token::String(text) => text.clone(),
            Token::Number(text) => {
                let n = N::from_lexeme(text.as_str());
                let mut t = n.to_text();
                if n.is_integral() {
                    t.append(".0");
                }
                t
            },
            _ => String::from_str("null"),
        }
    }
}

/// The lines of `s[i..]`, `cur` being the text of the current line so far.
pub open spec fn split_lines(s: Seq<char>, i: int, cur: Seq<char>) -> Seq<Seq<char>>
    decreases s.len() - i,
{
    if i < 0 || i >= s.len() {
        seq![cur]
    } else if s[i] == '\n' {
        seq![cur] + split_lines(s, i + 1, Seq::empty())
    } else {
        split_lines(s, i + 1, cur.push(s[i]))
    }
}

/// Relies on std::str::from_utf8: it accepts exactly the valid UTF-8 byte
/// sequences, and the text it gives encodes to the same bytes.
#[verifier::external_body]
fn decode_utf8(bytes: &[u8]) -> (r: Option<String>)
    ensures
        r is Some <==> valid_utf8(bytes@),
        r is Some ==> encode_utf8(r->Some_0@) == bytes@,
{
    match std::str::from_utf8(bytes) {
        Ok(s) => Some(s.to_string()),
        Err(_) => None,
    }
}

/// Splits UTF-8 output into its lines: the text between newlines, so that
/// output ending in a newline gives an empty last line.
pub fn utf8_to_string(buffer: &[u8]) -> (r: Vec<String>)
    requires
        valid_utf8(buffer@),
    ensures
        exists|text: Seq<char>|
            encode_utf8(text) == buffer@ && r@.map_values(|l: String| l@) == split_lines(
                text,
                0,
                Seq::empty(),
            ),
{
    let text = match decode_utf8(buffer) {
        Some(t) => t,
        None => String::new(),
    };
    let chars = chars_of(text.as_str());
    let ghost s = chars@;
    let mut lines: Vec<String> = Vec::new();
    let mut cur = String::new();
    let mut i: usize = 0;
    assert(Seq::<Seq<char>>::empty() + split_lines(s, 0, cur@) =~= split_lines(s, 0, Seq::empty()));
    while i < chars.len()
        invariant
            s == chars@,
            i <= s.len(),
            lines@.map_values(|l: String| l@) + split_lines(s, i as int, cur@) == split_lines(
                s,
                0,
                Seq::empty(),
            ),
        decreases s.len() - i,
    {
        let ghost before = lines@.map_values(|l: String| l@);
        if chars[i] == '\n' {
            let done = cur;
            cur = String::new();
            lines.push(done);
            assert(lines@.map_values(|l: String| l@) =~= before.push(done@));
            assert(before + split_lines(s, i as int, done@) =~= before.push(done@) + split_lines(
                s,
                i + 1,
                cur@,
            ));
        } else {
            push_char(&mut cur, chars[i]);
        }
        i += 1;
    }
    let ghost before = lines@.map_values(|l: String| l@);
    lines.push(cur);
    assert(lines@.map_values(|l: String| l@) =~= before + split_lines(s, i as int, cur@));
    lines
}

/// A token that scanning its lexeme, followed by a space, gives back: any
/// fixed token or keyword, a string without a quote in it, a number lexeme, an
/// identifier that is not a keyword.
pub open spec fn relexable(t: TokenView) -> bool {
    match t.0 {
        TokenKind::EOF => false,
        TokenKind::String => forall|j: int| 0 <= j < t.1.len() ==> t.1[j] != '"',
        TokenKind::Number => t.1.len() >= 1 && is_digit(t.1[0]) && number_end(t.1, 1, false)
            == t.1.len(),
        TokenKind::Identifier => t.1.len() >= 1 && starts_identifier(t.1[0]) && (forall|j: int|
            1 <= j < t.1.len() ==> continues_identifier(#[trigger] t.1[j])) && keyword(t.1) is None,
        _ => t.1 == Seq::<char>::empty(),
    }
}

/// The lexemes of `ts`, each followed by one space.
pub open spec fn spaced(ts: Seq<TokenView>) -> Seq<char>
    decreases ts.len(),
{
    if ts.len() == 0 {
        Seq::empty()
    } else {
        lexeme_of(ts[0]) + seq![' '] + spaced(ts.drop_first())
    }
}

proof fn lemma_identifier_end(s: Seq<char>, a: int, b: int)
    requires
        0 <= a <= b < s.len(),
        forall|j: int| a <= j < b ==> continues_identifier(#[trigger] s[j]),
        !continues_identifier(s[b]),
    ensures
        identifier_end(s, a) == b,
    decreases b - a,
{
    if a < b {
        lemma_identifier_end(s, a + 1, b);
    }
}

pub proof fn lemma_find(s: Seq<char>, a: int, b: int, c: char)
    requires
        0 <= a <= b < s.len(),
        forall|j: int| a <= j < b ==> #[trigger] s[j] != c,
        s[b] == c,
    ensures
        find_from(s, a, c) == b,
    decreases b - a,
{
    if a < b {
        lemma_find(s, a + 1, b, c);
    }
}

proof fn lemma_number_end(s: Seq<char>, text: Seq<char>, i: int, j: int, d: bool)
    requires
        0 <= i,
        i + text.len() < s.len(),
        s.subrange(i, i + text.len()) == text,
        s[i + text.len()] == ' ',
        0 <= j <= text.len(),
    ensures
        number_end(s, i + j, d) == i + number_end(text, j, d),
    decreases text.len() - j,
{
    if j < text.len() {
        assert(s[i + j] == text[j]);
        let nd = d || text[j] == '.';
        lemma_number_end(s, text, i, j + 1, nd);
    }
}

pub proof fn lemma_keyword_lexemes(k: TokenKind)
    ensures
        keyword(fixed_lexeme(k)) == (match k {
            TokenKind::And | TokenKind::Class | TokenKind::Else | TokenKind::False
            | TokenKind::For | TokenKind::Fun | TokenKind::If | TokenKind::Nil | TokenKind::Or
            | TokenKind::Print | TokenKind::Return | TokenKind::Super | TokenKind::This
            | TokenKind::True | TokenKind::Var | TokenKind::While => Some(k),
            _ => None,
        }),
{
    reveal_strlit("");
    reveal_strlit("(");
    reveal_strlit(")");
    reveal_strlit("{");
    reveal_strlit("}");
    reveal_strlit("]");
    reveal_strlit("[");
    reveal_strlit("*");
    reveal_strlit(".");
    reveal_strlit(",");
    reveal_strlit("+");
    reveal_strlit("-");
    reveal_strlit(";");
    reveal_strlit("=");
    reveal_strlit("==");
    reveal_strlit("!");
    reveal_strlit("!=");
    reveal_strlit("<");
    reveal_strlit("<=");
    reveal_strlit(">");
    reveal_strlit(">=");
    reveal_strlit("/");
    reveal_strlit("and");
    reveal_strlit("class");
    reveal_strlit("else");
    reveal_strlit("false");
    reveal_strlit("for");
    reveal_strlit("fun");
    reveal_strlit("if");
    reveal_strlit("nil");
    reveal_strlit("or");
    reveal_strlit("print");
    reveal_strlit("return");
    reveal_strlit("super");
    reveal_strlit("this");
    reveal_strlit("true");
    reveal_strlit("var");
    reveal_strlit("while");
    match k {
        TokenKind::And => {
            assert(fixed_lexeme(k) =~= seq!['a', 'n', 'd']);
        },
        TokenKind::Class => {
            assert(fixed_lexeme(k) =~= seq!['c', 'l', 'a', 's', 's']);
        },
        TokenKind::Else => {
            assert(fixed_lexeme(k) =~= seq!['e', 'l', 's', 'e']);
        },
        TokenKind::False => {
            assert(fixed_lexeme(k) =~= seq!['f', 'a', 'l', 's', 'e']);
        },
        TokenKind::For => {
            assert(fixed_lexeme(k) =~= seq!['f', 'o', 'r']);
        },
        TokenKind::Fun => {
            assert(fixed_lexeme(k) =~= seq!['f', 'u', 'n']);
        },
        TokenKind::If => {
            assert(fixed_lexeme(k) =~= seq!['i', 'f']);
        },
        TokenKind::Nil => {
            assert(fixed_lexeme(k) =~= seq!['n', 'i', 'l']);
        },
        TokenKind::Or => {
            assert(fixed_lexeme(k) =~= seq!['o', 'r']);
        },
        TokenKind::Print => {
            assert(fixed_lexeme(k) =~= seq!['p', 'r', 'i', 'n', 't']);
        },
        TokenKind::Return => {
            assert(fixed_lexeme(k) =~= seq!['r', 'e', 't', 'u', 'r', 'n']);
        },
        TokenKind::Super => {
            assert(fixed_lexeme(k) =~= seq!['s', 'u', 'p', 'e', 'r']);
        },
        TokenKind::This => {
            assert(fixed_lexeme(k) =~= seq!['t', 'h', 'i', 's']);
        },
        TokenKind::True => {
            assert(fixed_lexeme(k) =~= seq!['t', 'r', 'u', 'e']);
        },
        TokenKind::Var => {
            assert(fixed_lexeme(k) =~= seq!['v', 'a', 'r']);
        },
        TokenKind::While => {
            assert(fixed_lexeme(k) =~= seq!['w', 'h', 'i', 'l', 'e']);
        },
        TokenKind::LeftParen => {
            assert(fixed_lexeme(k) =~= seq!['(']);
        },
        TokenKind::RightParen => {
            assert(fixed_lexeme(k) =~= seq![')']);
        },
        TokenKind::LeftBrace => {
            assert(fixed_lexeme(k) =~= seq!['{']);
        },
        TokenKind::RightBrace => {
            assert(fixed_lexeme(k) =~= seq!['}']);
        },
        TokenKind::RightBracket => {
            assert(fixed_lexeme(k) =~= seq![']']);
        },
        TokenKind::LeftBracket => {
            assert(fixed_lexeme(k) =~= seq!['[']);
        },
        TokenKind::Star => {
            assert(fixed_lexeme(k) =~= seq!['*']);
        },
        TokenKind::Dot => {
            assert(fixed_lexeme(k) =~= seq!['.']);
        },
        TokenKind::Comma => {
            assert(fixed_lexeme(k) =~= seq![',']);
        },
        TokenKind::Plus => {
            assert(fixed_lexeme(k) =~= seq!['+']);
        },
        TokenKind::Minus => {
            assert(fixed_lexeme(k) =~= seq!['-']);
        },
        TokenKind::SemiColon => {
            assert(fixed_lexeme(k) =~= seq![';']);
        },
        TokenKind::Equal => {
            assert(fixed_lexeme(k) =~= seq!['=']);
        },
        TokenKind::EqualEqual => {
            assert(fixed_lexeme(k) =~= seq!['=', '=']);
        },
        TokenKind::Bang => {
            assert(fixed_lexeme(k) =~= seq!['!']);
        },
        TokenKind::BangEqual => {
            assert(fixed_lexeme(k) =~= seq!['!', '=']);
        },
        TokenKind::Less => {
            assert(fixed_lexeme(k) =~= seq!['<']);
        },
        TokenKind::LessEqual => {
            assert(fixed_lexeme(k) =~= seq!['<', '=']);
        },
        TokenKind::Greater => {
            assert(fixed_lexeme(k) =~= seq!['>']);
        },
        TokenKind::GreaterEqual => {
            assert(fixed_lexeme(k) =~= seq!['>', '=']);
        },
        TokenKind::EOF => {
            assert(fixed_lexeme(k) =~= Seq::<char>::empty());
        },
        TokenKind::Slash => {
            assert(fixed_lexeme(k) =~= seq!['/']);
        },
        _ => {
            assert(fixed_lexeme(k) =~= Seq::<char>::empty());
        },
    }
}

proof fn lemma_word_end(s: Seq<char>, i: int, w: Seq<char>)
    requires
        0 <= i,
        w.len() >= 1,
        i + w.len() < s.len(),
        s.subrange(i, i + w.len()) == w,
        s[i + w.len()] == ' ',
        forall|j: int| 0 <= j < w.len() ==> continues_identifier(#[trigger] w[j]),
    ensures
        identifier_end(s, i + 1) == i + w.len(),
        s[i] == w[0],
{
    assert(s[i] == s.subrange(i, i + w.len())[0]);
    assert forall|j: int| i + 1 <= j < i + w.len() implies continues_identifier(#[trigger] s[j]) by {
        assert(s[j] == s.subrange(i, i + w.len())[j - i]);
    }
    lemma_identifier_end(s, i + 1, i + w.len());
}

/// Scanning a relexable token's lexeme, followed by a space, gives the token
/// back and stops right after the lexeme.
proof fn lemma_step_relexable(s: Seq<char>, i: int, t: TokenView, line: int)
    requires
        relexable(t),
        0 <= i,
        i + lexeme_of(t).len() < s.len(),
        s.subrange(i, i + lexeme_of(t).len()) == lexeme_of(t),
        s[i + lexeme_of(t).len()] == ' ',
    ensures
        step_at(s, i, line).token == Some(t),
        step_at(s, i, line).error is None,
        step_at(s, i, line).next == i + lexeme_of(t).len(),
{
    let l = lexeme_of(t);
    let n = l.len() as int;
    assert forall|j: int| 0 <= j < n implies #[trigger] s[i + j] == l[j] by {
        assert(s[i + j] == s.subrange(i, i + n)[j]);
    }
    let k = t.0;
    match k {
        TokenKind::String => {
            let m = t.1.len() as int;
            assert(s[i] == l[0]);
            assert forall|j: int| i + 1 <= j < i + 1 + m implies #[trigger] s[j] != '"' by {
                assert(s[i + (j - i)] == l[j - i]);
            }
            assert(s[i + 1 + m] == l[1 + m]);
            lemma_find(s, i + 1, i + 1 + m, '"');
            assert forall|j: int| 0 <= j < m implies #[trigger] s.subrange(i + 1, i + 1 + m)[j]
                == t.1[j] by {
                assert(s[i + (j + 1)] == l[j + 1]);
            }
            assert(s.subrange(i + 1, i + 1 + m) =~= t.1);
        },
        TokenKind::Number => {
            assert(s[i] == l[0]);
            lemma_number_end(s, t.1, i, 1, false);
            assert(s.subrange(i, i + n) =~= t.1);
        },
        TokenKind::Identifier => {
            lemma_word_end(s, i, t.1);
            assert(s.subrange(i, i + n) =~= t.1);
        },
        _ => {
            assert(t == (k, Seq::<char>::empty()));
            lemma_fixed_spelling(s, i, k, l);
        },
    }
}

pub proof fn lemma_fixed_spelling(s: Seq<char>, i: int, k: TokenKind, l: Seq<char>)
    requires
        k != TokenKind::String,
        k != TokenKind::Number,
        k != TokenKind::Identifier,
        k != TokenKind::EOF,
        l == fixed_lexeme(k),
        0 <= i,
        i + l.len() < s.len(),
        s.subrange(i, i + l.len()) == l,
        s[i + l.len()] == ' ',
        forall|j: int| 0 <= j < l.len() ==> #[trigger] s[i + j] == l[j],
    ensures
        step_at(s, i, 0int).token == Some((k, Seq::<char>::empty())),
        forall|line: int| #[trigger] step_at(s, i, line) == emit(k, Seq::empty(), i + l.len(), line),
{
    reveal_strlit("");
    reveal_strlit("(");
    reveal_strlit(")");
    reveal_strlit("{");
    reveal_strlit("}");
    reveal_strlit("]");
    reveal_strlit("[");
    reveal_strlit("*");
    reveal_strlit(".");
    reveal_strlit(",");
    reveal_strlit("+");
    reveal_strlit("-");
    reveal_strlit(";");
    reveal_strlit("=");
    reveal_strlit("==");
    reveal_strlit("!");
    reveal_strlit("!=");
    reveal_strlit("<");
    reveal_strlit("<=");
    reveal_strlit(">");
    reveal_strlit(">=");
    reveal_strlit("/");
    reveal_strlit("and");
    reveal_strlit("class");
    reveal_strlit("else");
    reveal_strlit("false");
    reveal_strlit("for");
    reveal_strlit("fun");
    reveal_strlit("if");
    reveal_strlit("nil");
    reveal_strlit("or");
    reveal_strlit("print");
    reveal_strlit("return");
    reveal_strlit("super");
    reveal_strlit("this");
    reveal_strlit("true");
    reveal_strlit("var");
    reveal_strlit("while");
    match k {
        TokenKind::LeftParen => {
            assert(l =~= seq!['(']);
            assert(s[i + 0] == l[0]);
        },
        TokenKind::RightParen => {
            assert(l =~= seq![')']);
            assert(s[i + 0] == l[0]);
        },
        TokenKind::LeftBrace => {
            assert(l =~= seq!['{']);
            assert(s[i + 0] == l[0]);
        },
        TokenKind::RightBrace => {
            assert(l =~= seq!['}']);
            assert(s[i + 0] == l[0]);
        },
        TokenKind::RightBracket => {
            assert(l =~= seq![']']);
            assert(s[i + 0] == l[0]);
        },
        TokenKind::LeftBracket => {
            assert(l =~= seq!['[']);
            assert(s[i + 0] == l[0]);
        },
        TokenKind::Star => {
            assert(l =~= seq!['*']);
            assert(s[i + 0] == l[0]);
        },
        TokenKind::Dot => {
            assert(l =~= seq!['.']);
            assert(s[i + 0] == l[0]);
        },
        TokenKind::Comma => {
            assert(l =~= seq![',']);
            assert(s[i + 0] == l[0]);
        },
        TokenKind::Plus => {
            assert(l =~= seq!['+']);
            assert(s[i + 0] == l[0]);
        },
        TokenKind::Minus => {
            assert(l =~= seq!['-']);
            assert(s[i + 0] == l[0]);
        },
        TokenKind::SemiColon => {
            assert(l =~= seq![';']);
            assert(s[i + 0] == l[0]);
        },
        TokenKind::Equal => {
            assert(l =~= seq!['=']);
            assert(s[i + 0] == l[0]);
        },
        TokenKind::EqualEqual => {
            assert(l =~= seq!['=', '=']);
            assert(s[i + 0] == l[0]);
            assert(s[i + 1] == l[1]);
        },
        TokenKind::Bang => {
            assert(l =~= seq!['!']);
            assert(s[i + 0] == l[0]);
        },
        TokenKind::BangEqual => {
            assert(l =~= seq!['!', '=']);
            assert(s[i + 0] == l[0]);
            assert(s[i + 1] == l[1]);
        },
        TokenKind::Less => {
            assert(l =~= seq!['<']);
            assert(s[i + 0] == l[0]);
        },
        TokenKind::LessEqual => {
            assert(l =~= seq!['<', '=']);
            assert(s[i + 0] == l[0]);
            assert(s[i + 1] == l[1]);
        },
        TokenKind::Greater => {
            assert(l =~= seq!['>']);
            assert(s[i + 0] == l[0]);
        },
        TokenKind::GreaterEqual => {
            assert(l =~= seq!['>', '=']);
            assert(s[i + 0] == l[0]);
            assert(s[i + 1] == l[1]);
        },
        TokenKind::Slash => {
            assert(l =~= seq!['/']);
            assert(s[i + 0] == l[0]);
        },
        TokenKind::And => {
            assert(l =~= seq!['a', 'n', 'd']);
            lemma_keyword_lexemes(k);
            lemma_word_end(s, i, l);
        },
        TokenKind::Class => {
            assert(l =~= seq!['c', 'l', 'a', 's', 's']);
            lemma_keyword_lexemes(k);
            lemma_word_end(s, i, l);
        },
        TokenKind::Else => {
            assert(l =~= seq!['e', 'l', 's', 'e']);
            lemma_keyword_lexemes(k);
            lemma_word_end(s, i, l);
        },
        TokenKind::False => {
            assert(l =~= seq!['f', 'a', 'l', 's', 'e']);
            lemma_keyword_lexemes(k);
            lemma_word_end(s, i, l);
        },
        TokenKind::For => {
            assert(l =~= seq!['f', 'o', 'r']);
            lemma_keyword_lexemes(k);
            lemma_word_end(s, i, l);
        },
        TokenKind::Fun => {
            assert(l =~= seq!['f', 'u', 'n']);
            lemma_keyword_lexemes(k);
            lemma_word_end(s, i, l);
        },
        TokenKind::If => {
            assert(l =~= seq!['i', 'f']);
            lemma_keyword_lexemes(k);
            lemma_word_end(s, i, l);
        },
        TokenKind::Nil => {
            assert(l =~= seq!['n', 'i', 'l']);
            lemma_keyword_lexemes(k);
            lemma_word_end(s, i, l);
        },
        TokenKind::Or => {
            assert(l =~= seq!['o', 'r']);
            lemma_keyword_lexemes(k);
            lemma_word_end(s, i, l);
        },
        TokenKind::Print => {
            assert(l =~= seq!['p', 'r', 'i', 'n', 't']);
            lemma_keyword_lexemes(k);
            lemma_word_end(s, i, l);
        },
        TokenKind::Return => {
            assert(l =~= seq!['r', 'e', 't', 'u', 'r', 'n']);
            lemma_keyword_lexemes(k);
            lemma_word_end(s, i, l);
        },
        TokenKind::Super => {
            assert(l =~= seq!['s', 'u', 'p', 'e', 'r']);
            lemma_keyword_lexemes(k);
            lemma_word_end(s, i, l);
        },
        TokenKind::This => {
            assert(l =~= seq!['t', 'h', 'i', 's']);
            lemma_keyword_lexemes(k);
            lemma_word_end(s, i, l);
        },
        TokenKind::True => {
            assert(l =~= seq!['t', 'r', 'u', 'e']);
            lemma_keyword_lexemes(k);
            lemma_word_end(s, i, l);
        },
        TokenKind::Var => {
            assert(l =~= seq!['v', 'a', 'r']);
            lemma_keyword_lexemes(k);
            lemma_word_end(s, i, l);
        },
        TokenKind::While => {
            assert(l =~= seq!['w', 'h', 'i', 'l', 'e']);
            lemma_keyword_lexemes(k);
            lemma_word_end(s, i, l);
        },
        _ => {},
    }
}

/// Scanning `prefix + spaced(ts)` from the end of `prefix` gives back `ts`,
/// then `EOF`, and no error.
proof fn lemma_lex_spaced(ts: Seq<TokenView>, prefix: Seq<char>, line: int)
    requires
        forall|j: int| 0 <= j < ts.len() ==> relexable(#[trigger] ts[j]),
    ensures
        lex_from(prefix + spaced(ts), prefix.len() as int, line) == (
            ts.push((TokenKind::EOF, Seq::<char>::empty())),
            Seq::<(Seq<char>, int)>::empty(),
        ),
    decreases ts.len(),
{
    let s = prefix + spaced(ts);
    let i = prefix.len() as int;
    if ts.len() == 0 {
        assert(s =~= prefix);
        assert(ts.push((TokenKind::EOF, Seq::<char>::empty())) =~= seq![
            (TokenKind::EOF, Seq::<char>::empty()),
        ]);
    } else {
        let t = ts[0];
        let l = lexeme_of(t);
        let n = l.len() as int;
        let rest = ts.drop_first();
        let front = prefix + l + seq![' '];
        assert(s =~= front + spaced(rest));
        assert(s.subrange(i, i + n) =~= l);
        assert(s[i + n] == front[i + n]);
        assert(relexable(ts[0]));
        lemma_step_relexable(s, i, t, line);
        let st = step_at(s, i, line);
        assert(forall|j: int| 0 <= j < rest.len() ==> rest[j] == ts[j + 1]);
        lemma_lex_spaced(rest, front, st.line);
        let sp = step_at(s, i + n, st.line);
        assert(sp == skip(i + n + 1, st.line));
        assert(lex_from(s, i + n, st.line) == lex_from(s, i + n + 1, st.line)) by {
            assert(option_seq(sp.token) =~= Seq::<TokenView>::empty());
            assert(option_seq(sp.error) =~= Seq::<(Seq<char>, int)>::empty());
            let r = lex_from(s, i + n + 1, st.line);
            assert(Seq::<TokenView>::empty() + r.0 =~= r.0);
            assert(Seq::<(Seq<char>, int)>::empty() + r.1 =~= r.1);
        }
        assert(front.len() == i + n + 1);
        assert(option_seq(st.token) + rest.push((TokenKind::EOF, Seq::<char>::empty())) =~= ts.push(
            (TokenKind::EOF, Seq::<char>::empty()),
        ));
        assert(option_seq(st.error) + Seq::<(Seq<char>, int)>::empty() =~= Seq::<
            (Seq<char>, int),
        >::empty());
    }
}

/// Lex stability: lexing the lexemes of relexable tokens, each followed by a
/// space, gives the same tokens back, then `EOF`, with no error.
pub proof fn law_relex_stable(ts: Seq<TokenView>)
    requires
        forall|j: int| 0 <= j < ts.len() ==> relexable(#[trigger] ts[j]),
    ensures
        lex(spaced(ts)) == (
            ts.push((TokenKind::EOF, Seq::<char>::empty())),
            Seq::<(Seq<char>, int)>::empty(),
        ),
{
    lemma_lex_spaced(ts, Seq::empty(), 1);
    assert(Seq::<char>::empty() + spaced(ts) =~= spaced(ts));
}

proof fn lemma_find_bounds(s: Seq<char>, a: int, c: char)
    requires
        0 <= a <= s.len(),
    ensures
        a <= find_from(s, a, c) <= s.len(),
        forall|j: int| a <= j < find_from(s, a, c) ==> #[trigger] s[j] != c,
    decreases s.len() - a,
{
    if a < s.len() && s[a] != c {
        lemma_find_bounds(s, a + 1, c);
    }
}

proof fn lemma_identifier_bounds(s: Seq<char>, a: int)
    requires
        0 <= a <= s.len(),
    ensures
        a <= identifier_end(s, a) <= s.len(),
        forall|j: int| a <= j < identifier_end(s, a) ==> continues_identifier(#[trigger] s[j]),
    decreases s.len() - a,
{
    if a < s.len() && continues_identifier(s[a]) {
        lemma_identifier_bounds(s, a + 1);
    }
}

proof fn lemma_number_prefix(s: Seq<char>, i: int, j: int, d: bool)
    requires
        0 <= i,
        i + j <= s.len(),
        0 <= j,
    ensures
        i + j <= number_end(s, i + j, d) <= s.len(),
        number_end(s.subrange(i, number_end(s, i + j, d)), j, d) == number_end(s, i + j, d) - i,
    decreases s.len() - (i + j),
{
    let e = number_end(s, i + j, d);
    if i + j < s.len() && (is_digit(s[i + j]) || (s[i + j] == '.' && !d)) {
        let nd = d || s[i + j] == '.';
        lemma_number_prefix(s, i, j + 1, nd);
        assert(s.subrange(i, e)[j] == s[i + j]);
    }
}

/// Every token that one scanning step yields is relexable.
proof fn lemma_step_yields_relexable(s: Seq<char>, i: int, line: int)
    requires
        0 <= i < s.len(),
    ensures
        step_at(s, i, line).token is Some ==> relexable(step_at(s, i, line).token->Some_0),
{
    let c = s[i];
    if c == '"' {
        lemma_find_bounds(s, i + 1, '"');
        let end = find_from(s, i + 1, '"');
        let text = s.subrange(i + 1, end);
        assert forall|j: int| 0 <= j < text.len() implies text[j] != '"' by {
            assert(text[j] == s[i + 1 + j]);
        }
    } else if is_digit(c) {
        lemma_number_prefix(s, i, 1, false);
        let end = number_end(s, i + 1, false);
        assert(s.subrange(i, end)[0] == c);
    } else if starts_identifier(c) {
        lemma_identifier_bounds(s, i + 1);
        let end = identifier_end(s, i + 1);
        let w = s.subrange(i, end);
        assert(w[0] == c);
        assert forall|j: int| 1 <= j < w.len() implies continues_identifier(#[trigger] w[j]) by {
            assert(w[j] == s[i + j]);
        }
    }
}

/// The tokens of `lex_from(s, i, line)` are relexable tokens, then one `EOF`.
proof fn lemma_lex_relexable(s: Seq<char>, i: int, line: int)
    requires
        0 <= i,
    ensures
        lex_from(s, i, line).0.len() >= 1,
        lex_from(s, i, line).0.last() == (TokenKind::EOF, Seq::<char>::empty()),
        forall|j: int|
            0 <= j < lex_from(s, i, line).0.len() - 1 ==> relexable(
                #[trigger] lex_from(s, i, line).0[j],
            ),
    decreases s.len() - i,
{
    if i < s.len() {
        let st = step_at(s, i, line);
        lemma_step_yields_relexable(s, i, line);
        if st.next > i && st.next <= s.len() {
            lemma_lex_relexable(s, st.next, st.line);
            let rest = lex_from(s, st.next, st.line).0;
            let all = lex_from(s, i, line).0;
            assert(all == option_seq(st.token) + rest);
            assert forall|j: int| 0 <= j < all.len() - 1 implies relexable(#[trigger] all[j]) by {
                if st.token is Some && j == 0 {
                    assert(all[0] == st.token->Some_0);
                } else {
                    assert(all[j] == rest[j - option_seq(st.token).len()]);
                }
            }
        } else {
            assert(false) by {
                lemma_step_advances(s, i, line);
            }
        }
    }
}

proof fn lemma_step_advances(s: Seq<char>, i: int, line: int)
    requires
        0 <= i < s.len(),
    ensures
        i < step_at(s, i, line).next <= s.len(),
{
    let c = s[i];
    if c == '/' && i + 1 < s.len() && s[i + 1] == '/' {
        lemma_find_bounds(s, i + 2, '\n');
    } else if c == '"' {
        lemma_find_bounds(s, i + 1, '"');
    } else if is_digit(c) {
        lemma_number_prefix(s, i, 1, false);
    } else if starts_identifier(c) {
        lemma_identifier_bounds(s, i + 1);
    }
}

/// Lex stability of any input: lexing the lexemes of the tokens that `s`
/// lexes to, each followed by a space, gives the same tokens.
pub proof fn law_relex_output(s: Seq<char>)
    ensures
        lex(spaced(lex(s).0.drop_last())).0 == lex(s).0,
{
    lemma_lex_relexable(s, 0, 1);
    let ts = lex(s).0.drop_last();
    assert forall|j: int| 0 <= j < ts.len() implies relexable(#[trigger] ts[j]) by {
        assert(ts[j] == lex(s).0[j]);
    }
    law_relex_stable(ts);
    assert(ts.push((TokenKind::EOF, Seq::<char>::empty())) =~= lex(s).0);
}

} // verus!

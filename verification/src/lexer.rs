//! The scanner: characters in, tokens out, with line and column tracking.
use vstd::prelude::*;
use crate::text::{
    i32_text, int_text, nat_text, usize_text,
    decimal_value, is_alphabetic, is_alphanumeric, is_digit, is_whitespace, parse_decimal_i32,
    push_char, char_alphabetic, char_alphanumeric, char_whitespace,
};

verus! {

#[derive(Debug, PartialEq)]
pub enum Token {
    // Keywords
    If,
    Else,
    While,
    Int,
    Bool,
    Return,
    PrintInt,
    True,
    False,
    // Identifiers and literals
    Identifier(String),
    IntLiteral(i32),
    // Operators
    Plus,
    Minus,
    Star,
    Slash,
    Assign,
    Eq,
    Ne,
    Lt,
    Le,
    Gt,
    Ge,
    // Delimiters
    LParen,
    RParen,
    LBrace,
    RBrace,
    Semi,
    Comma,
    EOF,
}

/// Mathematical model of a token.
pub enum SpecToken {
    If,
    Else,
    While,
    Int,
    Bool,
    Return,
    PrintInt,
    True,
    False,
    Identifier(Seq<char>),
    IntLiteral(i32),
    Plus,
    Minus,
    Star,
    Slash,
    Assign,
    Eq,
    Ne,
    Lt,
    Le,
    Gt,
    Ge,
    LParen,
    RParen,
    LBrace,
    RBrace,
    Semi,
    Comma,
    EOF,
}

impl View for Token {
    type V = SpecToken;

    open spec fn view(&self) -> SpecToken {
        match self {
            Token::If => SpecToken::If,
            Token::Else => SpecToken::Else,
            Token::While => SpecToken::While,
            Token::Int => SpecToken::Int,
            Token::Bool => SpecToken::Bool,
            Token::Return => SpecToken::Return,
            Token::PrintInt => SpecToken::PrintInt,
            Token::True => SpecToken::True,
            Token::False => SpecToken::False,
            Token::Identifier(s) => SpecToken::Identifier(s@),
            Token::IntLiteral(i) => SpecToken::IntLiteral(*i),
            Token::Plus => SpecToken::Plus,
            Token::Minus => SpecToken::Minus,
            Token::Star => SpecToken::Star,
            Token::Slash => SpecToken::Slash,
            Token::Assign => SpecToken::Assign,
            Token::Eq => SpecToken::Eq,
            Token::Ne => SpecToken::Ne,
            Token::Lt => SpecToken::Lt,
            Token::Le => SpecToken::Le,
            Token::Gt => SpecToken::Gt,
            Token::Ge => SpecToken::Ge,
            Token::LParen => SpecToken::LParen,
            Token::RParen => SpecToken::RParen,
            Token::LBrace => SpecToken::LBrace,
            Token::RBrace => SpecToken::RBrace,
            Token::Semi => SpecToken::Semi,
            Token::Comma => SpecToken::Comma,
            Token::EOF => SpecToken::EOF,
        }
    }
}

#[derive(Debug, PartialEq)]
pub enum LexerError {
    UnexpectedCharacter(char, usize, usize),
    InvalidIntegerLiteral(String, usize, usize),
}

/// Mathematical model of a lexical error: the offending text and its 1-based position.
pub enum SpecLexerError {
    UnexpectedCharacter(char, nat, nat),
    InvalidIntegerLiteral(Seq<char>, nat, nat),
}

impl View for LexerError {
    type V = SpecLexerError;

    open spec fn view(&self) -> SpecLexerError {
        match self {
            LexerError::UnexpectedCharacter(c, l, k) => SpecLexerError::UnexpectedCharacter(
                *c,
                *l as nat,
                *k as nat,
            ),
            LexerError::InvalidIntegerLiteral(s, l, k) => SpecLexerError::InvalidIntegerLiteral(
                s@,
                *l as nat,
                *k as nat,
            ),
        }
    }
}

/// The message of a lexical error.
pub open spec fn lexer_error_text(e: SpecLexerError) -> Seq<char> {
    match e {
        SpecLexerError::UnexpectedCharacter(c, l, k) => "Unexpected character: '"@ + seq![c]
            + "' at line "@ + nat_text(l) + ", col "@ + nat_text(k),
        SpecLexerError::InvalidIntegerLiteral(s, l, k) => "Invalid integer literal: '"@ + s
            + "' at line "@ + nat_text(l) + ", col "@ + nat_text(k),
    }
}

impl LexerError {
    /// The message that reports this error.
    pub fn message(&self) -> (s: String)
        ensures
            s@ == lexer_error_text(self@),
    {
        match self {
            LexerError::UnexpectedCharacter(c, l, k) => {
                let mut s = String::from_str("Unexpected character: '");
                push_char(&mut s, *c);
                s.append("' at line ");
                s.append(usize_text(*l).as_str());
                s.append(", col ");
                s.append(usize_text(*k).as_str());
                assert(s@ =~= lexer_error_text(self@));
                s
            },
            LexerError::InvalidIntegerLiteral(t, l, k) => {
                let mut s = String::from_str("Invalid integer literal: '");
                s.append(t.as_str());
                s.append("' at line ");
                s.append(usize_text(*l).as_str());
                s.append(", col ");
                s.append(usize_text(*k).as_str());
                assert(s@ =~= lexer_error_text(self@));
                s
            },
        }
    }
}

/// Which variant a token is, as a number (what comparing discriminants compares).
pub open spec fn kind_index(t: SpecToken) -> nat {
    match t {
        SpecToken::If => 0,
        SpecToken::Else => 1,
        SpecToken::While => 2,
        SpecToken::Int => 3,
        SpecToken::Bool => 4,
        SpecToken::Return => 5,
        SpecToken::PrintInt => 6,
        SpecToken::True => 7,
        SpecToken::False => 8,
        SpecToken::Identifier(_) => 9,
        SpecToken::IntLiteral(_) => 10,
        SpecToken::Plus => 11,
        SpecToken::Minus => 12,
        SpecToken::Star => 13,
        SpecToken::Slash => 14,
        SpecToken::Assign => 15,
        SpecToken::Eq => 16,
        SpecToken::Ne => 17,
        SpecToken::Lt => 18,
        SpecToken::Le => 19,
        SpecToken::Gt => 20,
        SpecToken::Ge => 21,
        SpecToken::LParen => 22,
        SpecToken::RParen => 23,
        SpecToken::LBrace => 24,
        SpecToken::RBrace => 25,
        SpecToken::Semi => 26,
        SpecToken::Comma => 27,
        SpecToken::EOF => 28,
    }
}

/// Two tokens of the same variant, whatever they carry.
pub open spec fn same_kind(a: SpecToken, b: SpecToken) -> bool {
    kind_index(a) == kind_index(b)
}

/// The name of a token's variant: what `{:?}` prints for the variants that carry nothing.
pub open spec fn variant_name(t: SpecToken) -> Seq<char> {
    match t {
        SpecToken::If => "If"@,
        SpecToken::Else => "Else"@,
        SpecToken::While => "While"@,
        SpecToken::Int => "Int"@,
        SpecToken::Bool => "Bool"@,
        SpecToken::Return => "Return"@,
        SpecToken::PrintInt => "PrintInt"@,
        SpecToken::True => "True"@,
        SpecToken::False => "False"@,
        SpecToken::Identifier(_) => "Identifier"@,
        SpecToken::IntLiteral(_) => "IntLiteral"@,
        SpecToken::Plus => "Plus"@,
        SpecToken::Minus => "Minus"@,
        SpecToken::Star => "Star"@,
        SpecToken::Slash => "Slash"@,
        SpecToken::Assign => "Assign"@,
        SpecToken::Eq => "Eq"@,
        SpecToken::Ne => "Ne"@,
        SpecToken::Lt => "Lt"@,
        SpecToken::Le => "Le"@,
        SpecToken::Gt => "Gt"@,
        SpecToken::Ge => "Ge"@,
        SpecToken::LParen => "LParen"@,
        SpecToken::RParen => "RParen"@,
        SpecToken::LBrace => "LBrace"@,
        SpecToken::RBrace => "RBrace"@,
        SpecToken::Semi => "Semi"@,
        SpecToken::Comma => "Comma"@,
        SpecToken::EOF => "EOF"@,
    }
}

/// How a token is shown in messages: identifiers by their name, literals by
/// their value, and the rest by their variant's name.
pub open spec fn token_text(t: SpecToken) -> Seq<char> {
    match t {
        SpecToken::Identifier(s) => s,
        SpecToken::IntLiteral(i) => int_text(i as int),
        _ => variant_name(t),
    }
}

/// The variant of a token, as a number.
pub fn token_kind(t: &Token) -> (k: u8)
    ensures
        k as nat == kind_index(t@),
{
    match t {
        Token::If => 0,
        Token::Else => 1,
        Token::While => 2,
        Token::Int => 3,
        Token::Bool => 4,
        Token::Return => 5,
        Token::PrintInt => 6,
        Token::True => 7,
        Token::False => 8,
        Token::Identifier(_) => 9,
        Token::IntLiteral(_) => 10,
        Token::Plus => 11,
        Token::Minus => 12,
        Token::Star => 13,
        Token::Slash => 14,
        Token::Assign => 15,
        Token::Eq => 16,
        Token::Ne => 17,
        Token::Lt => 18,
        Token::Le => 19,
        Token::Gt => 20,
        Token::Ge => 21,
        Token::LParen => 22,
        Token::RParen => 23,
        Token::LBrace => 24,
        Token::RBrace => 25,
        Token::Semi => 26,
        Token::Comma => 27,
        Token::EOF => 28,
    }
}

/// Whether two tokens are of the same variant.
pub fn same_variant(a: &Token, b: &Token) -> (r: bool)
    ensures
        r == same_kind(a@, b@),
{
    token_kind(a) == token_kind(b)
}

pub(crate) fn variant_name_of(t: &Token) -> (s: String)
    ensures
        s@ == variant_name(t@),
{
    match t {
        Token::If => String::from_str("If"),
        Token::Else => String::from_str("Else"),
        Token::While => String::from_str("While"),
        Token::Int => String::from_str("Int"),
        Token::Bool => String::from_str("Bool"),
        Token::Return => String::from_str("Return"),
        Token::PrintInt => String::from_str("PrintInt"),
        Token::True => String::from_str("True"),
        Token::False => String::from_str("False"),
        Token::Identifier(_) => String::from_str("Identifier"),
        Token::IntLiteral(_) => String::from_str("IntLiteral"),
        Token::Plus => String::from_str("Plus"),
        Token::Minus => String::from_str("Minus"),
        Token::Star => String::from_str("Star"),
        Token::Slash => String::from_str("Slash"),
        Token::Assign => String::from_str("Assign"),
        Token::Eq => String::from_str("Eq"),
        Token::Ne => String::from_str("Ne"),
        Token::Lt => String::from_str("Lt"),
        Token::Le => String::from_str("Le"),
        Token::Gt => String::from_str("Gt"),
        Token::Ge => String::from_str("Ge"),
        Token::LParen => String::from_str("LParen"),
        Token::RParen => String::from_str("RParen"),
        Token::LBrace => String::from_str("LBrace"),
        Token::RBrace => String::from_str("RBrace"),
        Token::Semi => String::from_str("Semi"),
        Token::Comma => String::from_str("Comma"),
        Token::EOF => String::from_str("EOF"),
    }
}

impl Token {
    /// The text that shows this token in messages.
    pub fn display_text(&self) -> (s: String)
        ensures
            s@ == token_text(self@),
    {
        match self {
            Token::Identifier(s) => s.clone(),
            Token::IntLiteral(i) => i32_text(*i),
            _ => variant_name_of(self),
        }
    }
}

impl Clone for Token {
    fn clone(&self) -> (r: Token)
        ensures
            r == *self,
    {
        match self {
            Token::If => Token::If,
            Token::Else => Token::Else,
            Token::While => Token::While,
            Token::Int => Token::Int,
            Token::Bool => Token::Bool,
            Token::Return => Token::Return,
            Token::PrintInt => Token::PrintInt,
            Token::True => Token::True,
            Token::False => Token::False,
            Token::Identifier(s) => Token::Identifier(s.clone()),
            Token::IntLiteral(i) => Token::IntLiteral(*i),
            Token::Plus => Token::Plus,
            Token::Minus => Token::Minus,
            Token::Star => Token::Star,
            Token::Slash => Token::Slash,
            Token::Assign => Token::Assign,
            Token::Eq => Token::Eq,
            Token::Ne => Token::Ne,
            Token::Lt => Token::Lt,
            Token::Le => Token::Le,
            Token::Gt => Token::Gt,
            Token::Ge => Token::Ge,
            Token::LParen => Token::LParen,
            Token::RParen => Token::RParen,
            Token::LBrace => Token::LBrace,
            Token::RBrace => Token::RBrace,
            Token::Semi => Token::Semi,
            Token::Comma => Token::Comma,
            Token::EOF => Token::EOF,
        }
    }
}

impl Clone for LexerError {
    fn clone(&self) -> (r: LexerError)
        ensures
            r == *self,
    {
        match self {
            LexerError::UnexpectedCharacter(c, l, k) => LexerError::UnexpectedCharacter(*c, *l, *k),
            LexerError::InvalidIntegerLiteral(s, l, k) => LexerError::InvalidIntegerLiteral(
                s.clone(),
                *l,
                *k,
            ),
        }
    }
}

/// A place in the input: the index of the next character, and its 1-based line and column.
pub struct Cursor {
    pub pos: nat,
    pub line: nat,
    pub column: nat,
}

/// The cursor at the start of an input.
pub open spec fn start_cursor() -> Cursor {
    Cursor { pos: 0, line: 1, column: 1 }
}

/// A cursor that a scan of `input` from the start can reach: lines and columns
/// never count more characters than were read.
pub open spec fn cursor_ok(input: Seq<char>, c: Cursor) -> bool {
    &&& c.pos <= input.len()
    &&& input.len() < usize::MAX
    &&& c.line >= 1
    &&& c.column >= 1
    &&& c.line + c.column <= c.pos + 2
}

/// Reading one character: a newline starts the next line at column 1.
pub open spec fn step(input: Seq<char>, c: Cursor) -> Cursor {
    if input[c.pos as int] == '\n' {
        Cursor { pos: c.pos + 1, line: c.line + 1, column: 1 }
    } else {
        Cursor { pos: c.pos + 1, line: c.line, column: c.column + 1 }
    }
}

/// How many newlines `s` holds.
pub open spec fn newlines(s: Seq<char>) -> nat
    decreases s.len(),
{
    if s.len() == 0 {
        0
    } else {
        newlines(s.drop_last()) + if s.last() == '\n' {
            1nat
        } else {
            0nat
        }
    }
}

/// Where the last line of `s` starts: just after its last newline, or at 0.
pub open spec fn line_start(s: Seq<char>) -> nat
    decreases s.len(),
{
    if s.len() == 0 {
        0
    } else if s.last() == '\n' {
        s.len()
    } else {
        line_start(s.drop_last())
    }
}

/// The 1-based line and column of the character at index `pos` of `input`.
pub open spec fn position_of(input: Seq<char>, pos: nat) -> (nat, nat) {
    let before = input.take(pos as int);
    (1 + newlines(before), (pos - line_start(before) + 1) as nat)
}

/// A cursor whose line and column are those of its index.
pub open spec fn placed(input: Seq<char>, c: Cursor) -> bool {
    &&& c.pos <= input.len()
    &&& (c.line, c.column) == position_of(input, c.pos)
}

/// Skips whitespace and `//` line comments; `in_comment` holds inside a comment,
/// which ends before its newline.
pub open spec fn skip_trivia(input: Seq<char>, c: Cursor, in_comment: bool) -> Cursor
    decreases input.len() - c.pos, if in_comment { 1int } else { 0int },
{
    if c.pos >= input.len() {
        c
    } else {
        let ch = input[c.pos as int];
        if in_comment {
            if ch == '\n' {
                skip_trivia(input, c, false)
            } else {
                skip_trivia(input, step(input, c), true)
            }
        } else if char_whitespace(ch) {
            skip_trivia(input, step(input, c), false)
        } else if ch == '/' && c.pos + 1 < input.len() && input[c.pos + 1int] == '/' {
            skip_trivia(input, step(input, c), true)
        } else {
            c
        }
    }
}

/// A character that may continue an identifier.
pub open spec fn ident_char(c: char) -> bool {
    char_alphanumeric(c) || c == '_'
}

/// Reads the rest of an identifier.
pub open spec fn scan_ident(input: Seq<char>, c: Cursor) -> Cursor
    decreases input.len() - c.pos,
{
    if c.pos < input.len() && ident_char(input[c.pos as int]) {
        scan_ident(input, step(input, c))
    } else {
        c
    }
}

/// Reads the rest of a run of ASCII digits.
pub open spec fn scan_digits(input: Seq<char>, c: Cursor) -> Cursor
    decreases input.len() - c.pos,
{
    if c.pos < input.len() && is_digit(input[c.pos as int]) {
        scan_digits(input, step(input, c))
    } else {
        c
    }
}

/// The keyword spelled by `w`, or else the identifier `w`.
pub open spec fn word_token(w: Seq<char>) -> SpecToken {
    if w == seq!['i', 'f'] {
        SpecToken::If
    } else if w == seq!['e', 'l', 's', 'e'] {
        SpecToken::Else
    } else if w == seq!['w', 'h', 'i', 'l', 'e'] {
        SpecToken::While
    } else if w == seq!['i', 'n', 't'] {
        SpecToken::Int
    } else if w == seq!['b', 'o', 'o', 'l'] {
        SpecToken::Bool
    } else if w == seq!['r', 'e', 't', 'u', 'r', 'n'] {
        SpecToken::Return
    } else if w == seq!['p', 'r', 'i', 'n', 't', 'I', 'n', 't'] {
        SpecToken::PrintInt
    } else if w == seq!['t', 'r', 'u', 'e'] {
        SpecToken::True
    } else if w == seq!['f', 'a', 'l', 's', 'e'] {
        SpecToken::False
    } else {
        SpecToken::Identifier(w)
    }
}

/// The single-character punctuation tokens.
pub open spec fn punct_token(ch: char) -> Option<SpecToken> {
    if ch == '(' {
        Some(SpecToken::LParen)
    } else if ch == ')' {
        Some(SpecToken::RParen)
    } else if ch == '{' {
        Some(SpecToken::LBrace)
    } else if ch == '}' {
        Some(SpecToken::RBrace)
    } else if ch == ';' {
        Some(SpecToken::Semi)
    } else if ch == ',' {
        Some(SpecToken::Comma)
    } else if ch == '+' {
        Some(SpecToken::Plus)
    } else if ch == '-' {
        Some(SpecToken::Minus)
    } else if ch == '*' {
        Some(SpecToken::Star)
    } else if ch == '/' {
        Some(SpecToken::Slash)
    } else {
        None
    }
}

/// The next token of `input` from cursor `c0`, and the cursor after it.
/// Errors carry the line and column where the offending lexeme starts.
pub open spec fn lex_token(input: Seq<char>, c0: Cursor) -> (
    Result<SpecToken, SpecLexerError>,
    Cursor,
) {
    let c = skip_trivia(input, c0, false);
    if c.pos >= input.len() {
        (Ok(SpecToken::EOF), c)
    } else {
        let ch = input[c.pos as int];
        let c1 = step(input, c);
        let next_is_eq = c1.pos < input.len() && input[c1.pos as int] == '=';
        if punct_token(ch) is Some {
            (Ok(punct_token(ch)->0), c1)
        } else if ch == '=' {
            if next_is_eq {
                (Ok(SpecToken::Eq), step(input, c1))
            } else {
                (Ok(SpecToken::Assign), c1)
            }
        } else if ch == '!' {
            if next_is_eq {
                (Ok(SpecToken::Ne), step(input, c1))
            } else {
                (Err(SpecLexerError::UnexpectedCharacter('!', c.line, c.column)), c1)
            }
        } else if ch == '<' {
            if next_is_eq {
                (Ok(SpecToken::Le), step(input, c1))
            } else {
                (Ok(SpecToken::Lt), c1)
            }
        } else if ch == '>' {
            if next_is_eq {
                (Ok(SpecToken::Ge), step(input, c1))
            } else {
                (Ok(SpecToken::Gt), c1)
            }
        } else if char_alphabetic(ch) || ch == '_' {
            let e = scan_ident(input, c1);
            (Ok(word_token(input.subrange(c.pos as int, e.pos as int))), e)
        } else if is_digit(ch) {
            let e = scan_digits(input, c1);
            let digits = input.subrange(c.pos as int, e.pos as int);
            if decimal_value(digits) <= i32::MAX {
                (Ok(SpecToken::IntLiteral(decimal_value(digits) as i32)), e)
            } else {
                (Err(SpecLexerError::InvalidIntegerLiteral(digits, c.line, c.column)), e)
            }
        } else {
            (Err(SpecLexerError::UnexpectedCharacter(ch, c.line, c.column)), c1)
        }
    }
}

/// The model of one item that the lexer yields.
pub open spec fn item_view(r: Result<Token, LexerError>) -> Result<SpecToken, SpecLexerError> {
    match r {
        Ok(t) => Ok(t@),
        Err(e) => Err(e@),
    }
}

/// The single-character punctuation tokens.
fn punct(ch: char) -> (t: Option<Token>)
    ensures
        punct_token(ch) == match t {
            Some(t) => Some(t@),
            None => None::<SpecToken>,
        },
{
    if ch == '(' {
        Some(Token::LParen)
    } else if ch == ')' {
        Some(Token::RParen)
    } else if ch == '{' {
        Some(Token::LBrace)
    } else if ch == '}' {
        Some(Token::RBrace)
    } else if ch == ';' {
        Some(Token::Semi)
    } else if ch == ',' {
        Some(Token::Comma)
    } else if ch == '+' {
        Some(Token::Plus)
    } else if ch == '-' {
        Some(Token::Minus)
    } else if ch == '*' {
        Some(Token::Star)
    } else if ch == '/' {
        Some(Token::Slash)
    } else {
        None
    }
}

/// Whether `w` spells the keyword `kw`.
fn spells(w: &Vec<char>, kw: &[char]) -> (b: bool)
    ensures
        b == (w@ == kw@),
{
    if w.len() != kw.len() {
        return false;
    }
    let mut i: usize = 0;
    while i < w.len()
        invariant
            w@.len() == kw@.len(),
            i <= w@.len(),
            forall|j: int| 0 <= j < i ==> w@[j] == kw@[j],
        decreases w@.len() - i,
    {
        if w[i] != kw[i] {
            return false;
        }
        i = i + 1;
    }
    assert(w@ =~= kw@);
    true
}

/// The keyword spelled by `word`, or else the identifier `ident` (which holds the same text).
fn word_to_token(word: &Vec<char>, ident: String) -> (t: Token)
    requires
        ident@ == word@,
    ensures
        t@ == word_token(word@),
{
    let kw_if = ['i', 'f'];
    let kw_else = ['e', 'l', 's', 'e'];
    let kw_while = ['w', 'h', 'i', 'l', 'e'];
    let kw_int = ['i', 'n', 't'];
    let kw_bool = ['b', 'o', 'o', 'l'];
    let kw_return = ['r', 'e', 't', 'u', 'r', 'n'];
    let kw_print = ['p', 'r', 'i', 'n', 't', 'I', 'n', 't'];
    let kw_true = ['t', 'r', 'u', 'e'];
    let kw_false = ['f', 'a', 'l', 's', 'e'];
    assert(kw_if@ =~= seq!['i', 'f']);
    assert(kw_else@ =~= seq!['e', 'l', 's', 'e']);
    assert(kw_while@ =~= seq!['w', 'h', 'i', 'l', 'e']);
    assert(kw_int@ =~= seq!['i', 'n', 't']);
    assert(kw_bool@ =~= seq!['b', 'o', 'o', 'l']);
    assert(kw_return@ =~= seq!['r', 'e', 't', 'u', 'r', 'n']);
    assert(kw_print@ =~= seq!['p', 'r', 'i', 'n', 't', 'I', 'n', 't']);
    assert(kw_true@ =~= seq!['t', 'r', 'u', 'e']);
    assert(kw_false@ =~= seq!['f', 'a', 'l', 's', 'e']);
    if spells(word, kw_if.as_slice()) {
        Token::If
    } else if spells(word, kw_else.as_slice()) {
        Token::Else
    } else if spells(word, kw_while.as_slice()) {
        Token::While
    } else if spells(word, kw_int.as_slice()) {
        Token::Int
    } else if spells(word, kw_bool.as_slice()) {
        Token::Bool
    } else if spells(word, kw_return.as_slice()) {
        Token::Return
    } else if spells(word, kw_print.as_slice()) {
        Token::PrintInt
    } else if spells(word, kw_true.as_slice()) {
        Token::True
    } else if spells(word, kw_false.as_slice()) {
        Token::False
    } else {
        Token::Identifier(ident)
    }
}

#[derive(Clone)]
pub struct Lexer {
    input: Vec<char>,
    pos: usize,
    line: usize,
    column: usize,
}

impl Lexer {
    /// The characters of the whole input.
    pub closed spec fn chars(&self) -> Seq<char> {
        self.input@
    }

    /// Where the lexer stands in its input.
    pub closed spec fn cursor(&self) -> Cursor {
        Cursor { pos: self.pos as nat, line: self.line as nat, column: self.column as nat }
    }

    pub open spec fn wf(&self) -> bool {
        &&& cursor_ok(self.chars(), self.cursor())
        &&& placed(self.chars(), self.cursor())
    }

    pub fn new(input: &str) -> (lexer: Lexer)
        requires
            input@.len() < usize::MAX,
        ensures
            lexer.wf(),
            lexer.chars() == input@,
            lexer.cursor() == start_cursor(),
    {
        let n = input.unicode_len();
        let mut chars: Vec<char> = Vec::new();
        let mut i: usize = 0;
        while i < n
            invariant
                n == input@.len(),
                i <= n,
                chars@ == input@.take(i as int),
            decreases n - i,
        {
            chars.push(input.get_char(i));
            i = i + 1;
            assert(chars@ =~= input@.take(i as int));
        }
        assert(chars@ =~= input@);
        proof {
            lemma_start_placed(input@);
        }
        Lexer { input: chars, pos: 0, line: 1, column: 1 }
    }

    /// Reads one character, keeping line and column up to date.
    fn advance(&mut self) -> (c: Option<char>)
        requires
            old(self).wf(),
        ensures
            final(self).wf(),
            final(self).chars() == old(self).chars(),
            old(self).cursor().pos < old(self).chars().len() ==> {
                &&& c == Some(old(self).chars()[old(self).cursor().pos as int])
                &&& final(self).cursor() == step(old(self).chars(), old(self).cursor())
            },
            old(self).cursor().pos >= old(self).chars().len() ==> {
                &&& c is None
                &&& final(self).cursor() == old(self).cursor()
            },
    {
        if self.pos < self.input.len() {
            proof {
                lemma_step_placed(self.chars(), self.cursor());
            }
            let ch = self.input[self.pos];
            self.pos = self.pos + 1;
            if ch == '\n' {
                self.line = self.line + 1;
                self.column = 1;
            } else {
                self.column = self.column + 1;
            }
            Some(ch)
        } else {
            None
        }
    }

    /// The next character, without reading it.
    fn peek(&self) -> (c: Option<char>)
        requires
            self.wf(),
        ensures
            c == (if self.cursor().pos < self.chars().len() {
                Some(self.chars()[self.cursor().pos as int])
            } else {
                None::<char>
            }),
    {
        if self.pos < self.input.len() {
            Some(self.input[self.pos])
        } else {
            None
        }
    }

    /// The character after the next one, without reading either.
    fn peek_second(&self) -> (c: Option<char>)
        requires
            self.wf(),
        ensures
            c == (if self.cursor().pos + 1 < self.chars().len() {
                Some(self.chars()[self.cursor().pos + 1int])
            } else {
                None::<char>
            }),
    {
        if self.pos + 1 < self.input.len() {
            Some(self.input[self.pos + 1])
        } else {
            None
        }
    }

    /// Reads the next token. At the end of input it answers `Token::EOF`, and
    /// keeps answering it.
    pub fn next_token(&mut self) -> (res: Result<Token, LexerError>)
        requires
            old(self).wf(),
        ensures
            final(self).wf(),
            final(self).chars() == old(self).chars(),
            final(self).cursor() == lex_token(old(self).chars(), old(self).cursor()).1,
            lex_token(old(self).chars(), old(self).cursor()).0 == match res {
                Ok(t) => Ok::<SpecToken, SpecLexerError>(t@),
                Err(e) => Err::<SpecToken, SpecLexerError>(e@),
            },
    {
        let ghost input = self.chars();
        let ghost c0 = self.cursor();
        self.skip_whitespace_and_comments();
        let ghost c = self.cursor();
        let start_line = self.line;
        let start_column = self.column;
        let ch = match self.advance() {
            Some(ch) => ch,
            None => {
                return Ok(Token::EOF);
            },
        };
        let ghost c1 = self.cursor();
        proof {
            lemma_step_ok(input, c);
        }
        if let Some(t) = punct(ch) {
            return Ok(t);
        }
        if ch == '=' || ch == '!' || ch == '<' || ch == '>' {
            let followed_by_eq = self.peek() == Some('=');
            if followed_by_eq {
                self.advance();
            }
            return if ch == '=' {
                if followed_by_eq {
                    Ok(Token::Eq)
                } else {
                    Ok(Token::Assign)
                }
            } else if ch == '!' {
                if followed_by_eq {
                    Ok(Token::Ne)
                } else {
                    Err(LexerError::UnexpectedCharacter('!', start_line, start_column))
                }
            } else if ch == '<' {
                if followed_by_eq {
                    Ok(Token::Le)
                } else {
                    Ok(Token::Lt)
                }
            } else {
                if followed_by_eq {
                    Ok(Token::Ge)
                } else {
                    Ok(Token::Gt)
                }
            };
        }
        if is_alphabetic(ch) || ch == '_' {
            let mut ident = String::new();
            push_char(&mut ident, ch);
            let mut word: Vec<char> = Vec::new();
            word.push(ch);
            loop
                invariant
                    self.wf(),
                    self.chars() == input,
                    c1.pos <= self.cursor().pos,
                    scan_ident(input, self.cursor()) == scan_ident(input, c1),
                    c.pos < c1.pos,
                    ident@ == word@,
                    word@ == input.subrange(c.pos as int, self.cursor().pos as int),
                ensures
                    self.wf(),
                    self.chars() == input,
                    self.cursor() == scan_ident(input, c1),
                    ident@ == word@,
                    word@ == input.subrange(c.pos as int, self.cursor().pos as int),
                decreases input.len() - self.cursor().pos,
            {
                match self.peek() {
                    Some(next) => {
                        if is_alphanumeric(next) || next == '_' {
                            self.advance();
                            push_char(&mut ident, next);
                            word.push(next);
                            assert(word@ =~= input.subrange(c.pos as int, self.cursor().pos as int));
                        } else {
                            break;
                        }
                    },
                    None => {
                        break;
                    },
                }
            }
            return Ok(word_to_token(&word, ident));
        }
        if '0' <= ch && ch <= '9' {
            let mut num_str = String::new();
            push_char(&mut num_str, ch);
            loop
                invariant
                    self.wf(),
                    self.chars() == input,
                    c1.pos <= self.cursor().pos,
                    scan_digits(input, self.cursor()) == scan_digits(input, c1),
                    c.pos < c1.pos,
                    num_str@ == input.subrange(c.pos as int, self.cursor().pos as int),
                    forall|i: int| 0 <= i < num_str@.len() ==> is_digit(#[trigger] num_str@[i]),
                ensures
                    self.wf(),
                    self.chars() == input,
                    self.cursor() == scan_digits(input, c1),
                    num_str@ == input.subrange(c.pos as int, self.cursor().pos as int),
                    forall|i: int| 0 <= i < num_str@.len() ==> is_digit(#[trigger] num_str@[i]),
                decreases input.len() - self.cursor().pos,
            {
                match self.peek() {
                    Some(next) => {
                        if '0' <= next && next <= '9' {
                            self.advance();
                            push_char(&mut num_str, next);
                            assert(num_str@ =~= input.subrange(
                                c.pos as int,
                                self.cursor().pos as int,
                            ));
                        } else {
                            break;
                        }
                    },
                    None => {
                        break;
                    },
                }
            }
            return match parse_decimal_i32(num_str.as_str()) {
                Some(val) => Ok(Token::IntLiteral(val)),
                None => Err(LexerError::InvalidIntegerLiteral(num_str, start_line, start_column)),
            };
        }
        Err(LexerError::UnexpectedCharacter(ch, start_line, start_column))
    }

    /// The iterator view of the lexer: the next token, or `None` at the end of input.
    pub fn next_item(&mut self) -> (item: Option<Result<Token, LexerError>>)
        requires
            old(self).wf(),
        ensures
            final(self).wf(),
            final(self).chars() == old(self).chars(),
            final(self).cursor() == lex_token(old(self).chars(), old(self).cursor()).1,
            item == None::<Result<Token, LexerError>> <==> lex_token(
                old(self).chars(),
                old(self).cursor(),
            ).0 == Ok::<SpecToken, SpecLexerError>(SpecToken::EOF),
            item matches Some(r) ==> lex_token(old(self).chars(), old(self).cursor()).0
                == item_view(r),
    {
        match self.next_token() {
            Ok(Token::EOF) => None,
            other => Some(other),
        }
    }

    fn skip_whitespace_and_comments(&mut self)
        requires
            old(self).wf(),
        ensures
            final(self).wf(),
            final(self).chars() == old(self).chars(),
            final(self).cursor() == skip_trivia(old(self).chars(), old(self).cursor(), false),
    {
        let ghost input = self.chars();
        let ghost target = skip_trivia(input, self.cursor(), false);
        loop
            invariant
                self.wf(),
                self.chars() == input,
                input == old(self).chars(),
                target == skip_trivia(old(self).chars(), old(self).cursor(), false),
                skip_trivia(input, self.cursor(), false) == target,
            decreases input.len() - self.cursor().pos,
        {
            match self.peek() {
                Some(c) => {
                    if is_whitespace(c) {
                        self.advance();
                    } else if c == '/' {
                        if self.peek_second() == Some('/') {
                            // A comment runs up to, not including, the newline.
                            let ghost start = self.cursor().pos;
                            self.advance();
                            loop
                                invariant
                                    self.wf(),
                                    self.chars() == input,
                                    self.cursor().pos > start,
                                    skip_trivia(input, self.cursor(), true) == target,
                                ensures
                                    self.wf(),
                                    self.chars() == input,
                                    self.cursor().pos > start,
                                    skip_trivia(input, self.cursor(), false) == target,
                                decreases input.len() - self.cursor().pos,
                            {
                                match self.peek() {
                                    Some(ch) => {
                                        if ch == '\n' {
                                            break;
                                        }
                                        self.advance();
                                    },
                                    None => {
                                        break;
                                    },
                                }
                            }
                        } else {
                            return;
                        }
                    } else {
                        return;
                    }
                },
                None => {
                    return;
                },
            }
        }
    }
}


/// The items that reading tokens one at a time yields, up to (not including) the end of input.
pub open spec fn lex_items(input: Seq<char>, c: Cursor) -> Seq<Result<SpecToken, SpecLexerError>>
    decreases input.len() - c.pos,
{
    let (r, c2) = lex_token(input, c);
    if c.pos > input.len() || r == Ok::<SpecToken, SpecLexerError>(SpecToken::EOF) {
        Seq::empty()
    } else {
        proof {
            lemma_lex_token_progress(input, c);
        }
        seq![r] + lex_items(input, c2)
    }
}

/// The lexer never yields an `EOF` token as an item: the end of input ends the items.
pub proof fn lemma_lex_items_no_eof(input: Seq<char>, c: Cursor)
    ensures
        forall|i: int|
            0 <= i < lex_items(input, c).len() ==> #[trigger] lex_items(input, c)[i] != Ok::<
                SpecToken,
                SpecLexerError,
            >(SpecToken::EOF),
    decreases input.len() - c.pos,
{
    let (r, c2) = lex_token(input, c);
    if !(c.pos > input.len() || r == Ok::<SpecToken, SpecLexerError>(SpecToken::EOF)) {
        lemma_lex_token_progress(input, c);
        lemma_lex_items_no_eof(input, c2);
        let rest = lex_items(input, c2);
        assert forall|i: int| 0 <= i < lex_items(input, c).len() implies #[trigger] lex_items(
            input,
            c,
        )[i] != Ok::<SpecToken, SpecLexerError>(SpecToken::EOF) by {
            if i > 0 {
                assert(lex_items(input, c)[i] == rest[i - 1]);
            }
        }
    }
}

/// Reading one character keeps a cursor reachable.
pub proof fn lemma_step_ok(input: Seq<char>, c: Cursor)
    requires
        c.pos < input.len(),
    ensures
        step(input, c).pos == c.pos + 1,
        cursor_ok(input, c) ==> cursor_ok(input, step(input, c)),
{
}

proof fn lemma_skip_trivia(input: Seq<char>, c: Cursor, in_comment: bool)
    ensures
        c.pos <= input.len() ==> c.pos <= skip_trivia(input, c, in_comment).pos <= input.len(),
        cursor_ok(input, c) ==> cursor_ok(input, skip_trivia(input, c, in_comment)),
    decreases input.len() - c.pos, if in_comment { 1int } else { 0int },
{
    if c.pos < input.len() {
        let ch = input[c.pos as int];
        if in_comment {
            if ch == '\n' {
                lemma_skip_trivia(input, c, false);
            } else {
                lemma_step_ok(input, c);
                lemma_skip_trivia(input, step(input, c), true);
            }
        } else if char_whitespace(ch) {
            lemma_step_ok(input, c);
            lemma_skip_trivia(input, step(input, c), false);
        } else if ch == '/' && c.pos + 1 < input.len() && input[c.pos + 1int] == '/' {
            lemma_step_ok(input, c);
            lemma_skip_trivia(input, step(input, c), true);
        }
    }
}

proof fn lemma_scan_ident(input: Seq<char>, c: Cursor)
    ensures
        c.pos <= input.len() ==> c.pos <= scan_ident(input, c).pos <= input.len(),
        cursor_ok(input, c) ==> cursor_ok(input, scan_ident(input, c)),
    decreases input.len() - c.pos,
{
    if c.pos < input.len() && ident_char(input[c.pos as int]) {
        lemma_step_ok(input, c);
        lemma_scan_ident(input, step(input, c));
    }
}

proof fn lemma_scan_digits(input: Seq<char>, c: Cursor)
    ensures
        c.pos <= input.len() ==> c.pos <= scan_digits(input, c).pos <= input.len(),
        cursor_ok(input, c) ==> cursor_ok(input, scan_digits(input, c)),
    decreases input.len() - c.pos,
{
    if c.pos < input.len() && is_digit(input[c.pos as int]) {
        lemma_step_ok(input, c);
        lemma_scan_digits(input, step(input, c));
    }
}

/// Reading a token moves forward within the input, by at least one character
/// unless it reports the end of input, and keeps the cursor reachable.
pub proof fn lemma_lex_token_progress(input: Seq<char>, c: Cursor)
    ensures
        c.pos <= input.len() ==> c.pos <= lex_token(input, c).1.pos <= input.len(),
        c.pos <= input.len() && lex_token(input, c).0 != Ok::<SpecToken, SpecLexerError>(
            SpecToken::EOF,
        ) ==> c.pos < lex_token(input, c).1.pos,
        cursor_ok(input, c) ==> cursor_ok(input, lex_token(input, c).1),
{
    lemma_skip_trivia(input, c, false);
    let s = skip_trivia(input, c, false);
    if s.pos < input.len() {
        lemma_step_ok(input, s);
        let c1 = step(input, s);
        if c1.pos < input.len() {
            lemma_step_ok(input, c1);
        }
        lemma_scan_ident(input, c1);
        lemma_scan_digits(input, c1);
    }
}

proof fn lemma_line_start_bound(s: Seq<char>)
    ensures
        newlines(s) <= line_start(s) <= s.len(),
    decreases s.len(),
{
    if s.len() > 0 {
        lemma_line_start_bound(s.drop_last());
    }
}

/// The start of the input is line 1, column 1.
pub proof fn lemma_start_placed(input: Seq<char>)
    ensures
        placed(input, start_cursor()),
{
    assert(input.take(0) =~= Seq::<char>::empty());
}

/// Reading one character keeps the line and column those of the index.
pub proof fn lemma_step_placed(input: Seq<char>, c: Cursor)
    requires
        placed(input, c),
        c.pos < input.len(),
    ensures
        placed(input, step(input, c)),
{
    let t = input.take(c.pos as int);
    let t1 = input.take(c.pos + 1int);
    assert(t1.drop_last() =~= t);
    assert(t1.last() == input[c.pos as int]);
    lemma_line_start_bound(t);
}

proof fn lemma_skip_trivia_placed(input: Seq<char>, c: Cursor, in_comment: bool)
    requires
        placed(input, c),
    ensures
        placed(input, skip_trivia(input, c, in_comment)),
    decreases input.len() - c.pos, if in_comment { 1int } else { 0int },
{
    if c.pos < input.len() {
        let ch = input[c.pos as int];
        if in_comment {
            if ch == '\n' {
                lemma_skip_trivia_placed(input, c, false);
            } else {
                lemma_step_placed(input, c);
                lemma_skip_trivia_placed(input, step(input, c), true);
            }
        } else if char_whitespace(ch) {
            lemma_step_placed(input, c);
            lemma_skip_trivia_placed(input, step(input, c), false);
        } else if ch == '/' && c.pos + 1 < input.len() && input[c.pos + 1int] == '/' {
            lemma_step_placed(input, c);
            lemma_skip_trivia_placed(input, step(input, c), true);
        }
    }
}

proof fn lemma_scan_ident_placed(input: Seq<char>, c: Cursor)
    requires
        placed(input, c),
    ensures
        placed(input, scan_ident(input, c)),
    decreases input.len() - c.pos,
{
    if c.pos < input.len() && ident_char(input[c.pos as int]) {
        lemma_step_placed(input, c);
        lemma_scan_ident_placed(input, step(input, c));
    }
}

proof fn lemma_scan_digits_placed(input: Seq<char>, c: Cursor)
    requires
        placed(input, c),
    ensures
        placed(input, scan_digits(input, c)),
    decreases input.len() - c.pos,
{
    if c.pos < input.len() && is_digit(input[c.pos as int]) {
        lemma_step_placed(input, c);
        lemma_scan_digits_placed(input, step(input, c));
    }
}

/// Reading a token from a cursor whose line and column are right keeps them
/// right, and a lexical error names the line and column where the offending
/// character, or the overlong literal, starts.
pub proof fn lemma_lex_token_positions(input: Seq<char>, c0: Cursor)
    requires
        placed(input, c0),
    ensures
        placed(input, lex_token(input, c0).1),
        lex_token(input, c0).0 matches Err(SpecLexerError::UnexpectedCharacter(ch, l, k))
            ==> exists|p: nat|
            c0.pos <= p < input.len() && input[p as int] == ch && #[trigger] position_of(input, p)
                == (l, k),
        lex_token(input, c0).0 matches Err(SpecLexerError::InvalidIntegerLiteral(digits, l, k))
            ==> exists|p: nat|
            c0.pos <= p && p + digits.len() <= input.len() && input.subrange(
                p as int,
                p + digits.len() as int,
            ) == digits && #[trigger] position_of(input, p) == (l, k),
{
    lemma_skip_trivia_placed(input, c0, false);
    lemma_skip_trivia(input, c0, false);
    let c = skip_trivia(input, c0, false);
    if c.pos < input.len() {
        lemma_step_placed(input, c);
        let c1 = step(input, c);
        if c1.pos < input.len() {
            lemma_step_placed(input, c1);
        }
        lemma_scan_ident_placed(input, c1);
        lemma_scan_digits_placed(input, c1);
        lemma_scan_digits(input, c1);
        assert(position_of(input, c.pos) == (c.line, c.column));
    }
}

/// Once the input is used up, reading a token answers `EOF` again and stays put.
pub proof fn lemma_eof_stable(input: Seq<char>, c: Cursor)
    requires
        lex_token(input, c).0 == Ok::<SpecToken, SpecLexerError>(SpecToken::EOF),
    ensures
        lex_token(input, lex_token(input, c).1) == lex_token(input, c),
{
}

proof fn lemma_scan_ident_chars(input: Seq<char>, c: Cursor)
    requires
        c.pos <= input.len(),
    ensures
        c.pos <= scan_ident(input, c).pos <= input.len(),
        forall|i: int|
            c.pos <= i < scan_ident(input, c).pos ==> ident_char(#[trigger] input[i]),
        scan_ident(input, c).pos < input.len() ==> !ident_char(
            input[scan_ident(input, c).pos as int],
        ),
    decreases input.len() - c.pos,
{
    if c.pos < input.len() && ident_char(input[c.pos as int]) {
        lemma_scan_ident_chars(input, step(input, c));
    }
}

/// An identifier is a letter or `_` followed by letters, digits and `_`, as
/// many as there are: the character after it cannot continue it. It spells no
/// keyword.
pub proof fn lemma_lex_identifier(input: Seq<char>, c0: Cursor)
    requires
        c0.pos <= input.len(),
    ensures
        lex_token(input, c0).0 matches Ok(SpecToken::Identifier(id)) ==> {
            &&& id.len() > 0
            &&& (char_alphabetic(id[0]) || id[0] == '_')
            &&& forall|i: int| 0 <= i < id.len() ==> ident_char(#[trigger] id[i])
            &&& lex_token(input, c0).1.pos < input.len() ==> !ident_char(
                input[lex_token(input, c0).1.pos as int],
            )
            &&& word_token(id) == SpecToken::Identifier(id)
        },
{
    lemma_skip_trivia(input, c0, false);
    let c = skip_trivia(input, c0, false);
    if c.pos < input.len() {
        let c1 = step(input, c);
        lemma_scan_ident_chars(input, c1);
        let e = scan_ident(input, c1);
        let id = input.subrange(c.pos as int, e.pos as int);
        let ch = input[c.pos as int];
        if char_alphabetic(ch) || ch == '_' {
            assert forall|i: int| 0 <= i < id.len() implies ident_char(#[trigger] id[i]) by {
                assert(id[i] == input[c.pos + i]);
            }
        }
    }
}

/// Whether `s` holds only whitespace and `//` comments.
pub open spec fn blank(s: Seq<char>) -> bool
    decreases s.len(), 1int,
{
    if s.len() == 0 {
        true
    } else if char_whitespace(s[0]) {
        blank(s.drop_first())
    } else if s.len() >= 2 && s[0] == '/' && s[1] == '/' {
        comment_then_blank(s.drop_first().drop_first())
    } else {
        false
    }
}

/// The rest of a comment, up to its newline, then blank text.
pub open spec fn comment_then_blank(s: Seq<char>) -> bool
    decreases s.len(), 2int,
{
    if s.len() == 0 {
        true
    } else if s[0] == '\n' {
        blank(s)
    } else {
        comment_then_blank(s.drop_first())
    }
}

proof fn lemma_blank_skips(input: Seq<char>, c: Cursor, in_comment: bool)
    requires
        c.pos <= input.len(),
        in_comment ==> comment_then_blank(input.subrange(c.pos as int, input.len() as int)),
        !in_comment ==> blank(input.subrange(c.pos as int, input.len() as int)),
    ensures
        skip_trivia(input, c, in_comment).pos >= input.len(),
    decreases input.len() - c.pos, if in_comment { 1int } else { 0int },
{
    if c.pos < input.len() {
        let rest = input.subrange(c.pos as int, input.len() as int);
        let ch = input[c.pos as int];
        assert(rest[0] == ch);
        let c1 = step(input, c);
        assert(rest.drop_first() =~= input.subrange(c1.pos as int, input.len() as int));
        if in_comment {
            if ch == '\n' {
                lemma_blank_skips(input, c, false);
            } else {
                lemma_blank_skips(input, c1, true);
            }
        } else if char_whitespace(ch) {
            lemma_blank_skips(input, c1, false);
        } else {
            assert(rest.len() >= 2 && rest[1] == input[c.pos + 1int]);
            let r1 = rest.drop_first();
            assert(r1[0] == '/');
            assert(r1.drop_first() =~= rest.drop_first().drop_first());
            lemma_blank_skips(input, c1, true);
        }
    }
}

/// Input that holds only whitespace and `//` comments reads as the end of
/// input, and keeps doing so.
pub proof fn lemma_blank_input_is_eof(input: Seq<char>, c: Cursor)
    requires
        c.pos <= input.len(),
        blank(input.subrange(c.pos as int, input.len() as int)),
    ensures
        lex_token(input, c).0 == Ok::<SpecToken, SpecLexerError>(SpecToken::EOF),
        lex_token(input, lex_token(input, c).1) == lex_token(input, c),
{
    lemma_blank_skips(input, c, false);
    lemma_eof_stable(input, c);
}

/// How each keyword, operator and delimiter is spelled.
pub open spec fn spelling(t: SpecToken) -> Option<Seq<char>> {
    match t {
        SpecToken::If => Some(seq!['i', 'f']),
        SpecToken::Else => Some(seq!['e', 'l', 's', 'e']),
        SpecToken::While => Some(seq!['w', 'h', 'i', 'l', 'e']),
        SpecToken::Int => Some(seq!['i', 'n', 't']),
        SpecToken::Bool => Some(seq!['b', 'o', 'o', 'l']),
        SpecToken::Return => Some(seq!['r', 'e', 't', 'u', 'r', 'n']),
        SpecToken::PrintInt => Some(seq!['p', 'r', 'i', 'n', 't', 'I', 'n', 't']),
        SpecToken::True => Some(seq!['t', 'r', 'u', 'e']),
        SpecToken::False => Some(seq!['f', 'a', 'l', 's', 'e']),
        SpecToken::Plus => Some(seq!['+']),
        SpecToken::Minus => Some(seq!['-']),
        SpecToken::Star => Some(seq!['*']),
        SpecToken::Slash => Some(seq!['/']),
        SpecToken::Assign => Some(seq!['=']),
        SpecToken::Eq => Some(seq!['=', '=']),
        SpecToken::Ne => Some(seq!['!', '=']),
        SpecToken::Lt => Some(seq!['<']),
        SpecToken::Le => Some(seq!['<', '=']),
        SpecToken::Gt => Some(seq!['>']),
        SpecToken::Ge => Some(seq!['>', '=']),
        SpecToken::LParen => Some(seq!['(']),
        SpecToken::RParen => Some(seq![')']),
        SpecToken::LBrace => Some(seq!['{']),
        SpecToken::RBrace => Some(seq!['}']),
        SpecToken::Semi => Some(seq![';']),
        SpecToken::Comma => Some(seq![',']),
        _ => None,
    }
}

/// Every keyword, operator and delimiter reads back as itself from its
/// spelling, which it takes whole.
pub proof fn lemma_spelling_reads_back(t: SpecToken)
    ensures
        spelling(t) matches Some(w) ==> lex_token(w, start_cursor()).0 == Ok::<
            SpecToken,
            SpecLexerError,
        >(t) && lex_token(w, start_cursor()).1.pos == w.len(),
{
    reveal_with_fuel(scan_ident, 9);
    if let Some(w) = spelling(t) {
        assert(skip_trivia(w, start_cursor(), false) == start_cursor());
        if w.len() > 1 && w[0] != '=' && w[0] != '!' && w[0] != '<' && w[0] != '>' {
            let c1 = step(w, start_cursor());
            let e = scan_ident(w, c1);
            assert(e.pos == w.len());
            assert(w.subrange(0, e.pos as int) =~= w);
        }
    }
}

} // verus!

//! Recursive-descent parser with precedence climbing, over the items that the lexer yields.
use vstd::prelude::*;
use crate::ast::{
    function_view, functions_view, params_view,
    exprs_view, lemma_exprs_view_push, lemma_stmts_view_push, stmts_view,
    BinaryOp, Expression, FunctionDecl, Program, SpecExpr, SpecFunction, SpecProgram, SpecStmt,
    Statement, Type,
};
use crate::lexer::{
    lexer_error_text, token_text,
    item_view, lemma_lex_items_no_eof, lemma_lex_token_progress, lex_items, same_kind, same_variant, variant_name,
    variant_name_of, Lexer, LexerError, SpecLexerError,
    SpecToken, Token,
};

verus! {

#[derive(Debug, PartialEq)]
pub enum ParserError {
    LexerError(LexerError),
    UnexpectedToken(Token, String),
    UnexpectedEOF,
}

impl From<LexerError> for ParserError {
    fn from(e: LexerError) -> (r: ParserError) {
        ParserError::LexerError(e)
    }
}

impl vstd::std_specs::convert::FromSpecImpl<LexerError> for ParserError {
    open spec fn obeys_from_spec() -> bool {
        true
    }

    open spec fn from_spec(e: LexerError) -> ParserError {
        ParserError::LexerError(e)
    }
}

/// Mathematical model of a parse error.
pub enum SpecParserError {
    LexerError(SpecLexerError),
    UnexpectedToken(SpecToken, Seq<char>),
    UnexpectedEOF,
}

impl View for ParserError {
    type V = SpecParserError;

    open spec fn view(&self) -> SpecParserError {
        match self {
            ParserError::LexerError(e) => SpecParserError::LexerError(e@),
            ParserError::UnexpectedToken(t, s) => SpecParserError::UnexpectedToken(t@, s@),
            ParserError::UnexpectedEOF => SpecParserError::UnexpectedEOF,
        }
    }
}

/// The message of a parse error.
pub open spec fn parser_error_text(e: SpecParserError) -> Seq<char> {
    match e {
        SpecParserError::LexerError(l) => "Lexer error: "@ + lexer_error_text(l),
        SpecParserError::UnexpectedToken(t, s) => "Unexpected token: "@ + token_text(t)
            + ", expected "@ + s,
        SpecParserError::UnexpectedEOF => "Unexpected end of input"@,
    }
}

impl ParserError {
    /// The message that reports this error.
    pub fn message(&self) -> (s: String)
        ensures
            s@ == parser_error_text(self@),
    {
        match self {
            ParserError::LexerError(e) => {
                let mut s = String::from_str("Lexer error: ");
                s.append(e.message().as_str());
                assert(s@ =~= parser_error_text(self@));
                s
            },
            ParserError::UnexpectedToken(t, expected) => {
                let mut s = String::from_str("Unexpected token: ");
                s.append(t.display_text().as_str());
                s.append(", expected ");
                s.append(expected.as_str());
                assert(s@ =~= parser_error_text(self@));
                s
            },
            ParserError::UnexpectedEOF => String::from_str("Unexpected end of input"),
        }
    }
}

/// The items the parser reads: tokens, or lexical errors where the lexer failed.
pub type Items = Seq<Result<SpecToken, SpecLexerError>>;

/// What a parsing step gives: its result, and how many items it read.
pub type Parsed<T> = (Result<T, SpecParserError>, nat);

/// Items in which the end of input appears only as the end of the sequence.
pub open spec fn no_eof_items(its: Items) -> bool {
    forall|i: int|
        0 <= i < its.len() ==> #[trigger] its[i] != Ok::<SpecToken, SpecLexerError>(SpecToken::EOF)
}

/// How many items remain from position `p`.
pub open spec fn remaining(its: Items, p: nat) -> nat {
    if p <= its.len() {
        (its.len() - p) as nat
    } else {
        0
    }
}

/// Reads one item; past the end there is nothing to read.
pub open spec fn adv(its: Items, p: nat) -> Parsed<SpecToken> {
    if p < its.len() {
        match its[p as int] {
            Ok(t) => (Ok(t), 1),
            Err(e) => (Err(SpecParserError::LexerError(e)), 1),
        }
    } else {
        (Err(SpecParserError::UnexpectedEOF), 0)
    }
}

/// Looks at the next item. A lexical error is read (and reported) rather than
/// left in place; past the end the parser sees `EOF`.
pub open spec fn peek_at(its: Items, p: nat) -> Parsed<SpecToken> {
    if p < its.len() {
        match its[p as int] {
            Ok(t) => (Ok(t), 0),
            Err(e) => (Err(SpecParserError::LexerError(e)), 1),
        }
    } else {
        (Ok(SpecToken::EOF), 0)
    }
}

/// Whether the next token is of `k`'s variant. It reads nothing: a lexical
/// error there answers no and stays in place, for the next read to report it.
pub open spec fn check_at(its: Items, p: nat, k: SpecToken) -> (bool, nat) {
    if p < its.len() {
        match its[p as int] {
            Ok(t) => (same_kind(t, k), 0),
            Err(_) => (false, 0),
        }
    } else {
        (same_kind(SpecToken::EOF, k), 0)
    }
}

/// Reads a token that must be of `k`'s variant.
pub open spec fn expect_at(its: Items, p: nat, k: SpecToken) -> Parsed<SpecToken> {
    let (a, n) = adv(its, p);
    match a {
        Ok(t) => if same_kind(t, k) {
            (Ok(t), n)
        } else {
            (Err(SpecParserError::UnexpectedToken(t, variant_name(k))), n)
        },
        Err(e) => (Err(e), n),
    }
}

pub open spec fn equality_op(t: SpecToken) -> Option<BinaryOp> {
    match t {
        SpecToken::Eq => Some(BinaryOp::Equal),
        SpecToken::Ne => Some(BinaryOp::NotEqual),
        _ => None,
    }
}

pub open spec fn comparison_op(t: SpecToken) -> Option<BinaryOp> {
    match t {
        SpecToken::Lt => Some(BinaryOp::Less),
        SpecToken::Le => Some(BinaryOp::LessEqual),
        SpecToken::Gt => Some(BinaryOp::Greater),
        SpecToken::Ge => Some(BinaryOp::GreaterEqual),
        _ => None,
    }
}

pub open spec fn term_op(t: SpecToken) -> Option<BinaryOp> {
    match t {
        SpecToken::Plus => Some(BinaryOp::Add),
        SpecToken::Minus => Some(BinaryOp::Sub),
        _ => None,
    }
}

pub open spec fn factor_op(t: SpecToken) -> Option<BinaryOp> {
    match t {
        SpecToken::Star => Some(BinaryOp::Mul),
        SpecToken::Slash => Some(BinaryOp::Div),
        _ => None,
    }
}

/// The operators of one precedence level, from the loosest (0) to the tightest (3).
pub open spec fn level_op(level: nat, t: SpecToken) -> Option<BinaryOp> {
    if level == 0 {
        equality_op(t)
    } else if level == 1 {
        comparison_op(t)
    } else if level == 2 {
        term_op(t)
    } else {
        factor_op(t)
    }
}

/// expression := equality
pub open spec fn sp_expression(its: Items, p: nat) -> Parsed<SpecExpr>
    decreases remaining(its, p), 10int,
{
    sp_level(its, p, 0)
}

/// One precedence level (0 equality, 1 comparison, 2 term, 3 factor): an operand
/// of the next level, then any number of left-associated operators of this level.
pub open spec fn sp_level(its: Items, p: nat, level: nat) -> Parsed<SpecExpr>
    decreases remaining(its, p), if level < 4 { 9 - 2 * level } else { 1int },
{
    if level >= 4 {
        sp_primary(its, p)
    } else {
        let (l, n) = sp_operand(its, p, level);
        match l {
            Ok(e) => {
                let (r, m) = sp_level_rest(its, p + n, level, e);
                (r, n + m)
            },
            Err(err) => (Err(err), n),
        }
    }
}

/// An operand of level `level`: an expression of the next tighter level.
pub open spec fn sp_operand(its: Items, p: nat, level: nat) -> Parsed<SpecExpr>
    decreases remaining(its, p), if level < 3 { 8 - 2 * level } else { 2int },
{
    if level >= 3 {
        sp_primary(its, p)
    } else {
        sp_level(its, p, level + 1)
    }
}

/// The operators of level `level` that follow the operand `left`.
pub open spec fn sp_level_rest(its: Items, p: nat, level: nat, left: SpecExpr) -> Parsed<SpecExpr>
    decreases remaining(its, p), if level < 4 { 8 - 2 * level } else { 0int },
{
    let (t, n) = peek_at(its, p);
    match t {
        Err(err) => (Err(err), n),
        Ok(tok) => match level_op(level, tok) {
            None => (Ok(left), n),
            Some(op) => {
                let (a, n1) = adv(its, p);
                match a {
                    Err(err) => (Err(err), n1),
                    Ok(_) => {
                        let (r, n2) = sp_operand(its, p + n1, level);
                        match r {
                            Err(err) => (Err(err), n1 + n2),
                            Ok(right) => {
                                let (res, n3) = sp_level_rest(
                                    its,
                                    p + n1 + n2,
                                    level,
                                    SpecExpr::Binary(op, Box::new(left), Box::new(right)),
                                );
                                (res, n1 + n2 + n3)
                            },
                        }
                    },
                }
            },
        },
    }
}

/// primary := literal | identifier | identifier '(' arguments ')' | '(' expression ')'
pub open spec fn sp_primary(its: Items, p: nat) -> Parsed<SpecExpr>
    decreases remaining(its, p), 0int,
{
    let (a, n) = adv(its, p);
    match a {
        Err(e) => (Err(e), n),
        Ok(SpecToken::IntLiteral(i)) => (Ok(SpecExpr::IntLiteral(i)), n),
        Ok(SpecToken::True) => (Ok(SpecExpr::BoolLiteral(true)), n),
        Ok(SpecToken::False) => (Ok(SpecExpr::BoolLiteral(false)), n),
        Ok(SpecToken::Identifier(name)) => {
            let (is_call, n1) = check_at(its, p + n, SpecToken::LParen);
            if is_call {
                let q = p + n + n1;
                let (a2, n2) = adv(its, q);
                match a2 {
                    Err(e) => (Err(e), n + n1 + n2),
                    Ok(_) => {
                        let (empty, n3) = check_at(its, q + n2, SpecToken::RParen);
                        let (args, n4) = if empty {
                            (Ok(Seq::<SpecExpr>::empty()), 0nat)
                        } else {
                            sp_arguments(its, q + n2 + n3, Seq::empty())
                        };
                        match args {
                            Err(e) => (Err(e), n + n1 + n2 + n3 + n4),
                            Ok(args) => {
                                let (c, n5) = expect_at(
                                    its,
                                    q + n2 + n3 + n4,
                                    SpecToken::RParen,
                                );
                                match c {
                                    Err(e) => (Err(e), n + n1 + n2 + n3 + n4 + n5),
                                    Ok(_) => (
                                        Ok(SpecExpr::Call(name, args)),
                                        n + n1 + n2 + n3 + n4 + n5,
                                    ),
                                }
                            },
                        }
                    },
                }
            } else {
                (Ok(SpecExpr::Variable(name)), n + n1)
            }
        },
        Ok(SpecToken::LParen) => {
            let (e, n1) = sp_expression(its, p + n);
            match e {
                Err(err) => (Err(err), n + n1),
                Ok(e) => {
                    let (c, n2) = expect_at(its, p + n + n1, SpecToken::RParen);
                    match c {
                        Err(err) => (Err(err), n + n1 + n2),
                        Ok(_) => (Ok(e), n + n1 + n2),
                    }
                },
            }
        },
        Ok(t) => (Err(SpecParserError::UnexpectedToken(t, "expression"@)), n),
    }
}

/// arguments := expression (',' expression)*, appended to `acc`.
pub open spec fn sp_arguments(its: Items, q: nat, acc: Seq<SpecExpr>) -> Parsed<Seq<SpecExpr>>
    decreases remaining(its, q), 11int,
{
    let (e, n1) = sp_expression(its, q);
    match e {
        Err(err) => (Err(err), n1),
        Ok(e) => {
            let acc2 = acc.push(e);
            let (more, n2) = check_at(its, q + n1, SpecToken::Comma);
            if more {
                let (a, n3) = adv(its, q + n1 + n2);
                match a {
                    Err(err) => (Err(err), n1 + n2 + n3),
                    Ok(_) => {
                        let (r, n4) = sp_arguments(its, q + n1 + n2 + n3, acc2);
                        (r, n1 + n2 + n3 + n4)
                    },
                }
            } else {
                (Ok(acc2), n1 + n2)
            }
        },
    }
}

/// type := 'int' | 'bool'
pub open spec fn sp_type(its: Items, p: nat) -> Parsed<Type> {
    let (a, n) = adv(its, p);
    match a {
        Ok(SpecToken::Int) => (Ok(Type::Int), n),
        Ok(SpecToken::Bool) => (Ok(Type::Bool), n),
        Ok(t) => (Err(SpecParserError::UnexpectedToken(t, "type (int, bool)"@)), n),
        Err(e) => (Err(e), n),
    }
}

/// Reads an identifier.
pub open spec fn sp_name(its: Items, p: nat) -> Parsed<Seq<char>> {
    let (a, n) = adv(its, p);
    match a {
        Ok(SpecToken::Identifier(s)) => (Ok(s), n),
        Ok(t) => (Err(SpecParserError::UnexpectedToken(t, "identifier"@)), n),
        Err(e) => (Err(e), n),
    }
}

/// statement := var_decl | if | while | return | print | block | expression_statement,
/// chosen by the next token.
pub open spec fn sp_statement(its: Items, p: nat) -> Parsed<SpecStmt>
    decreases remaining(its, p), 2int,
{
    let (t, n) = peek_at(its, p);
    match t {
        Err(e) => (Err(e), n),
        Ok(SpecToken::Int) => sp_var_decl(its, p),
        Ok(SpecToken::Bool) => sp_var_decl(its, p),
        Ok(SpecToken::If) => sp_if(its, p),
        Ok(SpecToken::While) => sp_while(its, p),
        Ok(SpecToken::Return) => sp_return(its, p),
        Ok(SpecToken::PrintInt) => sp_print(its, p),
        Ok(SpecToken::LBrace) => {
            let (b, m) = sp_block(its, p);
            match b {
                Ok(ss) => (Ok(SpecStmt::Block(ss)), m),
                Err(e) => (Err(e), m),
            }
        },
        Ok(_) => sp_expression_statement(its, p),
    }
}

/// block := '{' statement* '}'; the statements stop at '}' or at the end of input.
pub open spec fn sp_block(its: Items, p: nat) -> Parsed<Seq<SpecStmt>>
    decreases remaining(its, p), 1int,
{
    let (a, n1) = expect_at(its, p, SpecToken::LBrace);
    match a {
        Err(e) => (Err(e), n1),
        Ok(_) => {
            let (r, n2) = sp_block_rest(its, p + n1, Seq::empty());
            match r {
                Err(e) => (Err(e), n1 + n2),
                Ok(ss) => {
                    let (c, n3) = expect_at(its, p + n1 + n2, SpecToken::RBrace);
                    match c {
                        Err(e) => (Err(e), n1 + n2 + n3),
                        Ok(_) => (Ok(ss), n1 + n2 + n3),
                    }
                },
            }
        },
    }
}

/// The statements of a block after those in `acc`. A statement always reads at
/// least one item (`lemma_statement_reads`), so the branch for a statement that
/// read nothing never applies; it only makes the recursion visibly well founded.
pub open spec fn sp_block_rest(its: Items, q: nat, acc: Seq<SpecStmt>) -> Parsed<Seq<SpecStmt>>
    decreases remaining(its, q), 3int,
{
    let (closing, n1) = check_at(its, q, SpecToken::RBrace);
    if closing {
        (Ok(acc), n1)
    } else {
        let (at_end, n2) = check_at(its, q + n1, SpecToken::EOF);
        if at_end {
            (Ok(acc), n1 + n2)
        } else {
            let (s, n3) = sp_statement(its, q + n1 + n2);
            match s {
                Err(e) => (Err(e), n1 + n2 + n3),
                Ok(st) => if n3 == 0 {
                    (Ok(acc.push(st)), n1 + n2)
                } else {
                    let (r, n4) = sp_block_rest(its, q + n1 + n2 + n3, acc.push(st));
                    (r, n1 + n2 + n3 + n4)
                },
            }
        }
    }
}

/// if := 'if' '(' expression ')' statement ('else' statement)?
pub open spec fn sp_if(its: Items, p: nat) -> Parsed<SpecStmt>
    decreases remaining(its, p), 1int,
{
    let (a, n1) = adv(its, p);
    match a {
        Err(e) => (Err(e), n1),
        Ok(_) => {
            let (b, n2) = expect_at(its, p + n1, SpecToken::LParen);
            match b {
                Err(e) => (Err(e), n1 + n2),
                Ok(_) => {
                    let (c, n3) = sp_expression(its, p + n1 + n2);
                    match c {
                        Err(e) => (Err(e), n1 + n2 + n3),
                        Ok(cond) => {
                            let (d, n4) = expect_at(its, p + n1 + n2 + n3, SpecToken::RParen);
                            match d {
                                Err(e) => (Err(e), n1 + n2 + n3 + n4),
                                Ok(_) => {
                                    let q = p + n1 + n2 + n3 + n4;
                                    let (th, n5) = sp_statement(its, q);
                                    match th {
                                        Err(e) => (Err(e), n1 + n2 + n3 + n4 + n5),
                                        Ok(th) => {
                                            let (has_else, n6) = check_at(
                                                its,
                                                q + n5,
                                                SpecToken::Else,
                                            );
                                            if has_else {
                                                let (f, n7) = adv(its, q + n5 + n6);
                                                match f {
                                                    Err(e) => (
                                                        Err(e),
                                                        n1 + n2 + n3 + n4 + n5 + n6 + n7,
                                                    ),
                                                    Ok(_) => {
                                                        let (el, n8) = sp_statement(
                                                            its,
                                                            q + n5 + n6 + n7,
                                                        );
                                                        let total = n1 + n2 + n3 + n4 + n5 + n6
                                                            + n7 + n8;
                                                        match el {
                                                            Err(e) => (Err(e), total),
                                                            Ok(el) => (
                                                                Ok(
                                                                    SpecStmt::If(
                                                                        cond,
                                                                        Box::new(th),
                                                                        Some(Box::new(el)),
                                                                    ),
                                                                ),
                                                                total,
                                                            ),
                                                        }
                                                    },
                                                }
                                            } else {
                                                (
                                                    Ok(SpecStmt::If(cond, Box::new(th), None)),
                                                    n1 + n2 + n3 + n4 + n5 + n6,
                                                )
                                            }
                                        },
                                    }
                                },
                            }
                        },
                    }
                },
            }
        },
    }
}

/// while := 'while' '(' expression ')' statement
pub open spec fn sp_while(its: Items, p: nat) -> Parsed<SpecStmt>
    decreases remaining(its, p), 1int,
{
    let (a, n1) = adv(its, p);
    match a {
        Err(e) => (Err(e), n1),
        Ok(_) => {
            let (b, n2) = expect_at(its, p + n1, SpecToken::LParen);
            match b {
                Err(e) => (Err(e), n1 + n2),
                Ok(_) => {
                    let (c, n3) = sp_expression(its, p + n1 + n2);
                    match c {
                        Err(e) => (Err(e), n1 + n2 + n3),
                        Ok(cond) => {
                            let (d, n4) = expect_at(its, p + n1 + n2 + n3, SpecToken::RParen);
                            match d {
                                Err(e) => (Err(e), n1 + n2 + n3 + n4),
                                Ok(_) => {
                                    let (body, n5) = sp_statement(its, p + n1 + n2 + n3 + n4);
                                    let total = n1 + n2 + n3 + n4 + n5;
                                    match body {
                                        Err(e) => (Err(e), total),
                                        Ok(body) => (
                                            Ok(SpecStmt::While(cond, Box::new(body))),
                                            total,
                                        ),
                                    }
                                },
                            }
                        },
                    }
                },
            }
        },
    }
}

/// An expression followed by ';'.
pub open spec fn sp_expression_semi(its: Items, p: nat) -> Parsed<SpecExpr> {
    let (e, n1) = sp_expression(its, p);
    match e {
        Err(err) => (Err(err), n1),
        Ok(e) => {
            let (s, n2) = expect_at(its, p + n1, SpecToken::Semi);
            match s {
                Err(err) => (Err(err), n1 + n2),
                Ok(_) => (Ok(e), n1 + n2),
            }
        },
    }
}

/// var_decl := type identifier ('=' expression)? ';'
pub open spec fn sp_var_decl(its: Items, p: nat) -> Parsed<SpecStmt> {
    let (ty, n1) = sp_type(its, p);
    match ty {
        Err(e) => (Err(e), n1),
        Ok(ty) => {
            let (name, n2) = sp_name(its, p + n1);
            match name {
                Err(e) => (Err(e), n1 + n2),
                Ok(name) => {
                    let q = p + n1 + n2;
                    let (has_init, n3) = check_at(its, q, SpecToken::Assign);
                    if has_init {
                        let (a, n4) = adv(its, q + n3);
                        match a {
                            Err(e) => (Err(e), n1 + n2 + n3 + n4),
                            Ok(_) => {
                                let (init, n5) = sp_expression_semi(its, q + n3 + n4);
                                let total = n1 + n2 + n3 + n4 + n5;
                                match init {
                                    Err(e) => (Err(e), total),
                                    Ok(init) => (Ok(SpecStmt::VarDecl(ty, name, Some(init))), total),
                                }
                            },
                        }
                    } else {
                        let (s, n4) = expect_at(its, q + n3, SpecToken::Semi);
                        let total = n1 + n2 + n3 + n4;
                        match s {
                            Err(e) => (Err(e), total),
                            Ok(_) => (Ok(SpecStmt::VarDecl(ty, name, None)), total),
                        }
                    }
                },
            }
        },
    }
}

/// return := 'return' expression? ';'
pub open spec fn sp_return(its: Items, p: nat) -> Parsed<SpecStmt> {
    let (a, n1) = adv(its, p);
    match a {
        Err(e) => (Err(e), n1),
        Ok(_) => {
            let (bare, n2) = check_at(its, p + n1, SpecToken::Semi);
            if !bare {
                let (e, n3) = sp_expression_semi(its, p + n1 + n2);
                match e {
                    Err(err) => (Err(err), n1 + n2 + n3),
                    Ok(e) => (Ok(SpecStmt::Return(Some(e))), n1 + n2 + n3),
                }
            } else {
                let (s, n3) = expect_at(its, p + n1 + n2, SpecToken::Semi);
                match s {
                    Err(err) => (Err(err), n1 + n2 + n3),
                    Ok(_) => (Ok(SpecStmt::Return(None)), n1 + n2 + n3),
                }
            }
        },
    }
}

/// print := 'printInt' '(' expression ')' ';'
pub open spec fn sp_print(its: Items, p: nat) -> Parsed<SpecStmt> {
    let (a, n1) = adv(its, p);
    match a {
        Err(e) => (Err(e), n1),
        Ok(_) => {
            let (b, n2) = expect_at(its, p + n1, SpecToken::LParen);
            match b {
                Err(e) => (Err(e), n1 + n2),
                Ok(_) => {
                    let (c, n3) = sp_expression(its, p + n1 + n2);
                    match c {
                        Err(e) => (Err(e), n1 + n2 + n3),
                        Ok(e) => {
                            let (d, n4) = expect_at(its, p + n1 + n2 + n3, SpecToken::RParen);
                            match d {
                                Err(err) => (Err(err), n1 + n2 + n3 + n4),
                                Ok(_) => {
                                    let (s, n5) = expect_at(
                                        its,
                                        p + n1 + n2 + n3 + n4,
                                        SpecToken::Semi,
                                    );
                                    let total = n1 + n2 + n3 + n4 + n5;
                                    match s {
                                        Err(err) => (Err(err), total),
                                        Ok(_) => (Ok(SpecStmt::PrintInt(e)), total),
                                    }
                                },
                            }
                        },
                    }
                },
            }
        },
    }
}

/// Whether the items at `p` are an identifier followed by '='.
pub open spec fn starts_assignment(its: Items, p: nat) -> bool {
    &&& p + 1 < its.len()
    &&& its[p as int] matches Ok(SpecToken::Identifier(_))
    &&& its[p + 1int] == Ok::<SpecToken, SpecLexerError>(SpecToken::Assign)
}

/// expression_statement := identifier '=' expression ';' | expression ';'
pub open spec fn sp_expression_statement(its: Items, p: nat) -> Parsed<SpecStmt> {
    let (t, n) = peek_at(its, p);
    match t {
        Err(e) => (Err(e), n),
        Ok(tok) => if starts_assignment(its, p) {
            let (e, n1) = sp_expression_semi(its, p + 2);
            match e {
                Err(err) => (Err(err), 2 + n1),
                Ok(e) => (Ok(SpecStmt::Assign(tok->Identifier_0, e)), 2 + n1),
            }
        } else {
            let (e, n1) = sp_expression_semi(its, p);
            match e {
                Err(err) => (Err(err), n1),
                Ok(e) => (Ok(SpecStmt::Expression(e)), n1),
            }
        },
    }
}

/// params := type identifier (',' type identifier)*, appended to `acc`.
pub open spec fn sp_params(its: Items, q: nat, acc: Seq<(Type, Seq<char>)>) -> Parsed<
    Seq<(Type, Seq<char>)>,
>
    decreases remaining(its, q),
{
    let (ty, n1) = sp_type(its, q);
    match ty {
        Err(e) => (Err(e), n1),
        Ok(ty) => {
            let (name, n2) = sp_name(its, q + n1);
            match name {
                Err(e) => (Err(e), n1 + n2),
                Ok(name) => {
                    let acc2 = acc.push((ty, name));
                    let (more, n3) = check_at(its, q + n1 + n2, SpecToken::Comma);
                    if more {
                        let (a, n4) = adv(its, q + n1 + n2 + n3);
                        match a {
                            Err(e) => (Err(e), n1 + n2 + n3 + n4),
                            Ok(_) => {
                                let (r, n5) = sp_params(its, q + n1 + n2 + n3 + n4, acc2);
                                (r, n1 + n2 + n3 + n4 + n5)
                            },
                        }
                    } else {
                        (Ok(acc2), n1 + n2 + n3)
                    }
                },
            }
        },
    }
}

/// function := type identifier '(' params? ')' block
#[verifier::opaque]
pub open spec fn sp_function(its: Items, p: nat) -> Parsed<SpecFunction> {
    let (ty, n1) = sp_type(its, p);
    match ty {
        Err(e) => (Err(e), n1),
        Ok(ty) => {
            let (name, n2) = sp_name(its, p + n1);
            match name {
                Err(e) => (Err(e), n1 + n2),
                Ok(name) => {
                    let (lp, n3) = expect_at(its, p + n1 + n2, SpecToken::LParen);
                    match lp {
                        Err(e) => (Err(e), n1 + n2 + n3),
                        Ok(_) => {
                            let q = p + n1 + n2 + n3;
                            let (none, n4) = check_at(its, q, SpecToken::RParen);
                            let (params, n5) = if none {
                                (Ok(Seq::<(Type, Seq<char>)>::empty()), 0nat)
                            } else {
                                sp_params(its, q + n4, Seq::empty())
                            };
                            match params {
                                Err(e) => (Err(e), n1 + n2 + n3 + n4 + n5),
                                Ok(params) => {
                                    let (rp, n6) = expect_at(
                                        its,
                                        q + n4 + n5,
                                        SpecToken::RParen,
                                    );
                                    match rp {
                                        Err(e) => (Err(e), n1 + n2 + n3 + n4 + n5 + n6),
                                        Ok(_) => {
                                            let (body, n7) = sp_block(its, q + n4 + n5 + n6);
                                            let total = n1 + n2 + n3 + n4 + n5 + n6 + n7;
                                            match body {
                                                Err(e) => (Err(e), total),
                                                Ok(body) => (
                                                    Ok(
                                                        SpecFunction {
                                                            name,
                                                            return_type: ty,
                                                            params,
                                                            body: SpecStmt::Block(body),
                                                        },
                                                    ),
                                                    total,
                                                ),
                                            }
                                        },
                                    }
                                },
                            }
                        },
                    }
                },
            }
        },
    }
}

/// The functions up to the end of input, appended to `acc`.
pub open spec fn sp_functions(its: Items, p: nat, acc: Seq<SpecFunction>) -> Parsed<
    Seq<SpecFunction>,
>
    decreases remaining(its, p),
{
    let (at_end, n1) = check_at(its, p, SpecToken::EOF);
    if at_end {
        (Ok(acc), n1)
    } else {
        let (f, n2) = sp_function(its, p + n1);
        match f {
            Err(e) => (Err(e), n1 + n2),
            Ok(f) => {
                proof {
                    lemma_function_reads(its, p + n1);
                }
                let (r, n3) = sp_functions(its, p + n1 + n2, acc.push(f));
                (r, n1 + n2 + n3)
            },
        }
    }
}

/// program := function*
pub open spec fn sp_program(its: Items, p: nat) -> Parsed<SpecProgram> {
    let (fs, n) = sp_functions(its, p, Seq::empty());
    match fs {
        Err(e) => (Err(e), n),
        Ok(fs) => (Ok(SpecProgram { functions: fs }), n),
    }
}

/// The model of a parse result.
pub open spec fn result_view<T: View>(r: Result<T, ParserError>) -> Result<T::V, SpecParserError> {
    match r {
        Ok(v) => Ok(v@),
        Err(e) => Err(e@),
    }
}

/// The model of a parse result that is a list of expressions.
pub open spec fn exprs_result_view(r: Result<Vec<Expression>, ParserError>) -> Result<
    Seq<SpecExpr>,
    SpecParserError,
> {
    match r {
        Ok(v) => Ok(exprs_view(v@)),
        Err(e) => Err(e@),
    }
}

/// The model of a parse result that is a list of statements.
pub open spec fn stmts_result_view(r: Result<Vec<Statement>, ParserError>) -> Result<
    Seq<SpecStmt>,
    SpecParserError,
> {
    match r {
        Ok(v) => Ok(stmts_view(v@)),
        Err(e) => Err(e@),
    }
}

/// The model of a parse result that is a type or a name.
pub open spec fn plain_result_view<T>(r: Result<T, ParserError>) -> Result<T, SpecParserError> {
    match r {
        Ok(v) => Ok(v),
        Err(e) => Err(e@),
    }
}

pub struct Parser {
    items: Vec<Result<Token, LexerError>>,
    pos: usize,
}

impl Parser {
    /// The items the parser reads, in order.
    pub closed spec fn items(&self) -> Items {
        self.items@.map_values(|r: Result<Token, LexerError>| item_view(r))
    }

    /// How many items the parser has read.
    pub closed spec fn position(&self) -> nat {
        self.pos as nat
    }

    pub open spec fn wf(&self) -> bool {
        &&& self.position() <= self.items().len()
        &&& no_eof_items(self.items())
    }

    /// A parser over all the items that `lexer` yields from where it stands.
    pub fn new(lexer: Lexer) -> (parser: Parser)
        requires
            lexer.wf(),
        ensures
            parser.wf(),
            parser.items() == lex_items(lexer.chars(), lexer.cursor()),
            parser.position() == 0,
    {
        let ghost input = lexer.chars();
        let ghost target = lex_items(input, lexer.cursor());
        let ghost lexer_start = lexer.cursor();
        let mut lexer = lexer;
        let mut items: Vec<Result<Token, LexerError>> = Vec::new();
        loop
            invariant
                lexer.wf(),
                lexer.chars() == input,
                items@.map_values(|r: Result<Token, LexerError>| item_view(r)) + lex_items(
                    input,
                    lexer.cursor(),
                ) == target,
            ensures
                items@.map_values(|r: Result<Token, LexerError>| item_view(r)) == target,
            decreases input.len() - lexer.cursor().pos,
        {
            let ghost c = lexer.cursor();
            let ghost before = items@.map_values(|r: Result<Token, LexerError>| item_view(r));
            proof {
                lemma_lex_token_progress(input, c);
            }
            match lexer.next_item() {
                None => {
                    assert(lex_items(input, c) =~= Seq::empty());
                    assert(before + lex_items(input, c) =~= before);
                    break;
                },
                Some(item) => {
                    items.push(item);
                    assert(items@.map_values(|r: Result<Token, LexerError>| item_view(r))
                        =~= before.push(item_view(item)));
                    assert(before + lex_items(input, c) =~= before.push(item_view(item))
                        + lex_items(input, lexer.cursor()));
                },
            }
        }
        proof {
            lemma_lex_items_no_eof(input, lexer_start);
        }
        Parser { items, pos: 0 }
    }

    fn advance(&mut self) -> (res: Result<Token, ParserError>)
        requires
            old(self).wf(),
        ensures
            final(self).wf(),
            final(self).items() == old(self).items(),
            final(self).position() == old(self).position() + adv(
                old(self).items(),
                old(self).position(),
            ).1,
            adv(old(self).items(), old(self).position()).0 == result_view(res),
    {
        if self.pos < self.items.len() {
            let res = match &self.items[self.pos] {
                Ok(t) => Ok(t.clone()),
                Err(e) => Err(ParserError::LexerError(e.clone())),
            };
            self.pos = self.pos + 1;
            res
        } else {
            Err(ParserError::UnexpectedEOF)
        }
    }

    fn peek(&mut self) -> (res: Result<Token, ParserError>)
        requires
            old(self).wf(),
        ensures
            final(self).wf(),
            final(self).items() == old(self).items(),
            final(self).position() == old(self).position() + peek_at(
                old(self).items(),
                old(self).position(),
            ).1,
            peek_at(old(self).items(), old(self).position()).0 == result_view(res),
    {
        if self.pos < self.items.len() {
            match &self.items[self.pos] {
                Ok(t) => Ok(t.clone()),
                Err(e) => {
                    let err = ParserError::LexerError(e.clone());
                    self.pos = self.pos + 1;
                    Err(err)
                },
            }
        } else {
            Ok(Token::EOF)
        }
    }

    fn expect(&mut self, expected: Token) -> (res: Result<Token, ParserError>)
        requires
            old(self).wf(),
        ensures
            final(self).wf(),
            final(self).items() == old(self).items(),
            final(self).position() == old(self).position() + expect_at(
                old(self).items(),
                old(self).position(),
                expected@,
            ).1,
            expect_at(old(self).items(), old(self).position(), expected@).0 == result_view(res),
    {
        let token = self.advance()?;
        if same_variant(&token, &expected) {
            Ok(token)
        } else {
            Err(ParserError::UnexpectedToken(token, variant_name_of(&expected)))
        }
    }

    fn check(&mut self, expected: &Token) -> (b: bool)
        requires
            old(self).wf(),
        ensures
            final(self).wf(),
            final(self).items() == old(self).items(),
            final(self).position() == old(self).position() + check_at(
                old(self).items(),
                old(self).position(),
                expected@,
            ).1,
            b == check_at(old(self).items(), old(self).position(), expected@).0,
    {
        if self.pos < self.items.len() {
            match &self.items[self.pos] {
                Ok(token) => same_variant(token, expected),
                Err(_) => false,
            }
        } else {
            same_variant(&Token::EOF, expected)
        }
    }

    fn parse_expression(&mut self) -> (res: Result<Expression, ParserError>)
        requires
            old(self).wf(),
        ensures
            final(self).wf(),
            final(self).items() == old(self).items(),
            final(self).position() == old(self).position() + sp_expression(
                old(self).items(),
                old(self).position(),
            ).1,
            sp_expression(old(self).items(), old(self).position()).0 == result_view(res),
        decreases remaining(old(self).items(), old(self).position()), 10int,
    {
        self.parse_equality()
    }

    fn parse_equality(&mut self) -> (res: Result<Expression, ParserError>)
        requires
            old(self).wf(),
        ensures
            final(self).wf(),
            final(self).items() == old(self).items(),
            final(self).position() == old(self).position() + sp_level(
                old(self).items(),
                old(self).position(),
                0,
            ).1,
            sp_level(old(self).items(), old(self).position(), 0).0 == result_view(res),
        decreases remaining(old(self).items(), old(self).position()), 9int,
    {
        let ghost its = self.items();
        let ghost p0 = self.position();
        let ghost target = sp_level(its, p0, 0);
        let mut expr = self.parse_comparison()?;
        loop
            invariant
                self.wf(),
                self.items() == its,
                its == old(self).items(),
                p0 == old(self).position(),
                p0 <= self.position(),
                target == sp_level(its, p0, 0),
                sp_level_rest(its, self.position(), 0, expr@).0 == target.0,
                self.position() + sp_level_rest(its, self.position(), 0, expr@).1 == p0
                    + target.1,
            ensures
                self.wf(),
                self.items() == its,
                target.0 == Ok::<SpecExpr, SpecParserError>(expr@),
                self.position() == p0 + target.1,
            decreases remaining(its, self.position()),
        {
            let ghost q = self.position();
            let token = self.peek()?;
            let op = match token {
                Token::Eq => BinaryOp::Equal,
                Token::Ne => BinaryOp::NotEqual,
                _ => break,
            };
            self.advance()?;
            let ghost lvl: nat = 0;
            assert(sp_operand(its, q + 1, lvl) == sp_level(its, q + 1, lvl + 1));
            let right = self.parse_comparison()?;
            expr = Expression::Binary(op, Box::new(expr), Box::new(right));
        }
        Ok(expr)
    }

    fn parse_comparison(&mut self) -> (res: Result<Expression, ParserError>)
        requires
            old(self).wf(),
        ensures
            final(self).wf(),
            final(self).items() == old(self).items(),
            final(self).position() == old(self).position() + sp_level(
                old(self).items(),
                old(self).position(),
                1,
            ).1,
            sp_level(old(self).items(), old(self).position(), 1).0 == result_view(res),
        decreases remaining(old(self).items(), old(self).position()), 7int,
    {
        let ghost its = self.items();
        let ghost p0 = self.position();
        let ghost target = sp_level(its, p0, 1);
        let mut expr = self.parse_term()?;
        loop
            invariant
                self.wf(),
                self.items() == its,
                its == old(self).items(),
                p0 == old(self).position(),
                p0 <= self.position(),
                target == sp_level(its, p0, 1),
                sp_level_rest(its, self.position(), 1, expr@).0 == target.0,
                self.position() + sp_level_rest(its, self.position(), 1, expr@).1 == p0
                    + target.1,
            ensures
                self.wf(),
                self.items() == its,
                target.0 == Ok::<SpecExpr, SpecParserError>(expr@),
                self.position() == p0 + target.1,
            decreases remaining(its, self.position()),
        {
            let ghost q = self.position();
            let token = self.peek()?;
            let op = match token {
                Token::Lt => BinaryOp::Less,
                Token::Le => BinaryOp::LessEqual,
                Token::Gt => BinaryOp::Greater,
                Token::Ge => BinaryOp::GreaterEqual,
                _ => break,
            };
            self.advance()?;
            let ghost lvl: nat = 1;
            assert(sp_operand(its, q + 1, lvl) == sp_level(its, q + 1, lvl + 1));
            let right = self.parse_term()?;
            expr = Expression::Binary(op, Box::new(expr), Box::new(right));
        }
        Ok(expr)
    }

    fn parse_term(&mut self) -> (res: Result<Expression, ParserError>)
        requires
            old(self).wf(),
        ensures
            final(self).wf(),
            final(self).items() == old(self).items(),
            final(self).position() == old(self).position() + sp_level(
                old(self).items(),
                old(self).position(),
                2,
            ).1,
            sp_level(old(self).items(), old(self).position(), 2).0 == result_view(res),
        decreases remaining(old(self).items(), old(self).position()), 5int,
    {
        let ghost its = self.items();
        let ghost p0 = self.position();
        let ghost target = sp_level(its, p0, 2);
        let mut expr = self.parse_factor()?;
        loop
            invariant
                self.wf(),
                self.items() == its,
                its == old(self).items(),
                p0 == old(self).position(),
                p0 <= self.position(),
                target == sp_level(its, p0, 2),
                sp_level_rest(its, self.position(), 2, expr@).0 == target.0,
                self.position() + sp_level_rest(its, self.position(), 2, expr@).1 == p0
                    + target.1,
            ensures
                self.wf(),
                self.items() == its,
                target.0 == Ok::<SpecExpr, SpecParserError>(expr@),
                self.position() == p0 + target.1,
            decreases remaining(its, self.position()),
        {
            let ghost q = self.position();
            let token = self.peek()?;
            let op = match token {
                Token::Plus => BinaryOp::Add,
                Token::Minus => BinaryOp::Sub,
                _ => break,
            };
            self.advance()?;
            let ghost lvl: nat = 2;
            assert(sp_operand(its, q + 1, lvl) == sp_level(its, q + 1, lvl + 1));
            let right = self.parse_factor()?;
            expr = Expression::Binary(op, Box::new(expr), Box::new(right));
        }
        Ok(expr)
    }

    fn parse_factor(&mut self) -> (res: Result<Expression, ParserError>)
        requires
            old(self).wf(),
        ensures
            final(self).wf(),
            final(self).items() == old(self).items(),
            final(self).position() == old(self).position() + sp_level(
                old(self).items(),
                old(self).position(),
                3,
            ).1,
            sp_level(old(self).items(), old(self).position(), 3).0 == result_view(res),
        decreases remaining(old(self).items(), old(self).position()), 3int,
    {
        let ghost its = self.items();
        let ghost p0 = self.position();
        let ghost target = sp_level(its, p0, 3);
        let mut expr = self.parse_primary()?;
        loop
            invariant
                self.wf(),
                self.items() == its,
                its == old(self).items(),
                p0 == old(self).position(),
                p0 <= self.position(),
                target == sp_level(its, p0, 3),
                sp_level_rest(its, self.position(), 3, expr@).0 == target.0,
                self.position() + sp_level_rest(its, self.position(), 3, expr@).1 == p0
                    + target.1,
            ensures
                self.wf(),
                self.items() == its,
                target.0 == Ok::<SpecExpr, SpecParserError>(expr@),
                self.position() == p0 + target.1,
            decreases remaining(its, self.position()),
        {
            let ghost q = self.position();
            let token = self.peek()?;
            let op = match token {
                Token::Star => BinaryOp::Mul,
                Token::Slash => BinaryOp::Div,
                _ => break,
            };
            self.advance()?;
            let ghost lvl: nat = 3;
            assert(sp_operand(its, q + 1, lvl) == sp_primary(its, q + 1));
            let right = self.parse_primary()?;
            expr = Expression::Binary(op, Box::new(expr), Box::new(right));
        }
        Ok(expr)
    }


    fn parse_primary(&mut self) -> (res: Result<Expression, ParserError>)
        requires
            old(self).wf(),
        ensures
            final(self).wf(),
            final(self).items() == old(self).items(),
            final(self).position() == old(self).position() + sp_primary(
                old(self).items(),
                old(self).position(),
            ).1,
            sp_primary(old(self).items(), old(self).position()).0 == result_view(res),
        decreases remaining(old(self).items(), old(self).position()), 0int,
    {
        let ghost its = self.items();
        let ghost p0 = self.position();
        let token = self.advance()?;
        match token {
            Token::IntLiteral(i) => Ok(Expression::IntLiteral(i)),
            Token::True => Ok(Expression::BoolLiteral(true)),
            Token::False => Ok(Expression::BoolLiteral(false)),
            Token::Identifier(name) => {
                if self.check(&Token::LParen) {
                    self.advance()?;
                    let args = if !self.check(&Token::RParen) {
                        self.parse_arguments()?
                    } else {
                        let none: Vec<Expression> = Vec::new();
                        assert(exprs_view(none@) =~= Seq::<SpecExpr>::empty());
                        none
                    };
                    self.expect(Token::RParen)?;
                    Ok(Expression::Call(name, args))
                } else {
                    Ok(Expression::Variable(name))
                }
            },
            Token::LParen => {
                let expr = self.parse_expression()?;
                self.expect(Token::RParen)?;
                Ok(expr)
            },
            t => Err(ParserError::UnexpectedToken(t, String::from_str("expression"))),
        }
    }

    /// arguments := expression (',' expression)*
    fn parse_arguments(&mut self) -> (res: Result<Vec<Expression>, ParserError>)
        requires
            old(self).wf(),
        ensures
            final(self).wf(),
            final(self).items() == old(self).items(),
            final(self).position() == old(self).position() + sp_arguments(
                old(self).items(),
                old(self).position(),
                Seq::empty(),
            ).1,
            sp_arguments(old(self).items(), old(self).position(), Seq::empty()).0
                == exprs_result_view(res),
        decreases remaining(old(self).items(), old(self).position()), 11int,
    {
        let ghost its = self.items();
        let ghost q0 = self.position();
        let ghost target = sp_arguments(its, q0, Seq::empty());
        let mut args: Vec<Expression> = Vec::new();
        assert(exprs_view(args@) =~= Seq::<SpecExpr>::empty());
        loop
            invariant_except_break
                sp_arguments(its, self.position(), exprs_view(args@)).0 == target.0,
                self.position() + sp_arguments(its, self.position(), exprs_view(args@)).1 == q0
                    + target.1,
            invariant
                self.wf(),
                self.items() == its,
                its == old(self).items(),
                q0 == old(self).position(),
                q0 <= self.position(),
                target == sp_arguments(its, q0, Seq::empty()),
            ensures
                self.wf(),
                self.items() == its,
                target.0 == Ok::<Seq<SpecExpr>, SpecParserError>(exprs_view(args@)),
                self.position() == q0 + target.1,
            decreases remaining(its, self.position()),
        {
            let arg = self.parse_expression()?;
            proof {
                lemma_exprs_view_push(args@, arg);
            }
            args.push(arg);
            if self.check(&Token::Comma) {
                self.advance()?;
            } else {
                break;
            }
        }
        Ok(args)
    }

    /// type := 'int' | 'bool'
    fn parse_type(&mut self) -> (res: Result<Type, ParserError>)
        requires
            old(self).wf(),
        ensures
            final(self).wf(),
            final(self).items() == old(self).items(),
            final(self).position() == old(self).position() + sp_type(
                old(self).items(),
                old(self).position(),
            ).1,
            sp_type(old(self).items(), old(self).position()).0 == plain_result_view(res),
    {
        let token = self.advance()?;
        match token {
            Token::Int => Ok(Type::Int),
            Token::Bool => Ok(Type::Bool),
            t => Err(ParserError::UnexpectedToken(t, String::from_str("type (int, bool)"))),
        }
    }

    /// Reads an identifier.
    fn parse_identifier(&mut self) -> (res: Result<String, ParserError>)
        requires
            old(self).wf(),
        ensures
            final(self).wf(),
            final(self).items() == old(self).items(),
            final(self).position() == old(self).position() + sp_name(
                old(self).items(),
                old(self).position(),
            ).1,
            sp_name(old(self).items(), old(self).position()).0 == match res {
                Ok(s) => Ok::<Seq<char>, SpecParserError>(s@),
                Err(e) => Err(e@),
            },
    {
        match self.advance()? {
            Token::Identifier(s) => Ok(s),
            t => Err(ParserError::UnexpectedToken(t, String::from_str("identifier"))),
        }
    }

    #[verifier::rlimit(50)]
    fn parse_statement(&mut self) -> (res: Result<Statement, ParserError>)
        requires
            old(self).wf(),
        ensures
            final(self).wf(),
            final(self).items() == old(self).items(),
            final(self).position() == old(self).position() + sp_statement(
                old(self).items(),
                old(self).position(),
            ).1,
            sp_statement(old(self).items(), old(self).position()).0 == result_view(res),
        decreases remaining(old(self).items(), old(self).position()), 2int,
    {
        match self.peek()? {
            Token::Int | Token::Bool => self.parse_var_decl(),
            Token::If => self.parse_if(),
            Token::While => self.parse_while(),
            Token::Return => self.parse_return(),
            Token::PrintInt => self.parse_print_int(),
            Token::LBrace => Ok(Statement::Block(self.parse_block()?)),
            _ => self.parse_expression_statement(),
        }
    }

    /// block := '{' statement* '}'
    fn parse_block(&mut self) -> (res: Result<Vec<Statement>, ParserError>)
        requires
            old(self).wf(),
        ensures
            final(self).wf(),
            final(self).items() == old(self).items(),
            final(self).position() == old(self).position() + sp_block(
                old(self).items(),
                old(self).position(),
            ).1,
            sp_block(old(self).items(), old(self).position()).0 == stmts_result_view(res),
        decreases remaining(old(self).items(), old(self).position()), 1int,
    {
        self.expect(Token::LBrace)?;
        let statements = self.parse_block_statements()?;
        self.expect(Token::RBrace)?;
        Ok(statements)
    }

    /// The statements of a block, up to '}' or the end of input.
    fn parse_block_statements(&mut self) -> (res: Result<Vec<Statement>, ParserError>)
        requires
            old(self).wf(),
        ensures
            final(self).wf(),
            final(self).items() == old(self).items(),
            final(self).position() == old(self).position() + sp_block_rest(
                old(self).items(),
                old(self).position(),
                Seq::empty(),
            ).1,
            sp_block_rest(old(self).items(), old(self).position(), Seq::empty()).0
                == stmts_result_view(res),
        decreases remaining(old(self).items(), old(self).position()), 3int,
    {
        let ghost its = self.items();
        let ghost q0 = self.position();
        let ghost target = sp_block_rest(its, q0, Seq::empty());
        let mut statements: Vec<Statement> = Vec::new();
        assert(stmts_view(statements@) =~= Seq::<SpecStmt>::empty());
        loop
            invariant_except_break
                sp_block_rest(its, self.position(), stmts_view(statements@)).0 == target.0,
                self.position() + sp_block_rest(its, self.position(), stmts_view(statements@)).1
                    == q0 + target.1,
            invariant
                self.wf(),
                self.items() == its,
                its == old(self).items(),
                q0 == old(self).position(),
                q0 <= self.position(),
                target == sp_block_rest(its, q0, Seq::empty()),
            ensures
                self.wf(),
                self.items() == its,
                target.0 == Ok::<Seq<SpecStmt>, SpecParserError>(stmts_view(statements@)),
                self.position() == q0 + target.1,
            decreases remaining(its, self.position()),
        {
            if self.check(&Token::RBrace) {
                break;
            }
            if self.check(&Token::EOF) {
                break;
            }
            let ghost before = self.position();
            proof {
                lemma_statement_reads(its, before);
            }
            let stmt = self.parse_statement()?;
            proof {
                lemma_stmts_view_push(statements@, stmt);
            }
            statements.push(stmt);
        }
        Ok(statements)
    }

    fn parse_var_decl(&mut self) -> (res: Result<Statement, ParserError>)
        requires
            old(self).wf(),
        ensures
            final(self).wf(),
            final(self).items() == old(self).items(),
            final(self).position() == old(self).position() + sp_var_decl(
                old(self).items(),
                old(self).position(),
            ).1,
            sp_var_decl(old(self).items(), old(self).position()).0 == result_view(res),
    {
        let ty = self.parse_type()?;
        let name = self.parse_identifier()?;
        let init = if self.check(&Token::Assign) {
            self.advance()?;
            let e = self.parse_expression()?;
            Some(e)
        } else {
            None
        };
        self.expect(Token::Semi)?;
        Ok(Statement::VarDecl(ty, name, init))
    }

    fn parse_if(&mut self) -> (res: Result<Statement, ParserError>)
        requires
            old(self).wf(),
        ensures
            final(self).wf(),
            final(self).items() == old(self).items(),
            final(self).position() == old(self).position() + sp_if(
                old(self).items(),
                old(self).position(),
            ).1,
            sp_if(old(self).items(), old(self).position()).0 == result_view(res),
        decreases remaining(old(self).items(), old(self).position()), 1int,
    {
        self.advance()?;  // 'if'
        self.expect(Token::LParen)?;
        let cond = self.parse_expression()?;
        self.expect(Token::RParen)?;
        let then_branch = Box::new(self.parse_statement()?);
        let else_branch = if self.check(&Token::Else) {
            self.advance()?;
            Some(Box::new(self.parse_statement()?))
        } else {
            None
        };
        Ok(Statement::If(cond, then_branch, else_branch))
    }

    fn parse_while(&mut self) -> (res: Result<Statement, ParserError>)
        requires
            old(self).wf(),
        ensures
            final(self).wf(),
            final(self).items() == old(self).items(),
            final(self).position() == old(self).position() + sp_while(
                old(self).items(),
                old(self).position(),
            ).1,
            sp_while(old(self).items(), old(self).position()).0 == result_view(res),
        decreases remaining(old(self).items(), old(self).position()), 1int,
    {
        self.advance()?;  // 'while'
        self.expect(Token::LParen)?;
        let cond = self.parse_expression()?;
        self.expect(Token::RParen)?;
        let body = Box::new(self.parse_statement()?);
        Ok(Statement::While(cond, body))
    }

    fn parse_return(&mut self) -> (res: Result<Statement, ParserError>)
        requires
            old(self).wf(),
        ensures
            final(self).wf(),
            final(self).items() == old(self).items(),
            final(self).position() == old(self).position() + sp_return(
                old(self).items(),
                old(self).position(),
            ).1,
            sp_return(old(self).items(), old(self).position()).0 == result_view(res),
    {
        self.advance()?;  // 'return'
        let expr = if !self.check(&Token::Semi) {
            Some(self.parse_expression()?)
        } else {
            None
        };
        self.expect(Token::Semi)?;
        Ok(Statement::Return(expr))
    }

    fn parse_print_int(&mut self) -> (res: Result<Statement, ParserError>)
        requires
            old(self).wf(),
        ensures
            final(self).wf(),
            final(self).items() == old(self).items(),
            final(self).position() == old(self).position() + sp_print(
                old(self).items(),
                old(self).position(),
            ).1,
            sp_print(old(self).items(), old(self).position()).0 == result_view(res),
    {
        self.advance()?;  // 'printInt'
        self.expect(Token::LParen)?;
        let expr = self.parse_expression()?;
        self.expect(Token::RParen)?;
        self.expect(Token::Semi)?;
        Ok(Statement::PrintInt(expr))
    }

    fn parse_expression_statement(&mut self) -> (res: Result<Statement, ParserError>)
        requires
            old(self).wf(),
        ensures
            final(self).wf(),
            final(self).items() == old(self).items(),
            final(self).position() == old(self).position() + sp_expression_statement(
                old(self).items(),
                old(self).position(),
            ).1,
            sp_expression_statement(old(self).items(), old(self).position()).0 == result_view(res),
    {
        let token = self.peek()?;
        match token {
            Token::Identifier(name) => {
                // An assignment needs one token of lookahead past the identifier.
                let is_assign = self.pos < self.items.len() && self.pos + 1 < self.items.len() && match &self.items[self.pos
                    + 1] {
                    Ok(Token::Assign) => true,
                    _ => false,
                };
                if is_assign {
                    self.advance()?;  // identifier
                    self.advance()?;  // '='
                    let expr = self.parse_expression()?;
                    self.expect(Token::Semi)?;
                    return Ok(Statement::Assign(name, expr));
                }
            },
            _ => {},
        }
        let expr = self.parse_expression()?;
        self.expect(Token::Semi)?;
        Ok(Statement::Expression(expr))
    }

    /// params := type identifier (',' type identifier)*
    fn parse_params(&mut self) -> (res: Result<Vec<(Type, String)>, ParserError>)
        requires
            old(self).wf(),
        ensures
            final(self).wf(),
            final(self).items() == old(self).items(),
            final(self).position() == old(self).position() + sp_params(
                old(self).items(),
                old(self).position(),
                Seq::empty(),
            ).1,
            sp_params(old(self).items(), old(self).position(), Seq::empty()).0 == match res {
                Ok(v) => Ok::<Seq<(Type, Seq<char>)>, SpecParserError>(params_view(v@)),
                Err(e) => Err(e@),
            },
    {
        let ghost its = self.items();
        let ghost q0 = self.position();
        let ghost target = sp_params(its, q0, Seq::empty());
        let mut params: Vec<(Type, String)> = Vec::new();
        assert(params_view(params@) =~= Seq::<(Type, Seq<char>)>::empty());
        loop
            invariant_except_break
                sp_params(its, self.position(), params_view(params@)).0 == target.0,
                self.position() + sp_params(its, self.position(), params_view(params@)).1 == q0
                    + target.1,
            invariant
                self.wf(),
                self.items() == its,
                its == old(self).items(),
                q0 == old(self).position(),
                q0 <= self.position(),
                target == sp_params(its, q0, Seq::empty()),
            ensures
                self.wf(),
                self.items() == its,
                target.0 == Ok::<Seq<(Type, Seq<char>)>, SpecParserError>(params_view(params@)),
                self.position() == q0 + target.1,
            decreases remaining(its, self.position()),
        {
            let ty = self.parse_type()?;
            let p_name = self.parse_identifier()?;
            let ghost before = params@;
            params.push((ty, p_name));
            assert(params_view(params@) =~= params_view(before).push((ty, p_name@)));
            if self.check(&Token::Comma) {
                self.advance()?;
            } else {
                break;
            }
        }
        Ok(params)
    }

    /// function := type identifier '(' params? ')' block
    #[verifier::rlimit(60)]
    fn parse_function(&mut self) -> (res: Result<FunctionDecl, ParserError>)
        requires
            old(self).wf(),
        ensures
            final(self).wf(),
            final(self).items() == old(self).items(),
            final(self).position() == old(self).position() + sp_function(
                old(self).items(),
                old(self).position(),
            ).1,
            sp_function(old(self).items(), old(self).position()).0 == result_view(res),
    {
        reveal(sp_function);
        let return_type = self.parse_type()?;
        let name = self.parse_identifier()?;
        self.expect(Token::LParen)?;
        let params = if !self.check(&Token::RParen) {
            self.parse_params()?
        } else {
            let none: Vec<(Type, String)> = Vec::new();
            assert(params_view(none@) =~= Seq::<(Type, Seq<char>)>::empty());
            none
        };
        self.expect(Token::RParen)?;
        let body = Statement::Block(self.parse_block()?);
        Ok(FunctionDecl { name, return_type, params, body })
    }

    /// Parses functions up to the end of input; a program that parses has read
    /// every item, and none of them was a lexical error.
    pub fn parse_program(&mut self) -> (res: Result<Program, ParserError>)
        requires
            old(self).wf(),
        ensures
            final(self).wf(),
            final(self).items() == old(self).items(),
            final(self).position() == old(self).position() + sp_program(
                old(self).items(),
                old(self).position(),
            ).1,
            sp_program(old(self).items(), old(self).position()).0 == result_view(res),
            res is Ok ==> final(self).position() == final(self).items().len(),
            res is Ok ==> forall|i: int|
                old(self).position() <= i < old(self).items().len() ==> (
                #[trigger] old(self).items()[i]) is Ok,
    {
        let ghost its = self.items();
        let ghost p0 = self.position();
        let ghost target = sp_functions(its, p0, Seq::empty());
        let mut functions: Vec<FunctionDecl> = Vec::new();
        assert(functions_view(functions@) =~= Seq::<SpecFunction>::empty());
        loop
            invariant_except_break
                sp_functions(its, self.position(), functions_view(functions@)).0 == target.0,
                self.position() + sp_functions(its, self.position(), functions_view(functions@)).1
                    == p0 + target.1,
            invariant
                self.wf(),
                self.items() == its,
                its == old(self).items(),
                p0 == old(self).position(),
                p0 <= self.position(),
                target == sp_functions(its, p0, Seq::empty()),
            ensures
                self.wf(),
                self.items() == its,
                target.0 == Ok::<Seq<SpecFunction>, SpecParserError>(functions_view(functions@)),
                self.position() == p0 + target.1,
                self.position() == its.len(),
            decreases remaining(its, self.position()),
        {
            let ghost before = self.position();
            if self.check(&Token::EOF) {
                assert(before >= its.len()) by {
                    if before < its.len() {
                        assert(its[before as int] != Ok::<SpecToken, SpecLexerError>(SpecToken::EOF));
                    }
                }
                break;
            }
            proof {
                lemma_function_reads(its, self.position());
            }
            let f = self.parse_function()?;
            let ghost before = functions@;
            functions.push(f);
            assert(functions_view(functions@) =~= functions_view(before).push(function_view(f)));
        }
        proof {
            lemma_parsed_program_read_only_tokens(its, p0);
        }
        Ok(Program { functions })
    }
}

/// An expression of any precedence level that parses reads at least one item.
pub proof fn lemma_level_reads(its: Items, p: nat, level: nat)
    ensures
        sp_level(its, p, level).0 is Ok ==> sp_level(its, p, level).1 > 0,
        sp_operand(its, p, level).0 is Ok ==> sp_operand(its, p, level).1 > 0,
    decreases 4 - level,
{
    if level < 4 {
        lemma_level_reads(its, p, level + 1);
    }
}

/// A statement that parses reads at least one item.
pub proof fn lemma_statement_reads(its: Items, p: nat)
    ensures
        sp_statement(its, p).0 is Ok ==> sp_statement(its, p).1 > 0,
{
    lemma_level_reads(its, p, 0);
    lemma_level_reads(its, p + 2, 0);
}

/// A function that parses reads at least one item.
pub proof fn lemma_function_reads(its: Items, p: nat)
    ensures
        sp_function(its, p).0 is Ok ==> sp_function(its, p).1 > 0,
{
    reveal(sp_function);
}

proof fn lemma_function_body_block(its: Items, p: nat)
    ensures
        sp_function(its, p).0 matches Ok(f) ==> f.body is Block,
{
    reveal(sp_function);
}

proof fn lemma_functions_in_order(its: Items, p: nat, acc: Seq<SpecFunction>)
    requires
        forall|i: int| 0 <= i < acc.len() ==> (#[trigger] acc[i]).body is Block,
    ensures
        sp_functions(its, p, acc).0 matches Ok(fs) ==> {
            &&& acc.len() <= fs.len()
            &&& fs.subrange(0, acc.len() as int) == acc
            &&& forall|i: int| 0 <= i < fs.len() ==> (#[trigger] fs[i]).body is Block
        },
    decreases remaining(its, p),
{
    let (at_end, n1) = check_at(its, p, SpecToken::EOF);
    if at_end {
        assert(acc.subrange(0, acc.len() as int) =~= acc);
    } else {
        let (f, n2) = sp_function(its, p + n1);
        if let Ok(f) = f {
            lemma_function_reads(its, p + n1);
            lemma_function_body_block(its, p + n1);
            let acc2 = acc.push(f);
            lemma_functions_in_order(its, p + n1 + n2, acc2);
            if let Ok(fs) = sp_functions(its, p + n1 + n2, acc2).0 {
                assert(fs.subrange(0, acc.len() as int) =~= acc2.subrange(0, acc.len() as int));
                assert(acc2.subrange(0, acc.len() as int) =~= acc);
            }
        }
    }
}

/// Every function of a parsed program has a block as its body.
pub proof fn lemma_parsed_bodies_are_blocks(its: Items, p: nat)
    ensures
        sp_program(its, p).0 matches Ok(prog) ==> forall|i: int|
            0 <= i < prog.functions.len() ==> (#[trigger] prog.functions[i]).body is Block,
{
    lemma_functions_in_order(its, p, Seq::empty());
}

/// The items from `p` on, `n` of them, are all tokens.
pub open spec fn tokens_in(its: Items, p: nat, n: nat) -> bool {
    forall|i: int| p <= i < p + n && i < its.len() ==> (#[trigger] its[i]) is Ok
}

proof fn lemma_tokens_level(its: Items, p: nat, level: nat)
    ensures
        sp_level(its, p, level).0 is Ok ==> tokens_in(its, p, sp_level(its, p, level).1),
    decreases remaining(its, p), if level < 4 { 9 - 2 * level } else { 1int },
{
    if level >= 4 {
        lemma_tokens_primary(its, p);
    } else {
        lemma_tokens_operand(its, p, level);
        let (l, n) = sp_operand(its, p, level);
        if let Ok(e) = l {
            lemma_tokens_rest(its, p + n, level, e);
        }
    }
}

proof fn lemma_tokens_operand(its: Items, p: nat, level: nat)
    ensures
        sp_operand(its, p, level).0 is Ok ==> tokens_in(its, p, sp_operand(its, p, level).1),
    decreases remaining(its, p), if level < 3 { 8 - 2 * level } else { 2int },
{
    if level >= 3 {
        lemma_tokens_primary(its, p);
    } else {
        lemma_tokens_level(its, p, level + 1);
    }
}

proof fn lemma_tokens_rest(its: Items, p: nat, level: nat, left: SpecExpr)
    ensures
        sp_level_rest(its, p, level, left).0 is Ok ==> tokens_in(
            its,
            p,
            sp_level_rest(its, p, level, left).1,
        ),
    decreases remaining(its, p), if level < 4 { 8 - 2 * level } else { 0int },
{
    let (t, n) = peek_at(its, p);
    if let Ok(tok) = t {
        if let Some(op) = level_op(level, tok) {
            let (a, n1) = adv(its, p);
            if a is Ok {
                lemma_tokens_operand(its, p + n1, level);
                let (r, n2) = sp_operand(its, p + n1, level);
                if let Ok(right) = r {
                    lemma_tokens_rest(
                        its,
                        p + n1 + n2,
                        level,
                        SpecExpr::Binary(op, Box::new(left), Box::new(right)),
                    );
                }
            }
        }
    }
}

proof fn lemma_tokens_primary(its: Items, p: nat)
    ensures
        sp_primary(its, p).0 is Ok ==> tokens_in(its, p, sp_primary(its, p).1),
    decreases remaining(its, p), 0int,
{
    let (a, n) = adv(its, p);
    match a {
        Ok(SpecToken::Identifier(name)) => {
            let (is_call, n1) = check_at(its, p + n, SpecToken::LParen);
            if is_call {
                let q = p + n + n1;
                let (a2, n2) = adv(its, q);
                if a2 is Ok {
                    let (empty, n3) = check_at(its, q + n2, SpecToken::RParen);
                    if !empty {
                        lemma_tokens_arguments(its, q + n2 + n3, Seq::empty());
                    }
                }
            }
        },
        Ok(SpecToken::LParen) => {
            lemma_tokens_level(its, p + n, 0);
        },
        _ => {},
    }
}

proof fn lemma_tokens_arguments(its: Items, q: nat, acc: Seq<SpecExpr>)
    ensures
        sp_arguments(its, q, acc).0 is Ok ==> tokens_in(its, q, sp_arguments(its, q, acc).1),
    decreases remaining(its, q), 11int,
{
    lemma_tokens_level(its, q, 0);
    let (e, n1) = sp_expression(its, q);
    if let Ok(e) = e {
        let (more, n2) = check_at(its, q + n1, SpecToken::Comma);
        if more {
            let (a, n3) = adv(its, q + n1 + n2);
            if a is Ok {
                lemma_tokens_arguments(its, q + n1 + n2 + n3, acc.push(e));
            }
        }
    }
}

proof fn lemma_tokens_expression_semi(its: Items, p: nat)
    ensures
        sp_expression_semi(its, p).0 is Ok ==> tokens_in(its, p, sp_expression_semi(its, p).1),
{
    lemma_tokens_level(its, p, 0);
}

proof fn lemma_tokens_simple(its: Items, p: nat)
    ensures
        sp_var_decl(its, p).0 is Ok ==> tokens_in(its, p, sp_var_decl(its, p).1),
        sp_return(its, p).0 is Ok ==> tokens_in(its, p, sp_return(its, p).1),
        sp_print(its, p).0 is Ok ==> tokens_in(its, p, sp_print(its, p).1),
        sp_expression_statement(its, p).0 is Ok ==> tokens_in(
            its,
            p,
            sp_expression_statement(its, p).1,
        ),
{
    lemma_tokens_expression_semi(its, p);
    lemma_tokens_expression_semi(its, p + 2);
    lemma_tokens_level(its, p + 2, 0);
    lemma_tokens_expression_semi(its, p + 1);
    let (ty, n1) = sp_type(its, p);
    if ty is Ok {
        let (name, n2) = sp_name(its, p + n1);
        if name is Ok {
            let q = p + n1 + n2;
            let (has_init, n3) = check_at(its, q, SpecToken::Assign);
            let (a, n4) = adv(its, q + n3);
            lemma_tokens_expression_semi(its, q + n3 + n4);
        }
    }
}

proof fn lemma_tokens_statement(its: Items, p: nat)
    ensures
        sp_statement(its, p).0 is Ok ==> tokens_in(its, p, sp_statement(its, p).1),
    decreases remaining(its, p), 2int,
{
    lemma_tokens_simple(its, p);
    let (t, n) = peek_at(its, p);
    match t {
        Ok(SpecToken::If) => lemma_tokens_if(its, p),
        Ok(SpecToken::While) => lemma_tokens_while(its, p),
        Ok(SpecToken::LBrace) => lemma_tokens_block(its, p),
        _ => {},
    }
}

proof fn lemma_tokens_block(its: Items, p: nat)
    ensures
        sp_block(its, p).0 is Ok ==> tokens_in(its, p, sp_block(its, p).1),
    decreases remaining(its, p), 1int,
{
    let (a, n1) = expect_at(its, p, SpecToken::LBrace);
    if a is Ok {
        lemma_tokens_block_rest(its, p + n1, Seq::empty());
    }
}

proof fn lemma_tokens_block_rest(its: Items, q: nat, acc: Seq<SpecStmt>)
    ensures
        sp_block_rest(its, q, acc).0 is Ok ==> tokens_in(its, q, sp_block_rest(its, q, acc).1),
    decreases remaining(its, q), 3int,
{
    let (closing, n1) = check_at(its, q, SpecToken::RBrace);
    if !closing {
        let (at_end, n2) = check_at(its, q + n1, SpecToken::EOF);
        if !at_end {
            lemma_tokens_statement(its, q + n1 + n2);
            let (s, n3) = sp_statement(its, q + n1 + n2);
            if let Ok(st) = s {
                if n3 != 0 {
                    lemma_tokens_block_rest(its, q + n1 + n2 + n3, acc.push(st));
                }
            }
        }
    }
}

proof fn lemma_tokens_if(its: Items, p: nat)
    ensures
        sp_if(its, p).0 is Ok ==> tokens_in(its, p, sp_if(its, p).1),
    decreases remaining(its, p), 1int,
{
    let (a, n1) = adv(its, p);
    if a is Ok {
        let (b, n2) = expect_at(its, p + n1, SpecToken::LParen);
        if b is Ok {
            lemma_tokens_level(its, p + n1 + n2, 0);
            let (c, n3) = sp_expression(its, p + n1 + n2);
            if c is Ok {
                let (d, n4) = expect_at(its, p + n1 + n2 + n3, SpecToken::RParen);
                if d is Ok {
                    let q = p + n1 + n2 + n3 + n4;
                    lemma_tokens_statement(its, q);
                    let (th, n5) = sp_statement(its, q);
                    if th is Ok {
                        let (has_else, n6) = check_at(its, q + n5, SpecToken::Else);
                        if has_else {
                            let (f, n7) = adv(its, q + n5 + n6);
                            if f is Ok {
                                lemma_tokens_statement(its, q + n5 + n6 + n7);
                            }
                        }
                    }
                }
            }
        }
    }
}

proof fn lemma_tokens_while(its: Items, p: nat)
    ensures
        sp_while(its, p).0 is Ok ==> tokens_in(its, p, sp_while(its, p).1),
    decreases remaining(its, p), 1int,
{
    let (a, n1) = adv(its, p);
    if a is Ok {
        let (b, n2) = expect_at(its, p + n1, SpecToken::LParen);
        if b is Ok {
            lemma_tokens_level(its, p + n1 + n2, 0);
            let (c, n3) = sp_expression(its, p + n1 + n2);
            if c is Ok {
                let (d, n4) = expect_at(its, p + n1 + n2 + n3, SpecToken::RParen);
                if d is Ok {
                    lemma_tokens_statement(its, p + n1 + n2 + n3 + n4);
                }
            }
        }
    }
}

proof fn lemma_tokens_params(its: Items, q: nat, acc: Seq<(Type, Seq<char>)>)
    ensures
        sp_params(its, q, acc).0 is Ok ==> tokens_in(its, q, sp_params(its, q, acc).1),
    decreases remaining(its, q),
{
    let (ty, n1) = sp_type(its, q);
    if let Ok(ty) = ty {
        let (name, n2) = sp_name(its, q + n1);
        if let Ok(name) = name {
            let (more, n3) = check_at(its, q + n1 + n2, SpecToken::Comma);
            if more {
                let (a, n4) = adv(its, q + n1 + n2 + n3);
                if a is Ok {
                    lemma_tokens_params(its, q + n1 + n2 + n3 + n4, acc.push((ty, name)));
                }
            }
        }
    }
}

proof fn lemma_tokens_function(its: Items, p: nat)
    ensures
        sp_function(its, p).0 is Ok ==> tokens_in(its, p, sp_function(its, p).1),
{
    reveal(sp_function);
    let (ty, n1) = sp_type(its, p);
    if ty is Ok {
        let (name, n2) = sp_name(its, p + n1);
        if name is Ok {
            let (lp, n3) = expect_at(its, p + n1 + n2, SpecToken::LParen);
            if lp is Ok {
                let q = p + n1 + n2 + n3;
                let (none, n4) = check_at(its, q, SpecToken::RParen);
                lemma_tokens_params(its, q + n4, Seq::empty());
                let (params, n5) = if none {
                    (Ok(Seq::<(Type, Seq<char>)>::empty()), 0nat)
                } else {
                    sp_params(its, q + n4, Seq::empty())
                };
                if params is Ok {
                    let (rp, n6) = expect_at(its, q + n4 + n5, SpecToken::RParen);
                    if rp is Ok {
                        lemma_tokens_block(its, q + n4 + n5 + n6);
                    }
                }
            }
        }
    }
}

proof fn lemma_tokens_functions(its: Items, p: nat, acc: Seq<SpecFunction>)
    ensures
        sp_functions(its, p, acc).0 is Ok ==> tokens_in(its, p, sp_functions(its, p, acc).1),
    decreases remaining(its, p),
{
    let (at_end, n1) = check_at(its, p, SpecToken::EOF);
    if !at_end {
        lemma_tokens_function(its, p + n1);
        let (f, n2) = sp_function(its, p + n1);
        if let Ok(f) = f {
            lemma_function_reads(its, p + n1);
            lemma_tokens_functions(its, p + n1 + n2, acc.push(f));
        }
    }
}

/// A program that parses read only tokens: a lexical error anywhere in what it
/// read makes the parse fail.
pub proof fn lemma_parsed_program_read_only_tokens(its: Items, p: nat)
    ensures
        sp_program(its, p).0 is Ok ==> tokens_in(its, p, sp_program(its, p).1),
{
    lemma_tokens_functions(its, p, Seq::empty());
}

/// The binary operators of each precedence level, tightest last: equality,
/// then ordering comparisons, then `+`/`-`, then `*`/`/`.
pub open spec fn operator_at(level: nat, t: SpecToken) -> Option<BinaryOp> {
    match t {
        SpecToken::Eq => if level == 0 { Some(BinaryOp::Equal) } else { None },
        SpecToken::Ne => if level == 0 { Some(BinaryOp::NotEqual) } else { None },
        SpecToken::Lt => if level == 1 { Some(BinaryOp::Less) } else { None },
        SpecToken::Le => if level == 1 { Some(BinaryOp::LessEqual) } else { None },
        SpecToken::Gt => if level == 1 { Some(BinaryOp::Greater) } else { None },
        SpecToken::Ge => if level == 1 { Some(BinaryOp::GreaterEqual) } else { None },
        SpecToken::Plus => if level == 2 { Some(BinaryOp::Add) } else { None },
        SpecToken::Minus => if level == 2 { Some(BinaryOp::Sub) } else { None },
        SpecToken::Star => if level == 3 { Some(BinaryOp::Mul) } else { None },
        SpecToken::Slash => if level == 3 { Some(BinaryOp::Div) } else { None },
        _ => None,
    }
}

/// An operand of an operator of level `level`: an expression of the next
/// tighter level, or a primary expression under `*` and `/`.
pub open spec fn operand_at(its: Items, p: nat, level: nat) -> Parsed<SpecExpr> {
    if level < 3 {
        sp_level(its, p, level + 1)
    } else {
        sp_primary(its, p)
    }
}

/// Whether the item at `p` ends an expression of level `level`: the end of
/// input, or a token that is no operator of that level.
pub open spec fn ends_level(its: Items, p: nat, level: nat) -> bool {
    p >= its.len() || (its[p as int] matches Ok(t) && operator_at(level, t) is None)
}

/// The grammar of binary operators: an operand of the next tighter level, an
/// operator of this level, and another operand of the next tighter level,
/// followed by no further operator of this level, parse as that operator
/// applied to the two operands. So the operands of `==` are comparisons, those
/// of `<` are sums, those of `+` are products, and those of `*` are primaries.
pub proof fn lemma_binary_operands(
    its: Items,
    p: nat,
    level: nat,
    e1: SpecExpr,
    n1: nat,
    tok: SpecToken,
    op: BinaryOp,
    e2: SpecExpr,
    n2: nat,
)
    requires
        level < 4,
        operand_at(its, p, level) == (Ok::<SpecExpr, SpecParserError>(e1), n1),
        p + n1 < its.len(),
        its[p + n1 as int] == Ok::<SpecToken, SpecLexerError>(tok),
        operator_at(level, tok) == Some(op),
        operand_at(its, p + n1 + 1, level) == (Ok::<SpecExpr, SpecParserError>(e2), n2),
        ends_level(its, p + n1 + 1 + n2, level),
    ensures
        sp_level(its, p, level) == (
            Ok::<SpecExpr, SpecParserError>(SpecExpr::Binary(op, Box::new(e1), Box::new(e2))),
            n1 + 1 + n2,
        ),
{
    assert(level_op(level, tok) == Some(op));
    assert(sp_operand(its, p, level) == operand_at(its, p, level));
    assert(sp_operand(its, p + n1 + 1, level) == operand_at(its, p + n1 + 1, level));
    assert(peek_at(its, p + n1) == (Ok::<SpecToken, SpecParserError>(tok), 0nat));
    assert(adv(its, p + n1) == (Ok::<SpecToken, SpecParserError>(tok), 1nat));
    let q = p + n1 + 1 + n2;
    if q < its.len() {
        let t = its[q as int]->Ok_0;
        assert(level_op(level, t) is None);
    }
    assert(sp_level_rest(its, q, level, SpecExpr::Binary(op, Box::new(e1), Box::new(e2))) == (
        Ok::<SpecExpr, SpecParserError>(SpecExpr::Binary(op, Box::new(e1), Box::new(e2))),
        0nat,
    ));
    assert(sp_level_rest(its, p + n1, level, e1) == (
        Ok::<SpecExpr, SpecParserError>(SpecExpr::Binary(op, Box::new(e1), Box::new(e2))),
        1 + n2,
    ));
}

} // verus!

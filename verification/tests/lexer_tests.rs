use minimal_c_compiler::lexer::{Lexer, LexerError, Token};

fn all_tokens(input: &str) -> Vec<Result<Token, LexerError>> {
    let mut lexer = Lexer::new(input);
    let mut out = Vec::new();
    loop {
        let t = lexer.next_token();
        let done = t == Ok(Token::EOF);
        out.push(t);
        if done {
            return out;
        }
    }
}

#[test]
fn test_keywords_and_identifiers() {
    let toks = all_tokens("if else while int bool return printInt true false foo _bar x1");
    assert_eq!(
        toks,
        vec![
            Ok(Token::If),
            Ok(Token::Else),
            Ok(Token::While),
            Ok(Token::Int),
            Ok(Token::Bool),
            Ok(Token::Return),
            Ok(Token::PrintInt),
            Ok(Token::True),
            Ok(Token::False),
            Ok(Token::Identifier("foo".to_string())),
            Ok(Token::Identifier("_bar".to_string())),
            Ok(Token::Identifier("x1".to_string())),
            Ok(Token::EOF),
        ]
    );
}

#[test]
fn test_keyword_prefixes_are_identifiers() {
    let toks = all_tokens("iff integer printint");
    assert_eq!(
        toks,
        vec![
            Ok(Token::Identifier("iff".to_string())),
            Ok(Token::Identifier("integer".to_string())),
            Ok(Token::Identifier("printint".to_string())),
            Ok(Token::EOF),
        ]
    );
}

#[test]
fn test_operators_and_delimiters() {
    let toks = all_tokens("+ - * / = == != < <= > >= ( ) { } ; ,");
    assert_eq!(
        toks,
        vec![
            Ok(Token::Plus),
            Ok(Token::Minus),
            Ok(Token::Star),
            Ok(Token::Slash),
            Ok(Token::Assign),
            Ok(Token::Eq),
            Ok(Token::Ne),
            Ok(Token::Lt),
            Ok(Token::Le),
            Ok(Token::Gt),
            Ok(Token::Ge),
            Ok(Token::LParen),
            Ok(Token::RParen),
            Ok(Token::LBrace),
            Ok(Token::RBrace),
            Ok(Token::Semi),
            Ok(Token::Comma),
            Ok(Token::EOF),
        ]
    );
}

#[test]
fn test_operators_without_spaces() {
    let toks = all_tokens("a<=b==c=d");
    assert_eq!(
        toks,
        vec![
            Ok(Token::Identifier("a".to_string())),
            Ok(Token::Le),
            Ok(Token::Identifier("b".to_string())),
            Ok(Token::Eq),
            Ok(Token::Identifier("c".to_string())),
            Ok(Token::Assign),
            Ok(Token::Identifier("d".to_string())),
            Ok(Token::EOF),
        ]
    );
}

#[test]
fn test_integer_literals() {
    let toks = all_tokens("0 42 007 2147483647");
    assert_eq!(
        toks,
        vec![
            Ok(Token::IntLiteral(0)),
            Ok(Token::IntLiteral(42)),
            Ok(Token::IntLiteral(7)),
            Ok(Token::IntLiteral(2147483647)),
            Ok(Token::EOF),
        ]
    );
}

#[test]
fn test_digits_then_letters_split() {
    let toks = all_tokens("12abc");
    assert_eq!(
        toks,
        vec![
            Ok(Token::IntLiteral(12)),
            Ok(Token::Identifier("abc".to_string())),
            Ok(Token::EOF),
        ]
    );
}

#[test]
fn test_integer_literal_overflow() {
    let mut lexer = Lexer::new("  2147483648;");
    assert_eq!(
        lexer.next_token(),
        Err(LexerError::InvalidIntegerLiteral("2147483648".to_string(), 1, 3))
    );
    // The digits were read; scanning goes on after them.
    assert_eq!(lexer.next_token(), Ok(Token::Semi));
    assert_eq!(lexer.next_token(), Ok(Token::EOF));
}

#[test]
fn test_unexpected_character_position() {
    let mut lexer = Lexer::new("x\n  @ y");
    assert_eq!(lexer.next_token(), Ok(Token::Identifier("x".to_string())));
    assert_eq!(
        lexer.next_token(),
        Err(LexerError::UnexpectedCharacter('@', 2, 3))
    );
    assert_eq!(lexer.next_token(), Ok(Token::Identifier("y".to_string())));
}

#[test]
fn test_tab_counts_one_column() {
    let mut lexer = Lexer::new("\tfoo #");
    assert_eq!(lexer.next_token(), Ok(Token::Identifier("foo".to_string())));
    assert_eq!(
        lexer.next_token(),
        Err(LexerError::UnexpectedCharacter('#', 1, 6))
    );
}

#[test]
fn test_lone_bang_is_an_error() {
    let mut lexer = Lexer::new("!x");
    assert_eq!(
        lexer.next_token(),
        Err(LexerError::UnexpectedCharacter('!', 1, 1))
    );
    assert_eq!(lexer.next_token(), Ok(Token::Identifier("x".to_string())));
}

#[test]
fn test_comments_are_skipped() {
    let toks = all_tokens("// first\nint // second\n  x // last");
    assert_eq!(
        toks,
        vec![
            Ok(Token::Int),
            Ok(Token::Identifier("x".to_string())),
            Ok(Token::EOF),
        ]
    );
}

#[test]
fn test_single_slash_is_division() {
    let toks = all_tokens("a / b");
    assert_eq!(
        toks,
        vec![
            Ok(Token::Identifier("a".to_string())),
            Ok(Token::Slash),
            Ok(Token::Identifier("b".to_string())),
            Ok(Token::EOF),
        ]
    );
}

#[test]
fn test_line_tracking_across_comment_lines() {
    let mut lexer = Lexer::new("// note\n// more\n   $");
    assert_eq!(
        lexer.next_token(),
        Err(LexerError::UnexpectedCharacter('$', 3, 4))
    );
}

#[test]
fn test_eof_repeats() {
    let mut lexer = Lexer::new("  \n ");
    assert_eq!(lexer.next_token(), Ok(Token::EOF));
    assert_eq!(lexer.next_token(), Ok(Token::EOF));
    assert_eq!(lexer.next_token(), Ok(Token::EOF));
}

#[test]
fn test_next_item_ends_at_eof() {
    let mut lexer = Lexer::new("x");
    assert_eq!(
        lexer.next_item(),
        Some(Ok(Token::Identifier("x".to_string())))
    );
    assert_eq!(lexer.next_item(), None);
    assert_eq!(lexer.next_item(), None);
}

#[test]
fn test_unicode_letters_and_spaces() {
    // Letters outside ASCII make identifiers, and a no-break space separates.
    let toks = all_tokens("h\u{e9}llo\u{a0}y");
    assert_eq!(
        toks,
        vec![
            Ok(Token::Identifier("h\u{e9}llo".to_string())),
            Ok(Token::Identifier("y".to_string())),
            Ok(Token::EOF),
        ]
    );
}

#[test]
fn test_display_text() {
    assert_eq!(Token::Identifier("abc".to_string()).display_text(), "abc");
    assert_eq!(Token::IntLiteral(-5).display_text(), "-5");
    assert_eq!(Token::IntLiteral(42).display_text(), "42");
    assert_eq!(Token::Plus.display_text(), "Plus");
    assert_eq!(Token::PrintInt.display_text(), "PrintInt");
    assert_eq!(Token::EOF.display_text(), "EOF");
}

#[test]
fn test_lexer_error_messages() {
    assert_eq!(
        LexerError::UnexpectedCharacter('@', 2, 3).message(),
        "Unexpected character: '@' at line 2, col 3"
    );
    assert_eq!(
        LexerError::InvalidIntegerLiteral("2147483648".to_string(), 1, 10).message(),
        "Invalid integer literal: '2147483648' at line 1, col 10"
    );
}

#[test]
fn test_blank_input_is_end_of_input() {
    let mut lexer = Lexer::new("  \t// a comment\n\n   // another // one\r\n  ");
    assert_eq!(lexer.next_token(), Ok(Token::EOF));
    assert_eq!(lexer.next_token(), Ok(Token::EOF));
}

#[test]
fn test_identifier_with_unicode_letters_and_digits() {
    // A non-ASCII letter may start an identifier, and any letter or digit continues it.
    let toks = all_tokens("\u{e9}t\u{e9}2_x+");
    assert_eq!(
        toks,
        vec![
            Ok(Token::Identifier("\u{e9}t\u{e9}2_x".to_string())),
            Ok(Token::Plus),
            Ok(Token::EOF),
        ]
    );
}

use minimal_c_compiler::ast::{BinaryOp, Expression, FunctionDecl, Program, Statement, Type};
use minimal_c_compiler::lexer::{Lexer, LexerError, Token};
use minimal_c_compiler::parser::{Parser, ParserError};

fn parse(input: &str) -> Result<Program, ParserError> {
    let lexer = Lexer::new(input);
    let mut parser = Parser::new(lexer);
    parser.parse_program()
}

fn lit(i: i32) -> Expression {
    Expression::IntLiteral(i)
}

fn var(name: &str) -> Expression {
    Expression::Variable(name.to_string())
}

fn bin(op: BinaryOp, l: Expression, r: Expression) -> Expression {
    Expression::Binary(op, Box::new(l), Box::new(r))
}

/// The body statements of the single function of `input`.
fn body_of(input: &str) -> Vec<Statement> {
    let program = parse(input).unwrap();
    assert_eq!(program.functions.len(), 1);
    match &program.functions[0].body {
        Statement::Block(stmts) => stmts.clone(),
        _ => panic!("function body is not a block"),
    }
}

#[test]
fn test_function_header() {
    let program = parse("int add(int a, bool b) { return a; }").unwrap();
    let expected = Program {
        functions: vec![FunctionDecl {
            name: "add".to_string(),
            return_type: Type::Int,
            params: vec![(Type::Int, "a".to_string()), (Type::Bool, "b".to_string())],
            body: Statement::Block(vec![Statement::Return(Some(var("a")))]),
        }],
    };
    assert_eq!(program, expected);
}

#[test]
fn test_empty_program() {
    assert_eq!(parse("  // nothing here\n"), Ok(Program { functions: vec![] }));
}

#[test]
fn test_multiplication_binds_tighter() {
    let body = body_of("int main() { return 1 + 2 * 3; }");
    assert_eq!(
        body,
        vec![Statement::Return(Some(bin(
            BinaryOp::Add,
            lit(1),
            bin(BinaryOp::Mul, lit(2), lit(3))
        )))]
    );
}

#[test]
fn test_subtraction_is_left_associative() {
    let body = body_of("int main() { return 1 - 2 - 3; }");
    assert_eq!(
        body,
        vec![Statement::Return(Some(bin(
            BinaryOp::Sub,
            bin(BinaryOp::Sub, lit(1), lit(2)),
            lit(3)
        )))]
    );
}

#[test]
fn test_division_is_left_associative() {
    let body = body_of("int main() { return 8 / 4 / 2; }");
    assert_eq!(
        body,
        vec![Statement::Return(Some(bin(
            BinaryOp::Div,
            bin(BinaryOp::Div, lit(8), lit(4)),
            lit(2)
        )))]
    );
}

#[test]
fn test_comparison_binds_tighter_than_equality() {
    let body = body_of("int main() { return a < b == c >= d; }");
    assert_eq!(
        body,
        vec![Statement::Return(Some(bin(
            BinaryOp::Equal,
            bin(BinaryOp::Less, var("a"), var("b")),
            bin(BinaryOp::GreaterEqual, var("c"), var("d"))
        )))]
    );
}

#[test]
fn test_all_comparison_operators() {
    let body = body_of("int main() { a != b; a <= b; a > b; }");
    assert_eq!(
        body,
        vec![
            Statement::Expression(bin(BinaryOp::NotEqual, var("a"), var("b"))),
            Statement::Expression(bin(BinaryOp::LessEqual, var("a"), var("b"))),
            Statement::Expression(bin(BinaryOp::Greater, var("a"), var("b"))),
        ]
    );
}

#[test]
fn test_parentheses_group() {
    let body = body_of("int main() { return (1 + 2) * 3; }");
    assert_eq!(
        body,
        vec![Statement::Return(Some(bin(
            BinaryOp::Mul,
            bin(BinaryOp::Add, lit(1), lit(2)),
            lit(3)
        )))]
    );
}

#[test]
fn test_calls_and_arguments() {
    let body = body_of("int main() { f(1, x, g()); }");
    assert_eq!(
        body,
        vec![Statement::Expression(Expression::Call(
            "f".to_string(),
            vec![lit(1), var("x"), Expression::Call("g".to_string(), vec![])]
        ))]
    );
}

#[test]
fn test_assignment_and_expression_statements() {
    let body = body_of("int main() { x = 5; x; y == 1; }");
    assert_eq!(
        body,
        vec![
            Statement::Assign("x".to_string(), lit(5)),
            Statement::Expression(var("x")),
            Statement::Expression(bin(BinaryOp::Equal, var("y"), lit(1))),
        ]
    );
}

#[test]
fn test_declarations() {
    let body = body_of("int main() { int x; bool b = true; int y = x; }");
    assert_eq!(
        body,
        vec![
            Statement::VarDecl(Type::Int, "x".to_string(), None),
            Statement::VarDecl(Type::Bool, "b".to_string(), Some(Expression::BoolLiteral(true))),
            Statement::VarDecl(Type::Int, "y".to_string(), Some(var("x"))),
        ]
    );
}

#[test]
fn test_control_flow_statements() {
    let body = body_of(
        "int main() { if (a) x = 1; else { x = 2; } while (false) printInt(x); return; }",
    );
    assert_eq!(
        body,
        vec![
            Statement::If(
                var("a"),
                Box::new(Statement::Assign("x".to_string(), lit(1))),
                Some(Box::new(Statement::Block(vec![Statement::Assign(
                    "x".to_string(),
                    lit(2)
                )]))),
            ),
            Statement::While(
                Expression::BoolLiteral(false),
                Box::new(Statement::PrintInt(var("x")))
            ),
            Statement::Return(None),
        ]
    );
}

#[test]
fn test_if_without_else_and_nested_block() {
    let body = body_of("int main() { if (c) { { } } }");
    assert_eq!(
        body,
        vec![Statement::If(
            var("c"),
            Box::new(Statement::Block(vec![Statement::Block(vec![])])),
            None
        )]
    );
}

#[test]
fn test_error_bad_type() {
    assert_eq!(
        parse("void main() {}"),
        Err(ParserError::UnexpectedToken(
            Token::Identifier("void".to_string()),
            "type (int, bool)".to_string()
        ))
    );
}

#[test]
fn test_error_missing_function_name() {
    assert_eq!(
        parse("int 5() {}"),
        Err(ParserError::UnexpectedToken(Token::IntLiteral(5), "identifier".to_string()))
    );
}

#[test]
fn test_error_bad_parameter_list() {
    assert_eq!(
        parse("int main( {"),
        Err(ParserError::UnexpectedToken(Token::LBrace, "type (int, bool)".to_string()))
    );
}

#[test]
fn test_error_missing_semicolon() {
    assert_eq!(
        parse("int main() { return 1 }"),
        Err(ParserError::UnexpectedToken(Token::RBrace, "Semi".to_string()))
    );
}

#[test]
fn test_error_missing_expression() {
    assert_eq!(
        parse("int main() { return +; }"),
        Err(ParserError::UnexpectedToken(Token::Plus, "expression".to_string()))
    );
}

#[test]
fn test_error_unclosed_block() {
    assert_eq!(parse("int main() {"), Err(ParserError::UnexpectedEOF));
}

#[test]
fn test_error_trailing_type() {
    assert_eq!(parse("int main() { return 0; } int"), Err(ParserError::UnexpectedEOF));
}

#[test]
fn test_error_from_lexer() {
    assert_eq!(
        parse("int main() { return 1 $ 2; }"),
        Err(ParserError::LexerError(LexerError::UnexpectedCharacter('$', 1, 23)))
    );
}

#[test]
fn test_error_overlong_literal() {
    assert_eq!(
        parse("int main() {\n  int x = 99999999999;\n}"),
        Err(ParserError::LexerError(LexerError::InvalidIntegerLiteral(
            "99999999999".to_string(),
            2,
            11
        )))
    );
}

#[test]
fn test_lexer_error_after_return_is_reported() {
    // Looking for `;` after `return` leaves the bad literal in place, and
    // reading the expression reports it.
    assert_eq!(
        parse("int main() { return 99999999999; }"),
        Err(ParserError::LexerError(LexerError::InvalidIntegerLiteral(
            "99999999999".to_string(),
            1,
            21
        )))
    );
}

#[test]
fn test_lexer_error_before_first_function_is_reported() {
    assert_eq!(
        parse("$ int main() { return 0; }"),
        Err(ParserError::LexerError(LexerError::UnexpectedCharacter('$', 1, 1)))
    );
}

#[test]
fn test_lexer_error_between_statements_is_reported() {
    assert_eq!(
        parse("int main() {\n  x = 1;\n  # \n}"),
        Err(ParserError::LexerError(LexerError::UnexpectedCharacter('#', 3, 3)))
    );
}

#[test]
fn test_program_clone_is_equal() {
    let program = parse(
        "int f(int a, bool b) { if (b) { a = a + 1; } else a = 2; while (false) { } return f(a, b); }",
    )
    .unwrap();
    let copy = program.clone();
    assert_eq!(copy, program);
    assert_eq!(copy.functions[0].clone(), program.functions[0]);
}

#[test]
fn test_parser_error_from_lexer_error() {
    let e = LexerError::UnexpectedCharacter('?', 4, 7);
    assert_eq!(
        ParserError::from(e.clone()),
        ParserError::LexerError(LexerError::UnexpectedCharacter('?', 4, 7))
    );
}

#[test]
fn test_lexer_clone_reads_independently() {
    let mut lexer = Lexer::new("a b");
    assert_eq!(lexer.next_token(), Ok(Token::Identifier("a".to_string())));
    let mut copy = lexer.clone();
    assert_eq!(copy.next_token(), Ok(Token::Identifier("b".to_string())));
    assert_eq!(lexer.next_token(), Ok(Token::Identifier("b".to_string())));
    assert_eq!(copy.next_token(), Ok(Token::EOF));
}

#[test]
fn test_parser_error_messages() {
    assert_eq!(ParserError::UnexpectedEOF.message(), "Unexpected end of input");
    assert_eq!(
        ParserError::UnexpectedToken(Token::IntLiteral(5), "identifier".to_string()).message(),
        "Unexpected token: 5, expected identifier"
    );
    assert_eq!(
        ParserError::UnexpectedToken(Token::RBrace, "Semi".to_string()).message(),
        "Unexpected token: RBrace, expected Semi"
    );
    assert_eq!(
        ParserError::LexerError(LexerError::UnexpectedCharacter('$', 1, 23)).message(),
        "Lexer error: Unexpected character: '$' at line 1, col 23"
    );
}

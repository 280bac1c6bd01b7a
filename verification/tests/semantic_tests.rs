use minimal_c_compiler::ast::{BinaryOp, Program, Type};
use minimal_c_compiler::lexer::Lexer;
use minimal_c_compiler::parser::Parser;
use minimal_c_compiler::semantic_analyzer::{SemanticAnalyzer, SemanticError};

fn program(input: &str) -> Program {
    let lexer = Lexer::new(input);
    let mut parser = Parser::new(lexer);
    parser.parse_program().unwrap()
}

fn check(input: &str) -> Result<(), SemanticError> {
    let p = program(input);
    let mut analyzer = SemanticAnalyzer::new();
    analyzer.analyze(&p)
}

#[test]
fn test_accepts_recursion_and_printing() {
    assert_eq!(
        check("int fact(int n) { if (n <= 1) return 1; return n * fact(n - 1); } int main() { printInt(fact(5)); return 0; }"),
        Ok(())
    );
}

#[test]
fn test_accepts_call_before_declaration() {
    assert_eq!(check("int main() { return later(2); } int later(int x) { return x; }"), Ok(()));
}

#[test]
fn test_shadowing_in_nested_block() {
    assert_eq!(
        check("int main() { int x = 1; { bool x = true; if (x) printInt(1); } return x; }"),
        Ok(())
    );
}

#[test]
fn test_body_may_shadow_parameter() {
    // The body is a block of its own, so it may declare a parameter's name again.
    assert_eq!(check("int f(int a) { int a = 2; return a; }"), Ok(()));
}

#[test]
fn test_variable_already_declared() {
    assert_eq!(
        check("int main() { int x = 1; int x = 2; return 0; }"),
        Err(SemanticError::VariableAlreadyDeclared("x".to_string()))
    );
}

#[test]
fn test_duplicate_parameters() {
    assert_eq!(
        check("int f(int a, bool a) { return 0; }"),
        Err(SemanticError::VariableAlreadyDeclared("a".to_string()))
    );
}

#[test]
fn test_variable_not_declared() {
    assert_eq!(
        check("int main() { return y; }"),
        Err(SemanticError::VariableNotDeclared("y".to_string()))
    );
}

#[test]
fn test_assignment_to_undeclared_variable() {
    assert_eq!(
        check("int main() { y = 1; return 0; }"),
        Err(SemanticError::VariableNotDeclared("y".to_string()))
    );
}

#[test]
fn test_variable_out_of_scope() {
    assert_eq!(
        check("int main() { { int z = 1; } return z; }"),
        Err(SemanticError::VariableNotDeclared("z".to_string()))
    );
}

#[test]
fn test_declaration_type_mismatch() {
    assert_eq!(
        check("int main() { int x = true; return 0; }"),
        Err(SemanticError::TypeMismatch(Type::Int, Type::Bool))
    );
}

#[test]
fn test_assignment_type_mismatch() {
    assert_eq!(
        check("int main() { bool b = false; b = 3; return 0; }"),
        Err(SemanticError::TypeMismatch(Type::Bool, Type::Int))
    );
}

#[test]
fn test_return_without_value() {
    assert_eq!(
        check("int main() { return; }"),
        Err(SemanticError::MissingReturnValue("main".to_string(), Type::Int))
    );
}

#[test]
fn test_return_without_value_in_bool_function() {
    assert_eq!(
        check("int main() { return 0; } bool f() { return; }"),
        Err(SemanticError::MissingReturnValue("f".to_string(), Type::Bool))
    );
}

#[test]
fn test_return_type_mismatch() {
    assert_eq!(
        check("bool f() { return 1; } int main() { return 0; }"),
        Err(SemanticError::TypeMismatch(Type::Bool, Type::Int))
    );
}

#[test]
fn test_function_not_declared() {
    assert_eq!(
        check("int main() { return g(); }"),
        Err(SemanticError::FunctionNotDeclared("g".to_string()))
    );
}

#[test]
fn test_function_already_declared() {
    assert_eq!(
        check("int f() { return 1; } int f() { return 2; }"),
        Err(SemanticError::FunctionAlreadyDeclared("f".to_string()))
    );
}

#[test]
fn test_argument_count_mismatch() {
    assert_eq!(
        check("int f(int a) { return a; } int main() { return f(1, 2); }"),
        Err(SemanticError::ArgCountMismatch("f".to_string(), 1, 2))
    );
}

#[test]
fn test_argument_type_mismatch() {
    assert_eq!(
        check("int f(int a) { return a; } int main() { return f(true); }"),
        Err(SemanticError::TypeMismatch(Type::Int, Type::Bool))
    );
}

#[test]
fn test_invalid_arithmetic() {
    assert_eq!(
        check("int main() { return 1 + true; }"),
        Err(SemanticError::InvalidBinaryOp(BinaryOp::Add, Type::Int, Type::Bool))
    );
}

#[test]
fn test_invalid_comparison() {
    assert_eq!(
        check("int main() { bool b = true < false; return 0; }"),
        Err(SemanticError::InvalidBinaryOp(BinaryOp::Less, Type::Bool, Type::Bool))
    );
}

#[test]
fn test_invalid_equality() {
    assert_eq!(
        check("int main() { bool b = 1 == true; return 0; }"),
        Err(SemanticError::InvalidBinaryOp(BinaryOp::Equal, Type::Int, Type::Bool))
    );
}

#[test]
fn test_equality_on_booleans() {
    assert_eq!(check("int main() { bool b = true != false; return 0; }"), Ok(()));
}

#[test]
fn test_print_int_of_bool() {
    assert_eq!(
        check("int main() { printInt(true); return 0; }"),
        Err(SemanticError::InvalidPrintIntType(Type::Bool))
    );
}

#[test]
fn test_if_condition_must_be_bool() {
    assert_eq!(
        check("int main() { if (1) { return 1; } return 0; }"),
        Err(SemanticError::InvalidConditionType(Type::Int))
    );
}

#[test]
fn test_while_condition_must_be_bool() {
    assert_eq!(
        check("int main() { while (0) { } return 0; }"),
        Err(SemanticError::InvalidConditionType(Type::Int))
    );
}

#[test]
fn test_first_error_wins() {
    // Functions are checked in order; the first error stops the analysis.
    assert_eq!(
        check("int a() { return x; } int b() { return y; }"),
        Err(SemanticError::VariableNotDeclared("x".to_string()))
    );
}

#[test]
fn test_second_analysis_is_rejected() {
    let p = program("int main() { return 0; }");
    let mut analyzer = SemanticAnalyzer::new();
    assert_eq!(analyzer.analyze(&p), Ok(()));
    assert_eq!(
        analyzer.analyze(&p),
        Err(SemanticError::FunctionAlreadyDeclared("main".to_string()))
    );
}

#[test]
fn test_semantic_error_messages() {
    assert_eq!(
        SemanticError::VariableNotDeclared("y".to_string()).message(),
        "Variable 'y' not declared"
    );
    assert_eq!(
        SemanticError::VariableAlreadyDeclared("x".to_string()).message(),
        "Variable 'x' already declared in this scope"
    );
    assert_eq!(
        SemanticError::TypeMismatch(Type::Int, Type::Bool).message(),
        "Type mismatch: expected Int, found Bool"
    );
    assert_eq!(
        SemanticError::FunctionNotDeclared("g".to_string()).message(),
        "Function 'g' not declared"
    );
    assert_eq!(
        SemanticError::FunctionAlreadyDeclared("f".to_string()).message(),
        "Function 'f' already declared"
    );
    assert_eq!(
        SemanticError::ArgCountMismatch("f".to_string(), 1, 12).message(),
        "Argument count mismatch for function 'f': expected 1, found 12"
    );
    assert_eq!(
        SemanticError::InvalidBinaryOp(BinaryOp::GreaterEqual, Type::Bool, Type::Int).message(),
        "Invalid operation 'GreaterEqual' on types Bool and Int"
    );
    assert_eq!(
        SemanticError::InvalidPrintIntType(Type::Bool).message(),
        "PrintInt expects Int, found Bool"
    );
    assert_eq!(
        SemanticError::InvalidConditionType(Type::Int).message(),
        "Condition expects Bool, found Int"
    );
    assert_eq!(
        SemanticError::MissingReturnValue("main".to_string(), Type::Int).message(),
        "Function 'main' must return a value of type Int"
    );
}

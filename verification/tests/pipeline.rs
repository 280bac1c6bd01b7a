use minimal_c_compiler::codegen::CodeGenerator;
use minimal_c_compiler::lexer::Lexer;
use minimal_c_compiler::parser::Parser;
use minimal_c_compiler::semantic_analyzer::SemanticAnalyzer;

#[test]
fn test_full_pipeline() {
    let input = r#"
            int factorial(int n) {
                if (n <= 1) return 1;
                return n * factorial(n - 1);
            }

            int main() {
                printInt(factorial(5));
                return 0;
            }
        "#;
    let lexer = Lexer::new(input);
    let mut parser = Parser::new(lexer);
    let program = parser.parse_program().unwrap();

    let mut analyzer = SemanticAnalyzer::new();
    analyzer.analyze(&program).unwrap();

    let mut codegen = CodeGenerator::new();
    let assembly = codegen.generate(&program);

    assert!(assembly.contains("factorial:"));
    assert!(assembly.contains("main:"));
    assert!(assembly.contains("call factorial"));
    assert!(assembly.contains("call printInt"));
}

#[test]
fn test_boolean_logic() {
    let input = r#"
            int main() {
                bool b = true;
                if (b == false) {
                    printInt(0);
                } else {
                    printInt(1);
                }
                return 0;
            }
        "#;
    let lexer = Lexer::new(input);
    let mut parser = Parser::new(lexer);
    let program = parser.parse_program().unwrap();

    let mut analyzer = SemanticAnalyzer::new();
    analyzer.analyze(&program).unwrap();

    let mut codegen = CodeGenerator::new();
    let _asm = codegen.generate(&program);
}

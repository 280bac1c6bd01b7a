use minimal_c_compiler::ast::Program;
use minimal_c_compiler::codegen::CodeGenerator;
use minimal_c_compiler::lexer::Lexer;
use minimal_c_compiler::parser::Parser;
use minimal_c_compiler::semantic_analyzer::SemanticAnalyzer;

fn program(input: &str) -> Program {
    let lexer = Lexer::new(input);
    let mut parser = Parser::new(lexer);
    let p = parser.parse_program().unwrap();
    let mut analyzer = SemanticAnalyzer::new();
    analyzer.analyze(&p).unwrap();
    p
}

fn compile(input: &str) -> String {
    let p = program(input);
    let mut codegen = CodeGenerator::new();
    assert!(codegen.can_generate(&p));
    codegen.generate(&p)
}

const HEADER: &str = ".intel_syntax noprefix\n.global main\n.extern printInt\n\n";

#[test]
fn test_minimal_function_exact() {
    let out = compile("int main() { return 5; }");
    let expected = format!(
        "{}main:\n  push rbp\n  mov rbp, rsp\n  mov rax, 5\n  jmp .L0\n.L0:\n  mov rsp, rbp\n  pop rbp\n  ret\n\n",
        HEADER
    );
    assert_eq!(out, expected);
}

#[test]
fn test_empty_program_is_header_only() {
    let out = compile("");
    assert_eq!(out, HEADER);
}

#[test]
fn test_params_and_locals_exact() {
    let out = compile("int add(int a, int b) { int c = a + b; return c; }");
    let expected = format!(
        "{}add:\n  push rbp\n  mov rbp, rsp\n  sub rsp, 32\n  mov [rbp -8], rdi\n  mov [rbp -16], rsi\n  mov rax, [rbp -8]\n  push rax\n  mov rax, [rbp -16]\n  mov rdi, rax\n  pop rax\n  add rax, rdi\n  mov [rbp -24], rax\n  mov rax, [rbp -24]\n  jmp .L0\n.L0:\n  mov rsp, rbp\n  pop rbp\n  ret\n\n",
        HEADER
    );
    assert_eq!(out, expected);
}

#[test]
fn test_if_else_labels() {
    let out = compile("int main() { if (true) printInt(1); else printInt(2); return 0; }");
    let expected = format!(
        "{}main:\n  push rbp\n  mov rbp, rsp\n  mov rax, 1\n  cmp rax, 0\n  je .L1\n  mov rax, 1\n  mov rdi, rax\n  call printInt\n  jmp .L2\n.L1:\n  mov rax, 2\n  mov rdi, rax\n  call printInt\n.L2:\n  mov rax, 0\n  jmp .L0\n.L0:\n  mov rsp, rbp\n  pop rbp\n  ret\n\n",
        HEADER
    );
    assert_eq!(out, expected);
}

#[test]
fn test_while_loop() {
    let out = compile("int main() { int i = 0; while (i < 3) { i = i + 1; } return i; }");
    assert!(out.contains("  sub rsp, 16\n  mov rax, 0\n  mov [rbp -8], rax\n.L1:\n  mov rax, [rbp -8]\n"));
    assert!(out.contains("  setl al\n  movzx rax, al\n  cmp rax, 0\n  je .L2\n"));
    assert!(out.contains("  mov [rbp -8], rax\n  jmp .L1\n.L2:\n"));
}

#[test]
fn test_operators() {
    let out = compile(
        "int main() { int a = 6 / 3 * 2 - 1; bool b = a == 1; b = a != 2; b = a <= 3; b = a > 4; b = a >= 5; return a; }",
    );
    assert!(out.contains("  cqo\n  idiv rdi\n"));
    assert!(out.contains("  imul rax, rdi\n"));
    assert!(out.contains("  sub rax, rdi\n"));
    assert!(out.contains("  cmp rax, rdi\n  sete al\n  movzx rax, al\n"));
    assert!(out.contains("  setne al\n"));
    assert!(out.contains("  setle al\n"));
    assert!(out.contains("  setg al\n"));
    assert!(out.contains("  setge al\n"));
}

#[test]
fn test_literals() {
    let out = compile("int main() { bool t = true; bool f = false; return 2147483647; }");
    assert!(out.contains("  mov rax, 1\n  mov [rbp -8], rax\n"));
    assert!(out.contains("  mov rax, 0\n  mov [rbp -16], rax\n"));
    assert!(out.contains("  mov rax, 2147483647\n"));
}

#[test]
fn test_call_arguments_in_registers() {
    let out = compile("int g(int a, int b) { return a - b; } int main() { return g(7, 3); }");
    assert!(out.contains(
        "  mov rax, 7\n  push rax\n  mov rax, 3\n  push rax\n  pop rsi\n  pop rdi\n  call g\n"
    ));
    // The callee is the first function and takes label .L0; main takes .L1.
    assert!(out.contains("  jmp .L1\n.L1:\n"));
}

#[test]
fn test_call_padded_when_stack_is_misaligned() {
    let out = compile("int f() { return 1; } int main() { return 2 + f(); }");
    assert!(out.contains(
        "  mov rax, 2\n  push rax\n  sub rsp, 8\n  call f\n  add rsp, 8\n  mov rdi, rax\n  pop rax\n  add rax, rdi\n"
    ));
}

#[test]
fn test_print_int_not_padded_at_top_level() {
    let out = compile("int main() { printInt(3); return 0; }");
    assert!(out.contains("  mov rax, 3\n  mov rdi, rax\n  call printInt\n"));
    assert!(!out.contains("sub rsp, 8"));
}

#[test]
fn test_seventh_argument_stays_on_the_stack() {
    let out = compile(
        "int f(int a, int b, int c, int d, int e, int g, int h) { return a; } int main() { return f(1, 2, 3, 4, 5, 6, 7); }",
    );
    assert!(out.contains(
        "  pop r9\n  pop r8\n  pop rcx\n  pop rdx\n  pop rsi\n  pop rdi\n  sub rsp, 8\n  call f\n  add rsp, 8\n"
    ));
    // Seven parameters take 56 bytes, rounded up to 64; only six come in registers.
    assert!(out.contains("  sub rsp, 64\n"));
    assert!(out.contains("  mov [rbp -48], r9\n"));
    assert!(!out.contains("  mov [rbp -56], "));
}

#[test]
fn test_shadowed_name_gets_its_own_slot() {
    let out = compile("int main() { int x = 1; { int x = 2; } printInt(x); return 0; }");
    assert!(out.contains("  sub rsp, 16\n"));
    assert!(out.contains("  mov rax, 1\n  mov [rbp -8], rax\n"));
    assert!(out.contains("  mov rax, 2\n  mov [rbp -16], rax\n"));
    // After the block the outer `x` is the one printed.
    assert!(out.contains("  mov rax, [rbp -8]\n  mov rdi, rax\n  call printInt\n"));
}

#[test]
fn test_shadowing_initializer_reads_outer_variable() {
    let out = compile("int main() { int x = 1; { int x = x + 1; printInt(x); } return x; }");
    assert!(out.contains("  mov rax, [rbp -8]\n  push rax\n  mov rax, 1\n"));
    assert!(out.contains("  add rax, rdi\n  mov [rbp -16], rax\n"));
    assert!(out.contains("  mov rax, [rbp -16]\n  mov rdi, rax\n  call printInt\n"));
    assert!(out.contains("  mov rax, [rbp -8]\n  jmp .L0\n"));
}

#[test]
fn test_body_declaration_shadows_parameter() {
    let out = compile("int f(int a) { int a = 2; return a; }");
    assert!(out.contains("  mov [rbp -8], rdi\n"));
    assert!(out.contains("  mov rax, 2\n  mov [rbp -16], rax\n  mov rax, [rbp -16]\n"));
}

#[test]
fn test_labels_continue_across_programs() {
    let p = program("int main() { if (true) { } return 0; }");
    let mut codegen = CodeGenerator::new();
    let first = codegen.generate(&p);
    assert!(first.contains("  je .L1\n"));
    assert!(first.contains("  jmp .L0\n"));
    let second = codegen.generate(&p);
    assert!(second.starts_with(HEADER));
    assert!(second.contains("  je .L4\n"));
    assert!(second.contains("  jmp .L3\n"));
    assert!(!second.contains(".L0"));
}

#[test]
fn test_can_generate_rejects_unknown_variables() {
    let lexer = Lexer::new("int main() { return y; }");
    let mut parser = Parser::new(lexer);
    let p = parser.parse_program().unwrap();
    let codegen = CodeGenerator::new();
    assert!(!codegen.can_generate(&p));

    let lexer = Lexer::new("int main() { y = 1; return 0; }");
    let mut parser = Parser::new(lexer);
    let p = parser.parse_program().unwrap();
    assert!(!codegen.can_generate(&p));
}

#[test]
fn test_can_generate_rejects_use_before_declaration() {
    let lexer = Lexer::new("int main() { y = 1; int y; return y; }");
    let mut parser = Parser::new(lexer);
    let p = parser.parse_program().unwrap();
    let codegen = CodeGenerator::new();
    assert!(!codegen.can_generate(&p));
}

#[test]
fn test_can_generate_rejects_name_after_its_block() {
    let lexer = Lexer::new("int main() { { int z = 1; } return z; }");
    let mut parser = Parser::new(lexer);
    let p = parser.parse_program().unwrap();
    let codegen = CodeGenerator::new();
    assert!(!codegen.can_generate(&p));
}

#[test]
fn test_pushes_and_pops_balance() {
    let out = compile(
        "int f(int a, int b) { return a * b; } int main() { int x = (1 + 2) * f(3, 4 - 1); printInt(x + f(x, x)); return x; }",
    );
    let pushes = out.matches("  push rax\n").count();
    let pops = out.matches("  pop r").count() - out.matches("  pop rbp\n").count();
    assert_eq!(pushes, pops);
    assert!(pushes > 0);
}

#[test]
fn test_every_function_gets_one_label_and_branches_two() {
    let p = program(
        "int a() { return 1; } int b() { while (false) { if (true) { } } return 2; } int main() { return 0; }",
    );
    let mut codegen = CodeGenerator::new();
    let out = codegen.generate(&p);
    // 1 + (1 + 4) + 1 = 7 labels: .L0 .. .L6.
    assert!(out.contains(".L6:\n"));
    assert!(!out.contains(".L7"));
    let again = codegen.generate(&p);
    assert!(again.contains(".L7:\n"));
}

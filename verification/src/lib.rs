pub mod assoc;
pub mod ast;
pub mod codegen;
pub mod codegen_laws;
pub mod lexer;
pub mod parser;
pub mod semantic_analyzer;
pub mod text;

pub mod ast;
pub mod namemap;
pub mod token;
pub mod typecheck;
pub mod symbol;
pub mod codegen;
pub mod peephole;
pub mod optimizer;
pub mod liveness;
pub mod text;
pub mod ir;
pub mod lexer;
pub mod parser;

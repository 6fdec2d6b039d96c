//! An interpreter for Brainfuck: lexer, structural parser and tree-walking
//! evaluator, each with a contract over a mathematical model.
pub mod lexer;
pub mod parser;
pub mod machine;
pub mod pipeline;
pub mod laws;

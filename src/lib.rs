pub mod lexer;
pub mod ir;
pub mod jumps;
pub mod interpreter;
pub mod laws;

pub mod scanner;
pub mod parser;
pub mod eval;

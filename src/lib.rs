//! A parser-combinator core: parsers are suspended computations over a scanner
//! state that thread the state from step to step and collect diagnostics
//! without ever stopping the parse.
pub mod parser;
pub mod scanner;

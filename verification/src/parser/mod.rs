//! The YAML 1.2 scanner and event parser.
pub mod events;
pub mod lexeme;
pub mod loader;
pub mod scanner;
pub mod token;

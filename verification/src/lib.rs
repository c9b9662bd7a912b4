//! Parsing, checking and rendering of Ott language specifications.

pub mod text;
pub mod error;
pub mod bind;
pub mod chars;
pub mod ast;
pub mod parser;
pub mod check;
pub mod render;
pub mod template;
pub mod termlex;
pub mod grammar;
pub mod earley;
pub mod syntax;
pub mod plugin;

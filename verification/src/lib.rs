//! A minimal language front-end and evaluator for a tiny toy language:
//! lexical analysis (`token`), syntactic analysis (`parser`) over the
//! abstract syntax tree (`ast`), and tree-walking evaluation (`interpreter`).
//! The `render` module closes the circle: it proves that rendering any
//! well-formed program to source text and sending it back through the
//! pipeline yields exactly that program.

pub mod ast;
pub mod interpreter;
pub mod parser;
pub mod render;
pub mod token;

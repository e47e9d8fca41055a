//! Script descriptor language: the AST of script fragments, its
//! serialization into Bitcoin Script, and its parsers.

pub mod ast;
pub mod debug;
pub mod canon;
pub mod display;
pub mod elem;
pub mod error;
pub mod expression;
pub mod lex;
pub mod parse;
pub mod printed;
pub mod keys;
pub mod script;
pub mod serialize;
pub mod text;
pub mod translate;

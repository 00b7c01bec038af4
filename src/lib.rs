//! A compiler for a small statically typed, indentation-structured language that renders
//! checked programs as Lua source: block tree, tokens, parse, type check, code generation.

pub mod ast;
pub mod block_tree;
pub mod checker;
pub mod compiler;
pub mod env;
pub mod error;
pub mod lexer;
pub mod lua;
pub mod matcher;
pub mod parser;
pub mod symtab;
pub mod text;
pub mod token;
pub mod tokenizer;
pub mod traveler;

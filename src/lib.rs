//! A small front end for a language of immutable `let` bindings: a parser
//! from source text to statements, an evaluator that fills a symbol table,
//! and a parser for an EBNF-like notation that describes grammars.
pub mod grammar;
pub mod interpreter;
pub mod parser;
pub mod charclass;

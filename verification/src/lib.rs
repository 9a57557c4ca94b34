//! An inverted term-frequency index over text documents.
//!
//! A document is read line by line ([`reader`]), cut into tokens
//! ([`lexer`]), each token is folded to its canonical term ([`term`]), and
//! the occurrences of every term are counted ([`termfreq`], [`document`]).
//! The tables of all documents make up the index ([`store`], [`corpus`]),
//! which is persisted as JSON ([`json`]) and loaded again by later runs
//! ([`indexer`]).

pub mod chars;
pub mod corpus;
pub mod document;
pub mod error;
pub mod indexer;
pub mod json;
pub mod lexer;
pub mod reader;
pub mod store;
pub mod strmap;
pub mod term;
pub mod termfreq;

//! Converts an HTML document into builder-style call syntax: every tag becomes
//! a call, every attribute a chained call, every child a chained `.child(..)`.

pub mod emit;
pub mod parse;
pub mod text;
pub mod tree;

pub use parse::html2sl;

#![allow(unused_imports)]
use vstd::prelude::*;

pub mod config;
pub mod errors;
pub mod grammar;
pub mod resolver;
pub mod stripper;
pub mod strutil;

pub use errors::Error;
pub use grammar::create_parser;
pub use grammar::gen_tree;
pub use grammar::GrammarParser;
pub use stripper::strip_nodes;
pub use stripper::strip_nodes_no_ws;
pub use stripper::SyntaxNode;
pub use resolver::find_tree_sitter_function;
pub use resolver::select_candidate;

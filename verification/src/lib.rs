//! The document model of a structured text editor: node and mark types,
//! content expressions compiled to automata, marks, fragments, nodes,
//! resolved positions, slices and the replace algorithm.

pub mod attrs;
pub mod util;
pub mod decimal;
pub mod schema;
pub mod content;
pub mod content_expr;
pub mod automaton;
pub mod language;
pub mod only_words;
pub mod mark;
pub mod node;
pub mod fragment;
pub mod matching;
pub mod fill;
pub mod wrap;
pub mod diff;
pub mod resolvedpos;
pub mod replace;

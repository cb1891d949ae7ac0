//! An interpreter for a minimal untyped lambda calculus whose only contact
//! with the outside world is the emission and consumption of single bits.
//!
//! Source text is cut into tokens (`tokenizer`), the tokens are parsed into a
//! syntax tree (`parser`), the names of the tree are resolved to environment
//! slots and the tree becomes a graph in which alike expressions are shared
//! (`transformer`), and the graph is evaluated (`runner`). What evaluation
//! means is said once, without any memory of earlier results, in `semantics`;
//! the evaluator, which remembers the results of pure applications, is proved
//! to give what that meaning gives. `bitio` packs and unpacks the bits,
//! `interpreter` puts the steps together, and `text` holds what they share
//! for handling text.

pub mod bitio;
pub mod interpreter;
pub mod parser;
pub mod runner;
pub mod semantics;
pub mod text;
pub mod tokenizer;
pub mod transformer;

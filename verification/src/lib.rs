//! A small indentation-sensitive behaviour-specification language
//! (GIVEN/WHEN/THEN scenarios, optionally grouped) and the engine that
//! folds a parsed document into a deduplicated bipartite graph of
//! places and transitions.

pub mod ast;
pub mod text;
pub mod grammar;
pub mod parser;
pub mod pgraph;
pub mod model;
pub mod render;
pub mod laws;

pub use ast::{AST, GSNode, Group, Step, GWTNode, SyntaxError};
pub use parser::{parse, keyword, given, then_clause, gwt, working_on, step, group, compress_step};
pub use model::{Model, Transition, build_model};
pub use render::split_label;

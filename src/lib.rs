//! A structural rewrite engine for typed syntax trees.
//!
//! - `node`: nodes, their kinds, spans and attributes, and their mathematical
//!   value (`Tree`).
//! - `bindings`, `matcher`, `subst`, `fold`: a matcher with named placeholders,
//!   template substitution and a rewriting fold over a whole tree.
//! - `cfg_attr`: the protocol that keeps conditional attribute directives
//!   across a pass that evaluates them.
//! - `scripting`, `dynamic`, `use_tree`, `marks`: the layer that a scripting
//!   host drives: kind dispatch, node builders, the records that scripts see
//!   of nodes, use-item descriptions and grouped marks.
pub mod error;
pub mod node;
pub mod bindings;
pub mod matcher;
pub mod subst;
pub mod fold;
pub mod cfg_attr;
pub mod scripting;
pub mod marks;
pub mod dynamic;
pub mod use_tree;

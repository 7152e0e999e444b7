//! The evaluator: runtime values, the environment of bindings, the builtin
//! functions and the tree walk that ties them together.

pub mod builtins;
pub mod env;
pub mod error;
pub mod evaluator;
pub mod value;

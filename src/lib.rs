//! A small query language for JSON documents.
//!
//! A program such as `.items@p($_k,.id)` names a path through a document
//! (the selector chain) and the builtin calls to make on what it selects,
//! once per element or entry. `parse` reads a program into a `Script`,
//! `execute` runs it on a `JsonValue` and lists the builtin calls with their
//! evaluated arguments as `Effect`s, for the caller to carry out.

pub mod engine;
pub mod grammar;
pub mod parse;
pub mod render;
pub mod round_trip;
pub mod runtime;
pub mod script;
pub mod select;
pub mod value;

pub use engine::{
    batch_evaluate, evaluate, execute, make_builtin_funcs, print_line, run_array_action, run_foreach_action,
    run_forself_action, run_function, run_object_action, run_single_action, Builtin, BuiltinFuncs, Effect, FunctionPrototype,
};
pub use parse::parse;
pub use render::render;
pub use runtime::Runtime;
pub use script::{
    ActionError, ActionExpr, ActionMode, ArraySlice, EvalError, Function, JkError, Jop,
    ObjectSelector, ParseError, QueryError, Script,
};
pub use select::{apply, select};
pub use value::{JsonNumber, JsonValue, JsonView};

//! The reader of a Scheme implementation: it reads program text into a concrete
//! parse tree, builds a typed abstract syntax tree from it, and defines the runtime
//! values with their written forms and the chain of scope frames that binds names.

pub mod ast;
pub mod env;
pub mod literal;
pub mod reader;
pub mod text;
pub mod tree;
pub mod value;
pub mod vars;

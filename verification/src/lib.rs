//! Code generator for the Nova language: lowers a typed syntax tree to
//! instructions for a stack machine.
//!
//! - [`nodes`], [`tokens`]: the syntax tree and its type and operator tags.
//! - [`code`]: the instructions. [`table`], [`gen`]: symbol tables and the
//!   label generator. [`error`]: diagnostics.
//! - [`lowering`]: what every form lowers to, as spec functions.
//! - [`codegen`]: the compilation context and the functions that lower
//!   into it, each proved to emit exactly what [`lowering`] says.
//! - [`frame`], [`fresh`], [`targets`], [`stack`], [`effect`], [`shape`],
//!   [`paths`]: what a lowering leaves alone, that labels are fresh and
//!   unique, that every jump has its label, the stack effect of the
//!   emitted instructions, and that the paths of a branch meet at equal
//!   depth.
//! - [`laws`]: the laws that follow from these.

pub mod code;
pub mod codegen;
pub mod effect;
pub mod error;
pub mod frame;
pub mod fresh;
pub mod gen;
pub mod laws;
pub mod lowering;
pub mod nodes;
pub mod paths;
pub mod shape;
pub mod stack;
pub mod table;
pub mod targets;
pub mod tokens;

pub use codegen::{new, Compiler};

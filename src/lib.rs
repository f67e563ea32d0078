//! An interpreter for numerical-control part programs (G-code extended with
//! variables, expressions, arrays, control flow and frame operations).
//!
//! Programs arrive as a tree of rule-tagged nodes (`ast::Node`). The
//! interpreter walks the blocks of that tree, updates the interpreter state
//! and appends one row per executed block; the finalizer turns the rows into
//! a typed, column-ordered table with modal forward-fill.
//!
//! Numbers are fixed-point decimals: an `i64` counting millionths
//! (`num::SCALE` units per whole unit). Every stored value stays within
//! `-i64::MAX ..= i64::MAX`; an operation whose result leaves that range, or
//! that divides by zero, fails with `ArithmeticError`.
//!
//! Modules, leaves first:
//! - `num`: fixed-point arithmetic and decimal literals;
//! - `names`: the names of array cells;
//! - `ast`: grammar rules, parse-tree nodes and the G-group table;
//! - `errors`: the error type;
//! - `keyed`: lists of named values, a later entry overriding an earlier one;
//! - `state`: variables, axes, translations and limits;
//! - `row`: output rows and the M-command limit;
//! - `eval`: expressions and variable references;
//! - `assign`: assignments, definitions, frame operations and conditions;
//! - `interp`: statements, blocks and control flow, with the run
//!   specification they agree with;
//! - `table`: the finalizer;
//! - `program`: whole runs.
use vstd::prelude::*;

pub mod assign;
pub mod ast;
pub mod errors;
pub mod eval;
pub mod interp;
pub mod keyed;
pub mod names;
pub mod num;
pub mod program;
pub mod row;
pub mod state;
pub mod table;

verus! {

} // verus!

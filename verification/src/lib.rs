//! Construction of static single assignment (SSA) form for a small
//! imperative language: every write to a variable receives a fresh version,
//! every read resolves to exactly one reaching definition, and blocks with
//! several predecessors receive explicit merge operators (phi nodes).
//!
//! The algorithm renames variables on the fly while the control-flow graph
//! is built, inserting phi nodes on demand, deferring operand resolution for
//! blocks whose predecessor set is not yet final ("sealing"), and collapsing
//! trivial phi nodes so that the output is minimal SSA.

pub mod syntax;
pub mod context;
pub mod optimizer;
pub mod renamer;
pub mod builder;
pub mod laws;

//! The closed statement and expression shapes that SSA construction
//! understands, and the symbolic values the construction produces.

use vstd::prelude::*;

verus! {

/// Index of a variable in a procedure's name table.
pub type VarId = usize;

/// Index of a basic block in the context's block arena.
pub type BlockId = usize;

/// Index of a phi node in the context's phi arena.
pub type PhiId = usize;

/// An SSA value: a versioned variable occurrence, a reference to a phi
/// node, or the placeholder for a read that no write ever reaches.
#[derive(Clone, Copy, PartialEq, Eq, Structural, Debug)]
pub enum SsaValue {
    /// Occurrence of variable `var` with version `version`; versions per
    /// variable are allocated by a monotone counter, so no two writes of
    /// the same variable share a version.
    Var { var: VarId, version: usize },
    /// Reference to the phi node with this arena index.
    Phi { phi: PhiId },
    /// Documented placeholder for a read with no reaching definition:
    /// the build records a diagnostic and continues.
    Undef { var: VarId },
}

/// Symbolic rendering of one versioned variable: a source name together
/// with its version number.
pub struct SymbolValue {
    pub name: String,
    /// Version of the variable this occurrence denotes.
    pub count: usize,
}

impl SymbolValue {
    /// The symbol for the first version of `name`.
    pub fn new(name: &String) -> (r: SymbolValue)
        ensures
            r.name@ == name@,
            r.count == 0,
    {
        SymbolValue { name: name.clone(), count: 0 }
    }
}

/// An expression of the source language, reduced to the shapes the
/// renamer must understand: a variable read, an operation with one or two
/// operands, or an opaque leaf (a literal, a call, anything without
/// variable occurrences the renamer tracks).
#[derive(Debug)]
pub enum Expr {
    Var(VarId),
    Op(Box<Expr>, Option<Box<Expr>>),
    Opaque,
}

/// A statement of the source language, reduced to a closed set of shapes:
/// assignment, two-way conditional, loop, sequencing, and an opaque
/// pass-through for everything else.
#[derive(Debug)]
pub enum Stmt {
    /// `x = e`
    Assign(VarId, Expr),
    /// `if c { a } else { b }`; the else branch may be absent.
    If(Expr, Box<Stmt>, Option<Box<Stmt>>),
    /// `while c { body }`
    While(Expr, Box<Stmt>),
    /// `a; b`
    Chain(Box<Stmt>, Box<Stmt>),
    /// A statement the renamer passes through unmodified.
    Opaque,
}

/// An expression after renaming: each variable occurrence carries the SSA
/// value it resolved to.
#[derive(Debug)]
pub enum SsaExpr {
    Var(SsaValue),
    Op(Box<SsaExpr>, Option<Box<SsaExpr>>),
    Opaque,
}

/// A statement after renaming. Control flow keeps its shape; every read
/// and every written variable carries its SSA value.
#[derive(Debug)]
pub enum SsaStmt {
    /// The written variable's fresh SSA value, and the renamed right side.
    Assign(SsaValue, SsaExpr),
    If(SsaExpr, Box<SsaStmt>, Option<Box<SsaStmt>>),
    While(SsaExpr, Box<SsaStmt>),
    Chain(Box<SsaStmt>, Box<SsaStmt>),
    Opaque,
}

/// One procedure handed to the builder: the source names of its variables
/// (a variable is identified by its index in this table) and its body.
#[derive(Debug)]
pub struct Procedure {
    pub names: Vec<String>,
    pub body: Stmt,
}

/// A top-level declaration: only function-like declarations with a body
/// are processed by SSA construction; everything else passes through.
#[derive(Debug)]
pub enum Decl {
    Function(Procedure),
    Other,
}

/// Why a procedure's build failed.
#[derive(Clone, Copy, PartialEq, Eq, Structural, Debug)]
pub enum StructuralKind {
    /// A variable occurrence whose index lies outside the procedure's
    /// name table.
    UnknownVar,
    /// The version counter of a variable cannot grow any further.
    VersionOverflow,
}

/// Malformed input for one procedure, fatal for that procedure only:
/// sibling declarations are still processed. `pos` is the preorder
/// index of the offending statement in the procedure body.
#[derive(Clone, Copy, PartialEq, Eq, Structural, Debug)]
pub struct StructuralError {
    pub kind: StructuralKind,
    pub pos: usize,
    pub var: VarId,
}

/// Record of a read that no write reaches: the variable and the block
/// where the read was resolved. Non-fatal; the build continues with an
/// undefined-value placeholder.
#[derive(Clone, Copy, PartialEq, Eq, Structural, Debug)]
pub struct Diagnostic {
    pub var: VarId,
    pub block: BlockId,
}

} // verus!

//! The CFG builder and driver: it walks one procedure's statement tree,
//! splitting it into basic blocks, wiring branch, merge and loop edges,
//! sealing each block as soon as its predecessor set is final, and
//! renaming every variable occurrence on the fly. A final pass follows
//! replacement links so the output mentions no collapsed phi node.
//!
//! The walk's contract is the relation `walk_rel`: the output statement
//! mirrors the input shape for shape, every assignment carries a
//! `write_step` value, every read a `read_step` result, and the blocks
//! are created, wired and sealed exactly as the arms describe.

use vstd::prelude::*;
use crate::syntax::{
    BlockId, Decl, Expr, Procedure, SsaExpr, SsaStmt, SsaValue, Stmt, StructuralError,
    StructuralKind,
};
use crate::context::{def_of, final_of, inv, tracks, SsaContext};
use crate::renamer::{read_step, seal_step, write_step};
use crate::optimizer::is_trivial;

verus! {

/// The declaration sequence handed to the builder.
pub type AST = Vec<Decl>;

/// Every variable occurrence in `e` lies inside a name table of `n`
/// entries.
pub open spec fn expr_wf(e: Expr, n: int) -> bool
    decreases e,
{
    match e {
        Expr::Var(x) => x < n,
        Expr::Op(a, b) => expr_wf(*a, n) && (b is Some ==> expr_wf(*b->0, n)),
        Expr::Opaque => true,
    }
}

/// Every variable occurrence in `s` lies inside a name table of `n`
/// entries.
pub open spec fn stmt_wf(s: Stmt, n: int) -> bool
    decreases s,
{
    match s {
        Stmt::Assign(x, e) => x < n && expr_wf(e, n),
        Stmt::If(c, t, e) => expr_wf(c, n) && stmt_wf(*t, n)
            && (e is Some ==> stmt_wf(*e->0, n)),
        Stmt::While(c, body) => expr_wf(c, n) && stmt_wf(*body, n),
        Stmt::Chain(a, b) => stmt_wf(*a, n) && stmt_wf(*b, n),
        Stmt::Opaque => true,
    }
}

/// How many assignments to variable `x` the statement holds. The
/// version counter of `x` advances exactly at these, so a build can
/// run out of versions only when this count exceeds the counter's
/// machine range.
pub open spec fn writes_in(s: Stmt, x: int) -> nat
    decreases s,
{
    match s {
        Stmt::Assign(y, e) => if y == x { 1nat } else { 0nat },
        Stmt::If(c, t, e) => writes_in(*t, x)
            + (if e is Some { writes_in(*e->0, x) } else { 0nat }),
        Stmt::While(c, body) => writes_in(*body, x),
        Stmt::Chain(a, b) => writes_in(*a, x) + writes_in(*b, x),
        Stmt::Opaque => 0nat,
    }
}

/// Every value in `e` is its own final value: the output of a build
/// never mentions a collapsed phi node.
pub open spec fn expr_resolved(c: SsaContext, e: SsaExpr) -> bool
    decreases e,
{
    match e {
        SsaExpr::Var(v) => final_of(c, v) == v,
        SsaExpr::Op(a, b) => expr_resolved(c, *a) && (b is Some ==> expr_resolved(c, *b->0)),
        SsaExpr::Opaque => true,
    }
}

/// Every value in `s` is its own final value.
pub open spec fn stmt_resolved(c: SsaContext, s: SsaStmt) -> bool
    decreases s,
{
    match s {
        SsaStmt::Assign(v, e) => final_of(c, v) == v && expr_resolved(c, e),
        SsaStmt::If(cond, t, e) => expr_resolved(c, cond) && stmt_resolved(c, *t)
            && (e is Some ==> stmt_resolved(c, *e->0)),
        SsaStmt::While(cond, body) => expr_resolved(c, cond) && stmt_resolved(c, *body),
        SsaStmt::Chain(a, b) => stmt_resolved(c, *a) && stmt_resolved(c, *b),
        SsaStmt::Opaque => true,
    }
}

/// `r` is `a` with the same shape, every value followed through its
/// replacement link, and every non-variable node untouched — the
/// output-rewrite relation.
pub open spec fn expr_resolved_of(c: SsaContext, a: SsaExpr, r: SsaExpr) -> bool
    decreases a,
{
    match (a, r) {
        (SsaExpr::Var(v), SsaExpr::Var(w)) => w == final_of(c, v),
        (SsaExpr::Op(x, y), SsaExpr::Op(rx, ry)) => expr_resolved_of(c, *x, *rx)
            && match (y, ry) {
                (Some(y2), Some(ry2)) => expr_resolved_of(c, *y2, *ry2),
                (None, None) => true,
                _ => false,
            },
        (SsaExpr::Opaque, SsaExpr::Opaque) => true,
        _ => false,
    }
}

/// `r` is `a` with every value followed through its replacement link
/// and every non-variable node untouched.
pub open spec fn stmt_resolved_of(c: SsaContext, a: SsaStmt, r: SsaStmt) -> bool
    decreases a,
{
    match (a, r) {
        (SsaStmt::Assign(v, e), SsaStmt::Assign(w, re)) => w == final_of(c, v)
            && expr_resolved_of(c, e, re),
        (SsaStmt::If(cond, t, e), SsaStmt::If(rc, rt, re)) => expr_resolved_of(c, cond, rc)
            && stmt_resolved_of(c, *t, *rt)
            && match (e, re) {
                (Some(e2), Some(re2)) => stmt_resolved_of(c, *e2, *re2),
                (None, None) => true,
                _ => false,
            },
        (SsaStmt::While(cond, body), SsaStmt::While(rc, rb)) => expr_resolved_of(c, cond, rc)
            && stmt_resolved_of(c, *body, *rb),
        (SsaStmt::Chain(x, y), SsaStmt::Chain(rx, ry)) => stmt_resolved_of(c, *x, *rx)
            && stmt_resolved_of(c, *y, *ry),
        (SsaStmt::Opaque, SsaStmt::Opaque) => true,
        _ => false,
    }
}

/// `c2` is `c1` with exactly one fresh block appended: the given
/// predecessors, the given seal state, no definitions, no bookkeeping.
pub open spec fn fresh_block(c1: SsaContext, c2: SsaContext, nb: BlockId,
    preds: Seq<BlockId>, sealed: bool) -> bool {
    &&& nb == c1.blocks@.len()
    &&& c2.blocks@.len() == c1.blocks@.len() + 1
    &&& c2.blocks@[nb as int].preds@ == preds
    &&& c2.blocks@[nb as int].sealed == sealed
    &&& c2.blocks@[nb as int].incomplete@.len() == 0
    &&& forall|x: int| 0 <= x < c1.num_vars ==> def_of(c2, nb as int, x) is None
    &&& forall|i: int| 0 <= i < c1.blocks@.len() ==> #[trigger] c2.blocks@[i] == c1.blocks@[i]
    &&& c2.phis@ == c1.phis@
    &&& c2.versions@ == c1.versions@
    &&& c2.diagnostics@ == c1.diagnostics@
    &&& c2.num_vars == c1.num_vars
}

/// `c2` is `c1` with one predecessor edge `from -> to` appended.
pub open spec fn edge_step(c1: SsaContext, c2: SsaContext, from: BlockId, to: BlockId)
    -> bool {
    &&& c2.blocks@.len() == c1.blocks@.len()
    &&& c2.blocks@[to as int].preds@ == c1.blocks@[to as int].preds@.push(from)
    &&& c2.blocks@[to as int].sealed == c1.blocks@[to as int].sealed
    &&& c2.blocks@[to as int].defs@ == c1.blocks@[to as int].defs@
    &&& c2.blocks@[to as int].incomplete@ == c1.blocks@[to as int].incomplete@
    &&& forall|i: int| 0 <= i < c1.blocks@.len() && i != to
            ==> #[trigger] c2.blocks@[i] == c1.blocks@[i]
    &&& c2.phis@ == c1.phis@
    &&& c2.versions@ == c1.versions@
    &&& c2.diagnostics@ == c1.diagnostics@
    &&& c2.num_vars == c1.num_vars
}

/// A walk stage: the block the construction continues at exists in
/// the intermediate context. The stages of the relations below are
/// tied together through this predicate.
pub open spec fn stage(c: SsaContext, b: BlockId) -> bool {
    b < c.blocks@.len()
}

/// The renaming relation for expressions: the output mirrors the input
/// shape for shape, and every variable occurrence carries the result of
/// one `read_step` in block `b`, threaded left to right.
pub open spec fn rename_rel(c1: SsaContext, b: BlockId, e: Expr, c2: SsaContext, r: SsaExpr)
    -> bool
    decreases e,
{
    match e {
        Expr::Var(x) => match r {
            SsaExpr::Var(v) => read_step(c1, c2, x, b, v),
            _ => false,
        },
        Expr::Op(a, y) => match r {
            SsaExpr::Op(ra, ry) => match (y, ry) {
                (Some(y2), Some(ry2)) => exists|cm: SsaContext| {
                    &&& #[trigger] stage(cm, b)
                    &&& rename_rel(c1, b, *a, cm, *ra)
                    &&& rename_rel(cm, b, *y2, c2, *ry2)
                },
                (None, None) => rename_rel(c1, b, *a, c2, *ra),
                _ => false,
            },
            _ => false,
        },
        Expr::Opaque => r == SsaExpr::Opaque && c2 == c1,
    }
}

/// The walk relation: what one statement does to the context, block by
/// block. Branch targets and merge blocks are created sealed; a loop
/// header is created unsealed, its condition renamed inside it, and it
/// is sealed once the back edge from the body's last block is wired;
/// the walk continues in the loop's exit block.
pub open spec fn walk_rel(c1: SsaContext, cur: BlockId, s: Stmt, c2: SsaContext,
    end: BlockId, out: SsaStmt) -> bool
    decreases s,
{
    match s {
        Stmt::Assign(x, e) => match out {
            SsaStmt::Assign(lhs, rhs) => end == cur && exists|cm: SsaContext| {
                &&& #[trigger] stage(cm, cur)
                &&& rename_rel(c1, cur, e, cm, rhs)
                &&& write_step(cm, c2, x, cur, lhs)
            },
            _ => false,
        },
        Stmt::If(c, t, e) => match out {
            SsaStmt::If(rc, rt, re) => exists|ca: SsaContext, cb: SsaContext, cc: SsaContext,
                tb: BlockId, t_end: BlockId| {
                &&& #[trigger] stage(ca, cur)
                &&& #[trigger] stage(cb, tb)
                &&& #[trigger] stage(cc, t_end)
                &&& rename_rel(c1, cur, c, ca, rc)
                &&& fresh_block(ca, cb, tb, seq![cur], true)
                &&& walk_rel(cb, tb, *t, cc, t_end, *rt)
                &&& match (e, re) {
                    (Some(e2), Some(re2)) => exists|cd: SsaContext, ce: SsaContext,
                        eb: BlockId, e_end: BlockId| {
                        &&& #[trigger] stage(cd, eb)
                        &&& #[trigger] stage(ce, e_end)
                        &&& fresh_block(cc, cd, eb, seq![cur], true)
                        &&& walk_rel(cd, eb, *e2, ce, e_end, *re2)
                        &&& fresh_block(ce, c2, end, seq![t_end, e_end], true)
                    },
                    (None, None) => fresh_block(cc, c2, end, seq![cur, t_end], true),
                    _ => false,
                }
            },
            _ => false,
        },
        Stmt::While(c, body) => match out {
            SsaStmt::While(rc, rb) => exists|ch: SsaContext, ca: SsaContext, cb: SsaContext,
                cc: SsaContext, cd: SsaContext, ce: SsaContext, header: BlockId,
                bb: BlockId, b_end: BlockId| {
                &&& #[trigger] stage(ch, header)
                &&& #[trigger] stage(ca, header)
                &&& #[trigger] stage(cb, bb)
                &&& #[trigger] stage(cc, b_end)
                &&& #[trigger] stage(cd, header)
                &&& #[trigger] stage(ce, header)
                &&& fresh_block(c1, ch, header, seq![cur], false)
                &&& rename_rel(ch, header, c, ca, rc)
                &&& fresh_block(ca, cb, bb, seq![header], true)
                &&& walk_rel(cb, bb, *body, cc, b_end, *rb)
                &&& edge_step(cc, cd, b_end, header)
                &&& seal_step(cd, ce, header)
                &&& fresh_block(ce, c2, end, seq![header], true)
            },
            _ => false,
        },
        Stmt::Chain(a, b) => match out {
            SsaStmt::Chain(ra, rb) => exists|cm: SsaContext, mid: BlockId| {
                &&& #[trigger] stage(cm, mid)
                &&& walk_rel(c1, cur, *a, cm, mid, *ra)
                &&& walk_rel(cm, mid, *b, c2, end, *rb)
            },
            _ => false,
        },
        Stmt::Opaque => out == SsaStmt::Opaque && c2 == c1 && end == cur,
    }
}

/// Check every variable occurrence of `e` against the name table size.
/// Returns the error exactly when some occurrence is out of range.
fn check_expr(e: &Expr, n: usize, pos: usize) -> (r: Result<(), StructuralError>)
    ensures
        r is Ok <==> expr_wf(*e, n as int),
        r is Err ==> r->Err_0.var >= n && r->Err_0.pos == pos
            && r->Err_0.kind == StructuralKind::UnknownVar,
    decreases *e,
{
    match e {
        Expr::Var(x) => {
            if *x < n {
                Ok(())
            } else {
                Err(StructuralError { kind: StructuralKind::UnknownVar, pos, var: *x })
            }
        },
        Expr::Op(a, b) => {
            check_expr(a, n, pos)?;
            match b {
                Some(b2) => check_expr(b2, n, pos),
                None => Ok(()),
            }
        },
        Expr::Opaque => Ok(()),
    }
}

/// Check every statement of the tree, numbering statements in preorder.
/// Returns the next free position, or the first offending occurrence.
fn validate_stmt(s: &Stmt, n: usize, pos: usize) -> (r: Result<usize, StructuralError>)
    ensures
        r is Ok <==> stmt_wf(*s, n as int),
        r is Ok ==> r->Ok_0 >= pos,
        r is Err ==> r->Err_0.var >= n && r->Err_0.kind == StructuralKind::UnknownVar,
    decreases *s,
{
    let next = if pos < usize::MAX { pos + 1 } else { pos };
    match s {
        Stmt::Assign(x, e) => {
            if *x >= n {
                return Err(StructuralError { kind: StructuralKind::UnknownVar, pos, var: *x });
            }
            check_expr(e, n, pos)?;
            Ok(next)
        },
        Stmt::If(c, t, e) => {
            check_expr(c, n, pos)?;
            let p2 = validate_stmt(t, n, next)?;
            match e {
                Some(e2) => validate_stmt(e2, n, p2),
                None => Ok(p2),
            }
        },
        Stmt::While(c, body) => {
            check_expr(c, n, pos)?;
            validate_stmt(body, n, next)
        },
        Stmt::Chain(a, b) => {
            let p2 = validate_stmt(a, n, pos)?;
            validate_stmt(b, n, p2)
        },
        Stmt::Opaque => Ok(next),
    }
}

/// Rewrite one expression in block `b`: every variable read resolves to
/// its one reaching SSA value through the renamer, left to right.
fn rename_expr(ctx: &mut SsaContext, e: &Expr, b: BlockId) -> (r: SsaExpr)
    requires
        inv(*old(ctx)),
        expr_wf(*e, old(ctx).num_vars as int),
        b < old(ctx).blocks@.len(),
    ensures
        inv(*final(ctx)),
        rename_rel(*old(ctx), b, *e, *final(ctx), r),
        final(ctx).num_vars == old(ctx).num_vars,
        final(ctx).blocks@.len() == old(ctx).blocks@.len(),
        final(ctx).versions@ == old(ctx).versions@,
        forall|i: int| 0 <= i < old(ctx).blocks@.len()
            ==> (#[trigger] final(ctx).blocks@[i]).preds@ == old(ctx).blocks@[i].preds@
                && final(ctx).blocks@[i].sealed == old(ctx).blocks@[i].sealed,
    decreases *e,
{
    match e {
        Expr::Var(x) => {
            let v = ctx.read_variable(*x, b);
            SsaExpr::Var(v)
        },
        Expr::Op(a, b2) => {
            let ghost c1 = *ctx;
            let ra = rename_expr(ctx, a, b);
            let ghost cm = *ctx;
            match b2 {
                Some(e2) => {
                    let rb = rename_expr(ctx, e2, b);
                    let res = SsaExpr::Op(Box::new(ra), Some(Box::new(rb)));
                    proof {
                        let c2 = *ctx;
                        assert(stage(cm, b));
                        assert(rename_rel(c1, b, **a, cm, ra));
                        assert(rename_rel(cm, b, **e2, c2, rb));
                        assert(rename_rel(c1, b, *e, c2, res));
                    }
                    res
                },
                None => SsaExpr::Op(Box::new(ra), None),
            }
        },
        Expr::Opaque => SsaExpr::Opaque,
    }
}

/// Walk one statement: emit renamed statements into the current block,
/// and on control flow create the successor blocks, seal each as soon
/// as all its edges are wired, and return the block where execution
/// continues together with the next preorder statement position.
#[verifier::rlimit(60)]
fn on_block(ctx: &mut SsaContext, s: &Stmt, cur: BlockId, pos: usize)
    -> (res: Result<(BlockId, SsaStmt, usize), StructuralError>)
    requires
        inv(*old(ctx)),
        stmt_wf(*s, old(ctx).num_vars as int),
        cur < old(ctx).blocks@.len(),
        old(ctx).blocks@[cur as int].sealed,
    ensures
        inv(*final(ctx)),
        final(ctx).num_vars == old(ctx).num_vars,
        final(ctx).blocks@.len() >= old(ctx).blocks@.len(),
        forall|i: int| 0 <= i < old(ctx).blocks@.len()
            ==> (#[trigger] final(ctx).blocks@[i]).sealed == old(ctx).blocks@[i].sealed
                && final(ctx).blocks@[i].preds@ == old(ctx).blocks@[i].preds@,
        forall|x: int| 0 <= x < old(ctx).num_vars
            ==> final(ctx).versions@[x] <= old(ctx).versions@[x] + writes_in(*s, x),
        (forall|x: int| 0 <= x < old(ctx).num_vars
            ==> old(ctx).versions@[x] + #[trigger] writes_in(*s, x) <= usize::MAX)
            ==> res is Ok,
        res matches Ok(ok) ==> ok.0 < final(ctx).blocks@.len()
            && final(ctx).blocks@[ok.0 as int].sealed
            && ok.2 >= pos
            && walk_rel(*old(ctx), cur, *s, *final(ctx), ok.0, ok.1),
        res matches Err(err) ==> err.kind == StructuralKind::VersionOverflow
            && err.pos >= pos,
    decreases *s,
{
    let next = if pos < usize::MAX { pos + 1 } else { pos };
    match s {
        Stmt::Assign(x, e) => {
            let ghost c1 = *ctx;
            let rhs = rename_expr(ctx, e, cur);
            let ghost cm = *ctx;
            if ctx.versions[*x] == usize::MAX {
                proof {
                    assert(cm.versions@ == c1.versions@);
                    assert(writes_in(*s, *x as int) == 1);
                }
                return Err(StructuralError {
                    kind: StructuralKind::VersionOverflow,
                    pos,
                    var: *x,
                });
            }
            let lhs = ctx.write_variable(*x, cur);
            proof {
                let c2 = *ctx;
                assert(stage(cm, cur));
                assert(rename_rel(c1, cur, *e, cm, rhs));
                assert(write_step(cm, c2, *x, cur, lhs));
                assert(walk_rel(c1, cur, *s, c2, cur, SsaStmt::Assign(lhs, rhs)));
            }
            Ok((cur, SsaStmt::Assign(lhs, rhs), next))
        },
        Stmt::If(c, t, e) => {
            let ghost c1 = *ctx;
            let rc = rename_expr(ctx, c, cur);
            let ghost ca = *ctx;
            // one block per branch, each sealed at creation: its one
            // predecessor is the branch block
            let mut tp: Vec<BlockId> = Vec::new();
            tp.push(cur);
            let tb = ctx.new_block(tp, true);
            let ghost cb = *ctx;
            let (t_end, rt, p2) = match on_block(ctx, t, tb, next) {
                Ok(ok) => ok,
                Err(err) => {
                    proof {
                        let cf = *ctx;
                        assert forall|x: int| 0 <= x < c1.num_vars
                                && c1.versions@[x] + writes_in(*s, x) <= usize::MAX
                            implies cb.versions@[x] + #[trigger] writes_in(**t, x)
                                <= usize::MAX by {
                            assert(cb.versions@[x] == c1.versions@[x]);
                        }
                        assert forall|x: int| 0 <= x < c1.num_vars
                            implies cf.versions@[x]
                                <= c1.versions@[x] + writes_in(*s, x) by {
                            assert(cf.versions@[x] <= cb.versions@[x] + writes_in(**t, x));
                        }
                    }
                    return Err(err);
                },
            };
            let ghost cc = *ctx;
            match e {
                Some(e2) => {
                    let mut ep: Vec<BlockId> = Vec::new();
                    ep.push(cur);
                    let eb = ctx.new_block(ep, true);
                    let ghost cd = *ctx;
                    let (e_end, re, p3) = match on_block(ctx, e2, eb, p2) {
                        Ok(ok) => ok,
                        Err(err) => {
                            proof {
                                let cf = *ctx;
                                assert forall|x: int| 0 <= x < c1.num_vars
                                        && c1.versions@[x] + writes_in(*s, x)
                                            <= usize::MAX
                                    implies cd.versions@[x] + #[trigger] writes_in(**e2, x)
                                        <= usize::MAX by {
                                    assert(cd.versions@[x]
                                        <= c1.versions@[x] + writes_in(**t, x));
                                }
                                assert forall|x: int| 0 <= x < c1.num_vars
                                    implies cf.versions@[x]
                                        <= c1.versions@[x] + writes_in(*s, x) by {
                                    assert(cd.versions@[x]
                                        <= c1.versions@[x] + writes_in(**t, x));
                                    assert(cf.versions@[x]
                                        <= cd.versions@[x] + writes_in(**e2, x));
                                }
                            }
                            return Err(err);
                        },
                    };
                    let ghost ce = *ctx;
                    // merge block: both branch ends are known, so it is
                    // sealed at creation
                    let mut mp: Vec<BlockId> = Vec::new();
                    mp.push(t_end);
                    mp.push(e_end);
                    let merge = ctx.new_block(mp, true);
                    let res = SsaStmt::If(rc, Box::new(rt), Some(Box::new(re)));
                    proof {
                        let c2 = *ctx;
                        assert(cb.blocks@[tb as int].preds@ =~= seq![cur]);
                        assert(cd.blocks@[eb as int].preds@ =~= seq![cur]);
                        assert(c2.blocks@[merge as int].preds@ =~= seq![t_end, e_end]);
                        assert(stage(ca, cur) && stage(cb, tb) && stage(cc, t_end));
                        assert(stage(cd, eb) && stage(ce, e_end));
                        assert(rename_rel(c1, cur, *c, ca, rc));
                        assert(fresh_block(ca, cb, tb, seq![cur], true));
                        assert(walk_rel(cb, tb, **t, cc, t_end, rt));
                        assert(fresh_block(cc, cd, eb, seq![cur], true));
                        assert(walk_rel(cd, eb, **e2, ce, e_end, re));
                        assert(fresh_block(ce, c2, merge, seq![t_end, e_end], true));
                        assert(walk_rel(c1, cur, *s, c2, merge, res));
                        assert forall|x: int| 0 <= x < c1.num_vars
                            implies c2.versions@[x]
                                <= c1.versions@[x] + writes_in(*s, x) by {
                            assert(cc.versions@[x] <= cb.versions@[x] + writes_in(**t, x));
                            assert(ce.versions@[x] <= cd.versions@[x] + writes_in(**e2, x));
                        }
                    }
                    Ok((merge, res, p3))
                },
                None => {
                    let mut mp: Vec<BlockId> = Vec::new();
                    mp.push(cur);
                    mp.push(t_end);
                    let merge = ctx.new_block(mp, true);
                    let res = SsaStmt::If(rc, Box::new(rt), None);
                    proof {
                        let c2 = *ctx;
                        assert(cb.blocks@[tb as int].preds@ =~= seq![cur]);
                        assert(c2.blocks@[merge as int].preds@ =~= seq![cur, t_end]);
                        assert(stage(ca, cur) && stage(cb, tb) && stage(cc, t_end));
                        assert(rename_rel(c1, cur, *c, ca, rc));
                        assert(fresh_block(ca, cb, tb, seq![cur], true));
                        assert(walk_rel(cb, tb, **t, cc, t_end, rt));
                        assert(fresh_block(cc, c2, merge, seq![cur, t_end], true));
                        assert(walk_rel(c1, cur, *s, c2, merge, res));
                        assert forall|x: int| 0 <= x < c1.num_vars
                            implies c2.versions@[x]
                                <= c1.versions@[x] + writes_in(*s, x) by {
                            assert(cc.versions@[x] <= cb.versions@[x] + writes_in(**t, x));
                        }
                    }
                    Ok((merge, res, p2))
                },
            }
        },
        Stmt::While(c, body) => {
            let ghost c1 = *ctx;
            // the loop header gets its back edge only later: created
            // unsealed, sealed after the back edge is wired
            let mut hp: Vec<BlockId> = Vec::new();
            hp.push(cur);
            let header = ctx.new_block(hp, false);
            let ghost ch = *ctx;
            let rc = rename_expr(ctx, c, header);
            let ghost ca = *ctx;
            let mut bp: Vec<BlockId> = Vec::new();
            bp.push(header);
            let bb = ctx.new_block(bp, true);
            let ghost cb = *ctx;
            let (b_end, rb, p2) = match on_block(ctx, body, bb, next) {
                Ok(ok) => ok,
                Err(err) => {
                    proof {
                        let cf = *ctx;
                        assert forall|x: int| 0 <= x < c1.num_vars
                                && c1.versions@[x] + writes_in(*s, x) <= usize::MAX
                            implies cb.versions@[x] + #[trigger] writes_in(**body, x)
                                <= usize::MAX by {
                            assert(cb.versions@[x] == c1.versions@[x]);
                        }
                        assert forall|x: int| 0 <= x < c1.num_vars
                            implies cf.versions@[x]
                                <= c1.versions@[x] + writes_in(*s, x) by {
                            assert(cf.versions@[x]
                                <= cb.versions@[x] + writes_in(**body, x));
                        }
                    }
                    return Err(err);
                },
            };
            let ghost cc = *ctx;
            proof {
                // the header is untouched since its creation: still
                // unsealed, still with the preheader as its one
                // predecessor
                assert(ca.blocks@[header as int].sealed == ch.blocks@[header as int].sealed);
                assert(cb.blocks@[header as int] == ca.blocks@[header as int]);
                assert(cc.blocks@[header as int].sealed == cb.blocks@[header as int].sealed);
                assert(cc.blocks@[header as int].preds@ == ch.blocks@[header as int].preds@);
            }
            ctx.add_edge(b_end, header);
            let ghost cd = *ctx;
            ctx.seal(header);
            let ghost ce = *ctx;
            let mut xp: Vec<BlockId> = Vec::new();
            xp.push(header);
            let exit = ctx.new_block(xp, true);
            let res = SsaStmt::While(rc, Box::new(rb));
            proof {
                let c2 = *ctx;
                assert(ch.blocks@[header as int].preds@ =~= seq![cur]);
                assert(cb.blocks@[bb as int].preds@ =~= seq![header]);
                assert(c2.blocks@[exit as int].preds@ =~= seq![header]);
                assert(stage(ch, header) && stage(ca, header) && stage(cb, bb));
                assert(stage(cc, b_end) && stage(cd, header) && stage(ce, header));
                assert forall|i: int| 0 <= i < c1.blocks@.len()
                    implies (#[trigger] c2.blocks@[i]).sealed == c1.blocks@[i].sealed
                        && c2.blocks@[i].preds@ == c1.blocks@[i].preds@ by {
                    assert(ch.blocks@[i] == c1.blocks@[i]);
                    assert(ca.blocks@[i].sealed == ch.blocks@[i].sealed
                        && ca.blocks@[i].preds@ == ch.blocks@[i].preds@);
                    assert(cb.blocks@[i] == ca.blocks@[i]);
                    assert(cc.blocks@[i].sealed == cb.blocks@[i].sealed
                        && cc.blocks@[i].preds@ == cb.blocks@[i].preds@);
                    assert(cd.blocks@[i] == cc.blocks@[i]);
                    assert(ce.blocks@[i].preds@ == cd.blocks@[i].preds@
                        && ce.blocks@[i].sealed == cd.blocks@[i].sealed);
                    assert(c2.blocks@[i] == ce.blocks@[i]);
                }
                assert(fresh_block(c1, ch, header, seq![cur], false));
                assert(rename_rel(ch, header, *c, ca, rc));
                assert(fresh_block(ca, cb, bb, seq![header], true));
                assert(walk_rel(cb, bb, **body, cc, b_end, rb));
                assert(edge_step(cc, cd, b_end, header));
                assert(seal_step(cd, ce, header));
                assert(fresh_block(ce, c2, exit, seq![header], true));
                assert(walk_rel(c1, cur, *s, c2, exit, res));
                assert forall|x: int| 0 <= x < c1.num_vars
                    implies c2.versions@[x] <= c1.versions@[x] + writes_in(*s, x) by {
                    assert(cc.versions@[x] <= cb.versions@[x] + writes_in(**body, x));
                }
            }
            Ok((exit, res, p2))
        },
        Stmt::Chain(a, b) => {
            let ghost c1 = *ctx;
            let (mid, ra, p2) = match on_block(ctx, a, cur, pos) {
                Ok(ok) => ok,
                Err(err) => {
                    proof {
                        let cf = *ctx;
                        assert forall|x: int| 0 <= x < c1.num_vars
                                && c1.versions@[x] + writes_in(*s, x) <= usize::MAX
                            implies c1.versions@[x] + #[trigger] writes_in(**a, x)
                                <= usize::MAX by {}
                        assert forall|x: int| 0 <= x < c1.num_vars
                            implies cf.versions@[x]
                                <= c1.versions@[x] + writes_in(*s, x) by {
                            assert(cf.versions@[x]
                                <= c1.versions@[x] + writes_in(**a, x));
                        }
                    }
                    return Err(err);
                },
            };
            let ghost cm = *ctx;
            let (end, rb, p3) = match on_block(ctx, b, mid, p2) {
                Ok(ok) => ok,
                Err(err) => {
                    proof {
                        let cf = *ctx;
                        assert forall|x: int| 0 <= x < c1.num_vars
                                && c1.versions@[x] + writes_in(*s, x) <= usize::MAX
                            implies cm.versions@[x] + #[trigger] writes_in(**b, x)
                                <= usize::MAX by {
                            assert(cm.versions@[x] <= c1.versions@[x] + writes_in(**a, x));
                        }
                        assert forall|x: int| 0 <= x < c1.num_vars
                            implies cf.versions@[x]
                                <= c1.versions@[x] + writes_in(*s, x) by {
                            assert(cm.versions@[x] <= c1.versions@[x] + writes_in(**a, x));
                            assert(cf.versions@[x] <= cm.versions@[x] + writes_in(**b, x));
                        }
                    }
                    return Err(err);
                },
            };
            let res = SsaStmt::Chain(Box::new(ra), Box::new(rb));
            proof {
                let c2 = *ctx;
                assert(stage(cm, mid));
                assert(walk_rel(c1, cur, **a, cm, mid, ra));
                assert(walk_rel(cm, mid, **b, c2, end, rb));
                assert(walk_rel(c1, cur, *s, c2, end, res));
                assert forall|x: int| 0 <= x < c1.num_vars
                    implies c2.versions@[x] <= c1.versions@[x] + writes_in(*s, x) by {
                    assert(cm.versions@[x] <= c1.versions@[x] + writes_in(**a, x));
                    assert(c2.versions@[x] <= cm.versions@[x] + writes_in(**b, x));
                }
            }
            Ok((end, res, p3))
        },
        Stmt::Opaque => Ok((cur, SsaStmt::Opaque, next)),
    }
}

/// Follow the replacement link of `v`, once: after the optimizer pass
/// one step always reaches a live value.
fn resolve_value(ctx: &SsaContext, v: SsaValue) -> (r: SsaValue)
    ensures
        r == final_of(*ctx, v),
{
    if let SsaValue::Phi { phi } = v {
        if phi < ctx.phis.len() {
            if let Some(t) = ctx.phis[phi].replaced {
                return t;
            }
        }
    }
    v
}

/// Substitute every value of the rewritten expression by its final
/// value, leaving the shape and every non-variable node untouched.
fn resolve_expr(ctx: &SsaContext, e: SsaExpr) -> (r: SsaExpr)
    requires
        inv(*ctx),
    ensures
        expr_resolved_of(*ctx, e, r),
        expr_resolved(*ctx, r),
    decreases e,
{
    match e {
        SsaExpr::Var(v) => {
            let r = resolve_value(ctx, v);
            proof {
                crate::context::lemma_final_of_idem(*ctx, v);
            }
            SsaExpr::Var(r)
        },
        SsaExpr::Op(a, b) => {
            let ra = resolve_expr(ctx, *a);
            let rb = match b {
                Some(e2) => Some(Box::new(resolve_expr(ctx, *e2))),
                None => None,
            };
            SsaExpr::Op(Box::new(ra), rb)
        },
        SsaExpr::Opaque => SsaExpr::Opaque,
    }
}

/// Substitute every value of the rewritten statement tree by its final
/// value, leaving the shape and every non-variable node untouched.
fn resolve_stmt(ctx: &SsaContext, s: SsaStmt) -> (r: SsaStmt)
    requires
        inv(*ctx),
    ensures
        stmt_resolved_of(*ctx, s, r),
        stmt_resolved(*ctx, r),
    decreases s,
{
    match s {
        SsaStmt::Assign(v, e) => {
            let rv = resolve_value(ctx, v);
            proof {
                crate::context::lemma_final_of_idem(*ctx, v);
            }
            SsaStmt::Assign(rv, resolve_expr(ctx, e))
        },
        SsaStmt::If(c, t, e) => {
            let rc = resolve_expr(ctx, c);
            let rt = resolve_stmt(ctx, *t);
            let re = match e {
                Some(e2) => Some(Box::new(resolve_stmt(ctx, *e2))),
                None => None,
            };
            SsaStmt::If(rc, Box::new(rt), re)
        },
        SsaStmt::While(c, body) => {
            SsaStmt::While(resolve_expr(ctx, c), Box::new(resolve_stmt(ctx, *body)))
        },
        SsaStmt::Chain(a, b) => {
            SsaStmt::Chain(Box::new(resolve_stmt(ctx, *a)), Box::new(resolve_stmt(ctx, *b)))
        },
        SsaStmt::Opaque => SsaStmt::Opaque,
    }
}

/// One successfully processed procedure: the renamed body, and the
/// frozen build context carrying the blocks, the phi nodes and the
/// undefined-read diagnostics.
#[derive(Debug)]
pub struct SsaProcedure {
    pub names: Vec<String>,
    pub context: SsaContext,
    pub body: SsaStmt,
}

/// One declaration after the build: rewritten, failed for itself only,
/// or passed through untouched.
#[derive(Debug)]
pub enum SsaDecl {
    Function(SsaProcedure),
    Failed(StructuralError),
    Other,
}

/// Constructs SSA form, one owned context per procedure.
pub struct SSABuilder {
    pub ast: AST,
}

/// A fresh build context with the entry block already created: one
/// predecessor-less sealed block, no phi nodes, all version counters at
/// zero.
pub open spec fn init_ctx(c: SsaContext, n: int) -> bool {
    &&& c.num_vars == n
    &&& c.blocks@.len() == 1
    &&& c.blocks@[0].preds@.len() == 0
    &&& c.blocks@[0].sealed
    &&& c.blocks@[0].incomplete@.len() == 0
    &&& forall|x: int| 0 <= x < n ==> def_of(c, 0, x) is None
    &&& c.phis@.len() == 0
    &&& c.versions@.len() == n
    &&& forall|x: int| 0 <= x < n ==> c.versions@[x] == 0
    &&& c.diagnostics@.len() == 0
}

/// What a successful build of one procedure guarantees: the names are
/// kept; the context is internally consistent; the body carries only
/// final values and was produced by walking the input body from a
/// fresh context (the walk relation fixes every block, phi and value),
/// then minimizing and resolving; and no live completed phi node is
/// trivial.
pub open spec fn built_procedure_rel(proc: Procedure, p: SsaProcedure) -> bool {
    &&& p.names@.len() == proc.names@.len()
    &&& forall|i: int| 0 <= i < proc.names@.len()
            ==> (#[trigger] p.names@[i])@ == proc.names@[i]@
    &&& inv(p.context)
    &&& stmt_resolved(p.context, p.body)
    &&& forall|q: int, v: SsaValue|
        0 <= q < p.context.phis@.len() && p.context.phis@[q].replaced is None
            && !p.context.phis@[q].pending
            ==> !(#[trigger] is_trivial(p.context.phis@[q].operands@, q as usize, v))
    &&& exists|c0: SsaContext, cw: SsaContext, end: BlockId, raw: SsaStmt| {
        &&& init_ctx(c0, proc.names@.len() as int)
        &&& #[trigger] walk_rel(c0, 0, proc.body, cw, end, raw)
        &&& tracks(cw, p.context)
        &&& exists|steps: Seq<(crate::syntax::PhiId, SsaValue)>|
                #[trigger] crate::optimizer::trivial_collapse(cw, steps, p.context)
        &&& p.context.num_vars == proc.names@.len()
        &&& stmt_resolved_of(p.context, raw, p.body)
    }
}

/// What the build of one declaration guarantees: non-functions pass
/// through; a function fails with `UnknownVar` exactly when its body is
/// not well formed over its name table (any other failure is the
/// version counter's machine limit); a produced function satisfies the
/// full build relation.
pub open spec fn built_decl(d: Decl, o: SsaDecl) -> bool {
    match d {
        Decl::Other => o is Other,
        Decl::Function(proc) => match o {
            SsaDecl::Other => false,
            SsaDecl::Failed(err) => (err.kind == StructuralKind::UnknownVar
                <==> !stmt_wf(proc.body, proc.names@.len() as int))
                && (err.kind == StructuralKind::VersionOverflow
                    ==> exists|x: int| 0 <= x < proc.names@.len()
                        && #[trigger] writes_in(proc.body, x) > usize::MAX),
            SsaDecl::Function(p) => stmt_wf(proc.body, proc.names@.len() as int)
                && built_procedure_rel(proc, p),
        },
    }
}

/// Build one procedure: validate it, construct its CFG while renaming,
/// run minimal-SSA cleanup, and resolve the output.
fn build_procedure(proc: &Procedure) -> (res: Result<SsaProcedure, StructuralError>)
    ensures
        res matches Ok(p) ==> built_procedure_rel(*proc, p)
            && stmt_wf(proc.body, proc.names@.len() as int),
        !stmt_wf(proc.body, proc.names@.len() as int)
            ==> res is Err && res->Err_0.kind == StructuralKind::UnknownVar,
        res matches Err(err) ==> (err.kind == StructuralKind::UnknownVar
            <==> !stmt_wf(proc.body, proc.names@.len() as int)),
        (stmt_wf(proc.body, proc.names@.len() as int)
            && (forall|x: int| 0 <= x < proc.names@.len()
                ==> #[trigger] writes_in(proc.body, x) <= usize::MAX))
            ==> res is Ok,
        res matches Err(err) && err.kind == StructuralKind::VersionOverflow
            ==> exists|x: int| 0 <= x < proc.names@.len()
                && #[trigger] writes_in(proc.body, x) > usize::MAX,
{
    let n = proc.names.len();
    validate_stmt(&proc.body, n, 0)?;
    let mut ctx = SsaContext::new(n);
    let entry = ctx.new_block(Vec::new(), true);
    let ghost c0 = ctx;
    proof {
        assert(init_ctx(c0, n as int));
    }
    let (_last, raw_body, _next) = match on_block(&mut ctx, &proc.body, entry, 0) {
        Ok(ok) => ok,
        Err(err) => {
            proof {
                // the walk fails only when some version counter cannot
                // advance, which needs more assignments to one name
                // than the counter can count
                assert(exists|x: int| 0 <= x < proc.names@.len()
                    && #[trigger] writes_in(proc.body, x) > usize::MAX) by {
                    assert(!(forall|x: int| 0 <= x < c0.num_vars
                        ==> c0.versions@[x] + #[trigger] writes_in(proc.body, x)
                            <= usize::MAX));
                    let xw = choose|x: int| !(0 <= x < c0.num_vars
                        ==> c0.versions@[x] + #[trigger] writes_in(proc.body, x)
                            <= usize::MAX);
                    assert(c0.versions@[xw] == 0);
                    assert(writes_in(proc.body, xw) > usize::MAX);
                }
            }
            // the whole in-progress context is discarded on failure
            return Err(err);
        },
    };
    let ghost cw = ctx;
    let ghost raw = raw_body;
    ctx.minimize();
    let body = resolve_stmt(&ctx, raw_body);
    let mut names: Vec<String> = Vec::new();
    let mut k: usize = 0;
    while k < proc.names.len()
        invariant
            k <= proc.names@.len(),
            names@.len() == k,
            forall|i: int| 0 <= i < k ==> #[trigger] names@[i] == proc.names@[i],
        decreases proc.names@.len() - k,
    {
        names.push(proc.names[k].clone());
        k = k + 1;
    }
    let out = SsaProcedure { names, context: ctx, body };
    proof {
        assert(walk_rel(c0, 0, proc.body, cw, _last, raw));
        assert(built_procedure_rel(*proc, out));
    }
    Ok(out)
}

impl SSABuilder {
    /// A builder over the given declaration sequence.
    pub fn new(ast: AST) -> (r: SSABuilder)
        ensures
            r.ast == ast,
    {
        SSABuilder { ast }
    }

    /// Process every declaration: function-like declarations with a
    /// body are rewritten into SSA form; a structural failure is fatal
    /// for its own procedure only, and every other declaration passes
    /// through unmodified, at its own position.
    pub fn build(&self) -> (out: Vec<SsaDecl>)
        ensures
            out@.len() == self.ast@.len(),
            forall|i: int| 0 <= i < self.ast@.len()
                ==> #[trigger] built_decl(self.ast@[i], out@[i]),
    {
        let mut out: Vec<SsaDecl> = Vec::new();
        let mut k: usize = 0;
        while k < self.ast.len()
            invariant
                k <= self.ast@.len(),
                out@.len() == k,
                forall|i: int| 0 <= i < k ==> #[trigger] built_decl(self.ast@[i], out@[i]),
            decreases self.ast@.len() - k,
        {
            match &self.ast[k] {
                Decl::Function(proc) => {
                    match build_procedure(proc) {
                        Ok(p) => out.push(SsaDecl::Function(p)),
                        Err(err) => out.push(SsaDecl::Failed(err)),
                    }
                },
                Decl::Other => out.push(SsaDecl::Other),
            }
            k = k + 1;
        }
        out
    }
}

} // verus!

use goose::builder::{SsaDecl, SSABuilder};
use goose::context::SsaContext;
use goose::syntax::{Decl, Expr, Procedure, SsaExpr, SsaStmt, SsaValue, Stmt, StructuralKind, SymbolValue};

fn var(v: usize, version: usize) -> SsaValue {
    SsaValue::Var { var: v, version }
}

#[test]
fn symbol_value_starts_at_version_zero() {
    let s = SymbolValue::new(&String::from("x"));
    assert_eq!(s.name, "x");
    assert_eq!(s.count, 0);
}

#[test]
fn sequential_writes_increase_versions() {
    let mut ctx = SsaContext::new(1);
    let b0 = ctx.new_block(Vec::new(), true);
    let w1 = ctx.write_variable(0, b0);
    let w2 = ctx.write_variable(0, b0);
    assert_eq!(w1, var(0, 0));
    assert_eq!(w2, var(0, 1));
    // a read after several writes resolves to the most recent write
    let r = ctx.read_variable(0, b0);
    assert_eq!(r, var(0, 1));
}

#[test]
fn diamond_differing_values_gets_phi() {
    let mut ctx = SsaContext::new(1);
    let b0 = ctx.new_block(Vec::new(), true);
    let b1 = ctx.new_block(vec![b0], true);
    let b2 = ctx.new_block(vec![b0], true);
    let v1 = ctx.write_variable(0, b1);
    let v2 = ctx.write_variable(0, b2);
    let merge = ctx.new_block(vec![b1, b2], true);
    let r = ctx.read_variable(0, merge);
    assert_eq!(r, SsaValue::Phi { phi: 0 });
    assert_eq!(ctx.phis.len(), 1);
    assert!(ctx.phis[0].replaced.is_none());
    assert_eq!(ctx.phis[0].operands, vec![(b1, v1), (b2, v2)]);
}

#[test]
fn diamond_agreeing_value_collapses_phi() {
    let mut ctx = SsaContext::new(1);
    let b0 = ctx.new_block(Vec::new(), true);
    let v0 = ctx.write_variable(0, b0);
    let b1 = ctx.new_block(vec![b0], true);
    let b2 = ctx.new_block(vec![b0], true);
    let merge = ctx.new_block(vec![b1, b2], true);
    // both paths carry the same value: the read resolves directly to
    // it, and the phi created at the merge is collapsed
    let r = ctx.read_variable(0, merge);
    assert_eq!(r, v0);
    assert_eq!(ctx.phis.len(), 1);
    assert_eq!(ctx.phis[0].replaced, Some(v0));
    assert_eq!(ctx.blocks[merge].defs[0], Some(v0));
}

#[test]
fn loop_header_deferred_phi() {
    let mut ctx = SsaContext::new(1);
    let b0 = ctx.new_block(Vec::new(), true);
    let v0 = ctx.write_variable(0, b0);
    // the header is created unsealed: its back edge is not known yet
    let header = ctx.new_block(vec![b0], false);
    let r = ctx.read_variable(0, header);
    assert_eq!(r, SsaValue::Phi { phi: 0 });
    let body = ctx.new_block(vec![header], true);
    let v1 = ctx.write_variable(0, body);
    ctx.add_edge(body, header);
    ctx.seal(header);
    // resolution succeeded although the predecessor set was unknown at
    // the first visit: one operand from the preheader, one from the body
    assert!(ctx.phis[0].replaced.is_none());
    assert_eq!(ctx.phis[0].operands, vec![(b0, v0), (body, v1)]);
    assert_eq!(ctx.read_variable(0, header), SsaValue::Phi { phi: 0 });
}

#[test]
fn loop_without_body_write_collapses_header_phi() {
    let mut ctx = SsaContext::new(1);
    let b0 = ctx.new_block(Vec::new(), true);
    let v0 = ctx.write_variable(0, b0);
    let header = ctx.new_block(vec![b0], false);
    let r = ctx.read_variable(0, header);
    assert_eq!(r, SsaValue::Phi { phi: 0 });
    let body = ctx.new_block(vec![header], true);
    // the body does not write the variable: the value flowing over the
    // back edge is the header phi itself, which is therefore trivial
    ctx.add_edge(body, header);
    ctx.seal(header);
    assert_eq!(ctx.phis[0].replaced, Some(v0));
    assert_eq!(ctx.blocks[header].defs[0], Some(v0));
}

#[test]
fn repeated_read_returns_identical_cached_value() {
    let mut ctx = SsaContext::new(2);
    let b0 = ctx.new_block(Vec::new(), true);
    ctx.write_variable(0, b0);
    let r1 = ctx.read_variable(0, b0);
    let r2 = ctx.read_variable(0, b0);
    assert_eq!(r1, r2);
    // the same holds for an undefined read: the placeholder is cached
    // and only one diagnostic is recorded
    let u1 = ctx.read_variable(1, b0);
    let u2 = ctx.read_variable(1, b0);
    assert_eq!(u1, u2);
    assert_eq!(ctx.diagnostics.len(), 1);
}

#[test]
fn undefined_read_yields_placeholder_and_diagnostic() {
    let mut ctx = SsaContext::new(1);
    let b0 = ctx.new_block(Vec::new(), true);
    let r = ctx.read_variable(0, b0);
    assert_eq!(r, SsaValue::Undef { var: 0 });
    assert_eq!(ctx.diagnostics.len(), 1);
    assert_eq!(ctx.diagnostics[0].var, 0);
    assert_eq!(ctx.diagnostics[0].block, b0);
}

fn assign(x: usize, e: Expr) -> Stmt {
    Stmt::Assign(x, e)
}

fn chain(a: Stmt, b: Stmt) -> Stmt {
    Stmt::Chain(Box::new(a), Box::new(b))
}

#[test]
fn builder_diamond_merges_through_phi() {
    // x = ?; if x { x = ? } else { x = ? }; y = x
    let body = chain(
        assign(0, Expr::Opaque),
        chain(
            Stmt::If(
                Expr::Var(0),
                Box::new(assign(0, Expr::Opaque)),
                Some(Box::new(assign(0, Expr::Opaque))),
            ),
            assign(1, Expr::Var(0)),
        ),
    );
    let proc = Procedure { names: vec![String::from("x"), String::from("y")], body };
    let builder = SSABuilder::new(vec![Decl::Function(proc)]);
    let out = builder.build();
    assert_eq!(out.len(), 1);
    let p = match &out[0] {
        SsaDecl::Function(p) => p,
        _ => panic!("expected a rewritten function"),
    };
    // the read of x after the diamond resolves to a live phi with one
    // operand per branch
    let last = match &p.body {
        SsaStmt::Chain(_, rest) => match rest.as_ref() {
            SsaStmt::Chain(_, last) => last.as_ref(),
            other => panic!("unexpected shape: {:?}", other),
        },
        other => panic!("unexpected shape: {:?}", other),
    };
    match last {
        SsaStmt::Assign(lhs, SsaExpr::Var(SsaValue::Phi { phi })) => {
            assert_eq!(*lhs, var(1, 0));
            let node = &p.context.phis[*phi];
            assert!(node.replaced.is_none());
            assert_eq!(node.operands.len(), 2);
            assert_eq!(node.operands[0].1, var(0, 1));
            assert_eq!(node.operands[1].1, var(0, 2));
        }
        other => panic!("expected a phi-merged read, got {:?}", other),
    }
}

#[test]
fn builder_agreeing_diamond_needs_no_phi() {
    // x = ?; if x { } else { }; y = x — both paths agree on x
    let body = chain(
        assign(0, Expr::Opaque),
        chain(
            Stmt::If(Expr::Var(0), Box::new(Stmt::Opaque), Some(Box::new(Stmt::Opaque))),
            assign(1, Expr::Var(0)),
        ),
    );
    let proc = Procedure { names: vec![String::from("x"), String::from("y")], body };
    let out = SSABuilder::new(vec![Decl::Function(proc)]).build();
    let p = match &out[0] {
        SsaDecl::Function(p) => p,
        _ => panic!("expected a rewritten function"),
    };
    let last = match &p.body {
        SsaStmt::Chain(_, rest) => match rest.as_ref() {
            SsaStmt::Chain(_, last) => last.as_ref(),
            other => panic!("unexpected shape: {:?}", other),
        },
        other => panic!("unexpected shape: {:?}", other),
    };
    // the output mentions no phi: the read resolves to the single value
    match last {
        SsaStmt::Assign(_, SsaExpr::Var(v)) => assert_eq!(*v, var(0, 0)),
        other => panic!("expected a direct value, got {:?}", other),
    }
    for node in &p.context.phis {
        assert!(node.replaced.is_some());
    }
}

#[test]
fn builder_loop_reads_through_header_phi() {
    // i = ?; while i { i = op(i) }; y = i
    let body = chain(
        assign(0, Expr::Opaque),
        chain(
            Stmt::While(
                Expr::Var(0),
                Box::new(assign(0, Expr::Op(Box::new(Expr::Var(0)), None))),
            ),
            assign(1, Expr::Var(0)),
        ),
    );
    let proc = Procedure { names: vec![String::from("i"), String::from("y")], body };
    let out = SSABuilder::new(vec![Decl::Function(proc)]).build();
    let p = match &out[0] {
        SsaDecl::Function(p) => p,
        _ => panic!("expected a rewritten function"),
    };
    // the loop condition reads i through the header phi, whose two
    // operands are the entry value and the body write
    let cond = match &p.body {
        SsaStmt::Chain(_, rest) => match rest.as_ref() {
            SsaStmt::Chain(w, _) => match w.as_ref() {
                SsaStmt::While(c, _) => c,
                other => panic!("unexpected shape: {:?}", other),
            },
            other => panic!("unexpected shape: {:?}", other),
        },
        other => panic!("unexpected shape: {:?}", other),
    };
    match cond {
        SsaExpr::Var(SsaValue::Phi { phi }) => {
            let node = &p.context.phis[*phi];
            assert!(node.replaced.is_none());
            assert_eq!(node.operands.len(), 2);
            assert_eq!(node.operands[0].1, var(0, 0));
            assert_eq!(node.operands[1].1, var(0, 1));
        }
        other => panic!("expected the header phi, got {:?}", other),
    }
    assert_eq!(p.context.diagnostics.len(), 0);
}

#[test]
fn builder_unknown_variable_fails_its_procedure_only() {
    let bad = Procedure {
        names: vec![String::from("x")],
        body: assign(7, Expr::Opaque),
    };
    let good = Procedure {
        names: vec![String::from("x")],
        body: assign(0, Expr::Opaque),
    };
    let out = SSABuilder::new(vec![
        Decl::Function(bad),
        Decl::Other,
        Decl::Function(good),
    ])
    .build();
    assert_eq!(out.len(), 3);
    match &out[0] {
        SsaDecl::Failed(err) => {
            assert_eq!(err.kind, StructuralKind::UnknownVar);
            assert_eq!(err.var, 7);
            assert_eq!(err.pos, 0);
        }
        other => panic!("expected a structural failure, got {:?}", other),
    }
    assert!(matches!(out[1], SsaDecl::Other));
    assert!(matches!(out[2], SsaDecl::Function(_)));
}

#[test]
fn builder_undefined_read_is_diagnosed_not_fatal() {
    // y = x with x never written: the build succeeds, records a
    // diagnostic, and rewrites the read to the undefined placeholder
    let body = assign(1, Expr::Var(0));
    let proc = Procedure { names: vec![String::from("x"), String::from("y")], body };
    let out = SSABuilder::new(vec![Decl::Function(proc)]).build();
    let p = match &out[0] {
        SsaDecl::Function(p) => p,
        _ => panic!("expected a rewritten function"),
    };
    assert_eq!(p.context.diagnostics.len(), 1);
    assert_eq!(p.context.diagnostics[0].var, 0);
    match &p.body {
        SsaStmt::Assign(_, SsaExpr::Var(v)) => assert_eq!(*v, SsaValue::Undef { var: 0 }),
        other => panic!("expected the placeholder, got {:?}", other),
    }
}

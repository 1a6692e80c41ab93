//! The library's laws, stated over the step relations that the
//! renamer's and the sealing controller's contracts establish. Each
//! proof function here is a statement about every context and every
//! input, not about chosen values.

use vstd::prelude::*;
use crate::syntax::{BlockId, Diagnostic, SsaValue, VarId};
use crate::context::{def_of, inv, SsaContext};
use crate::renamer::{
    all_preds_defined, pred_vals, read_step, rest_zip, seal_outcome, write_step,
};
use crate::optimizer::is_trivial;

verus! {

/// Sequential writes to the same name strictly increase its version.
pub proof fn law_versions_increase(
    c0: SsaContext,
    c1: SsaContext,
    c2: SsaContext,
    x: VarId,
    b1: BlockId,
    b2: BlockId,
    v1: SsaValue,
    v2: SsaValue,
)
    requires
        x < c0.num_vars,
        c0.versions@.len() == c0.num_vars,
        write_step(c0, c1, x, b1, v1),
        write_step(c1, c2, x, b2, v2),
    ensures
        v1 matches SsaValue::Var { var: x1, version: n1 } && x1 == x
            && (v2 matches SsaValue::Var { var: x2, version: n2 } && x2 == x && n2 > n1),
{
}

/// A read following a write in the same block resolves to that write's
/// value — the most recent one, whatever was bound before.
pub proof fn law_read_after_write(
    c0: SsaContext,
    c1: SsaContext,
    c2: SsaContext,
    x: VarId,
    b: BlockId,
    w: SsaValue,
    r: SsaValue,
)
    requires
        inv(c0),
        b < c0.blocks@.len(),
        x < c0.num_vars,
        write_step(c0, c1, x, b, w),
        read_step(c1, c2, x, b, r),
    ensures
        r == w,
        c2 == c1,
{
    assert(def_of(c1, b as int, x as int) == Some(w));
}

/// Resolving the same read twice without an intervening write returns
/// the identical cached value, and the second resolution changes
/// nothing at all.
pub proof fn law_memoized_read(
    c0: SsaContext,
    c1: SsaContext,
    c2: SsaContext,
    x: VarId,
    b: BlockId,
    r1: SsaValue,
    r2: SsaValue,
)
    requires
        read_step(c0, c1, x, b, r1),
        read_step(c1, c2, x, b, r2),
    ensures
        r2 == r1,
        c2 == c1,
{
}

/// Diamond: at a sealed merge block whose two predecessors carry
/// different values for a name, the read yields a phi node with
/// exactly two operands, one per predecessor, each that path's value.
pub proof fn law_diamond_phi(
    c1: SsaContext,
    c2: SsaContext,
    x: VarId,
    b: BlockId,
    r: SsaValue,
    p1: BlockId,
    p2: BlockId,
    v1: SsaValue,
    v2: SsaValue,
)
    requires
        b < c1.blocks@.len(),
        x < c1.num_vars,
        c1.blocks@[b as int].preds@ == seq![p1, p2],
        c1.blocks@[b as int].sealed,
        def_of(c1, b as int, x as int) is None,
        def_of(c1, p1 as int, x as int) == Some(v1),
        def_of(c1, p2 as int, x as int) == Some(v2),
        v1 != v2,
        read_step(c1, c2, x, b, r),
    ensures
        r == (SsaValue::Phi { phi: c1.phis@.len() as usize }),
        c2.phis@[c1.phis@.len() as int].operands@ == seq![(p1, v1), (p2, v2)],
        c2.phis@[c1.phis@.len() as int].replaced is None,
    {
    let bi = b as int;
    let xi = x as int;
    assert(all_preds_defined(c1, bi, xi)) by {
        assert forall|i: int| 0 <= i < c1.blocks@[bi].preds@.len()
            implies def_of(c1, #[trigger] c1.blocks@[bi].preds@[i] as int, xi) is Some by {
            if i == 0 {
                assert(c1.blocks@[bi].preds@[i] == p1);
            } else {
                assert(c1.blocks@[bi].preds@[i] == p2);
            }
        }
    }
    let vals = pred_vals(c1, bi, xi);
    assert(vals[0] == v1 && vals[1] == v2);
    assert(exists|i: int| 0 <= i < vals.len() && #[trigger] vals[i] != vals[0]) by {
        assert(vals[1] != vals[0]);
    }
    assert(c2.phis@[c1.phis@.len() as int].operands@ =~= seq![(p1, v1), (p2, v2)]) by {
        assert(c2.phis@[c1.phis@.len() as int].operands@ == rest_zip(c1, bi, xi, 0));
        assert(rest_zip(c1, bi, xi, 0)[0] == (p1, v1));
        assert(rest_zip(c1, bi, xi, 0)[1] == (p2, v2));
    }
}

/// Diamond where both paths agree: no phi node survives at the merge
/// block — the read resolves directly to the single shared value.
pub proof fn law_diamond_no_phi(
    c1: SsaContext,
    c2: SsaContext,
    x: VarId,
    b: BlockId,
    r: SsaValue,
    p1: BlockId,
    p2: BlockId,
    v: SsaValue,
)
    requires
        b < c1.blocks@.len(),
        x < c1.num_vars,
        c1.blocks@[b as int].preds@ == seq![p1, p2],
        c1.blocks@[b as int].sealed,
        def_of(c1, b as int, x as int) is None,
        def_of(c1, p1 as int, x as int) == Some(v),
        def_of(c1, p2 as int, x as int) == Some(v),
        read_step(c1, c2, x, b, r),
    ensures
        r == v,
        def_of(c2, b as int, x as int) == Some(v),
        c2.phis@[c1.phis@.len() as int].replaced is Some,
{
    let bi = b as int;
    let xi = x as int;
    assert(all_preds_defined(c1, bi, xi)) by {
        assert forall|i: int| 0 <= i < c1.blocks@[bi].preds@.len()
            implies def_of(c1, #[trigger] c1.blocks@[bi].preds@[i] as int, xi) is Some by {
            if i == 0 {
                assert(c1.blocks@[bi].preds@[i] == p1);
            } else {
                assert(c1.blocks@[bi].preds@[i] == p2);
            }
        }
    }
    let vals = pred_vals(c1, bi, xi);
    assert(vals[0] == v && vals[1] == v);
    assert forall|i: int| 0 <= i < vals.len() implies #[trigger] vals[i] == vals[0] by {
        if i == 0 {
        } else {
            assert(i == 1);
        }
    }
}

/// Loop: a name read at the not-yet-sealed header is bound to an
/// incomplete phi; once the back edge is wired and the header sealed,
/// that phi carries exactly two operands — the value entering from the
/// preheader and the value from the body write — although the full
/// predecessor set was unknown at the first read.
pub proof fn law_loop_header_phi(
    c1: SsaContext,
    c2: SsaContext,
    h: BlockId,
    x: VarId,
    p: crate::syntax::PhiId,
    pre: BlockId,
    latch: BlockId,
    v0: SsaValue,
    v1: SsaValue,
)
    requires
        h < c1.blocks@.len(),
        x < c1.num_vars,
        !c1.blocks@[h as int].sealed,
        c1.blocks@[h as int].preds@ == seq![pre, latch],
        c1.blocks@[h as int].incomplete@ == seq![(x, p)],
        def_of(c1, pre as int, x as int) == Some(v0),
        def_of(c1, latch as int, x as int) == Some(v1),
        v0 != v1,
        v0 != (SsaValue::Phi { phi: p }),
        v1 != (SsaValue::Phi { phi: p }),
        crate::renamer::seal_step(c1, c2, h),
    ensures
        c2.phis@[p as int].replaced is None,
        c2.phis@[p as int].operands@ == seq![(pre, v0), (latch, v1)],
        def_of(c2, h as int, x as int) == def_of(c1, h as int, x as int),
{
    let hi = h as int;
    let xi = x as int;
    assert(c1.blocks@[hi].incomplete@[0] == (x, p));
    assert(all_preds_defined(c1, hi, xi)) by {
        assert forall|i: int| 0 <= i < c1.blocks@[hi].preds@.len()
            implies def_of(c1, #[trigger] c1.blocks@[hi].preds@[i] as int, xi) is Some by {
            if i == 0 {
                assert(c1.blocks@[hi].preds@[i] == pre);
            } else {
                assert(c1.blocks@[hi].preds@[i] == latch);
            }
        }
    }
    assert(seal_outcome(c1, c2, h, x, p));
    let full = rest_zip(c1, hi, xi, 0);
    assert(full[0] == (pre, v0) && full[1] == (latch, v1));
    assert forall|w: SsaValue| !(#[trigger] is_trivial(full, p, w)) by {
        if is_trivial(full, p, w) {
            assert(full[0].1 == w || full[0].1 == (SsaValue::Phi { phi: p }));
            assert(full[1].1 == w || full[1].1 == (SsaValue::Phi { phi: p }));
        }
    }
    assert(c2.phis@[p as int].operands@ =~= seq![(pre, v0), (latch, v1)]);
    assert(def_of(c2, hi, xi) == def_of(c1, hi, xi));
}

/// A read at procedure entry with no prior write anywhere yields the
/// documented undefined-value placeholder and records one diagnostic —
/// never a crash and never a silent wrong value.
pub proof fn law_undefined_read(
    c1: SsaContext,
    c2: SsaContext,
    x: VarId,
    b: BlockId,
    r: SsaValue,
)
    requires
        b < c1.blocks@.len(),
        c1.blocks@[b as int].sealed,
        c1.blocks@[b as int].preds@.len() == 0,
        def_of(c1, b as int, x as int) is None,
        read_step(c1, c2, x, b, r),
    ensures
        r == (SsaValue::Undef { var: x }),
        c2.diagnostics@ == c1.diagnostics@.push(Diagnostic { var: x, block: b }),
{
}

} // verus!

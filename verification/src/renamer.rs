//! The renamer: writing a variable allocates a fresh version and becomes
//! the block-local definition; reading a variable resolves it to exactly
//! one reaching SSA value, creating phi nodes on demand at merge points
//! and incomplete phi nodes at blocks whose predecessor set is still
//! open. Sealing a block resolves its deferred phi operands.

use vstd::prelude::*;
use crate::syntax::{BlockId, Diagnostic, SsaValue, VarId};
use crate::context::{
    def_of, extends, final_of, inv, is_stale, lemma_tracks_refl, lemma_tracks_trans,
    lemma_undef_count_mono, lemma_undef_count_strict, tracks, undef_count, wf_value, PhiNode,
    SsaContext,
};
use crate::optimizer::is_trivial;

verus! {

/// Every predecessor of `b` has a local definition of `x`.
pub open spec fn all_preds_defined(c: SsaContext, b: int, x: int) -> bool {
    forall|i: int| 0 <= i < c.blocks@[b].preds@.len()
        ==> def_of(c, #[trigger] c.blocks@[b].preds@[i] as int, x) is Some
}

/// The definitions of `x` at the predecessors of `b`, in predecessor
/// order.
pub open spec fn pred_vals(c: SsaContext, b: int, x: int) -> Seq<SsaValue> {
    Seq::new(
        c.blocks@[b].preds@.len(),
        |i: int| def_of(c, c.blocks@[b].preds@[i] as int, x)->Some_0,
    )
}

/// The phi operand list a fully resolved phi for `x` at `b` carries:
/// one (predecessor, definition) pair per predecessor, in order,
/// starting at predecessor index `s`.
pub open spec fn rest_zip(c: SsaContext, b: int, x: int, s: int) -> Seq<(usize, SsaValue)> {
    Seq::new(
        (c.blocks@[b].preds@.len() - s) as nat,
        |k: int| (c.blocks@[b].preds@[s + k],
            def_of(c, c.blocks@[b].preds@[s + k] as int, x)->Some_0),
    )
}

/// Every predecessor of `b` from index `s` on has a definition of `x`.
pub open spec fn rest_defined(c: SsaContext, b: int, x: int, s: int) -> bool {
    forall|j: int| s <= j < c.blocks@[b].preds@.len()
        ==> def_of(c, #[trigger] c.blocks@[b].preds@[j] as int, x) is Some
}

/// Operand lists of phi nodes still pending in `c1` (other than the one
/// `except` names) evolve only by following replacement links.
pub open spec fn pending_tracked(c1: SsaContext, c2: SsaContext, except: int) -> bool {
    forall|q: int|
        0 <= q < c1.phis@.len() && (#[trigger] c1.phis@[q]).pending && q != except
            ==> c2.phis@[q].pending
                && c2.phis@[q].replaced is None
                && c2.phis@[q].operands@.len() == c1.phis@[q].operands@.len()
                && (forall|i: int| 0 <= i < c1.phis@[q].operands@.len()
                    ==> #[trigger] c2.phis@[q].operands@[i]
                        == (c1.phis@[q].operands@[i].0,
                            final_of(c2, c1.phis@[q].operands@[i].1)))
}

/// Pending-phi bookkeeping only grows during resolution, and every
/// entry registered since `c1` names a phi node that did not exist in
/// `c1` — resolution never re-registers an old phi node.
pub open spec fn incomplete_grows(c1: SsaContext, c2: SsaContext) -> bool {
    forall|bb: int| 0 <= bb < c1.blocks@.len()
        ==> (#[trigger] c1.blocks@[bb]).incomplete@.is_prefix_of(c2.blocks@[bb].incomplete@)
            && (c1.blocks@[bb].sealed ==> c2.blocks@[bb].incomplete@ == c1.blocks@[bb].incomplete@)
            && (forall|j: int|
                c1.blocks@[bb].incomplete@.len() <= j < c2.blocks@[bb].incomplete@.len()
                    ==> (#[trigger] c2.blocks@[bb].incomplete@[j]).1 >= c1.phis@.len())
}

/// What sealing does to one deferred phi when every predecessor already
/// has a definition: its operands become the (predecessor, definition)
/// pairs in predecessor order, and it is collapsed exactly when those
/// definitions all agree apart from self-references.
pub open spec fn seal_outcome(c1: SsaContext, c2: SsaContext, b: BlockId, x: VarId,
    p: crate::syntax::PhiId) -> bool {
    let full = rest_zip(c1, b as int, x as int, 0);
    &&& c2.phis@.len() == c1.phis@.len()
    &&& c2.diagnostics@ == c1.diagnostics@
    &&& !c2.phis@[p as int].pending
    &&& ((forall|v: SsaValue| !(#[trigger] is_trivial(full, p, v))) ==> {
        &&& c2.phis@[p as int].replaced is None
        &&& c2.phis@[p as int].operands@ == full
        &&& forall|bb: int, xx: int|
            0 <= bb < c1.blocks@.len() && 0 <= xx < c1.num_vars
                ==> def_of(c2, bb, xx) == #[trigger] def_of(c1, bb, xx)
    })
    &&& (forall|v: SsaValue| #[trigger] is_trivial(full, p, v) ==> {
        &&& c2.phis@[p as int].replaced == Some(v)
        &&& forall|bb: int, xx: int|
            0 <= bb < c1.blocks@.len() && 0 <= xx < c1.num_vars
                ==> def_of(c2, bb, xx)
                    == crate::optimizer::opt_subst(#[trigger] def_of(c1, bb, xx), p, v)
    })
}

/// A deferred phi after its block's seal: completed (no longer
/// pending), and, unless collapsed as trivial, carrying one operand per
/// predecessor in predecessor order, each operand being that
/// predecessor's resolved definition of the variable.
pub open spec fn sealed_entry_done(c: SsaContext, b: BlockId, x: VarId,
    q: crate::syntax::PhiId) -> bool {
    &&& !c.phis@[q as int].pending
    &&& (c.phis@[q as int].replaced is None ==> {
        &&& c.phis@[q as int].operands@.len() == c.blocks@[b as int].preds@.len()
        &&& forall|k: int| 0 <= k < c.blocks@[b as int].preds@.len()
                ==> (#[trigger] c.phis@[q as int].operands@[k]).0
                        == c.blocks@[b as int].preds@[k]
                    && def_of(c, c.blocks@[b as int].preds@[k] as int, x as int)
                        == Some(c.phis@[q as int].operands@[k].1)
    })
}

/// What sealing a block does: the block's predecessor set becomes
/// final, every deferred phi recorded for it is resolved — completed
/// with one operand per predecessor or collapsed as trivial — and,
/// when the one deferred phi's predecessors all carry definitions
/// already, the outcome is exactly `seal_outcome`.
pub open spec fn seal_step(c1: SsaContext, c2: SsaContext, b: BlockId) -> bool {
    &&& tracks(c1, c2)
    &&& c2.blocks@.len() == c1.blocks@.len()
    &&& c2.versions@ == c1.versions@
    &&& c2.blocks@[b as int].sealed
    &&& c2.blocks@[b as int].incomplete@.len() == 0
    &&& forall|i: int| 0 <= i < c1.blocks@.len()
            ==> (#[trigger] c2.blocks@[i]).preds@ == c1.blocks@[i].preds@
                && (i != b ==> c2.blocks@[i].sealed == c1.blocks@[i].sealed)
    &&& forall|j: int| 0 <= j < c1.blocks@[b as int].incomplete@.len()
            ==> sealed_entry_done(c2, b,
                (#[trigger] c1.blocks@[b as int].incomplete@[j]).0,
                c1.blocks@[b as int].incomplete@[j].1)
    &&& (c1.blocks@[b as int].incomplete@.len() == 0 ==> {
        &&& c2.phis@ == c1.phis@
        &&& c2.diagnostics@ == c1.diagnostics@
        &&& (forall|i: int| 0 <= i < c1.blocks@.len() && i != b
                ==> #[trigger] c2.blocks@[i] == c1.blocks@[i])
        &&& c2.blocks@[b as int].defs@ == c1.blocks@[b as int].defs@
        &&& c2.blocks@[b as int].preds@ == c1.blocks@[b as int].preds@
    })
    &&& ((c1.blocks@[b as int].incomplete@.len() == 1
        && all_preds_defined(c1, b as int, c1.blocks@[b as int].incomplete@[0].0 as int))
        ==> seal_outcome(c1, c2, b,
            c1.blocks@[b as int].incomplete@[0].0,
            c1.blocks@[b as int].incomplete@[0].1))
}

/// What one write does: the result is the variable at its next free
/// version, the version counter advances by one, the value becomes the
/// block-local definition, and nothing else changes.
pub open spec fn write_step(c1: SsaContext, c2: SsaContext, x: VarId, b: BlockId, r: SsaValue)
    -> bool {
    &&& r == (SsaValue::Var { var: x, version: c1.versions@[x as int] })
    &&& c1.versions@[x as int] < usize::MAX
    &&& c2.versions@ == c1.versions@.update(x as int, (c1.versions@[x as int] + 1) as usize)
    &&& c2.blocks@.len() == c1.blocks@.len()
    &&& forall|i: int| 0 <= i < c1.blocks@.len() && i != b
            ==> #[trigger] c2.blocks@[i] == c1.blocks@[i]
    &&& c2.blocks@[b as int].preds@ == c1.blocks@[b as int].preds@
    &&& c2.blocks@[b as int].sealed == c1.blocks@[b as int].sealed
    &&& c2.blocks@[b as int].incomplete@ == c1.blocks@[b as int].incomplete@
    &&& c2.blocks@[b as int].defs@ == c1.blocks@[b as int].defs@.update(x as int, Some(r))
    &&& c2.phis@ == c1.phis@
    &&& c2.diagnostics@ == c1.diagnostics@
    &&& c2.num_vars == c1.num_vars
}

/// What one read does, case by case: an existing local definition is
/// returned unchanged (memoization); at an unsealed block an incomplete
/// phi is registered and bound; at the entry block an undefined
/// placeholder is bound and a diagnostic recorded; through a single
/// predecessor the predecessor's resolution is memoized; at a sealed
/// merge point a phi is created, its operands resolved in predecessor
/// order, and trivial-phi collapse attempted. In every case the result
/// is the block's local definition afterwards.
pub open spec fn read_step(c1: SsaContext, c2: SsaContext, x: VarId, b: BlockId, r: SsaValue)
    -> bool {
    let bi = b as int;
    let xi = x as int;
    &&& tracks(c1, c2)
    &&& pending_tracked(c1, c2, -1)
    &&& incomplete_grows(c1, c2)
    &&& c2.blocks@.len() == c1.blocks@.len()
    &&& c2.versions@ == c1.versions@
    &&& def_of(c2, bi, xi) == Some(r)
    &&& wf_value(c2, r)
    &&& !is_stale(c2, r)
    &&& (def_of(c1, bi, xi) is Some ==> c2 == c1 && r == def_of(c1, bi, xi)->Some_0)
    &&& (def_of(c1, bi, xi) is None && !c1.blocks@[bi].sealed ==> {
        let p = c1.phis@.len() as int;
        &&& r == (SsaValue::Phi { phi: p as usize })
        &&& c2.phis@.len() == p + 1
        &&& c2.phis@[p].block == b
        &&& c2.phis@[p].var == x
        &&& c2.phis@[p].pending
        &&& c2.phis@[p].replaced is None
        &&& c2.phis@[p].operands@.len() == 0
        &&& forall|q: int| 0 <= q < p ==> #[trigger] c2.phis@[q] == c1.phis@[q]
        &&& c2.blocks@[bi].incomplete@
            == c1.blocks@[bi].incomplete@.push((x, p as usize))
        &&& c2.blocks@[bi].defs@ == c1.blocks@[bi].defs@.update(xi, Some(r))
        &&& forall|i: int| 0 <= i < c1.blocks@.len() && i != bi
                ==> #[trigger] c2.blocks@[i] == c1.blocks@[i]
        &&& c2.diagnostics@ == c1.diagnostics@
    })
    &&& (def_of(c1, bi, xi) is None && c1.blocks@[bi].sealed
            && c1.blocks@[bi].preds@.len() == 0 ==> {
        &&& r == (SsaValue::Undef { var: x })
        &&& c2.phis@ == c1.phis@
        &&& c2.diagnostics@ == c1.diagnostics@.push(Diagnostic { var: x, block: b })
        &&& c2.blocks@[bi].defs@ == c1.blocks@[bi].defs@.update(xi, Some(r))
        &&& c2.blocks@[bi].incomplete@ == c1.blocks@[bi].incomplete@
        &&& forall|i: int| 0 <= i < c1.blocks@.len() && i != bi
                ==> #[trigger] c2.blocks@[i] == c1.blocks@[i]
    })
    &&& (def_of(c1, bi, xi) is None && c1.blocks@[bi].sealed
            && c1.blocks@[bi].preds@.len() == 1
            ==> def_of(c2, c1.blocks@[bi].preds@[0] as int, xi) == Some(r))
    &&& (def_of(c1, bi, xi) is None && c1.blocks@[bi].sealed
            && c1.blocks@[bi].preds@.len() == 1
            && def_of(c1, c1.blocks@[bi].preds@[0] as int, xi) is Some ==> {
        &&& r == def_of(c1, c1.blocks@[bi].preds@[0] as int, xi)->Some_0
        &&& c2.phis@ == c1.phis@
        &&& c2.diagnostics@ == c1.diagnostics@
        &&& c2.blocks@[bi].defs@ == c1.blocks@[bi].defs@.update(xi, Some(r))
        &&& c2.blocks@[bi].incomplete@ == c1.blocks@[bi].incomplete@
        &&& forall|i: int| 0 <= i < c1.blocks@.len() && i != bi
                ==> #[trigger] c2.blocks@[i] == c1.blocks@[i]
    })
    &&& forall|i: int| 0 <= i < c1.blocks@.len()
            ==> (#[trigger] c2.blocks@[i]).preds@ == c1.blocks@[i].preds@
                && c2.blocks@[i].sealed == c1.blocks@[i].sealed
    &&& (def_of(c1, bi, xi) is None && c1.blocks@[bi].sealed
            && c1.blocks@[bi].preds@.len() >= 2 ==> {
        let p = c1.phis@.len() as int;
        &&& c2.phis@.len() >= p + 1
        &&& c2.phis@[p].block == b
        &&& c2.phis@[p].var == x
        &&& !c2.phis@[p].pending
        &&& r == final_of(c2, SsaValue::Phi { phi: p as usize })
        &&& (c2.phis@[p].replaced is None ==> {
            &&& c2.phis@[p].operands@.len() == c1.blocks@[bi].preds@.len()
            &&& forall|j: int| 0 <= j < c1.blocks@[bi].preds@.len()
                    ==> (#[trigger] c2.phis@[p].operands@[j]).0 == c1.blocks@[bi].preds@[j]
                        && def_of(c2, c1.blocks@[bi].preds@[j] as int, xi)
                            == Some(c2.phis@[p].operands@[j].1)
        })
    })
    &&& (def_of(c1, bi, xi) is None && c1.blocks@[bi].sealed
            && c1.blocks@[bi].preds@.len() >= 2 && all_preds_defined(c1, bi, xi) ==> {
        let p = c1.phis@.len() as int;
        let vals = pred_vals(c1, bi, xi);
        &&& c2.phis@.len() == p + 1
        &&& c2.diagnostics@ == c1.diagnostics@
        &&& ((forall|i: int| 0 <= i < vals.len() ==> #[trigger] vals[i] == vals[0]) ==> {
            &&& r == vals[0]
            &&& c2.phis@[p].replaced == Some(r)
        })
        &&& ((exists|i: int| 0 <= i < vals.len() && #[trigger] vals[i] != vals[0]) ==> {
            &&& r == (SsaValue::Phi { phi: p as usize })
            &&& c2.phis@[p].replaced is None
            &&& !c2.phis@[p].pending
            &&& c2.phis@[p].operands@ == rest_zip(c1, bi, xi, 0)
        })
    })
}

/// Common reasoning for steps that only add fresh unreplaced phi nodes,
/// bind previously undefined variables, and append bookkeeping: every
/// old value is left alone, so replacement links change nothing.
proof fn lemma_grow(c1: SsaContext, c2: SsaContext)
    requires
        inv(c1),
        c2.num_vars == c1.num_vars,
        c2.versions@ == c1.versions@,
        c2.blocks@.len() == c1.blocks@.len(),
        c1.phis@.len() <= c2.phis@.len(),
        forall|q: int| 0 <= q < c1.phis@.len() ==> #[trigger] c2.phis@[q] == c1.phis@[q],
        forall|q: int| c1.phis@.len() <= q < c2.phis@.len()
            ==> (#[trigger] c2.phis@[q]).replaced is None,
        forall|i: int| 0 <= i < c1.blocks@.len()
            ==> (#[trigger] c2.blocks@[i]).preds@ == c1.blocks@[i].preds@
                && c2.blocks@[i].sealed == c1.blocks@[i].sealed
                && c2.blocks@[i].defs@.len() == c1.blocks@[i].defs@.len(),
        forall|i: int| 0 <= i < c1.blocks@.len()
            ==> (#[trigger] c1.blocks@[i]).incomplete@.is_prefix_of(c2.blocks@[i].incomplete@)
                && (c1.blocks@[i].sealed
                    ==> c2.blocks@[i].incomplete@ == c1.blocks@[i].incomplete@)
                && (forall|j: int|
                    c1.blocks@[i].incomplete@.len() <= j < c2.blocks@[i].incomplete@.len()
                        ==> (#[trigger] c2.blocks@[i].incomplete@[j]).1 >= c1.phis@.len()),
        forall|i: int, xx: int|
            0 <= i < c1.blocks@.len() && 0 <= xx < c1.num_vars
                && (#[trigger] def_of(c1, i, xx)) is Some
                ==> def_of(c2, i, xx) == def_of(c1, i, xx),
        c1.diagnostics@.is_prefix_of(c2.diagnostics@),
    ensures
        tracks(c1, c2),
        pending_tracked(c1, c2, -1),
        incomplete_grows(c1, c2),
        forall|w: SsaValue| wf_value(c1, w) && !is_stale(c1, w)
            ==> final_of(c2, w) == w && wf_value(c2, w) && !is_stale(c2, w),
{
    assert forall|w: SsaValue| wf_value(c1, w) && !is_stale(c1, w)
        implies final_of(c2, w) == w && wf_value(c2, w) && !is_stale(c2, w) by {
        if w is Phi {
            let q = w->phi as int;
            assert(c2.phis@[q] == c1.phis@[q]);
        }
    }
    assert forall|i: int| 0 <= i < c1.blocks@.len()
        implies (#[trigger] c1.blocks@[i]).preds@.is_prefix_of(c2.blocks@[i].preds@) by {
        assert(c1.blocks@[i].preds@
            =~= c2.blocks@[i].preds@.subrange(0, c1.blocks@[i].preds@.len() as int));
    }
    assert forall|i: int, xx: int|
        0 <= i < c1.blocks@.len() && 0 <= xx < c1.num_vars
            && (#[trigger] def_of(c1, i, xx)) is Some
        implies def_of(c2, i, xx) == Some(final_of(c2, def_of(c1, i, xx)->Some_0)) by {
        let w = def_of(c1, i, xx)->Some_0;
        assert(wf_value(c1, w) && !is_stale(c1, w));
        assert(final_of(c2, w) == w);
    }
    assert forall|p: int, i: int|
        0 <= p < c1.phis@.len() && !(#[trigger] c1.phis@[p]).pending
            && 0 <= i < c1.phis@[p].operands@.len()
        implies (#[trigger] c2.phis@[p].operands@[i])
            == (c1.phis@[p].operands@[i].0, final_of(c2, c1.phis@[p].operands@[i].1)) by {
        let w = c1.phis@[p].operands@[i].1;
        assert(wf_value(c1, w) && !is_stale(c1, w));
    }
    assert forall|p: int| 0 <= p < c1.phis@.len() && (#[trigger] c1.phis@[p]).replaced is Some
        implies c2.phis@[p].replaced
            == Some(final_of(c2, c1.phis@[p].replaced->Some_0)) by {
        let t = c1.phis@[p].replaced->Some_0;
        assert(wf_value(c1, t) && !is_stale(c1, t));
    }
    assert forall|q: int, i: int|
        0 <= q < c1.phis@.len() && (#[trigger] c1.phis@[q]).pending
            && 0 <= i < c1.phis@[q].operands@.len()
        implies (#[trigger] c2.phis@[q].operands@[i])
            == (c1.phis@[q].operands@[i].0, final_of(c2, c1.phis@[q].operands@[i].1)) by {
        let w = c1.phis@[q].operands@[i].1;
        assert(wf_value(c1, w) && !is_stale(c1, w));
    }
}

impl SsaContext {
    /// Record an assignment to `x` in block `b`: allocate the next
    /// version of `x` and make the resulting value the block-local
    /// definition. The version counter is per variable and global
    /// across the procedure, so no two writes of one name collide.
    pub fn write_variable(&mut self, x: VarId, b: BlockId) -> (r: SsaValue)
        requires
            inv(*old(self)),
            x < old(self).num_vars,
            b < old(self).blocks@.len(),
            old(self).versions@[x as int] < usize::MAX,
        ensures
            inv(*final(self)),
            extends(*old(self), *final(self)),
            write_step(*old(self), *final(self), x, b, r),
    {
        let ghost c1 = *old(self);
        let version = self.versions[x];
        self.versions[x] = version + 1;
        let r = SsaValue::Var { var: x, version };
        self.blocks[b].defs[x] = Some(r);
        proof {
            let c2 = *self;
            assert forall|i: int, xx: int|
                0 <= i < c2.blocks@.len() && 0 <= xx < c2.num_vars
                    && (#[trigger] def_of(c2, i, xx)) is Some
                implies wf_value(c2, def_of(c2, i, xx)->Some_0)
                    && !is_stale(c2, def_of(c2, i, xx)->Some_0) by {
                if i != b || xx != x as int {
                    assert(def_of(c1, i, xx) == def_of(c2, i, xx));
                }
            }
            assert forall|i: int, j: int|
                0 <= i < c2.blocks@.len() && 0 <= j < c2.blocks@[i].incomplete@.len()
                implies def_of(c2, i, (#[trigger] c2.blocks@[i].incomplete@[j]).0 as int)
                    is Some by {
                assert(c2.blocks@[i].incomplete@ == c1.blocks@[i].incomplete@);
                let e = c1.blocks@[i].incomplete@[j];
                assert(def_of(c1, i, e.0 as int) is Some);
            }
            lemma_tracks_refl(c1);
        }
        r
    }

    /// Resolve a read of `x` in block `b` to its one reaching SSA value.
    pub fn read_variable(&mut self, x: VarId, b: BlockId) -> (r: SsaValue)
        requires
            inv(*old(self)),
            x < old(self).num_vars,
            b < old(self).blocks@.len(),
        ensures
            inv(*final(self)),
            read_step(*old(self), *final(self), x, b, r),
        decreases
            undef_count(self.blocks@, x as int),
            b as int,
            1int,
            0int,
    {
        let ghost c1 = *old(self);
        proof {
            lemma_tracks_refl(c1);
        }
        let cur = self.blocks[b].defs[x];
        if let Some(v) = cur {
            return v;
        }
        if !self.blocks[b].sealed {
            // predecessor set still open: register an incomplete phi and
            // bind it at once, which breaks recursion across back edges
            let p = self.phis.len();
            self.phis.push(PhiNode {
                block: b,
                var: x,
                operands: Vec::new(),
                pending: true,
                replaced: None,
            });
            self.blocks[b].incomplete.push((x, p));
            let r = SsaValue::Phi { phi: p };
            self.blocks[b].defs[x] = Some(r);
            proof {
                let c2 = *self;
                let bi = b as int;
                assert forall|i: int| 0 <= i < c1.blocks@.len()
                    implies (#[trigger] c1.blocks@[i]).incomplete@
                        .is_prefix_of(c2.blocks@[i].incomplete@) by {
                    assert(c1.blocks@[i].incomplete@ =~= c2.blocks@[i].incomplete@
                        .subrange(0, c1.blocks@[i].incomplete@.len() as int));
                }
                assert(c1.diagnostics@
                    =~= c2.diagnostics@.subrange(0, c1.diagnostics@.len() as int));
                lemma_grow(c1, c2);
                assert forall|i: int, xx: int|
                    0 <= i < c2.blocks@.len() && 0 <= xx < c2.num_vars
                        && (#[trigger] def_of(c2, i, xx)) is Some
                    implies wf_value(c2, def_of(c2, i, xx)->Some_0)
                        && !is_stale(c2, def_of(c2, i, xx)->Some_0) by {
                    if i != bi || xx != x as int {
                        assert(def_of(c1, i, xx) == def_of(c2, i, xx));
                    }
                }
                assert forall|i: int, j: int|
                    0 <= i < c2.blocks@.len() && 0 <= j < c2.blocks@[i].incomplete@.len()
                    implies {
                        let e = #[trigger] c2.blocks@[i].incomplete@[j];
                        &&& e.0 < c2.num_vars
                        &&& e.1 < c2.phis@.len()
                        &&& c2.phis@[e.1 as int].var == e.0
                        &&& c2.phis@[e.1 as int].block == i
                        &&& c2.phis@[e.1 as int].pending
                        &&& c2.phis@[e.1 as int].replaced is None
                        &&& c2.phis@[e.1 as int].operands@.len() == 0
                        &&& def_of(c2, i, e.0 as int) is Some
                    } by {
                    if i != bi || j < c1.blocks@[i].incomplete@.len() {
                        let e = c1.blocks@[i].incomplete@[j];
                        assert(c2.phis@[e.1 as int] == c1.phis@[e.1 as int]);
                        assert(def_of(c1, i, e.0 as int) is Some);
                    }
                }
                assert(inv(c2));
                assert(read_step(c1, c2, x, b, r));
            }
            return SsaValue::Phi { phi: p };
        }
        let n = self.blocks[b].preds.len();
        if n == 0 {
            // procedure entry and no definition anywhere: bind the
            // undefined placeholder and record a diagnostic
            self.diagnostics.push(Diagnostic { var: x, block: b });
            let r = SsaValue::Undef { var: x };
            self.blocks[b].defs[x] = Some(r);
            proof {
                let c2 = *self;
                let bi = b as int;
                assert forall|i: int| 0 <= i < c1.blocks@.len()
                    implies (#[trigger] c1.blocks@[i]).incomplete@
                        .is_prefix_of(c2.blocks@[i].incomplete@) by {
                    assert(c1.blocks@[i].incomplete@ =~= c2.blocks@[i].incomplete@
                        .subrange(0, c1.blocks@[i].incomplete@.len() as int));
                }
                assert(c1.diagnostics@
                    =~= c2.diagnostics@.subrange(0, c1.diagnostics@.len() as int));
                lemma_grow(c1, c2);
                assert forall|i: int, xx: int|
                    0 <= i < c2.blocks@.len() && 0 <= xx < c2.num_vars
                        && (#[trigger] def_of(c2, i, xx)) is Some
                    implies wf_value(c2, def_of(c2, i, xx)->Some_0)
                        && !is_stale(c2, def_of(c2, i, xx)->Some_0) by {
                    if i != bi || xx != x as int {
                        assert(def_of(c1, i, xx) == def_of(c2, i, xx));
                    }
                }
                assert forall|i: int, j: int|
                    0 <= i < c2.blocks@.len() && 0 <= j < c2.blocks@[i].incomplete@.len()
                    implies def_of(c2, i,
                        (#[trigger] c2.blocks@[i].incomplete@[j]).0 as int) is Some by {
                    let e = c1.blocks@[i].incomplete@[j];
                    assert(def_of(c1, i, e.0 as int) is Some);
                }
                assert(inv(c2));
                assert(read_step(c1, c2, x, b, r));
            }
            return r;
        }
        if n == 1 {
            // exactly one predecessor: resolve there and memoize
            let pd = self.blocks[b].preds[0];
            let v = self.read_variable(x, pd);
            let ghost cr = *self;
            self.blocks[b].defs[x] = Some(v);
            proof {
                let c2 = *self;
                let bi = b as int;
                assert forall|w: SsaValue| #[trigger] final_of(c2, w) == final_of(cr, w)
                    && (wf_value(c2, w) == wf_value(cr, w))
                    && (is_stale(c2, w) == is_stale(cr, w)) by {}
                assert forall|i: int, xx: int|
                    0 <= i < c2.blocks@.len() && 0 <= xx < c2.num_vars
                        && (#[trigger] def_of(c2, i, xx)) is Some
                    implies wf_value(c2, def_of(c2, i, xx)->Some_0)
                        && !is_stale(c2, def_of(c2, i, xx)->Some_0) by {
                    if i != bi || xx != x as int {
                        assert(def_of(cr, i, xx) == def_of(c2, i, xx));
                    }
                }
                assert forall|i: int, j: int|
                    0 <= i < c2.blocks@.len() && 0 <= j < c2.blocks@[i].incomplete@.len()
                    implies def_of(c2, i,
                        (#[trigger] c2.blocks@[i].incomplete@[j]).0 as int) is Some by {
                    let e = cr.blocks@[i].incomplete@[j];
                    assert(def_of(cr, i, e.0 as int) is Some);
                }
                assert(inv(c2));
                // the structural clauses of tracks survive the rebind
                assert forall|i: int| 0 <= i < c1.blocks@.len()
                    implies (#[trigger] c1.blocks@[i]).preds@
                        .is_prefix_of(c2.blocks@[i].preds@) by {
                    assert(c1.blocks@[i].preds@.is_prefix_of(cr.blocks@[i].preds@));
                }
                assert forall|i: int| 0 <= i < c1.blocks@.len()
                    implies (#[trigger] c1.blocks@[i]).incomplete@
                        .is_prefix_of(c2.blocks@[i].incomplete@) by {
                    assert(c1.blocks@[i].incomplete@.is_prefix_of(cr.blocks@[i].incomplete@));
                }
                assert(c1.diagnostics@.is_prefix_of(c2.diagnostics@)) by {
                    assert(c1.diagnostics@.is_prefix_of(cr.diagnostics@));
                }
                assert forall|i: int, xx: int|
                    0 <= i < c1.blocks@.len() && 0 <= xx < c1.num_vars
                        && (#[trigger] def_of(c1, i, xx)) is Some
                    implies def_of(c2, i, xx)
                        == Some(final_of(c2, def_of(c1, i, xx)->Some_0)) by {
                    if i != bi || xx != x as int {
                        assert(def_of(c2, i, xx) == def_of(cr, i, xx));
                    }
                }
                assert(tracks(c1, c2));
                assert(pd != b) by {
                    assert(c1.blocks@[bi].preds@[0] < bi);
                }
                assert(def_of(c2, pd as int, x as int) == Some(v));
                if def_of(c1, pd as int, x as int) is Some {
                    // the predecessor already carried a binding: the
                    // recursive read was memoized and changed nothing
                    assert(cr == c1);
                }
                assert(read_step(c1, c2, x, b, v));
            }
            return v;
        }
        // sealed merge point: create the phi, bind it before resolving
        // operands (breaking cycles), then fill the operands in
        // predecessor order and attempt trivial-phi collapse
        let p = self.phis.len();
        self.phis.push(PhiNode {
            block: b,
            var: x,
            operands: Vec::new(),
            pending: true,
            replaced: None,
        });
        self.blocks[b].defs[x] = Some(SsaValue::Phi { phi: p });
        let ghost cm = *self;
        proof {
            let bi = b as int;
            assert forall|i: int| 0 <= i < c1.blocks@.len()
                implies (#[trigger] c1.blocks@[i]).incomplete@
                    .is_prefix_of(cm.blocks@[i].incomplete@) by {
                assert(c1.blocks@[i].incomplete@ =~= cm.blocks@[i].incomplete@
                    .subrange(0, c1.blocks@[i].incomplete@.len() as int));
            }
            assert(c1.diagnostics@
                =~= cm.diagnostics@.subrange(0, c1.diagnostics@.len() as int));
            lemma_grow(c1, cm);
            assert forall|i: int, xx: int|
                0 <= i < cm.blocks@.len() && 0 <= xx < cm.num_vars
                    && (#[trigger] def_of(cm, i, xx)) is Some
                implies wf_value(cm, def_of(cm, i, xx)->Some_0)
                    && !is_stale(cm, def_of(cm, i, xx)->Some_0) by {
                if i != bi || xx != x as int {
                    assert(def_of(c1, i, xx) == def_of(cm, i, xx));
                }
            }
            assert forall|i: int, j: int|
                0 <= i < cm.blocks@.len() && 0 <= j < cm.blocks@[i].incomplete@.len()
                implies ((#[trigger] cm.blocks@[i].incomplete@[j]).1 != p
                    && def_of(cm, i, cm.blocks@[i].incomplete@[j].0 as int) is Some) by {
                let e = c1.blocks@[i].incomplete@[j];
                assert(e.1 < c1.phis@.len());
                assert(def_of(c1, i, e.0 as int) is Some);
            }
            assert(inv(cm));
            lemma_undef_count_strict(c1.blocks@, cm.blocks@, x as int, b as int);
        }
        let r = self.complete_phi_ops(x, b, p);
        proof {
            let c2 = *self;
            let bi = b as int;
            let xi = x as int;
            lemma_tracks_trans(c1, cm, c2);
            assert forall|q: int|
                0 <= q < c1.phis@.len() && (#[trigger] c1.phis@[q]).pending
                implies c2.phis@[q].operands@.len() == c1.phis@[q].operands@.len()
                    && (forall|i: int| 0 <= i < c1.phis@[q].operands@.len()
                        ==> #[trigger] c2.phis@[q].operands@[i]
                            == (c1.phis@[q].operands@[i].0,
                                final_of(c2, c1.phis@[q].operands@[i].1))) by {
                assert(cm.phis@[q] == c1.phis@[q]);
                assert forall|i: int| 0 <= i < c1.phis@[q].operands@.len()
                    implies #[trigger] c2.phis@[q].operands@[i]
                        == (c1.phis@[q].operands@[i].0,
                            final_of(c2, c1.phis@[q].operands@[i].1)) by {
                    assert(cm.phis@[q].operands@[i] == c1.phis@[q].operands@[i]);
                    assert(c2.phis@[q].operands@[i]
                        == (cm.phis@[q].operands@[i].0,
                            final_of(c2, cm.phis@[q].operands@[i].1)));
                }
            }
            assert forall|bb: int| 0 <= bb < c1.blocks@.len()
                implies (#[trigger] c1.blocks@[bb]).incomplete@
                    .is_prefix_of(c2.blocks@[bb].incomplete@)
                    && (forall|j: int|
                        c1.blocks@[bb].incomplete@.len() <= j < c2.blocks@[bb].incomplete@.len()
                            ==> (#[trigger] c2.blocks@[bb].incomplete@[j]).1
                                >= c1.phis@.len()) by {
                assert(cm.blocks@[bb].incomplete@ == c1.blocks@[bb].incomplete@);
                assert(c1.blocks@[bb].incomplete@.is_prefix_of(c2.blocks@[bb].incomplete@));
                assert forall|j: int|
                    c1.blocks@[bb].incomplete@.len() <= j < c2.blocks@[bb].incomplete@.len()
                    implies (#[trigger] c2.blocks@[bb].incomplete@[j]).1 >= c1.phis@.len() by {
                    assert(c2.blocks@[bb].incomplete@[j].1 >= cm.phis@.len());
                }
            }
            // definition of the read: the bound phi, followed to its
            // final value
            assert(def_of(cm, bi, xi) == Some(SsaValue::Phi { phi: p }));
            assert(def_of(c2, bi, xi) == Some(final_of(c2, SsaValue::Phi { phi: p })));
            assert(def_of(c2, bi, xi) == Some(r));
            assert(wf_value(c2, r) && !is_stale(c2, r)) by {
                assert(def_of(c2, bi, xi) is Some);
            }
            // the merge conditional
            if all_preds_defined(c1, bi, xi) {
                let vals = pred_vals(c1, bi, xi);
                let np = c1.blocks@[bi].preds@.len() as int;
                assert forall|j: int| 0 <= j < np
                    implies c1.blocks@[bi].preds@[j] != b by {
                    if c1.blocks@[bi].preds@[j] == b {
                        assert(def_of(c1, bi, xi) is Some);
                    }
                }
                assert forall|j: int| 0 <= j < np
                    implies def_of(cm, #[trigger] c1.blocks@[bi].preds@[j] as int, xi)
                        == def_of(c1, c1.blocks@[bi].preds@[j] as int, xi) by {}
                assert(rest_defined(cm, bi, xi, 0));
                let full = cm.phis@[p as int].operands@ + rest_zip(cm, bi, xi, 0);
                assert(full =~= rest_zip(cm, bi, xi, 0));
                assert(rest_zip(cm, bi, xi, 0) =~= rest_zip(c1, bi, xi, 0));
                assert forall|j: int| 0 <= j < np
                    implies (#[trigger] full[j]).1 == vals[j]
                        && vals[j] != (SsaValue::Phi { phi: p }) by {
                    let w = def_of(c1, c1.blocks@[bi].preds@[j] as int, xi)->Some_0;
                    assert(wf_value(c1, w));
                }
                if forall|i: int| 0 <= i < vals.len() ==> #[trigger] vals[i] == vals[0] {
                    assert(is_trivial(full, p, vals[0])) by {
                        assert(full[0].1 == vals[0]);
                    }
                    assert(r == vals[0]);
                    assert(c2.phis@[p as int].replaced == Some(r));
                } else {
                    let k = choose|i: int| 0 <= i < vals.len() && #[trigger] vals[i] != vals[0];
                    assert forall|v: SsaValue| !is_trivial(full, p, v) by {
                        if is_trivial(full, p, v) {
                            assert(full[0].1 == v || full[0].1 == (SsaValue::Phi { phi: p }));
                            assert(full[k].1 == v || full[k].1 == (SsaValue::Phi { phi: p }));
                        }
                    }
                    assert(r == (SsaValue::Phi { phi: p }));
                    assert(c2.phis@[p as int].operands@ == rest_zip(c1, bi, xi, 0));
                }
            }
            assert(read_step(c1, c2, x, b, r));
        }
        r
    }

    /// Fill the remaining operands of phi node `p` (for variable `x` at
    /// sealed block `b`), one predecessor at a time in predecessor
    /// order, then mark it complete and attempt trivial-phi collapse.
    #[verifier::rlimit(100)]
    fn complete_phi_ops(&mut self, x: VarId, b: BlockId, p: crate::syntax::PhiId)
        -> (r: SsaValue)
        requires
            inv(*old(self)),
            x < old(self).num_vars,
            b < old(self).blocks@.len(),
            p < old(self).phis@.len(),
            old(self).phis@[p as int].block == b,
            old(self).phis@[p as int].var == x,
            old(self).phis@[p as int].pending,
            old(self).phis@[p as int].replaced is None,
            old(self).blocks@[b as int].sealed,
            def_of(*old(self), b as int, x as int) is Some,
            old(self).phis@[p as int].operands@.len()
                <= old(self).blocks@[b as int].preds@.len(),
            forall|j: int| 0 <= j < old(self).phis@[p as int].operands@.len()
                ==> (#[trigger] old(self).phis@[p as int].operands@[j]).0
                        == old(self).blocks@[b as int].preds@[j]
                    && def_of(*old(self),
                        old(self).blocks@[b as int].preds@[j] as int, x as int)
                        == Some(old(self).phis@[p as int].operands@[j].1),
            forall|bb: int, j: int|
                0 <= bb < old(self).blocks@.len()
                    && 0 <= j < old(self).blocks@[bb].incomplete@.len()
                    ==> (#[trigger] old(self).blocks@[bb].incomplete@[j]).1 != p,
        ensures
            inv(*final(self)),
            tracks(*old(self), *final(self)),
            pending_tracked(*old(self), *final(self), p as int),
            incomplete_grows(*old(self), *final(self)),
            final(self).blocks@.len() == old(self).blocks@.len(),
            final(self).versions@ == old(self).versions@,
            forall|i: int| 0 <= i < old(self).blocks@.len()
                ==> (#[trigger] final(self).blocks@[i]).preds@ == old(self).blocks@[i].preds@
                    && final(self).blocks@[i].sealed == old(self).blocks@[i].sealed,
            !final(self).phis@[p as int].pending,
            r == final_of(*final(self), SsaValue::Phi { phi: p }),
            def_of(*final(self), b as int, x as int) is Some,
            final(self).phis@[p as int].replaced is None ==> {
                &&& final(self).phis@[p as int].operands@.len()
                        == final(self).blocks@[b as int].preds@.len()
                &&& forall|j: int| 0 <= j < final(self).blocks@[b as int].preds@.len()
                        ==> (#[trigger] final(self).phis@[p as int].operands@[j]).0
                                == final(self).blocks@[b as int].preds@[j]
                            && def_of(*final(self),
                                final(self).blocks@[b as int].preds@[j] as int, x as int)
                                == Some(final(self).phis@[p as int].operands@[j].1)
            },
            rest_defined(*old(self), b as int, x as int,
                old(self).phis@[p as int].operands@.len() as int) ==> {
                let full = old(self).phis@[p as int].operands@
                    + rest_zip(*old(self), b as int, x as int,
                        old(self).phis@[p as int].operands@.len() as int);
                &&& final(self).phis@.len() == old(self).phis@.len()
                &&& final(self).diagnostics@ == old(self).diagnostics@
                &&& ((forall|v: SsaValue| !(#[trigger] is_trivial(full, p, v))) ==> {
                    &&& r == (SsaValue::Phi { phi: p })
                    &&& final(self).phis@[p as int].replaced is None
                    &&& final(self).phis@[p as int].operands@ == full
                    &&& final(self).blocks@ == old(self).blocks@
                    &&& forall|q: int| 0 <= q < old(self).phis@.len() && q != p
                            ==> #[trigger] final(self).phis@[q] == old(self).phis@[q]
                })
                &&& (forall|v: SsaValue| #[trigger] is_trivial(full, p, v) ==> {
                    &&& r == v
                    &&& final(self).phis@[p as int].replaced == Some(v)
                    &&& forall|bb: int, xx: int|
                        0 <= bb < old(self).blocks@.len() && 0 <= xx < old(self).num_vars
                            ==> def_of(*final(self), bb, xx)
                                == crate::optimizer::opt_subst(
                                    #[trigger] def_of(*old(self), bb, xx), p, v)
                })
            },
        decreases
            undef_count(self.blocks@, x as int),
            self.blocks@.len() as int,
            0int,
            self.blocks@[b as int].preds@.len() - self.phis@[p as int].operands@.len(),
    {
        let ghost c1 = *old(self);
        let n = self.blocks[b].preds.len();
        let i = self.phis[p].operands.len();
        if i == n {
            self.phis[p].pending = false;
            let ghost cm = *self;
            proof {
                let bi = b as int;
                let pi = p as int;
                assert forall|w: SsaValue| #[trigger] final_of(cm, w) == final_of(c1, w)
                    && (is_stale(cm, w) == is_stale(c1, w)) by {}
                assert forall|bb: int, j: int|
                    0 <= bb < cm.blocks@.len() && 0 <= j < cm.blocks@[bb].incomplete@.len()
                    implies {
                        let e = #[trigger] cm.blocks@[bb].incomplete@[j];
                        cm.phis@[e.1 as int].pending && cm.phis@[e.1 as int].replaced is None
                    } by {
                    let e = c1.blocks@[bb].incomplete@[j];
                    assert(e.1 != p);
                    assert(cm.phis@[e.1 as int] == c1.phis@[e.1 as int]);
                }
                assert forall|i2: int, xx: int|
                    0 <= i2 < cm.blocks@.len() && 0 <= xx < cm.num_vars
                        && (#[trigger] def_of(cm, i2, xx)) is Some
                    implies wf_value(cm, def_of(cm, i2, xx)->Some_0)
                        && !is_stale(cm, def_of(cm, i2, xx)->Some_0) by {
                    assert(def_of(cm, i2, xx) == def_of(c1, i2, xx));
                }
                assert(inv(cm));
                assert forall|i2: int| 0 <= i2 < c1.blocks@.len()
                    implies (#[trigger] c1.blocks@[i2]).preds@
                            .is_prefix_of(cm.blocks@[i2].preds@)
                        && c1.blocks@[i2].incomplete@
                            .is_prefix_of(cm.blocks@[i2].incomplete@) by {
                    assert(c1.blocks@[i2].preds@
                        =~= cm.blocks@[i2].preds@.subrange(0, c1.blocks@[i2].preds@.len() as int));
                    assert(c1.blocks@[i2].incomplete@ =~= cm.blocks@[i2].incomplete@
                        .subrange(0, c1.blocks@[i2].incomplete@.len() as int));
                }
                assert(c1.diagnostics@
                    =~= cm.diagnostics@.subrange(0, c1.diagnostics@.len() as int));
                assert forall|i2: int, xx: int|
                    0 <= i2 < c1.blocks@.len() && 0 <= xx < c1.num_vars
                        && (#[trigger] def_of(c1, i2, xx)) is Some
                    implies def_of(cm, i2, xx)
                        == Some(final_of(cm, def_of(c1, i2, xx)->Some_0)) by {
                    let w = def_of(c1, i2, xx)->Some_0;
                    assert(!is_stale(c1, w));
                }
                assert(tracks(c1, cm));
                assert(pending_tracked(c1, cm, pi));
            }
            let r = self.try_collapse(p);
            proof {
                let c2 = *self;
                let bi = b as int;
                let pi = p as int;
                let ops = cm.phis@[pi].operands@;
                lemma_tracks_trans(c1, cm, c2);
                let full = c1.phis@[pi].operands@ + rest_zip(c1, bi, x as int, n as int);
                assert(full =~= ops);
                if exists|v: SsaValue| is_trivial(ops, p, v) {
                    let v = choose|v: SsaValue| is_trivial(ops, p, v);
                    assert(is_trivial(cm.phis@[p as int].operands@, p, v));
                    assert(r == v);
                    assert(crate::optimizer::replace_step(cm, c2, p, v));
                    assert(r == final_of(c2, SsaValue::Phi { phi: p }));
                    assert forall|q: int|
                        0 <= q < c1.phis@.len() && (#[trigger] c1.phis@[q]).pending && q != pi
                        implies c2.phis@[q].pending
                            && c2.phis@[q].replaced is None
                            && c2.phis@[q].operands@.len() == c1.phis@[q].operands@.len()
                            && (forall|i2: int| 0 <= i2 < c1.phis@[q].operands@.len()
                                ==> #[trigger] c2.phis@[q].operands@[i2]
                                    == (c1.phis@[q].operands@[i2].0,
                                        final_of(c2, c1.phis@[q].operands@[i2].1))) by {
                        assert(crate::optimizer::phi_substed(cm.phis@[q], c2.phis@[q], p, v));
                        assert(cm.phis@[q] == c1.phis@[q]);
                        assert forall|i2: int| 0 <= i2 < c1.phis@[q].operands@.len()
                            implies #[trigger] c2.phis@[q].operands@[i2]
                                == (c1.phis@[q].operands@[i2].0,
                                    final_of(c2, c1.phis@[q].operands@[i2].1)) by {
                            let w = c1.phis@[q].operands@[i2].1;
                            assert(!is_stale(c1, w));
                            if w == (SsaValue::Phi { phi: p }) {
                                assert(final_of(c2, w) == v);
                            } else {
                                assert(crate::context::subst(w, p, v) == w);
                                if w is Phi {
                                    assert(crate::optimizer::phi_substed(
                                        cm.phis@[w->phi as int], c2.phis@[w->phi as int], p, v));
                                }
                            }
                        }
                    }
                    assert forall|v2: SsaValue| is_trivial(full, p, v2) implies v2 == v by {
                        let w = choose|i2: int| 0 <= i2 < ops.len()
                            && (#[trigger] ops[i2]).1 == v;
                        assert(ops[w].1 == v2 || ops[w].1 == (SsaValue::Phi { phi: p }));
                    }
                    assert forall|bb: int, xx: int|
                        0 <= bb < c1.blocks@.len() && 0 <= xx < c1.num_vars
                        implies def_of(c2, bb, xx)
                            == crate::optimizer::opt_subst(
                                #[trigger] def_of(c1, bb, xx), p, v) by {
                        assert(crate::optimizer::block_substed(
                            cm.blocks@[bb], c2.blocks@[bb], p, v));
                    }
                } else {
                    assert(c2 == cm);
                    assert(r == (SsaValue::Phi { phi: p }));
                    assert(r == final_of(c2, SsaValue::Phi { phi: p }));
                    assert(pending_tracked(c1, c2, pi));
                }
                assert forall|bb: int| 0 <= bb < c1.blocks@.len()
                    implies (#[trigger] c1.blocks@[bb]).incomplete@
                        .is_prefix_of(c2.blocks@[bb].incomplete@) by {
                    assert(c2.blocks@[bb].incomplete@ == c1.blocks@[bb].incomplete@);
                    assert(c1.blocks@[bb].incomplete@ =~= c2.blocks@[bb].incomplete@
                        .subrange(0, c1.blocks@[bb].incomplete@.len() as int));
                }
                assert(def_of(c2, bi, x as int) is Some) by {
                    assert(def_of(c1, bi, x as int) is Some);
                }
            }
            r
        } else {
            let pd = self.blocks[b].preds[i];
            let v = self.read_variable(x, pd);
            let ghost cr = *self;
            self.phis[p].operands.push((pd, v));
            let ghost cm = *self;
            proof {
                let bi = b as int;
                let xi = x as int;
                let pi = p as int;
                assert forall|w: SsaValue| #[trigger] final_of(cm, w) == final_of(cr, w)
                    && (is_stale(cm, w) == is_stale(cr, w))
                    && (wf_value(cm, w) == wf_value(cr, w)) by {}
                // the phi node p survives the recursive read untouched
                assert(cr.phis@[pi].pending && cr.phis@[pi].replaced is None
                    && cr.phis@[pi].operands@.len() == i
                    && cr.phis@[pi].block == b && cr.phis@[pi].var == x);
                assert forall|i2: int, xx: int|
                    0 <= i2 < cm.blocks@.len() && 0 <= xx < cm.num_vars
                        && (#[trigger] def_of(cm, i2, xx)) is Some
                    implies wf_value(cm, def_of(cm, i2, xx)->Some_0)
                        && !is_stale(cm, def_of(cm, i2, xx)->Some_0) by {
                    assert(def_of(cm, i2, xx) == def_of(cr, i2, xx));
                }
                assert forall|bb: int, j: int|
                    0 <= bb < cm.blocks@.len() && 0 <= j < cm.blocks@[bb].incomplete@.len()
                    implies def_of(cm, bb,
                        (#[trigger] cm.blocks@[bb].incomplete@[j]).0 as int) is Some by {
                    let e = cr.blocks@[bb].incomplete@[j];
                    assert(def_of(cr, bb, e.0 as int) is Some);
                }
                // old incomplete entries still avoid p: new ones are fresh
                assert forall|bb: int, j: int|
                    0 <= bb < cm.blocks@.len() && 0 <= j < cm.blocks@[bb].incomplete@.len()
                    implies (#[trigger] cm.blocks@[bb].incomplete@[j]).1 != p by {
                    if j < c1.blocks@[bb].incomplete@.len() {
                        assert(cm.blocks@[bb].incomplete@[j]
                            == c1.blocks@[bb].incomplete@[j]);
                    } else {
                        assert(cm.blocks@[bb].incomplete@[j].1 >= c1.phis@.len());
                    }
                }
                assert(inv(cm));
                // the filled prefix still pairs each predecessor with its
                // current definition
                assert forall|j: int| 0 <= j < i + 1
                    implies (#[trigger] cm.phis@[pi].operands@[j]).0
                            == cm.blocks@[bi].preds@[j]
                        && def_of(cm, cm.blocks@[bi].preds@[j] as int, xi)
                            == Some(cm.phis@[pi].operands@[j].1) by {
                    if j < i {
                        let w = c1.phis@[pi].operands@[j].1;
                        assert(cm.phis@[pi].operands@[j]
                            == (c1.phis@[pi].operands@[j].0, final_of(cr, w)));
                        assert(def_of(cr, c1.blocks@[bi].preds@[j] as int, xi)
                            == Some(final_of(cr, w)));
                        assert(cm.blocks@[bi].preds@[j] == c1.blocks@[bi].preds@[j]);
                    } else {
                        assert(def_of(cr, pd as int, xi) == Some(v));
                    }
                }
                assert forall|i2: int|
                    0 <= i2 < c1.blocks@.len()
                        && (#[trigger] c1.blocks@[i2]).defs@[xi] is Some
                    implies cm.blocks@[i2].defs@[xi] is Some by {
                    assert(def_of(c1, i2, xi) is Some);
                    assert(def_of(cm, i2, xi) is Some);
                }
                lemma_undef_count_mono(c1.blocks@, cm.blocks@, x as int);
            }
            let r = self.complete_phi_ops(x, b, p);
            proof {
                let c2 = *self;
                let bi = b as int;
                let xi = x as int;
                let pi = p as int;
                // tracks composes across read, fill and recursion
                assert forall|i2: int| 0 <= i2 < cr.blocks@.len()
                    implies (#[trigger] cr.blocks@[i2]).preds@
                            .is_prefix_of(cm.blocks@[i2].preds@)
                        && cr.blocks@[i2].incomplete@
                            .is_prefix_of(cm.blocks@[i2].incomplete@) by {
                    assert(cr.blocks@[i2].preds@
                        =~= cm.blocks@[i2].preds@.subrange(0, cr.blocks@[i2].preds@.len() as int));
                    assert(cr.blocks@[i2].incomplete@ =~= cm.blocks@[i2].incomplete@
                        .subrange(0, cr.blocks@[i2].incomplete@.len() as int));
                }
                assert(cr.diagnostics@
                    =~= cm.diagnostics@.subrange(0, cr.diagnostics@.len() as int));
                assert forall|i2: int, xx: int|
                    0 <= i2 < cr.blocks@.len() && 0 <= xx < cr.num_vars
                        && (#[trigger] def_of(cr, i2, xx)) is Some
                    implies def_of(cm, i2, xx)
                        == Some(final_of(cm, def_of(cr, i2, xx)->Some_0)) by {
                    let w = def_of(cr, i2, xx)->Some_0;
                    assert(!is_stale(cr, w));
                }
                assert(tracks(cr, cm));
                lemma_tracks_trans(c1, cr, cm);
                lemma_tracks_trans(c1, cm, c2);
                lemma_tracks_trans(cr, cm, c2);
                // pending operand lists compose through the final values
                assert forall|q: int|
                    0 <= q < c1.phis@.len() && (#[trigger] c1.phis@[q]).pending && q != pi
                    implies c2.phis@[q].pending
                        && c2.phis@[q].replaced is None
                        && c2.phis@[q].operands@.len() == c1.phis@[q].operands@.len()
                        && (forall|i2: int| 0 <= i2 < c1.phis@[q].operands@.len()
                            ==> #[trigger] c2.phis@[q].operands@[i2]
                                == (c1.phis@[q].operands@[i2].0,
                                    final_of(c2, c1.phis@[q].operands@[i2].1))) by {
                    assert(cm.phis@[q] == cr.phis@[q]);
                    assert forall|i2: int| 0 <= i2 < c1.phis@[q].operands@.len()
                        implies #[trigger] c2.phis@[q].operands@[i2]
                            == (c1.phis@[q].operands@[i2].0,
                                final_of(c2, c1.phis@[q].operands@[i2].1)) by {
                        let w = c1.phis@[q].operands@[i2].1;
                        assert(cr.phis@[q].operands@[i2] == (c1.phis@[q].operands@[i2].0,
                            final_of(cr, w)));
                        assert(c2.phis@[q].operands@[i2] == (c1.phis@[q].operands@[i2].0,
                            final_of(c2, final_of(cr, w))));
                        assert(wf_value(cr, w)) by {
                            assert(wf_value(c1, w));
                        }
                        crate::context::lemma_final_compose(cr, c2, w);
                    }
                }
                // bookkeeping grows with fresh names only
                assert forall|bb: int| 0 <= bb < c1.blocks@.len()
                    implies (#[trigger] c1.blocks@[bb]).incomplete@
                        .is_prefix_of(c2.blocks@[bb].incomplete@)
                        && (forall|j: int|
                            c1.blocks@[bb].incomplete@.len() <= j
                                < c2.blocks@[bb].incomplete@.len()
                            ==> (#[trigger] c2.blocks@[bb].incomplete@[j]).1
                                >= c1.phis@.len()) by {
                    assert(c1.blocks@[bb].incomplete@.is_prefix_of(cr.blocks@[bb].incomplete@));
                    assert(cm.blocks@[bb].incomplete@ == cr.blocks@[bb].incomplete@);
                    assert(cm.blocks@[bb].incomplete@.is_prefix_of(c2.blocks@[bb].incomplete@));
                    assert(c1.blocks@[bb].incomplete@
                        =~= c2.blocks@[bb].incomplete@
                            .subrange(0, c1.blocks@[bb].incomplete@.len() as int));
                    assert forall|j: int|
                        c1.blocks@[bb].incomplete@.len() <= j < c2.blocks@[bb].incomplete@.len()
                        implies (#[trigger] c2.blocks@[bb].incomplete@[j]).1
                            >= c1.phis@.len() by {
                        if j < cm.blocks@[bb].incomplete@.len() {
                            assert(c2.blocks@[bb].incomplete@[j]
                                == cm.blocks@[bb].incomplete@[j]);
                        } else {
                            assert(c2.blocks@[bb].incomplete@[j].1 >= cm.phis@.len());
                        }
                    }
                }
                // the merge conditional, chained through the filled step
                if rest_defined(c1, bi, xi, i as int) {
                    assert(def_of(c1, pd as int, xi) is Some);
                    assert(cr == c1);
                    assert(rest_defined(cm, bi, xi, i + 1));
                    let full1 = c1.phis@[pi].operands@ + rest_zip(c1, bi, xi, i as int);
                    let full2 = cm.phis@[pi].operands@ + rest_zip(cm, bi, xi, i + 1);
                    assert(full1 =~= full2);
                }
                assert(def_of(c2, bi, xi) is Some) by {
                    assert(def_of(c1, bi, xi) is Some);
                }
            }
            r
        }
    }

    /// Seal block `b`: its predecessor set is final. Every incomplete
    /// phi recorded for `b` has its operands resolved from the now-known
    /// predecessors, in registration order, followed by trivial-phi
    /// collapse — the same rule a sealed merge point uses.
    pub fn seal(&mut self, b: BlockId)
        requires
            inv(*old(self)),
            b < old(self).blocks@.len(),
            !old(self).blocks@[b as int].sealed,
        ensures
            inv(*final(self)),
            seal_step(*old(self), *final(self), b),
    {
        let ghost c1 = *old(self);
        self.blocks[b].sealed = true;
        let ghost c1s = *self;
        proof {
            assert forall|i2: int, xx: int|
                0 <= i2 < c1s.blocks@.len() && 0 <= xx < c1s.num_vars
                    && (#[trigger] def_of(c1s, i2, xx)) is Some
                implies wf_value(c1s, def_of(c1s, i2, xx)->Some_0)
                    && !is_stale(c1s, def_of(c1s, i2, xx)->Some_0) by {
                assert(def_of(c1s, i2, xx) == def_of(c1, i2, xx));
            }
            assert forall|i2: int, j: int|
                0 <= i2 < c1s.blocks@.len() && 0 <= j < c1s.blocks@[i2].incomplete@.len()
                implies def_of(c1s, i2,
                    (#[trigger] c1s.blocks@[i2].incomplete@[j]).0 as int) is Some by {
                let e = c1.blocks@[i2].incomplete@[j];
                assert(def_of(c1, i2, e.0 as int) is Some);
            }
            assert(inv(c1s));
            lemma_tracks_refl(c1s);
            assert forall|i2: int| 0 <= i2 < c1.blocks@.len()
                implies (#[trigger] c1.blocks@[i2]).preds@.is_prefix_of(c1s.blocks@[i2].preds@)
                    && c1.blocks@[i2].incomplete@.is_prefix_of(c1s.blocks@[i2].incomplete@) by {
                assert(c1.blocks@[i2].preds@
                    =~= c1s.blocks@[i2].preds@.subrange(0, c1.blocks@[i2].preds@.len() as int));
                assert(c1.blocks@[i2].incomplete@ =~= c1s.blocks@[i2].incomplete@
                    .subrange(0, c1.blocks@[i2].incomplete@.len() as int));
            }
            assert(c1.diagnostics@
                =~= c1s.diagnostics@.subrange(0, c1.diagnostics@.len() as int));
            assert forall|i2: int, xx: int|
                0 <= i2 < c1.blocks@.len() && 0 <= xx < c1.num_vars
                    && (#[trigger] def_of(c1, i2, xx)) is Some
                implies def_of(c1s, i2, xx)
                    == Some(final_of(c1s, def_of(c1, i2, xx)->Some_0)) by {
                let w = def_of(c1, i2, xx)->Some_0;
                assert(!is_stale(c1, w));
            }
            assert(tracks(c1, c1s));
        }
        let ghost inc0 = c1s.blocks@[b as int].incomplete@;
        while self.blocks[b].incomplete.len() > 0
            invariant
                inv(*self),
                inv(c1),
                inv(c1s),
                tracks(c1, c1s),
                c1s.num_vars == c1.num_vars,
                c1s.blocks@.len() == c1.blocks@.len(),
                c1s.phis@ == c1.phis@,
                c1s.diagnostics@ == c1.diagnostics@,
                c1s.versions@ == c1.versions@,
                forall|i2: int| 0 <= i2 < c1.blocks@.len()
                    ==> (#[trigger] c1s.blocks@[i2]).defs@ == c1.blocks@[i2].defs@
                        && c1s.blocks@[i2].preds@ == c1.blocks@[i2].preds@,
                b < c1.blocks@.len(),
                inc0 == c1s.blocks@[b as int].incomplete@,
                inc0 == c1.blocks@[b as int].incomplete@,
                self.blocks@[b as int].incomplete@ =~= inc0.subrange(
                    inc0.len() - self.blocks@[b as int].incomplete@.len(), inc0.len() as int),
                forall|i: int| 0 <= i < c1s.blocks@.len()
                    ==> (#[trigger] self.blocks@[i]).preds@ == c1s.blocks@[i].preds@
                        && self.blocks@[i].sealed == c1s.blocks@[i].sealed,
                forall|j: int| 0 <= j < inc0.len() - self.blocks@[b as int].incomplete@.len()
                    ==> sealed_entry_done(*self, b, (#[trigger] inc0[j]).0, inc0[j].1),
                b < self.blocks@.len(),
                self.blocks@.len() == c1s.blocks@.len(),
                self.versions@ == c1s.versions@,
                self.num_vars == c1s.num_vars,
                self.blocks@[b as int].sealed,
                tracks(c1s, *self),
                inc0.len() == 0 ==> *self == c1s,
                inc0.len() == 1 && all_preds_defined(c1, b as int, inc0[0].0 as int) ==> {
                    ||| (self.blocks@[b as int].incomplete@.len() == 1 && *self == c1s)
                    ||| (self.blocks@[b as int].incomplete@.len() == 0
                        && seal_outcome(c1, *self, b, inc0[0].0, inc0[0].1))
                },
                self.blocks@[b as int].incomplete@.len() <= inc0.len(),
            decreases self.blocks@[b as int].incomplete@.len(),
        {
            let ghost cb = *self;
            let e = self.blocks[b].incomplete.remove(0);
            let ghost ce = *self;
            proof {
                assert(cb.blocks@[b as int].incomplete@[0] == e);
                assert forall|i2: int, xx: int|
                    0 <= i2 < ce.blocks@.len() && 0 <= xx < ce.num_vars
                        && (#[trigger] def_of(ce, i2, xx)) is Some
                    implies wf_value(ce, def_of(ce, i2, xx)->Some_0)
                        && !is_stale(ce, def_of(ce, i2, xx)->Some_0) by {
                    assert(def_of(ce, i2, xx) == def_of(cb, i2, xx));
                }
                assert forall|i2: int, j: int|
                    0 <= i2 < ce.blocks@.len() && 0 <= j < ce.blocks@[i2].incomplete@.len()
                    implies {
                        let e2 = #[trigger] ce.blocks@[i2].incomplete@[j];
                        &&& e2.0 < ce.num_vars
                        &&& e2.1 < ce.phis@.len()
                        &&& ce.phis@[e2.1 as int].var == e2.0
                        &&& ce.phis@[e2.1 as int].block == i2
                        &&& ce.phis@[e2.1 as int].pending
                        &&& ce.phis@[e2.1 as int].replaced is None
                        &&& ce.phis@[e2.1 as int].operands@.len() == 0
                        &&& def_of(ce, i2, e2.0 as int) is Some
                        &&& e2.1 != e.1
                    } by {
                    if i2 == b {
                        assert(ce.blocks@[i2].incomplete@[j]
                            == cb.blocks@[i2].incomplete@[j + 1]);
                    } else {
                        assert(ce.blocks@[i2].incomplete@[j]
                            == cb.blocks@[i2].incomplete@[j]);
                        // a phi registered at another block is another phi
                        assert(cb.phis@[(cb.blocks@[i2].incomplete@[j]).1 as int].block == i2);
                        assert(cb.phis@[e.1 as int].block == b);
                    }
                }
                assert(inv(ce));
            }
            let r = self.complete_phi_ops(e.0, b, e.1);
            proof {
                let c2 = *self;
                assert forall|i2: int| 0 <= i2 < ce.blocks@.len()
                    implies (#[trigger] cb.blocks@[i2]).preds@
                        .is_prefix_of(ce.blocks@[i2].preds@) by {
                    assert(cb.blocks@[i2].preds@
                        =~= ce.blocks@[i2].preds@.subrange(0, cb.blocks@[i2].preds@.len() as int));
                }
                assert(cb.diagnostics@
                    =~= ce.diagnostics@.subrange(0, cb.diagnostics@.len() as int));
                assert forall|i2: int, xx: int|
                    0 <= i2 < cb.blocks@.len() && 0 <= xx < cb.num_vars
                        && (#[trigger] def_of(cb, i2, xx)) is Some
                    implies def_of(ce, i2, xx)
                        == Some(final_of(ce, def_of(cb, i2, xx)->Some_0)) by {
                    let w = def_of(cb, i2, xx)->Some_0;
                    assert(!is_stale(cb, w));
                }
                assert forall|i: int| 0 <= i < c1s.blocks@.len()
                    implies (#[trigger] c2.blocks@[i]).preds@ == c1s.blocks@[i].preds@
                        && c2.blocks@[i].sealed == c1s.blocks@[i].sealed by {
                    assert(ce.blocks@[i].preds@ == cb.blocks@[i].preds@);
                    assert(ce.blocks@[i].sealed == cb.blocks@[i].sealed);
                    assert(c2.blocks@[i].preds@ == ce.blocks@[i].preds@);
                    assert(c2.blocks@[i].sealed == ce.blocks@[i].sealed);
                }
                assert(tracks(cb, ce));
                lemma_tracks_trans(c1s, cb, ce);
                lemma_tracks_trans(c1s, ce, c2);
                lemma_tracks_trans(cb, ce, c2);
                let done = inc0.len() - cb.blocks@[b as int].incomplete@.len();
                assert(ce.blocks@[b as int].incomplete@ =~= inc0.subrange(
                    done + 1, inc0.len() as int));
                assert(sealed_entry_done(c2, b, e.0, e.1));
                assert forall|j: int| 0 <= j < done
                    implies sealed_entry_done(c2, b, (#[trigger] inc0[j]).0, inc0[j].1) by {
                    let q = inc0[j].1 as int;
                    let xq = inc0[j].0 as int;
                    assert(sealed_entry_done(cb, b, inc0[j].0, inc0[j].1));
                    assert(!c2.phis@[q].pending);
                    if c2.phis@[q].replaced is None {
                        assert(cb.phis@[q].replaced is None);
                        assert(c2.blocks@[b as int].preds@ == cb.blocks@[b as int].preds@);
                        assert forall|k: int| 0 <= k < c2.blocks@[b as int].preds@.len()
                            implies (#[trigger] c2.phis@[q].operands@[k]).0
                                    == c2.blocks@[b as int].preds@[k]
                                && def_of(c2, c2.blocks@[b as int].preds@[k] as int, xq)
                                    == Some(c2.phis@[q].operands@[k].1) by {
                            let pk = cb.blocks@[b as int].preds@[k] as int;
                            let w = cb.phis@[q].operands@[k].1;
                            assert(c2.phis@[q].operands@[k]
                                == (cb.phis@[q].operands@[k].0, final_of(c2, w)));
                            assert(def_of(cb, pk, xq) == Some(w));
                            assert(def_of(c2, pk, xq) == Some(final_of(c2, w)));
                        }
                    }
                }
                if inc0.len() == 1 && all_preds_defined(c1, b as int, inc0[0].0 as int) {
                    assert(cb == c1s);
                    assert(e == inc0[0]);
                    assert(rest_defined(ce, b as int, e.0 as int, 0)) by {
                        assert forall|j: int| 0 <= j < ce.blocks@[b as int].preds@.len()
                            implies def_of(ce,
                                #[trigger] ce.blocks@[b as int].preds@[j] as int,
                                e.0 as int) is Some by {
                            assert(ce.blocks@[b as int].preds@[j]
                                == c1.blocks@[b as int].preds@[j]);
                            assert(def_of(c1,
                                c1.blocks@[b as int].preds@[j] as int, e.0 as int) is Some);
                        }
                    }
                    let full_ce = ce.phis@[e.1 as int].operands@
                        + rest_zip(ce, b as int, e.0 as int, 0);
                    let full_c1 = rest_zip(c1, b as int, e.0 as int, 0);
                    assert(full_ce =~= full_c1);
                    assert forall|v: SsaValue| #[trigger] is_trivial(full_c1, e.1, v)
                        implies c2.phis@[e.1 as int].replaced == Some(v)
                            && (forall|bb: int, xx: int|
                                0 <= bb < c1.blocks@.len() && 0 <= xx < c1.num_vars
                                    ==> def_of(c2, bb, xx)
                                        == crate::optimizer::opt_subst(
                                            #[trigger] def_of(c1, bb, xx), e.1, v)) by {
                        assert(is_trivial(full_ce, e.1, v));
                        assert forall|bb: int, xx: int|
                            0 <= bb < c1.blocks@.len() && 0 <= xx < c1.num_vars
                            implies def_of(c2, bb, xx)
                                == crate::optimizer::opt_subst(
                                    #[trigger] def_of(c1, bb, xx), e.1, v) by {
                            assert(def_of(c2, bb, xx)
                                == crate::optimizer::opt_subst(def_of(ce, bb, xx), e.1, v));
                            assert(def_of(ce, bb, xx) == def_of(c1, bb, xx));
                        }
                    }
                    if forall|v: SsaValue| !(#[trigger] is_trivial(full_c1, e.1, v)) {
                        assert forall|v: SsaValue| !(#[trigger] is_trivial(full_ce, e.1, v))
                            by {
                            if is_trivial(full_ce, e.1, v) {
                                assert(is_trivial(full_c1, e.1, v));
                            }
                        }
                        assert(c2.phis@[e.1 as int].operands@ == full_ce);
                        assert forall|bb: int, xx: int|
                            0 <= bb < c1.blocks@.len() && 0 <= xx < c1.num_vars
                            implies def_of(c2, bb, xx) == #[trigger] def_of(c1, bb, xx) by {
                            assert(c2.blocks@ == ce.blocks@);
                            assert(def_of(ce, bb, xx) == def_of(c1, bb, xx));
                        }
                    }
                    assert(seal_outcome(c1, c2, b, e.0, e.1));
                }
            }
        }
        proof {
            let c2 = *self;
            lemma_tracks_trans(c1, c1s, c2);
            assert forall|j: int| 0 <= j < c1.blocks@[b as int].incomplete@.len()
                implies sealed_entry_done(c2, b,
                    (#[trigger] c1.blocks@[b as int].incomplete@[j]).0,
                    c1.blocks@[b as int].incomplete@[j].1) by {
                assert(sealed_entry_done(c2, b, inc0[j].0, inc0[j].1));
            }
        }
    }
}

} // verus!

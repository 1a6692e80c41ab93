//! Trivial-phi elimination. A phi node is trivial when, excluding
//! self-referential operands, all remaining operands denote one single
//! value; such a node is replaced everywhere by that value. Undefined
//! placeholders count as ordinary values here. A phi node whose operands
//! are all self-references is left in place.

use vstd::prelude::*;
use crate::syntax::{PhiId, SsaValue};
use crate::context::{
    def_of, final_of, inv, is_stale, lemma_tracks_refl, lemma_tracks_trans, subst,
    tracks, Block, PhiNode,
    SsaContext,
};

verus! {

/// The operand list `ops` of phi node `p` is trivial with witness `v`:
/// every operand is `v` or a self-reference, and `v` occurs.
pub open spec fn is_trivial(ops: Seq<(usize, SsaValue)>, p: PhiId, v: SsaValue) -> bool {
    &&& v != (SsaValue::Phi { phi: p })
    &&& forall|i: int| 0 <= i < ops.len()
            ==> (#[trigger] ops[i]).1 == v || ops[i].1 == (SsaValue::Phi { phi: p })
    &&& exists|i: int| 0 <= i < ops.len() && (#[trigger] ops[i]).1 == v
}

/// `o` with references to phi node `p` substituted by `v`.
pub open spec fn opt_subst(o: Option<SsaValue>, p: PhiId, v: SsaValue) -> Option<SsaValue> {
    match o {
        Some(w) => Some(subst(w, p, v)),
        None => None,
    }
}

/// `b2` is `b1` with every definition substituted through `p -> v`.
pub open spec fn block_substed(b1: Block, b2: Block, p: PhiId, v: SsaValue) -> bool {
    &&& b2.preds@ == b1.preds@
    &&& b2.sealed == b1.sealed
    &&& b2.incomplete@ == b1.incomplete@
    &&& b2.defs@.len() == b1.defs@.len()
    &&& forall|x: int| 0 <= x < b1.defs@.len()
            ==> b2.defs@[x] == opt_subst(#[trigger] b1.defs@[x], p, v)
}

/// `q2` is `q1` with every operand and replacement target substituted
/// through `p -> v`.
pub open spec fn phi_substed(q1: PhiNode, q2: PhiNode, p: PhiId, v: SsaValue) -> bool {
    &&& q2.block == q1.block
    &&& q2.var == q1.var
    &&& q2.pending == q1.pending
    &&& q2.operands@.len() == q1.operands@.len()
    &&& forall|i: int| 0 <= i < q1.operands@.len()
            ==> #[trigger] q2.operands@[i]
                == (q1.operands@[i].0, subst(q1.operands@[i].1, p, v))
    &&& q2.replaced == opt_subst(q1.replaced, p, v)
}

/// The whole effect of replacing phi node `p` by `v`: `p` is marked
/// replaced, and every definition, operand and replacement target that
/// mentioned `p` now mentions `v`.
pub open spec fn replace_step(c1: SsaContext, c2: SsaContext, p: PhiId, v: SsaValue) -> bool {
    &&& c2.num_vars == c1.num_vars
    &&& c2.versions@ == c1.versions@
    &&& c2.diagnostics@ == c1.diagnostics@
    &&& c2.blocks@.len() == c1.blocks@.len()
    &&& c2.phis@.len() == c1.phis@.len()
    &&& forall|b: int| 0 <= b < c1.blocks@.len()
            ==> block_substed(#[trigger] c1.blocks@[b], c2.blocks@[b], p, v)
    &&& forall|q: int| 0 <= q < c1.phis@.len() && q != p
            ==> phi_substed(#[trigger] c1.phis@[q], c2.phis@[q], p, v)
    &&& c2.phis@[p as int].block == c1.phis@[p as int].block
    &&& c2.phis@[p as int].var == c1.phis@[p as int].var
    &&& c2.phis@[p as int].pending == c1.phis@[p as int].pending
    &&& c2.phis@[p as int].operands@.len() == c1.phis@[p as int].operands@.len()
    &&& forall|i: int| 0 <= i < c1.phis@[p as int].operands@.len()
            ==> #[trigger] c2.phis@[p as int].operands@[i]
                == (c1.phis@[p as int].operands@[i].0,
                    subst(c1.phis@[p as int].operands@[i].1, p, v))
    &&& c2.phis@[p as int].replaced == Some(v)
}

/// `w` with references to phi node `p` turned into `v`.
fn subst_val(w: SsaValue, p: PhiId, v: SsaValue) -> (r: SsaValue)
    ensures
        r == subst(w, p, v),
{
    match w {
        SsaValue::Phi { phi } => if phi == p { v } else { w },
        _ => w,
    }
}

impl SsaContext {
    /// Replace phi node `p` by `v` everywhere. `v` must be a live value
    /// other than `p` itself; afterwards no definition, operand or
    /// replacement target mentions `p` any more, which is what keeps
    /// replacement links one step short of their final value.
    pub fn replace(&mut self, p: PhiId, v: SsaValue)
        requires
            inv(*old(self)),
            p < old(self).phis@.len(),
            !old(self).phis@[p as int].pending,
            old(self).phis@[p as int].replaced is None,
            crate::context::wf_value(*old(self), v),
            !is_stale(*old(self), v),
            v != (SsaValue::Phi { phi: p }),
        ensures
            inv(*final(self)),
            replace_step(*old(self), *final(self), p, v),
            tracks(*old(self), *final(self)),
    {
        let ghost c1 = *old(self);
        self.phis[p].replaced = Some(v);
        // substitute in every block-local definition table
        let nb = self.blocks.len();
        let mut bi: usize = 0;
        while bi < nb
            invariant
                nb == self.blocks@.len(),
                nb == c1.blocks@.len(),
                bi <= nb,
                self.num_vars == c1.num_vars,
                self.versions@ == c1.versions@,
                self.diagnostics@ == c1.diagnostics@,
                self.phis@.len() == c1.phis@.len(),
                p < c1.phis@.len(),
                forall|q: int| 0 <= q < c1.phis@.len() && q != p
                    ==> self.phis@[q] == c1.phis@[q],
                self.phis@[p as int].block == c1.phis@[p as int].block,
                self.phis@[p as int].var == c1.phis@[p as int].var,
                self.phis@[p as int].pending == c1.phis@[p as int].pending,
                self.phis@[p as int].operands@ == c1.phis@[p as int].operands@,
                self.phis@[p as int].replaced == Some(v),
                forall|b: int| 0 <= b < bi
                    ==> block_substed(#[trigger] c1.blocks@[b], self.blocks@[b], p, v),
                forall|b: int| bi <= b < nb ==> self.blocks@[b] == #[trigger] c1.blocks@[b],
            decreases nb - bi,
        {
            let nx = self.blocks[bi].defs.len();
            let mut xi: usize = 0;
            while xi < nx
                invariant
                    nb == self.blocks@.len(),
                    nb == c1.blocks@.len(),
                    bi < nb,
                    xi <= nx,
                    nx == self.blocks@[bi as int].defs@.len(),
                    nx == c1.blocks@[bi as int].defs@.len(),
                    self.num_vars == c1.num_vars,
                    self.versions@ == c1.versions@,
                    self.diagnostics@ == c1.diagnostics@,
                    self.phis@.len() == c1.phis@.len(),
                    p < c1.phis@.len(),
                    forall|q: int| 0 <= q < c1.phis@.len() && q != p
                        ==> self.phis@[q] == c1.phis@[q],
                    self.phis@[p as int].block == c1.phis@[p as int].block,
                    self.phis@[p as int].var == c1.phis@[p as int].var,
                    self.phis@[p as int].pending == c1.phis@[p as int].pending,
                    self.phis@[p as int].operands@ == c1.phis@[p as int].operands@,
                    self.phis@[p as int].replaced == Some(v),
                    forall|b: int| 0 <= b < bi
                        ==> block_substed(#[trigger] c1.blocks@[b], self.blocks@[b], p, v),
                    forall|b: int| bi < b < nb ==> self.blocks@[b] == #[trigger] c1.blocks@[b],
                    self.blocks@[bi as int].preds@ == c1.blocks@[bi as int].preds@,
                    self.blocks@[bi as int].sealed == c1.blocks@[bi as int].sealed,
                    self.blocks@[bi as int].incomplete@ == c1.blocks@[bi as int].incomplete@,
                    forall|x: int| 0 <= x < xi
                        ==> self.blocks@[bi as int].defs@[x]
                            == opt_subst(#[trigger] c1.blocks@[bi as int].defs@[x], p, v),
                    forall|x: int| xi <= x < nx
                        ==> self.blocks@[bi as int].defs@[x]
                            == #[trigger] c1.blocks@[bi as int].defs@[x],
                decreases nx - xi,
            {
                let entry = self.blocks[bi].defs[xi];
                if let Some(w) = entry {
                    self.blocks[bi].defs[xi] = Some(subst_val(w, p, v));
                }
                xi = xi + 1;
            }
            bi = bi + 1;
        }
        // substitute in every phi node's operands and replacement target
        let np = self.phis.len();
        let mut qi: usize = 0;
        while qi < np
            invariant
                np == self.phis@.len(),
                np == c1.phis@.len(),
                qi <= np,
                nb == self.blocks@.len(),
                nb == c1.blocks@.len(),
                self.num_vars == c1.num_vars,
                self.versions@ == c1.versions@,
                self.diagnostics@ == c1.diagnostics@,
                p < c1.phis@.len(),
                v != (SsaValue::Phi { phi: p }),
                forall|b: int| 0 <= b < nb
                    ==> block_substed(#[trigger] c1.blocks@[b], self.blocks@[b], p, v),
                forall|q: int| 0 <= q < qi && q != p
                    ==> phi_substed(#[trigger] c1.phis@[q], self.phis@[q], p, v),
                forall|q: int| qi <= q < np && q != p ==> self.phis@[q] == #[trigger] c1.phis@[q],
                self.phis@[p as int].block == c1.phis@[p as int].block,
                self.phis@[p as int].var == c1.phis@[p as int].var,
                self.phis@[p as int].pending == c1.phis@[p as int].pending,
                qi <= p ==> self.phis@[p as int].operands@ == c1.phis@[p as int].operands@,
                qi > p ==> self.phis@[p as int].operands@.len()
                        == c1.phis@[p as int].operands@.len()
                    && forall|i: int| 0 <= i < c1.phis@[p as int].operands@.len()
                        ==> #[trigger] self.phis@[p as int].operands@[i]
                            == (c1.phis@[p as int].operands@[i].0,
                                subst(c1.phis@[p as int].operands@[i].1, p, v)),
                self.phis@[p as int].replaced == Some(v),
            decreases np - qi,
        {
            let no = self.phis[qi].operands.len();
            let mut oi: usize = 0;
            while oi < no
                invariant
                    np == self.phis@.len(),
                    np == c1.phis@.len(),
                    qi < np,
                    oi <= no,
                    no == self.phis@[qi as int].operands@.len(),
                    no == c1.phis@[qi as int].operands@.len(),
                    nb == self.blocks@.len(),
                    self.num_vars == c1.num_vars,
                    self.versions@ == c1.versions@,
                    self.diagnostics@ == c1.diagnostics@,
                    p < c1.phis@.len(),
                    forall|b: int| 0 <= b < nb
                        ==> block_substed(#[trigger] c1.blocks@[b], self.blocks@[b], p, v),
                    forall|q: int| 0 <= q < qi && q != p
                        ==> phi_substed(#[trigger] c1.phis@[q], self.phis@[q], p, v),
                    forall|q: int| qi < q < np && q != p
                        ==> self.phis@[q] == #[trigger] c1.phis@[q],
                    self.phis@[qi as int].block == c1.phis@[qi as int].block,
                    self.phis@[qi as int].var == c1.phis@[qi as int].var,
                    self.phis@[qi as int].pending == c1.phis@[qi as int].pending,
                    self.phis@[qi as int].replaced
                        == (if qi == p { Some(v) } else { c1.phis@[qi as int].replaced }),
                    qi != p ==> self.phis@[p as int].replaced == Some(v),
                    self.phis@[p as int].block == c1.phis@[p as int].block,
                    self.phis@[p as int].var == c1.phis@[p as int].var,
                    self.phis@[p as int].pending == c1.phis@[p as int].pending,
                    qi != p && qi < p
                        ==> self.phis@[p as int].operands@ == c1.phis@[p as int].operands@,
                    qi != p && qi > p
                        ==> self.phis@[p as int].operands@.len()
                                == c1.phis@[p as int].operands@.len()
                            && forall|i: int| 0 <= i < c1.phis@[p as int].operands@.len()
                                ==> #[trigger] self.phis@[p as int].operands@[i]
                                    == (c1.phis@[p as int].operands@[i].0,
                                        subst(c1.phis@[p as int].operands@[i].1, p, v)),
                    forall|i: int| 0 <= i < oi
                        ==> #[trigger] self.phis@[qi as int].operands@[i]
                            == (c1.phis@[qi as int].operands@[i].0,
                                subst(c1.phis@[qi as int].operands@[i].1, p, v)),
                    forall|i: int| oi <= i < no
                        ==> self.phis@[qi as int].operands@[i]
                            == #[trigger] c1.phis@[qi as int].operands@[i],
                decreases no - oi,
            {
                let (ob, ov) = self.phis[qi].operands[oi];
                self.phis[qi].operands[oi] = (ob, subst_val(ov, p, v));
                oi = oi + 1;
            }
            let target = self.phis[qi].replaced;
            if let Some(t) = target {
                self.phis[qi].replaced = Some(subst_val(t, p, v));
            }
            qi = qi + 1;
        }
        proof {
            let c2 = *self;
            assert(opt_subst(c1.phis@[p as int].replaced, p, v) == Option::<SsaValue>::None);
            assert(subst(v, p, v) == v);
            assert(replace_step(c1, c2, p, v));
            lemma_replace_preserves(c1, c2, p, v);
        }
    }
}

impl SsaContext {
    /// Attempt trivial-phi collapse on a freshly completed phi node: if,
    /// self-references aside, all operands denote one value, that value
    /// replaces the node everywhere and is returned; otherwise the node
    /// stays and a reference to it is returned.
    pub fn try_collapse(&mut self, p: PhiId) -> (r: SsaValue)
        requires
            inv(*old(self)),
            p < old(self).phis@.len(),
            !old(self).phis@[p as int].pending,
            old(self).phis@[p as int].replaced is None,
        ensures
            inv(*final(self)),
            tracks(*old(self), *final(self)),
            (forall|v: SsaValue|
                !(#[trigger] is_trivial(old(self).phis@[p as int].operands@, p, v)))
                ==> *final(self) == *old(self) && r == (SsaValue::Phi { phi: p }),
            forall|v: SsaValue|
                #[trigger] is_trivial(old(self).phis@[p as int].operands@, p, v)
                    ==> r == v && replace_step(*old(self), *final(self), p, v),
    {
        let ghost c1 = *old(self);
        let ghost ops = old(self).phis@[p as int].operands@;
        let n = self.phis[p].operands.len();
        let mut i: usize = 0;
        let mut cand: Option<SsaValue> = None;
        let ghost mut wit: int = 0;
        while i < n
            invariant
                *self == c1,
                inv(c1),
                p < c1.phis@.len(),
                ops == c1.phis@[p as int].operands@,
                n == ops.len(),
                i <= n,
                cand is None ==> forall|j: int| 0 <= j < i
                    ==> (#[trigger] ops[j]).1 == (SsaValue::Phi { phi: p }),
                cand is Some ==> {
                    let cv = cand->Some_0;
                    &&& cv != (SsaValue::Phi { phi: p })
                    &&& 0 <= wit < i
                    &&& ops[wit].1 == cv
                    &&& forall|j: int| 0 <= j < i
                            ==> (#[trigger] ops[j]).1 == cv
                                || ops[j].1 == (SsaValue::Phi { phi: p })
                },
            decreases n - i,
        {
            let w = self.phis[p].operands[i].1;
            if w != (SsaValue::Phi { phi: p }) {
                match cand {
                    None => {
                        cand = Some(w);
                        proof {
                            wit = i as int;
                        }
                    },
                    Some(cv) => {
                        if cv != w {
                            proof {
                                lemma_tracks_refl(c1);
                                assert forall|v: SsaValue| !is_trivial(ops, p, v) by {
                                    if is_trivial(ops, p, v) {
                                        assert(ops[wit].1 == v
                                            || ops[wit].1 == (SsaValue::Phi { phi: p }));
                                        assert(ops[i as int].1 == v
                                            || ops[i as int].1 == (SsaValue::Phi { phi: p }));
                                    }
                                }
                            }
                            return SsaValue::Phi { phi: p };
                        }
                    },
                }
            }
            i = i + 1;
        }
        match cand {
            Some(cv) => {
                proof {
                    assert(is_trivial(ops, p, cv));
                    assert(crate::context::wf_value(c1, cv) && !is_stale(c1, cv)) by {
                        assert(c1.phis@[p as int].operands@[wit].1 == cv);
                    }
                    assert forall|v: SsaValue| is_trivial(ops, p, v) implies v == cv by {
                        assert(ops[wit].1 == v || ops[wit].1 == (SsaValue::Phi { phi: p }));
                    }
                }
                self.replace(p, cv);
                cv
            },
            None => {
                proof {
                    lemma_tracks_refl(c1);
                    assert forall|v: SsaValue| !is_trivial(ops, p, v) by {
                        if is_trivial(ops, p, v) {
                            let j = choose|j: int| 0 <= j < ops.len()
                                && (#[trigger] ops[j]).1 == v;
                            assert(ops[j].1 == (SsaValue::Phi { phi: p }));
                        }
                    }
                }
                SsaValue::Phi { phi: p }
            },
        }
    }
}

/// How many phi nodes have not been replaced.
pub open spec fn live_phi_count(phis: Seq<PhiNode>) -> nat
    decreases phis.len(),
{
    if phis.len() == 0 {
        0
    } else {
        live_phi_count(phis.drop_last()) + (if phis.last().replaced is None { 1nat } else { 0nat })
    }
}

proof fn lemma_live_count_mono(p1: Seq<PhiNode>, p2: Seq<PhiNode>)
    requires
        p1.len() == p2.len(),
        forall|i: int| 0 <= i < p1.len() && (#[trigger] p1[i]).replaced is Some
            ==> p2[i].replaced is Some,
    ensures
        live_phi_count(p2) <= live_phi_count(p1),
    decreases p1.len(),
{
    if p1.len() > 0 {
        lemma_live_count_mono(p1.drop_last(), p2.drop_last());
        assert(p1[p1.len() - 1].replaced is Some ==> p2[p1.len() - 1].replaced is Some);
    }
}

proof fn lemma_live_count_strict(p1: Seq<PhiNode>, p2: Seq<PhiNode>, j: int)
    requires
        p1.len() == p2.len(),
        forall|i: int| 0 <= i < p1.len() && (#[trigger] p1[i]).replaced is Some
            ==> p2[i].replaced is Some,
        0 <= j < p1.len(),
        p1[j].replaced is None,
        p2[j].replaced is Some,
    ensures
        live_phi_count(p2) < live_phi_count(p1),
    decreases p1.len(),
{
    if j == p1.len() - 1 {
        lemma_live_count_mono(p1.drop_last(), p2.drop_last());
    } else {
        lemma_live_count_strict(p1.drop_last(), p2.drop_last(), j);
        assert(p1[p1.len() - 1].replaced is Some ==> p2[p1.len() - 1].replaced is Some);
    }
}

/// A chain of trivial-phi collapses: each step replaces one live phi
/// node whose operands are trivial at that point, exactly as
/// `replace_step` describes, and nothing else ever changes. This is
/// the only liberty the post-walk cleanup has.
pub open spec fn trivial_collapse(c1: SsaContext, steps: Seq<(PhiId, SsaValue)>,
    c2: SsaContext) -> bool
    decreases steps.len(),
{
    if steps.len() == 0 {
        c2 == c1
    } else {
        exists|cm: SsaContext| {
            &&& c1.phis@[steps[0].0 as int].replaced is None
            &&& is_trivial(c1.phis@[steps[0].0 as int].operands@, steps[0].0, steps[0].1)
            &&& #[trigger] replace_step(c1, cm, steps[0].0, steps[0].1)
            &&& trivial_collapse(cm, steps.drop_first(), c2)
        }
    }
}

/// One more trivial collapse extends a chain.
proof fn lemma_trivial_collapse_snoc(c1: SsaContext, steps: Seq<(PhiId, SsaValue)>,
    c2: SsaContext, c3: SsaContext, q: PhiId, v: SsaValue)
    requires
        trivial_collapse(c1, steps, c2),
        c2.phis@[q as int].replaced is None,
        is_trivial(c2.phis@[q as int].operands@, q, v),
        replace_step(c2, c3, q, v),
    ensures
        trivial_collapse(c1, steps.push((q, v)), c3),
    decreases steps.len(),
{
    let s2 = steps.push((q, v));
    if steps.len() == 0 {
        assert(c2 == c1);
        assert(s2[0] == (q, v));
        assert(s2.drop_first() =~= Seq::<(PhiId, SsaValue)>::empty());
        assert(trivial_collapse(c3, s2.drop_first(), c3));
        assert(replace_step(c1, c3, s2[0].0, s2[0].1));
    } else {
        let cm = choose|cm: SsaContext| {
            &&& c1.phis@[steps[0].0 as int].replaced is None
            &&& is_trivial(c1.phis@[steps[0].0 as int].operands@, steps[0].0, steps[0].1)
            &&& #[trigger] replace_step(c1, cm, steps[0].0, steps[0].1)
            &&& trivial_collapse(cm, steps.drop_first(), c2)
        };
        lemma_trivial_collapse_snoc(cm, steps.drop_first(), c2, c3, q, v);
        assert(s2[0] == steps[0]);
        assert(s2.drop_first() =~= steps.drop_first().push((q, v)));
        assert(replace_step(c1, cm, s2[0].0, s2[0].1));
        assert(trivial_collapse(cm, s2.drop_first(), c3));
    }
}

impl SsaContext {
    /// Run trivial-phi elimination to a fixpoint: because replacing one
    /// phi node can make another one trivial, a worklist is re-filled
    /// after every replacement until no live phi node is trivial. The
    /// output of a build is minimal in this sense.
    pub fn minimize(&mut self)
        requires
            inv(*old(self)),
        ensures
            inv(*final(self)),
            tracks(*old(self), *final(self)),
            final(self).blocks@.len() == old(self).blocks@.len(),
            final(self).phis@.len() == old(self).phis@.len(),
            final(self).versions@ == old(self).versions@,
            final(self).diagnostics@ == old(self).diagnostics@,
            forall|q: int, v: SsaValue|
                0 <= q < final(self).phis@.len()
                    && final(self).phis@[q].replaced is None
                    && !final(self).phis@[q].pending
                    ==> !(#[trigger] is_trivial(final(self).phis@[q].operands@, q as usize, v)),
            exists|steps: Seq<(PhiId, SsaValue)>|
                #[trigger] trivial_collapse(*old(self), steps, *final(self)),
    {
        let ghost c1 = *old(self);
        let ghost mut script: Seq<(PhiId, SsaValue)> = Seq::empty();
        proof {
            lemma_tracks_refl(c1);
            assert(trivial_collapse(c1, script, c1));
        }
        let n = self.phis.len();
        let mut worklist: Vec<PhiId> = Vec::new();
        let mut k: usize = 0;
        while k < n
            invariant
                *self == c1,
                inv(c1),
                n == c1.phis@.len(),
                k <= n,
                forall|q: int| 0 <= q < worklist@.len() ==> #[trigger] worklist@[q] < n,
                forall|q: int| 0 <= q < k ==> #[trigger] worklist@.contains(q as usize),
            decreases n - k,
        {
            let ghost wpre = worklist@;
            worklist.push(k);
            proof {
                assert forall|q: int| 0 <= q < k + 1
                    implies #[trigger] worklist@.contains(q as usize) by {
                    if q < k {
                        assert(wpre.contains(q as usize));
                        let w = choose|w: int| 0 <= w < wpre.len() && wpre[w] == q as usize;
                        assert(worklist@[w] == q as usize);
                    } else {
                        assert(worklist@[worklist@.len() - 1] == q as usize);
                    }
                }
            }
            k = k + 1;
        }
        while worklist.len() > 0
            invariant
                inv(*self),
                inv(c1),
                tracks(c1, *self),
                n == self.phis@.len(),
                n == c1.phis@.len(),
                self.blocks@.len() == c1.blocks@.len(),
                self.versions@ == c1.versions@,
                self.diagnostics@ == c1.diagnostics@,
                forall|q: int| 0 <= q < worklist@.len() ==> #[trigger] worklist@[q] < n,
                forall|q: int, v: SsaValue|
                    0 <= q < n && self.phis@[q].replaced is None
                        && !self.phis@[q].pending
                        && !worklist@.contains(q as usize)
                        ==> !(#[trigger] is_trivial(self.phis@[q].operands@, q as usize, v)),
                trivial_collapse(c1, script, *self),
            decreases live_phi_count(self.phis@), worklist@.len(),
        {
            let ghost cb = *self;
            let ghost wl0 = worklist@;
            let q = match worklist.pop() {
                Some(q) => q,
                None => { return; },
            };
            proof {
                assert(wl0[wl0.len() - 1] == q);
                assert forall|q2: int|
                    0 <= q2 < n && q2 != q && wl0.contains(q2 as usize)
                    implies #[trigger] worklist@.contains(q2 as usize) by {
                    let w = choose|w: int| 0 <= w < wl0.len() && wl0[w] == q2 as usize;
                    assert(w < wl0.len() - 1) by {
                        assert(wl0[wl0.len() - 1] == q);
                    }
                    assert(worklist@[w] == q2 as usize);
                }
            }
            let pending_now = self.phis[q].pending;
            let replaced_before = self.phis[q].replaced.is_some();
            if !pending_now && !replaced_before {
                let r = self.try_collapse(q);
                let ghost ca = *self;
                if self.phis[q].replaced.is_some() {
                    // a replacement can make other phi nodes trivial:
                    // re-examine everything
                    proof {
                        let v = choose|v: SsaValue|
                            is_trivial(cb.phis@[q as int].operands@, q, v);
                        assert(replace_step(cb, ca, q, v));
                        assert forall|q2: int|
                            0 <= q2 < n && (#[trigger] cb.phis@[q2]).replaced is Some
                            implies ca.phis@[q2].replaced is Some by {
                            if q2 != q {
                                assert(phi_substed(cb.phis@[q2], ca.phis@[q2], q, v));
                            }
                        }
                        lemma_live_count_strict(cb.phis@, ca.phis@, q as int);
                        lemma_tracks_trans(c1, cb, ca);
                        lemma_trivial_collapse_snoc(c1, script, cb, ca, q, v);
                        script = script.push((q, v));
                    }
                    let mut k2: usize = 0;
                    while k2 < n
                        invariant
                            *self == ca,
                            inv(ca),
                            trivial_collapse(c1, script, ca),
                            n == ca.phis@.len(),
                            k2 <= n,
                            forall|q2: int| 0 <= q2 < worklist@.len()
                                ==> #[trigger] worklist@[q2] < n,
                            forall|q2: int| 0 <= q2 < k2
                                ==> #[trigger] worklist@.contains(q2 as usize),
                        decreases n - k2,
                    {
                        let ghost wpre2 = worklist@;
                        worklist.push(k2);
                        proof {
                            assert forall|q2: int| 0 <= q2 < k2 + 1
                                implies #[trigger] worklist@.contains(q2 as usize) by {
                                if q2 < k2 {
                                    assert(wpre2.contains(q2 as usize));
                                    let w = choose|w: int| 0 <= w < wpre2.len()
                                        && wpre2[w] == q2 as usize;
                                    assert(worklist@[w] == q2 as usize);
                                } else {
                                    assert(worklist@[worklist@.len() - 1] == q2 as usize);
                                }
                            }
                        }
                        k2 = k2 + 1;
                    }
                } else {
                    proof {
                        assert(ca == cb);
                        assert forall|v: SsaValue|
                            !(#[trigger] is_trivial(self.phis@[q as int].operands@, q, v)) by {
                            if is_trivial(cb.phis@[q as int].operands@, q, v) {
                                assert(self.phis@[q as int].replaced is Some);
                            }
                        }
                    }
                }
            }
        }
        proof {
            assert forall|q: int, v: SsaValue|
                0 <= q < n && self.phis@[q].replaced is None && !self.phis@[q].pending
                implies !(#[trigger] is_trivial(self.phis@[q].operands@, q as usize, v)) by {
                assert(!worklist@.contains(q as usize));
            }
            assert(trivial_collapse(c1, script, *self));
        }
    }
}

/// After a replacement the invariant still holds and the new context
/// tracks the old one.
proof fn lemma_replace_preserves(c1: SsaContext, c2: SsaContext, p: PhiId, v: SsaValue)
    requires
        inv(c1),
        p < c1.phis@.len(),
        !c1.phis@[p as int].pending,
        c1.phis@[p as int].replaced is None,
        crate::context::wf_value(c1, v),
        !is_stale(c1, v),
        v != (SsaValue::Phi { phi: p }),
        replace_step(c1, c2, p, v),
    ensures
        inv(c2),
        tracks(c1, c2),
{
    assert forall|b: int| 0 <= b < c2.blocks@.len()
        implies (#[trigger] c2.blocks@[b]).preds@ == c1.blocks@[b].preds@
            && c2.blocks@[b].sealed == c1.blocks@[b].sealed
            && c2.blocks@[b].incomplete@ == c1.blocks@[b].incomplete@
            && c2.blocks@[b].defs@.len() == c1.blocks@[b].defs@.len() by {
        assert(block_substed(c1.blocks@[b], c2.blocks@[b], p, v));
    }
    assert forall|q: int| 0 <= q < c2.phis@.len()
        implies (#[trigger] c2.phis@[q]).block == c1.phis@[q].block
            && c2.phis@[q].var == c1.phis@[q].var
            && c2.phis@[q].pending == c1.phis@[q].pending
            && c2.phis@[q].operands@.len() == c1.phis@[q].operands@.len()
            && (forall|i: int| 0 <= i < c1.phis@[q].operands@.len()
                    ==> (#[trigger] c2.phis@[q].operands@[i]).0 == c1.phis@[q].operands@[i].0)
            && (c2.phis@[q].replaced is Some == (q == p || c1.phis@[q].replaced is Some)) by {
        if q != p {
            assert(phi_substed(c1.phis@[q], c2.phis@[q], p, v));
        }
    }
    assert forall|w: SsaValue| crate::context::wf_value(c1, w) && !is_stale(c1, w)
        implies crate::context::wf_value(c2, subst(w, p, v))
            && !is_stale(c2, subst(w, p, v)) by {
        if w == (SsaValue::Phi { phi: p }) {
        } else {
            assert(subst(w, p, v) == w);
        }
    }
    assert forall|b: int, x: int|
        0 <= b < c2.blocks@.len() && 0 <= x < c2.num_vars
            && (#[trigger] def_of(c2, b, x)) is Some
        implies crate::context::wf_value(c2, def_of(c2, b, x)->Some_0)
            && !is_stale(c2, def_of(c2, b, x)->Some_0) by {
        assert(block_substed(c1.blocks@[b], c2.blocks@[b], p, v));
        assert(def_of(c2, b, x) == opt_subst(def_of(c1, b, x), p, v));
    }
    assert forall|b: int, j: int|
        0 <= b < c2.blocks@.len() && 0 <= j < c2.blocks@[b].incomplete@.len()
        implies def_of(c2, b, (#[trigger] c2.blocks@[b].incomplete@[j]).0 as int) is Some by {
        assert(block_substed(c1.blocks@[b], c2.blocks@[b], p, v));
        let e = c1.blocks@[b].incomplete@[j];
        assert(def_of(c1, b, e.0 as int) is Some);
        assert(def_of(c2, b, e.0 as int) == opt_subst(def_of(c1, b, e.0 as int), p, v));
    }
    assert forall|b: int, x: int|
        0 <= b < c1.blocks@.len() && 0 <= x < c1.num_vars && (#[trigger] def_of(c1, b, x)) is Some
        implies def_of(c2, b, x) == Some(final_of(c2, def_of(c1, b, x)->Some_0)) by {
        assert(block_substed(c1.blocks@[b], c2.blocks@[b], p, v));
        let w = def_of(c1, b, x)->Some_0;
        assert(def_of(c2, b, x) == Some(subst(w, p, v)));
        if w == (SsaValue::Phi { phi: p }) {
        } else {
            if w is Phi {
                let q = w->phi;
                assert(phi_substed(c1.phis@[q as int], c2.phis@[q as int], p, v));
            }
        }
    }
    assert forall|q: int| 0 <= q < c1.phis@.len() && (#[trigger] c1.phis@[q]).replaced is Some
        implies c2.phis@[q].replaced
            == Some(final_of(c2, c1.phis@[q].replaced->Some_0)) by {
        assert(phi_substed(c1.phis@[q], c2.phis@[q], p, v));
        let t = c1.phis@[q].replaced->Some_0;
        if t == (SsaValue::Phi { phi: p }) {
        } else {
            if t is Phi {
                let tq = t->phi;
                assert(phi_substed(c1.phis@[tq as int], c2.phis@[tq as int], p, v));
            }
        }
    }
}

} // verus!

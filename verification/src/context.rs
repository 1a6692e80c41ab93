//! The build context one procedure owns while its SSA form is
//! constructed: the arena of basic blocks, the arena of phi nodes, the
//! per-variable version counters, and the diagnostics collected so far.
//!
//! The spec functions here give the mathematical model the contracts of
//! the renamer, the sealing controller and the optimizer are stated over.

use vstd::prelude::*;
use crate::syntax::{BlockId, Diagnostic, PhiId, SsaValue, VarId};

verus! {

/// A phi node: the block that owns it, the variable it merges, and one
/// operand per predecessor of that block, in predecessor order.
///
/// `pending` is true while the operands have not been filled in yet —
/// either because the owning block is not sealed, or because the node is
/// in the middle of being completed. `replaced` is `Some(v)` once the
/// optimizer found the node trivial and substituted `v` for it
/// everywhere; such a node is dead and never part of the output.
#[derive(Debug)]
pub struct PhiNode {
    pub block: BlockId,
    pub var: VarId,
    pub operands: Vec<(BlockId, SsaValue)>,
    pub pending: bool,
    pub replaced: Option<SsaValue>,
}

/// A basic block: its predecessors (in registration order), whether its
/// predecessor set is final (`sealed`), the phi nodes whose operand
/// resolution waits for the seal, and the block-local definition table,
/// indexed by variable.
#[derive(Debug)]
pub struct Block {
    pub preds: Vec<BlockId>,
    pub sealed: bool,
    pub incomplete: Vec<(VarId, PhiId)>,
    pub defs: Vec<Option<SsaValue>>,
}

/// The state one procedure's build owns exclusively. No state is shared
/// between procedures.
#[derive(Debug)]
pub struct SsaContext {
    pub num_vars: usize,
    pub blocks: Vec<Block>,
    pub phis: Vec<PhiNode>,
    /// Next version for each variable; a write takes the counter's value
    /// and increments it, so versions per variable never collide.
    pub versions: Vec<usize>,
    pub diagnostics: Vec<Diagnostic>,
}

/// The block-local definition of variable `x` in block `b`, if any.
pub open spec fn def_of(c: SsaContext, b: int, x: int) -> Option<SsaValue> {
    c.blocks@[b].defs@[x]
}

/// A value's indices lie inside the context's arenas.
pub open spec fn wf_value(c: SsaContext, v: SsaValue) -> bool {
    match v {
        SsaValue::Var { var, version } => var < c.num_vars,
        SsaValue::Phi { phi } => phi < c.phis@.len(),
        SsaValue::Undef { var } => var < c.num_vars,
    }
}

/// The value refers to a phi node that the optimizer has replaced.
pub open spec fn is_stale(c: SsaContext, v: SsaValue) -> bool {
    match v {
        SsaValue::Phi { phi } => phi < c.phis@.len() && c.phis@[phi as int].replaced is Some,
        _ => false,
    }
}

/// Follow the replacement link of a value, once. Because replacement
/// targets are themselves substituted whenever a further phi node is
/// replaced, one step always reaches a live value.
pub open spec fn final_of(c: SsaContext, v: SsaValue) -> SsaValue {
    match v {
        SsaValue::Phi { phi } => {
            if phi < c.phis@.len() && c.phis@[phi as int].replaced is Some {
                c.phis@[phi as int].replaced->Some_0
            } else {
                v
            }
        },
        _ => v,
    }
}

/// `v` with every reference to phi node `from` turned into `to`.
pub open spec fn subst(v: SsaValue, from: PhiId, to: SsaValue) -> SsaValue {
    if v == (SsaValue::Phi { phi: from }) {
        to
    } else {
        v
    }
}

/// The invariant every operation of the build preserves.
pub open spec fn inv(c: SsaContext) -> bool {
    &&& c.versions@.len() == c.num_vars
    &&& forall|b: int| 0 <= b < c.blocks@.len() ==> (#[trigger] c.blocks@[b]).defs@.len() == c.num_vars
    &&& forall|b: int, i: int|
        0 <= b < c.blocks@.len() && 0 <= i < c.blocks@[b].preds@.len()
            ==> #[trigger] c.blocks@[b].preds@[i] < c.blocks@.len()
    &&& forall|b: int| 0 <= b < c.blocks@.len() && (#[trigger] c.blocks@[b]).preds@.len() == 1
            ==> c.blocks@[b].preds@[0] < b
    &&& forall|b: int, x: int|
        0 <= b < c.blocks@.len() && 0 <= x < c.num_vars && (#[trigger] def_of(c, b, x)) is Some
            ==> wf_value(c, def_of(c, b, x)->Some_0) && !is_stale(c, def_of(c, b, x)->Some_0)
    &&& forall|p: int| 0 <= p < c.phis@.len()
            ==> (#[trigger] c.phis@[p]).block < c.blocks@.len() && c.phis@[p].var < c.num_vars
    &&& forall|p: int, i: int|
        0 <= p < c.phis@.len() && 0 <= i < c.phis@[p].operands@.len()
            ==> wf_value(c, (#[trigger] c.phis@[p].operands@[i]).1)
                && !is_stale(c, c.phis@[p].operands@[i].1)
    &&& forall|p: int| 0 <= p < c.phis@.len() && (#[trigger] c.phis@[p]).replaced is Some
            ==> wf_value(c, c.phis@[p].replaced->Some_0) && !is_stale(c, c.phis@[p].replaced->Some_0)
                && !c.phis@[p].pending
    &&& forall|p: int| 0 <= p < c.phis@.len() && !(#[trigger] c.phis@[p]).pending
            && c.phis@[p].replaced is None
            ==> {
                let b = c.phis@[p].block as int;
                &&& c.blocks@[b].sealed
                &&& c.phis@[p].operands@.len() == c.blocks@[b].preds@.len()
                &&& forall|i: int| 0 <= i < c.phis@[p].operands@.len()
                        ==> (#[trigger] c.phis@[p].operands@[i]).0 == c.blocks@[b].preds@[i]
            }
    &&& forall|b: int, j: int|
        0 <= b < c.blocks@.len() && 0 <= j < c.blocks@[b].incomplete@.len()
            ==> {
                let e = #[trigger] c.blocks@[b].incomplete@[j];
                &&& e.0 < c.num_vars
                &&& e.1 < c.phis@.len()
                &&& c.phis@[e.1 as int].var == e.0
                &&& c.phis@[e.1 as int].block == b
                &&& c.phis@[e.1 as int].pending
                &&& c.phis@[e.1 as int].replaced is None
                &&& c.phis@[e.1 as int].operands@.len() == 0
                &&& def_of(c, b, e.0 as int) is Some
            }
    &&& forall|b: int, j: int, k: int|
        0 <= b < c.blocks@.len() && 0 <= j < k < c.blocks@[b].incomplete@.len()
            ==> (#[trigger] c.blocks@[b].incomplete@[j]).1
                != (#[trigger] c.blocks@[b].incomplete@[k]).1
}

/// Structural growth: the later context has every block and phi node of
/// the earlier one, predecessor lists have only been appended to, seals
/// and definitions are never taken back.
pub open spec fn extends(c1: SsaContext, c2: SsaContext) -> bool {
    &&& c2.num_vars == c1.num_vars
    &&& c2.versions@.len() == c1.versions@.len()
    &&& c1.blocks@.len() <= c2.blocks@.len()
    &&& c1.phis@.len() <= c2.phis@.len()
    &&& forall|b: int| 0 <= b < c1.blocks@.len()
            ==> (#[trigger] c1.blocks@[b]).preds@.is_prefix_of(c2.blocks@[b].preds@)
    &&& forall|b: int| 0 <= b < c1.blocks@.len() && (#[trigger] c1.blocks@[b]).sealed
            ==> c2.blocks@[b].sealed && c2.blocks@[b].preds@ == c1.blocks@[b].preds@
    &&& forall|b: int, x: int|
        0 <= b < c1.blocks@.len() && 0 <= x < c1.num_vars && (#[trigger] def_of(c1, b, x)) is Some
            ==> def_of(c2, b, x) is Some
    &&& c1.diagnostics@.is_prefix_of(c2.diagnostics@)
}

/// Value-level correspondence on top of `extends`, for operations that
/// never overwrite a definition: an old definition or operand is still
/// there, changed at most by following the replacement links that were
/// added since.
pub open spec fn tracks(c1: SsaContext, c2: SsaContext) -> bool {
    &&& extends(c1, c2)
    &&& forall|b: int, x: int|
        0 <= b < c1.blocks@.len() && 0 <= x < c1.num_vars && (#[trigger] def_of(c1, b, x)) is Some
            ==> def_of(c2, b, x) == Some(final_of(c2, def_of(c1, b, x)->Some_0))
    &&& forall|p: int| 0 <= p < c1.phis@.len()
            ==> (#[trigger] c2.phis@[p]).block == c1.phis@[p].block
                && c2.phis@[p].var == c1.phis@[p].var
    &&& forall|p: int| 0 <= p < c1.phis@.len() && !(#[trigger] c1.phis@[p]).pending
            ==> !c2.phis@[p].pending
    &&& forall|p: int| 0 <= p < c1.phis@.len() && (#[trigger] c1.phis@[p]).replaced is Some
            ==> c2.phis@[p].replaced == Some(final_of(c2, c1.phis@[p].replaced->Some_0))
    &&& forall|p: int| 0 <= p < c1.phis@.len() && !(#[trigger] c1.phis@[p]).pending
            ==> c2.phis@[p].operands@.len() == c1.phis@[p].operands@.len()
    &&& forall|p: int, i: int|
        0 <= p < c1.phis@.len() && !(#[trigger] c1.phis@[p]).pending
            && 0 <= i < c1.phis@[p].operands@.len()
            ==> (#[trigger] c2.phis@[p].operands@[i])
                == (c1.phis@[p].operands@[i].0, final_of(c2, c1.phis@[p].operands@[i].1))
}

/// How many blocks have no local definition of `x` yet: the termination
/// measure of the recursive resolver.
pub open spec fn undef_count(blocks: Seq<Block>, x: int) -> nat
    decreases blocks.len(),
{
    if blocks.len() == 0 {
        0
    } else {
        undef_count(blocks.drop_last(), x)
            + (if blocks.last().defs@[x] is None { 1nat } else { 0nat })
    }
}

/// Definitions only ever appear, so the measure never grows.
pub proof fn lemma_undef_count_mono(b1: Seq<Block>, b2: Seq<Block>, x: int)
    requires
        b1.len() == b2.len(),
        forall|i: int| 0 <= i < b1.len() && (#[trigger] b1[i]).defs@[x] is Some
            ==> b2[i].defs@[x] is Some,
    ensures
        undef_count(b2, x) <= undef_count(b1, x),
    decreases b1.len(),
{
    if b1.len() > 0 {
        lemma_undef_count_mono(b1.drop_last(), b2.drop_last(), x);
        assert(b1[b1.len() - 1].defs@[x] is Some ==> b2[b1.len() - 1].defs@[x] is Some);
    }
}

/// Giving one more block a definition shrinks the measure strictly.
pub proof fn lemma_undef_count_strict(b1: Seq<Block>, b2: Seq<Block>, x: int, j: int)
    requires
        b1.len() == b2.len(),
        forall|i: int| 0 <= i < b1.len() && (#[trigger] b1[i]).defs@[x] is Some
            ==> b2[i].defs@[x] is Some,
        0 <= j < b1.len(),
        b1[j].defs@[x] is None,
        b2[j].defs@[x] is Some,
    ensures
        undef_count(b2, x) < undef_count(b1, x),
    decreases b1.len(),
{
    if j == b1.len() - 1 {
        lemma_undef_count_mono(b1.drop_last(), b2.drop_last(), x);
    } else {
        lemma_undef_count_strict(b1.drop_last(), b2.drop_last(), x, j);
        assert(b1[b1.len() - 1].defs@[x] is Some ==> b2[b1.len() - 1].defs@[x] is Some);
    }
}

/// Following replacement links twice reaches the same value as once:
/// targets are substituted whenever a later phi node is replaced.
pub proof fn lemma_final_of_idem(c: SsaContext, v: SsaValue)
    requires
        inv(c),
    ensures
        final_of(c, final_of(c, v)) == final_of(c, v),
{
}

/// A context whose definitions are live tracks itself.
pub proof fn lemma_tracks_refl(c: SsaContext)
    requires
        inv(c),
    ensures
        tracks(c, c),
{
    assert forall|b: int| 0 <= b < c.blocks@.len()
        implies (#[trigger] c.blocks@[b]).preds@.is_prefix_of(c.blocks@[b].preds@) by {
        assert(c.blocks@[b].preds@.subrange(0, c.blocks@[b].preds@.len() as int)
            =~= c.blocks@[b].preds@);
    }
    assert(c.diagnostics@.subrange(0, c.diagnostics@.len() as int) =~= c.diagnostics@);
}

/// Following the links of an intermediate stage first makes no
/// difference: replacement targets are kept substituted.
pub proof fn lemma_final_compose(cm: SsaContext, c2: SsaContext, v: SsaValue)
    requires
        inv(cm),
        tracks(cm, c2),
        wf_value(cm, v),
    ensures
        final_of(c2, final_of(cm, v)) == final_of(c2, v),
{
    if v is Phi {
        let q = v->phi as int;
        if cm.phis@[q].replaced is Some {
            let t = cm.phis@[q].replaced->Some_0;
            assert(c2.phis@[q].replaced == Some(final_of(c2, t)));
            assert(!is_stale(cm, t));
            assert(final_of(c2, final_of(cm, v)) == final_of(c2, t));
        }
    }
}

/// `tracks` composes: following the links added in two stages equals
/// following those added across both at once.
pub proof fn lemma_tracks_trans(c1: SsaContext, c2: SsaContext, c3: SsaContext)
    requires
        inv(c1),
        inv(c2),
        inv(c3),
        tracks(c1, c2),
        tracks(c2, c3),
    ensures
        tracks(c1, c3),
{
    assert forall|v: SsaValue| wf_value(c2, v)
        implies final_of(c3, final_of(c2, v)) == final_of(c3, v) by {
        if v is Phi {
            let q = v->phi as int;
            if c2.phis@[q].replaced is Some {
                let t = c2.phis@[q].replaced->Some_0;
                assert(c3.phis@[q].replaced == Some(final_of(c3, t)));
                assert(!is_stale(c2, t));
                assert(final_of(c3, final_of(c2, v)) == final_of(c3, t));
            }
        }
    }
    assert forall|b: int| 0 <= b < c1.blocks@.len()
        implies (#[trigger] c1.blocks@[b]).preds@.is_prefix_of(c3.blocks@[b].preds@) by {
        assert(c1.blocks@[b].preds@.is_prefix_of(c2.blocks@[b].preds@));
        assert(c2.blocks@[b].preds@.is_prefix_of(c3.blocks@[b].preds@));
        assert(c1.blocks@[b].preds@
            =~= c3.blocks@[b].preds@.subrange(0, c1.blocks@[b].preds@.len() as int));
    }
    assert(c1.diagnostics@
        =~= c3.diagnostics@.subrange(0, c1.diagnostics@.len() as int));
    assert forall|b: int, x: int|
        0 <= b < c1.blocks@.len() && 0 <= x < c1.num_vars && (#[trigger] def_of(c1, b, x)) is Some
        implies def_of(c3, b, x) == Some(final_of(c3, def_of(c1, b, x)->Some_0)) by {
        let w = def_of(c1, b, x)->Some_0;
        assert(def_of(c2, b, x) == Some(final_of(c2, w)));
        assert(def_of(c3, b, x) == Some(final_of(c3, final_of(c2, w))));
        assert(wf_value(c2, w));
    }
    assert forall|p: int| 0 <= p < c1.phis@.len() && (#[trigger] c1.phis@[p]).replaced is Some
        implies c3.phis@[p].replaced
            == Some(final_of(c3, c1.phis@[p].replaced->Some_0)) by {
        let t = c1.phis@[p].replaced->Some_0;
        assert(c2.phis@[p].replaced == Some(final_of(c2, t)));
        assert(c3.phis@[p].replaced == Some(final_of(c3, final_of(c2, t))));
        assert(wf_value(c2, t));
    }
    assert forall|p: int, i: int|
        0 <= p < c1.phis@.len() && !(#[trigger] c1.phis@[p]).pending
            && 0 <= i < c1.phis@[p].operands@.len()
        implies (#[trigger] c3.phis@[p].operands@[i])
            == (c1.phis@[p].operands@[i].0, final_of(c3, c1.phis@[p].operands@[i].1)) by {
        let w = c1.phis@[p].operands@[i].1;
        assert(c2.phis@[p].operands@[i] == (c1.phis@[p].operands@[i].0, final_of(c2, w)));
        assert(c3.phis@[p].operands@[i]
            == (c1.phis@[p].operands@[i].0, final_of(c3, final_of(c2, w))));
        assert(wf_value(c2, w));
    }
}

impl SsaContext {
    /// A fresh context for a procedure with `num_vars` variables: no
    /// blocks, no phi nodes, every version counter at zero.
    pub fn new(num_vars: usize) -> (c: SsaContext)
        ensures
            inv(c),
            c.num_vars == num_vars,
            c.blocks@.len() == 0,
            c.phis@.len() == 0,
            c.diagnostics@.len() == 0,
            forall|x: int| 0 <= x < num_vars ==> c.versions@[x] == 0,
    {
        let mut versions: Vec<usize> = Vec::new();
        while versions.len() < num_vars
            invariant
                versions@.len() <= num_vars,
                forall|x: int| 0 <= x < versions@.len() ==> versions@[x] == 0,
            decreases num_vars - versions.len(),
        {
            versions.push(0);
        }
        SsaContext {
            num_vars,
            blocks: Vec::new(),
            phis: Vec::new(),
            versions,
            diagnostics: Vec::new(),
        }
    }

    /// Create a block with the given predecessors. Branch targets and
    /// merge blocks know their predecessors at creation and are born
    /// sealed; a loop header is created unsealed and sealed once its
    /// back edge is wired.
    pub fn new_block(&mut self, preds: Vec<BlockId>, sealed: bool) -> (b: BlockId)
        requires
            inv(*old(self)),
            forall|i: int| 0 <= i < preds@.len() ==> #[trigger] preds@[i] < old(self).blocks@.len(),
        ensures
            inv(*final(self)),
            tracks(*old(self), *final(self)),
            b == old(self).blocks@.len(),
            final(self).blocks@.len() == old(self).blocks@.len() + 1,
            final(self).blocks@[b as int].preds@ == preds@,
            final(self).blocks@[b as int].sealed == sealed,
            final(self).blocks@[b as int].incomplete@.len() == 0,
            forall|x: int| 0 <= x < old(self).num_vars
                ==> def_of(*final(self), b as int, x) is None,
            forall|i: int| 0 <= i < old(self).blocks@.len()
                ==> final(self).blocks@[i] == old(self).blocks@[i],
            final(self).phis@ == old(self).phis@,
            final(self).versions@ == old(self).versions@,
            final(self).diagnostics@ == old(self).diagnostics@,
            final(self).num_vars == old(self).num_vars,
    {
        let n = self.num_vars;
        let mut defs: Vec<Option<SsaValue>> = Vec::new();
        while defs.len() < n
            invariant
                defs@.len() <= n,
                forall|x: int| 0 <= x < defs@.len() ==> defs@[x] is None,
            decreases n - defs.len(),
        {
            defs.push(None);
        }
        let b = self.blocks.len();
        self.blocks.push(Block { preds, sealed, incomplete: Vec::new(), defs });
        proof {
            let c1 = *old(self);
            let c2 = *self;
            assert forall|i: int, x: int|
                0 <= i < c2.blocks@.len() && 0 <= x < c2.num_vars
                    && (#[trigger] def_of(c2, i, x)) is Some
                implies wf_value(c2, def_of(c2, i, x)->Some_0)
                    && !is_stale(c2, def_of(c2, i, x)->Some_0) by {
                if i < c1.blocks@.len() {
                    assert(def_of(c1, i, x) == def_of(c2, i, x));
                } else {
                    assert(def_of(c2, i, x) is None);
                }
            }
            assert forall|i: int, j: int|
                0 <= i < c2.blocks@.len() && 0 <= j < c2.blocks@[i].incomplete@.len()
                implies def_of(c2, i, (#[trigger] c2.blocks@[i].incomplete@[j]).0 as int) is Some
                by {
                assert(c2.blocks@[i] == c1.blocks@[i]);
                assert(def_of(c1, i, c1.blocks@[i].incomplete@[j].0 as int) is Some);
            }
        }
        b
    }

    /// Register one more predecessor edge into `to` — the back edge of a
    /// loop. Only a block whose predecessor set is still open admits
    /// this, and only one that already has a predecessor, so a block
    /// with exactly one predecessor always has an earlier one.
    pub fn add_edge(&mut self, from: BlockId, to: BlockId)
        requires
            inv(*old(self)),
            from < old(self).blocks@.len(),
            to < old(self).blocks@.len(),
            !old(self).blocks@[to as int].sealed,
            old(self).blocks@[to as int].preds@.len() >= 1,
        ensures
            inv(*final(self)),
            tracks(*old(self), *final(self)),
            final(self).blocks@.len() == old(self).blocks@.len(),
            final(self).blocks@[to as int].preds@
                == old(self).blocks@[to as int].preds@.push(from),
            final(self).blocks@[to as int].sealed == old(self).blocks@[to as int].sealed,
            final(self).blocks@[to as int].defs@ == old(self).blocks@[to as int].defs@,
            final(self).blocks@[to as int].incomplete@ == old(self).blocks@[to as int].incomplete@,
            forall|i: int| 0 <= i < old(self).blocks@.len() && i != to
                ==> final(self).blocks@[i] == old(self).blocks@[i],
            final(self).phis@ == old(self).phis@,
            final(self).versions@ == old(self).versions@,
            final(self).diagnostics@ == old(self).diagnostics@,
            final(self).num_vars == old(self).num_vars,
    {
        self.blocks[to].preds.push(from);
        proof {
            let c1 = *old(self);
            let c2 = *self;
            assert forall|i: int, x: int|
                0 <= i < c2.blocks@.len() && 0 <= x < c2.num_vars
                    && (#[trigger] def_of(c2, i, x)) is Some
                implies wf_value(c2, def_of(c2, i, x)->Some_0)
                    && !is_stale(c2, def_of(c2, i, x)->Some_0) by {
                assert(def_of(c1, i, x) == def_of(c2, i, x));
            }
            assert forall|i: int, j: int|
                0 <= i < c2.blocks@.len() && 0 <= j < c2.blocks@[i].incomplete@.len()
                implies def_of(c2, i, (#[trigger] c2.blocks@[i].incomplete@[j]).0 as int) is Some
                by {
                assert(c2.blocks@[i].incomplete@ == c1.blocks@[i].incomplete@);
                assert(def_of(c1, i, c1.blocks@[i].incomplete@[j].0 as int) is Some);
            }
        }
    }
}

} // verus!

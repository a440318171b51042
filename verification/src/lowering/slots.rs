//! Allocation of value slots and register transitions: every value that a
//! block consumes but does not produce gets a pseudo-register in the
//! block, and a register transition on the edges through which it flows
//! in.
use super::lir::{
    block_mirrored, blocks_ok, lemma_block_kept, lemma_blocks_kept, links_ok, BasicBlock,
    BlockGraph, BlockId, ControlFlowTransfer, EdgeId, MultiSlot, SlotRef, ValueSlot,
};
use crate::firm::graph::{Graph, Mode, NodeId, NodeKind};
use crate::firm::nodes::{Block, Phi};
use vstd::prelude::*;

verus! {

/// Block `n` is block `o` with, at most, more and fuller pseudo-registers
/// and other code.
pub open spec fn block_extends(firm: &Graph, o: BasicBlock, n: BasicBlock) -> bool {
    &&& n.firm == o.firm
    &&& n.preds == o.preds
    &&& n.succs == o.succs
    &&& n.returns == o.returns
    &&& o.regs@.len() <= n.regs@.len()
    &&& forall|i: int| 0 <= i < o.regs@.len() ==> slot_extends(#[trigger] o.regs@[i], n.regs@[i])
}

/// Pseudo-register `n` is pseudo-register `o` with, at most, more value
/// slots. Only one that was made for a phi can get more.
pub open spec fn slot_extends(o: MultiSlot, n: MultiSlot) -> bool {
    match o {
        MultiSlot::Single(s) => n == MultiSlot::Single(s),
        MultiSlot::Multi { phi, slots } => n is Multi && n->phi == phi && slots@.len()
            <= n.spec_slots().len() && n.spec_slots().subrange(0, slots@.len() as int) == slots@,
    }
}

/// What a pseudo-register held, it still holds when it got more value
/// slots.
pub proof fn lemma_holds_kept(firm: &Graph, o: MultiSlot, n: MultiSlot, v: NodeId)
    requires
        slot_extends(o, n),
        o.holds(firm, v),
    ensures
        n.holds(firm, v),
{
    match o {
        MultiSlot::Single(s) => {},
        MultiSlot::Multi { phi, slots } => {
            if firm.spec_kind(v) != NodeKind::Phi {
                let w = choose|w: int| 0 <= w < slots@.len() && (#[trigger] slots@[w]).firm == v;
                let ns = n->slots;
                assert(ns@.subrange(0, slots@.len() as int)[w] == ns@[w]);
                assert(ns@[w].firm == v);
            }
        },
    }
}

proof fn lemma_slot_extends_refl(o: MultiSlot)
    ensures
        slot_extends(o, o),
{
    match o {
        MultiSlot::Single(s) => {},
        MultiSlot::Multi { phi, slots } => {
            assert(slots@.subrange(0, slots@.len() as int) =~= slots@);
        },
    }
}

proof fn lemma_slot_extends_trans(a: MultiSlot, b: MultiSlot, c: MultiSlot)
    requires
        slot_extends(a, b),
        slot_extends(b, c),
    ensures
        slot_extends(a, c),
{
    match a {
        MultiSlot::Single(s) => {},
        MultiSlot::Multi { phi, slots } => {
            let bs = b->slots;
            let cs = c->slots;
            assert(cs@.subrange(0, slots@.len() as int) =~= slots@) by {
                assert forall|i: int| 0 <= i < slots@.len() implies cs@[i] == slots@[i] by {
                    assert(bs@.subrange(0, slots@.len() as int)[i] == slots@[i]);
                    assert(cs@.subrange(0, bs@.len() as int)[i] == bs@[i]);
                }
            }
        },
    }
}

/// Edge `n` is edge `o` with, at most, more register transitions.
pub open spec fn edge_extends(o: ControlFlowTransfer, n: ControlFlowTransfer) -> bool {
    &&& n.source == o.source
    &&& n.target == o.target
    &&& o.register_transitions@.len() <= n.register_transitions@.len()
    &&& n.register_transitions@.subrange(0, o.register_transitions@.len() as int)
        == o.register_transitions@
}

impl BlockGraph {
    /// This graph is `old` with, at most, more slots, more register
    /// transitions and other code.
    pub open spec fn extends(&self, old: &BlockGraph) -> bool {
        &&& self.firm == old.firm
        &&& self.head == old.head
        &&& self.end_block == old.end_block
        &&& self.blocks@.len() == old.blocks@.len()
        &&& self.edges@.len() == old.edges@.len()
        &&& forall|b: int|
            0 <= b < old.blocks@.len() ==> block_extends(
                &old.firm,
                #[trigger] old.blocks@[b],
                self.blocks@[b],
            )
        &&& forall|e: int|
            0 <= e < old.edges@.len() ==> edge_extends(#[trigger] old.edges@[e], self.edges@[e])
    }

    /// Block `b` has a pseudo-register that holds the value of node `v`.
    pub open spec fn covers(&self, b: BlockId, v: NodeId) -> bool {
        exists|i: int|
            0 <= i < self.blocks@[b as int].regs@.len() && (
            #[trigger] self.blocks@[b as int].regs@[i]).holds(&self.firm, v)
    }

    /// How many of the first `n` nodes block `b` has no pseudo-register
    /// for.
    pub open spec fn uncovered_in(&self, b: BlockId, n: nat) -> nat
        decreases n,
    {
        if n == 0 {
            0
        } else {
            self.uncovered_in(b, (n - 1) as nat) + if self.covers(b, (n - 1) as usize) {
                0nat
            } else {
                1nat
            }
        }
    }

    /// How many pairs of one of the first `k` blocks and a node there are
    /// such that the block has no pseudo-register for the node.
    pub open spec fn uncovered_upto(&self, k: nat) -> nat
        decreases k,
    {
        if k == 0 {
            0
        } else {
            self.uncovered_upto((k - 1) as nat) + self.uncovered_in(
                (k - 1) as usize,
                self.firm.nodes@.len(),
            )
        }
    }

    /// How many pairs of a block and a node there are such that the block
    /// has no pseudo-register for the node. Allocation of slots ends
    /// because this number falls.
    pub open spec fn uncovered(&self) -> nat {
        self.uncovered_upto(self.blocks@.len())
    }
}

/// A graph extends itself.
pub proof fn lemma_extends_is_refl(g: &BlockGraph)
    ensures
        g.extends(g),
{
    lemma_extends_refl(g);
}

proof fn lemma_extends_refl(g: &BlockGraph)
    ensures
        g.extends(g),
{
    assert forall|b: int| 0 <= b < g.blocks@.len() implies block_extends(
        &g.firm,
        #[trigger] g.blocks@[b],
        g.blocks@[b],
    ) by {
        assert forall|i: int| 0 <= i < g.blocks@[b].regs@.len() implies slot_extends(
            #[trigger] g.blocks@[b].regs@[i],
            g.blocks@[b].regs@[i],
        ) by {
            lemma_slot_extends_refl(g.blocks@[b].regs@[i]);
        }
    }
    assert forall|e: int| 0 <= e < g.edges@.len() implies edge_extends(
        #[trigger] g.edges@[e],
        g.edges@[e],
    ) by {
        let t = g.edges@[e].register_transitions@;
        assert(t.subrange(0, t.len() as int) =~= t);
    }
}

proof fn lemma_extends_trans(a: &BlockGraph, b: &BlockGraph, c: &BlockGraph)
    requires
        b.extends(a),
        c.extends(b),
    ensures
        c.extends(a),
{
    assert forall|x: int| 0 <= x < a.blocks@.len() implies block_extends(
        &a.firm,
        #[trigger] a.blocks@[x],
        c.blocks@[x],
    ) by {
        assert(block_extends(&a.firm, a.blocks@[x], b.blocks@[x]));
        assert(block_extends(&b.firm, b.blocks@[x], c.blocks@[x]));
        assert forall|i: int| 0 <= i < a.blocks@[x].regs@.len() implies slot_extends(
            #[trigger] a.blocks@[x].regs@[i],
            c.blocks@[x].regs@[i],
        ) by {
            assert(slot_extends(a.blocks@[x].regs@[i], b.blocks@[x].regs@[i]));
            assert(slot_extends(b.blocks@[x].regs@[i], c.blocks@[x].regs@[i]));
            lemma_slot_extends_trans(
                a.blocks@[x].regs@[i],
                b.blocks@[x].regs@[i],
                c.blocks@[x].regs@[i],
            );
        }
    }
    assert forall|e: int| 0 <= e < a.edges@.len() implies edge_extends(
        #[trigger] a.edges@[e],
        c.edges@[e],
    ) by {
        assert(edge_extends(a.edges@[e], b.edges@[e]));
        assert(edge_extends(b.edges@[e], c.edges@[e]));
        let ta = a.edges@[e].register_transitions@;
        let tb = b.edges@[e].register_transitions@;
        let tc = c.edges@[e].register_transitions@;
        assert(tc.subrange(0, ta.len() as int) =~= ta) by {
            assert forall|i: int| 0 <= i < ta.len() implies tc[i] == ta[i] by {
                assert(tb.subrange(0, ta.len() as int)[i] == ta[i]);
                assert(tc.subrange(0, tb.len() as int)[i] == tb[i]);
            }
        }
    }
}

/// What a block had a pseudo-register for, it still has one for.
proof fn lemma_covers_kept(old: &BlockGraph, new: &BlockGraph, b: BlockId, v: NodeId)
    requires
        new.extends(old),
        b < old.blocks@.len(),
        old.covers(b, v),
    ensures
        new.covers(b, v),
{
    let i = choose|i: int|
        0 <= i < old.blocks@[b as int].regs@.len() && (
        #[trigger] old.blocks@[b as int].regs@[i]).holds(&old.firm, v);
    assert(block_extends(&old.firm, old.blocks@[b as int], new.blocks@[b as int]));
    assert(slot_extends(old.blocks@[b as int].regs@[i], new.blocks@[b as int].regs@[i]));
    lemma_holds_kept(&old.firm, old.blocks@[b as int].regs@[i], new.blocks@[b as int].regs@[i], v);
}

proof fn lemma_uncovered_in_le(old: &BlockGraph, new: &BlockGraph, b: BlockId, n: nat)
    requires
        new.extends(old),
        b < old.blocks@.len(),
    ensures
        new.uncovered_in(b, n) <= old.uncovered_in(b, n),
    decreases n,
{
    if n > 0 {
        lemma_uncovered_in_le(old, new, b, (n - 1) as nat);
        if old.covers(b, (n - 1) as usize) {
            lemma_covers_kept(old, new, b, (n - 1) as usize);
        }
    }
}

proof fn lemma_uncovered_in_lt(old: &BlockGraph, new: &BlockGraph, b: BlockId, n: nat, v: NodeId)
    requires
        new.extends(old),
        b < old.blocks@.len(),
        v < n,
        !old.covers(b, v),
        new.covers(b, v),
    ensures
        new.uncovered_in(b, n) < old.uncovered_in(b, n),
    decreases n,
{
    if n - 1 == v {
        lemma_uncovered_in_le(old, new, b, (n - 1) as nat);
    } else {
        lemma_uncovered_in_lt(old, new, b, (n - 1) as nat, v);
        if old.covers(b, (n - 1) as usize) {
            lemma_covers_kept(old, new, b, (n - 1) as usize);
        }
    }
}

proof fn lemma_uncovered_upto_le(old: &BlockGraph, new: &BlockGraph, k: nat)
    requires
        new.extends(old),
        k <= old.blocks@.len() <= usize::MAX,
    ensures
        new.uncovered_upto(k) <= old.uncovered_upto(k),
    decreases k,
{
    if k > 0 {
        lemma_uncovered_upto_le(old, new, (k - 1) as nat);
        lemma_uncovered_in_le(old, new, (k - 1) as usize, old.firm.nodes@.len());
    }
}

proof fn lemma_uncovered_upto_lt(old: &BlockGraph, new: &BlockGraph, k: nat, b: BlockId, v: NodeId)
    requires
        new.extends(old),
        k <= old.blocks@.len() <= usize::MAX,
        b < k,
        v < old.firm.nodes@.len(),
        !old.covers(b, v),
        new.covers(b, v),
    ensures
        new.uncovered_upto(k) < old.uncovered_upto(k),
    decreases k,
{
    if k - 1 == b {
        lemma_uncovered_upto_le(old, new, (k - 1) as nat);
        lemma_uncovered_in_lt(old, new, b, old.firm.nodes@.len(), v);
    } else {
        lemma_uncovered_upto_lt(old, new, (k - 1) as nat, b, v);
        lemma_uncovered_in_le(old, new, (k - 1) as usize, old.firm.nodes@.len());
    }
}

/// More slots never raise the number of uncovered pairs.
pub proof fn lemma_uncovered_le(old: &BlockGraph, new: &BlockGraph)
    requires
        new.extends(old),
        old.blocks@.len() <= usize::MAX,
    ensures
        new.uncovered() <= old.uncovered(),
{
    lemma_uncovered_upto_le(old, new, old.blocks@.len());
}

/// A pseudo-register for a value that a block had none for lowers the
/// number of uncovered pairs.
pub proof fn lemma_uncovered_lt(old: &BlockGraph, new: &BlockGraph, b: BlockId, v: NodeId)
    requires
        new.extends(old),
        old.blocks@.len() <= usize::MAX,
        b < old.blocks@.len(),
        v < old.firm.nodes@.len(),
        !old.covers(b, v),
        new.covers(b, v),
    ensures
        new.uncovered() < old.uncovered(),
{
    lemma_uncovered_upto_lt(old, new, old.blocks@.len(), b, v);
}


/// Blocks and edges still agree when only slots and register transitions
/// were added.
proof fn lemma_links_kept(old: &BlockGraph, new: &BlockGraph)
    requires
        links_ok(old.blocks@, old.edges@),
        new.extends(old),
    ensures
        links_ok(new.blocks@, new.edges@),
{
    assert forall|b: int| 0 <= b < new.blocks@.len() implies (#[trigger] new.blocks@[b]).preds
        == old.blocks@[b].preds && new.blocks@[b].succs == old.blocks@[b].succs by {
        assert(block_extends(&old.firm, old.blocks@[b], new.blocks@[b]));
    }
    assert forall|e: int| 0 <= e < new.edges@.len() implies (#[trigger] new.edges@[e]).source
        == old.edges@[e].source && new.edges@[e].target == old.edges@[e].target by {
        assert(edge_extends(old.edges@[e], new.edges@[e]));
    }
    assert forall|b: int, i: int|
        0 <= b < new.blocks@.len() && 0 <= i < new.blocks@[b].preds@.len() implies {
        let e = #[trigger] new.blocks@[b].preds@[i];
        e < new.edges@.len() && new.edges@[e as int].target == b
    } by {
        let e = old.blocks@[b].preds@[i];
        assert(e < old.edges@.len());
    }
    assert forall|b: int, i: int|
        0 <= b < new.blocks@.len() && 0 <= i < new.blocks@[b].succs@.len() implies {
        let e = #[trigger] new.blocks@[b].succs@[i];
        e < new.edges@.len() && new.edges@[e as int].source == b
    } by {
        let e = old.blocks@[b].succs@[i];
        assert(e < old.edges@.len());
    }
    assert forall|e: EdgeId| e < new.edges@.len() implies {
        let t = #[trigger] new.edges@[e as int];
        &&& t.source < new.blocks@.len()
        &&& t.target < new.blocks@.len()
        &&& new.blocks@[t.target as int].preds@.contains(e)
        &&& new.blocks@[t.source as int].succs@.contains(e)
    } by {
        let t = old.edges@[e as int];
        assert(t.source < old.blocks@.len());
        assert(old.blocks@[t.target as int].preds@.contains(e));
        assert(old.blocks@[t.source as int].succs@.contains(e));
    }
}

/// The skeleton of a graph stays what it was when only slots and register
/// transitions were added.
proof fn lemma_mirrored_kept(old: &BlockGraph, new: &BlockGraph, b: int)
    requires
        links_ok(old.blocks@, old.edges@),
        new.extends(old),
        0 <= b < old.blocks@.len(),
        block_mirrored(&old.firm, old.blocks@, old.edges@, b),
    ensures
        block_mirrored(&new.firm, new.blocks@, new.edges@, b),
{
    assert forall|x: int| 0 <= x < new.blocks@.len() implies (#[trigger] new.blocks@[x]).preds
        == old.blocks@[x].preds && new.blocks@[x].firm == old.blocks@[x].firm by {
        assert(block_extends(&old.firm, old.blocks@[x], new.blocks@[x]));
    }
    assert forall|k: int| 0 <= k < new.blocks@[b].preds@.len() implies #[trigger] super::lir::way_mirrored(
        &new.firm,
        new.blocks@,
        new.edges@,
        b,
        k,
    ) by {
        assert(super::lir::way_mirrored(&old.firm, old.blocks@, old.edges@, b, k));
        let e = old.blocks@[b].preds@[k];
        assert(e < old.edges@.len());
        assert(edge_extends(old.edges@[e as int], new.edges@[e as int]));
        assert(old.edges@[e as int].source < old.blocks@.len());
    }
}

/// A value slot that a pseudo-register had, it still has when it got
/// more value slots.
pub proof fn lemma_slot_kept(o: MultiSlot, n: MultiSlot, s: ValueSlot)
    requires
        slot_extends(o, n),
        o.spec_slots().contains(s),
    ensures
        n.spec_slots().contains(s),
{
    match o {
        MultiSlot::Single(x) => {},
        MultiSlot::Multi { phi, slots } => {
            let w = choose|w: int| 0 <= w < slots@.len() && slots@[w] == s;
            let ns = n->slots;
            assert(ns@.subrange(0, slots@.len() as int)[w] == ns@[w]);
            assert(n.spec_slots()[w] == s);
        },
    }
}

/// A register transition that was sound stays sound when slots and
/// register transitions are added.
proof fn lemma_transition_kept(old: &BlockGraph, new: &BlockGraph, e: int, t: int)
    requires
        links_ok(old.blocks@, old.edges@),
        new.extends(old),
        0 <= e < old.edges@.len() <= usize::MAX,
        0 <= t < old.edges@[e].register_transitions@.len(),
        old.transition_ok(e, t),
    ensures
        new.transition_ok(e, t),
{
    let oe = old.edges@[e];
    let eu = e as usize;
    assert(old.edges@[eu as int] == oe);
    assert(edge_extends(oe, new.edges@[e]));
    assert(new.edges@[e].register_transitions@.subrange(0, oe.register_transitions@.len() as int)[t]
        == oe.register_transitions@[t]);
    assert(oe.source < old.blocks@.len());
    assert(oe.target < old.blocks@.len());
    assert(block_extends(&old.firm, old.blocks@[oe.source as int], new.blocks@[oe.source as int]));
    assert(block_extends(&old.firm, old.blocks@[oe.target as int], new.blocks@[oe.target as int]));
    let src = oe.register_transitions@[t].0;
    let tgt = oe.register_transitions@[t].1;
    assert(old.blocks@[oe.source as int].regs@[src.num as int].holds(&old.firm, tgt.firm));
    assert(slot_extends(
        old.blocks@[oe.source as int].regs@[src.num as int],
        new.blocks@[oe.source as int].regs@[src.num as int],
    ));
    lemma_holds_kept(
        &old.firm,
        old.blocks@[oe.source as int].regs@[src.num as int],
        new.blocks@[oe.source as int].regs@[src.num as int],
        tgt.firm,
    );
    assert(slot_extends(
        old.blocks@[oe.target as int].regs@[tgt.num as int],
        new.blocks@[oe.target as int].regs@[tgt.num as int],
    ));
    lemma_slot_kept(
        old.blocks@[oe.target as int].regs@[tgt.num as int],
        new.blocks@[oe.target as int].regs@[tgt.num as int],
        tgt,
    );
}

/// A well-formed graph stays well formed when slots and register
/// transitions are added that are sound themselves.
proof fn lemma_wf_kept(old: &BlockGraph, new: &BlockGraph)
    requires
        old.wf(),
        old.edges@.len() <= usize::MAX,
        new.extends(old),
        new.regs_ok(),
        forall|e: int, t: int|
            0 <= e < new.edges@.len() && old.edges@[e].register_transitions@.len() <= t
                < new.edges@[e].register_transitions@.len() ==> #[trigger] new.transition_ok(e, t),
    ensures
        new.wf(),
{
    assert forall|x: int| 0 <= x < old.blocks@.len() implies (#[trigger] new.blocks@[x]).firm
        == old.blocks@[x].firm by {
        assert(block_extends(&old.firm, old.blocks@[x], new.blocks@[x]));
    }
    lemma_blocks_kept(&old.firm, old.blocks@, new.blocks@);
    lemma_links_kept(old, new);
    assert forall|b: int| 0 <= b < new.blocks@.len() implies #[trigger] block_mirrored(
        &new.firm,
        new.blocks@,
        new.edges@,
        b,
    ) by {
        lemma_mirrored_kept(old, new, b);
    }
    assert forall|e: int, t: int|
        0 <= e < new.edges@.len() && 0 <= t
            < new.edges@[e].register_transitions@.len() implies #[trigger] new.transition_ok(
        e,
        t,
    ) by {
        if t < old.edges@[e].register_transitions@.len() {
            lemma_transition_kept(old, new, e, t);
        }
    }
    assert(block_extends(&old.firm, old.blocks@[old.head as int], new.blocks@[old.head as int]));
    assert(block_extends(
        &old.firm,
        old.blocks@[old.end_block as int],
        new.blocks@[old.end_block as int],
    ));
}

impl BlockGraph {
    /// Gives block `b` one more pseudo-register.
    pub(crate) fn push_reg(&mut self, b: BlockId, ms: MultiSlot)
        requires
            old(self).wf(),
            b < old(self).blocks@.len(),
            ms.wf_at(
                b,
                old(self).blocks@[b as int].regs@.len() as usize,
                old(self).firm.nodes@.len(),
                old(self).blocks@.len(),
            ),
        ensures
            final(self).wf(),
            final(self).extends(old(self)),
            final(self).blocks@[b as int].regs@ == old(self).blocks@[b as int].regs@.push(ms),
            forall|x: int|
                0 <= x < old(self).blocks@.len() && x != b ==> #[trigger] final(self).blocks@[x]
                    == old(self).blocks@[x],
            final(self).edges == old(self).edges,
    {
        let n = self.blocks[b].regs.len();
        let ne = self.edges.len();
        self.blocks[b].regs.push(ms);
        proof {
            let o = old(self);
            assert forall|x: int| 0 <= x < o.blocks@.len() implies block_extends(
                &o.firm,
                #[trigger] o.blocks@[x],
                self.blocks@[x],
            ) by {
                assert forall|i: int| 0 <= i < o.blocks@[x].regs@.len() implies slot_extends(
                    #[trigger] o.blocks@[x].regs@[i],
                    self.blocks@[x].regs@[i],
                ) by {
                    assert(self.blocks@[x].regs@[i] == o.blocks@[x].regs@[i]);
                    lemma_slot_extends_refl(o.blocks@[x].regs@[i]);
                }
            }
            assert forall|e: int| 0 <= e < o.edges@.len() implies edge_extends(
                #[trigger] o.edges@[e],
                self.edges@[e],
            ) by {
                let t = o.edges@[e].register_transitions@;
                assert(t.subrange(0, t.len() as int) =~= t);
            }
            assert(self.regs_ok()) by {
                assert forall|x: BlockId, i: usize|
                    x < self.blocks@.len() && i < self.blocks@[x as int].regs@.len() implies (
                #[trigger] self.blocks@[x as int].regs@[i as int]).wf_at(
                    x,
                    i,
                    self.firm.nodes@.len(),
                    self.blocks@.len(),
                ) by {
                    if x == b && i == n {
                    } else {
                        assert(self.blocks@[x as int].regs@[i as int] == o.blocks@[x as int].regs@[i as int]);
                        assert(o.blocks@[x as int].regs@[i as int].wf_at(
                            x,
                            i,
                            o.firm.nodes@.len(),
                            o.blocks@.len(),
                        ));
                    }
                }
            }
            lemma_wf_kept(o, self);
        }
    }

    /// Gives pseudo-register `num` of block `b`, which was made for a phi,
    /// one more value slot.
    pub(crate) fn push_slot(&mut self, b: BlockId, num: usize, slot: ValueSlot)
        requires
            old(self).wf(),
            b < old(self).blocks@.len(),
            num < old(self).blocks@[b as int].regs@.len(),
            old(self).blocks@[b as int].regs@[num as int] is Multi,
            slot.num == num,
            slot.allocated_in == b,
            slot.firm < old(self).firm.nodes@.len(),
            slot.originates_in < old(self).blocks@.len(),
            slot.terminates_in < old(self).blocks@.len(),
        ensures
            final(self).wf(),
            final(self).extends(old(self)),
            final(self).blocks@[b as int].regs@.len() == old(self).blocks@[b as int].regs@.len(),
            final(self).blocks@[b as int].regs@[num as int] is Multi,
            final(self).blocks@[b as int].regs@[num as int]->phi == old(self).blocks@[b as int].regs@[num as int]->phi,
            final(self).blocks@[b as int].regs@[num as int].spec_slots() == old(self).blocks@[b as int].regs@[num as int].spec_slots().push(slot),
            forall|i: int|
                0 <= i < old(self).blocks@[b as int].regs@.len() && i != num ==> #[trigger] final(self).blocks@[b as int].regs@[i] == old(self).blocks@[b as int].regs@[i],
            forall|x: int|
                0 <= x < old(self).blocks@.len() && x != b ==> #[trigger] final(self).blocks@[x]
                    == old(self).blocks@[x],
            final(self).edges == old(self).edges,
    {
        let ne = self.edges.len();
        match &mut self.blocks[b].regs[num] {
            MultiSlot::Multi { slots, .. } => {
                slots.push(slot);
            },
            _ => {},
        }
        proof {
            let o = old(self);
            let oms = o.blocks@[b as int].regs@[num as int];
            let nms = self.blocks@[b as int].regs@[num as int];
            assert(o.blocks@[b as int].regs@[num as int].wf_at(
                b,
                num,
                o.firm.nodes@.len(),
                o.blocks@.len(),
            ));
            assert forall|x: int| 0 <= x < o.blocks@.len() implies block_extends(
                &o.firm,
                #[trigger] o.blocks@[x],
                self.blocks@[x],
            ) by {
                assert forall|i: int| 0 <= i < o.blocks@[x].regs@.len() implies slot_extends(
                    #[trigger] o.blocks@[x].regs@[i],
                    self.blocks@[x].regs@[i],
                ) by {
                    if x == b && i == num {
                        let os = oms->slots;
                        let ns = nms->slots;
                        assert(ns@.subrange(0, os@.len() as int) =~= os@);
                    } else {
                        assert(self.blocks@[x].regs@[i] == o.blocks@[x].regs@[i]);
                        lemma_slot_extends_refl(o.blocks@[x].regs@[i]);
                    }
                }
            }
            assert forall|e: int| 0 <= e < o.edges@.len() implies edge_extends(
                #[trigger] o.edges@[e],
                self.edges@[e],
            ) by {
                let t = o.edges@[e].register_transitions@;
                assert(t.subrange(0, t.len() as int) =~= t);
            }
            assert(self.regs_ok()) by {
                assert forall|x: BlockId, i: usize|
                    x < self.blocks@.len() && i < self.blocks@[x as int].regs@.len() implies (
                #[trigger] self.blocks@[x as int].regs@[i as int]).wf_at(
                    x,
                    i,
                    self.firm.nodes@.len(),
                    self.blocks@.len(),
                ) by {
                    assert(o.blocks@[x as int].regs@[i as int].wf_at(
                        x,
                        i,
                        o.firm.nodes@.len(),
                        o.blocks@.len(),
                    ));
                    if x == b && i == num {
                        assert forall|k: int| 0 <= k < nms.spec_slots().len() implies {
                            let s = #[trigger] nms.spec_slots()[k];
                            &&& s.num == num
                            &&& s.allocated_in == b
                            &&& s.firm < self.firm.nodes@.len()
                            &&& s.originates_in < self.blocks@.len()
                            &&& s.terminates_in < self.blocks@.len()
                        } by {
                            if k < oms.spec_slots().len() {
                                assert(nms.spec_slots()[k] == oms.spec_slots()[k]);
                            }
                        }
                    }
                }
            }
            lemma_wf_kept(o, self);
        }
    }

    /// Writes on edge `e` that the pseudo-register `src` of its source
    /// block flows into the value slot `tgt` of its target block.
    pub(crate) fn push_transition(&mut self, e: EdgeId, src: SlotRef, tgt: ValueSlot)
        requires
            old(self).wf(),
            e < old(self).edges@.len(),
            src.block == old(self).edges@[e as int].source,
            src.num < old(self).blocks@[src.block as int].regs@.len(),
            tgt.allocated_in == old(self).edges@[e as int].target,
            tgt.num < old(self).blocks@[tgt.allocated_in as int].regs@.len(),
            tgt.firm < old(self).firm.nodes@.len(),
            tgt.terminates_in < old(self).blocks@.len(),
            old(self).blocks@[src.block as int].regs@[src.num as int].holds(
                &old(self).firm,
                tgt.firm,
            ),
            old(self).blocks@[tgt.allocated_in as int].regs@[tgt.num as int].spec_slots().contains(
                tgt,
            ),
        ensures
            final(self).wf(),
            final(self).extends(old(self)),
            final(self).blocks == old(self).blocks,
            final(self).edges@[e as int].register_transitions@ == old(self).edges@[e as int].register_transitions@.push((src, tgt)),
            forall|x: int|
                0 <= x < old(self).edges@.len() && x != e ==> #[trigger] final(self).edges@[x]
                    == old(self).edges@[x],
    {
        let ne = self.edges.len();
        self.edges[e].register_transitions.push((src, tgt));
        proof {
            let o = old(self);
            assert forall|x: int| 0 <= x < o.blocks@.len() implies block_extends(
                &o.firm,
                #[trigger] o.blocks@[x],
                self.blocks@[x],
            ) by {
                assert forall|i: int| 0 <= i < o.blocks@[x].regs@.len() implies slot_extends(
                    #[trigger] o.blocks@[x].regs@[i],
                    self.blocks@[x].regs@[i],
                ) by {
                    lemma_slot_extends_refl(o.blocks@[x].regs@[i]);
                }
            }
            assert forall|x: int| 0 <= x < o.edges@.len() implies edge_extends(
                #[trigger] o.edges@[x],
                self.edges@[x],
            ) by {
                let t = o.edges@[x].register_transitions@;
                let u = self.edges@[x].register_transitions@;
                assert(u.subrange(0, t.len() as int) =~= t);
            }
            assert(self.regs_ok()) by {
                assert forall|x: BlockId, i: usize|
                    x < self.blocks@.len() && i < self.blocks@[x as int].regs@.len() implies (
                #[trigger] self.blocks@[x as int].regs@[i as int]).wf_at(
                    x,
                    i,
                    self.firm.nodes@.len(),
                    self.blocks@.len(),
                ) by {
                    assert(o.blocks@[x as int].regs@[i as int].wf_at(
                        x,
                        i,
                        o.firm.nodes@.len(),
                        o.blocks@.len(),
                    ));
                }
            }
            assert forall|x: int, t: int|
                0 <= x < self.edges@.len() && o.edges@[x].register_transitions@.len() <= t
                    < self.edges@[x].register_transitions@.len() implies #[trigger] self.transition_ok(
                x,
                t,
            ) by {}
            lemma_wf_kept(o, self);
        }
    }
}


/// Builds one pseudo-register of a block, value slot by value slot. The
/// pseudo-register gets the next free number of the block when the builder
/// is made, and stands in the block from the first value on.
#[derive(Debug, Clone, Copy)]
pub struct MultiSlotBuilder {
    pub num: usize,
    pub phi: Option<Phi>,
    pub allocated_in: BlockId,
    pub terminates_in: BlockId,
}

impl MultiSlotBuilder {
    /// The builder belongs to graph `g`: its blocks exist, its number is
    /// the next free one of its block or the one before, and in the latter
    /// case the pseudo-register with that number is the one for the
    /// builder's phi.
    pub open spec fn fits(&self, g: &BlockGraph) -> bool {
        let regs = g.blocks@[self.allocated_in as int].regs@;
        &&& self.allocated_in < g.blocks@.len()
        &&& self.terminates_in < g.blocks@.len()
        &&& self.num <= regs.len()
        &&& (self.phi is None ==> self.num == regs.len())
        &&& (self.phi matches Some(p) ==> p.0 < g.firm.nodes@.len() && g.firm.spec_kind(p.0)
            == NodeKind::Phi && (self.num < regs.len() ==> regs[self.num as int] is Multi
            && regs[self.num as int]->phi == p))
    }

    /// A builder for the next pseudo-register of block `allocated_in`,
    /// which is made for `phi` if there is one.
    pub fn new(g: &BlockGraph, phi: Option<Phi>, allocated_in: BlockId, terminates_in: BlockId) -> (b:
        Self)
        requires
            allocated_in < g.blocks@.len(),
            terminates_in < g.blocks@.len(),
            phi matches Some(p) ==> p.0 < g.firm.nodes@.len() && g.firm.spec_kind(p.0)
                == NodeKind::Phi,
        ensures
            b.fits(g),
            b.num == g.blocks@[allocated_in as int].regs@.len(),
            b.phi == phi,
            b.allocated_in == allocated_in,
            b.terminates_in == terminates_in,
    {
        MultiSlotBuilder { num: g.blocks[allocated_in].regs.len(), phi, allocated_in, terminates_in }
    }

    /// The value slot that the builder makes for node `value`.
    pub open spec fn slot_for(&self, value: NodeId, originates_in: BlockId) -> ValueSlot {
        ValueSlot {
            num: self.num,
            firm: value,
            allocated_in: self.allocated_in,
            originates_in,
            terminates_in: self.terminates_in,
        }
    }

    /// Gives the pseudo-register a value slot for node `value`, and puts
    /// the pseudo-register into its block if it does not stand there yet.
    pub fn add_possible_value(&self, g: &mut BlockGraph, value: NodeId, originates_in: BlockId) -> (slot:
        ValueSlot)
        requires
            old(g).wf(),
            self.fits(old(g)),
            value < old(g).firm.nodes@.len(),
            originates_in < old(g).blocks@.len(),
        ensures
            final(g).wf(),
            final(g).extends(old(g)),
            slot == self.slot_for(value, originates_in),
            self.num < final(g).blocks@[self.allocated_in as int].regs@.len(),
            self.phi is Some ==> self.fits(final(g)),
            final(g).blocks@[self.allocated_in as int].regs@[self.num as int].spec_slots().len() > 0,
            final(g).blocks@[self.allocated_in as int].regs@[self.num as int].spec_slots().last()
                == slot,
            self.phi is None ==> final(g).blocks@[self.allocated_in as int].regs@[self.num as int]
                == MultiSlot::Single(slot),
            self.phi matches Some(p) ==> final(g).blocks@[self.allocated_in as int].regs@[self.num as int].holds(
                &final(g).firm,
                p.0,
            ),
            final(g).supplies_but(old(g), Some((self.allocated_in, self.num))),
            final(g).adds_used_but(old(g), Some((self.allocated_in, self.num))),
            final(g).edges == old(g).edges,
    {
        let slot = ValueSlot {
            num: self.num,
            firm: value,
            allocated_in: self.allocated_in,
            originates_in,
            terminates_in: self.terminates_in,
        };
        if g.blocks[self.allocated_in].regs.len() == self.num {
            match self.phi {
                Some(phi) => {
                    let mut slots: Vec<ValueSlot> = Vec::new();
                    slots.push(slot);
                    g.push_reg(self.allocated_in, MultiSlot::Multi { phi, slots });
                },
                None => {
                    g.push_reg(self.allocated_in, MultiSlot::Single(slot));
                },
            }
        } else {
            g.push_slot(self.allocated_in, self.num, slot);
        }
        proof {
            lemma_supplies_step(old(g), g, Some((self.allocated_in, self.num)));
            lemma_adds_step(old(g), g, Some((self.allocated_in, self.num)));
        }
        slot
    }

    /// Puts the pseudo-register into its block if it does not stand there
    /// yet. A pseudo-register without a value slot can only be one for a
    /// phi.
    pub fn commit(&self, g: &mut BlockGraph)
        requires
            old(g).wf(),
            self.fits(old(g)),
            self.phi is Some,
        ensures
            final(g).wf(),
            final(g).extends(old(g)),
            self.fits(final(g)),
            self.num < final(g).blocks@[self.allocated_in as int].regs@.len(),
            self.phi matches Some(p) ==> final(g).blocks@[self.allocated_in as int].regs@[self.num as int].holds(
                &final(g).firm,
                p.0,
            ),
            final(g).supplies_but(old(g), Some((self.allocated_in, self.num))),
            final(g).adds_used_but(old(g), Some((self.allocated_in, self.num))),
            final(g).edges == old(g).edges,
    {
        if g.blocks[self.allocated_in].regs.len() == self.num {
            match self.phi {
                Some(phi) => {
                    g.push_reg(self.allocated_in, MultiSlot::Multi { phi, slots: Vec::new() });
                },
                None => {},
            }
        } else {
            proof {
                lemma_extends_refl(g);
            }
        }
        proof {
            lemma_supplies_step(old(g), g, Some((self.allocated_in, self.num)));
            lemma_adds_step(old(g), g, Some((self.allocated_in, self.num)));
        }
    }

    /// The name of the pseudo-register that was built.
    pub fn get_multislot(self, g: &BlockGraph) -> (r: SlotRef)
        requires
            self.num < g.blocks@[self.allocated_in as int].regs@.len(),
        ensures
            r == (SlotRef { block: self.allocated_in, num: self.num }),
    {
        SlotRef { block: self.allocated_in, num: self.num }
    }
}

/// The pseudo-register has a value slot for the value of node `v`.
pub open spec fn has_slot_for(reg: MultiSlot, v: NodeId) -> bool {
    exists|j: int| 0 <= j < reg.spec_slots().len() && (#[trigger] reg.spec_slots()[j]).firm == v
}

/// A pseudo-register that had a value slot for a value still has one
/// when it got more value slots.
pub proof fn lemma_has_slot_kept(o: MultiSlot, n: MultiSlot, v: NodeId)
    requires
        slot_extends(o, n),
        has_slot_for(o, v),
    ensures
        has_slot_for(n, v),
{
    let j = choose|j: int| 0 <= j < o.spec_slots().len() && (#[trigger] o.spec_slots()[j]).firm == v;
    lemma_slot_kept(o, n, o.spec_slots()[j]);
    let w = choose|w: int| 0 <= w < n.spec_slots().len() && n.spec_slots()[w] == o.spec_slots()[j];
    assert(n.spec_slots()[w].firm == v);
}

/// A value that flows through an edge still does when slots and
/// register transitions are added.
pub proof fn lemma_flows_kept(old: &BlockGraph, new: &BlockGraph, e: EdgeId, v: NodeId)
    requires
        new.extends(old),
        e < old.edges@.len(),
        old.flows(e, v),
    ensures
        new.flows(e, v),
{
    let t = choose|t: int|
        0 <= t < old.edges@[e as int].register_transitions@.len() && (
        #[trigger] old.edges@[e as int].register_transitions@[t]).1.firm == v;
    assert(edge_extends(old.edges@[e as int], new.edges@[e as int]));
    let ot = old.edges@[e as int].register_transitions@;
    let nt = new.edges@[e as int].register_transitions@;
    assert(nt.subrange(0, ot.len() as int)[t] == ot[t]);
    assert(nt[t].1.firm == v);
}

/// A value that flows in through every edge into a block still does when
/// slots and register transitions are added.
pub proof fn lemma_comes_through_kept(old: &BlockGraph, new: &BlockGraph, b: BlockId, v: NodeId)
    requires
        links_ok(old.blocks@, old.edges@),
        new.extends(old),
        b < old.blocks@.len(),
        old.comes_through(b, v),
    ensures
        new.comes_through(b, v),
{
    let ob = old.blocks@[b as int];
    let nb = new.blocks@[b as int];
    assert(block_extends(&old.firm, ob, nb));
    assert forall|k: int| 0 <= k < nb.preds@.len() implies new.flows(#[trigger] nb.preds@[k], v) by {
        let e = ob.preds@[k];
        assert(e < old.edges@.len());
        lemma_flows_kept(old, new, e, v);
    }
}

/// A pseudo-register that serves the ways into a phi still does when
/// slots and register transitions are added.
pub proof fn lemma_phi_served_kept(
    old: &BlockGraph,
    new: &BlockGraph,
    b: BlockId,
    phi: NodeId,
    num: usize,
    upto: int,
)
    requires
        links_ok(old.blocks@, old.edges@),
        new.extends(old),
        b < old.blocks@.len(),
        num < old.blocks@[b as int].regs@.len(),
        upto <= old.blocks@[b as int].preds@.len(),
        old.phi_served(b, phi, num, upto),
    ensures
        new.phi_served(b, phi, num, upto),
{
    let ob = old.blocks@[b as int];
    let nb = new.blocks@[b as int];
    assert(block_extends(&old.firm, ob, nb));
    assert(slot_extends(ob.regs@[num as int], nb.regs@[num as int]));
    assert forall|j: int|
        0 <= j < upto && new.firm.spec_mode(#[trigger] new.firm.spec_ins(phi)[j])
            != Mode::M implies has_slot_for(nb.regs@[num as int], new.firm.spec_ins(phi)[j])
        && new.flows(nb.preds@[j], new.firm.spec_ins(phi)[j]) by {
        let v = old.firm.spec_ins(phi)[j];
        assert(old.firm.spec_mode(old.firm.spec_ins(phi)[j]) != Mode::M);
        lemma_has_slot_kept(ob.regs@[num as int], nb.regs@[num as int], v);
        let e = ob.preds@[j];
        assert(e < old.edges@.len());
        lemma_flows_kept(old, new, e, v);
    }
}

/// A pseudo-register that had what it needs from the blocks before still
/// has it when slots and register transitions are added.
pub proof fn lemma_supplied_kept(old: &BlockGraph, new: &BlockGraph, b: BlockId, i: usize)
    requires
        old.firm.wf(),
        old.regs_ok(),
        links_ok(old.blocks@, old.edges@),
        block_mirrored(&old.firm, old.blocks@, old.edges@, b as int),
        new.extends(old),
        b < old.blocks@.len(),
        i < old.blocks@[b as int].regs@.len(),
        old.supplied(b, i),
    ensures
        new.supplied(b, i),
{
    let ob = old.blocks@[b as int];
    let nb = new.blocks@[b as int];
    assert(block_extends(&old.firm, ob, nb));
    assert(slot_extends(ob.regs@[i as int], nb.regs@[i as int]));
    match ob.regs@[i as int] {
        MultiSlot::Single(s) => {
            if !old.is_local(b, s.firm) {
                lemma_comes_through_kept(old, new, b, s.firm);
            }
        },
        MultiSlot::Multi { phi, slots } => {
            assert(old.blocks@[b as int].regs@[i as int].wf_at(
                b,
                i,
                old.firm.nodes@.len(),
                old.blocks@.len(),
            ));
            assert(old.firm.node_wf(phi.0 as int));
            lemma_phi_served_kept(
                old,
                new,
                b,
                phi.0,
                i,
                old.firm.spec_ins(phi.0).len() as int,
            );
        },
    }
}

/// Slots and register transitions that are added take from no
/// pseudo-register what it had from the blocks before: only a new
/// pseudo-register can lack something.
pub proof fn lemma_supplies_step(old: &BlockGraph, new: &BlockGraph, but: Option<(BlockId, usize)>)
    requires
        old.wf(),
        new.extends(old),
        forall|b: BlockId, i: usize|
            b < new.blocks@.len() && old.blocks@[b as int].regs@.len() <= i
                < new.blocks@[b as int].regs@.len() ==> but == Some((b, i)),
    ensures
        new.supplies_but(old, but),
{
    reveal(BlockGraph::supplies_but);
    assert forall|b: BlockId, i: usize|
        b < new.blocks@.len() && i < new.blocks@[b as int].regs@.len() && !#[trigger] new.supplied(
            b,
            i,
        ) && but != Some((b, i)) implies i < old.blocks@[b as int].regs@.len() && !old.supplied(
        b,
        i,
    ) by {
        if old.supplied(b, i) {
            assert(block_mirrored(&old.firm, old.blocks@, old.edges@, b as int));
            lemma_supplied_kept(old, new, b, i);
        }
    }
}

/// What holds of the pseudo-registers that lack something over one step
/// and over the next holds over both.
pub proof fn lemma_supplies_trans(
    a: &BlockGraph,
    b: &BlockGraph,
    c: &BlockGraph,
    first: Option<(BlockId, usize)>,
    then: Option<(BlockId, usize)>,
)
    requires
        b.supplies_but(a, first),
        c.supplies_but(b, then),
        c.blocks@.len() == b.blocks@.len(),
        then is None || then == first,
    ensures
        c.supplies_but(a, first),
{
    reveal(BlockGraph::supplies_but);
    assert forall|x: BlockId, i: usize|
        x < c.blocks@.len() && i < c.blocks@[x as int].regs@.len() && !#[trigger] c.supplied(
            x,
            i,
        ) && first != Some((x, i)) implies i < a.blocks@[x as int].regs@.len() && !a.supplied(
        x,
        i,
    ) by {
        assert(!b.supplied(x, i));
    }
}

/// Once the pseudo-register that was left out has what it needs, nothing
/// is left out.
pub proof fn lemma_supplies_done(a: &BlockGraph, c: &BlockGraph, b: BlockId, i: usize)
    requires
        c.supplies_but(a, Some((b, i))),
        c.supplied(b, i),
    ensures
        c.supplies(a),
{
    reveal(BlockGraph::supplies_but);
}

/// A graph that leaves no pseudo-register without what it needs has them
/// all supplied if the graph before had.
pub proof fn lemma_all_supplied(a: &BlockGraph, c: &BlockGraph)
    requires
        c.supplies(a),
        c.blocks@.len() == a.blocks@.len(),
        a.all_supplied(),
    ensures
        c.all_supplied(),
{
    reveal(BlockGraph::supplies_but);
    assert forall|b: BlockId, i: usize|
        b < c.blocks@.len() && i < c.blocks@[b as int].regs@.len() implies #[trigger] c.supplied(
        b,
        i,
    ) by {
        if !c.supplied(b, i) {
            assert(a.supplied(b, i));
        }
    }
}

/// A pseudo-register that is there for a reason still is when slots and
/// register transitions are added.
pub proof fn lemma_used_kept(old: &BlockGraph, new: &BlockGraph, b: BlockId, i: usize)
    requires
        new.extends(old),
        b < old.blocks@.len(),
        i < old.blocks@[b as int].regs@.len(),
        old.used(b, i),
    ensures
        new.used(b, i),
{
    assert(block_extends(&old.firm, old.blocks@[b as int], new.blocks@[b as int]));
    assert(slot_extends(old.blocks@[b as int].regs@[i as int], new.blocks@[b as int].regs@[i as int]));
    if old.wanted(b, i) {
        let (m, v) = choose|m: NodeId, v: NodeId|
            stands_in(&old.firm, m, old.blocks@[b as int].firm.0) && #[trigger] demands(
                &old.firm,
                m,
                v,
            ) && old.blocks@[b as int].regs@[i as int].holds(&old.firm, v);
        lemma_holds_kept(
            &old.firm,
            old.blocks@[b as int].regs@[i as int],
            new.blocks@[b as int].regs@[i as int],
            v,
        );
        assert(stands_in(&new.firm, m, new.blocks@[b as int].firm.0) && demands(&new.firm, m, v)
            && new.blocks@[b as int].regs@[i as int].holds(&new.firm, v));
    } else {
        let (e, t) = choose|e: EdgeId, t: int|
            e < old.edges@.len() && 0 <= t < old.edges@[e as int].register_transitions@.len() && (
            #[trigger] old.edges@[e as int].register_transitions@[t]).0 == (SlotRef {
                block: b,
                num: i,
            });
        assert(edge_extends(old.edges@[e as int], new.edges@[e as int]));
        let ot = old.edges@[e as int].register_transitions@;
        let nt = new.edges@[e as int].register_transitions@;
        assert(nt.subrange(0, ot.len() as int)[t] == ot[t]);
        assert(new.edges@[e as int].register_transitions@[t].0 == (SlotRef { block: b, num: i }));
    }
}

/// Where no pseudo-register is added, but for the one that is left out,
/// every one that is added is there for a reason.
pub proof fn lemma_adds_step(old: &BlockGraph, new: &BlockGraph, but: Option<(BlockId, usize)>)
    requires
        forall|b: BlockId, i: usize|
            b < new.blocks@.len() && old.blocks@[b as int].regs@.len() <= i
                < new.blocks@[b as int].regs@.len() ==> but == Some((b, i)),
    ensures
        new.adds_used_but(old, but),
{
    reveal(BlockGraph::adds_used_but);
}

/// What holds of the pseudo-registers that are added over one step and
/// over the next holds over both.
pub proof fn lemma_adds_trans(
    a: &BlockGraph,
    b: &BlockGraph,
    c: &BlockGraph,
    first: Option<(BlockId, usize)>,
    then: Option<(BlockId, usize)>,
)
    requires
        b.extends(a),
        c.extends(b),
        b.adds_used_but(a, first),
        c.adds_used_but(b, then),
        then is None || then == first,
    ensures
        c.adds_used_but(a, first),
{
    reveal(BlockGraph::adds_used_but);
    assert forall|x: BlockId, i: usize|
        x < c.blocks@.len() && a.blocks@[x as int].regs@.len() <= i
            < c.blocks@[x as int].regs@.len() && first != Some((x, i)) implies #[trigger] c.used(
        x,
        i,
    ) by {
        if i < b.blocks@[x as int].regs@.len() {
            assert(b.used(x, i));
            lemma_used_kept(b, c, x, i);
        }
    }
}

/// Once the pseudo-register that was left out is there for a reason,
/// nothing is left out.
pub proof fn lemma_adds_done(a: &BlockGraph, c: &BlockGraph, b: BlockId, i: usize)
    requires
        c.adds_used_but(a, Some((b, i))),
        c.used(b, i) || i < a.blocks@[b as int].regs@.len() || i >= c.blocks@[b as int].regs@.len(),
    ensures
        c.adds_used(a),
{
    reveal(BlockGraph::adds_used_but);
}

/// A graph that adds no pseudo-register without a reason has none
/// without a reason if the graph before had none.
pub proof fn lemma_all_used(a: &BlockGraph, c: &BlockGraph)
    requires
        c.extends(a),
        c.adds_used(a),
        a.all_used(),
    ensures
        c.all_used(),
{
    reveal(BlockGraph::adds_used_but);
    assert forall|b: BlockId, i: usize|
        b < c.blocks@.len() && i < c.blocks@[b as int].regs@.len() implies #[trigger] c.used(
        b,
        i,
    ) by {
        if i < a.blocks@[b as int].regs@.len() {
            assert(a.used(b, i));
            lemma_used_kept(a, c, b, i);
        }
    }
}

/// The two value slots have one number and one value.
pub open spec fn same_slot(a: ValueSlot, b: ValueSlot) -> bool {
    a.firm == b.firm && a.num == b.num
}

/// Where no register transition is added, none leads anywhere.
pub proof fn lemma_feeds_none(old: &BlockGraph, new: &BlockGraph, but: Option<(BlockId, usize)>)
    requires
        new.edges@ == old.edges@,
    ensures
        new.feeds_new_but(old, but),
        old.fed_once() ==> new.fed_once(),
{
    reveal(BlockGraph::feeds_new_but);
}

/// What leads into new pseudo-registers only does so when one more is
/// let in.
pub proof fn lemma_feeds_weaken(old: &BlockGraph, new: &BlockGraph, but: Option<(BlockId, usize)>)
    requires
        new.feeds_new(old),
    ensures
        new.feeds_new_but(old, but),
{
    reveal(BlockGraph::feeds_new_but);
}

/// What holds of the register transitions that are added over one step
/// and over the next holds over both.
pub proof fn lemma_feeds_trans(
    a: &BlockGraph,
    b: &BlockGraph,
    c: &BlockGraph,
    first: Option<(BlockId, usize)>,
    then: Option<(BlockId, usize)>,
)
    requires
        c.wf(),
        b.extends(a),
        c.extends(b),
        b.feeds_new_but(a, first),
        c.feeds_new_but(b, then),
        then is None || then == first || (then matches Some((x, i)) && a.blocks@[x as int].regs@.len()
            <= i),
    ensures
        c.feeds_new_but(a, first),
{
    reveal(BlockGraph::feeds_new_but);
    assert forall|e: EdgeId, t: int|
        e < c.edges@.len() && a.edges@[e as int].register_transitions@.len() <= t
            < c.edges@[e as int].register_transitions@.len() implies ({
        let tgt = (#[trigger] c.edges@[e as int].register_transitions@[t]).1;
        first == Some((tgt.allocated_in, tgt.num)) || a.blocks@[tgt.allocated_in as int].regs@.len()
            <= tgt.num
    }) by {
        let tgt = c.edges@[e as int].register_transitions@[t].1;
        let bt = b.edges@[e as int].register_transitions@;
        let ct = c.edges@[e as int].register_transitions@;
        assert(edge_extends(b.edges@[e as int], c.edges@[e as int]));
        if t < bt.len() {
            assert(ct.subrange(0, bt.len() as int)[t] == bt[t]);
            assert(b.edges@[e as int].register_transitions@[t].1 == tgt);
        } else {
            assert(c.transitions_ok());
            assert(c.transition_ok(e as int, t));
            assert(links_ok(c.blocks@, c.edges@));
            let x = tgt.allocated_in;
            assert(x < a.blocks@.len());
            assert(block_extends(&a.firm, a.blocks@[x as int], b.blocks@[x as int]));
        }
    }
}

impl BlockGraph {
    /// The first pseudo-register of block `b` that holds the value of node
    /// `value`, if there is one.
    pub fn find_slot(&self, b: BlockId, value: NodeId) -> (r: Option<usize>)
        requires
            b < self.blocks@.len(),
            value < self.firm.nodes@.len(),
        ensures
            r matches Some(i) ==> i < self.blocks@[b as int].regs@.len()
                && self.blocks@[b as int].regs@[i as int].holds(&self.firm, value),
            r is Some <==> self.covers(b, value),
    {
        let regs = &self.blocks[b].regs;
        let mut i: usize = 0;
        while i < regs.len()
            invariant
                i <= regs@.len(),
                value < self.firm.nodes@.len(),
                regs@ == self.blocks@[b as int].regs@,
                forall|k: int| 0 <= k < i ==> !(#[trigger] regs@[k]).holds(&self.firm, value),
            decreases regs@.len() - i,
        {
            if regs[i].holds_value(&self.firm, value) {
                return Some(i);
            }
            i += 1;
        }
        None
    }

    /// The value of node `v` flows into block `b` through every edge
    /// that leads into the block.
    pub open spec fn comes_through(&self, b: BlockId, v: NodeId) -> bool {
        forall|k: int|
            0 <= k < self.blocks@[b as int].preds@.len() ==> self.flows(
                #[trigger] self.blocks@[b as int].preds@[k],
                v,
            )
    }

    /// The value of node `v` need not flow into block `b`: it is a
    /// constant or an address, which every block makes anew, or it
    /// originates in the block.
    pub open spec fn is_local(&self, b: BlockId, v: NodeId) -> bool {
        self.firm.spec_kind(v) is Const || self.firm.spec_kind(v) is Address
            || self.firm.spec_block(v) == self.blocks@[b as int].firm.0
    }

    /// Node `v` is a phi of the block that block `b` stands for.
    pub open spec fn is_own_phi(&self, b: BlockId, v: NodeId) -> bool {
        self.firm.spec_kind(v) == NodeKind::Phi && self.firm.spec_block(v)
            == self.blocks@[b as int].firm.0
    }

    /// Pseudo-register `num` of block `b` serves the first `upto` ways
    /// into phi `phi`: for each value that the phi chooses from, memory
    /// left out, it has a value slot, and the value flows in through the
    /// edge of its way into the block.
    pub open spec fn phi_served(&self, b: BlockId, phi: NodeId, num: usize, upto: int) -> bool {
        forall|i: int|
            0 <= i < upto && self.firm.spec_mode(#[trigger] self.firm.spec_ins(phi)[i]) != Mode::M
                ==> has_slot_for(self.blocks@[b as int].regs@[num as int], self.firm.spec_ins(phi)[i])
                && self.flows(self.blocks@[b as int].preds@[i], self.firm.spec_ins(phi)[i])
    }

    /// Edge `e` has a register transition for the value of node `v`.
    pub open spec fn flows(&self, e: EdgeId, v: NodeId) -> bool {
        exists|t: int|
            0 <= t < self.edges@[e as int].register_transitions@.len() && (
            #[trigger] self.edges@[e as int].register_transitions@[t]).1.firm == v
    }

    /// Edge `e` has a register transition into a value slot with the
    /// number and the value of `slot`.
    pub open spec fn flows_into(&self, e: EdgeId, slot: ValueSlot) -> bool {
        exists|t: int|
            0 <= t < self.edges@[e as int].register_transitions@.len() && (
            #[trigger] self.edges@[e as int].register_transitions@[t]).1.firm == slot.firm
                && self.edges@[e as int].register_transitions@[t].1.num == slot.num
    }

    /// Every register transition of edge `e` for the value of `slot` leads
    /// into a value slot with the number of `slot`.
    pub open spec fn one_number(&self, e: EdgeId, slot: ValueSlot) -> bool {
        forall|t: int|
            0 <= t < self.edges@[e as int].register_transitions@.len() && (
            #[trigger] self.edges@[e as int].register_transitions@[t]).1.firm == slot.firm
                ==> self.edges@[e as int].register_transitions@[t].1.num == slot.num
    }

    /// Pseudo-register `i` of block `b` has what it needs from the blocks
    /// before: one for a single value holds a value that need not flow in,
    /// or that flows in through every edge into the block; one for a phi
    /// of the block has a value slot for each value that the phi chooses
    /// from, memory left out, and the value flows in through the edge of
    /// its way into the block.
    pub open spec fn supplied(&self, b: BlockId, i: usize) -> bool {
        match self.blocks@[b as int].regs@[i as int] {
            MultiSlot::Single(s) => self.is_local(b, s.firm) || self.comes_through(b, s.firm),
            MultiSlot::Multi { phi, .. } => self.is_own_phi(b, phi.0) && self.phi_served(
                b,
                phi.0,
                i,
                self.firm.spec_ins(phi.0).len() as int,
            ),
        }
    }

    /// Every pseudo-register of every block has what it needs from the
    /// blocks before.
    pub open spec fn all_supplied(&self) -> bool {
        forall|b: BlockId, i: usize|
            b < self.blocks@.len() && i < self.blocks@[b as int].regs@.len()
                ==> #[trigger] self.supplied(b, i)
    }

    /// Every pseudo-register of this graph that lacks something from the
    /// blocks before stood in `old` already and lacked something there,
    /// with the one exception of `but`.
    #[verifier::opaque]
    pub open spec fn supplies_but(&self, old: &BlockGraph, but: Option<(BlockId, usize)>) -> bool {
        forall|b: BlockId, i: usize|
            b < self.blocks@.len() && i < self.blocks@[b as int].regs@.len()
                && !#[trigger] self.supplied(b, i) && but != Some((b, i)) ==> i
                < old.blocks@[b as int].regs@.len() && !old.supplied(b, i)
    }

    /// Every pseudo-register of this graph that lacks something from the
    /// blocks before stood in `old` already and lacked something there.
    pub open spec fn supplies(&self, old: &BlockGraph) -> bool {
        self.supplies_but(old, None)
    }

    /// Pseudo-register `i` of block `b` is the source of a register
    /// transition.
    pub open spec fn forwards(&self, b: BlockId, i: usize) -> bool {
        exists|e: EdgeId, t: int|
            e < self.edges@.len() && 0 <= t < self.edges@[e as int].register_transitions@.len() && (
            #[trigger] self.edges@[e as int].register_transitions@[t]).0 == (SlotRef {
                block: b,
                num: i,
            })
    }

    /// A node of block `b` asks for a value that pseudo-register `i` of
    /// the block holds.
    pub open spec fn wanted(&self, b: BlockId, i: usize) -> bool {
        exists|m: NodeId, v: NodeId|
            stands_in(&self.firm, m, self.blocks@[b as int].firm.0) && #[trigger] demands(
                &self.firm,
                m,
                v,
            ) && self.blocks@[b as int].regs@[i as int].holds(&self.firm, v)
    }

    /// Pseudo-register `i` of block `b` is there for a reason: a node of
    /// the block asks for its value, or the value flows on from it.
    pub open spec fn used(&self, b: BlockId, i: usize) -> bool {
        self.wanted(b, i) || self.forwards(b, i)
    }

    /// Every pseudo-register of every block is there for a reason.
    pub open spec fn all_used(&self) -> bool {
        forall|b: BlockId, i: usize|
            b < self.blocks@.len() && i < self.blocks@[b as int].regs@.len() ==> #[trigger] self.used(
                b,
                i,
            )
    }

    /// Every pseudo-register of this graph that `old` lacks is there for
    /// a reason, with the one exception of `but`.
    #[verifier::opaque]
    pub open spec fn adds_used_but(&self, old: &BlockGraph, but: Option<(BlockId, usize)>) -> bool {
        forall|b: BlockId, i: usize|
            b < self.blocks@.len() && old.blocks@[b as int].regs@.len() <= i
                < self.blocks@[b as int].regs@.len() && but != Some((b, i)) ==> #[trigger] self.used(
                b,
                i,
            )
    }

    /// Every pseudo-register of this graph that `old` lacks is there for
    /// a reason.
    pub open spec fn adds_used(&self, old: &BlockGraph) -> bool {
        self.adds_used_but(old, None)
    }

    /// No edge has two register transitions into one value slot.
    pub open spec fn fed_once(&self) -> bool {
        forall|e: EdgeId, s: int, t: int|
            e < self.edges@.len() && 0 <= s < t < self.edges@[e as int].register_transitions@.len()
                ==> !same_slot(
                (#[trigger] self.edges@[e as int].register_transitions@[s]).1,
                (#[trigger] self.edges@[e as int].register_transitions@[t]).1,
            )
    }

    /// Every register transition of this graph that `old` lacks leads
    /// into a pseudo-register that `old` lacks, or into `but`.
    #[verifier::opaque]
    pub open spec fn feeds_new_but(&self, old: &BlockGraph, but: Option<(BlockId, usize)>) -> bool {
        forall|e: EdgeId, t: int|
            e < self.edges@.len() && old.edges@[e as int].register_transitions@.len() <= t
                < self.edges@[e as int].register_transitions@.len() ==> {
                let tgt = (#[trigger] self.edges@[e as int].register_transitions@[t]).1;
                but == Some((tgt.allocated_in, tgt.num)) || old.blocks@[tgt.allocated_in as int].regs@.len()
                    <= tgt.num
            }
    }

    /// Every register transition of this graph that `old` lacks leads
    /// into a pseudo-register that `old` lacks.
    pub open spec fn feeds_new(&self, old: &BlockGraph) -> bool {
        self.feeds_new_but(old, None)
    }

    /// Whether edge `e` has a register transition for the value of node
    /// `v`.
    pub fn flows_value(&self, e: EdgeId, v: NodeId) -> (r: bool)
        requires
            e < self.edges@.len(),
        ensures
            r == self.flows(e, v),
    {
        let ts = &self.edges[e].register_transitions;
        let mut t: usize = 0;
        while t < ts.len()
            invariant
                t <= ts@.len(),
                ts@ == self.edges@[e as int].register_transitions@,
                forall|k: int| 0 <= k < t ==> (#[trigger] ts@[k]).1.firm != v,
            decreases ts@.len() - t,
        {
            if ts[t].1.firm == v {
                return true;
            }
            t += 1;
        }
        false
    }

    /// Whether edge `e` already has a register transition into a value
    /// slot with the number and the value of `target_slot`.
    pub fn has_flow(&self, e: EdgeId, target_slot: ValueSlot) -> (r: bool)
        requires
            e < self.edges@.len(),
        ensures
            r == self.flows_into(e, target_slot),
    {
        let ts = &self.edges[e].register_transitions;
        let mut t: usize = 0;
        while t < ts.len()
            invariant
                t <= ts@.len(),
                ts@ == self.edges@[e as int].register_transitions@,
                forall|k: int|
                    0 <= k < t ==> !((#[trigger] ts@[k]).1.firm == target_slot.firm && ts@[k].1.num
                        == target_slot.num),
            decreases ts@.len() - t,
        {
            if ts[t].1.firm == target_slot.firm && ts[t].1.num == target_slot.num {
                return true;
            }
            t += 1;
        }
        false
    }

    /// A pseudo-register of block `b` for the value of node `value`, which
    /// is used up in block `terminates_in`: the one that the block has
    /// already, or else a new one, for which the value is made to flow in
    /// through every edge into the block unless it originates there.
    pub fn new_slot(&mut self, b: BlockId, value: NodeId, terminates_in: BlockId) -> (r: SlotRef)
        requires
            old(self).wf(),
            b < old(self).blocks@.len(),
            value < old(self).firm.nodes@.len(),
            terminates_in < old(self).blocks@.len(),
        ensures
            final(self).wf(),
            final(self).extends(old(self)),
            r.block == b,
            r.num < final(self).blocks@[b as int].regs@.len(),
            final(self).blocks@[b as int].regs@[r.num as int].holds(&final(self).firm, value),
            old(self).covers(b, value) ==> *final(self) == *old(self),
            !old(self).covers(b, value) ==> r.num == old(self).blocks@[b as int].regs@.len(),
            !old(self).covers(b, value) && !old(self).is_own_phi(b, value) ==> final(self).blocks@[b as int].regs@[r.num as int]
                is Single,
            !old(self).covers(b, value) && !old(self).is_own_phi(b, value) && !old(self).is_local(
                b,
                value,
            ) ==> final(self).comes_through(b, value),
            !old(self).covers(b, value) && old(self).is_own_phi(b, value) ==> final(self).phi_served(
                b,
                value,
                r.num,
                final(self).firm.spec_ins(value).len() as int,
            ),
            final(self).supplies(old(self)),
            final(self).adds_used_but(old(self), Some((b, r.num))),
            final(self).feeds_new(old(self)),
            old(self).fed_once() ==> final(self).fed_once(),
        decreases old(self).uncovered(), 1nat,
    {
        let ghost g0 = *self;
        let nb = self.blocks.len();
        proof {
            lemma_extends_refl(&g0);
            lemma_supplies_step(&g0, &g0, None);
        }
        match self.find_slot(b, value) {
            Some(num) => {
                proof {
                    lemma_adds_step(&g0, &g0, Some((b, num)));
                    lemma_feeds_none(&g0, &g0, None);
                }
                return SlotRef { block: b, num };
            },
            None => {},
        }
        let kind = self.firm.kind(value);
        let vblock = self.firm.block_of(value);
        let here = self.blocks[b].firm.0;
        if matches!(kind, NodeKind::Phi) && vblock == here {
            return self.new_multislot_from_phi(b, Phi(value), terminates_in);
        }
        let originates_in = self.get_block(Block(vblock));
        let builder = self.new_multislot(b, terminates_in);
        let slot = builder.add_possible_value(self, value, originates_in);
        let num = builder.num;
        proof {
            assert(self.blocks@[b as int].regs@[num as int].holds(&self.firm, value));
            assert(self.covers(b, value));
            lemma_uncovered_lt(&g0, self, b, value);
            lemma_feeds_none(&g0, self, None);
        }
        let originates_here = matches!(kind, NodeKind::Const(_)) || matches!(
            kind,
            NodeKind::Address(_)
        ) || here == vblock;
        if !originates_here {
            let npreds = self.blocks[b].preds.len();
            let mut k: usize = 0;
            while k < npreds
                invariant
                    self.wf(),
                    self.extends(&g0),
                    g0 == *old(self),
                    g0.blocks@.len() == nb,
                    self.uncovered() < g0.uncovered(),
                    b < self.blocks@.len(),
                    npreds == self.blocks@[b as int].preds@.len(),
                    slot.allocated_in == b,
                    slot.firm == value,
                    value < self.firm.nodes@.len(),
                    slot.terminates_in < self.blocks@.len(),
                    slot.num == num,
                    num < self.blocks@[b as int].regs@.len(),
                    self.blocks@[b as int].regs@[num as int].holds(&self.firm, value),
                    self.blocks@[b as int].regs@[num as int] == MultiSlot::Single(slot),
                    self.supplies_but(&g0, Some((b, num))),
                    self.adds_used_but(&g0, Some((b, num))),
                    self.feeds_new(&g0),
                    g0.fed_once() ==> self.fed_once(),
                    num == g0.blocks@[b as int].regs@.len(),
                    k <= npreds,
                    forall|j: int|
                        0 <= j < k ==> self.flows(#[trigger] self.blocks@[b as int].preds@[j], value),
                decreases npreds - k,
            {
                let e = self.blocks[b].preds[k];
                let ghost g1 = *self;
                assert(self.blocks@[b as int].preds@[k as int] == e);
                assert(block_mirrored(&self.firm, self.blocks@, self.edges@, b as int));
                if !self.flows_value(e, value) {
                    assert(self.blocks@[b as int].regs@[num as int].spec_slots()[0] == slot);
                    self.add_incoming_value_flow(e, slot);
                    assert(self.flows(e, value));
                    proof {
                        lemma_supplies_trans(&g0, &g1, self, Some((b, num)), None);
                        lemma_adds_trans(&g0, &g1, self, Some((b, num)), None);
                        lemma_feeds_trans(&g0, &g1, self, None, Some((b, num)));
                    }
                } else {
                    proof {
                        lemma_extends_refl(&g1);
                    }
                }
                proof {
                    assert(block_extends(&g1.firm, g1.blocks@[b as int], self.blocks@[b as int]));
                    assert forall|j: int| 0 <= j < k + 1 implies self.flows(
                        #[trigger] self.blocks@[b as int].preds@[j],
                        value,
                    ) by {
                        if j < k {
                            let ej = g1.blocks@[b as int].preds@[j];
                            assert(links_ok(g1.blocks@, g1.edges@));
                            assert(ej < g1.edges@.len());
                            lemma_flows_kept(&g1, self, ej, value);
                        }
                    }
                    lemma_extends_trans(&g0, &g1, self);
                    lemma_uncovered_le(&g1, self);
                    assert(block_extends(&g1.firm, g1.blocks@[b as int], self.blocks@[b as int]));
                    assert(slot_extends(
                        g1.blocks@[b as int].regs@[num as int],
                        self.blocks@[b as int].regs@[num as int],
                    ));
                    lemma_holds_kept(
                        &g1.firm,
                        g1.blocks@[b as int].regs@[num as int],
                        self.blocks@[b as int].regs@[num as int],
                        value,
                    );
                }
                k += 1;
            }
        }
        proof {
            assert(self.blocks@[b as int].regs@[num as int] == MultiSlot::Single(slot));
            assert(self.supplied(b, num));
            lemma_supplies_done(&g0, self, b, num);
        }
        builder.get_multislot(self)
    }

    /// A builder for the next pseudo-register of block `b`, which holds a
    /// single value.
    pub fn new_multislot(&self, b: BlockId, terminates_in: BlockId) -> (builder: MultiSlotBuilder)
        requires
            b < self.blocks@.len(),
            terminates_in < self.blocks@.len(),
        ensures
            builder.fits(self),
            builder.num == self.blocks@[b as int].regs@.len(),
            builder.phi is None,
            builder.allocated_in == b,
            builder.terminates_in == terminates_in,
    {
        MultiSlotBuilder::new(self, None, b, terminates_in)
    }

    /// A new pseudo-register of block `b` for `phi`, which stands in the
    /// block. It gets a value slot for each value that the phi chooses
    /// from, memory left out, and each of them is made to flow in through
    /// the edge of its way into the block.
    pub fn new_multislot_from_phi(&mut self, b: BlockId, phi: Phi, terminates_in: BlockId) -> (r:
        SlotRef)
        requires
            old(self).wf(),
            b < old(self).blocks@.len(),
            phi.0 < old(self).firm.nodes@.len(),
            old(self).firm.spec_kind(phi.0) == NodeKind::Phi,
            old(self).firm.spec_block(phi.0) == old(self).blocks@[b as int].firm.0,
            !old(self).covers(b, phi.0),
            terminates_in < old(self).blocks@.len(),
        ensures
            final(self).wf(),
            final(self).extends(old(self)),
            r.block == b,
            r.num < final(self).blocks@[b as int].regs@.len(),
            final(self).blocks@[b as int].regs@[r.num as int].holds(&final(self).firm, phi.0),
            r.num == old(self).blocks@[b as int].regs@.len(),
            final(self).phi_served(b, phi.0, r.num, final(self).firm.spec_ins(phi.0).len() as int),
            final(self).supplies(old(self)),
            final(self).adds_used_but(old(self), Some((b, r.num))),
            final(self).feeds_new(old(self)),
            old(self).fed_once() ==> final(self).fed_once(),
        decreases old(self).uncovered(), 0nat,
    {
        let ghost g0 = *self;
        let nb = self.blocks.len();
        let builder = MultiSlotBuilder::new(self, Some(phi), b, terminates_in);
        builder.commit(self);
        let num = builder.num;
        proof {
            lemma_feeds_none(&g0, self, None);
            assert(self.covers(b, phi.0));
            lemma_uncovered_lt(&g0, self, b, phi.0);
            assert(self.firm.node_wf(phi.0 as int));
            assert(block_mirrored(&self.firm, self.blocks@, self.edges@, b as int));
        }
        let n = self.firm.in_nodes(phi.0).len();
        let mut i: usize = 0;
        while i < n
            invariant
                self.wf(),
                self.extends(&g0),
                g0 == *old(self),
                g0.blocks@.len() == nb,
                self.uncovered() < g0.uncovered(),
                b < self.blocks@.len(),
                phi.0 < self.firm.nodes@.len(),
                n == self.firm.spec_ins(phi.0).len(),
                n == self.blocks@[b as int].preds@.len(),
                builder.fits(self),
                builder.phi == Some(phi),
                builder.allocated_in == b,
                builder.num == num,
                num == g0.blocks@[b as int].regs@.len(),
                num < self.blocks@[b as int].regs@.len(),
                self.blocks@[b as int].regs@[num as int].holds(&self.firm, phi.0),
                i <= n,
                self.phi_served(b, phi.0, num, i as int),
                self.supplies_but(&g0, Some((b, num))),
                self.adds_used_but(&g0, Some((b, num))),
                self.feeds_new(&g0),
                g0.fed_once() ==> self.fed_once(),
                self.firm.spec_kind(phi.0) == NodeKind::Phi,
                self.firm.spec_block(phi.0) == self.blocks@[b as int].firm.0,
            decreases n - i,
        {
            let value = self.firm.in_node(phi.0, i);
            let ghost ga = *self;
            if !matches!(self.firm.mode(value), Mode::M) {
                let originates_in = self.get_block(Block(self.firm.block_of(value)));
                let ghost g1 = *self;
                let slot = builder.add_possible_value(self, value, originates_in);
                let ghost g2 = *self;
                proof {
                    assert(block_extends(&g1.firm, g1.blocks@[b as int], g2.blocks@[b as int]));
                    lemma_extends_trans(&g0, &g1, &g2);
                    lemma_uncovered_le(&g1, &g2);
                    lemma_supplies_trans(&g0, &g1, &g2, Some((b, num)), Some((b, num)));
                    lemma_adds_trans(&g0, &g1, &g2, Some((b, num)), Some((b, num)));
                    lemma_feeds_none(&g1, &g2, None);
                    lemma_feeds_trans(&g0, &g1, &g2, None, None);
                }
                let e = self.blocks[b].preds[i];
                assert(self.blocks@[b as int].preds@[i as int] == e);
                if !self.flows_value(e, value) {
                    self.add_incoming_value_flow(e, slot);
                    assert(self.flows(e, value));
                    proof {
                        lemma_supplies_trans(&g0, &g2, self, Some((b, num)), None);
                        lemma_adds_trans(&g0, &g2, self, Some((b, num)), None);
                        lemma_feeds_trans(&g0, &g2, self, None, Some((b, num)));
                    }
                } else {
                    proof {
                        lemma_extends_refl(&g2);
                    }
                }
                proof {
                    assert(block_extends(&g2.firm, g2.blocks@[b as int], self.blocks@[b as int]));
                    assert(slot_extends(
                        g2.blocks@[b as int].regs@[num as int],
                        self.blocks@[b as int].regs@[num as int],
                    ));
                    assert(has_slot_for(g2.blocks@[b as int].regs@[num as int], value)) by {
                        let r2 = g2.blocks@[b as int].regs@[num as int];
                        assert(r2.spec_slots()[r2.spec_slots().len() - 1].firm == value);
                    }
                    lemma_has_slot_kept(
                        g2.blocks@[b as int].regs@[num as int],
                        self.blocks@[b as int].regs@[num as int],
                        value,
                    );
                    lemma_extends_trans(&ga, &g2, self);
                    lemma_extends_trans(&g0, &g2, self);
                    lemma_uncovered_le(&g2, self);
                    assert(block_extends(&g2.firm, g2.blocks@[b as int], self.blocks@[b as int]));
                    assert(slot_extends(
                        g2.blocks@[b as int].regs@[num as int],
                        self.blocks@[b as int].regs@[num as int],
                    ));
                    lemma_holds_kept(
                        &g2.firm,
                        g2.blocks@[b as int].regs@[num as int],
                        self.blocks@[b as int].regs@[num as int],
                        phi.0,
                    );
                }
            } else {
                proof {
                    lemma_extends_refl(&ga);
                }
            }
            proof {
                assert(block_extends(&ga.firm, ga.blocks@[b as int], self.blocks@[b as int]));
                assert forall|j: int|
                    0 <= j < i + 1 && self.firm.spec_mode(#[trigger] self.firm.spec_ins(phi.0)[j])
                        != Mode::M implies has_slot_for(
                    self.blocks@[b as int].regs@[num as int],
                    self.firm.spec_ins(phi.0)[j],
                ) && self.flows(self.blocks@[b as int].preds@[j], self.firm.spec_ins(phi.0)[j]) by {
                    if j < i {
                        let v = ga.firm.spec_ins(phi.0)[j];
                        assert(ga.firm.spec_mode(ga.firm.spec_ins(phi.0)[j]) != Mode::M);
                        assert(slot_extends(
                            ga.blocks@[b as int].regs@[num as int],
                            self.blocks@[b as int].regs@[num as int],
                        ));
                        lemma_has_slot_kept(
                            ga.blocks@[b as int].regs@[num as int],
                            self.blocks@[b as int].regs@[num as int],
                            v,
                        );
                        let ej = ga.blocks@[b as int].preds@[j];
                        assert(links_ok(ga.blocks@, ga.edges@));
                        assert(ej < ga.edges@.len());
                        lemma_flows_kept(&ga, self, ej, v);
                    }
                }
            }
            i += 1;
        }
        proof {
            assert(self.supplied(b, num));
            lemma_supplies_done(&g0, self, b, num);
        }
        builder.get_multislot(self)
    }

    /// Makes the value of `target_slot` flow in through edge `e`, which
    /// leads into the slot's block: the edge's source block gets a
    /// pseudo-register for the value, and the edge a register transition
    /// from there into the slot. Nothing is done if the edge has such a
    /// register transition already. The value must not flow through the
    /// edge into a pseudo-register with another number.
    pub fn add_incoming_value_flow(&mut self, e: EdgeId, target_slot: ValueSlot)
        requires
            old(self).wf(),
            e < old(self).edges@.len(),
            target_slot.allocated_in == old(self).edges@[e as int].target,
            target_slot.num < old(self).blocks@[target_slot.allocated_in as int].regs@.len(),
            old(self).blocks@[target_slot.allocated_in as int].regs@[target_slot.num as int].spec_slots().contains(
                target_slot,
            ),
            target_slot.firm < old(self).firm.nodes@.len(),
            target_slot.terminates_in < old(self).blocks@.len(),
            old(self).one_number(e, target_slot),
        ensures
            final(self).wf(),
            final(self).extends(old(self)),
            final(self).flows_into(e, target_slot),
            old(self).flows_into(e, target_slot) ==> *final(self) == *old(self),
            !old(self).flows_into(e, target_slot) ==> {
                let before = old(self).edges@[e as int].register_transitions@;
                let after = final(self).edges@[e as int].register_transitions@;
                let source = old(self).edges@[e as int].source;
                &&& after.len() > before.len()
                &&& after.subrange(0, before.len() as int) == before
                &&& after.last().1 == target_slot
                &&& after.last().0.block == source
                &&& after.last().0.num < final(self).blocks@[source as int].regs@.len()
                &&& final(self).blocks@[source as int].regs@[after.last().0.num as int].holds(
                    &final(self).firm,
                    target_slot.firm,
                )
            },
            final(self).supplies(old(self)),
            final(self).adds_used(old(self)),
            final(self).feeds_new_but(
                old(self),
                Some((target_slot.allocated_in, target_slot.num)),
            ),
            old(self).fed_once() ==> final(self).fed_once(),
        decreases old(self).uncovered(), 3nat,
    {
        let ghost g0 = *self;
        if self.has_flow(e, target_slot) {
            proof {
                lemma_extends_refl(&g0);
                lemma_supplies_step(&g0, &g0, None);
                lemma_adds_step(&g0, &g0, None);
                lemma_feeds_none(&g0, &g0, Some((target_slot.allocated_in, target_slot.num)));
            }
            return ;
        }
        let source = self.edges[e].source;
        let nb = self.blocks.len();
        let src = self.new_forwarding_slot(source, &target_slot);
        let ghost g1 = *self;
        proof {
            assert(edge_extends(g0.edges@[e as int], g1.edges@[e as int]));
            assert(block_extends(
                &g0.firm,
                g0.blocks@[target_slot.allocated_in as int],
                g1.blocks@[target_slot.allocated_in as int],
            ));
            assert(slot_extends(
                g0.blocks@[target_slot.allocated_in as int].regs@[target_slot.num as int],
                g1.blocks@[target_slot.allocated_in as int].regs@[target_slot.num as int],
            ));
            lemma_slot_kept(
                g0.blocks@[target_slot.allocated_in as int].regs@[target_slot.num as int],
                g1.blocks@[target_slot.allocated_in as int].regs@[target_slot.num as int],
                target_slot,
            );
        }
        self.push_transition(e, src, target_slot);
        proof {
            lemma_supplies_step(&g1, self, None);
            lemma_supplies_trans(&g0, &g1, self, None, None);
            lemma_adds_step(&g1, self, None);
            lemma_adds_trans(&g0, &g1, self, Some((source, src.num)), None);
            assert(self.forwards(source, src.num)) by {
                let ts = self.edges@[e as int].register_transitions@;
                assert(ts[ts.len() - 1].0 == src);
            }
            lemma_adds_done(&g0, self, source, src.num);
            let into = Some((target_slot.allocated_in, target_slot.num));
            lemma_feeds_weaken(&g0, &g1, into);
            assert(self.feeds_new_but(&g1, into)) by {
                reveal(BlockGraph::feeds_new_but);
                assert forall|x: EdgeId, t: int|
                    x < self.edges@.len() && g1.edges@[x as int].register_transitions@.len() <= t
                        < self.edges@[x as int].register_transitions@.len() implies ({
                    let tgt = (#[trigger] self.edges@[x as int].register_transitions@[t]).1;
                    into == Some((tgt.allocated_in, tgt.num)) || g1.blocks@[tgt.allocated_in as int].regs@.len()
                        <= tgt.num
                }) by {
                    if x != e {
                        assert(self.edges@[x as int] == g1.edges@[x as int]);
                    }
                }
            }
            lemma_feeds_trans(&g0, &g1, self, into, into);
            if g0.fed_once() {
                let n1 = g1.edges@[e as int].register_transitions@.len() as int;
                assert(g1.fed_once());
                assert forall|s: int| 0 <= s < n1 implies !same_slot(
                    (#[trigger] g1.edges@[e as int].register_transitions@[s]).1,
                    target_slot,
                ) by {
                    let tgt = g1.edges@[e as int].register_transitions@[s].1;
                    let n0 = g0.edges@[e as int].register_transitions@.len() as int;
                    if s < n0 {
                        assert(g1.edges@[e as int].register_transitions@.subrange(0, n0)[s]
                            == g0.edges@[e as int].register_transitions@[s]);
                    } else {
                        reveal(BlockGraph::feeds_new_but);
                        assert(g1.transitions_ok());
                        assert(g1.transition_ok(e as int, s));
                        assert(tgt.allocated_in == target_slot.allocated_in);
                        assert(g0.blocks@[tgt.allocated_in as int].regs@.len() <= tgt.num);
                    }
                }
                assert forall|x: EdgeId, s: int, t: int|
                    x < self.edges@.len() && 0 <= s < t
                        < self.edges@[x as int].register_transitions@.len() implies !same_slot(
                    (#[trigger] self.edges@[x as int].register_transitions@[s]).1,
                    (#[trigger] self.edges@[x as int].register_transitions@[t]).1,
                ) by {
                    if x != e {
                        assert(self.edges@[x as int] == g1.edges@[x as int]);
                        assert(!same_slot(
                            g1.edges@[x as int].register_transitions@[s].1,
                            g1.edges@[x as int].register_transitions@[t].1,
                        ));
                    } else if t < n1 {
                        assert(!same_slot(
                            g1.edges@[e as int].register_transitions@[s].1,
                            g1.edges@[e as int].register_transitions@[t].1,
                        ));
                    } else {
                        assert(!same_slot(g1.edges@[e as int].register_transitions@[s].1, target_slot));
                    }
                }
            }
            lemma_extends_trans(&g0, &g1, self);
            let before = g0.edges@[e as int].register_transitions@;
            let mid = g1.edges@[e as int].register_transitions@;
            let after = self.edges@[e as int].register_transitions@;
            assert(after.subrange(0, before.len() as int) =~= before) by {
                assert forall|i: int| 0 <= i < before.len() implies after[i] == before[i] by {
                    assert(mid.subrange(0, before.len() as int)[i] == before[i]);
                }
            }
            assert(after[after.len() - 1].1 == target_slot);
        }
    }

    /// A pseudo-register of block `b` for the value that `target_slot`
    /// takes in a later block.
    pub fn new_forwarding_slot(&mut self, b: BlockId, target_slot: &ValueSlot) -> (r: SlotRef)
        requires
            old(self).wf(),
            b < old(self).blocks@.len(),
            target_slot.firm < old(self).firm.nodes@.len(),
            target_slot.terminates_in < old(self).blocks@.len(),
        ensures
            final(self).wf(),
            final(self).extends(old(self)),
            r.block == b,
            r.num < final(self).blocks@[b as int].regs@.len(),
            final(self).blocks@[b as int].regs@[r.num as int].holds(
                &final(self).firm,
                target_slot.firm,
            ),
            old(self).covers(b, target_slot.firm) ==> *final(self) == *old(self),
            !old(self).covers(b, target_slot.firm) ==> r.num == old(self).blocks@[b as int].regs@.len(),
            !old(self).covers(b, target_slot.firm) && !old(self).is_own_phi(b, target_slot.firm) && !old(self).is_local(
                b,
                target_slot.firm,
            ) ==> final(self).comes_through(b, target_slot.firm),
            !old(self).covers(b, target_slot.firm) && old(self).is_own_phi(b, target_slot.firm) ==> final(self).phi_served(
                b,
                target_slot.firm,
                r.num,
                final(self).firm.spec_ins(target_slot.firm).len() as int,
            ),
            final(self).supplies(old(self)),
            final(self).adds_used_but(old(self), Some((b, r.num))),
            final(self).feeds_new(old(self)),
            old(self).fed_once() ==> final(self).fed_once(),
        decreases old(self).uncovered(), 2nat,
    {
        self.new_slot(b, target_slot.firm, target_slot.terminates_in)
    }

    /// A pseudo-register of block `b` for a value that is used up in the
    /// block.
    pub fn new_terminating_slot(&mut self, b: BlockId, value: NodeId) -> (r: SlotRef)
        requires
            old(self).wf(),
            b < old(self).blocks@.len(),
            value < old(self).firm.nodes@.len(),
        ensures
            final(self).wf(),
            final(self).extends(old(self)),
            r.block == b,
            r.num < final(self).blocks@[b as int].regs@.len(),
            final(self).blocks@[b as int].regs@[r.num as int].holds(&final(self).firm, value),
            old(self).covers(b, value) ==> *final(self) == *old(self),
            !old(self).covers(b, value) ==> r.num == old(self).blocks@[b as int].regs@.len(),
            !old(self).covers(b, value) && !old(self).is_own_phi(b, value) && !old(self).is_local(
                b,
                value,
            ) ==> final(self).comes_through(b, value),
            !old(self).covers(b, value) && old(self).is_own_phi(b, value) ==> final(self).phi_served(
                b,
                value,
                r.num,
                final(self).firm.spec_ins(value).len() as int,
            ),
            final(self).supplies(old(self)),
            final(self).adds_used_but(old(self), Some((b, r.num))),
            final(self).feeds_new(old(self)),
            old(self).fed_once() ==> final(self).fed_once(),
    {
        self.new_slot(b, value, b)
    }

    /// A pseudo-register of block `b` for a value that the block produces
    /// itself.
    pub fn new_private_slot(&mut self, b: BlockId, value: NodeId) -> (r: SlotRef)
        requires
            old(self).wf(),
            b < old(self).blocks@.len(),
            value < old(self).firm.nodes@.len(),
            old(self).firm.spec_block(value) == old(self).blocks@[b as int].firm.0,
        ensures
            final(self).wf(),
            final(self).extends(old(self)),
            r.block == b,
            r.num < final(self).blocks@[b as int].regs@.len(),
            final(self).blocks@[b as int].regs@[r.num as int].holds(&final(self).firm, value),
            old(self).covers(b, value) ==> *final(self) == *old(self),
            !old(self).covers(b, value) ==> r.num == old(self).blocks@[b as int].regs@.len(),
            !old(self).covers(b, value) && !old(self).is_own_phi(b, value) && !old(self).is_local(
                b,
                value,
            ) ==> final(self).comes_through(b, value),
            !old(self).covers(b, value) && old(self).is_own_phi(b, value) ==> final(self).phi_served(
                b,
                value,
                r.num,
                final(self).firm.spec_ins(value).len() as int,
            ),
            final(self).supplies(old(self)),
            final(self).adds_used_but(old(self), Some((b, r.num))),
            final(self).feeds_new(old(self)),
            old(self).fed_once() ==> final(self).fed_once(),
    {
        self.new_slot(b, value, b)
    }
}


/// Node `m` asks its block for the value of node `v`: a phi asks for
/// itself, the end node for nothing, and any other node for each of its
/// operands that is not memory and comes from another block.
pub open spec fn demands(firm: &Graph, m: NodeId, v: NodeId) -> bool {
    &&& firm.spec_kind(m) != NodeKind::End
    &&& if firm.spec_kind(m) == NodeKind::Phi {
        v == m
    } else {
        &&& firm.spec_ins(m).contains(v)
        &&& firm.spec_mode(v) != Mode::M
        &&& firm.spec_block(v) != firm.spec_block(m)
    }
}

/// Node `m` belongs to block `fb` of the sea-of-nodes graph and is not
/// the block itself.
pub open spec fn stands_in(firm: &Graph, m: NodeId, fb: NodeId) -> bool {
    m < firm.nodes@.len() && m != fb && firm.spec_block(m) == fb
}

impl BlockGraph {
    /// Block `b` has a pseudo-register for every value that node `m`
    /// asks for.
    pub open spec fn node_served(&self, b: BlockId, m: NodeId) -> bool {
        forall|v: NodeId| #[trigger] demands(&self.firm, m, v) ==> self.covers(b, v)
    }

    /// Block `b` has a pseudo-register for every value that a node of the
    /// block it stands for asks for.
    pub open spec fn block_served(&self, b: BlockId) -> bool {
        forall|m: NodeId|
            #[trigger] stands_in(&self.firm, m, self.blocks@[b as int].firm.0) ==> self.node_served(
                b,
                m,
            )
    }

    /// Gives block `b` a pseudo-register for every value that node `m`
    /// asks for.
    fn serve_node(&mut self, b: BlockId, m: NodeId)
        requires
            old(self).wf(),
            b < old(self).blocks@.len(),
            stands_in(&old(self).firm, m, old(self).blocks@[b as int].firm.0),
        ensures
            final(self).wf(),
            final(self).extends(old(self)),
            final(self).node_served(b, m),
            final(self).supplies(old(self)),
            final(self).adds_used(old(self)),
            final(self).feeds_new(old(self)),
            old(self).fed_once() ==> final(self).fed_once(),
    {
        let ghost g0 = *self;
        let nb = self.blocks.len();
        proof {
            lemma_extends_refl(&g0);
            lemma_supplies_step(&g0, &g0, None);
            lemma_adds_step(&g0, &g0, None);
            lemma_feeds_none(&g0, &g0, None);
        }
        match self.firm.kind(m) {
            NodeKind::End => {},
            NodeKind::Phi => {
                let r = self.new_terminating_slot(b, m);
                assert(self.covers(b, m));
                proof {
                    assert(block_extends(&g0.firm, g0.blocks@[b as int], self.blocks@[b as int]));
                    assert(stands_in(&self.firm, m, self.blocks@[b as int].firm.0) && demands(
                        &self.firm,
                        m,
                        m,
                    ) && self.blocks@[b as int].regs@[r.num as int].holds(&self.firm, m));
                    assert(self.wanted(b, r.num));
                    lemma_adds_done(&g0, self, b, r.num);
                }
            },
            _ => {
                let own = self.firm.block_of(m);
                let n = self.firm.in_nodes(m).len();
                let mut j: usize = 0;
                while j < n
                    invariant
                        self.wf(),
                        self.extends(&g0),
                        g0.blocks@.len() == nb,
                        b < self.blocks@.len(),
                        m < self.firm.nodes@.len(),
                        own == self.firm.spec_block(m),
                        n == self.firm.spec_ins(m).len(),
                        self.supplies(&g0),
                        self.adds_used(&g0),
                        self.feeds_new(&g0),
                        g0.fed_once() ==> self.fed_once(),
                        stands_in(&self.firm, m, self.blocks@[b as int].firm.0),
                        self.firm.spec_kind(m) != NodeKind::End,
                        self.firm.spec_kind(m) != NodeKind::Phi,
                        j <= n,
                        forall|k: int|
                            0 <= k < j ==> {
                                let v = #[trigger] self.firm.spec_ins(m)[k];
                                self.firm.spec_mode(v) != Mode::M && self.firm.spec_block(v) != own
                                    ==> self.covers(b, v)
                            },
                    decreases n - j,
                {
                    let v = self.firm.in_node(m, j);
                    let ghost g1 = *self;
                    if !matches!(self.firm.mode(v), Mode::M) && self.firm.block_of(v) != own {
                        let r = self.new_terminating_slot(b, v);
                        proof {
                            assert(self.covers(b, v));
                            assert(block_extends(&g1.firm, g1.blocks@[b as int], self.blocks@[b as int]));
                            assert(self.firm.spec_ins(m)[j as int] == v);
                            assert(stands_in(&self.firm, m, self.blocks@[b as int].firm.0) && demands(
                                &self.firm,
                                m,
                                v,
                            ) && self.blocks@[b as int].regs@[r.num as int].holds(&self.firm, v));
                            assert(self.wanted(b, r.num));
                            lemma_adds_done(&g1, self, b, r.num);
                            lemma_adds_trans(&g0, &g1, self, None, None);
                            lemma_feeds_trans(&g0, &g1, self, None, None);
                            lemma_extends_trans(&g0, &g1, self);
                            lemma_supplies_trans(&g0, &g1, self, None, None);
                            assert forall|k: int| 0 <= k < j implies {
                                let w = #[trigger] self.firm.spec_ins(m)[k];
                                self.firm.spec_mode(w) != Mode::M && self.firm.spec_block(w) != own
                                    ==> self.covers(b, w)
                            } by {
                                let w = g1.firm.spec_ins(m)[k];
                                if g1.firm.spec_mode(w) != Mode::M && g1.firm.spec_block(w) != own {
                                    lemma_covers_kept(&g1, self, b, w);
                                }
                            }
                        }
                    }
                    j += 1;
                }
                proof {
                    assert forall|v: NodeId| #[trigger] demands(&self.firm, m, v) implies self.covers(
                        b,
                        v,
                    ) by {
                        let k = choose|k: int|
                            0 <= k < self.firm.spec_ins(m).len() && self.firm.spec_ins(m)[k] == v;
                        assert(self.firm.spec_ins(m)[k] == v);
                    }
                }
            },
        }
    }

    /// Gives block `b` a pseudo-register for every value that a node of
    /// the block it stands for asks for.
    fn serve_block(&mut self, b: BlockId)
        requires
            old(self).wf(),
            b < old(self).blocks@.len(),
        ensures
            final(self).wf(),
            final(self).extends(old(self)),
            final(self).block_served(b),
            final(self).supplies(old(self)),
            final(self).adds_used(old(self)),
            final(self).feeds_new(old(self)),
            old(self).fed_once() ==> final(self).fed_once(),
    {
        let ghost g0 = *self;
        let nb = self.blocks.len();
        let fb = self.blocks[b].firm.0;
        let n = self.firm.len();
        proof {
            lemma_extends_refl(&g0);
            lemma_supplies_step(&g0, &g0, None);
            lemma_adds_step(&g0, &g0, None);
            lemma_feeds_none(&g0, &g0, None);
        }
        let mut m: usize = 0;
        while m < n
            invariant
                self.wf(),
                self.extends(&g0),
                g0.blocks@.len() == nb,
                b < self.blocks@.len(),
                fb == self.blocks@[b as int].firm.0,
                n == self.firm.nodes@.len(),
                self.supplies(&g0),
                self.adds_used(&g0),
                self.feeds_new(&g0),
                g0.fed_once() ==> self.fed_once(),
                m <= n,
                forall|k: NodeId|
                    k < m && #[trigger] stands_in(&self.firm, k, fb) ==> self.node_served(b, k),
            decreases n - m,
        {
            if m != fb && self.firm.block_of(m) == fb {
                let ghost g1 = *self;
                self.serve_node(b, m);
                proof {
                    lemma_adds_trans(&g0, &g1, self, None, None);
                    lemma_feeds_trans(&g0, &g1, self, None, None);
                    lemma_extends_trans(&g0, &g1, self);
                    lemma_supplies_trans(&g0, &g1, self, None, None);
                    assert(block_extends(&g1.firm, g1.blocks@[b as int], self.blocks@[b as int]));
                    assert forall|k: NodeId|
                        k < m && #[trigger] stands_in(&self.firm, k, fb) implies self.node_served(
                        b,
                        k,
                    ) by {
                        assert(stands_in(&g1.firm, k, fb));
                        assert(g1.node_served(b, k));
                        assert forall|v: NodeId| #[trigger] demands(&self.firm, k, v) implies self.covers(
                            b,
                            v,
                        ) by {
                            assert(demands(&g1.firm, k, v));
                            lemma_covers_kept(&g1, self, b, v);
                        }
                    }
                }
            }
            m += 1;
        }
    }

    /// Gives every block a pseudo-register for every value that it
    /// consumes but does not produce, and makes each such value flow in
    /// through the edges into the block. No pseudo-register is left
    /// without what it needs from the blocks before: in a graph that had
    /// none such, each one for a single value holds a value of its own
    /// block, a constant or an address, or one that flows in through every
    /// edge into the block, and each one for a phi has a value slot and a
    /// register transition for each way into the phi. And none is added
    /// without a reason: a node of its block asks for its value, or the
    /// value flows on from it. Every register transition that is added
    /// leads into a pseudo-register that is added, and no edge gets two
    /// into one value slot.
    pub fn construct_flows(&mut self)
        requires
            old(self).wf(),
        ensures
            final(self).wf(),
            final(self).extends(old(self)),
            forall|b: BlockId| b < final(self).blocks@.len() ==> #[trigger] final(self).block_served(b),
            final(self).supplies(old(self)),
            old(self).all_supplied() ==> final(self).all_supplied(),
            final(self).adds_used(old(self)),
            old(self).all_used() ==> final(self).all_used(),
            final(self).feeds_new(old(self)),
            old(self).fed_once() ==> final(self).fed_once(),
    {
        let ghost g0 = *self;
        let nb = self.blocks.len();
        proof {
            lemma_extends_refl(&g0);
            lemma_supplies_step(&g0, &g0, None);
            lemma_adds_step(&g0, &g0, None);
            lemma_feeds_none(&g0, &g0, None);
        }
        let mut b: usize = 0;
        while b < nb
            invariant
                self.wf(),
                self.extends(&g0),
                g0.blocks@.len() == nb,
                self.supplies(&g0),
                self.adds_used(&g0),
                self.feeds_new(&g0),
                g0.fed_once() ==> self.fed_once(),
                b <= nb,
                forall|x: BlockId| x < b ==> #[trigger] self.block_served(x),
            decreases nb - b,
        {
            let ghost g1 = *self;
            self.serve_block(b);
            proof {
                lemma_adds_trans(&g0, &g1, self, None, None);
                lemma_feeds_trans(&g0, &g1, self, None, None);
                lemma_extends_trans(&g0, &g1, self);
                lemma_supplies_trans(&g0, &g1, self, None, None);
                assert forall|x: BlockId| x < b implies #[trigger] self.block_served(x) by {
                    assert(g1.block_served(x));
                    assert(block_extends(&g1.firm, g1.blocks@[x as int], self.blocks@[x as int]));
                    assert forall|m: NodeId| #[trigger]
                        stands_in(&self.firm, m, self.blocks@[x as int].firm.0) implies self.node_served(
                        x,
                        m,
                    ) by {
                        assert(stands_in(&g1.firm, m, g1.blocks@[x as int].firm.0));
                        assert(g1.node_served(x, m));
                        assert forall|v: NodeId| #[trigger] demands(&self.firm, m, v) implies self.covers(
                            x,
                            v,
                        ) by {
                            assert(demands(&g1.firm, m, v));
                            lemma_covers_kept(&g1, self, x, v);
                        }
                    }
                }
            }
            b += 1;
        }
        proof {
            if g0.all_supplied() {
                lemma_all_supplied(&g0, self);
            }
            if g0.all_used() {
                lemma_all_used(&g0, self);
            }
        }
    }
}

/// Every register transition is sound: the number of its target slot is
/// the number of a pseudo-register of the edge's target block, and its
/// source is a pseudo-register of the edge's source block that holds the
/// value which the target slot takes: a single slot for that value, the
/// pseudo-register made for that phi, or one with a value slot for it.
pub proof fn lemma_transitions_sound(g: &BlockGraph, e: EdgeId, t: int)
    requires
        g.wf(),
        e < g.edges@.len(),
        0 <= t < g.edges@[e as int].register_transitions@.len(),
    ensures
        ({
            let edge = g.edges@[e as int];
            let src = edge.register_transitions@[t].0;
            let tgt = edge.register_transitions@[t].1;
            let source_reg = g.blocks@[edge.source as int].regs@[src.num as int];
            &&& edge.source < g.blocks@.len()
            &&& edge.target < g.blocks@.len()
            &&& src.block == edge.source
            &&& src.num < g.blocks@[edge.source as int].regs@.len()
            &&& tgt.allocated_in == edge.target
            &&& tgt.num < g.blocks@[edge.target as int].regs@.len()
            &&& match source_reg {
                MultiSlot::Single(s) => s.firm == tgt.firm,
                MultiSlot::Multi { phi, slots } => phi.0 == tgt.firm || exists|i: int|
                    0 <= i < slots@.len() && (#[trigger] slots@[i]).firm == tgt.firm,
            }
        }),
{
    assert(g.transition_ok(e as int, t));
    assert(g.edges@[e as int].source < g.blocks@.len());
}


impl BlockGraph {
    /// Gives block `b` the code `code`.
    pub fn set_code(&mut self, b: BlockId, code: super::lir::Code)
        requires
            old(self).wf(),
            b < old(self).blocks@.len(),
        ensures
            final(self).wf(),
            final(self).extends(old(self)),
            final(self).blocks@[b as int].code == code,
            final(self).blocks@[b as int].regs == old(self).blocks@[b as int].regs,
            forall|x: int|
                0 <= x < old(self).blocks@.len() && x != b ==> #[trigger] final(self).blocks@[x]
                    == old(self).blocks@[x],
            final(self).edges == old(self).edges,
    {
        let ne = self.edges.len();
        self.blocks[b].code = code;
        proof {
            let o = old(self);
            assert forall|x: int| 0 <= x < o.blocks@.len() implies block_extends(
                &o.firm,
                #[trigger] o.blocks@[x],
                self.blocks@[x],
            ) by {
                assert forall|i: int| 0 <= i < o.blocks@[x].regs@.len() implies slot_extends(
                    #[trigger] o.blocks@[x].regs@[i],
                    self.blocks@[x].regs@[i],
                ) by {
                    lemma_slot_extends_refl(o.blocks@[x].regs@[i]);
                }
            }
            assert forall|e: int| 0 <= e < o.edges@.len() implies edge_extends(
                #[trigger] o.edges@[e],
                self.edges@[e],
            ) by {
                let t = o.edges@[e].register_transitions@;
                assert(t.subrange(0, t.len() as int) =~= t);
            }
            assert(self.regs_ok()) by {
                assert forall|x: BlockId, i: usize|
                    x < self.blocks@.len() && i < self.blocks@[x as int].regs@.len() implies (
                #[trigger] self.blocks@[x as int].regs@[i as int]).wf_at(
                    x,
                    i,
                    self.firm.nodes@.len(),
                    self.blocks@.len(),
                ) by {
                    assert(o.blocks@[x as int].regs@[i as int].wf_at(
                        x,
                        i,
                        o.firm.nodes@.len(),
                        o.blocks@.len(),
                    ));
                }
            }
            lemma_wf_kept(o, self);
        }
    }
}

/// A graph that extends one which extends a third extends the third.
pub proof fn lemma_extends_is_trans(a: &BlockGraph, b: &BlockGraph, c: &BlockGraph)
    requires
        b.extends(a),
        c.extends(b),
    ensures
        c.extends(a),
{
    lemma_extends_trans(a, b, c);
}


/// Blocks that were served stay served when slots are added.
pub proof fn lemma_served_kept(old: &BlockGraph, new: &BlockGraph)
    requires
        new.extends(old),
        forall|b: BlockId| b < old.blocks@.len() ==> #[trigger] old.block_served(b),
    ensures
        forall|b: BlockId| b < new.blocks@.len() ==> #[trigger] new.block_served(b),
{
    assert forall|x: BlockId| x < new.blocks@.len() implies #[trigger] new.block_served(x) by {
        assert(old.block_served(x));
        assert(block_extends(&old.firm, old.blocks@[x as int], new.blocks@[x as int]));
        assert forall|m: NodeId| #[trigger]
            stands_in(&new.firm, m, new.blocks@[x as int].firm.0) implies new.node_served(x, m) by {
            assert(stands_in(&old.firm, m, old.blocks@[x as int].firm.0));
            assert(old.node_served(x, m));
            assert forall|v: NodeId| #[trigger] demands(&new.firm, m, v) implies new.covers(x, v) by {
                assert(demands(&old.firm, m, v));
                lemma_covers_kept(old, new, x, v);
            }
        }
    }
}

} // verus!

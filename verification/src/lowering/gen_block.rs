//! What a basic block needs besides the instructions of its nodes: the
//! copies on entry and on exit, the values that are known from the start,
//! and the list of the values that it has to compute.
use super::gen_instr::{applied, spec_effect, Computed, Effect, GenInstrBlock, LoweringError};
use super::lir::{BlockGraph, BlockId, Code, CopyPropagation, EdgeId, Function, SlotRef, LIR};
use crate::firm::graph::EntityKind;
use super::slots::{block_extends, lemma_extends_is_refl, lemma_extends_is_trans};
use crate::firm::graph::{Graph, NodeId, NodeKind};
use crate::firm::walk::{spec_walk, walk_dfs_in_block};
use itertools::Itertools;
use vstd::prelude::*;

verus! {

/// `s` without every element that equals the one before it.
pub open spec fn spec_dedup(s: Seq<NodeId>) -> Seq<NodeId>
    decreases s.len(),
{
    if s.len() <= 1 {
        s
    } else if s[s.len() - 2] == s.last() {
        spec_dedup(s.drop_last())
    } else {
        spec_dedup(s.drop_last()).push(s.last())
    }
}

/// `Itertools::dedup`, collected: of each run of consecutive equal
/// elements the first is kept, and the order of what is kept is that of
/// the input.
#[verifier::external_body]
fn dedup_nodes(v: Vec<NodeId>) -> (r: Vec<NodeId>)
    ensures
        r@ == spec_dedup(v@),
{
    v.into_iter().dedup().collect()
}

/// Whether register transition `i` of edge `e` gives a copy on entry
/// (`incoming`) or on exit of the block in which pseudo-register `num`
/// stands. On entry stand the copies into value slots with that number
/// that need not stand in the source block, on exit the copies out of
/// the pseudo-register with that number that have to.
pub open spec fn keeps(g: &BlockGraph, incoming: bool, num: usize, e: EdgeId, i: int) -> bool {
    let t = g.edges@[e as int].register_transitions@[i];
    if incoming {
        t.1.num == num && !g.spec_must_copy_in_source(e, i)
    } else {
        t.0.num == num && g.spec_must_copy_in_source(e, i)
    }
}

/// The copies that the first `upto` register transitions of edge `e`
/// give.
pub open spec fn edge_copies(g: &BlockGraph, incoming: bool, num: usize, e: EdgeId, upto: int) -> Seq<
    CopyPropagation,
>
    decreases upto,
{
    if upto <= 0 {
        Seq::empty()
    } else {
        let rest = edge_copies(g, incoming, num, e, upto - 1);
        let t = g.edges@[e as int].register_transitions@[upto - 1];
        if keeps(g, incoming, num, e, upto - 1) {
            rest.push(CopyPropagation { src: t.0, dst: t.1 })
        } else {
            rest
        }
    }
}

/// The edges into block `block` (`incoming`) or out of it.
pub open spec fn edges_of(g: &BlockGraph, block: BlockId, incoming: bool) -> Seq<EdgeId> {
    if incoming {
        g.blocks@[block as int].preds@
    } else {
        g.blocks@[block as int].succs@
    }
}

/// The copies that the first `upto` of the edges `es` give, edge by edge.
pub open spec fn edges_copies(
    g: &BlockGraph,
    incoming: bool,
    num: usize,
    es: Seq<EdgeId>,
    upto: int,
) -> Seq<CopyPropagation>
    decreases upto,
{
    if upto <= 0 {
        Seq::empty()
    } else {
        edges_copies(g, incoming, num, es, upto - 1) + edge_copies(
            g,
            incoming,
            num,
            es[upto - 1],
            g.edges@[es[upto - 1] as int].register_transitions@.len() as int,
        )
    }
}

/// The copies on entry (`incoming`) or on exit of block `block` for its
/// first `upto` pseudo-registers, pseudo-register by pseudo-register.
pub open spec fn spec_copies(g: &BlockGraph, block: BlockId, incoming: bool, upto: int) -> Seq<
    CopyPropagation,
>
    decreases upto,
{
    if upto <= 0 {
        Seq::empty()
    } else {
        spec_copies(g, block, incoming, upto - 1) + edges_copies(
            g,
            incoming,
            (upto - 1) as usize,
            edges_of(g, block, incoming),
            edges_of(g, block, incoming).len() as int,
        )
    }
}

/// An edge into block `block` has a register transition whose copy would
/// have to stand both in the source and in the target block.
#[verifier::opaque]
pub open spec fn lost_copy(g: &BlockGraph, block: BlockId) -> bool {
    exists|k: int, i: int|
        {
            &&& 0 <= k < g.blocks@[block as int].preds@.len()
            &&& 0 <= i
                < g.edges@[g.blocks@[block as int].preds@[k] as int].register_transitions@.len()
            &&& #[trigger] g.spec_must_copy_in_source(g.blocks@[block as int].preds@[k], i)
            &&& g.spec_must_copy_in_target(g.blocks@[block as int].preds@[k], i)
        }
}

/// Whether an edge into block `block` has a register transition whose
/// copy would have to stand both in the source and in the target block.
pub fn has_lost_copy(g: &BlockGraph, block: BlockId) -> (r: bool)
    requires
        g.wf(),
        block < g.blocks@.len(),
    ensures
        r == lost_copy(g, block),
{
    let npreds = g.blocks[block].preds.len();
    let mut k: usize = 0;
    proof {
        reveal(lost_copy);
    }
    while k < npreds
        invariant
            g.wf(),
            block < g.blocks@.len(),
            npreds == g.blocks@[block as int].preds@.len(),
            k <= npreds,
            forall|a: int, i: int|
                0 <= a < k && 0 <= i
                    < g.edges@[g.blocks@[block as int].preds@[a] as int].register_transitions@.len()
                    ==> !(#[trigger] g.spec_must_copy_in_source(
                    g.blocks@[block as int].preds@[a],
                    i,
                ) && g.spec_must_copy_in_target(g.blocks@[block as int].preds@[a], i)),
        decreases npreds - k,
    {
        let e = g.blocks[block].preds[k];
        assert(g.blocks@[block as int].preds@[k as int] == e);
        let nt = g.edges[e].register_transitions.len();
        let mut i: usize = 0;
        while i < nt
            invariant
                g.wf(),
                block < g.blocks@.len(),
                k < g.blocks@[block as int].preds@.len(),
                e == g.blocks@[block as int].preds@[k as int],
                e < g.edges@.len(),
                nt == g.edges@[e as int].register_transitions@.len(),
                i <= nt,
                forall|j: int|
                    0 <= j < i ==> !(#[trigger] g.spec_must_copy_in_source(e, j)
                        && g.spec_must_copy_in_target(e, j)),
            decreases nt - i,
        {
            if g.must_copy_in_source(e, i) && g.must_copy_in_target(e, i) {
                proof {
                    reveal(lost_copy);
                }
                return true;
            }
            i += 1;
        }
        k += 1;
    }
    false
}

/// The copies on entry (`incoming`) or on exit of block `block`.
pub fn copies(g: &BlockGraph, block: BlockId, incoming: bool) -> (out: Vec<CopyPropagation>)
    requires
        g.wf(),
        block < g.blocks@.len(),
    ensures
        out@ == spec_copies(g, block, incoming, g.blocks@[block as int].regs@.len() as int),
{
    let mut out: Vec<CopyPropagation> = Vec::new();
    let nregs = g.blocks[block].regs.len();
    let es = if incoming {
        &g.blocks[block].preds
    } else {
        &g.blocks[block].succs
    };
    let mut num: usize = 0;
    while num < nregs
        invariant
            g.wf(),
            block < g.blocks@.len(),
            nregs == g.blocks@[block as int].regs@.len(),
            es@ == edges_of(g, block, incoming),
            num <= nregs,
            out@ == spec_copies(g, block, incoming, num as int),
        decreases nregs - num,
    {
        let ghost base = out@;
        let mut k: usize = 0;
        while k < es.len()
            invariant
                g.wf(),
                block < g.blocks@.len(),
                es@ == edges_of(g, block, incoming),
                k <= es@.len(),
                out@ == base + edges_copies(g, incoming, num, es@, k as int),
            decreases es@.len() - k,
        {
            let e = es[k];
            assert(e < g.edges@.len()) by {
                if incoming {
                    assert(g.blocks@[block as int].preds@[k as int] == e);
                } else {
                    assert(g.blocks@[block as int].succs@[k as int] == e);
                }
            }
            let ghost mid = out@;
            let nt = g.edges[e].register_transitions.len();
            let mut i: usize = 0;
            while i < nt
                invariant
                    g.wf(),
                    e < g.edges@.len(),
                    nt == g.edges@[e as int].register_transitions@.len(),
                    i <= nt,
                    out@ == mid + edge_copies(g, incoming, num, e, i as int),
                decreases nt - i,
            {
                let t = g.edges[e].register_transitions[i];
                let in_source = g.must_copy_in_source(e, i);
                let keep = if incoming {
                    t.1.num == num && !in_source
                } else {
                    t.0.num == num && in_source
                };
                if keep {
                    out.push(CopyPropagation { src: t.0, dst: t.1 });
                    assert(out@ =~= mid + edge_copies(g, incoming, num, e, i + 1));
                }
                i += 1;
            }
            assert(out@ =~= base + edges_copies(g, incoming, num, es@, k + 1));
            k += 1;
        }
        num += 1;
    }
    out
}

/// The nodes whose values flow out of the first `upto` register
/// transitions of edge `e`: for each the node that its source
/// pseudo-register stands for.
pub open spec fn edge_sources(g: &BlockGraph, e: EdgeId, upto: int) -> Seq<NodeId>
    decreases upto,
{
    if upto <= 0 {
        Seq::empty()
    } else {
        let src = g.edges@[e as int].register_transitions@[upto - 1].0;
        edge_sources(g, e, upto - 1).push(
            match g.blocks@[src.block as int].regs@[src.num as int] {
                super::lir::MultiSlot::Single(s) => s.firm,
                super::lir::MultiSlot::Multi { phi, .. } => phi.0,
            },
        )
    }
}

/// The nodes whose values flow out of the first `upto` of the edges `es`.
pub open spec fn edges_sources(g: &BlockGraph, es: Seq<EdgeId>, upto: int) -> Seq<NodeId>
    decreases upto,
{
    if upto <= 0 {
        Seq::empty()
    } else {
        edges_sources(g, es, upto - 1) + edge_sources(
            g,
            es[upto - 1],
            g.edges@[es[upto - 1] as int].register_transitions@.len() as int,
        )
    }
}

/// Node `m` ends block `fb`: it belongs to the block and is a return, a
/// jump or a conditional branch.
pub open spec fn is_leave_node(firm: &Graph, m: NodeId, fb: NodeId) -> bool {
    &&& m != fb
    &&& firm.spec_block(m) == fb
    &&& (firm.spec_kind(m) == NodeKind::Return || firm.spec_kind(m) == NodeKind::Jmp
        || firm.spec_kind(m) == NodeKind::Cond)
}

/// The nodes among the first `upto` that end block `fb`, in order.
pub open spec fn leave_nodes(firm: &Graph, fb: NodeId, upto: int) -> Seq<NodeId>
    decreases upto,
{
    if upto <= 0 {
        Seq::empty()
    } else if is_leave_node(firm, (upto - 1) as usize, fb) {
        leave_nodes(firm, fb, upto - 1).push((upto - 1) as usize)
    } else {
        leave_nodes(firm, fb, upto - 1)
    }
}

/// The values that block `block` has to compute: those that flow out of
/// it, without immediate repetitions, and then the nodes that end it,
/// which have to be computed for what they do.
pub open spec fn spec_values_to_compute(g: &BlockGraph, block: BlockId) -> Seq<NodeId> {
    spec_dedup(
        edges_sources(
            g,
            g.blocks@[block as int].succs@,
            g.blocks@[block as int].succs@.len() as int,
        ),
    ) + leave_nodes(&g.firm, g.blocks@[block as int].firm.0, g.firm.nodes@.len() as int)
}

/// The values that block `block` has to compute.
pub fn values_to_compute(g: &BlockGraph, block: BlockId) -> (v: Vec<NodeId>)
    requires
        g.wf(),
        block < g.blocks@.len(),
    ensures
        v@ == spec_values_to_compute(g, block),
        forall|i: int| 0 <= i < v@.len() ==> #[trigger] v@[i] < g.firm.nodes@.len(),
{
    let mut sources: Vec<NodeId> = Vec::new();
    let succs = &g.blocks[block].succs;
    let mut k: usize = 0;
    while k < succs.len()
        invariant
            g.wf(),
            block < g.blocks@.len(),
            succs@ == g.blocks@[block as int].succs@,
            k <= succs@.len(),
            sources@ == edges_sources(g, succs@, k as int),
            forall|i: int| 0 <= i < sources@.len() ==> #[trigger] sources@[i] < g.firm.nodes@.len(),
        decreases succs@.len() - k,
    {
        let e = succs[k];
        assert(g.blocks@[block as int].succs@[k as int] == e);
        let ghost mid = sources@;
        let nt = g.edges[e].register_transitions.len();
        let mut i: usize = 0;
        while i < nt
            invariant
                g.wf(),
                e < g.edges@.len(),
                nt == g.edges@[e as int].register_transitions@.len(),
                i <= nt,
                sources@ == mid + edge_sources(g, e, i as int),
                forall|j: int|
                    0 <= j < sources@.len() ==> #[trigger] sources@[j] < g.firm.nodes@.len(),
            decreases nt - i,
        {
            let src = g.edges[e].register_transitions[i].0;
            assert(g.transition_ok(e as int, i as int));
            assert(g.edges@[e as int].source < g.blocks@.len());
            let reg = &g.blocks[src.block].regs[src.num];
            assert(reg.wf_at(src.block, src.num, g.firm.nodes@.len(), g.blocks@.len()));
            let n = reg.firm();
            proof {
                match *reg {
                    super::lir::MultiSlot::Single(s) => {
                        assert(reg.spec_slots()[0] == s);
                    },
                    super::lir::MultiSlot::Multi { phi, .. } => {},
                }
            }
            sources.push(n);
            assert(sources@ =~= mid + edge_sources(g, e, i + 1));
            i += 1;
        }
        assert(sources@ =~= edges_sources(g, succs@, k + 1));
        k += 1;
    }
    let mut v = dedup_nodes(sources);
    proof {
        lemma_dedup_bound(sources@, g.firm.nodes@.len());
    }
    let fb = g.blocks[block].firm.0;
    let ghost base = v@;
    let n = g.firm.len();
    let mut m: usize = 0;
    while m < n
        invariant
            g.wf(),
            block < g.blocks@.len(),
            fb == g.blocks@[block as int].firm.0,
            n == g.firm.nodes@.len(),
            m <= n,
            v@ == base + leave_nodes(&g.firm, fb, m as int),
            forall|i: int| 0 <= i < v@.len() ==> #[trigger] v@[i] < g.firm.nodes@.len(),
        decreases n - m,
    {
        if m != fb && g.firm.block_of(m) == fb {
            let kind = g.firm.kind(m);
            if matches!(kind, NodeKind::Return) || matches!(kind, NodeKind::Jmp) || matches!(
                kind,
                NodeKind::Cond
            ) {
                v.push(m);
                assert(v@ =~= base + leave_nodes(&g.firm, fb, m + 1));
            }
        }
        m += 1;
    }
    v
}

/// What is left when immediate repetitions are dropped holds no element
/// that was not there before.
pub proof fn lemma_dedup_bound(s: Seq<NodeId>, n: nat)
    requires
        forall|i: int| 0 <= i < s.len() ==> #[trigger] s[i] < n,
    ensures
        forall|i: int| 0 <= i < spec_dedup(s).len() ==> #[trigger] spec_dedup(s)[i] < n,
    decreases s.len(),
{
    if s.len() > 1 {
        lemma_dedup_bound(s.drop_last(), n);
        let d = spec_dedup(s.drop_last());
        assert forall|i: int| 0 <= i < spec_dedup(s).len() implies #[trigger] spec_dedup(s)[i] < n by {
            if i < d.len() {
                assert(spec_dedup(s)[i] == d[i]);
            } else {
                assert(spec_dedup(s)[i] == s.last());
            }
        }
    }
}

/// The value of node `n` is there when block `block` is entered: it is
/// a phi, whose value is chosen on the way in, or it comes from another
/// block.
pub open spec fn comes_in(g: &BlockGraph, block: BlockId, n: NodeId) -> bool {
    g.firm.spec_kind(n) == NodeKind::Phi || g.firm.spec_block(n) != g.blocks@[block as int].firm.0
}

/// What is known before any node of block `block` is visited, as far as
/// its first `upto` pseudo-registers say: a node whose value is there
/// when the block is entered has its value in the pseudo-register that
/// stands for it, and of two pseudo-registers for one node the first
/// counts.
pub open spec fn spec_prefill(g: &BlockGraph, block: BlockId, upto: int) -> Seq<Option<Computed>>
    decreases upto,
{
    if upto <= 0 {
        Seq::new(g.firm.nodes@.len(), |i: int| None::<Computed>)
    } else {
        let c = spec_prefill(g, block, upto - 1);
        let n = match g.blocks@[block as int].regs@[upto - 1] {
            super::lir::MultiSlot::Single(s) => s.firm,
            super::lir::MultiSlot::Multi { phi, .. } => phi.0,
        };
        if c[n as int] is None && comes_in(g, block, n) {
            c.update(n as int, Some(Computed::Value(SlotRef { block, num: (upto - 1) as usize })))
        } else {
            c
        }
    }
}

/// Node `node` is turned into its instruction: what is to be done for it
/// in state `o` and graph `og` is done, and gives state `n` and graph
/// `g`.
pub open spec fn stepped(
    o: &GenInstrBlock,
    og: &BlockGraph,
    n: &GenInstrBlock,
    g: &BlockGraph,
    block: BlockId,
    node: NodeId,
) -> bool {
    spec_effect(og, o.computed@, block, node) matches Ok(effect) && applied(
        o,
        n,
        og,
        g,
        block,
        node,
        effect,
    )
}

/// `states` and `graphs` are the states and graphs through which the
/// first `k` nodes of `order` are turned into their instructions, one
/// after the other: from state `o` and graph `og` to state `n` and graph
/// `g`.
pub open spec fn is_trace(
    states: Seq<GenInstrBlock>,
    graphs: Seq<BlockGraph>,
    o: &GenInstrBlock,
    og: &BlockGraph,
    n: &GenInstrBlock,
    g: &BlockGraph,
    block: BlockId,
    order: Seq<NodeId>,
    k: nat,
) -> bool {
    &&& states.len() == k + 1
    &&& graphs.len() == k + 1
    &&& states[0] == *o
    &&& graphs[0] == *og
    &&& states[k as int] == *n
    &&& graphs[k as int] == *g
    &&& forall|i: int|
        0 <= i < k ==> stepped(
            &#[trigger] states[i],
            &graphs[i],
            &states[i + 1],
            &graphs[i + 1],
            block,
            order[i],
        )
}

/// The first `k` nodes of `order` are turned into their instructions,
/// one after the other, from state `o` and graph `og` to state `n` and
/// graph `g`.
#[verifier::opaque]
pub open spec fn walked(
    o: &GenInstrBlock,
    og: &BlockGraph,
    n: &GenInstrBlock,
    g: &BlockGraph,
    block: BlockId,
    order: Seq<NodeId>,
    k: nat,
) -> bool {
    exists|states: Seq<GenInstrBlock>, graphs: Seq<BlockGraph>| #[trigger]
        is_trace(states, graphs, o, og, n, g, block, order, k)
}

pub proof fn lemma_walked_start(
    o: &GenInstrBlock,
    og: &BlockGraph,
    block: BlockId,
    order: Seq<NodeId>,
)
    ensures
        walked(o, og, o, og, block, order, 0),
{
    reveal(walked);
    assert(is_trace(seq![*o], seq![*og], o, og, o, og, block, order, 0));
}

pub proof fn lemma_walked_step(
    o: &GenInstrBlock,
    og: &BlockGraph,
    m: GenInstrBlock,
    mg: BlockGraph,
    n: &GenInstrBlock,
    g: &BlockGraph,
    block: BlockId,
    order: Seq<NodeId>,
    k: nat,
)
    requires
        walked(o, og, &m, &mg, block, order, k),
        k < order.len(),
        stepped(&m, &mg, n, g, block, order[k as int]),
    ensures
        walked(o, og, n, g, block, order, k + 1),
{
    reveal(walked);
    let (states, graphs) = choose|states: Seq<GenInstrBlock>, graphs: Seq<BlockGraph>| #[trigger]
        is_trace(states, graphs, o, og, &m, &mg, block, order, k);
    let more = states.push(*n);
    let more_graphs = graphs.push(*g);
    assert forall|i: int| 0 <= i < k + 1 implies stepped(
        &#[trigger] more[i],
        &more_graphs[i],
        &more[i + 1],
        &more_graphs[i + 1],
        block,
        order[i],
    ) by {
        if i < k {
            assert(stepped(&states[i], &graphs[i], &states[i + 1], &graphs[i + 1], block, order[i]));
        }
    }
    assert(is_trace(more, more_graphs, o, og, n, g, block, order, k + 1));
}

/// The error of a result, if it is one.
pub open spec fn failure(r: Result<(), LoweringError>) -> Option<LoweringError> {
    match r {
        Ok(_) => None,
        Err(e) => Some(e),
    }
}

/// What the walk along `order` gives: every node is turned into its
/// instruction, or the walk stops before the first node that cannot be.
pub open spec fn walk_outcome(
    o: &GenInstrBlock,
    og: &BlockGraph,
    n: &GenInstrBlock,
    g: &BlockGraph,
    block: BlockId,
    order: Seq<NodeId>,
    failure: Option<LoweringError>,
) -> bool {
    match failure {
        None => walked(o, og, n, g, block, order, order.len()),
        Some(e) => exists|k: nat|
            k < order.len() && #[trigger] walked(o, og, n, g, block, order, k) && spec_effect(
                g,
                n.computed@,
                block,
                order[k as int],
            ) == Err::<Effect, LoweringError>(e),
    }
}

/// The value of node `value` is computed in block `block`, from state
/// `o` and graph `og` to state `n` and graph `g`: the nodes of the walk
/// from `value` through the block are turned into their instructions.
#[verifier::opaque]
pub open spec fn value_computed(
    o: &GenInstrBlock,
    og: &BlockGraph,
    n: &GenInstrBlock,
    g: &BlockGraph,
    block: BlockId,
    value: NodeId,
    failure: Option<LoweringError>,
) -> bool {
    walk_outcome(
        o,
        og,
        n,
        g,
        block,
        spec_walk(&og.firm, value, og.blocks@[block as int].firm.0),
        failure,
    )
}

/// `states` and `graphs` are the states and graphs through which the
/// first `k` of the values `values` are computed, one after the other:
/// from state `o` and graph `og` to state `n` and graph `g`.
pub open spec fn is_values_trace(
    states: Seq<GenInstrBlock>,
    graphs: Seq<BlockGraph>,
    o: &GenInstrBlock,
    og: &BlockGraph,
    n: &GenInstrBlock,
    g: &BlockGraph,
    block: BlockId,
    values: Seq<NodeId>,
    k: nat,
) -> bool {
    &&& states.len() == k + 1
    &&& graphs.len() == k + 1
    &&& states[0] == *o
    &&& graphs[0] == *og
    &&& states[k as int] == *n
    &&& graphs[k as int] == *g
    &&& forall|i: int|
        0 <= i < k ==> value_computed(
            &#[trigger] states[i],
            &graphs[i],
            &states[i + 1],
            &graphs[i + 1],
            block,
            values[i],
            None,
        )
}

/// The first `k` of the values `values` are computed, one after the
/// other, from state `o` and graph `og` to state `n` and graph `g`.
#[verifier::opaque]
pub open spec fn values_computed(
    o: &GenInstrBlock,
    og: &BlockGraph,
    n: &GenInstrBlock,
    g: &BlockGraph,
    block: BlockId,
    values: Seq<NodeId>,
    k: nat,
) -> bool {
    exists|states: Seq<GenInstrBlock>, graphs: Seq<BlockGraph>| #[trigger]
        is_values_trace(states, graphs, o, og, n, g, block, values, k)
}

pub proof fn lemma_values_start(
    o: &GenInstrBlock,
    og: &BlockGraph,
    block: BlockId,
    values: Seq<NodeId>,
)
    ensures
        values_computed(o, og, o, og, block, values, 0),
{
    reveal(values_computed);
    assert(is_values_trace(seq![*o], seq![*og], o, og, o, og, block, values, 0));
}

pub proof fn lemma_values_step(
    o: &GenInstrBlock,
    og: &BlockGraph,
    m: GenInstrBlock,
    mg: BlockGraph,
    n: &GenInstrBlock,
    g: &BlockGraph,
    block: BlockId,
    values: Seq<NodeId>,
    k: nat,
)
    requires
        values_computed(o, og, &m, &mg, block, values, k),
        k < values.len(),
        value_computed(&m, &mg, n, g, block, values[k as int], None),
    ensures
        values_computed(o, og, n, g, block, values, k + 1),
{
    reveal(values_computed);
    let (states, graphs) = choose|states: Seq<GenInstrBlock>, graphs: Seq<BlockGraph>| #[trigger]
        is_values_trace(states, graphs, o, og, &m, &mg, block, values, k);
    let more = states.push(*n);
    let more_graphs = graphs.push(*g);
    assert forall|i: int| 0 <= i < k + 1 implies value_computed(
        &#[trigger] more[i],
        &more_graphs[i],
        &more[i + 1],
        &more_graphs[i + 1],
        block,
        values[i],
        None,
    ) by {
        if i < k {
            assert(value_computed(
                &states[i],
                &graphs[i],
                &states[i + 1],
                &graphs[i + 1],
                block,
                values[i],
                None,
            ));
        }
    }
    assert(is_values_trace(more, more_graphs, o, og, n, g, block, values, k + 1));
}

/// State `s` is state `o` with the copies of block `block` on entry and
/// on exit.
pub open spec fn copies_made(
    o: &GenInstrBlock,
    s: &GenInstrBlock,
    g: &BlockGraph,
    block: BlockId,
) -> bool {
    let regs = g.blocks@[block as int].regs@.len() as int;
    &&& s.computed == o.computed
    &&& s.code.body == o.code.body
    &&& s.code.leave == o.code.leave
    &&& s.code.copy_in@ == spec_copies(g, block, true, regs)
    &&& s.code.copy_out@ == spec_copies(g, block, false, regs)
}

/// What computing the values of block `block` gives, from state `s`:
/// every value that the block has to compute is computed, or the first
/// that cannot be stops the work.
#[verifier::opaque]
pub open spec fn values_outcome(
    s: &GenInstrBlock,
    og: &BlockGraph,
    n: &GenInstrBlock,
    g: &BlockGraph,
    block: BlockId,
    values: Seq<NodeId>,
    failure: Option<LoweringError>,
) -> bool {
    match failure {
        None => values_computed(s, og, n, g, block, values, values.len()),
        Some(e) => exists|k: nat, m: GenInstrBlock, mg: BlockGraph|
            k < values.len() && #[trigger] values_computed(s, og, &m, &mg, block, values, k)
                && value_computed(&m, &mg, n, g, block, values[k as int], Some(e)),
    }
}

pub proof fn lemma_values_done(
    s: &GenInstrBlock,
    og: &BlockGraph,
    n: &GenInstrBlock,
    g: &BlockGraph,
    block: BlockId,
    values: Seq<NodeId>,
)
    requires
        values_computed(s, og, n, g, block, values, values.len()),
    ensures
        values_outcome(s, og, n, g, block, values, None),
{
    reveal(values_outcome);
}

pub proof fn lemma_values_failed(
    s: &GenInstrBlock,
    og: &BlockGraph,
    m: GenInstrBlock,
    mg: BlockGraph,
    n: &GenInstrBlock,
    g: &BlockGraph,
    block: BlockId,
    values: Seq<NodeId>,
    k: nat,
    e: LoweringError,
)
    requires
        values_computed(s, og, &m, &mg, block, values, k),
        k < values.len(),
        value_computed(&m, &mg, n, g, block, values[k as int], Some(e)),
    ensures
        values_outcome(s, og, n, g, block, values, Some(e)),
{
    reveal(values_outcome);
}

/// What making the code of block `block` gives, from state `o`: the
/// copies and the values of the block.
pub open spec fn code_made(
    o: &GenInstrBlock,
    og: &BlockGraph,
    n: &GenInstrBlock,
    g: &BlockGraph,
    block: BlockId,
    failure: Option<LoweringError>,
) -> bool {
    exists|s: GenInstrBlock|
        copies_made(o, &s, og, block) && #[trigger] values_outcome(
            &s,
            og,
            n,
            g,
            block,
            spec_values_to_compute(og, block),
            failure,
        )
}

/// State `s` is the state before any node of block `block` is visited.
pub open spec fn is_fresh(s: &GenInstrBlock, g: &BlockGraph, block: BlockId) -> bool {
    &&& s.wf_for(g, block)
    &&& s.computed@ == spec_prefill(g, block, g.blocks@[block as int].regs@.len() as int)
    &&& s.code.copy_in@.len() == 0
    &&& s.code.copy_out@.len() == 0
    &&& s.code.body@.len() == 0
    &&& s.code.leave@.len() == 0
}

/// Graph `g` is graph `og` with the code `code` in block `block`.
pub open spec fn code_put(og: &BlockGraph, g: &BlockGraph, block: BlockId, code: Code) -> bool {
    &&& g.firm == og.firm
    &&& g.head == og.head
    &&& g.end_block == og.end_block
    &&& g.edges == og.edges
    &&& g.blocks@.len() == og.blocks@.len()
    &&& g.blocks@[block as int].code == code
    &&& g.blocks@[block as int].regs == og.blocks@[block as int].regs
    &&& forall|x: int|
        0 <= x < og.blocks@.len() && x != block ==> #[trigger] g.blocks@[x] == og.blocks@[x]
}

/// Block `block` of graph `og` gets its code, which gives graph `g`.
/// Where a copy would be lost, that is the error and nothing is changed.
/// Else the code is made from the state before any node is visited, and
/// put into the block; where it cannot be made, the block keeps the code
/// that it had.
#[verifier::opaque]
pub open spec fn block_filled(
    og: &BlockGraph,
    g: &BlockGraph,
    block: BlockId,
    failure: Option<LoweringError>,
) -> bool {
    if lost_copy(og, block) {
        failure == Some(LoweringError::LostCopy) && *g == *og
    } else {
        exists|fresh: GenInstrBlock, done: GenInstrBlock, mid: BlockGraph|
            is_fresh(&fresh, og, block) && #[trigger] code_made(
                &fresh,
                og,
                &done,
                &mid,
                block,
                failure,
            ) && (match failure {
                None => code_put(&mid, g, block, done.code),
                Some(_) => *g == mid,
            })
    }
}

/// `graphs` are the graphs through which the first `k` blocks of `order`
/// get their code, one after the other: from graph `og` to graph `g`.
pub open spec fn is_blocks_trace(
    graphs: Seq<BlockGraph>,
    og: &BlockGraph,
    g: &BlockGraph,
    order: Seq<BlockId>,
    k: nat,
) -> bool {
    &&& graphs.len() == k + 1
    &&& graphs[0] == *og
    &&& graphs[k as int] == *g
    &&& forall|i: int|
        0 <= i < k ==> block_filled(&#[trigger] graphs[i], &graphs[i + 1], order[i], None)
}

/// The first `k` blocks of `order` get their code, one after the other,
/// from graph `og` to graph `g`.
#[verifier::opaque]
pub open spec fn blocks_filled(og: &BlockGraph, g: &BlockGraph, order: Seq<BlockId>, k: nat) -> bool {
    exists|graphs: Seq<BlockGraph>| #[trigger] is_blocks_trace(graphs, og, g, order, k)
}

pub proof fn lemma_blocks_start(og: &BlockGraph, order: Seq<BlockId>)
    ensures
        blocks_filled(og, og, order, 0),
{
    reveal(blocks_filled);
    assert(is_blocks_trace(seq![*og], og, og, order, 0));
}

pub proof fn lemma_blocks_step(
    og: &BlockGraph,
    mg: BlockGraph,
    g: &BlockGraph,
    order: Seq<BlockId>,
    k: nat,
)
    requires
        blocks_filled(og, &mg, order, k),
        k < order.len(),
        block_filled(&mg, g, order[k as int], None),
    ensures
        blocks_filled(og, g, order, k + 1),
{
    reveal(blocks_filled);
    let graphs = choose|graphs: Seq<BlockGraph>| #[trigger]
        is_blocks_trace(graphs, og, &mg, order, k);
    let more = graphs.push(*g);
    assert forall|i: int| 0 <= i < k + 1 implies block_filled(
        &#[trigger] more[i],
        &more[i + 1],
        order[i],
        None,
    ) by {
        if i < k {
            assert(block_filled(&graphs[i], &graphs[i + 1], order[i], None));
        }
    }
    assert(is_blocks_trace(more, og, g, order, k + 1));
}

/// What giving the blocks of `order` their code gives: every block gets
/// its code, or the work stops at the first block whose code cannot be
/// made.
#[verifier::opaque]
pub open spec fn blocks_outcome(
    og: &BlockGraph,
    g: &BlockGraph,
    order: Seq<BlockId>,
    failure: Option<LoweringError>,
) -> bool {
    match failure {
        None => blocks_filled(og, g, order, order.len()),
        Some(e) => exists|k: nat, mg: BlockGraph|
            k < order.len() && #[trigger] blocks_filled(og, &mg, order, k) && block_filled(
                &mg,
                g,
                order[k as int],
                Some(e),
            ),
    }
}

pub proof fn lemma_blocks_done(og: &BlockGraph, g: &BlockGraph, order: Seq<BlockId>)
    requires
        blocks_filled(og, g, order, order.len()),
    ensures
        blocks_outcome(og, g, order, None),
{
    reveal(blocks_outcome);
}

pub proof fn lemma_blocks_failed(
    og: &BlockGraph,
    mg: BlockGraph,
    g: &BlockGraph,
    order: Seq<BlockId>,
    k: nat,
    e: LoweringError,
)
    requires
        blocks_filled(og, &mg, order, k),
        k < order.len(),
        block_filled(&mg, g, order[k as int], Some(e)),
    ensures
        blocks_outcome(og, g, order, Some(e)),
{
    reveal(blocks_outcome);
}

/// The code of graph `og` is made, which gives graph `g`: the blocks
/// that can be reached from the head get their code in breadth-first
/// order.
pub open spec fn instrs_made(og: &BlockGraph, g: &BlockGraph, failure: Option<LoweringError>) -> bool {
    blocks_outcome(og, g, og.spec_iter_blocks(), failure)
}

/// Graph `g` is what is made of the graph `firm` before any code: the
/// blocks and edges that mirror it, with a pseudo-register in every
/// block for every value that the block needs, and the register
/// transitions that bring the values in: every pseudo-register has what
/// it needs from the blocks before, each is there because a node of its
/// block asks for its value or because the value flows on from it, and
/// no edge has two register transitions into one value slot.
pub open spec fn prepared(firm: &Graph, g: &BlockGraph) -> bool {
    &&& g.wf()
    &&& g.firm == *firm
    &&& forall|b: BlockId| b < g.blocks@.len() ==> #[trigger] g.block_served(b)
    &&& g.all_supplied()
    &&& g.all_used()
    &&& g.fed_once()
}

/// `r` is what lowering the graph `firm` gives: the graph is prepared,
/// and its code is made.
pub open spec fn lowered(firm: &Graph, r: Result<BlockGraph, LoweringError>) -> bool {
    exists|mid: BlockGraph, end: BlockGraph|
        prepared(firm, &mid) && #[trigger] instrs_made(&mid, &end, failed(r)) && (r matches Ok(g)
            ==> g == end)
}

/// The graph of a function that was lowered, or the error for which it
/// was not.
pub open spec fn function_graph(r: Result<Function, LoweringError>) -> Result<
    BlockGraph,
    LoweringError,
> {
    match r {
        Ok(f) => Ok(f.graph),
        Err(e) => Err(e),
    }
}

/// The error for which a graph was not lowered, if there is one.
pub open spec fn failed(r: Result<BlockGraph, LoweringError>) -> Option<LoweringError> {
    match r {
        Ok(_) => None,
        Err(e) => Some(e),
    }
}

proof fn lemma_lowered(
    firm: &Graph,
    mid: BlockGraph,
    end: BlockGraph,
    r: Result<BlockGraph, LoweringError>,
)
    requires
        prepared(firm, &mid),
        instrs_made(&mid, &end, failed(r)),
        r matches Ok(g) ==> g == end,
    ensures
        lowered(firm, r),
{
}

impl GenInstrBlock {
    /// The state before any node of block `block` is visited: no code, and
    /// the values known that stand in the pseudo-registers of the block.
    pub fn new(g: &BlockGraph, block: BlockId) -> (s: Self)
        requires
            g.wf(),
            block < g.blocks@.len(),
        ensures
            s.wf_for(g, block),
            s.computed@ == spec_prefill(g, block, g.blocks@[block as int].regs@.len() as int),
            s.code.copy_in@.len() == 0,
            s.code.copy_out@.len() == 0,
            s.code.body@.len() == 0,
            s.code.leave@.len() == 0,
    {
        let n = g.firm.len();
        let mut computed: Vec<Option<Computed>> = Vec::new();
        let mut c: usize = 0;
        while c < n
            invariant
                c <= n,
                computed@.len() == c,
                forall|k: int| 0 <= k < c ==> computed@[k] is None,
            decreases n - c,
        {
            computed.push(None);
            c += 1;
        }
        assert(computed@ =~= spec_prefill(g, block, 0));
        let nregs = g.blocks[block].regs.len();
        let mut num: usize = 0;
        while num < nregs
            invariant
                g.wf(),
                block < g.blocks@.len(),
                nregs == g.blocks@[block as int].regs@.len(),
                num <= nregs,
                computed@.len() == g.firm.nodes@.len(),
                computed@ == spec_prefill(g, block, num as int),
                forall|k: int|
                    0 <= k < computed@.len() ==> (#[trigger] computed@[k] matches Some(
                        Computed::Value(s),
                    ) ==> s.block == block && s.num < num),
            decreases nregs - num,
        {
            let reg = &g.blocks[block].regs[num];
            assert(reg.wf_at(block, num, g.firm.nodes@.len(), g.blocks@.len()));
            let node = reg.firm();
            proof {
                match *reg {
                    super::lir::MultiSlot::Single(s) => {
                        assert(reg.spec_slots()[0] == s);
                    },
                    super::lir::MultiSlot::Multi { phi, .. } => {},
                }
            }
            let incoming = matches!(g.firm.kind(node), NodeKind::Phi) || g.firm.block_of(node)
                != g.blocks[block].firm.0;
            if computed[node].is_none() && incoming {
                computed.set(node, Some(Computed::Value(SlotRef { block, num })));
            }
            num += 1;
        }
        GenInstrBlock { code: Code::default(), computed }
    }

    /// Turns one node into its instruction, and says of the outcome only
    /// what the walk over the nodes needs.
    fn step(&mut self, g: &mut BlockGraph, block: BlockId, node: NodeId) -> (r: Result<
        (),
        LoweringError,
    >)
        requires
            old(g).wf(),
            old(self).wf_for(old(g), block),
            block < old(g).blocks@.len(),
            node < old(g).firm.nodes@.len(),
        ensures
            final(g).wf(),
            final(g).extends(old(g)),
            final(self).wf_for(final(g), block),
            final(self).code.copy_in == old(self).code.copy_in,
            final(self).code.copy_out == old(self).code.copy_out,
            r matches Err(e) ==> e != LoweringError::LostCopy,
            match r {
                Ok(_) => stepped(old(self), old(g), final(self), final(g), block, node),
                Err(e) => spec_effect(old(g), old(self).computed@, block, node) == Err::<
                    Effect,
                    LoweringError,
                >(e) && *final(self) == *old(self) && *final(g) == *old(g),
            },
    {
        let ghost g1 = *g;
        let ghost s1 = *self;
        proof {
            super::gen_instr::lemma_effect_error(&g1, s1.computed@, block, node);
        }
        self.gen_value_walk_callback(g, block, node)
    }

    /// Computes the value of node `out_value` in block `block`: the nodes
    /// of the block that the value depends on are visited operands first,
    /// and each is turned into its instruction. Stops at the first node
    /// that cannot be turned into one.
    pub fn gen_value(&mut self, g: &mut BlockGraph, block: BlockId, out_value: NodeId) -> (r: Result<
        (),
        LoweringError,
    >)
        requires
            old(g).wf(),
            old(self).wf_for(old(g), block),
            block < old(g).blocks@.len(),
            out_value < old(g).firm.nodes@.len(),
        ensures
            final(g).wf(),
            final(g).extends(old(g)),
            final(self).wf_for(final(g), block),
            final(self).code.copy_in == old(self).code.copy_in,
            final(self).code.copy_out == old(self).code.copy_out,
            r matches Err(e) ==> e != LoweringError::LostCopy,
            value_computed(old(self), old(g), final(self), final(g), block, out_value, failure(r)),
    {
        let ghost g0 = *g;
        let ghost s0 = *self;
        let order = walk_dfs_in_block(&g.firm, out_value, g.blocks[block].firm.0);
        proof {
            lemma_extends_is_refl(&g0);
            lemma_walked_start(&s0, &g0, block, order@);
        }
        let mut i: usize = 0;
        while i < order.len()
            invariant
                g.wf(),
                g.extends(&g0),
                g0 == *old(g),
                s0 == *old(self),
                order@ == spec_walk(&g0.firm, out_value, g0.blocks@[block as int].firm.0),
                walked(&s0, &g0, self, g, block, order@, i as nat),
                self.wf_for(g, block),
                block < g.blocks@.len(),
                i <= order@.len(),
                forall|k: int| 0 <= k < order@.len() ==> #[trigger] order@[k] < g.firm.nodes@.len(),
                self.code.copy_in == old(self).code.copy_in,
                self.code.copy_out == old(self).code.copy_out,
            decreases order@.len() - i,
        {
            let ghost g1 = *g;
            let ghost s1 = *self;
            let r = self.step(g, block, order[i]);
            proof {
                lemma_extends_is_trans(&g0, &g1, g);
            }
            match r {
                Ok(_) => {
                    proof {
                        lemma_walked_step(&s0, &g0, s1, g1, self, g, block, order@, i as nat);
                    }
                },
                Err(e) => {
                    proof {
                        assert(walk_outcome(&s0, &g0, self, g, block, order@, Some(e)));
                        reveal(value_computed);
                    }
                    return Err(e);
                },
            }
            i += 1;
        }
        proof {
            assert(walk_outcome(&s0, &g0, self, g, block, order@, None));
            reveal(value_computed);
        }
        Ok(())
    }

    /// Computes the values `values` in block `block`, one after the
    /// other, and stops at the first that cannot be computed.
    fn gen_values(&mut self, g: &mut BlockGraph, block: BlockId, values: &Vec<NodeId>) -> (r:
        Result<(), LoweringError>)
        requires
            old(g).wf(),
            old(self).wf_for(old(g), block),
            block < old(g).blocks@.len(),
            forall|k: int| 0 <= k < values@.len() ==> #[trigger] values@[k] < old(g).firm.nodes@.len(),
        ensures
            final(g).wf(),
            final(g).extends(old(g)),
            final(self).wf_for(final(g), block),
            final(self).code.copy_in == old(self).code.copy_in,
            final(self).code.copy_out == old(self).code.copy_out,
            r matches Err(e) ==> e != LoweringError::LostCopy,
            values_outcome(old(self), old(g), final(self), final(g), block, values@, failure(r)),
    {
        let ghost g0 = *g;
        let ghost s0 = *self;
        proof {
            lemma_extends_is_refl(&g0);
            lemma_values_start(&s0, &g0, block, values@);
        }
        let mut i: usize = 0;
        while i < values.len()
            invariant
                g.wf(),
                g.extends(&g0),
                g0 == *old(g),
                s0 == *old(self),
                self.wf_for(g, block),
                block < g.blocks@.len(),
                i <= values@.len(),
                forall|k: int| 0 <= k < values@.len() ==> #[trigger] values@[k] < g.firm.nodes@.len(),
                self.code.copy_in == s0.code.copy_in,
                self.code.copy_out == s0.code.copy_out,
                values_computed(&s0, &g0, self, g, block, values@, i as nat),
            decreases values@.len() - i,
        {
            let ghost g1 = *g;
            let ghost s1 = *self;
            let r = self.gen_value(g, block, values[i]);
            proof {
                lemma_extends_is_trans(&g0, &g1, g);
            }
            match r {
                Ok(_) => {
                    proof {
                        lemma_values_step(&s0, &g0, s1, g1, self, g, block, values@, i as nat);
                    }
                },
                Err(e) => {
                    proof {
                        lemma_values_failed(&s0, &g0, s1, g1, self, g, block, values@, i as nat, e);
                    }
                    return Err(e);
                },
            }
            i += 1;
        }
        proof {
            lemma_values_done(&s0, &g0, self, g, block, values@);
        }
        Ok(())
    }

    /// Makes the code of block `block`: the copies on entry and on exit,
    /// and the instructions for the values that the block has to compute.
    /// No copy of the block may be lost: `has_lost_copy` tells.
    pub fn gen(&mut self, g: &mut BlockGraph, block: BlockId) -> (r: Result<(), LoweringError>)
        requires
            old(g).wf(),
            old(self).wf_for(old(g), block),
            block < old(g).blocks@.len(),
            !lost_copy(old(g), block),
        ensures
            final(g).wf(),
            final(g).extends(old(g)),
            final(self).wf_for(final(g), block),
            r matches Err(e) ==> e != LoweringError::LostCopy,
            r is Ok ==> final(self).code.copy_in@ == spec_copies(
                old(g),
                block,
                true,
                old(g).blocks@[block as int].regs@.len() as int,
            ) && final(self).code.copy_out@ == spec_copies(
                old(g),
                block,
                false,
                old(g).blocks@[block as int].regs@.len() as int,
            ),
            code_made(old(self), old(g), final(self), final(g), block, failure(r)),
    {
        self.code.copy_in = copies(g, block, true);
        self.code.copy_out = copies(g, block, false);
        let ghost s0 = *self;
        let values = values_to_compute(g, block);
        let r = self.gen_values(g, block, &values);
        proof {
            assert(copies_made(old(self), &s0, old(g), block));
            assert(values_outcome(
                &s0,
                old(g),
                self,
                g,
                block,
                spec_values_to_compute(old(g), block),
                failure(r),
            ));
        }
        r
    }

    /// Makes the code of block `block` and puts it into the block. On an
    /// error the block keeps the code that it had.
    pub fn fill_instrs(g: &mut BlockGraph, block: BlockId) -> (r: Result<(), LoweringError>)
        requires
            old(g).wf(),
            block < old(g).blocks@.len(),
        ensures
            final(g).wf(),
            final(g).extends(old(g)),
            r == Err::<(), LoweringError>(LoweringError::LostCopy) <==> lost_copy(old(g), block),
            r is Ok ==> final(g).blocks@[block as int].code.copy_in@ == spec_copies(
                old(g),
                block,
                true,
                old(g).blocks@[block as int].regs@.len() as int,
            ) && final(g).blocks@[block as int].code.copy_out@ == spec_copies(
                old(g),
                block,
                false,
                old(g).blocks@[block as int].regs@.len() as int,
            ),
            block_filled(old(g), final(g), block, failure(r)),
    {
        let ghost g0 = *g;
        if has_lost_copy(g, block) {
            proof {
                lemma_extends_is_refl(g);
                reveal(block_filled);
            }
            return Err(LoweringError::LostCopy);
        }
        let mut b = GenInstrBlock::new(g, block);
        let ghost fresh = b;
        match b.gen(g, block) {
            Ok(_) => {},
            Err(e) => {
                proof {
                    reveal(block_filled);
                    assert(code_made(&fresh, &g0, &b, g, block, Some(e)));
                }
                return Err(e);
            },
        }
        let ghost g1 = *g;
        let ghost done = b;
        let GenInstrBlock { code, .. } = b;
        g.set_code(block, code);
        proof {
            lemma_extends_is_trans(&g0, &g1, g);
            reveal(block_filled);
            assert(code_made(&fresh, &g0, &done, &g1, block, None));
            assert(code_put(&g1, g, block, done.code));
        }
        Ok(())
    }
}

impl BlockGraph {
    /// Makes the code of every block that can be reached from the head.
    /// Stops at the first block whose code cannot be made.
    pub fn gen_instrs(&mut self) -> (r: Result<(), LoweringError>)
        requires
            old(self).wf(),
        ensures
            final(self).wf(),
            final(self).extends(old(self)),
            instrs_made(old(self), final(self), failure(r)),
    {
        let ghost g0 = *self;
        let order = self.iter_blocks();
        proof {
            lemma_extends_is_refl(&g0);
            lemma_blocks_start(&g0, order@);
        }
        let mut i: usize = 0;
        while i < order.len()
            invariant
                self.wf(),
                self.extends(&g0),
                g0 == *old(self),
                order@ == g0.spec_iter_blocks(),
                blocks_filled(&g0, self, order@, i as nat),
                i <= order@.len(),
                forall|k: int| 0 <= k < order@.len() ==> #[trigger] order@[k] < g0.blocks@.len(),
            decreases order@.len() - i,
        {
            let ghost g1 = *self;
            let r = GenInstrBlock::fill_instrs(self, order[i]);
            proof {
                lemma_extends_is_trans(&g0, &g1, self);
            }
            match r {
                Ok(_) => {
                    proof {
                        lemma_blocks_step(&g0, g1, self, order@, i as nat);
                    }
                },
                Err(e) => {
                    proof {
                        lemma_blocks_failed(&g0, g1, self, order@, i as nat, e);
                    }
                    return Err(e);
                },
            }
            i += 1;
        }
        proof {
            lemma_blocks_done(&g0, self, order@);
        }
        Ok(())
    }

    /// The graph of basic blocks for a sea-of-nodes graph: its skeleton,
    /// with the slots and register transitions that its values need, and
    /// with the code of its blocks.
    pub fn from_graph(firm_graph: Graph) -> (r: Result<BlockGraph, LoweringError>)
        requires
            firm_graph.wf(),
        ensures
            r matches Ok(g) ==> g.wf() && g.firm == firm_graph && forall|b: BlockId|
                b < g.blocks@.len() ==> #[trigger] g.block_served(b),
            lowered(&firm_graph, r),
    {
        let mut graph = BlockGraph::build_skeleton(firm_graph);
        graph.construct_flows();
        let ghost g1 = graph;
        let made = graph.gen_instrs();
        let ghost g2 = graph;
        let r = match made {
            Ok(_) => {
                proof {
                    super::slots::lemma_served_kept(&g1, &graph);
                }
                Ok(graph)
            },
            Err(e) => Err(e),
        };
        proof {
            lemma_lowered(&firm_graph, g1, g2, r);
        }
        r
    }
}


impl Function {
    /// The function of the low-level representation for a method with the
    /// name `name` for the linker, `nargs` parameters and, if `has_result`
    /// holds, a result, whose body is `graph`.
    pub fn from_graph(name: Vec<u8>, nargs: usize, has_result: bool, graph: Graph) -> (r: Result<
        Function,
        LoweringError,
    >)
        requires
            graph.wf(),
        ensures
            r matches Ok(f) ==> f.name == name && f.nargs == nargs && f.returns == has_result
                && f.graph.wf() && f.graph.firm == graph,
            lowered(&graph, function_graph(r)),
    {
        match BlockGraph::from_graph(graph) {
            Ok(graph) => Ok(Function { name, nargs, returns: has_result, graph }),
            Err(e) => Err(e),
        }
    }
}

impl LIR {
    /// A program without functions.
    pub fn new() -> (l: LIR)
        ensures
            l.functions@.len() == 0,
    {
        LIR { functions: Vec::new() }
    }

    /// Every function has a well-formed graph of basic blocks.
    pub open spec fn wf(&self) -> bool {
        forall|i: int| 0 <= i < self.functions@.len() ==> (#[trigger] self.functions@[i]).graph.wf()
    }

    /// Puts a function behind the functions of the program.
    pub fn push(&mut self, f: Function)
        requires
            old(self).wf(),
            f.graph.wf(),
        ensures
            final(self).wf(),
            final(self).functions@ == old(self).functions@.push(f),
    {
        self.functions.push(f);
    }
}

} // verus!

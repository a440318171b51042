//! Elimination of code that cannot be reached: a conditional branch on a
//! constant is replaced by a jump along the way that is always taken, and
//! the way that is never taken is removed.
use super::{OptimizationResult, OptimizationResultCollector};
use crate::firm::graph::{
    kept, Graph, Mode, NodeId, NodeKind, Tarval, PN_COND_FALSE, PN_COND_TRUE,
};
use crate::firm::nodes::{
    cond_pn, lemma_out_proj_is_spec, lemma_target_is_spec, out_proj, spec_out_proj, spec_target,
    target_block,
};
use crate::firm::program_generator::{Class, Method, Program};
use vstd::prelude::*;

verus! {

/// What is to be done for a conditional branch on a constant.
#[derive(Debug, Copy, Clone, PartialEq, Eq, Structural)]
pub struct Replacement {
    /// The conditional branch.
    pub cond: NodeId,
    /// The projection for the way that is always taken.
    pub used_proj: NodeId,
    /// The projection for the way that is never taken.
    pub unused_proj: NodeId,
    /// The block that the way which is always taken leads to.
    pub target_block: NodeId,
    /// The block that the way which is never taken leads to.
    pub nontarget_block: NodeId,
    /// Whether the way that is never taken is the only way into its
    /// block.
    pub dangling: bool,
}

/// What is to be done for node `c`, if it is a conditional branch on a
/// constant whose two ways both lead to blocks.
pub open spec fn foldable(g: &Graph, c: NodeId) -> Option<Replacement> {
    if g.spec_kind(c) == NodeKind::Cond {
        match g.spec_kind(g.spec_ins(c)[0]) {
            NodeKind::Const(tv) => {
                let val = tv == Tarval::Bool(true);
                match (spec_out_proj(g, c, cond_pn(val)), spec_out_proj(g, c, cond_pn(!val))) {
                    (Some(used), Some(unused)) => match (spec_target(g, used), spec_target(g, unused)) {
                        (Some(target), Some(nontarget)) => Some(
                            Replacement {
                                cond: c,
                                used_proj: used,
                                unused_proj: unused,
                                target_block: target,
                                nontarget_block: nontarget,
                                dangling: g.spec_ins(nontarget).len() <= 1,
                            },
                        ),
                        _ => None,
                    },
                    _ => None,
                }
            },
            _ => None,
        }
    } else {
        None
    }
}

/// What is to be done for node `c`.
pub fn find_replacement(g: &Graph, c: NodeId) -> (r: Option<Replacement>)
    requires
        g.wf(),
        c < g.nodes@.len(),
    ensures
        r == foldable(g, c),
        r matches Some(rep) ==> {
            &&& rep.used_proj < g.nodes@.len()
            &&& rep.unused_proj < g.nodes@.len()
            &&& rep.target_block < g.nodes@.len()
            &&& rep.nontarget_block < g.nodes@.len()
            &&& rep.cond == c
            &&& g.spec_kind(rep.cond) == NodeKind::Cond
            &&& g.spec_kind(rep.used_proj) is Proj
            &&& g.spec_kind(rep.unused_proj) is Proj
            &&& g.spec_kind(rep.target_block) == NodeKind::Block
            &&& g.spec_kind(rep.nontarget_block) == NodeKind::Block
        },
{
    assert(g.node_wf(c as int));
    if !matches!(g.kind(c), NodeKind::Cond) {
        return None;
    }
    let tv = match g.kind(g.in_node(c, 0)) {
        NodeKind::Const(tv) => tv,
        _ => {
            return None;
        },
    };
    let val = tv.is_bool_val(true);
    let used = out_proj(
        g,
        c,
        if val {
            PN_COND_TRUE
        } else {
            PN_COND_FALSE
        },
    );
    let unused = out_proj(
        g,
        c,
        if val {
            PN_COND_FALSE
        } else {
            PN_COND_TRUE
        },
    );
    proof {
        lemma_out_proj_is_spec(g, c, cond_pn(val), used);
        lemma_out_proj_is_spec(g, c, cond_pn(!val), unused);
    }
    match (used, unused) {
        (Some(u), Some(n)) => {
            let target = target_block(g, u.0);
            let nontarget = target_block(g, n.0);
            proof {
                lemma_target_is_spec(g, u.0, target);
                lemma_target_is_spec(g, n.0, nontarget);
            }
            match (target, nontarget) {
                (Some(t), Some(nt)) => Some(
                    Replacement {
                        cond: c,
                        used_proj: u.0,
                        unused_proj: n.0,
                        target_block: t.0,
                        nontarget_block: nt.0,
                        dangling: g.in_nodes(nt.0).len() <= 1,
                    },
                ),
                _ => None,
            }
        },
        _ => None,
    }
}

/// `reps` is what is to be done for the first `upto` nodes of `g`: one
/// replacement for each conditional branch on a constant, in order.
pub open spec fn is_plan(g: &Graph, reps: Seq<Replacement>, upto: int) -> bool {
    &&& forall|i: int|
        0 <= i < reps.len() ==> (#[trigger] reps[i]).cond < upto && foldable(g, reps[i].cond)
            == Some(reps[i])
    &&& forall|i: int, j: int| 0 <= i < j < reps.len() ==> reps[i].cond < reps[j].cond
    &&& forall|c: NodeId|
        c < upto && #[trigger] foldable(g, c) is Some ==> exists|i: int|
            0 <= i < reps.len() && (#[trigger] reps[i]).cond == c
}

/// What is to be done for the conditional branches of `g`.
pub fn plan(g: &Graph) -> (reps: Vec<Replacement>)
    requires
        g.wf(),
    ensures
        is_plan(g, reps@, g.nodes@.len() as int),
        reps@.len() <= g.nodes@.len(),
        forall|i: int|
            0 <= i < reps@.len() ==> {
                let rep = #[trigger] reps@[i];
                &&& rep.cond < g.nodes@.len()
                &&& rep.used_proj < g.nodes@.len()
                &&& rep.unused_proj < g.nodes@.len()
                &&& rep.target_block < g.nodes@.len()
                &&& rep.nontarget_block < g.nodes@.len()
                &&& g.spec_kind(rep.unused_proj) is Proj
                &&& g.spec_kind(rep.used_proj) is Proj
                &&& g.spec_kind(rep.cond) == NodeKind::Cond
                &&& g.spec_kind(rep.target_block) == NodeKind::Block
                &&& g.spec_kind(rep.nontarget_block) == NodeKind::Block
            },
{
    let mut reps: Vec<Replacement> = Vec::new();
    let n = g.len();
    let mut c: usize = 0;
    while c < n
        invariant
            g.wf(),
            n == g.nodes@.len(),
            c <= n,
            reps@.len() <= c,
            is_plan(g, reps@, c as int),
            forall|i: int|
                0 <= i < reps@.len() ==> {
                    let rep = #[trigger] reps@[i];
                    &&& rep.cond < g.nodes@.len()
                    &&& rep.used_proj < g.nodes@.len()
                    &&& rep.unused_proj < g.nodes@.len()
                    &&& rep.target_block < g.nodes@.len()
                    &&& rep.nontarget_block < g.nodes@.len()
                    &&& g.spec_kind(rep.unused_proj) is Proj
                    &&& g.spec_kind(rep.used_proj) is Proj
                    &&& g.spec_kind(rep.cond) == NodeKind::Cond
                    &&& g.spec_kind(rep.target_block) == NodeKind::Block
                    &&& g.spec_kind(rep.nontarget_block) == NodeKind::Block
                },
        decreases n - c,
    {
        let ghost before = reps@;
        match find_replacement(g, c) {
            Some(rep) => {
                reps.push(rep);
                proof {
                    assert(reps@[before.len() as int] == rep);
                    assert forall|x: NodeId|
                        x < c + 1 && #[trigger] foldable(g, x) is Some implies exists|i: int|
                        0 <= i < reps@.len() && (#[trigger] reps@[i]).cond == x by {
                        if x < c {
                            let i = choose|i: int|
                                0 <= i < before.len() && (#[trigger] before[i]).cond == x;
                            assert(reps@[i].cond == x);
                        } else {
                            assert(reps@[before.len() as int].cond == x);
                        }
                    }
                }
            },
            None => {
                proof {
                    assert forall|x: NodeId|
                        x < c + 1 && #[trigger] foldable(g, x) is Some implies exists|i: int|
                        0 <= i < reps@.len() && (#[trigger] reps@[i]).cond == x by {
                        let i = choose|i: int|
                            0 <= i < before.len() && (#[trigger] before[i]).cond == x;
                        assert(reps@[i].cond == x);
                    }
                }
            },
        }
        c += 1;
    }
    reps
}

/// The number of projections among the first `n` nodes of `g`.
pub open spec fn projs(g: &Graph, n: nat) -> nat
    decreases n,
{
    if n == 0 {
        0
    } else {
        projs(g, (n - 1) as nat) + (if g.spec_kind((n - 1) as NodeId) is Proj {
            1nat
        } else {
            0nat
        })
    }
}

/// The number of projections of `g`. No optimization adds one, and the
/// replacement of a branch removes one.
pub open spec fn projections(g: &Graph) -> nat {
    projs(g, g.nodes@.len())
}

/// Where every projection of `new` is one of `old`, `new` has no more of
/// them.
pub proof fn lemma_projs_le(old: &Graph, new: &Graph, n: nat)
    requires
        n <= usize::MAX,
        forall|m: NodeId| m < n && #[trigger] new.spec_kind(m) is Proj ==> old.spec_kind(m) is Proj,
    ensures
        projs(new, n) <= projs(old, n),
    decreases n,
{
    if n > 0 {
        lemma_projs_le(old, new, (n - 1) as nat);
    }
}

/// Where moreover a projection of `old` is none of `new`, `new` has
/// fewer of them.
pub proof fn lemma_projs_lt(old: &Graph, new: &Graph, n: nat, c: NodeId)
    requires
        n <= usize::MAX,
        forall|m: NodeId| m < n && #[trigger] new.spec_kind(m) is Proj ==> old.spec_kind(m) is Proj,
        c < n,
        old.spec_kind(c) is Proj,
        !(new.spec_kind(c) is Proj),
    ensures
        projs(new, n) < projs(old, n),
    decreases n,
{
    if n - 1 == c {
        lemma_projs_le(old, new, (n - 1) as nat);
    } else {
        lemma_projs_lt(old, new, (n - 1) as nat, c);
    }
}

/// Nodes that are no projections do not count.
pub proof fn lemma_projs_tail(g: &Graph, a: nat, b: nat)
    requires
        a <= b <= usize::MAX,
        forall|m: NodeId| a <= m < b ==> !(#[trigger] g.spec_kind(m) is Proj),
    ensures
        projs(g, b) == projs(g, a),
    decreases b - a,
{
    if a < b {
        lemma_projs_tail(g, a, (b - 1) as nat);
    }
}

/// None of the nodes that `g` has more than `g0` is a projection.
pub open spec fn fresh_ok(g0: &Graph, g: &Graph) -> bool {
    forall|m: NodeId|
        g0.nodes@.len() <= m < g.nodes@.len() ==> !(#[trigger] g.spec_kind(m) is Proj)
}

proof fn lemma_fresh_kept(g0: &Graph, g1: &Graph, g: &Graph, added: bool)
    requires
        fresh_ok(g0, g1),
        kinds_kept(g1, g),
        g0.nodes@.len() <= g1.nodes@.len(),
        g.nodes@.len() == g1.nodes@.len() + (if added {
            1int
        } else {
            0int
        }),
        added ==> !(g.spec_kind(g1.nodes@.len() as NodeId) is Proj),
    ensures
        fresh_ok(g0, g),
{
    assert forall|m: NodeId| g0.nodes@.len() <= m < g.nodes@.len() implies !(
    #[trigger] g.spec_kind(m) is Proj) by {
        if m < g1.nodes@.len() {
            assert(!(g1.spec_kind(m) is Proj));
        }
    }
}

/// Graph `new` is graph `old` after steps that keep the kind of every
/// node but of those that are removed, and that never remove a block.
pub open spec fn kinds_kept(old: &Graph, new: &Graph) -> bool {
    &&& old.nodes@.len() <= new.nodes@.len()
    &&& forall|m: NodeId|
        m < old.nodes@.len() ==> #[trigger] new.spec_kind(m) == old.spec_kind(m) || (new.spec_kind(m)
            == NodeKind::Bad && old.spec_kind(m) != NodeKind::Block)
}

/// An entry that is not a removed node is still there when the removed
/// nodes are taken out.
pub proof fn lemma_kept_contains(g: &Graph, ins: Seq<NodeId>, x: NodeId)
    requires
        ins.contains(x),
        g.spec_kind(x) != NodeKind::Bad,
    ensures
        kept(ins, g.alive_mask(ins)).contains(x),
    decreases ins.len(),
{
    let mask = g.alive_mask(ins);
    let i = choose|i: int| 0 <= i < ins.len() && ins[i] == x;
    assert(mask.drop_last() =~= g.alive_mask(ins.drop_last()));
    if i == ins.len() - 1 {
        let r = kept(ins, mask);
        assert(r.last() == x);
        assert(r[r.len() - 1] == x);
    } else {
        assert(ins.drop_last()[i] == x);
        assert(ins.drop_last().contains(x));
        lemma_kept_contains(g, ins.drop_last(), x);
        let rest = kept(ins.drop_last(), mask.drop_last());
        let j = choose|j: int| 0 <= j < rest.len() && rest[j] == x;
        if mask.last() {
            assert(kept(ins, mask)[j] == x);
        }
    }
}

/// Removes unreachable code from one graph.
pub struct UnreachableCodeElimination {
    pub graph: Graph,
}

impl UnreachableCodeElimination {
    pub fn new(graph: Graph) -> (u: Self)
        ensures
            u.graph == graph,
    {
        Self { graph }
    }

    /// Replaces every conditional branch on a constant by a jump along
    /// the way that is always taken: the branch and its projections are
    /// removed, and the block that the jump leads to is
    /// kept alive, since a loop that is never left cannot be found from
    /// the end of the method. Where the way that is never taken was the
    /// only way into its block, the nodes of that block are removed as
    /// well. The graph is changed exactly when it has such a branch.
    pub fn run(&mut self) -> (r: OptimizationResult)
        requires
            old(self).graph.wf(),
            2 * old(self).graph.nodes@.len() < usize::MAX,
        ensures
            final(self).graph.wf(),
            r == OptimizationResult::Changed <==> exists|c: NodeId|
                c < old(self).graph.nodes@.len() && #[trigger] foldable(&old(self).graph, c) is Some,
            forall|c: NodeId|
                c < old(self).graph.nodes@.len() && #[trigger] foldable(&old(self).graph, c) is Some
                    ==> {
                    let rep = foldable(&old(self).graph, c)->0;
                    &&& final(self).graph.spec_kind(rep.unused_proj) == NodeKind::Bad
                    &&& final(self).graph.keep_alive@.contains(rep.target_block)
                    &&& final(self).graph.spec_kind(rep.target_block) == NodeKind::Block
                },
            optimized(&old(self).graph, &final(self).graph),
    {
        run_on(&mut self.graph)
    }
}

/// Graph `n` is graph `o` but for its nodes and the nodes that it keeps
/// alive.
pub open spec fn same_frame(o: &Graph, n: &Graph) -> bool {
    n.entities == o.entities && n.start_block == o.start_block && n.end_block == o.end_block
}

/// Graph `n` is graph `o` with one more node: a jump in block `block`.
pub open spec fn jump_added(o: &Graph, n: &Graph, block: NodeId) -> bool {
    let id = o.nodes@.len() as NodeId;
    &&& same_frame(o, n)
    &&& n.keep_alive == o.keep_alive
    &&& n.nodes@.len() == o.nodes@.len() + 1
    &&& n.nodes@.subrange(0, o.nodes@.len() as int) == o.nodes@
    &&& n.spec_kind(id) == NodeKind::Jmp
    &&& n.spec_mode(id) == Mode::X
    &&& n.spec_block(id) == block
    &&& n.spec_ins(id).len() == 0
}

/// Graph `n` is graph `o` with node `new` in every place of an operand
/// where node `old` stood.
pub open spec fn exchanged(o: &Graph, n: &Graph, old: NodeId, new: NodeId) -> bool {
    &&& same_frame(o, n)
    &&& n.keep_alive == o.keep_alive
    &&& n.nodes@.len() == o.nodes@.len()
    &&& forall|m: NodeId|
        m < o.nodes@.len() ==> {
            &&& #[trigger] n.spec_kind(m) == o.spec_kind(m)
            &&& n.spec_mode(m) == o.spec_mode(m)
            &&& n.spec_block(m) == o.spec_block(m)
            &&& n.spec_ins(m) == crate::firm::graph::replaced(o.spec_ins(m), old, new)
        }
}

/// Node `x` of graph `n` is what is left of a node that was removed.
pub open spec fn is_removed(o: &Graph, n: &Graph, x: NodeId) -> bool {
    &&& n.spec_kind(x) == NodeKind::Bad
    &&& n.spec_mode(x) == Mode::Bad
    &&& n.spec_ins(x).len() == 0
    &&& n.spec_block(x) == o.spec_block(x)
}

/// Graph `n` is graph `o` without node `x`.
pub open spec fn marked_bad(o: &Graph, n: &Graph, x: NodeId) -> bool {
    &&& same_frame(o, n)
    &&& n.keep_alive == o.keep_alive
    &&& n.nodes@.len() == o.nodes@.len()
    &&& is_removed(o, n, x)
    &&& forall|m: NodeId|
        m < o.nodes@.len() && m != x ==> #[trigger] n.nodes@[m as int] == o.nodes@[m as int]
}

/// Graph `n` is graph `o` with node `x` kept alive.
pub open spec fn kept_alive(o: &Graph, n: &Graph, x: NodeId) -> bool {
    &&& same_frame(o, n)
    &&& n.nodes == o.nodes
    &&& n.keep_alive@ == o.keep_alive@.push(x)
}

/// The graphs `g1` to `g5` lead from graph `o` to graph `n` by the steps
/// of replacement `rep`: a jump is added in the block of the branch; the
/// users of the projection for the way that is always taken use the jump;
/// the projection for the way that is never taken, the other projection
/// and the branch are removed; and the target block is kept alive.
pub open spec fn replacement_steps(
    o: &Graph,
    g1: &Graph,
    g2: &Graph,
    g3: &Graph,
    g4: &Graph,
    g5: &Graph,
    n: &Graph,
    rep: &Replacement,
) -> bool {
    &&& jump_added(o, g1, o.spec_block(rep.cond))
    &&& exchanged(g1, g2, rep.used_proj, o.nodes@.len() as NodeId)
    &&& marked_bad(g2, g3, rep.unused_proj)
    &&& marked_bad(g3, g4, rep.used_proj)
    &&& marked_bad(g4, g5, rep.cond)
    &&& kept_alive(g5, n, rep.target_block)
}

/// Replacement `rep` makes graph `n` of graph `o`.
#[verifier::opaque]
pub open spec fn replacement_made(o: &Graph, n: &Graph, rep: &Replacement) -> bool {
    exists|g1: Graph, g2: Graph, g3: Graph, g4: Graph, g5: Graph| #[trigger]
        replacement_steps(o, &g1, &g2, &g3, &g4, &g5, n, rep)
}

/// Graph `n` is graph `o` without the nodes of block `block`, the block
/// itself excepted.
pub open spec fn children_removed(o: &Graph, n: &Graph, block: NodeId) -> bool {
    &&& same_frame(o, n)
    &&& n.keep_alive == o.keep_alive
    &&& n.nodes@.len() == o.nodes@.len()
    &&& forall|m: NodeId|
        m < o.nodes@.len() ==> (if o.spec_block(m) == block && o.spec_kind(m) != NodeKind::Block {
            is_removed(o, n, m)
        } else {
            #[trigger] n.nodes@[m as int] == o.nodes@[m as int]
        })
}

/// What is done for replacement `rep` once all ways are replaced: where
/// the way that is never taken was the only way into its block, the
/// nodes of that block are removed.
pub open spec fn cleared(o: &Graph, n: &Graph, rep: &Replacement) -> bool {
    if rep.dangling {
        children_removed(o, n, rep.nontarget_block)
    } else {
        *n == *o
    }
}

/// Graph number `i + 1` is made of graph number `i` by replacement
/// number `i`.
pub open spec fn replaced_at(graphs: Seq<Graph>, reps: Seq<Replacement>, i: int) -> bool {
    replacement_made(&graphs[i], &graphs[i + 1], &reps[i])
}

/// The first `k` replacements make graph `n` of graph `o`, one after the
/// other.
#[verifier::opaque]
pub open spec fn all_replaced(o: &Graph, n: &Graph, reps: Seq<Replacement>, k: nat) -> bool {
    exists|graphs: Seq<Graph>|
        graphs.len() == k + 1 && graphs[0] == *o && graphs[k as int] == *n && forall|i: int|
            0 <= i < k ==> #[trigger] replaced_at(graphs, reps, i)
}

/// Graph number `i + 1` is made of graph number `i` by what is done for
/// replacement number `i` once all ways are replaced.
pub open spec fn cleared_at(graphs: Seq<Graph>, reps: Seq<Replacement>, i: int) -> bool {
    cleared(&graphs[i], &graphs[i + 1], &reps[i])
}

/// What is done for the first `k` replacements once all ways are
/// replaced makes graph `n` of graph `o`.
#[verifier::opaque]
pub open spec fn all_cleared(o: &Graph, n: &Graph, reps: Seq<Replacement>, k: nat) -> bool {
    exists|graphs: Seq<Graph>|
        graphs.len() == k + 1 && graphs[0] == *o && graphs[k as int] == *n && forall|i: int|
            0 <= i < k ==> #[trigger] cleared_at(graphs, reps, i)
}

/// Graph `n` is graph `o` with the removed nodes taken out of the
/// operands of the blocks and of the nodes that are kept alive.
pub open spec fn bads_removed(o: &Graph, n: &Graph) -> bool {
    &&& same_frame(o, n)
    &&& n.nodes@.len() == o.nodes@.len()
    &&& forall|m: NodeId|
        m < o.nodes@.len() ==> {
            &&& #[trigger] n.spec_kind(m) == o.spec_kind(m)
            &&& n.spec_mode(m) == o.spec_mode(m)
            &&& n.spec_block(m) == o.spec_block(m)
            &&& n.spec_ins(m) == o.cleaned_ins(m)
        }
    &&& n.keep_alive@ == kept(o.keep_alive@, o.alive_mask(o.keep_alive@))
}

/// Unreachable code is removed from graph `o`, which gives graph `n`:
/// every conditional branch on a constant is replaced, in the order of
/// the nodes; then the blocks that cannot be entered any more are
/// emptied; and then the removed nodes are taken out.
#[verifier::opaque]
pub open spec fn optimized(o: &Graph, n: &Graph) -> bool {
    exists|reps: Seq<Replacement>, a: Graph, b: Graph|
        is_plan(o, reps, o.nodes@.len() as int) && #[trigger] all_replaced(
            o,
            &a,
            reps,
            reps.len(),
        ) && #[trigger] all_cleared(&a, &b, reps, reps.len()) && bads_removed(&b, n)
}

proof fn lemma_replaced_start(o: &Graph, reps: Seq<Replacement>)
    ensures
        all_replaced(o, o, reps, 0),
{
    reveal(all_replaced);
    let graphs = seq![*o];
    assert(graphs.len() == 1 && graphs[0] == *o);
}

proof fn lemma_replaced_step(o: &Graph, m: Graph, n: &Graph, reps: Seq<Replacement>, k: nat)
    requires
        all_replaced(o, &m, reps, k),
        k < reps.len(),
        replacement_made(&m, n, &reps[k as int]),
    ensures
        all_replaced(o, n, reps, k + 1),
{
    reveal(all_replaced);
    let graphs = choose|graphs: Seq<Graph>|
        graphs.len() == k + 1 && graphs[0] == *o && graphs[k as int] == m && forall|i: int|
            0 <= i < k ==> #[trigger] replaced_at(graphs, reps, i);
    let more = graphs.push(*n);
    assert forall|i: int| 0 <= i < k + 1 implies #[trigger] replaced_at(more, reps, i) by {
        if i < k {
            assert(replaced_at(graphs, reps, i));
        }
    }
    assert(more.len() == k + 2 && more[0] == *o && more[(k + 1) as int] == *n);
}

proof fn lemma_cleared_start(o: &Graph, reps: Seq<Replacement>)
    ensures
        all_cleared(o, o, reps, 0),
{
    reveal(all_cleared);
    let graphs = seq![*o];
    assert(graphs.len() == 1 && graphs[0] == *o);
}

proof fn lemma_cleared_step(o: &Graph, m: Graph, n: &Graph, reps: Seq<Replacement>, k: nat)
    requires
        all_cleared(o, &m, reps, k),
        k < reps.len(),
        cleared(&m, n, &reps[k as int]),
    ensures
        all_cleared(o, n, reps, k + 1),
{
    reveal(all_cleared);
    let graphs = choose|graphs: Seq<Graph>|
        graphs.len() == k + 1 && graphs[0] == *o && graphs[k as int] == m && forall|i: int|
            0 <= i < k ==> #[trigger] cleared_at(graphs, reps, i);
    let more = graphs.push(*n);
    assert forall|i: int| 0 <= i < k + 1 implies #[trigger] cleared_at(more, reps, i) by {
        if i < k {
            assert(cleared_at(graphs, reps, i));
        }
    }
    assert(more.len() == k + 2 && more[0] == *o && more[(k + 1) as int] == *n);
}

proof fn lemma_optimized(o: &Graph, reps: Seq<Replacement>, a: Graph, b: Graph, n: &Graph)
    requires
        is_plan(o, reps, o.nodes@.len() as int),
        all_replaced(o, &a, reps, reps.len()),
        all_cleared(&a, &b, reps, reps.len()),
        bads_removed(&b, n),
    ensures
        optimized(o, n),
{
    reveal(optimized);
}

/// Adds the jump for a replacement, makes the users of the projection for
/// the way that is always taken use the jump, removes the branch and its
/// two projections, and keeps the target block alive.
fn replace(g: &mut Graph, rep: &Replacement)
    requires
        old(g).wf(),
        old(g).nodes@.len() < usize::MAX,
        rep.cond < old(g).nodes@.len(),
        rep.used_proj < old(g).nodes@.len(),
        rep.unused_proj < old(g).nodes@.len(),
        rep.target_block < old(g).nodes@.len(),
        old(g).spec_kind(rep.unused_proj) != NodeKind::Block,
        old(g).spec_kind(rep.used_proj) != NodeKind::Block,
        old(g).spec_kind(rep.cond) != NodeKind::Block,
    ensures
        final(g).spec_kind(rep.cond) == NodeKind::Bad,
        final(g).spec_kind(rep.used_proj) == NodeKind::Bad,
        final(g).wf(),
        final(g).nodes@.len() == old(g).nodes@.len() + 1,
        kinds_kept(old(g), final(g)),
        final(g).spec_kind(rep.unused_proj) == NodeKind::Bad,
        final(g).keep_alive@ == old(g).keep_alive@.push(rep.target_block),
        !(final(g).spec_kind(old(g).nodes@.len() as NodeId) is Proj),
        replacement_made(old(g), final(g), rep),
{
    let ghost g0 = *g;
    let block = g.block_of(rep.cond);
    let jmp = g.add_node(NodeKind::Jmp, Mode::X, block, Vec::new());
    let ghost g1 = *g;
    proof {
        assert forall|m: NodeId| m < g0.nodes@.len() implies #[trigger] g1.spec_kind(m)
            == g0.spec_kind(m) by {
            assert(g1.nodes@.subrange(0, g0.nodes@.len() as int)[m as int] == g1.nodes@[m as int]);
        }
    }
    g.exchange(rep.used_proj, jmp);
    let ghost g2 = *g;
    proof {
        assert(g2.spec_kind(rep.unused_proj) == g1.spec_kind(rep.unused_proj));
    }
    g.mark_as_bad(rep.unused_proj);
    let ghost g3 = *g;
    proof {
        assert(g2.spec_kind(rep.used_proj) == g1.spec_kind(rep.used_proj));
        assert(g2.spec_kind(rep.cond) == g1.spec_kind(rep.cond));
        if rep.used_proj != rep.unused_proj {
            assert(g3.nodes@[rep.used_proj as int] == g2.nodes@[rep.used_proj as int]);
        }
    }
    g.mark_as_bad(rep.used_proj);
    let ghost g4 = *g;
    proof {
        if rep.cond != rep.unused_proj {
            assert(g3.nodes@[rep.cond as int] == g2.nodes@[rep.cond as int]);
        }
        if rep.cond != rep.used_proj {
            assert(g4.nodes@[rep.cond as int] == g3.nodes@[rep.cond as int]);
        }
        if rep.unused_proj != rep.used_proj {
            assert(g4.nodes@[rep.unused_proj as int] == g3.nodes@[rep.unused_proj as int]);
        }
    }
    g.mark_as_bad(rep.cond);
    let ghost g5 = *g;
    proof {
        if rep.unused_proj != rep.cond {
            assert(g5.nodes@[rep.unused_proj as int] == g4.nodes@[rep.unused_proj as int]);
        }
        if rep.used_proj != rep.cond {
            assert(g5.nodes@[rep.used_proj as int] == g4.nodes@[rep.used_proj as int]);
        }
    }
    g.keep_alive(rep.target_block);
    proof {
        reveal(replacement_made);
        assert(replacement_steps(&g0, &g1, &g2, &g3, &g4, &g5, g, rep));
        let j = g0.nodes@.len() as NodeId;
        assert(g1.spec_kind(j) == NodeKind::Jmp);
        assert(g2.spec_kind(j) == g1.spec_kind(j));
        if j != rep.unused_proj {
            assert(g3.nodes@[j as int] == g2.nodes@[j as int]);
        }
        if j != rep.used_proj {
            assert(g4.nodes@[j as int] == g3.nodes@[j as int]);
        }
        if j != rep.cond {
            assert(g5.nodes@[j as int] == g4.nodes@[j as int]);
        }
        assert(!(g.spec_kind(j) is Proj));
        assert forall|m: NodeId| m < g0.nodes@.len() implies #[trigger] g.spec_kind(m)
            == g0.spec_kind(m) || (g.spec_kind(m) == NodeKind::Bad && g0.spec_kind(m)
            != NodeKind::Block) by {
            assert(g1.spec_kind(m) == g0.spec_kind(m));
            assert(g2.spec_kind(m) == g1.spec_kind(m));
            if m != rep.unused_proj {
                assert(g3.nodes@[m as int] == g2.nodes@[m as int]);
            }
            if m != rep.used_proj {
                assert(g4.nodes@[m as int] == g3.nodes@[m as int]);
            }
            if m != rep.cond {
                assert(g5.nodes@[m as int] == g4.nodes@[m as int]);
            }
        }
    }
}

/// Removes the nodes of block `block`, but not the block itself.
fn remove_children(g: &mut Graph, block: NodeId)
    requires
        old(g).wf(),
        block < old(g).nodes@.len(),
    ensures
        final(g).wf(),
        final(g).nodes@.len() == old(g).nodes@.len(),
        kinds_kept(old(g), final(g)),
        final(g).keep_alive == old(g).keep_alive,
        forall|m: NodeId|
            m < old(g).nodes@.len() && old(g).spec_kind(m) == NodeKind::Bad ==> #[trigger] final(g).spec_kind(m) == NodeKind::Bad,
        children_removed(old(g), final(g), block),
{
    let ghost g0 = *g;
    let n = g.len();
    let mut m: usize = 0;
    while m < n
        invariant
            g.wf(),
            n == g.nodes@.len(),
            n == g0.nodes@.len(),
            m <= n,
            same_frame(&g0, g),
            forall|x: NodeId|
                x < n ==> (if x < m && g0.spec_block(x) == block && g0.spec_kind(x)
                    != NodeKind::Block {
                    is_removed(&g0, g, x)
                } else {
                    #[trigger] g.nodes@[x as int] == g0.nodes@[x as int]
                }),
            kinds_kept(&g0, g),
            g.keep_alive == g0.keep_alive,
            forall|x: NodeId|
                x < n && g0.spec_kind(x) == NodeKind::Bad ==> #[trigger] g.spec_kind(x)
                    == NodeKind::Bad,
        decreases n - m,
    {
        if g.block_of(m) == block && !matches!(g.kind(m), NodeKind::Block) {
            let ghost g1 = *g;
            g.mark_as_bad(m);
            proof {
                assert forall|x: NodeId| x < g0.nodes@.len() implies #[trigger] g.spec_kind(x)
                    == g0.spec_kind(x) || (g.spec_kind(x) == NodeKind::Bad && g0.spec_kind(x)
                    != NodeKind::Block) by {
                    assert(g1.spec_kind(x) == g0.spec_kind(x) || (g1.spec_kind(x) == NodeKind::Bad
                        && g0.spec_kind(x) != NodeKind::Block));
                    if x != m {
                        assert(g.nodes@[x as int] == g1.nodes@[x as int]);
                    }
                }
                assert forall|x: NodeId|
                    x < n && g0.spec_kind(x) == NodeKind::Bad implies #[trigger] g.spec_kind(x)
                    == NodeKind::Bad by {
                    assert(g1.spec_kind(x) == NodeKind::Bad);
                    if x != m {
                        assert(g.nodes@[x as int] == g1.nodes@[x as int]);
                    }
                }
            }
        }
        m += 1;
    }
}

/// Removes unreachable code from graph `g`, as
/// `UnreachableCodeElimination::run` does.
pub fn run_on(g: &mut Graph) -> (r: OptimizationResult)
    requires
        old(g).wf(),
        2 * old(g).nodes@.len() < usize::MAX,
    ensures
        final(g).wf(),
        r == OptimizationResult::Changed <==> exists|c: NodeId|
            c < old(g).nodes@.len() && #[trigger] foldable(old(g), c) is Some,
        forall|c: NodeId|
            c < old(g).nodes@.len() && #[trigger] foldable(old(g), c) is Some ==> {
                let rep = foldable(old(g), c)->0;
                &&& final(g).spec_kind(rep.unused_proj) == NodeKind::Bad
                &&& final(g).keep_alive@.contains(rep.target_block)
                &&& final(g).spec_kind(rep.target_block) == NodeKind::Block
            },
        projections(final(g)) <= projections(old(g)),
        r == OptimizationResult::Changed ==> projections(final(g)) < projections(old(g)),
        optimized(old(g), final(g)),
{
    let ghost g0 = *g;
    let reps = plan(g);
    proof {
        lemma_replaced_start(&g0, reps@);
    }
    let mut i: usize = 0;
    while i < reps.len()
        invariant
            g.wf(),
            i <= reps@.len(),
            reps@.len() <= g0.nodes@.len(),
            2 * g0.nodes@.len() < usize::MAX,
            g.nodes@.len() <= g0.nodes@.len() + i,
            kinds_kept(&g0, g),
            fresh_ok(&g0, g),
            all_replaced(&g0, g, reps@, i as nat),
            forall|k: int|
                0 <= k < reps@.len() ==> {
                    let rep = #[trigger] reps@[k];
                    &&& rep.cond < g0.nodes@.len()
                    &&& rep.used_proj < g0.nodes@.len()
                    &&& rep.unused_proj < g0.nodes@.len()
                    &&& rep.target_block < g0.nodes@.len()
                    &&& rep.nontarget_block < g0.nodes@.len()
                    &&& g0.spec_kind(rep.unused_proj) is Proj
                    &&& g0.spec_kind(rep.used_proj) is Proj
                    &&& g0.spec_kind(rep.cond) == NodeKind::Cond
                    &&& g0.spec_kind(rep.target_block) == NodeKind::Block
                    &&& g0.spec_kind(rep.nontarget_block) == NodeKind::Block
                },
            forall|k: int|
                0 <= k < i ==> g.spec_kind((#[trigger] reps@[k]).unused_proj) == NodeKind::Bad
                    && g.keep_alive@.contains(reps@[k].target_block),
        decreases reps@.len() - i,
    {
        let rep = reps[i];
        {
            let ghost g1 = *g;
            proof {
                assert(g1.spec_kind(rep.unused_proj) == g0.spec_kind(rep.unused_proj)
                    || g1.spec_kind(rep.unused_proj) == NodeKind::Bad);
                assert(g1.spec_kind(rep.used_proj) == g0.spec_kind(rep.used_proj) || g1.spec_kind(
                    rep.used_proj,
                ) == NodeKind::Bad);
                assert(g1.spec_kind(rep.cond) == g0.spec_kind(rep.cond) || g1.spec_kind(rep.cond)
                    == NodeKind::Bad);
            }
            replace(g, &rep);
            proof {
                lemma_fresh_kept(&g0, &g1, g, true);
                lemma_replaced_step(&g0, g1, g, reps@, i as nat);
                assert forall|m: NodeId| m < g0.nodes@.len() implies #[trigger] g.spec_kind(m)
                    == g0.spec_kind(m) || (g.spec_kind(m) == NodeKind::Bad && g0.spec_kind(m)
                    != NodeKind::Block) by {
                    assert(g1.spec_kind(m) == g0.spec_kind(m) || (g1.spec_kind(m) == NodeKind::Bad
                        && g0.spec_kind(m) != NodeKind::Block));
                    assert(g.spec_kind(m) == g1.spec_kind(m) || (g.spec_kind(m) == NodeKind::Bad
                        && g1.spec_kind(m) != NodeKind::Block));
                }
                assert forall|k: int| 0 <= k < i + 1 implies g.spec_kind(
                    (#[trigger] reps@[k]).unused_proj,
                ) == NodeKind::Bad && g.keep_alive@.contains(reps@[k].target_block) by {
                    if k < i {
                        let u = reps@[k].unused_proj;
                        assert(g1.spec_kind(u) == NodeKind::Bad);
                        assert(g.spec_kind(u) == g1.spec_kind(u) || g.spec_kind(u) == NodeKind::Bad);
                        let t = reps@[k].target_block;
                        let w = choose|w: int|
                            0 <= w < g1.keep_alive@.len() && g1.keep_alive@[w] == t;
                        assert(g.keep_alive@[w] == t);
                    } else {
                        assert(g.keep_alive@[g1.keep_alive@.len() as int] == rep.target_block);
                    }
                }
            }
        }
        i += 1;
    }
    let ghost ga = *g;
    proof {
        lemma_cleared_start(&ga, reps@);
    }
    let mut j: usize = 0;
    while j < reps.len()
        invariant
            g.wf(),
            j <= reps@.len(),
            kinds_kept(&g0, g),
            fresh_ok(&g0, g),
            g.nodes@.len() < usize::MAX,
            all_cleared(&ga, g, reps@, j as nat),
            forall|k: int|
                0 <= k < reps@.len() ==> {
                    let rep = #[trigger] reps@[k];
                    &&& rep.unused_proj < g0.nodes@.len()
                    &&& rep.target_block < g0.nodes@.len()
                    &&& rep.nontarget_block < g0.nodes@.len()
                    &&& g0.spec_kind(rep.target_block) == NodeKind::Block
                },
            forall|k: int|
                0 <= k < reps@.len() ==> g.spec_kind((#[trigger] reps@[k]).unused_proj)
                    == NodeKind::Bad && g.keep_alive@.contains(reps@[k].target_block),
        decreases reps@.len() - j,
    {
        let ghost gj = *g;
        if reps[j].dangling {
            let ghost g1 = *g;
            remove_children(g, reps[j].nontarget_block);
            proof {
                lemma_fresh_kept(&g0, &g1, g, false);
                assert forall|m: NodeId| m < g0.nodes@.len() implies #[trigger] g.spec_kind(m)
                    == g0.spec_kind(m) || (g.spec_kind(m) == NodeKind::Bad && g0.spec_kind(m)
                    != NodeKind::Block) by {
                    assert(g1.spec_kind(m) == g0.spec_kind(m) || (g1.spec_kind(m) == NodeKind::Bad
                        && g0.spec_kind(m) != NodeKind::Block));
                    assert(g.spec_kind(m) == g1.spec_kind(m) || (g.spec_kind(m) == NodeKind::Bad
                        && g1.spec_kind(m) != NodeKind::Block));
                }
                assert forall|k: int| 0 <= k < reps@.len() implies g.spec_kind(
                    (#[trigger] reps@[k]).unused_proj,
                ) == NodeKind::Bad && g.keep_alive@.contains(reps@[k].target_block) by {
                    assert(g1.spec_kind(reps@[k].unused_proj) == NodeKind::Bad);
                }
            }
        }
        proof {
            lemma_cleared_step(&ga, gj, g, reps@, j as nat);
        }
        j += 1;
    }
    let ghost g2 = *g;
    g.remove_bads();
    proof {
        assert(bads_removed(&g2, g));
        lemma_optimized(&g0, reps@, ga, g2, g);
        assert forall|c: NodeId|
            c < g0.nodes@.len() && #[trigger] foldable(&g0, c) is Some implies {
            let rep = foldable(&g0, c)->0;
            &&& g.spec_kind(rep.unused_proj) == NodeKind::Bad
            &&& g.keep_alive@.contains(rep.target_block)
            &&& g.spec_kind(rep.target_block) == NodeKind::Block
        } by {
            let k = choose|k: int| 0 <= k < reps@.len() && (#[trigger] reps@[k]).cond == c;
            let rep = reps@[k];
            assert(foldable(&g0, rep.cond) == Some(rep));
            assert(g2.spec_kind(rep.unused_proj) == NodeKind::Bad);
            assert(g.spec_kind(rep.unused_proj) == g2.spec_kind(rep.unused_proj));
            let t = rep.target_block;
            assert(g2.spec_kind(t) == g0.spec_kind(t) || g2.spec_kind(t) == NodeKind::Bad
                && g0.spec_kind(t) != NodeKind::Block);
            assert(g.spec_kind(t) == g2.spec_kind(t));
            lemma_kept_contains(&g2, g2.keep_alive@, t);
        }
    }
    proof {
        let n0 = g0.nodes@.len();
        assert forall|m: NodeId| m < n0 && #[trigger] g.spec_kind(m) is Proj implies g0.spec_kind(
            m,
        ) is Proj by {
            assert(g2.spec_kind(m) == g0.spec_kind(m) || g2.spec_kind(m) == NodeKind::Bad);
        }
        assert forall|m: NodeId| n0 <= m < g.nodes@.len() implies !(#[trigger] g.spec_kind(m) is Proj) by {
            assert(!(g2.spec_kind(m) is Proj));
        }
        lemma_projs_tail(g, n0, g.nodes@.len());
        lemma_projs_le(&g0, g, n0);
        if reps@.len() > 0 {
            let rep = reps@[0];
            assert(foldable(&g0, rep.cond) == Some(rep));
            lemma_projs_lt(&g0, g, n0, rep.unused_proj);
        }
    }
    if reps.len() > 0 {
        proof {
            assert(foldable(&g0, reps@[0].cond) is Some);
        }
        OptimizationResult::Changed
    } else {
        OptimizationResult::Unchanged
    }
}


/// Method `n` is method `o` with unreachable code removed from its
/// graph, if it has one.
pub open spec fn method_optimized(o: &Method, n: &Method) -> bool {
    &&& n.name == o.name
    &&& n.ld_name == o.ld_name
    &&& n.entity == o.entity
    &&& match (o.graph, n.graph) {
        (Some(a), Some(b)) => optimized(&a, &b),
        (None, None) => true,
        _ => false,
    }
}

/// Class `n` is class `o` with unreachable code removed from the graphs
/// of its methods.
pub open spec fn class_optimized(o: &Class, n: &Class) -> bool {
    &&& n.name == o.name
    &&& n.ld_name == o.ld_name
    &&& n.entity == o.entity
    &&& n.fields == o.fields
    &&& n.methods@.len() == o.methods@.len()
    &&& forall|m: int|
        0 <= m < o.methods@.len() ==> method_optimized(#[trigger] &o.methods@[m], &n.methods@[m])
}

/// Program `n` is program `o` with unreachable code removed from the
/// graphs of all methods.
pub open spec fn program_optimized(o: &Program, n: &Program) -> bool {
    &&& n.entities == o.entities
    &&& n.classes@.len() == o.classes@.len()
    &&& forall|c: int|
        0 <= c < o.classes@.len() ==> class_optimized(#[trigger] &o.classes@[c], &n.classes@[c])
}

/// The number of projections in the graph of the method.
pub open spec fn method_projections(m: &Method) -> nat {
    match m.graph {
        Some(g) => projections(&g),
        None => 0,
    }
}

/// The number of projections in the graphs of the first `n` methods.
pub open spec fn methods_projections(ms: Seq<Method>, n: nat) -> nat
    decreases n,
{
    if n == 0 || n > ms.len() {
        0
    } else {
        methods_projections(ms, (n - 1) as nat) + method_projections(&ms[n - 1])
    }
}

pub open spec fn class_projections(c: &Class) -> nat {
    methods_projections(c.methods@, c.methods@.len())
}

/// The number of projections in the graphs of the first `n` classes.
pub open spec fn classes_projections(cs: Seq<Class>, n: nat) -> nat
    decreases n,
{
    if n == 0 || n > cs.len() {
        0
    } else {
        classes_projections(cs, (n - 1) as nat) + class_projections(&cs[n - 1])
    }
}

/// The number of projections in all graphs of the program. It bounds
/// the number of times that an optimization can change the program.
pub open spec fn program_projections(p: &Program) -> nat {
    classes_projections(p.classes@, p.classes@.len())
}

proof fn lemma_methods_same(a: Seq<Method>, b: Seq<Method>, n: nat)
    requires
        n <= a.len(),
        n <= b.len(),
        forall|k: int| 0 <= k < n ==> a[k] == b[k],
    ensures
        methods_projections(a, n) == methods_projections(b, n),
    decreases n,
{
    if n > 0 {
        lemma_methods_same(a, b, (n - 1) as nat);
    }
}

proof fn lemma_classes_same(a: Seq<Class>, b: Seq<Class>, n: nat)
    requires
        n <= a.len(),
        n <= b.len(),
        forall|k: int| 0 <= k < n ==> a[k] == b[k],
    ensures
        classes_projections(a, n) == classes_projections(b, n),
    decreases n,
{
    if n > 0 {
        lemma_classes_same(a, b, (n - 1) as nat);
    }
}

/// The graph of the method, if it has one, is well formed.
pub open spec fn method_wf(m: &Method) -> bool {
    m.graph matches Some(g) ==> g.wf()
}

/// The graph of the method, if it has one, is well formed and leaves room
/// for the nodes that an optimization adds.
pub open spec fn method_ok(m: &Method) -> bool {
    m.graph matches Some(g) ==> g.wf() && 2 * g.nodes@.len() < usize::MAX
}

/// The graph of the method has a conditional branch on a constant.
pub open spec fn method_foldable(m: &Method) -> bool {
    m.graph matches Some(g) && exists|c: NodeId|
        c < g.nodes@.len() && #[trigger] foldable(&g, c) is Some
}

/// The graphs of all methods of the class are well formed.
pub open spec fn class_wf(class: &Class) -> bool {
    forall|m: int| 0 <= m < class.methods@.len() ==> method_wf(#[trigger] &class.methods@[m])
}

/// The graphs of all methods of the class are well formed and leave room
/// for the nodes that an optimization adds.
pub open spec fn class_ok(class: &Class) -> bool {
    forall|m: int| 0 <= m < class.methods@.len() ==> method_ok(#[trigger] &class.methods@[m])
}

/// A method of the class has a conditional branch on a constant.
pub open spec fn class_foldable(class: &Class) -> bool {
    exists|m: int| 0 <= m < class.methods@.len() && method_foldable(#[trigger] &class.methods@[m])
}

/// The graphs of all methods of the program are well formed.
pub open spec fn program_wf(p: &Program) -> bool {
    forall|c: int| 0 <= c < p.classes@.len() ==> class_wf(#[trigger] &p.classes@[c])
}

/// The graphs of all methods of the program are well formed and leave
/// room for the nodes that an optimization adds.
pub open spec fn program_ok(p: &Program) -> bool {
    forall|c: int| 0 <= c < p.classes@.len() ==> class_ok(#[trigger] &p.classes@[c])
}

/// Removes unreachable code from the graph of a method that has one.
fn run_method(method: &mut Method) -> (r: OptimizationResult)
    requires
        method_ok(old(method)),
    ensures
        method_wf(final(method)),
        r == OptimizationResult::Changed <==> method_foldable(old(method)),
        method_projections(final(method)) <= method_projections(old(method)),
        r == OptimizationResult::Changed ==> method_projections(final(method))
            < method_projections(old(method)),
        method_optimized(old(method), final(method)),
{
    match &mut method.graph {
        Some(g) => run_on(g),
        None => OptimizationResult::Unchanged,
    }
}

/// Removes unreachable code from the graphs of the methods of a class.
fn run_class(class: &mut Class) -> (r: OptimizationResult)
    requires
        class_ok(old(class)),
    ensures
        class_wf(final(class)),
        final(class).methods@.len() == old(class).methods@.len(),
        r == OptimizationResult::Changed <==> class_foldable(old(class)),
        class_projections(final(class)) <= class_projections(old(class)),
        r == OptimizationResult::Changed ==> class_projections(final(class)) < class_projections(
            old(class),
        ),
        class_optimized(old(class), final(class)),
{
    let mut collector = OptimizationResultCollector::new();
    let n = class.methods.len();
    let mut m: usize = 0;
    while m < n
        invariant
            m <= n,
            n == class.methods@.len(),
            n == old(class).methods@.len(),
            class_ok(old(class)),
            forall|k: int| 0 <= k < m ==> method_wf(#[trigger] &class.methods@[k]),
            forall|k: int| m <= k < n ==> #[trigger] class.methods@[k] == old(class).methods@[k],
            class.name == old(class).name,
            class.ld_name == old(class).ld_name,
            class.entity == old(class).entity,
            class.fields == old(class).fields,
            forall|k: int|
                0 <= k < m ==> method_optimized(
                    #[trigger] &old(class).methods@[k],
                    &class.methods@[k],
                ),
            collector@.len() == m,
            forall|k: int|
                0 <= k < m ==> (#[trigger] collector@[k] == OptimizationResult::Changed
                    <==> method_foldable(&old(class).methods@[k])),
            methods_projections(class.methods@, m as nat) <= methods_projections(
                old(class).methods@,
                m as nat,
            ),
            collector@.contains(OptimizationResult::Changed) ==> methods_projections(
                class.methods@,
                m as nat,
            ) < methods_projections(old(class).methods@, m as nat),
        decreases n - m,
    {
        let ghost before = class.methods@;
        let ghost seen = collector@;
        assert(method_ok(&old(class).methods@[m as int]));
        let r = run_method(&mut class.methods[m]);
        collector.push(r);
        proof {
            assert forall|k: int| 0 <= k < m + 1 implies method_optimized(
                #[trigger] &old(class).methods@[k],
                &class.methods@[k],
            ) by {
                if k < m {
                    assert(class.methods@[k] == before[k]);
                }
            }
            assert forall|k: int| 0 <= k < m implies class.methods@[k] == before[k] by {}
            lemma_methods_same(class.methods@, before, m as nat);
            if collector@.contains(OptimizationResult::Changed) {
                let k = choose|k: int|
                    0 <= k < collector@.len() && collector@[k] == OptimizationResult::Changed;
                if k < m {
                    assert(seen[k] == OptimizationResult::Changed);
                    assert(seen.contains(OptimizationResult::Changed));
                }
            }
            assert forall|k: int| 0 <= k < m + 1 implies method_wf(#[trigger] &class.methods@[k]) by {
                if k != m {
                    assert(class.methods@[k] == before[k]);
                    assert(method_wf(&before[k]));
                }
            }
            assert forall|k: int| m + 1 <= k < n implies #[trigger] class.methods@[k] == old(class).methods@[k] by {
                assert(class.methods@[k] == before[k]);
            }
        }
        m += 1;
    }
    let r = collector.result();
    proof {
        if collector@.contains(OptimizationResult::Changed) {
            let k = choose|k: int|
                0 <= k < collector@.len() && collector@[k] == OptimizationResult::Changed;
            assert(method_foldable(&old(class).methods@[k]));
        }
        if class_foldable(old(class)) {
            let k = choose|k: int|
                0 <= k < old(class).methods@.len() && method_foldable(
                    #[trigger] &old(class).methods@[k],
                );
            assert(collector@[k] == OptimizationResult::Changed);
        }
    }
    r
}

/// Removes unreachable code from the graphs of all methods of a program.
/// The program is changed exactly when one of the graphs has a
/// conditional branch on a constant.
pub fn run(program: &mut Program) -> (r: OptimizationResult)
    requires
        program_ok(old(program)),
    ensures
        program_wf(final(program)),
        final(program).classes@.len() == old(program).classes@.len(),
        r == OptimizationResult::Changed <==> exists|c: int|
            0 <= c < old(program).classes@.len() && class_foldable(
                #[trigger] &old(program).classes@[c],
            ),
        program_projections(final(program)) <= program_projections(old(program)),
        r == OptimizationResult::Changed ==> program_projections(final(program))
            < program_projections(old(program)),
        program_optimized(old(program), final(program)),
{
    let mut collector = OptimizationResultCollector::new();
    let n = program.classes.len();
    let mut c: usize = 0;
    while c < n
        invariant
            c <= n,
            n == program.classes@.len(),
            n == old(program).classes@.len(),
            program_ok(old(program)),
            forall|k: int| 0 <= k < c ==> class_wf(#[trigger] &program.classes@[k]),
            forall|k: int| c <= k < n ==> #[trigger] program.classes@[k] == old(program).classes@[k],
            program.entities == old(program).entities,
            forall|k: int|
                0 <= k < c ==> class_optimized(
                    #[trigger] &old(program).classes@[k],
                    &program.classes@[k],
                ),
            collector@.len() == c,
            forall|k: int|
                0 <= k < c ==> (#[trigger] collector@[k] == OptimizationResult::Changed
                    <==> class_foldable(&old(program).classes@[k])),
            classes_projections(program.classes@, c as nat) <= classes_projections(
                old(program).classes@,
                c as nat,
            ),
            collector@.contains(OptimizationResult::Changed) ==> classes_projections(
                program.classes@,
                c as nat,
            ) < classes_projections(old(program).classes@, c as nat),
        decreases n - c,
    {
        let ghost before = program.classes@;
        let ghost seen = collector@;
        assert(class_ok(&old(program).classes@[c as int]));
        let r = run_class(&mut program.classes[c]);
        collector.push(r);
        proof {
            assert forall|k: int| 0 <= k < c + 1 implies class_optimized(
                #[trigger] &old(program).classes@[k],
                &program.classes@[k],
            ) by {
                if k < c {
                    assert(program.classes@[k] == before[k]);
                }
            }
            assert forall|k: int| 0 <= k < c implies program.classes@[k] == before[k] by {}
            lemma_classes_same(program.classes@, before, c as nat);
            if collector@.contains(OptimizationResult::Changed) {
                let k = choose|k: int|
                    0 <= k < collector@.len() && collector@[k] == OptimizationResult::Changed;
                if k < c {
                    assert(seen[k] == OptimizationResult::Changed);
                    assert(seen.contains(OptimizationResult::Changed));
                }
            }
            assert forall|k: int| 0 <= k < c + 1 implies class_wf(#[trigger] &program.classes@[k]) by {
                if k != c {
                    assert(program.classes@[k] == before[k]);
                    assert(class_wf(&before[k]));
                }
            }
            assert forall|k: int| c + 1 <= k < n implies #[trigger] program.classes@[k] == old(program).classes@[k] by {
                assert(program.classes@[k] == before[k]);
            }
        }
        c += 1;
    }
    let r = collector.result();
    proof {
        if collector@.contains(OptimizationResult::Changed) {
            let k = choose|k: int|
                0 <= k < collector@.len() && collector@[k] == OptimizationResult::Changed;
            assert(class_foldable(&old(program).classes@[k]));
        }
        if exists|k: int|
            0 <= k < old(program).classes@.len() && class_foldable(
                #[trigger] &old(program).classes@[k],
            ) {
            let k = choose|k: int|
                0 <= k < old(program).classes@.len() && class_foldable(
                    #[trigger] &old(program).classes@[k],
                );
            assert(collector@[k] == OptimizationResult::Changed);
        }
    }
    r
}

} // verus!

//! Walks over the nodes of a graph.
use super::graph::{Graph, NodeId, NodeKind};
use vstd::prelude::*;

verus! {

/// The number of entries of `visited` that are not set.
pub open spec fn unvisited(visited: Seq<bool>) -> nat
    decreases visited.len(),
{
    if visited.len() == 0 {
        0
    } else {
        unvisited(visited.drop_last()) + if visited.last() {
            0nat
        } else {
            1nat
        }
    }
}

pub proof fn lemma_unvisited_update(visited: Seq<bool>, i: int)
    requires
        0 <= i < visited.len(),
        !visited[i],
    ensures
        unvisited(visited.update(i, true)) + 1 == unvisited(visited),
    decreases visited.len(),
{
    let u = visited.update(i, true);
    if i == visited.len() - 1 {
        assert(u.drop_last() =~= visited.drop_last());
    } else {
        assert(u.drop_last() =~= visited.drop_last().update(i, true));
        lemma_unvisited_update(visited.drop_last(), i);
    }
}

/// `b` has every entry set that `a` has set.
pub open spec fn grew(a: Seq<bool>, b: Seq<bool>) -> bool {
    a.len() == b.len() && forall|i: int| 0 <= i < a.len() && a[i] ==> #[trigger] b[i]
}

/// A list of marks that grew has no more entries that are not set.
pub proof fn lemma_unvisited_grew(a: Seq<bool>, b: Seq<bool>)
    requires
        grew(a, b),
    ensures
        unvisited(b) <= unvisited(a),
    decreases a.len(),
{
    if a.len() > 0 {
        assert(grew(a.drop_last(), b.drop_last())) by {
            assert forall|i: int| 0 <= i < a.len() - 1 && a.drop_last()[i] implies #[trigger] b.drop_last()[i] by {
                assert(b[i]);
            }
        }
        lemma_unvisited_grew(a.drop_last(), b.drop_last());
        assert(a.last() ==> b[a.len() - 1]);
    }
}

/// Every operand of every node among `order[from..]` that belongs to
/// block `block` is marked in `visited`.
pub open spec fn operands_marked(
    g: &Graph,
    block: NodeId,
    order: Seq<NodeId>,
    from: int,
    visited: Seq<bool>,
) -> bool {
    forall|i: int, k: int|
        from <= i < order.len() && g.spec_block(order[i]) == block && 0 <= k < g.spec_ins(
            order[i],
        ).len() ==> visited[#[trigger] g.spec_ins(order[i])[k] as int]
}

/// Every node that is marked in `after` but not in `before` is among
/// `order[from..]`.
pub open spec fn marked_listed(before: Seq<bool>, after: Seq<bool>, order: Seq<NodeId>, from: int) -> bool {
    forall|n: int|
        0 <= n < after.len() && #[trigger] after[n] && !before[n] ==> exists|i: int|
            from <= i < order.len() && #[trigger] order[i] == n
}

/// What a visit of node `cur` makes of the marks `visited` and the list
/// `order`: if the node belongs to `block`, its operands that are not
/// marked are marked and visited, one after the other, and then the node
/// is listed.
pub open spec fn spec_visit(
    g: &Graph,
    visited: Seq<bool>,
    order: Seq<NodeId>,
    cur: NodeId,
    block: NodeId,
) -> (Seq<bool>, Seq<NodeId>)
    decreases unvisited(visited), g.spec_ins(cur).len() + 1,
{
    let r = if g.spec_block(cur) == block {
        spec_operands(g, visited, order, cur, 0, block)
    } else {
        (visited, order)
    };
    (r.0, r.1.push(cur))
}

/// What the visits of the operands of node `cur` from operand number `k`
/// on make of the marks and the list.
pub open spec fn spec_operands(
    g: &Graph,
    visited: Seq<bool>,
    order: Seq<NodeId>,
    cur: NodeId,
    k: nat,
    block: NodeId,
) -> (Seq<bool>, Seq<NodeId>)
    decreases unvisited(visited), g.spec_ins(cur).len() - k,
    via spec_operands_decreases
{
    if k >= g.spec_ins(cur).len() {
        (visited, order)
    } else {
        let x = g.spec_ins(cur)[k as int];
        if x < visited.len() && !visited[x as int] {
            let marked = visited.update(x as int, true);
            let r = spec_visit(g, marked, order, x, block);
            if unvisited(r.0) <= unvisited(marked) {
                spec_operands(g, r.0, r.1, cur, k + 1, block)
            } else {
                r
            }
        } else {
            spec_operands(g, visited, order, cur, k + 1, block)
        }
    }
}

#[via_fn]
proof fn spec_operands_decreases(
    g: &Graph,
    visited: Seq<bool>,
    order: Seq<NodeId>,
    cur: NodeId,
    k: nat,
    block: NodeId,
) {
    if k < g.spec_ins(cur).len() {
        let x = g.spec_ins(cur)[k as int];
        if x < visited.len() && !visited[x as int] {
            lemma_unvisited_update(visited, x as int);
        }
    }
}

/// The list of the walk from node `start` through block `block` of a
/// graph with `n` nodes.
pub open spec fn spec_walk(g: &Graph, start: NodeId, block: NodeId) -> Seq<NodeId> {
    spec_visit(g, Seq::new(g.nodes@.len(), |i: int| false), Seq::empty(), start, block).1
}

/// Visits `cur` and, if it belongs to `block`, first its operands that
/// were not visited yet, and appends each node to `order` when its visit
/// ends.
fn visit(g: &Graph, visited: &mut Vec<bool>, order: &mut Vec<NodeId>, cur: NodeId, block: NodeId)
    requires
        g.wf(),
        cur < g.nodes@.len(),
        old(visited)@.len() == g.nodes@.len(),
        forall|i: int| 0 <= i < old(order)@.len() ==> #[trigger] old(order)@[i] < g.nodes@.len(),
    ensures
        final(visited)@.len() == g.nodes@.len(),
        grew(old(visited)@, final(visited)@),
        final(order)@.len() > old(order)@.len(),
        final(order)@.subrange(0, old(order)@.len() as int) == old(order)@,
        final(order)@.last() == cur,
        forall|i: int| 0 <= i < final(order)@.len() ==> #[trigger] final(order)@[i] < g.nodes@.len(),
        operands_marked(g, block, final(order)@, old(order)@.len() as int, final(visited)@),
        marked_listed(old(visited)@, final(visited)@, final(order)@, old(order)@.len() as int),
        (final(visited)@, final(order)@) == spec_visit(g, old(visited)@, old(order)@, cur, block),
    decreases unvisited(old(visited)@),
{
    let ghost v0 = visited@;
    let ghost o0 = order@;
    if g.block_of(cur) == block {
        let n = g.in_nodes(cur).len();
        let mut k: usize = 0;
        while k < n
            invariant
                g.wf(),
                cur < g.nodes@.len(),
                n == g.spec_ins(cur).len(),
                k <= n,
                v0 == old(visited)@,
                o0 == old(order)@,
                visited@.len() == g.nodes@.len(),
                grew(v0, visited@),
                o0.len() <= order@.len(),
                order@.subrange(0, o0.len() as int) == o0,
                forall|i: int| 0 <= i < order@.len() ==> #[trigger] order@[i] < g.nodes@.len(),
                operands_marked(g, block, order@, o0.len() as int, visited@),
                marked_listed(v0, visited@, order@, o0.len() as int),
                forall|j: int| 0 <= j < k ==> visited@[#[trigger] g.spec_ins(cur)[j] as int],
                spec_operands(g, visited@, order@, cur, k as nat, block) == spec_operands(
                    g,
                    v0,
                    o0,
                    cur,
                    0,
                    block,
                ),
            decreases n - k,
        {
            let operand = g.in_node(cur, k);
            assert(g.node_wf(cur as int));
            if !visited[operand] {
                let ghost v1 = visited@;
                let ghost o1 = order@;
                proof {
                    lemma_unvisited_update(v1, operand as int);
                    lemma_unvisited_grew(v0, v1);
                }
                visited.set(operand, true);
                let ghost v2 = visited@;
                visit(g, visited, order, operand, block);
                proof {
                    lemma_unvisited_grew(v2, visited@);
                    assert(spec_operands(g, v1, o1, cur, k as nat, block) == spec_operands(
                        g,
                        visited@,
                        order@,
                        cur,
                        (k + 1) as nat,
                        block,
                    ));
                    assert(grew(v0, visited@)) by {
                        assert forall|i: int| 0 <= i < v0.len() && v0[i] implies #[trigger] visited@[i] by {
                            assert(v1[i]);
                            assert(v2[i]);
                        }
                    }
                    assert(order@.subrange(0, o0.len() as int) =~= o0) by {
                        assert forall|i: int| 0 <= i < o0.len() implies order@[i] == o0[i] by {
                            assert(order@.subrange(0, o1.len() as int)[i] == o1[i]);
                            assert(o1.subrange(0, o0.len() as int)[i] == o0[i]);
                        }
                    }
                    assert(operands_marked(g, block, order@, o0.len() as int, visited@)) by {
                        assert forall|i: int, j: int|
                            o0.len() <= i < order@.len() && g.spec_block(order@[i]) == block && 0
                                <= j < g.spec_ins(order@[i]).len() implies visited@[#[trigger] g.spec_ins(
                            order@[i],
                        )[j] as int] by {
                            if i < o1.len() {
                                assert(order@.subrange(0, o1.len() as int)[i] == o1[i]);
                                let x = g.spec_ins(o1[i])[j];
                                assert(g.node_wf(o1[i] as int));
                                assert(x < g.nodes@.len());
                                assert(v1[x as int]);
                                assert(v2[x as int]);
                            } else {
                                assert(g.node_wf(order@[i] as int));
                            }
                        }
                    }
                    assert(marked_listed(v0, visited@, order@, o0.len() as int)) by {
                        assert forall|m: int|
                            0 <= m < visited@.len() && #[trigger] visited@[m]
                                && !v0[m] implies exists|i: int|
                            o0.len() <= i < order@.len() && #[trigger] order@[i] == m by {
                            if v2[m] {
                                if m == operand {
                                    assert(order@[order@.len() - 1] == operand);
                                } else {
                                    assert(v1[m]);
                                    let i = choose|i: int| o0.len() <= i < o1.len() && #[trigger] o1[i] == m;
                                    assert(order@.subrange(0, o1.len() as int)[i] == o1[i]);
                                    assert(order@[i] == m);
                                }
                            } else {
                                let i = choose|i: int|
                                    o1.len() <= i < order@.len() && #[trigger] order@[i] == m;
                                assert(order@[i] == m);
                            }
                        }
                    }
                    assert(g.node_wf(cur as int));
                    assert forall|j: int| 0 <= j < k implies visited@[#[trigger] g.spec_ins(cur)[j] as int] by {
                        let x = g.spec_ins(cur)[j];
                        assert(x < g.nodes@.len());
                        assert(v1[x as int]);
                        assert(v2[x as int]);
                    }
                    assert(v2[operand as int]);
                }
            }
            k += 1;
        }
    }
    let ghost o3 = order@;
    order.push(cur);
    proof {
        assert(order@.subrange(0, o0.len() as int) =~= o0) by {
            assert forall|i: int| 0 <= i < o0.len() implies order@[i] == o0[i] by {
                assert(o3.subrange(0, o0.len() as int)[i] == o0[i]);
            }
        }
        assert(operands_marked(g, block, order@, o0.len() as int, visited@)) by {
            assert forall|i: int, j: int|
                o0.len() <= i < order@.len() && g.spec_block(order@[i]) == block && 0 <= j
                    < g.spec_ins(order@[i]).len() implies visited@[#[trigger] g.spec_ins(
                order@[i],
            )[j] as int] by {
                assert(g.node_wf(order@[i] as int));
                if i < o3.len() {
                    assert(order@[i] == o3[i]);
                }
            }
        }
        assert(marked_listed(v0, visited@, order@, o0.len() as int)) by {
            assert forall|m: int|
                0 <= m < visited@.len() && #[trigger] visited@[m] && !v0[m] implies exists|i: int|
                o0.len() <= i < order@.len() && #[trigger] order@[i] == m by {
                let i = choose|i: int| o0.len() <= i < o3.len() && #[trigger] o3[i] == m;
                assert(order@[i] == m);
            }
        }
    }
}

/// The nodes that a depth-first walk from `start` along operands meets,
/// each listed when all of its operands were. The walk stays inside block
/// `block`: a node outside of it is listed, but its operands are not
/// walked. The list ends with `start`, and with every node of the block
/// it holds the node's operands.
pub fn walk_dfs_in_block(g: &Graph, start: NodeId, block: NodeId) -> (order: Vec<NodeId>)
    requires
        g.wf(),
        start < g.nodes@.len(),
    ensures
        order@.len() > 0,
        order@.last() == start,
        forall|i: int| 0 <= i < order@.len() ==> #[trigger] order@[i] < g.nodes@.len(),
        forall|i: int, k: int|
            0 <= i < order@.len() && g.spec_block(order@[i]) == block && 0 <= k < g.spec_ins(
                order@[i],
            ).len() ==> order@.contains(#[trigger] g.spec_ins(order@[i])[k]),
        order@ == spec_walk(g, start, block),
{
    let n = g.len();
    let mut visited: Vec<bool> = Vec::new();
    let mut c: usize = 0;
    while c < n
        invariant
            c <= n,
            visited@.len() == c,
            forall|k: int| 0 <= k < c ==> !visited@[k],
        decreases n - c,
    {
        visited.push(false);
        c += 1;
    }
    let mut order: Vec<NodeId> = Vec::new();
    let ghost v0 = visited@;
    assert(v0 =~= Seq::new(g.nodes@.len(), |i: int| false));
    assert(order@ =~= Seq::<NodeId>::empty());
    visit(g, &mut visited, &mut order, start, block);
    proof {
        assert forall|i: int, k: int|
            0 <= i < order@.len() && g.spec_block(order@[i]) == block && 0 <= k < g.spec_ins(
                order@[i],
            ).len() implies order@.contains(#[trigger] g.spec_ins(order@[i])[k]) by {
            let x = g.spec_ins(order@[i])[k];
            assert(g.node_wf(order@[i] as int));
            assert(visited@[x as int]);
            assert(!v0[x as int]);
            let j = choose|j: int| 0 <= j < order@.len() && #[trigger] order@[j] == x as int;
            assert(order@[j] == x);
        }
    }
    order
}

/// When a walk over all that a node depends on reports a node: before
/// or after what the node depends on.
#[derive(Debug, Copy, Clone, PartialEq, Eq, Structural)]
pub enum VisitTime {
    BeforePredecessors,
    AfterPredecessors,
}

/// What the walk from node `cur`, which is marked, makes of the marks
/// `visited` and the reports `events`: the node is reported, then its
/// block and its operands are marked and walked where they are not
/// marked, one after the other, and then the node is reported a second
/// time.
pub open spec fn spec_walk_from(
    g: &Graph,
    visited: Seq<bool>,
    events: Seq<(VisitTime, NodeId)>,
    cur: NodeId,
) -> (Seq<bool>, Seq<(VisitTime, NodeId)>)
    decreases unvisited(visited), g.spec_ins(cur).len() + 2,
    via spec_walk_from_decreases
{
    let before = events.push((VisitTime::BeforePredecessors, cur));
    let b = g.spec_block(cur);
    let r = if g.spec_kind(cur) != NodeKind::Block && b < visited.len() && !visited[b as int] {
        spec_walk_from(g, visited.update(b as int, true), before, b)
    } else {
        (visited, before)
    };
    let done = if unvisited(r.0) <= unvisited(visited) {
        spec_walk_operands(g, r.0, r.1, cur, 0)
    } else {
        r
    };
    (done.0, done.1.push((VisitTime::AfterPredecessors, cur)))
}

#[via_fn]
proof fn spec_walk_from_decreases(
    g: &Graph,
    visited: Seq<bool>,
    events: Seq<(VisitTime, NodeId)>,
    cur: NodeId,
) {
    let b = g.spec_block(cur);
    if b < visited.len() && !visited[b as int] {
        lemma_unvisited_update(visited, b as int);
    }
}

/// What the walks from the operands of node `cur` from operand number
/// `k` on make of the marks and the reports.
pub open spec fn spec_walk_operands(
    g: &Graph,
    visited: Seq<bool>,
    events: Seq<(VisitTime, NodeId)>,
    cur: NodeId,
    k: nat,
) -> (Seq<bool>, Seq<(VisitTime, NodeId)>)
    decreases unvisited(visited), g.spec_ins(cur).len() - k,
    via spec_walk_operands_decreases
{
    if k >= g.spec_ins(cur).len() {
        (visited, events)
    } else {
        let x = g.spec_ins(cur)[k as int];
        if x < visited.len() && !visited[x as int] {
            let marked = visited.update(x as int, true);
            let r = spec_walk_from(g, marked, events, x);
            if unvisited(r.0) <= unvisited(marked) {
                spec_walk_operands(g, r.0, r.1, cur, k + 1)
            } else {
                r
            }
        } else {
            spec_walk_operands(g, visited, events, cur, k + 1)
        }
    }
}

#[via_fn]
proof fn spec_walk_operands_decreases(
    g: &Graph,
    visited: Seq<bool>,
    events: Seq<(VisitTime, NodeId)>,
    cur: NodeId,
    k: nat,
) {
    if k < g.spec_ins(cur).len() {
        let x = g.spec_ins(cur)[k as int];
        if x < visited.len() && !visited[x as int] {
            lemma_unvisited_update(visited, x as int);
        }
    }
}

/// The reports of the walk from node `start` over all that it depends
/// on.
pub open spec fn spec_walk_all(g: &Graph, start: NodeId) -> Seq<(VisitTime, NodeId)> {
    spec_walk_from(
        g,
        Seq::new(g.nodes@.len(), |i: int| false).update(start as int, true),
        Seq::empty(),
        start,
    ).1
}

fn walk_from(
    g: &Graph,
    visited: &mut Vec<bool>,
    events: &mut Vec<(VisitTime, NodeId)>,
    cur: NodeId,
)
    requires
        g.wf(),
        cur < g.nodes@.len(),
        old(visited)@.len() == g.nodes@.len(),
    ensures
        final(visited)@.len() == g.nodes@.len(),
        grew(old(visited)@, final(visited)@),
        (final(visited)@, final(events)@) == spec_walk_from(
            g,
            old(visited)@,
            old(events)@,
            cur,
        ),
    decreases unvisited(old(visited)@), g.spec_ins(cur).len() + 2,
{
    let ghost v0 = visited@;
    let ghost e0 = events@;
    assert(g.node_wf(cur as int));
    events.push((VisitTime::BeforePredecessors, cur));
    let b = g.block_of(cur);
    if !matches!(g.kind(cur), NodeKind::Block) && !visited[b] {
        proof {
            lemma_unvisited_update(v0, b as int);
        }
        visited.set(b, true);
        let ghost v1 = visited@;
        walk_from(g, visited, events, b);
        proof {
            lemma_unvisited_grew(v1, visited@);
            assert(grew(v0, visited@)) by {
                assert forall|i: int| 0 <= i < v0.len() && v0[i] implies #[trigger] visited@[i] by {
                    assert(v1[i]);
                }
            }
        }
    }
    proof {
        lemma_unvisited_grew(v0, visited@);
    }
    let ghost v2 = visited@;
    let ghost e2 = events@;
    let n = g.in_nodes(cur).len();
    let mut k: usize = 0;
    while k < n
        invariant
            g.wf(),
            cur < g.nodes@.len(),
            n == g.spec_ins(cur).len(),
            k <= n,
            visited@.len() == g.nodes@.len(),
            grew(v0, visited@),
            unvisited(visited@) <= unvisited(v2),
            unvisited(v2) <= unvisited(v0),
            v0 == old(visited)@,
            spec_walk_operands(g, visited@, events@, cur, k as nat) == spec_walk_operands(
                g,
                v2,
                e2,
                cur,
                0,
            ),
        decreases n - k,
    {
        let operand = g.in_node(cur, k);
        assert(g.node_wf(cur as int));
        if !visited[operand] {
            let ghost v3 = visited@;
            let ghost e3 = events@;
            proof {
                lemma_unvisited_update(v3, operand as int);
            }
            visited.set(operand, true);
            let ghost v4 = visited@;
            walk_from(g, visited, events, operand);
            proof {
                lemma_unvisited_grew(v4, visited@);
                assert(grew(v0, visited@)) by {
                    assert forall|i: int| 0 <= i < v0.len() && v0[i] implies #[trigger] visited@[i] by {
                        assert(v3[i]);
                        assert(v4[i]);
                    }
                }
                assert(spec_walk_operands(g, v3, e3, cur, k as nat) == spec_walk_operands(
                    g,
                    visited@,
                    events@,
                    cur,
                    (k + 1) as nat,
                ));
            }
        }
        k += 1;
    }
    events.push((VisitTime::AfterPredecessors, cur));
}

/// Walks from node `start` over all that it depends on: its block and
/// its operands, and what those depend on. Each node that is met is
/// reported before and after what it depends on, and no node is walked
/// twice.
pub fn walk(g: &Graph, start: NodeId) -> (events: Vec<(VisitTime, NodeId)>)
    requires
        g.wf(),
        start < g.nodes@.len(),
    ensures
        events@ == spec_walk_all(g, start),
{
    let n = g.len();
    let mut visited: Vec<bool> = Vec::new();
    let mut c: usize = 0;
    while c < n
        invariant
            c <= n,
            visited@.len() == c,
            forall|k: int| 0 <= k < c ==> !visited@[k],
        decreases n - c,
    {
        visited.push(false);
        c += 1;
    }
    assert(visited@ =~= Seq::new(g.nodes@.len(), |i: int| false));
    visited.set(start, true);
    let mut events: Vec<(VisitTime, NodeId)> = Vec::new();
    assert(events@ =~= Seq::<(VisitTime, NodeId)>::empty());
    walk_from(g, &mut visited, &mut events, start);
    events
}

} // verus!

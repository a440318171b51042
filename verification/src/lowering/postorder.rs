//! The blocks of a function in the order in which a depth-first walk
//! along the control flow leaves them.
use super::lir::{links_ok, BlockGraph, BlockId, EdgeId};
use crate::firm::walk::{
    grew, lemma_unvisited_grew, lemma_unvisited_update, marked_listed, unvisited,
};
use vstd::prelude::*;

verus! {

/// The block that way number `k` out of block `b` leads to.
pub open spec fn way_target(g: &BlockGraph, b: BlockId, k: int) -> BlockId {
    g.edges@[g.blocks@[b as int].succs@[k] as int].target
}

/// Every block that a way out of a block among `order[from..]` leads to
/// is marked in `visited`.
pub open spec fn ways_marked(g: &BlockGraph, order: Seq<BlockId>, from: int, visited: Seq<bool>) -> bool {
    forall|i: int, k: int|
        from <= i < order.len() && 0 <= k < g.blocks@[order[i] as int].succs@.len()
            ==> visited[#[trigger] way_target(g, order[i], k) as int]
}

/// The blocks of `order` are blocks of the graph that can be reached from
/// its head, each is marked in `visited`, and none is listed twice.
pub open spec fn listed_ok(g: &BlockGraph, visited: Seq<bool>, order: Seq<BlockId>) -> bool {
    &&& forall|j: int|
        0 <= j < order.len() ==> {
            let x = #[trigger] order[j];
            x < g.blocks@.len() && x < visited.len() && visited[x as int] && g.reachable(x)
        }
    &&& forall|i: int, j: int| 0 <= i < j < order.len() ==> order[i] != order[j]
}

/// What a visit of block `cur` makes of the marks `visited` and the list
/// `order`: the blocks that its ways out lead to and that are not marked
/// are marked and visited, one after the other, and then the block is
/// listed.
pub open spec fn spec_leave(g: &BlockGraph, visited: Seq<bool>, order: Seq<BlockId>, cur: BlockId) -> (
    Seq<bool>,
    Seq<BlockId>,
)
    decreases unvisited(visited), g.blocks@[cur as int].succs@.len() + 1,
{
    let r = spec_ways(g, visited, order, cur, 0);
    (r.0, r.1.push(cur))
}

/// What the visits of the blocks behind block `cur` from way number `k`
/// on make of the marks and the list.
pub open spec fn spec_ways(
    g: &BlockGraph,
    visited: Seq<bool>,
    order: Seq<BlockId>,
    cur: BlockId,
    k: nat,
) -> (Seq<bool>, Seq<BlockId>)
    decreases unvisited(visited), g.blocks@[cur as int].succs@.len() - k,
    via spec_ways_decreases
{
    if k >= g.blocks@[cur as int].succs@.len() {
        (visited, order)
    } else {
        let x = way_target(g, cur, k as int);
        if x < visited.len() && !visited[x as int] {
            let marked = visited.update(x as int, true);
            let r = spec_leave(g, marked, order, x);
            if unvisited(r.0) <= unvisited(marked) {
                spec_ways(g, r.0, r.1, cur, k + 1)
            } else {
                r
            }
        } else {
            spec_ways(g, visited, order, cur, k + 1)
        }
    }
}

#[via_fn]
proof fn spec_ways_decreases(
    g: &BlockGraph,
    visited: Seq<bool>,
    order: Seq<BlockId>,
    cur: BlockId,
    k: nat,
) {
    if k < g.blocks@[cur as int].succs@.len() {
        let x = way_target(g, cur, k as int);
        if x < visited.len() && !visited[x as int] {
            lemma_unvisited_update(visited, x as int);
        }
    }
}

/// A block that a way out of a block leads to can be reached from the
/// head if the block can.
pub proof fn lemma_reach_on(g: &BlockGraph, b: BlockId, k: int)
    requires
        links_ok(g.blocks@, g.edges@),
        b < g.blocks@.len(),
        0 <= k < g.blocks@[b as int].succs@.len(),
        g.reachable(b),
    ensures
        g.reachable(way_target(g, b, k)),
        way_target(g, b, k) < g.blocks@.len(),
{
    let e = g.blocks@[b as int].succs@[k];
    assert(e < g.edges@.len() && g.edges@[e as int].source == b);
    assert forall|s: Set<BlockId>| s.contains(g.head) && #[trigger] g.closed_forward(s) implies s.contains(
        way_target(g, b, k),
    ) by {
        assert(s.contains(b));
        assert(s.contains(g.edges@[e as int].source));
    }
}

/// Visits block `cur`, which is marked: first the blocks behind it that
/// were not marked, then `cur` itself is appended to `order`.
fn leave(g: &BlockGraph, visited: &mut Vec<bool>, order: &mut Vec<BlockId>, cur: BlockId)
    requires
        links_ok(g.blocks@, g.edges@),
        cur < g.blocks@.len(),
        old(visited)@.len() == g.blocks@.len(),
        old(visited)@[cur as int],
        g.reachable(cur),
        listed_ok(g, old(visited)@, old(order)@),
        !old(order)@.contains(cur),
    ensures
        final(visited)@.len() == g.blocks@.len(),
        grew(old(visited)@, final(visited)@),
        final(order)@.len() > old(order)@.len(),
        final(order)@.subrange(0, old(order)@.len() as int) == old(order)@,
        final(order)@.last() == cur,
        listed_ok(g, final(visited)@, final(order)@),
        forall|i: int|
            old(order)@.len() <= i < final(order)@.len() ==> #[trigger] final(order)@[i] == cur
                || !old(visited)@[final(order)@[i] as int],
        ways_marked(g, final(order)@, old(order)@.len() as int, final(visited)@),
        marked_listed(old(visited)@, final(visited)@, final(order)@, old(order)@.len() as int),
        (final(visited)@, final(order)@) == spec_leave(g, old(visited)@, old(order)@, cur),
    decreases unvisited(old(visited)@),
{
    let ghost v0 = visited@;
    let ghost o0 = order@;
    let succs = &g.blocks[cur].succs;
    let n = succs.len();
    let mut k: usize = 0;
    proof {
        assert(order@.subrange(0, o0.len() as int) =~= o0);
    }
    while k < n
        invariant
            links_ok(g.blocks@, g.edges@),
            cur < g.blocks@.len(),
            succs@ == g.blocks@[cur as int].succs@,
            n == succs@.len(),
            k <= n,
            v0 == old(visited)@,
            o0 == old(order)@,
            v0[cur as int],
            g.reachable(cur),
            visited@.len() == g.blocks@.len(),
            grew(v0, visited@),
            o0.len() <= order@.len(),
            order@.subrange(0, o0.len() as int) == o0,
            listed_ok(g, visited@, order@),
            forall|i: int| o0.len() <= i < order@.len() ==> !v0[#[trigger] order@[i] as int],
            ways_marked(g, order@, o0.len() as int, visited@),
            marked_listed(v0, visited@, order@, o0.len() as int),
            forall|j: int| 0 <= j < k ==> visited@[#[trigger] way_target(g, cur, j) as int],
            spec_ways(g, visited@, order@, cur, k as nat) == spec_ways(g, v0, o0, cur, 0),
        decreases n - k,
    {
        let e = succs[k];
        assert(g.blocks@[cur as int].succs@[k as int] == e);
        let t = g.edges[e].target;
        proof {
            lemma_reach_on(g, cur, k as int);
            assert(t == way_target(g, cur, k as int));
        }
        if !visited[t] {
            let ghost v1 = visited@;
            let ghost o1 = order@;
            proof {
                lemma_unvisited_update(v1, t as int);
                lemma_unvisited_grew(v0, v1);
            }
            visited.set(t, true);
            let ghost v2 = visited@;
            proof {
                assert(listed_ok(g, v2, o1));
                assert(!o1.contains(t)) by {
                    if o1.contains(t) {
                        let w = choose|w: int| 0 <= w < o1.len() && o1[w] == t;
                        assert(v1[o1[w] as int]);
                    }
                }
            }
            leave(g, visited, order, t);
            proof {
                lemma_unvisited_grew(v2, visited@);
                assert(spec_ways(g, v1, o1, cur, k as nat) == spec_ways(
                    g,
                    visited@,
                    order@,
                    cur,
                    (k + 1) as nat,
                ));
                assert(grew(v0, visited@)) by {
                    assert forall|i: int| 0 <= i < v0.len() && v0[i] implies #[trigger] visited@[i] by {
                        assert(v1[i]);
                        assert(v2[i]);
                    }
                }
                assert forall|i: int| 0 <= i < o1.len() implies order@[i] == o1[i] by {
                    assert(order@.subrange(0, o1.len() as int)[i] == o1[i]);
                }
                assert(order@.subrange(0, o0.len() as int) =~= o0) by {
                    assert forall|i: int| 0 <= i < o0.len() implies order@[i] == o0[i] by {
                        assert(o1.subrange(0, o0.len() as int)[i] == o0[i]);
                    }
                }
                assert forall|i: int| o0.len() <= i < order@.len() implies !v0[#[trigger] order@[i] as int] by {
                    if i < o1.len() {
                        assert(order@[i] == o1[i]);
                    } else {
                        let x = order@[i];
                        if x != t {
                            assert(!v2[x as int]);
                            assert(!v1[x as int]);
                        }
                        if v0[x as int] {
                            assert(v1[x as int]);
                        }
                    }
                }
                assert(ways_marked(g, order@, o0.len() as int, visited@)) by {
                    assert forall|i: int, j: int|
                        o0.len() <= i < order@.len() && 0 <= j < g.blocks@[order@[i] as int].succs@.len() implies visited@[#[trigger] way_target(
                        g,
                        order@[i],
                        j,
                    ) as int] by {
                        if i < o1.len() {
                            assert(order@[i] == o1[i]);
                            let x = way_target(g, o1[i], j);
                            assert(g.reachable(o1[i]));
                            lemma_reach_on(g, o1[i], j);
                            assert(v1[x as int]);
                            assert(v2[x as int]);
                        }
                    }
                }
                assert(marked_listed(v0, visited@, order@, o0.len() as int)) by {
                    assert forall|m: int|
                        0 <= m < visited@.len() && #[trigger] visited@[m] && !v0[m] implies exists|i: int|
                        o0.len() <= i < order@.len() && #[trigger] order@[i] == m by {
                        if v2[m] {
                            if m == t {
                                assert(order@[order@.len() - 1] == t);
                            } else {
                                assert(v1[m]);
                                let i = choose|i: int| o0.len() <= i < o1.len() && #[trigger] o1[i] == m;
                                assert(order@[i] == m);
                            }
                        } else {
                            let i = choose|i: int| o1.len() <= i < order@.len() && #[trigger] order@[i] == m;
                            assert(order@[i] == m);
                        }
                    }
                }
                assert forall|j: int| 0 <= j < k + 1 implies visited@[#[trigger] way_target(g, cur, j) as int] by {
                    let x = way_target(g, cur, j);
                    lemma_reach_on(g, cur, j);
                    if j < k {
                        assert(v1[x as int]);
                    }
                    assert(v2[x as int]);
                }
            }
        }
        k += 1;
    }
    let ghost o3 = order@;
    order.push(cur);
    proof {
        assert(order@.subrange(0, o0.len() as int) =~= o0) by {
            assert forall|i: int| 0 <= i < o0.len() implies order@[i] == o0[i] by {
                assert(o3.subrange(0, o0.len() as int)[i] == o0[i]);
            }
        }
        assert(listed_ok(g, visited@, order@)) by {
            assert forall|i: int, j: int| 0 <= i < j < order@.len() implies order@[i] != order@[j] by {
                if j == o3.len() {
                    if i < o0.len() {
                        assert(o3.subrange(0, o0.len() as int)[i] == o0[i]);
                        assert(o0.contains(o0[i]));
                    } else {
                        assert(!v0[o3[i] as int]);
                    }
                } else {
                    assert(o3[i] != o3[j]);
                }
            }
            assert forall|j: int| 0 <= j < order@.len() implies {
                let x = #[trigger] order@[j];
                x < g.blocks@.len() && x < visited@.len() && visited@[x as int] && g.reachable(x)
            } by {
                if j < o3.len() {
                    assert(order@[j] == o3[j]);
                }
            }
        }
        assert forall|i: int| o0.len() <= i < order@.len() implies #[trigger] order@[i] == cur || !v0[order@[i] as int] by {
            if i < o3.len() {
                assert(order@[i] == o3[i]);
            }
        }
        assert(ways_marked(g, order@, o0.len() as int, visited@)) by {
            assert forall|i: int, j: int|
                o0.len() <= i < order@.len() && 0 <= j < g.blocks@[order@[i] as int].succs@.len() implies visited@[#[trigger] way_target(
                g,
                order@[i],
                j,
            ) as int] by {
                if i < o3.len() {
                    assert(order@[i] == o3[i]);
                }
            }
        }
        assert(marked_listed(v0, visited@, order@, o0.len() as int)) by {
            assert forall|m: int|
                0 <= m < visited@.len() && #[trigger] visited@[m] && !v0[m] implies exists|i: int|
                o0.len() <= i < order@.len() && #[trigger] order@[i] == m by {
                let i = choose|i: int| o0.len() <= i < o3.len() && #[trigger] o3[i] == m;
                assert(order@[i] == m);
            }
        }
    }
}

impl BlockGraph {
    /// The blocks that can be reached from the head in the order in which
    /// a depth-first walk leaves them: each block behind all blocks that
    /// its ways out lead to, but for those that the walk is still in,
    /// and the head last. The ways out of a block are followed in their
    /// order.
    pub open spec fn spec_postorder(&self) -> Seq<BlockId> {
        spec_leave(
            self,
            Seq::new(self.blocks@.len(), |k: int| false).update(self.head as int, true),
            Seq::empty(),
            self.head,
        ).1
    }

    /// `order` lists the blocks that can be reached from the head, each
    /// once.
    pub open spec fn lists_reachable(&self, order: Seq<BlockId>) -> bool {
        &&& forall|i: int| 0 <= i < order.len() ==> #[trigger] order[i] < self.blocks@.len()
        &&& forall|i: int, j: int| 0 <= i < j < order.len() ==> order[i] != order[j]
        &&& forall|b: BlockId| order.contains(b) <==> b < self.blocks@.len() && self.reachable(b)
    }

    /// All basic blocks that can be reached from the head, each once, in
    /// the order in which a depth-first walk in the direction of control
    /// flow leaves them.
    pub fn postorder(&self) -> (order: Vec<BlockId>)
        requires
            self.wf(),
        ensures
            order@ == self.spec_postorder(),
            self.lists_reachable(order@),
            order@.len() > 0,
            order@.last() == self.head,
    {
        let nb = self.blocks.len();
        let mut visited: Vec<bool> = Vec::new();
        let mut c: usize = 0;
        while c < nb
            invariant
                c <= nb,
                visited@.len() == c,
                forall|k: int| 0 <= k < c ==> !visited@[k],
            decreases nb - c,
        {
            visited.push(false);
            c += 1;
        }
        let mut order: Vec<BlockId> = Vec::new();
        assert(visited@ =~= Seq::new(self.blocks@.len(), |k: int| false));
        visited.set(self.head, true);
        let ghost v0 = visited@;
        proof {
            assert(order@ =~= Seq::<BlockId>::empty());
            assert(self.reachable(self.head));
        }
        leave(self, &mut visited, &mut order, self.head);
        proof {
            let s = Set::new(|b: BlockId| order@.contains(b));
            assert(order@[order@.len() - 1] == self.head);
            assert(s.contains(self.head));
            assert(self.closed_forward(s)) by {
                assert forall|e: EdgeId|
                    e < self.edges@.len() && s.contains(
                        (#[trigger] self.edges@[e as int]).source,
                    ) implies s.contains(self.edges@[e as int].target) by {
                    let src = self.edges@[e as int].source;
                    let t = self.edges@[e as int].target;
                    let j = choose|j: int| 0 <= j < order@.len() && order@[j] == src;
                    let sl = self.blocks@[src as int].succs@;
                    assert(sl.contains(e));
                    let m = choose|m: int| 0 <= m < sl.len() && sl[m] == e;
                    assert(visited@[way_target(self, order@[j], m) as int]);
                    assert(t < self.blocks@.len());
                    if t != self.head {
                        assert(!v0[t as int]);
                        let i = choose|i: int| 0 <= i < order@.len() && #[trigger] order@[i] == t as int;
                        assert(order@[i] == t);
                    }
                }
            }
            assert forall|b: BlockId| order@.contains(b) <==> b < self.blocks@.len()
                && self.reachable(b) by {
                if order@.contains(b) {
                    let j = choose|j: int| 0 <= j < order@.len() && order@[j] == b;
                    assert(self.reachable(order@[j]));
                }
                if b < self.blocks@.len() && self.reachable(b) {
                    assert(s.contains(b));
                }
            }
        }
        order
    }
}

} // verus!

//! In which blocks a variable is live: the least sets that hold, for
//! each block, the variables that the block reads before it writes them,
//! and the variables that are live on entry of a block behind it and that
//! it does not write.
use super::live_variable_analysis::LvaInstr;
use super::VarId;
use crate::firm::walk::{lemma_unvisited_update, unvisited};
use vstd::prelude::*;

verus! {

/// The variables that an instruction reads: all that it names but the
/// one that it writes, which is named last.
pub open spec fn reads(i: LvaInstr) -> Seq<VarId> {
    match i.written {
        Some(v) => if i.vars@.len() > 0 && i.vars@.last() == v {
            i.vars@.drop_last()
        } else {
            i.vars@
        },
        None => i.vars@,
    }
}

/// An instruction from number `lo` up to `hi` reads variable `v`, and
/// none of these before it writes the variable.
pub open spec fn exposed(instrs: Seq<LvaInstr>, lo: int, hi: int, v: VarId) -> bool {
    exists|i: int|
        lo <= i < hi && #[trigger] reads(instrs[i]).contains(v) && forall|j: int|
            lo <= j < i ==> (#[trigger] instrs[j]).written != Some(v)
}

/// An instruction from number `lo` up to `hi` writes variable `v`.
pub open spec fn killed(instrs: Seq<LvaInstr>, lo: int, hi: int, v: VarId) -> bool {
    exists|i: int| lo <= i < hi && (#[trigger] instrs[i]).written == Some(v)
}

/// The number of the first instruction of the block at place `p`, where
/// `ends` holds for each block the number behind its last instruction.
pub open spec fn start_of(ends: Seq<usize>, p: int) -> int {
    if p <= 0 {
        0
    } else {
        ends[p - 1] as int
    }
}

/// The blocks of a function as liveness sees them: the instructions of
/// all blocks, where each block ends, and the places of the blocks behind
/// each block.
pub struct Blocks<'a> {
    pub instrs: &'a Vec<LvaInstr>,
    pub ends: &'a Vec<usize>,
    pub succs: &'a Vec<Vec<usize>>,
}

/// The sets as plain values: for each block and each variable whether the
/// variable is in the set of the block.
pub open spec fn rows(live: Seq<Vec<bool>>) -> Seq<Seq<bool>> {
    Seq::new(live.len(), |p: int| live[p]@)
}

/// `live` has a row for each of `nb` blocks and in it a place for each of
/// `nv` variables.
pub open spec fn shaped(live: Seq<Seq<bool>>, nb: int, nv: int) -> bool {
    live.len() == nb && forall|p: int| 0 <= p < nb ==> (#[trigger] live[p]).len() == nv
}

/// The number of places of the first `n` rows that are not set.
pub open spec fn unset(live: Seq<Seq<bool>>, n: nat) -> nat
    decreases n,
{
    if n == 0 || n > live.len() {
        0
    } else {
        unset(live, (n - 1) as nat) + unvisited(live[n - 1])
    }
}

proof fn lemma_unset_same(a: Seq<Seq<bool>>, b: Seq<Seq<bool>>, n: nat)
    requires
        n <= a.len(),
        n <= b.len(),
        forall|p: int| 0 <= p < n ==> a[p] == b[p],
    ensures
        unset(a, n) == unset(b, n),
    decreases n,
{
    if n > 0 {
        lemma_unset_same(a, b, (n - 1) as nat);
    }
}

/// Setting a place that was not set leaves one place less that is not
/// set.
proof fn lemma_unset_update(a: Seq<Seq<bool>>, b: Seq<Seq<bool>>, p: int, x: int, n: nat)
    requires
        a.len() == b.len(),
        n <= a.len(),
        0 <= p < a.len(),
        0 <= x < a[p].len(),
        !a[p][x],
        b[p] == a[p].update(x, true),
        forall|q: int| 0 <= q < a.len() && q != p ==> a[q] == b[q],
    ensures
        unset(b, n) + (if p < n {
            1int
        } else {
            0int
        }) == unset(a, n),
    decreases n,
{
    if n > 0 {
        lemma_unset_update(a, b, p, x, (n - 1) as nat);
        if p == n - 1 {
            lemma_unvisited_update(a[p], x);
        }
    }
}

impl<'a> Blocks<'a> {
    /// Each block ends where or behind where the block before it ends,
    /// none behind the last instruction, and the places of the blocks
    /// behind a block are places of blocks.
    pub open spec fn wf(&self) -> bool {
        &&& self.ends@.len() == self.succs@.len()
        &&& forall|p: int|
            0 <= p < self.ends@.len() ==> start_of(self.ends@, p) <= (#[trigger] self.ends@[p])
                <= self.instrs@.len()
        &&& forall|p: int, k: int|
            0 <= p < self.succs@.len() && 0 <= k < self.succs@[p]@.len() ==> (
            #[trigger] self.succs@[p]@[k]) < self.ends@.len()
    }

    /// The block at place `p` reads variable `v` before it writes it.
    pub open spec fn gen(&self, p: int, v: VarId) -> bool {
        exposed(self.instrs@, start_of(self.ends@, p), self.ends@[p] as int, v)
    }

    /// The block at place `p` writes variable `v`.
    pub open spec fn kill(&self, p: int, v: VarId) -> bool {
        killed(self.instrs@, start_of(self.ends@, p), self.ends@[p] as int, v)
    }

    /// Variable `v`, which is number `x`, is in the set of a block behind
    /// the block at place `p`.
    pub open spec fn live_behind(&self, live: Seq<Seq<bool>>, p: int, x: int) -> bool {
        exists|k: int| 0 <= k < self.succs@[p]@.len() && live[#[trigger] self.succs@[p]@[k] as int][x]
    }

    /// Variable number `x` of `vars` has to be in the set of the block at
    /// place `p`: the block reads it before it writes it, or it is in the
    /// set of a block behind and the block does not write it.
    pub open spec fn forced(&self, vars: Seq<VarId>, live: Seq<Seq<bool>>, p: int, x: int) -> bool {
        self.gen(p, vars[x]) || (!self.kill(p, vars[x]) && self.live_behind(live, p, x))
    }

    /// The sets hold every variable that has to be in them.
    pub open spec fn closed(&self, vars: Seq<VarId>, live: Seq<Seq<bool>>) -> bool {
        forall|p: int, x: int|
            0 <= p < self.ends@.len() && 0 <= x < vars.len() && #[trigger] self.forced(
                vars,
                live,
                p,
                x,
            ) ==> live[p][x]
    }

    /// Every set of `live` lies in the set of `other` for the same block.
    pub open spec fn within(live: Seq<Seq<bool>>, other: Seq<Seq<bool>>) -> bool {
        forall|p: int, x: int|
            0 <= p < live.len() && 0 <= x < live[p].len() && #[trigger] live[p][x] ==> other[p][x]
    }

    /// The sets lie in all sets that hold every variable that has to be in
    /// them.
    pub open spec fn least(&self, vars: Seq<VarId>, live: Seq<Seq<bool>>) -> bool {
        forall|other: Seq<Seq<bool>>|
            shaped(other, self.ends@.len() as int, vars.len() as int) && #[trigger] self.closed(
                vars,
                other,
            ) ==> Self::within(live, other)
    }

    /// The sets are the sets of the variables that are live on entry of
    /// each block: the least sets that hold every variable that has to be
    /// in them.
    pub open spec fn is_liveness(&self, vars: Seq<VarId>, live: Seq<Seq<bool>>) -> bool {
        &&& shaped(live, self.ends@.len() as int, vars.len() as int)
        &&& self.closed(vars, live)
        &&& self.least(vars, live)
    }

    /// The number of the first instruction of the block at place `p`.
    pub fn start(&self, p: usize) -> (r: usize)
        requires
            self.wf(),
            p < self.ends@.len(),
        ensures
            r == start_of(self.ends@, p as int),
            r <= self.ends@[p as int],
    {
        if p == 0 {
            0
        } else {
            self.ends[p - 1]
        }
    }

    /// Whether the block at place `p` reads variable `v` before it writes
    /// it.
    pub fn is_gen(&self, p: usize, v: VarId) -> (r: bool)
        requires
            self.wf(),
            p < self.ends@.len(),
        ensures
            r == self.gen(p as int, v),
    {
        let lo = self.start(p);
        let hi = self.ends[p];
        let mut i: usize = lo;
        while i < hi
            invariant
                lo <= i <= hi <= self.instrs@.len(),
                lo == start_of(self.ends@, p as int),
                hi == self.ends@[p as int],
                forall|j: int| lo <= j < i ==> (#[trigger] self.instrs@[j]).written != Some(v),
                forall|j: int| lo <= j < i ==> !#[trigger] reads(self.instrs@[j]).contains(v),
            decreases hi - i,
        {
            if reads_var(&self.instrs[i], v) {
                assert(reads(self.instrs@[i as int]).contains(v));
                assert(exposed(self.instrs@, lo as int, hi as int, v));
                return true;
            }
            if writes_var(&self.instrs[i], v) {
                proof {
                    if exposed(self.instrs@, lo as int, hi as int, v) {
                        let c = choose|c: int|
                            lo <= c < hi && #[trigger] reads(self.instrs@[c]).contains(v)
                                && forall|j: int|
                                lo <= j < c ==> (#[trigger] self.instrs@[j]).written != Some(v);
                        if c > i {
                            assert(self.instrs@[i as int].written != Some(v));
                        }
                    }
                }
                return false;
            }
            i += 1;
        }
        proof {
            if exposed(self.instrs@, lo as int, hi as int, v) {
                let c = choose|c: int|
                    lo <= c < hi && #[trigger] reads(self.instrs@[c]).contains(v) && forall|j: int|
                        lo <= j < c ==> (#[trigger] self.instrs@[j]).written != Some(v);
                assert(!reads(self.instrs@[c]).contains(v));
            }
        }
        false
    }

    /// Whether the block at place `p` writes variable `v`.
    pub fn is_kill(&self, p: usize, v: VarId) -> (r: bool)
        requires
            self.wf(),
            p < self.ends@.len(),
        ensures
            r == self.kill(p as int, v),
    {
        let lo = self.start(p);
        let hi = self.ends[p];
        let mut i: usize = lo;
        while i < hi
            invariant
                lo <= i <= hi <= self.instrs@.len(),
                lo == start_of(self.ends@, p as int),
                hi == self.ends@[p as int],
                forall|j: int| lo <= j < i ==> (#[trigger] self.instrs@[j]).written != Some(v),
            decreases hi - i,
        {
            if writes_var(&self.instrs[i], v) {
                assert(self.instrs@[i as int].written == Some(v));
                assert(killed(self.instrs@, lo as int, hi as int, v));
                return true;
            }
            i += 1;
        }
        false
    }

    /// Whether variable number `x` is in the set of a block behind the
    /// block at place `p`.
    pub fn is_live_behind(&self, live: &Vec<Vec<bool>>, p: usize, x: usize) -> (r: bool)
        requires
            self.wf(),
            p < self.ends@.len(),
            live@.len() == self.ends@.len(),
            forall|q: int| 0 <= q < live@.len() ==> x < (#[trigger] live@[q])@.len(),
        ensures
            r == self.live_behind(rows(live@), p as int, x as int),
    {
        let succs = &self.succs[p];
        let mut k: usize = 0;
        while k < succs.len()
            invariant
                k <= succs@.len(),
                succs@ == self.succs@[p as int]@,
                self.wf(),
                p < self.ends@.len(),
                live@.len() == self.ends@.len(),
                forall|q: int| 0 <= q < live@.len() ==> x < (#[trigger] live@[q])@.len(),
                forall|j: int| 0 <= j < k ==> !rows(live@)[#[trigger] succs@[j] as int][x as int],
            decreases succs@.len() - k,
        {
            let s = succs[k];
            assert(self.succs@[p as int]@[k as int] == s);
            if live[s][x] {
                assert(rows(live@)[s as int][x as int]);
                return true;
            }
            k += 1;
        }
        false
    }

    /// The sets of the variables `vars` that are live on entry of each
    /// block.
    pub fn liveness(&self, vars: &Vec<VarId>) -> (live: Vec<Vec<bool>>)
        requires
            self.wf(),
        ensures
            self.is_liveness(vars@, rows(live@)),
    {
        let nb = self.ends.len();
        let nv = vars.len();
        let mut live: Vec<Vec<bool>> = Vec::new();
        let mut p: usize = 0;
        while p < nb
            invariant
                p <= nb,
                live@.len() == p,
                forall|q: int| 0 <= q < p ==> (#[trigger] live@[q])@.len() == nv,
                forall|q: int, x: int| 0 <= q < p && 0 <= x < nv ==> !#[trigger] live@[q]@[x],
            decreases nb - p,
        {
            let mut row: Vec<bool> = Vec::new();
            let mut x: usize = 0;
            while x < nv
                invariant
                    x <= nv,
                    row@.len() == x,
                    forall|y: int| 0 <= y < x ==> !row@[y],
                decreases nv - x,
            {
                row.push(false);
                x += 1;
            }
            live.push(row);
            p += 1;
        }
        proof {
            assert(shaped(rows(live@), nb as int, nv as int));
            assert(self.least(vars@, rows(live@)));
        }
        loop
            invariant
                self.wf(),
                nb == self.ends@.len(),
                nv == vars@.len(),
                live@.len() == nb,
                shaped(rows(live@), nb as int, nv as int),
                self.least(vars@, rows(live@)),
            ensures
                self.closed(vars@, rows(live@)),
            decreases unset(rows(live@), nb as nat),
        {
            let ghost first = rows(live@);
            let mut changed = false;
            let mut p: usize = 0;
            while p < nb
                invariant
                    self.wf(),
                    nb == self.ends@.len(),
                    nv == vars@.len(),
                    p <= nb,
                    live@.len() == nb,
                    shaped(rows(live@), nb as int, nv as int),
                    self.least(vars@, rows(live@)),
                    !changed ==> rows(live@) == first,
                    !changed ==> forall|q: int, y: int|
                        0 <= q < p && 0 <= y < nv && #[trigger] self.forced(vars@, first, q, y)
                            ==> first[q][y],
                    unset(rows(live@), nb as nat) <= unset(first, nb as nat),
                    changed ==> unset(rows(live@), nb as nat) < unset(first, nb as nat),
                decreases nb - p,
            {
                let mut x: usize = 0;
                while x < nv
                    invariant
                        self.wf(),
                        nb == self.ends@.len(),
                        nv == vars@.len(),
                        p < nb,
                        x <= nv,
                        live@.len() == nb,
                        shaped(rows(live@), nb as int, nv as int),
                        self.least(vars@, rows(live@)),
                        !changed ==> rows(live@) == first,
                        !changed ==> forall|q: int, y: int|
                            0 <= q < p && 0 <= y < nv && #[trigger] self.forced(vars@, first, q, y)
                                ==> first[q][y],
                        !changed ==> forall|y: int|
                            0 <= y < x && #[trigger] self.forced(vars@, first, p as int, y)
                                ==> first[p as int][y],
                        unset(rows(live@), nb as nat) <= unset(first, nb as nat),
                        changed ==> unset(rows(live@), nb as nat) < unset(first, nb as nat),
                    decreases nv - x,
                {
                    assert(rows(live@)[p as int].len() == nv);
                    assert forall|q: int| 0 <= q < live@.len() implies x < (#[trigger] live@[q])@.len() by {
                        assert(rows(live@)[q].len() == nv);
                    }
                    if !live[p][x] {
                        let v = vars[x];
                        let forced = self.is_gen(p, v) || (!self.is_kill(p, v)
                            && self.is_live_behind(&live, p, x));
                        if forced {
                            let ghost before = rows(live@);
                            let row = with_set(&live[p], x);
                            live.set(p, row);
                            proof {
                                let after = rows(live@);
                                assert(after[p as int] =~= before[p as int].update(x as int, true));
                                assert forall|q: int| 0 <= q < nb && q != p implies before[q]
                                    == after[q] by {}
                                lemma_unset_update(before, after, p as int, x as int, nb as nat);
                                assert(shaped(after, nb as int, nv as int)) by {
                                    assert forall|q: int| 0 <= q < nb implies (
                                    #[trigger] after[q]).len() == nv by {
                                        if q != p {
                                            assert(before[q].len() == nv);
                                        }
                                    }
                                }
                                assert(self.forced(vars@, before, p as int, x as int));
                                assert forall|other: Seq<Seq<bool>>|
                                    shaped(other, nb as int, nv as int) && #[trigger] self.closed(
                                        vars@,
                                        other,
                                    ) implies Self::within(after, other) by {
                                    assert(Self::within(before, other));
                                    if self.live_behind(before, p as int, x as int) {
                                        let k = choose|k: int|
                                            0 <= k < self.succs@[p as int]@.len() && before[(
                                            #[trigger] self.succs@[p as int]@[k]) as int][x as int];
                                        let s = self.succs@[p as int]@[k] as int;
                                        assert(before[s].len() == nv);
                                        assert(before[s][x as int]);
                                        assert(other[s][x as int]);
                                        assert(self.live_behind(other, p as int, x as int));
                                    }
                                    assert(self.forced(vars@, other, p as int, x as int));
                                    assert(other[p as int][x as int]);
                                    assert forall|q: int, y: int|
                                        0 <= q < after.len() && 0 <= y < after[q].len()
                                            && #[trigger] after[q][y] implies other[q][y] by {
                                        if q == p && y == x {
                                        } else {
                                            assert(before[q][y]);
                                        }
                                    }
                                }
                            }
                            changed = true;
                        }
                    }
                    x += 1;
                }
                p += 1;
            }
            if !changed {
                break ;
            }
        }
        live
    }
}

/// The row with place `x` set.
fn with_set(row: &Vec<bool>, x: usize) -> (r: Vec<bool>)
    requires
        x < row@.len(),
    ensures
        r@ == row@.update(x as int, true),
{
    let mut r: Vec<bool> = Vec::new();
    let mut y: usize = 0;
    while y < row.len()
        invariant
            y <= row@.len(),
            r@.len() == y,
            forall|k: int| 0 <= k < y ==> r@[k] == (k == x || row@[k]),
        decreases row@.len() - y,
    {
        r.push(y == x || row[y]);
        y += 1;
    }
    assert(r@ =~= row@.update(x as int, true));
    r
}

/// Whether an instruction reads variable `v`.
pub fn reads_var(i: &LvaInstr, v: VarId) -> (r: bool)
    ensures
        r == reads(*i).contains(v),
{
    let n = i.vars.len();
    let upto = match i.written {
        Some(w) => if n > 0 && i.vars[n - 1] == w {
            n - 1
        } else {
            n
        },
        None => n,
    };
    assert(reads(*i) =~= i.vars@.subrange(0, upto as int));
    let mut k: usize = 0;
    while k < upto
        invariant
            k <= upto <= i.vars@.len(),
            reads(*i) == i.vars@.subrange(0, upto as int),
            forall|j: int| 0 <= j < k ==> i.vars@[j] != v,
        decreases upto - k,
    {
        if i.vars[k] == v {
            assert(i.vars@.subrange(0, upto as int)[k as int] == v);
            assert(reads(*i)[k as int] == v);
            return true;
        }
        k += 1;
    }
    assert forall|j: int| 0 <= j < upto implies i.vars@.subrange(0, upto as int)[j] != v by {}
    false
}

/// Whether an instruction writes variable `v`.
pub fn writes_var(i: &LvaInstr, v: VarId) -> (r: bool)
    ensures
        r == (i.written == Some(v)),
{
    match i.written {
        Some(w) => w == v,
        None => false,
    }
}

} // verus!

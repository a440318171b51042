//! Linear-scan register allocation: the live ranges of the variables are
//! gone through in the order of their starts, and each gets a register
//! that no range holds which is still live, or a place on the stack when
//! all registers are taken.
use super::{callee_save_regs, caller_save_regs, Amd64Reg, VarId};
use interval::prelude::{Bounded, Interval, Overlap, Range};
use crate::firm::walk::{lemma_unvisited_update, unvisited};
use vstd::prelude::*;

verus! {

/// A closed interval of the outside crate `interval`.
#[verifier::external_type_specification]
#[verifier::external_body]
#[verifier::reject_recursive_types(Bound)]
pub struct ExInterval<Bound>(Interval<Bound>);

/// The numbers that lie in a closed interval.
pub uninterp spec fn interval_points(i: Interval<usize>) -> Set<int>;

/// Every number of the interval is below the largest number of a machine
/// word, which no interval can hold.
pub open spec fn bounded(i: Interval<usize>) -> bool {
    forall|x: int| #[trigger] interval_points(i).contains(x) ==> 0 <= x < usize::MAX
}

/// The interval holds a number.
pub open spec fn inhabited(i: Interval<usize>) -> bool {
    exists|x: int| interval_points(i).contains(x)
}

/// The two intervals have a number in common.
pub open spec fn meet(a: Interval<usize>, b: Interval<usize>) -> bool {
    exists|x: int| interval_points(a).contains(x) && interval_points(b).contains(x)
}

/// `Range::new` for `Interval`: the interval that holds the numbers from
/// `lo` to `hi`, both included. The upper bound must be below the largest
/// number of a machine word.
#[verifier::external_body]
fn interval_new(lo: usize, hi: usize) -> (r: Interval<usize>)
    requires
        hi < usize::MAX,
    ensures
        interval_points(r) == Set::new(|x: int| lo <= x <= hi),
{
    Interval::new(lo, hi)
}

/// `Bounded::lower` for `Interval`: the least number of an interval that
/// holds one.
#[verifier::external_body]
fn interval_lower(i: &Interval<usize>) -> (r: usize)
    requires
        inhabited(*i),
        bounded(*i),
    ensures
        interval_points(*i).contains(r as int),
        forall|x: int| #[trigger] interval_points(*i).contains(x) ==> r <= x,
{
    i.lower()
}

/// `Bounded::upper` for `Interval`: the greatest number of an interval
/// that holds one.
#[verifier::external_body]
fn interval_upper(i: &Interval<usize>) -> (r: usize)
    requires
        inhabited(*i),
        bounded(*i),
    ensures
        interval_points(*i).contains(r as int),
        forall|x: int| #[trigger] interval_points(*i).contains(x) ==> x <= r,
{
    i.upper()
}

/// `Overlap::overlap` for two `Interval`s: whether they have a number in
/// common.
#[verifier::external_body]
fn interval_overlap(a: &Interval<usize>, b: &Interval<usize>) -> (r: bool)
    requires
        bounded(*a),
        bounded(*b),
    ensures
        r == meet(*a, *b),
{
    a.overlap(b)
}

/// A variable with the stretch of instructions over which it is live.
pub struct LiveRange {
    pub var_id: VarId,
    pub interval: Interval<usize>,
}

impl LiveRange {
    /// The range holds an instruction, and only instructions that can be
    /// numbered.
    pub open spec fn wf(&self) -> bool {
        inhabited(self.interval) && bounded(self.interval)
    }

    /// The instructions over which the variable is live.
    pub open spec fn points(&self) -> Set<int> {
        interval_points(self.interval)
    }

    /// The range of a variable that is live from instruction `first` to
    /// instruction `last`, both included.
    pub fn new(var_id: VarId, first: usize, last: usize) -> (r: LiveRange)
        requires
            first <= last < usize::MAX,
        ensures
            r.wf(),
            r.var_id == var_id,
            r.points() == Set::new(|x: int| first <= x <= last),
    {
        let interval = interval_new(first, last);
        assert(interval_points(interval).contains(first as int));
        LiveRange { var_id, interval }
    }

    /// The first instruction at which the variable is live.
    pub fn start(&self) -> (r: usize)
        requires
            self.wf(),
        ensures
            self.points().contains(r as int),
            forall|x: int| #[trigger] self.points().contains(x) ==> r <= x,
    {
        interval_lower(&self.interval)
    }

    /// The last instruction at which the variable is live.
    pub fn end(&self) -> (r: usize)
        requires
            self.wf(),
        ensures
            self.points().contains(r as int),
            forall|x: int| #[trigger] self.points().contains(x) ==> x <= r,
    {
        interval_upper(&self.interval)
    }

    /// Whether the two variables are live at one instruction.
    pub fn overlaps(&self, other: &LiveRange) -> (r: bool)
        requires
            self.wf(),
            other.wf(),
        ensures
            r == !self.points().disjoint(other.points()),
    {
        let r = interval_overlap(&self.interval, &other.interval);
        proof {
            if r {
                let x = choose|x: int|
                    interval_points(self.interval).contains(x) && interval_points(
                        other.interval,
                    ).contains(x);
                assert(self.points().contains(x) && other.points().contains(x));
            }
        }
        r
    }
}

/// Where the value of a variable is kept.
#[derive(Debug, Copy, Clone, PartialEq, Eq, Structural)]
pub enum Location {
    Reg(Amd64Reg),
    /// A place on the stack, by its number.
    Stack(usize),
}

/// The registers that are allocated, in the order in which they are
/// taken: the caller-save registers first.
pub open spec fn pool() -> Seq<Amd64Reg> {
    caller_save_regs() + callee_save_regs()
}

/// Register number `i` of the pool.
pub fn pool_reg(i: usize) -> (r: Amd64Reg)
    requires
        i < 14,
    ensures
        r == pool()[i as int],
{
    if i < 9 {
        Amd64Reg::caller_save(i)
    } else {
        Amd64Reg::callee_save(i - 9)
    }
}

/// Allocates registers for live ranges.
pub struct LinearScanAllocator {
    pub var_live: Vec<LiveRange>,
    /// Where each variable is kept, in the order of the live ranges. It is
    /// filled by `run`.
    pub var_location: Vec<(VarId, Location)>,
    /// How many registers of the pool the allocation uses: the first so
    /// many.
    pub num_regs_required: usize,
    /// How many places on the stack the allocation uses.
    pub spill_count: usize,
}

/// The ranges `i` and `j` are kept in one register.
pub open spec fn same_reg(locs: Seq<Option<Location>>, i: int, j: int) -> bool {
    locs[i] is Some && locs[i]->0 is Reg && locs[j] == locs[i]
}

/// No two variables that are live at one instruction are kept in one
/// register.
pub open spec fn no_conflict(ranges: Seq<LiveRange>, locs: Seq<Option<Location>>) -> bool {
    forall|i: int, j: int|
        0 <= i < ranges.len() && 0 <= j < ranges.len() && i != j && #[trigger] same_reg(locs, i, j)
            ==> ranges[i].points().disjoint(ranges[j].points())
}

/// `starts` and `ends` are the first and the last instruction of each
/// range.
pub open spec fn bounds_ok(ranges: Seq<LiveRange>, starts: Seq<usize>, ends: Seq<usize>) -> bool {
    &&& starts.len() == ranges.len()
    &&& ends.len() == ranges.len()
    &&& forall|i: int, x: int|
        0 <= i < ranges.len() && #[trigger] ranges[i].points().contains(x) ==> starts[i] <= x
            <= ends[i]
}

/// Where every range is done, none is left.
pub proof fn lemma_all_visited(done: Seq<bool>)
    requires
        forall|k: int| 0 <= k < done.len() ==> #[trigger] done[k],
    ensures
        unvisited(done) == 0,
    decreases done.len(),
{
    if done.len() > 0 {
        assert(done.last());
        lemma_all_visited(done.drop_last());
    }
}

/// `r` is the range that is gone through next: of the ranges that are
/// not done the first of those that start first, and none when all are
/// done.
pub open spec fn is_next(starts: Seq<usize>, done: Seq<bool>, r: Option<usize>) -> bool {
    match r {
        Some(c) => {
            &&& c < starts.len()
            &&& !done[c as int]
            &&& forall|k: int| 0 <= k < starts.len() && !done[k] ==> starts[c as int] <= #[trigger] starts[k]
            &&& forall|k: int| 0 <= k < c && !done[k] ==> starts[c as int] < #[trigger] starts[k]
        },
        None => forall|k: int| 0 <= k < done.len() ==> #[trigger] done[k],
    }
}

/// The index of a range that is not done and starts first, if one is not
/// done.
fn next_range(starts: &Vec<usize>, done: &Vec<bool>) -> (r: Option<usize>)
    requires
        starts@.len() == done@.len(),
    ensures
        r matches Some(c) ==> c < starts@.len() && !done@[c as int] && forall|k: int|
            0 <= k < starts@.len() && !done@[k] ==> starts@[c as int] <= #[trigger] starts@[k],
        r is None ==> forall|k: int| 0 <= k < done@.len() ==> #[trigger] done@[k],
        is_next(starts@, done@, r),
{
    let mut best: Option<usize> = None;
    let mut k: usize = 0;
    while k < starts.len()
        invariant
            k <= starts@.len(),
            starts@.len() == done@.len(),
            best matches Some(c) ==> c < k && !done@[c as int] && forall|j: int|
                0 <= j < k && !done@[j] ==> starts@[c as int] <= #[trigger] starts@[j],
            best matches Some(c) ==> forall|j: int|
                0 <= j < c && !done@[j] ==> starts@[c as int] < #[trigger] starts@[j],
            best is None ==> forall|j: int| 0 <= j < k ==> #[trigger] done@[j],
        decreases starts@.len() - k,
    {
        if !done[k] {
            match best {
                Some(c) => {
                    if starts[k] < starts[c] {
                        best = Some(k);
                    }
                },
                None => {
                    best = Some(k);
                },
            }
        }
        k += 1;
    }
    best
}

/// Of the first `n` active ranges those that have not ended before
/// `now`, in their order.
pub open spec fn survivors(active: Seq<usize>, ends: Seq<usize>, now: int, n: nat) -> Seq<usize>
    decreases n,
{
    if n == 0 || n > active.len() {
        Seq::empty()
    } else {
        let rest = survivors(active, ends, now, (n - 1) as nat);
        if ends[active[n - 1] as int] >= now {
            rest.push(active[n - 1])
        } else {
            rest
        }
    }
}

/// An active range holds register number `p` of the pool.
pub open spec fn is_held(locs: Seq<Option<Location>>, active: Seq<usize>, p: int) -> bool {
    exists|a: int|
        0 <= a < active.len() && locs[#[trigger] active[a] as int] == Some(
            Location::Reg(pool()[p]),
        )
}

/// `r` is the first register of the pool that no active range holds, and
/// none when all are held.
pub open spec fn is_first_free(
    locs: Seq<Option<Location>>,
    active: Seq<usize>,
    r: Option<usize>,
) -> bool {
    match r {
        Some(p) => p < 14 && !is_held(locs, active, p as int) && forall|q: int|
            0 <= q < p ==> #[trigger] is_held(locs, active, q),
        None => forall|q: int| 0 <= q < 14 ==> #[trigger] is_held(locs, active, q),
    }
}

/// `a` is the index of the first of the active ranges that end last.
pub open spec fn is_latest(active: Seq<usize>, ends: Seq<usize>, a: int) -> bool {
    &&& 0 <= a < active.len()
    &&& forall|x: int|
        0 <= x < active.len() ==> ends[#[trigger] active[x] as int] <= ends[active[a] as int]
    &&& forall|x: int| 0 <= x < a ==> ends[#[trigger] active[x] as int] < ends[active[a] as int]
}

/// The state of the allocation while the ranges are gone through.
pub struct Scan {
    pub done: Vec<bool>,
    pub locs: Vec<Option<Location>>,
    /// The ranges that hold a register and may still be live.
    pub active: Vec<usize>,
    pub spills: usize,
    pub regs_used: usize,
}

impl Scan {
    /// The ranges that are done have a place and the others have none,
    /// the active ranges hold registers, and the places on the stack that
    /// are used are the first so many.
    pub open spec fn shape(&self, n: int) -> bool {
        &&& self.done@.len() == n
        &&& self.locs@.len() == n
        &&& self.regs_used <= 14
        &&& forall|k: int| 0 <= k < n ==> (#[trigger] self.done@[k] <==> self.locs@[k] is Some)
        &&& forall|a: int|
            0 <= a < self.active@.len() ==> {
                let k = #[trigger] self.active@[a];
                k < n && self.locs@[k as int] is Some && self.locs@[k as int]->0 is Reg
            }
        &&& forall|a: int, b: int|
            0 <= a < b < self.active@.len() ==> self.active@[a] != self.active@[b]
                && self.locs@[self.active@[a] as int] != self.locs@[self.active@[b] as int]
        &&& forall|k: int|
            0 <= k < n ==> (#[trigger] self.locs@[k] matches Some(Location::Stack(s)) ==> s
                < self.spills)
        &&& forall|k: int|
            0 <= k < n ==> (#[trigger] self.locs@[k] matches Some(Location::Reg(r))
                ==> exists|p: int| 0 <= p < self.regs_used && pool()[p] == r)
    }

    /// The ranges that hold a register and are not active have ended
    /// before `now`.
    pub open spec fn expired(&self, ends: Seq<usize>, now: int) -> bool {
        forall|k: usize|
            k < self.locs@.len() && (#[trigger] self.locs@[k as int]) is Some
                && self.locs@[k as int]->0 is Reg && !self.active@.contains(k) ==> ends[k as int]
                < now
    }

    /// The invariant of the scan at the start `now` of the range that is
    /// gone through.
    pub open spec fn inv(&self, ranges: Seq<LiveRange>, ends: Seq<usize>, now: int) -> bool {
        &&& self.shape(ranges.len() as int)
        &&& self.expired(ends, now)
        &&& no_conflict(ranges, self.locs@)
    }

    /// Takes the ranges that have ended before `now` out of the active
    /// ranges.
    fn expire(&mut self, ends: &Vec<usize>, now: usize)
        requires
            old(self).shape(ends@.len() as int),
            exists|before: int| before <= now && old(self).expired(ends@, before),
        ensures
            final(self).shape(ends@.len() as int),
            final(self).expired(ends@, now as int),
            final(self).done == old(self).done,
            final(self).locs == old(self).locs,
            final(self).spills == old(self).spills,
            final(self).regs_used == old(self).regs_used,
            forall|a: int|
                0 <= a < final(self).active@.len() ==> ends@[#[trigger] final(self).active@[a] as int]
                    >= now,
            final(self).active@ == survivors(
                old(self).active@,
                ends@,
                now as int,
                old(self).active@.len(),
            ),
    {
        let mut kept: Vec<usize> = Vec::new();
        let mut a: usize = 0;
        let n = self.active.len();
        let ghost before = choose|before: int| before <= now && old(self).expired(ends@, before);
        let ghost mut idx: Seq<int> = Seq::empty();
        while a < n
            invariant
                a <= n,
                n == self.active@.len(),
                *self == *old(self),
                self.shape(ends@.len() as int),
                kept@ == survivors(self.active@, ends@, now as int, a as nat),
                idx.len() == kept@.len(),
                forall|x: int|
                    0 <= x < kept@.len() ==> 0 <= #[trigger] idx[x] < a && kept@[x]
                        == self.active@[idx[x]] && ends@[kept@[x] as int] >= now,
                forall|x: int, y: int| 0 <= x < y < kept@.len() ==> idx[x] < idx[y],
                forall|p: int|
                    0 <= p < a && ends@[#[trigger] self.active@[p] as int] >= now ==> exists|x: int|
                        0 <= x < kept@.len() && #[trigger] idx[x] == p,
            decreases n - a,
        {
            let k = self.active[a];
            assert(self.active@[a as int] == k);
            if ends[k] >= now {
                let ghost old_idx = idx;
                kept.push(k);
                proof {
                    idx = idx.push(a as int);
                    assert forall|p: int|
                        0 <= p < a + 1 && ends@[#[trigger] self.active@[p] as int]
                            >= now implies exists|x: int|
                        0 <= x < kept@.len() && #[trigger] idx[x] == p by {
                        if p < a {
                            let x = choose|x: int| 0 <= x < old_idx.len() && #[trigger] old_idx[x] == p;
                            assert(idx[x] == p);
                        } else {
                            assert(idx[old_idx.len() as int] == p);
                        }
                    }
                }
            }
            a += 1;
        }
        let ghost o = *self;
        self.active = kept;
        proof {
            assert forall|x: int| 0 <= x < self.active@.len() implies ends@[#[trigger] self.active@[x] as int]
                >= now by {
                assert(0 <= idx[x]);
            }
            assert forall|x: int, y: int| 0 <= x < y < self.active@.len() implies self.active@[x]
                != self.active@[y] && self.locs@[self.active@[x] as int]
                != self.locs@[self.active@[y] as int] by {
                assert(idx[x] < idx[y]);
                assert(o.active@[idx[x]] != o.active@[idx[y]]);
            }
            assert forall|x: int| 0 <= x < self.active@.len() implies {
                let k = #[trigger] self.active@[x];
                k < ends@.len() && self.locs@[k as int] is Some && self.locs@[k as int]->0 is Reg
            } by {
                assert(self.active@[x] == o.active@[idx[x]]);
            }
            assert forall|k: usize|
                k < self.locs@.len() && (#[trigger] self.locs@[k as int]) is Some
                    && self.locs@[k as int]->0 is Reg && !self.active@.contains(
                    k,
                ) implies ends@[k as int] < now by {
                if o.active@.contains(k) {
                    let p = choose|p: int| 0 <= p < o.active@.len() && o.active@[p] == k;
                    if ends@[k as int] >= now {
                        assert(ends@[o.active@[p] as int] >= now);
                        let x = choose|x: int| 0 <= x < self.active@.len() && #[trigger] idx[x] == p;
                        assert(self.active@[x] == k);
                    }
                } else {
                    assert(ends@[k as int] < before);
                }
            }
        }
    }

    /// The first register of the pool that no active range holds, if
    /// there is one.
    fn first_free(&self) -> (r: Option<usize>)
        requires
            self.shape(self.locs@.len() as int),
        ensures
            r matches Some(p) ==> p < 14 && forall|a: int|
                0 <= a < self.active@.len() ==> self.locs@[#[trigger] self.active@[a] as int]
                    != Some(Location::Reg(pool()[p as int])),
            r is None ==> self.active@.len() > 0,
            is_first_free(self.locs@, self.active@, r),
    {
        let mut p: usize = 0;
        while p < 14
            invariant
                p <= 14,
                self.shape(self.locs@.len() as int),
                p > 0 ==> self.active@.len() > 0,
                forall|q: int| 0 <= q < p ==> #[trigger] is_held(self.locs@, self.active@, q),
            decreases 14 - p,
        {
            let reg = pool_reg(p);
            let mut held = false;
            let mut a: usize = 0;
            while a < self.active.len()
                invariant
                    a <= self.active@.len(),
                    p < 14,
                    reg == pool()[p as int],
                    self.shape(self.locs@.len() as int),
                    !held ==> forall|x: int|
                        0 <= x < a ==> self.locs@[#[trigger] self.active@[x] as int] != Some(
                            Location::Reg(reg),
                        ),
                    held ==> self.active@.len() > 0,
                    held ==> is_held(self.locs@, self.active@, p as int),
                decreases self.active@.len() - a,
            {
                let k = self.active[a];
                assert(self.active@[a as int] == k);
                match self.locs[k] {
                    Some(Location::Reg(r)) => {
                        if reg_index(r) == reg_index(reg) {
                            held = true;
                            assert(r == reg);
                            assert(self.locs@[self.active@[a as int] as int] == Some(
                                Location::Reg(pool()[p as int]),
                            ));
                        }
                    },
                    _ => {},
                }
                a += 1;
            }
            if !held {
                return Some(p);
            }
            p += 1;
        }
        None
    }
}

/// The number of a register. Two registers are the same exactly when
/// their numbers are.
pub fn reg_index(r: Amd64Reg) -> (i: u8)
    ensures
        i == spec_reg_index(r),
{
    match r {
        Amd64Reg::Rax => 0,
        Amd64Reg::Rbx => 1,
        Amd64Reg::Rcx => 2,
        Amd64Reg::Rdx => 3,
        Amd64Reg::Rsi => 4,
        Amd64Reg::Rdi => 5,
        Amd64Reg::Rbp => 6,
        Amd64Reg::Rsp => 7,
        Amd64Reg::R8 => 8,
        Amd64Reg::R9 => 9,
        Amd64Reg::R10 => 10,
        Amd64Reg::R11 => 11,
        Amd64Reg::R12 => 12,
        Amd64Reg::R13 => 13,
        Amd64Reg::R14 => 14,
        Amd64Reg::R15 => 15,
    }
}

/// The number of a register.
pub open spec fn spec_reg_index(r: Amd64Reg) -> u8 {
    match r {
        Amd64Reg::Rax => 0,
        Amd64Reg::Rbx => 1,
        Amd64Reg::Rcx => 2,
        Amd64Reg::Rdx => 3,
        Amd64Reg::Rsi => 4,
        Amd64Reg::Rdi => 5,
        Amd64Reg::Rbp => 6,
        Amd64Reg::Rsp => 7,
        Amd64Reg::R8 => 8,
        Amd64Reg::R9 => 9,
        Amd64Reg::R10 => 10,
        Amd64Reg::R11 => 11,
        Amd64Reg::R12 => 12,
        Amd64Reg::R13 => 13,
        Amd64Reg::R14 => 14,
        Amd64Reg::R15 => 15,
    }
}


/// Range `c` takes register number `p` of the pool, which was free.
pub open spec fn took_free(o: &Scan, n: &Scan, c: usize, p: usize) -> bool {
    &&& n.locs@ == o.locs@.update(c as int, Some(Location::Reg(pool()[p as int])))
    &&& n.active@ == o.active@.push(c)
    &&& n.spills == o.spills
    &&& n.regs_used == (if o.regs_used < p + 1 {
        (p + 1) as usize
    } else {
        o.regs_used
    })
}

/// Range `c` takes the register of the active range with index `a`,
/// which goes to the next place on the stack.
pub open spec fn took_over(o: &Scan, n: &Scan, c: usize, a: int) -> bool {
    let k = o.active@[a];
    &&& n.locs@ == o.locs@.update(k as int, Some(Location::Stack(o.spills))).update(
        c as int,
        o.locs@[k as int],
    )
    &&& n.active@ == o.active@.update(a, c)
    &&& n.spills == o.spills + 1
    &&& n.regs_used == o.regs_used
}

/// Range `c` goes to the next place on the stack.
pub open spec fn went_to_stack(o: &Scan, n: &Scan, c: usize) -> bool {
    &&& n.locs@ == o.locs@.update(c as int, Some(Location::Stack(o.spills)))
    &&& n.active@ == o.active@
    &&& n.spills == o.spills + 1
    &&& n.regs_used == o.regs_used
}

/// Range `c` gets its place, which makes state `n` of state `o`: the
/// first register of the pool that no active range holds; or, when all
/// are held, the register of the first of the active ranges that end
/// last, if that ends behind `c`, and else a place on the stack.
pub open spec fn placed(o: &Scan, n: &Scan, ends: Seq<usize>, c: usize) -> bool {
    &&& n.done@ == o.done@.update(c as int, true)
    &&& exists|free: Option<usize>|
        #[trigger] is_first_free(o.locs@, o.active@, free) && (match free {
            Some(p) => took_free(o, n, c, p),
            None => exists|a: int|
                #[trigger] is_latest(o.active@, ends, a) && (if ends[o.active@[a] as int]
                    > ends[c as int] {
                    took_over(o, n, c, a)
                } else {
                    went_to_stack(o, n, c)
                }),
        })
}

/// The ranges that have ended before `now` leave the active ranges,
/// which makes state `n` of state `o`.
pub open spec fn expired_to(o: &Scan, n: &Scan, ends: Seq<usize>, now: int) -> bool {
    &&& n.active@ == survivors(o.active@, ends, now, o.active@.len())
    &&& n.done == o.done
    &&& n.locs == o.locs
    &&& n.spills == o.spills
    &&& n.regs_used == o.regs_used
}

/// One range is gone through, which makes state `n` of state `o`: the
/// range that is next is taken, the ranges that have ended before its
/// start leave the active ranges, and it gets its place.
#[verifier::opaque]
pub open spec fn scan_step(o: &Scan, n: &Scan, starts: Seq<usize>, ends: Seq<usize>) -> bool {
    exists|c: usize, m: Scan|
        is_next(starts, o.done@, Some(c)) && #[trigger] expired_to(o, &m, ends, starts[c as int] as int)
            && placed(&m, n, ends, c)
}

pub proof fn lemma_scan_step(
    o: &Scan,
    m: Scan,
    n: &Scan,
    starts: Seq<usize>,
    ends: Seq<usize>,
    c: usize,
)
    requires
        is_next(starts, o.done@, Some(c)),
        expired_to(o, &m, ends, starts[c as int] as int),
        placed(&m, n, ends, c),
    ensures
        scan_step(o, n, starts, ends),
{
    reveal(scan_step);
}

/// The state before any range is gone through: of `n` ranges none is
/// done or has a place, and no register or place on the stack is used.
pub open spec fn is_initial(s: &Scan, n: nat) -> bool {
    &&& s.done@.len() == n
    &&& s.locs@.len() == n
    &&& forall|k: int| 0 <= k < n ==> !#[trigger] s.done@[k]
    &&& forall|k: int| 0 <= k < n ==> (#[trigger] s.locs@[k]) is None
    &&& s.active@.len() == 0
    &&& s.spills == 0
    &&& s.regs_used == 0
}

/// `states` are the states through which `k` ranges are gone through,
/// one after the other, from the state before any range.
pub open spec fn is_scan(
    states: Seq<Scan>,
    starts: Seq<usize>,
    ends: Seq<usize>,
    k: nat,
) -> bool {
    &&& states.len() == k + 1
    &&& is_initial(&states[0], starts.len())
    &&& forall|i: int| 0 <= i < k ==> #[trigger] step_at(states, i, starts, ends)
}

/// State number `i + 1` is made of state number `i` by going through one
/// range.
pub open spec fn step_at(states: Seq<Scan>, i: int, starts: Seq<usize>, ends: Seq<usize>) -> bool {
    scan_step(&states[i], &states[i + 1], starts, ends)
}

/// State `s` is reached when `k` ranges are gone through.
#[verifier::opaque]
pub open spec fn scanned(s: &Scan, starts: Seq<usize>, ends: Seq<usize>, k: nat) -> bool {
    exists|states: Seq<Scan>| #[trigger] is_scan(states, starts, ends, k) && states[k as int] == *s
}

pub proof fn lemma_scanned_start(s: &Scan, starts: Seq<usize>, ends: Seq<usize>)
    requires
        is_initial(s, starts.len()),
    ensures
        scanned(s, starts, ends, 0),
{
    reveal(scanned);
    assert(is_scan(seq![*s], starts, ends, 0));
}

pub proof fn lemma_scanned_step(
    o: Scan,
    n: &Scan,
    starts: Seq<usize>,
    ends: Seq<usize>,
    k: nat,
)
    requires
        scanned(&o, starts, ends, k),
        scan_step(&o, n, starts, ends),
    ensures
        scanned(n, starts, ends, k + 1),
{
    reveal(scanned);
    let states = choose|states: Seq<Scan>| #[trigger]
        is_scan(states, starts, ends, k) && states[k as int] == o;
    let more = states.push(*n);
    assert forall|i: int| 0 <= i < k + 1 implies #[trigger] step_at(more, i, starts, ends) by {
        if i < k {
            assert(step_at(states, i, starts, ends));
        }
    }
    assert(is_scan(more, starts, ends, k + 1));
}

/// The places `locations` of the variables of `ranges`, with
/// `regs` registers and `spills` places on the stack, are what the scan
/// gives: the ranges are gone through in the order of their starts, and
/// each gets its place when its turn comes.
#[verifier::opaque]
pub open spec fn allocated(
    ranges: Seq<LiveRange>,
    locations: Seq<(VarId, Location)>,
    regs: usize,
    spills: usize,
) -> bool {
    exists|starts: Seq<usize>, ends: Seq<usize>, last: Scan|
        bounds_ok(ranges, starts, ends) && #[trigger] scanned(&last, starts, ends, ranges.len())
            && regs == last.regs_used && spills == last.spills && locations.len() == ranges.len()
            && forall|i: int|
            0 <= i < ranges.len() ==> (#[trigger] locations[i]).0 == ranges[i].var_id
                && last.locs@[i] == Some(locations[i].1)
}

pub proof fn lemma_allocated(
    ranges: Seq<LiveRange>,
    locations: Seq<(VarId, Location)>,
    starts: Seq<usize>,
    ends: Seq<usize>,
    last: Scan,
)
    requires
        bounds_ok(ranges, starts, ends),
        scanned(&last, starts, ends, ranges.len()),
        locations.len() == ranges.len(),
        forall|i: int|
            0 <= i < ranges.len() ==> (#[trigger] locations[i]).0 == ranges[i].var_id
                && last.locs@[i] == Some(locations[i].1),
    ensures
        allocated(ranges, locations, last.regs_used, last.spills),
{
    reveal(allocated);
}

/// No two ranges have one place on the stack.
pub open spec fn stacks_apart(locs: Seq<Option<Location>>) -> bool {
    forall|i: int, j: int|
        0 <= i < locs.len() && 0 <= j < locs.len() && i != j && (#[trigger] locs[i]) is Some
            && locs[i]->0 is Stack ==> (#[trigger] locs[j]) != locs[i]
}

/// A range that gets its place takes no place on the stack that another
/// range has.
pub proof fn lemma_stacks_apart(o: &Scan, n: &Scan, ends: Seq<usize>, c: usize)
    requires
        o.shape(ends.len() as int),
        c < ends.len(),
        placed(o, n, ends, c),
        stacks_apart(o.locs@),
    ensures
        stacks_apart(n.locs@),
{
    let free = choose|free: Option<usize>|
        #[trigger] is_first_free(o.locs@, o.active@, free) && (match free {
            Some(p) => took_free(o, n, c, p),
            None => exists|a: int|
                #[trigger] is_latest(o.active@, ends, a) && (if ends[o.active@[a] as int]
                    > ends[c as int] {
                    took_over(o, n, c, a)
                } else {
                    went_to_stack(o, n, c)
                }),
        });
    assert forall|i: int, j: int|
        0 <= i < n.locs@.len() && 0 <= j < n.locs@.len() && i != j && (#[trigger] n.locs@[i]) is Some
            && n.locs@[i]->0 is Stack implies (#[trigger] n.locs@[j]) != n.locs@[i] by {
        match free {
            Some(p) => {
                assert(o.locs@[i] == n.locs@[i]);
                if j != c {
                    assert(o.locs@[j] == n.locs@[j]);
                }
            },
            None => {
                let a = choose|a: int|
                    #[trigger] is_latest(o.active@, ends, a) && (if ends[o.active@[a] as int]
                        > ends[c as int] {
                        took_over(o, n, c, a)
                    } else {
                        went_to_stack(o, n, c)
                    });
                let k = o.active@[a];
                assert(k < ends.len() && o.locs@[k as int] is Some && o.locs@[k as int]->0 is Reg);
                if ends[k as int] > ends[c as int] {
                    if i != k as int && i != c as int {
                        assert(o.locs@[i] == n.locs@[i]);
                    }
                    if j != k as int && j != c as int {
                        assert(o.locs@[j] == n.locs@[j]);
                    }
                } else {
                    if i != c as int {
                        assert(o.locs@[i] == n.locs@[i]);
                    }
                    if j != c as int {
                        assert(o.locs@[j] == n.locs@[j]);
                    }
                }
            },
        }
    }
}

impl Scan {
    /// The index among the active ranges of one that ends last.
    fn latest_active(&self, ends: &Vec<usize>) -> (a: usize)
        requires
            self.shape(ends@.len() as int),
            self.active@.len() > 0,
        ensures
            a < self.active@.len(),
            forall|x: int|
                0 <= x < self.active@.len() ==> ends@[#[trigger] self.active@[x] as int]
                    <= ends@[self.active@[a as int] as int],
            is_latest(self.active@, ends@, a as int),
    {
        let mut best: usize = 0;
        let mut x: usize = 1;
        assert(self.active@[0] < ends@.len());
        while x < self.active.len()
            invariant
                1 <= x <= self.active@.len(),
                best < x,
                self.shape(ends@.len() as int),
                forall|y: int|
                    0 <= y < x ==> ends@[#[trigger] self.active@[y] as int]
                        <= ends@[self.active@[best as int] as int],
                forall|y: int|
                    0 <= y < best ==> ends@[#[trigger] self.active@[y] as int]
                        < ends@[self.active@[best as int] as int],
            decreases self.active@.len() - x,
        {
            assert(self.active@[x as int] < ends@.len());
            assert(self.active@[best as int] < ends@.len());
            if ends[self.active[x]] > ends[self.active[best]] {
                best = x;
            }
            x += 1;
        }
        best
    }

    /// Gives range `c`, which starts at `now`, a place: the first
    /// register of the pool that no active range holds, or, when all are
    /// held, the register of the active range that ends last if that ends
    /// behind `c`, which then goes to the stack, or else a place on the
    /// stack.
    fn place(&mut self, ranges: &Vec<LiveRange>, starts: &Vec<usize>, ends: &Vec<usize>, c: usize)
        requires
            old(self).inv(ranges@, ends@, starts@[c as int] as int),
            bounds_ok(ranges@, starts@, ends@),
            c < ranges@.len(),
            !old(self).done@[c as int],
            old(self).spills < usize::MAX,
            forall|a: int|
                0 <= a < old(self).active@.len() ==> ends@[#[trigger] old(self).active@[a] as int]
                    >= starts@[c as int],
        ensures
            final(self).inv(ranges@, ends@, starts@[c as int] as int),
            final(self).done@ == old(self).done@.update(c as int, true),
            old(self).spills <= final(self).spills <= old(self).spills + 1,
            placed(old(self), final(self), ends@, c),
    {
        let ghost o = *self;
        let ghost now = starts@[c as int] as int;
        let n = ranges.len();
        let free = self.first_free();
        match free {
            Some(p) => {
                let reg = pool_reg(p);
                self.locs.set(c, Some(Location::Reg(reg)));
                self.active.push(c);
                if self.regs_used < p + 1 {
                    self.regs_used = p + 1;
                }
                self.done.set(c, true);
                proof {
                    assert(took_free(&o, self, c, p));
                    assert(is_first_free(o.locs@, o.active@, free));
                    assert(placed(&o, self, ends@, c));
                    assert forall|a: int, b: int| 0 <= a < b < self.active@.len() implies self.active@[a]
                        != self.active@[b] && self.locs@[self.active@[a] as int]
                        != self.locs@[self.active@[b] as int] by {
                        assert(o.locs@[o.active@[a] as int] is Some);
                        if b < o.active@.len() {
                            assert(o.locs@[o.active@[b] as int] is Some);
                        }
                    }
                    assert forall|k: int| 0 <= k < n implies (#[trigger] self.locs@[k] matches Some(
                        Location::Reg(r),
                    ) ==> exists|q: int| 0 <= q < self.regs_used && pool()[q] == r) by {
                        if k == c {
                            assert(pool()[p as int] == reg);
                        } else {
                            if let Some(Location::Reg(r)) = o.locs@[k] {
                                let q = choose|q: int| 0 <= q < o.regs_used && pool()[q] == r;
                                assert(pool()[q] == r);
                            }
                        }
                    }
                    assert forall|k: usize|
                        k < self.locs@.len() && (#[trigger] self.locs@[k as int]) is Some
                            && self.locs@[k as int]->0 is Reg && !self.active@.contains(
                            k,
                        ) implies ends@[k as int] < now by {
                        if k == c {
                            assert(self.active@[o.active@.len() as int] == c);
                        } else {
                            if o.active@.contains(k) {
                                let w = choose|w: int| 0 <= w < o.active@.len() && o.active@[w] == k;
                                assert(self.active@[w] == k);
                            }
                        }
                    }
                    assert forall|i: int, j: int|
                        0 <= i < n && 0 <= j < n && i != j && #[trigger] same_reg(
                            self.locs@,
                            i,
                            j,
                        ) implies ranges@[i].points().disjoint(ranges@[j].points()) by {
                        if i != c && j != c {
                            assert(same_reg(o.locs@, i, j));
                        } else {
                            let other = if i == c {
                                j
                            } else {
                                i
                            };
                            let ou = other as usize;
                            assert(o.locs@[other] == Some(Location::Reg(reg)));
                            if o.active@.contains(ou) {
                                let w = choose|w: int| 0 <= w < o.active@.len() && o.active@[w] == ou;
                                assert(o.locs@[o.active@[w] as int] != Some(Location::Reg(reg)));
                            }
                            assert(ends@[other] < now);
                            lemma_apart(ranges@, starts@, ends@, other, c as int);
                        }
                    }
                }
            },
            None => {
                let a = self.latest_active(ends);
                let k = self.active[a];
                assert(self.active@[a as int] == k);
                if ends[k] > ends[c] {
                    let reg = self.locs[k];
                    self.locs.set(k, Some(Location::Stack(self.spills)));
                    self.spills += 1;
                    self.locs.set(c, reg);
                    self.active.set(a, c);
                    self.done.set(c, true);
                    proof {
                        assert(took_over(&o, self, c, a as int));
                        assert(is_latest(o.active@, ends@, a as int));
                        assert(is_first_free(o.locs@, o.active@, free));
                        assert(placed(&o, self, ends@, c));
                        assert forall|x: int| 0 <= x < self.active@.len() implies {
                            let m = #[trigger] self.active@[x];
                            m < n && self.locs@[m as int] is Some && self.locs@[m as int]->0 is Reg
                        } by {
                            if x != a {
                                assert(o.active@[x] != o.active@[a as int]);
                                assert(o.locs@[o.active@[x] as int] is Some);
                            }
                        }
                        assert forall|x: int, y: int|
                            0 <= x < y < self.active@.len() implies self.active@[x] != self.active@[y]
                            && self.locs@[self.active@[x] as int]
                            != self.locs@[self.active@[y] as int] by {
                            assert(o.locs@[o.active@[x] as int] is Some);
                            assert(o.locs@[o.active@[y] as int] is Some);
                            assert(o.active@[x] != o.active@[y]);
                            if x == a {
                                assert(o.locs@[o.active@[y] as int] != o.locs@[k as int]);
                            } else if y == a {
                                assert(o.locs@[o.active@[x] as int] != o.locs@[k as int]);
                            }
                        }
                        assert forall|m: int| 0 <= m < n implies (#[trigger] self.locs@[m] matches Some(
                            Location::Reg(r),
                        ) ==> exists|q: int| 0 <= q < self.regs_used && pool()[q] == r) by {
                            if m == c {
                                if let Some(Location::Reg(r)) = o.locs@[k as int] {
                                    let q = choose|q: int| 0 <= q < o.regs_used && pool()[q] == r;
                                    assert(pool()[q] == r);
                                }
                            } else if m != k {
                                if let Some(Location::Reg(r)) = o.locs@[m] {
                                    let q = choose|q: int| 0 <= q < o.regs_used && pool()[q] == r;
                                    assert(pool()[q] == r);
                                }
                            }
                        }
                        assert forall|m: usize|
                            m < self.locs@.len() && (#[trigger] self.locs@[m as int]) is Some
                                && self.locs@[m as int]->0 is Reg && !self.active@.contains(
                                m,
                            ) implies ends@[m as int] < now by {
                            if m == c {
                                assert(self.active@[a as int] == c);
                            } else {
                                if o.active@.contains(m) {
                                    let w = choose|w: int|
                                        0 <= w < o.active@.len() && o.active@[w] == m;
                                    assert(w != a);
                                    assert(self.active@[w] == m);
                                }
                            }
                        }
                        assert forall|i: int, j: int|
                            0 <= i < n && 0 <= j < n && i != j && #[trigger] same_reg(
                                self.locs@,
                                i,
                                j,
                            ) implies ranges@[i].points().disjoint(ranges@[j].points()) by {
                            if i != c && j != c {
                                assert(i != k && j != k);
                                assert(same_reg(o.locs@, i, j));
                            } else {
                                let other = if i == c {
                                    j
                                } else {
                                    i
                                };
                                let ou = other as usize;
                                assert(other != k);
                                assert(o.locs@[other] == o.locs@[k as int]);
                                if o.active@.contains(ou) {
                                    let w = choose|w: int|
                                        0 <= w < o.active@.len() && o.active@[w] == ou;
                                    assert(w != a);
                                    if w < a {
                                        assert(o.locs@[o.active@[w] as int]
                                            != o.locs@[o.active@[a as int] as int]);
                                    } else {
                                        assert(o.locs@[o.active@[a as int] as int]
                                            != o.locs@[o.active@[w] as int]);
                                    }
                                }
                                assert(ends@[other] < now);
                                lemma_apart(ranges@, starts@, ends@, other, c as int);
                            }
                        }
                    }
                } else {
                    self.locs.set(c, Some(Location::Stack(self.spills)));
                    self.spills += 1;
                    self.done.set(c, true);
                    proof {
                        assert(went_to_stack(&o, self, c));
                        assert(is_latest(o.active@, ends@, a as int));
                        assert(is_first_free(o.locs@, o.active@, free));
                        assert(placed(&o, self, ends@, c));
                        assert forall|x: int| 0 <= x < self.active@.len() implies {
                            let m = #[trigger] self.active@[x];
                            m < n && self.locs@[m as int] is Some && self.locs@[m as int]->0 is Reg
                        } by {
                            assert(o.locs@[o.active@[x] as int] is Some);
                        }
                        assert forall|x: int, y: int|
                            0 <= x < y < self.active@.len() implies self.active@[x] != self.active@[y]
                            && self.locs@[self.active@[x] as int]
                            != self.locs@[self.active@[y] as int] by {
                            assert(o.locs@[o.active@[x] as int] is Some);
                            assert(o.locs@[o.active@[y] as int] is Some);
                        }
                        assert forall|m: int| 0 <= m < n implies (#[trigger] self.locs@[m] matches Some(
                            Location::Reg(r),
                        ) ==> exists|q: int| 0 <= q < self.regs_used && pool()[q] == r) by {
                            if m != c {
                                if let Some(Location::Reg(r)) = o.locs@[m] {
                                    let q = choose|q: int| 0 <= q < o.regs_used && pool()[q] == r;
                                    assert(pool()[q] == r);
                                }
                            }
                        }
                        assert forall|i: int, j: int|
                            0 <= i < n && 0 <= j < n && i != j && #[trigger] same_reg(
                                self.locs@,
                                i,
                                j,
                            ) implies ranges@[i].points().disjoint(ranges@[j].points()) by {
                            assert(i != c && j != c);
                            assert(same_reg(o.locs@, i, j));
                        }
                    }
                }
            },
        }
    }
}

/// A range that ends before another starts has no instruction in common
/// with it.
pub proof fn lemma_apart(ranges: Seq<LiveRange>, starts: Seq<usize>, ends: Seq<usize>, i: int, j: int)
    requires
        bounds_ok(ranges, starts, ends),
        0 <= i < ranges.len(),
        0 <= j < ranges.len(),
        ends[i] < starts[j],
    ensures
        ranges[i].points().disjoint(ranges[j].points()),
        ranges[j].points().disjoint(ranges[i].points()),
{
    assert forall|x: int| !(ranges[i].points().contains(x) && ranges[j].points().contains(x)) by {
        if ranges[i].points().contains(x) && ranges[j].points().contains(x) {
            assert(x <= ends[i]);
            assert(starts[j] <= x);
        }
    }
}

impl LinearScanAllocator {
    /// An allocator for the live ranges `var_live`, with nothing
    /// allocated yet.
    pub fn new(var_live: Vec<LiveRange>) -> (a: Self)
        ensures
            a.var_live == var_live,
            a.var_location@.len() == 0,
            a.num_regs_required == 0,
            a.spill_count == 0,
    {
        LinearScanAllocator { var_live, var_location: Vec::new(), num_regs_required: 0, spill_count: 0 }
    }

    /// Gives every variable a register or a place on the stack. The
    /// ranges are gone through in the order of their starts; each gets
    /// the first register of the pool that no range holds which is still
    /// live. When all registers are held, the range that ends last of
    /// those and the new one goes to the stack. No two variables that are
    /// live at one instruction are kept in one register, and no two
    /// variables in one place on the stack.
    pub fn run(&mut self)
        requires
            forall|i: int| 0 <= i < old(self).var_live@.len() ==> (#[trigger] old(self).var_live@[i]).wf(),
        ensures
            final(self).var_live == old(self).var_live,
            final(self).var_location@.len() == final(self).var_live@.len(),
            forall|i: int|
                0 <= i < final(self).var_live@.len() ==> (#[trigger] final(self).var_location@[i]).0
                    == final(self).var_live@[i].var_id,
            forall|i: int, j: int|
                0 <= i < final(self).var_live@.len() && 0 <= j < final(self).var_live@.len() && i
                    != j && (#[trigger] final(self).var_location@[i]).1 is Reg && (
                #[trigger] final(self).var_location@[j]).1 == final(self).var_location@[i].1
                    ==> final(self).var_live@[i].points().disjoint(final(self).var_live@[j].points()),
            forall|i: int, j: int|
                0 <= i < final(self).var_live@.len() && 0 <= j < final(self).var_live@.len() && i
                    != j && (#[trigger] final(self).var_location@[i]).1 is Stack ==> (
                #[trigger] final(self).var_location@[j]).1 != final(self).var_location@[i].1,
            final(self).num_regs_required <= 14,
            forall|i: int|
                0 <= i < final(self).var_location@.len() ==> match (
                #[trigger] final(self).var_location@[i]).1 {
                    Location::Reg(r) => exists|p: int|
                        0 <= p < final(self).num_regs_required && pool()[p] == r,
                    Location::Stack(s) => s < final(self).spill_count,
                },
            allocated(
                old(self).var_live@,
                final(self).var_location@,
                final(self).num_regs_required,
                final(self).spill_count,
            ),
    {
        let n = self.var_live.len();
        let mut starts: Vec<usize> = Vec::new();
        let mut ends: Vec<usize> = Vec::new();
        let mut done: Vec<bool> = Vec::new();
        let mut locs: Vec<Option<Location>> = Vec::new();
        let mut i: usize = 0;
        while i < n
            invariant
                i <= n,
                n == self.var_live@.len(),
                *self == *old(self),
                forall|k: int| 0 <= k < n ==> (#[trigger] self.var_live@[k]).wf(),
                starts@.len() == i,
                ends@.len() == i,
                done@.len() == i,
                locs@.len() == i,
                forall|k: int| 0 <= k < i ==> !#[trigger] done@[k],
                forall|k: int| 0 <= k < i ==> (#[trigger] locs@[k]) is None,
                forall|k: int, x: int|
                    0 <= k < i && #[trigger] self.var_live@[k].points().contains(x) ==> starts@[k] <= x
                        <= ends@[k],
                unvisited(done@) == i,
            decreases n - i,
        {
            let r = &self.var_live[i];
            starts.push(r.start());
            ends.push(r.end());
            let ghost before = done@;
            done.push(false);
            assert(done@.drop_last() =~= before);
            locs.push(None);
            i += 1;
        }
        let mut scan = Scan { done, locs, active: Vec::new(), spills: 0, regs_used: 0 };
        let ghost mut prev: int = 0;
        assert(no_conflict(self.var_live@, scan.locs@));
        proof {
            lemma_scanned_start(&scan, starts@, ends@);
        }
        loop
            invariant
                n == self.var_live@.len(),
                *self == *old(self),
                bounds_ok(self.var_live@, starts@, ends@),
                starts@.len() == n,
                scanned(&scan, starts@, ends@, (n - unvisited(scan.done@)) as nat),
                unvisited(scan.done@) <= n,
                scan.inv(self.var_live@, ends@, prev),
                forall|k: int| 0 <= k < n && !scan.done@[k] ==> prev <= #[trigger] starts@[k],
                scan.spills + unvisited(scan.done@) <= n,
                ends@.len() == n,
                stacks_apart(scan.locs@),
            ensures
                forall|k: int| 0 <= k < n ==> #[trigger] scan.done@[k],
                unvisited(scan.done@) == 0,
                stacks_apart(scan.locs@),
            decreases unvisited(scan.done@),
        {
            let c = match next_range(&starts, &scan.done) {
                Some(c) => c,
                None => {
                    proof {
                        lemma_all_visited(scan.done@);
                    }
                    break ;
                },
            };
            let now = starts[c];
            let ghost before = scan;
            proof {
                lemma_unvisited_update(scan.done@, c as int);
                assert(scan.expired(ends@, prev));
            }
            scan.expire(&ends, now);
            let ghost between = scan;
            scan.place(&self.var_live, &starts, &ends, c);
            proof {
                prev = now as int;
                lemma_stacks_apart(&between, &scan, ends@, c);
                assert(expired_to(&before, &between, ends@, starts@[c as int] as int));
                lemma_scan_step(&before, between, &scan, starts@, ends@, c);
                lemma_scanned_step(
                    before,
                    &scan,
                    starts@,
                    ends@,
                    (n - unvisited(before.done@)) as nat,
                );
            }
        }
        let mut var_location: Vec<(VarId, Location)> = Vec::new();
        let mut k: usize = 0;
        while k < n
            invariant
                k <= n,
                n == self.var_live@.len(),
                *self == *old(self),
                scan.shape(n as int),
                stacks_apart(scan.locs@),
                forall|x: int| 0 <= x < n ==> #[trigger] scan.done@[x],
                var_location@.len() == k,
                forall|x: int|
                    0 <= x < k ==> (#[trigger] var_location@[x]).0 == self.var_live@[x].var_id
                        && scan.locs@[x] == Some(var_location@[x].1),
            decreases n - k,
        {
            assert(scan.done@[k as int]);
            let loc = match scan.locs[k] {
                Some(l) => l,
                None => Location::Stack(0),
            };
            var_location.push((self.var_live[k].var_id, loc));
            k += 1;
        }
        proof {
            assert forall|i: int, j: int|
                0 <= i < n && 0 <= j < n && i != j && (#[trigger] var_location@[i]).1 is Reg && (
                #[trigger] var_location@[j]).1 == var_location@[i].1 implies self.var_live@[i].points().disjoint(
                self.var_live@[j].points(),
            ) by {
                assert(same_reg(scan.locs@, i, j));
            }
            assert forall|i: int, j: int|
                0 <= i < n && 0 <= j < n && i != j && (#[trigger] var_location@[i]).1
                    is Stack implies (#[trigger] var_location@[j]).1 != var_location@[i].1 by {
                assert(scan.locs@[i] == Some(var_location@[i].1));
                assert(scan.locs@[j] == Some(var_location@[j].1));
            }
            assert forall|i: int| 0 <= i < var_location@.len() implies match (
            #[trigger] var_location@[i]).1 {
                Location::Reg(r) => exists|p: int| 0 <= p < scan.regs_used && pool()[p] == r,
                Location::Stack(s) => s < scan.spills,
            } by {
                assert(scan.locs@[i] == Some(var_location@[i].1));
            }
        }
        proof {
            lemma_allocated(self.var_live@, var_location@, starts@, ends@, scan);
        }
        self.var_location = var_location;
        self.num_regs_required = scan.regs_used;
        self.spill_count = scan.spills;
    }
}

} // verus!

//! Optimizations on the sea-of-nodes graphs of a program.
use crate::firm::program_generator::Program;
use self::unreachable_code_elimination::{
    class_ok, method_ok, program_ok, program_projections, program_wf,
};
use vstd::prelude::*;

pub mod unreachable_code_elimination;

verus! {

/// The optimizations that can be asked for.
#[derive(Debug, Copy, Clone, PartialEq, Eq, Structural)]
pub enum OptimizationKind {
    AlgebraicSimplification,
    ConstantFolding,
    UnreachableCodeElimination,
}

#[derive(Clone, Copy, Debug, PartialEq, Eq, Structural)]
pub enum GlobalOptimizationFlag {
    /// The graphs are to be dumped behind the optimization.
    DumpYcomp,
}

/// An optimization that is asked for, with the flags that go with it.
#[derive(Clone, Debug)]
pub struct Optimization {
    pub kind: OptimizationKind,
    pub flags: Vec<GlobalOptimizationFlag>,
}

/// Whether an optimization changed a graph.
#[derive(Clone, Copy, PartialEq, Eq, Structural, Debug)]
pub enum OptimizationResult {
    Unchanged,
    Changed,
}

/// Collects the results of an optimization on the graphs of a program.
pub struct OptimizationResultCollector {
    results: Vec<OptimizationResult>,
}

impl View for OptimizationResultCollector {
    type V = Seq<OptimizationResult>;

    closed spec fn view(&self) -> Seq<OptimizationResult> {
        self.results@
    }
}

impl OptimizationResultCollector {
    pub fn new() -> (c: OptimizationResultCollector)
        ensures
            c@.len() == 0,
    {
        OptimizationResultCollector { results: Vec::new() }
    }

    pub fn push(&mut self, res: OptimizationResult)
        ensures
            final(self)@ == old(self)@.push(res),
    {
        self.results.push(res);
    }

    /// `Changed` if one of the results is, and else `Unchanged`.
    pub fn result(&self) -> (r: OptimizationResult)
        ensures
            r == (if self@.contains(OptimizationResult::Changed) {
                OptimizationResult::Changed
            } else {
                OptimizationResult::Unchanged
            }),
    {
        let mut i: usize = 0;
        while i < self.results.len()
            invariant
                i <= self.results@.len(),
                forall|k: int| 0 <= k < i ==> self.results@[k] != OptimizationResult::Changed,
            decreases self.results@.len() - i,
        {
            if matches!(self.results[i], OptimizationResult::Changed) {
                assert(self@[i as int] == OptimizationResult::Changed);
                return OptimizationResult::Changed;
            }
            i += 1;
        }
        OptimizationResult::Unchanged
    }
}


impl Optimization {
    /// Runs the optimization on all graphs of the program. Of the kinds
    /// of optimization, the elimination of unreachable code is the one
    /// that this library holds.
    pub fn run(&self, program: &mut Program) -> (r: OptimizationResult)
        requires
            self.kind == OptimizationKind::UnreachableCodeElimination,
            unreachable_code_elimination::program_ok(old(program)),
        ensures
            unreachable_code_elimination::program_wf(final(program)),
            final(program).classes@.len() == old(program).classes@.len(),
            r == OptimizationResult::Changed <==> exists|c: int|
                0 <= c < old(program).classes@.len()
                    && unreachable_code_elimination::class_foldable(
                    #[trigger] &old(program).classes@[c],
                ),
            program_projections(final(program)) <= program_projections(old(program)),
            r == OptimizationResult::Changed ==> program_projections(final(program))
                < program_projections(old(program)),
            unreachable_code_elimination::program_optimized(old(program), final(program)),
    {
        unreachable_code_elimination::run(program)
    }
}

/// Whether every graph of the program leaves room for the nodes that an
/// optimization adds.
pub fn has_room(program: &Program) -> (r: bool)
    requires
        program_wf(program),
    ensures
        r == program_ok(program),
{
    let mut c: usize = 0;
    while c < program.classes.len()
        invariant
            c <= program.classes@.len(),
            program_wf(program),
            forall|k: int| 0 <= k < c ==> class_ok(#[trigger] &program.classes@[k]),
        decreases program.classes@.len() - c,
    {
        let class = &program.classes[c];
        let mut m: usize = 0;
        while m < class.methods.len()
            invariant
                m <= class.methods@.len(),
                c < program.classes@.len(),
                class == &program.classes@[c as int],
                program_wf(program),
                forall|k: int| 0 <= k < m ==> method_ok(#[trigger] &class.methods@[k]),
            decreases class.methods@.len() - m,
        {
            assert(unreachable_code_elimination::class_wf(&program.classes@[c as int]));
            assert(unreachable_code_elimination::method_wf(&class.methods@[m as int]));
            match &class.methods[m].graph {
                Some(g) => {
                    let n = g.len();
                    if n >= usize::MAX - n {
                        assert(!method_ok(&class.methods@[m as int]));
                        assert(!class_ok(&program.classes@[c as int]));
                        return false;
                    }
                },
                None => {},
            }
            m += 1;
        }
        c += 1;
    }
    true
}

/// Some graph of the program holds a branch that the elimination of
/// unreachable code removes.
pub open spec fn foldable(p: &Program) -> bool {
    exists|c: int|
        0 <= c < p.classes@.len() && unreachable_code_elimination::class_foldable(
            #[trigger] &p.classes@[c],
        )
}

/// Program number `i` leaves room for an optimization, and program
/// number `i + 1` is what the elimination of unreachable code makes of
/// it.
pub open spec fn step_ok(programs: Seq<Program>, i: int) -> bool {
    program_ok(&programs[i]) && unreachable_code_elimination::program_optimized(
        &programs[i],
        &programs[i + 1],
    )
}

/// Program `n` is what `k` optimizations in a row make of program `o`,
/// each with room; `changed` says whether one of them found something
/// to remove.
#[verifier::opaque]
pub open spec fn ran(o: &Program, n: &Program, k: nat, changed: bool) -> bool {
    exists|programs: Seq<Program>|
        {
            &&& programs.len() == k + 1
            &&& programs[0] == *o
            &&& programs[k as int] == *n
            &&& forall|i: int| 0 <= i < k ==> #[trigger] step_ok(programs, i)
            &&& changed <==> exists|i: int| 0 <= i < k && foldable(&#[trigger] programs[i])
        }
}

/// From program number `r` to program number `r + 1` leads a round of
/// `len` optimizations, one of which found something to remove.
pub open spec fn round_at(starts: Seq<Program>, r: int, len: nat) -> bool {
    ran(&starts[r], &starts[r + 1], len, true)
}

/// Program `n` is what `rounds` rounds of `len` optimizations each make
/// of program `o`, each round with something to remove.
#[verifier::opaque]
pub open spec fn ran_rounds(o: &Program, n: &Program, len: nat, rounds: nat) -> bool {
    exists|starts: Seq<Program>|
        {
            &&& starts.len() == rounds + 1
            &&& starts[0] == *o
            &&& starts[rounds as int] == *n
            &&& forall|r: int| 0 <= r < rounds ==> #[trigger] round_at(starts, r, len)
        }
}

/// Program `n` is what `run_all` makes of program `o` with `len`
/// optimizations. Without `fixpoint` there is one round. With it, rounds
/// follow each other as long as a round finds something to remove, and
/// the last round finds nothing. Either way the last round ends early,
/// before the first optimization for which the program has no room.
pub open spec fn ran_all(o: &Program, n: &Program, len: nat, fixpoint: bool) -> bool {
    exists|rounds: nat, mid: Program|
        {
            &&& #[trigger] ran_rounds(o, &mid, len, rounds)
            &&& rounds > 0 ==> fixpoint
            &&& last_round(&mid, n, len, fixpoint)
        }
}

/// The last round of `run_all` makes program `n` of program `mid`: a
/// whole round, which with `fixpoint` finds nothing to remove, or the
/// optimizations of a round up to the first for which the program has no
/// room.
pub open spec fn last_round(mid: &Program, n: &Program, len: nat, fixpoint: bool) -> bool {
    ||| exists|changed: bool| #[trigger] ran(mid, n, len, changed) && (fixpoint ==> !changed)
    ||| exists|k: nat, changed: bool| k < len && #[trigger] ran(mid, n, k, changed) && !program_ok(n)
}

proof fn lemma_ran_start(o: &Program)
    ensures
        ran(o, o, 0, false),
{
    reveal(ran);
    let programs = seq![*o];
    assert(programs.len() == 1 && programs[0] == *o);
}

proof fn lemma_ran_step(o: &Program, m: Program, n: &Program, k: nat, changed: bool)
    requires
        ran(o, &m, k, changed),
        program_ok(&m),
        unreachable_code_elimination::program_optimized(&m, n),
    ensures
        ran(o, n, k + 1, changed || foldable(&m)),
{
    reveal(ran);
    let programs = choose|programs: Seq<Program>|
        {
            &&& programs.len() == k + 1
            &&& programs[0] == *o
            &&& programs[k as int] == m
            &&& forall|i: int| 0 <= i < k ==> #[trigger] step_ok(programs, i)
            &&& changed <==> exists|i: int| 0 <= i < k && foldable(&#[trigger] programs[i])
        };
    let more = programs.push(*n);
    assert forall|i: int| 0 <= i < k + 1 implies #[trigger] step_ok(more, i) by {
        if i < k {
            assert(step_ok(programs, i));
        }
    }
    assert(more.len() == k + 2 && more[0] == *o && more[(k + 1) as int] == *n);
    let now = changed || foldable(&m);
    if now {
        if changed {
            let i = choose|i: int| 0 <= i < k && foldable(&#[trigger] programs[i]);
            assert(foldable(&more[i]));
        } else {
            assert(foldable(&more[k as int]));
        }
    }
    if exists|i: int| 0 <= i < k + 1 && foldable(&#[trigger] more[i]) {
        let i = choose|i: int| 0 <= i < k + 1 && foldable(&#[trigger] more[i]);
        if i < k {
            assert(foldable(&programs[i]));
        }
    }
}

proof fn lemma_rounds_start(o: &Program, len: nat)
    ensures
        ran_rounds(o, o, len, 0),
{
    reveal(ran_rounds);
    let starts = seq![*o];
    assert(starts.len() == 1 && starts[0] == *o);
}

proof fn lemma_rounds_step(o: &Program, m: Program, n: &Program, len: nat, rounds: nat)
    requires
        ran_rounds(o, &m, len, rounds),
        ran(&m, n, len, true),
    ensures
        ran_rounds(o, n, len, rounds + 1),
{
    reveal(ran_rounds);
    let starts = choose|starts: Seq<Program>|
        {
            &&& starts.len() == rounds + 1
            &&& starts[0] == *o
            &&& starts[rounds as int] == m
            &&& forall|r: int| 0 <= r < rounds ==> #[trigger] round_at(starts, r, len)
        };
    let more = starts.push(*n);
    assert forall|r: int| 0 <= r < rounds + 1 implies #[trigger] round_at(more, r, len) by {
        if r < rounds {
            assert(round_at(starts, r, len));
        }
    }
    assert(more.len() == rounds + 2 && more[0] == *o && more[(rounds + 1) as int] == *n);
}

/// Runs the optimizations on the program, in the order of the list: once
/// each, or with `fixpoint` again and again until a whole round changes
/// nothing. It stops before an optimization for which a graph has no
/// room left. Every round but the last removes a projection.
pub fn run_all(program: &mut Program, optimizations: &[Optimization], fixpoint: bool)
    requires
        program_wf(old(program)),
        forall|k: int|
            0 <= k < optimizations@.len() ==> (#[trigger] optimizations@[k]).kind
                == OptimizationKind::UnreachableCodeElimination,
    ensures
        program_wf(final(program)),
        final(program).classes@.len() == old(program).classes@.len(),
        program_projections(final(program)) <= program_projections(old(program)),
        optimizations@.len() == 0 ==> *final(program) == *old(program),
        ran_all(old(program), final(program), optimizations@.len(), fixpoint),
        optimizations@.len() > 0 && program_ok(old(program)) && foldable(old(program))
            ==> program_projections(final(program)) < program_projections(old(program)),
{
    let ghost len = optimizations@.len();
    let ghost mut rounds: nat = 0;
    proof {
        lemma_rounds_start(old(program), len);
        lemma_ran_start(old(program));
    }
    if optimizations.len() == 0 {
        assert(last_round(old(program), program, len, fixpoint));
        return ;
    }
    let ghost mut first = true;
    loop
        invariant
            optimizations@.len() > 0,
            len == optimizations@.len(),
            ran_rounds(old(program), program, len, rounds),
            rounds > 0 ==> fixpoint,
            program_wf(program),
            program.classes@.len() == old(program).classes@.len(),
            program_projections(program) <= program_projections(old(program)),
            first ==> *program == *old(program),
            !first && program_ok(old(program)) && foldable(old(program)) ==> program_projections(
                program,
            ) < program_projections(old(program)),
            forall|k: int|
                0 <= k < optimizations@.len() ==> (#[trigger] optimizations@[k]).kind
                    == OptimizationKind::UnreachableCodeElimination,
        decreases program_projections(program),
    {
        let ghost start = program_projections(program);
        let ghost mid = *program;
        let mut changed = false;
        let mut i: usize = 0;
        proof {
            lemma_ran_start(&mid);
        }
        while i < optimizations.len()
            invariant
                i <= optimizations@.len(),
                optimizations@.len() > 0,
                len == optimizations@.len(),
                ran_rounds(old(program), &mid, len, rounds),
                rounds > 0 ==> fixpoint,
                ran(&mid, program, i as nat, changed),
                program_wf(program),
                program.classes@.len() == old(program).classes@.len(),
                program_projections(program) <= start,
                start <= program_projections(old(program)),
                changed ==> program_projections(program) < start,
                first && i == 0 ==> *program == *old(program),
                (!first || i > 0) && program_ok(old(program)) && foldable(old(program))
                    ==> program_projections(program) < program_projections(old(program)),
                forall|k: int|
                    0 <= k < optimizations@.len() ==> (#[trigger] optimizations@[k]).kind
                        == OptimizationKind::UnreachableCodeElimination,
            decreases optimizations@.len() - i,
        {
            if !has_room(program) {
                assert(last_round(&mid, program, len, fixpoint));
                return ;
            }
            let ghost before = *program;
            let ghost was = changed;
            match optimizations[i].run(program) {
                OptimizationResult::Changed => {
                    changed = true;
                },
                OptimizationResult::Unchanged => {},
            }
            proof {
                lemma_ran_step(&mid, before, program, i as nat, was);
            }
            i += 1;
        }
        proof {
            first = false;
        }
        if !fixpoint || !changed {
            assert(last_round(&mid, program, len, fixpoint));
            return ;
        }
        proof {
            lemma_rounds_step(old(program), mid, program, len, rounds);
            rounds = rounds + 1;
        }
    }
}

} // verus!

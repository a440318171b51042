use compiler_lib::firm::graph::{Graph, Mode, NodeId, NodeKind, Tarval};
use compiler_lib::firm::nodes::Block;
use compiler_lib::firm::program_generator::{Class, Method, Program};
use compiler_lib::lowering::lir::{BlockGraph, Leave};
use compiler_lib::optimization::unreachable_code_elimination::{
    find_replacement, plan, run, run_on, Replacement, UnreachableCodeElimination,
};
use compiler_lib::optimization::{
    has_room, run_all, GlobalOptimizationFlag, Optimization, OptimizationKind, OptimizationResult,
    OptimizationResultCollector,
};
use compiler_lib::strtab::Symbol;

struct Loop {
    g: Graph,
    header: NodeId,
    body: NodeId,
    exit: NodeId,
    cond: NodeId,
    no: NodeId,
    yes: NodeId,
}

/// `while (value) {}` followed by a return.
fn while_loop(value: bool) -> Loop {
    let mut g = Graph::new(vec![]);
    let header = g.add_node(NodeKind::Block, Mode::BB, 0, vec![]);
    let body = g.add_node(NodeKind::Block, Mode::BB, 0, vec![]);
    let exit = g.add_node(NodeKind::Block, Mode::BB, 0, vec![]);
    let enter = g.add_node(NodeKind::Jmp, Mode::X, 0, vec![]);
    g.add_block_pred(header, enter);
    let c = g.add_node(NodeKind::Const(Tarval::Bool(value)), Mode::Bu, header, vec![]);
    let cond = g.add_node(NodeKind::Cond, Mode::T, header, vec![c]);
    let no = g.add_node(NodeKind::Proj(0), Mode::X, header, vec![cond]);
    let yes = g.add_node(NodeKind::Proj(1), Mode::X, header, vec![cond]);
    g.add_block_pred(body, yes);
    g.add_block_pred(exit, no);
    let back = g.add_node(NodeKind::Jmp, Mode::X, body, vec![]);
    g.add_block_pred(header, back);
    let mem = g.add_node(NodeKind::Unknown, Mode::M, exit, vec![]);
    let ret = g.add_node(NodeKind::Return, Mode::X, exit, vec![mem]);
    g.add_block_pred(1, ret);
    Loop { g, header, body, exit, cond, no, yes }
}

#[test]
fn a_loop_that_is_never_left() {
    let Loop { g, header, body, exit, cond, no, yes } = while_loop(true);
    assert_eq!(
        find_replacement(&g, cond),
        Some(Replacement {
            cond,
            used_proj: yes,
            unused_proj: no,
            target_block: body,
            nontarget_block: exit,
            dangling: true,
        })
    );
    assert_eq!(plan(&g).len(), 1);
    let mut uce = UnreachableCodeElimination::new(g);
    assert_eq!(uce.run(), OptimizationResult::Changed);
    let g = uce.graph;
    // the projection for the way that is never taken is removed
    assert_eq!(g.kind(no), NodeKind::Bad);
    assert_eq!(g.kind(cond), NodeKind::Bad);
    // the block of the loop is kept alive
    assert_eq!(g.keep_alive, vec![body]);
    // the block behind the loop cannot be entered any more, and is empty
    assert!(g.in_nodes(exit).is_empty());
    assert!(g.in_nodes(1).is_empty());
    // the body is entered by a jump
    let entry = g.in_nodes(body)[0];
    assert_eq!(g.kind(entry), NodeKind::Jmp);
    assert_eq!(g.block_of(entry), header);
    // nothing is left to do
    assert!(plan(&g).is_empty());

    let lir = BlockGraph::from_graph(g).unwrap();
    let h = lir.get_block(Block(header));
    let b = lir.get_block(Block(body));
    assert_eq!(lir.iter_blocks(), vec![0, h, b]);
    assert_eq!(lir.blocks[h].code.leave, vec![Leave::Jmp { target: b }]);
    // a single unconditional jump back to the header of the loop
    assert_eq!(lir.blocks[b].code.leave, vec![Leave::Jmp { target: h }]);
    assert!(lir.blocks[b].code.body.is_empty());
}

#[test]
fn a_loop_that_is_never_entered() {
    let Loop { mut g, body, exit, no, yes, .. } = while_loop(false);
    assert_eq!(run_on(&mut g), OptimizationResult::Changed);
    assert_eq!(g.kind(yes), NodeKind::Bad);
    assert_eq!(g.keep_alive, vec![exit]);
    assert!(g.in_nodes(body).is_empty());
    assert_eq!(g.kind(g.in_nodes(exit)[0]), NodeKind::Jmp);
    let _ = no;
}

#[test]
fn a_branch_on_a_value_that_is_not_known_stays() {
    let mut g = Graph::new(vec![]);
    let unknown = g.add_node(NodeKind::Unknown, Mode::Bu, 0, vec![]);
    let cond = g.add_node(NodeKind::Cond, Mode::T, 0, vec![unknown]);
    let no = g.add_node(NodeKind::Proj(0), Mode::X, 0, vec![cond]);
    let yes = g.add_node(NodeKind::Proj(1), Mode::X, 0, vec![cond]);
    let a = g.add_node(NodeKind::Block, Mode::BB, 0, vec![]);
    g.add_block_pred(a, yes);
    g.add_block_pred(a, no);
    let before = g.nodes.len();
    assert_eq!(find_replacement(&g, cond), None);
    assert_eq!(run_on(&mut g), OptimizationResult::Unchanged);
    assert_eq!(g.nodes.len(), before);
    assert_eq!(g.kind(no), NodeKind::Proj(0));
    assert!(g.keep_alive.is_empty());
}

#[test]
fn results_are_collected() {
    let mut c = OptimizationResultCollector::new();
    assert_eq!(c.result(), OptimizationResult::Unchanged);
    c.push(OptimizationResult::Unchanged);
    assert_eq!(c.result(), OptimizationResult::Unchanged);
    c.push(OptimizationResult::Changed);
    c.push(OptimizationResult::Unchanged);
    assert_eq!(c.result(), OptimizationResult::Changed);
}

fn program(graphs: Vec<Option<Graph>>) -> Program {
    let methods = graphs
        .into_iter()
        .map(|graph| Method { name: Symbol { id: 0 }, ld_name: Vec::new(), entity: 0, graph })
        .collect();
    Program {
        classes: vec![Class {
            name: Symbol { id: 0 },
            ld_name: Vec::new(),
            entity: 0,
            fields: Vec::new(),
            methods,
        }],
        entities: Vec::new(),
    }
}

#[test]
fn every_graph_of_a_program_is_optimized() {
    let mut p = program(vec![None, Some(while_loop(true).g), Some(Graph::new(vec![]))]);
    assert_eq!(run(&mut p), OptimizationResult::Changed);
    assert_eq!(p.classes[0].methods[1].graph.as_ref().unwrap().keep_alive.len(), 1);
    assert_eq!(run(&mut p), OptimizationResult::Unchanged);
    let opt = Optimization {
        kind: OptimizationKind::UnreachableCodeElimination,
        flags: vec![GlobalOptimizationFlag::DumpYcomp],
    };
    let mut q = program(vec![Some(while_loop(false).g)]);
    assert_eq!(opt.run(&mut q), OptimizationResult::Changed);
    assert_eq!(opt.run(&mut q), OptimizationResult::Unchanged);
}

#[test]
fn all_optimizations_are_run_to_the_end() {
    let uce = || Optimization {
        kind: OptimizationKind::UnreachableCodeElimination,
        flags: Vec::new(),
    };
    let mut p = program(vec![Some(while_loop(true).g), None]);
    assert!(has_room(&p));
    run_all(&mut p, &[], true);
    assert!(p.classes[0].methods[0].graph.as_ref().unwrap().keep_alive.is_empty());
    run_all(&mut p, &[uce(), uce()], true);
    let g = p.classes[0].methods[0].graph.as_ref().unwrap();
    assert_eq!(g.keep_alive.len(), 1);
    assert!(plan(g).is_empty());
    let mut q = program(vec![Some(while_loop(false).g)]);
    run_all(&mut q, &[uce()], false);
    assert_eq!(q.classes[0].methods[0].graph.as_ref().unwrap().keep_alive.len(), 1);
}

//! Typed handles on the nodes of a graph, and the questions that lowering
//! and optimization ask of them.
use super::graph::{
    EntityId, Graph, Mode, NodeId, NodeKind, ProjKind, Relation, Tarval, PN_CALL_T_RESULT,
    PN_COND_FALSE, PN_COND_TRUE, PN_DIV_RES, PN_LOAD_RES, PN_START_M, PN_START_T_ARGS,
};
use vstd::prelude::*;

verus! {

/// A handle on the start of the method.
#[derive(Debug, Copy, Clone, PartialEq, Eq, Structural)]
pub struct Start(pub NodeId);

/// A handle on the end of the method.
#[derive(Debug, Copy, Clone, PartialEq, Eq, Structural)]
pub struct End(pub NodeId);

/// A handle on a basic block.
#[derive(Debug, Copy, Clone, PartialEq, Eq, Structural)]
pub struct Block(pub NodeId);

/// A handle on a constant.
#[derive(Debug, Copy, Clone, PartialEq, Eq, Structural)]
pub struct Const(pub NodeId);

/// A handle on the address of an entity.
#[derive(Debug, Copy, Clone, PartialEq, Eq, Structural)]
pub struct Address(pub NodeId);

/// A handle on an addition.
#[derive(Debug, Copy, Clone, PartialEq, Eq, Structural)]
pub struct Add(pub NodeId);

/// A handle on a subtraction.
#[derive(Debug, Copy, Clone, PartialEq, Eq, Structural)]
pub struct Sub(pub NodeId);

/// A handle on a multiplication.
#[derive(Debug, Copy, Clone, PartialEq, Eq, Structural)]
pub struct Mul(pub NodeId);

/// A handle on a division.
#[derive(Debug, Copy, Clone, PartialEq, Eq, Structural)]
pub struct Div(pub NodeId);

/// A handle on a remainder.
#[derive(Debug, Copy, Clone, PartialEq, Eq, Structural)]
pub struct Mod(pub NodeId);

/// A handle on a bitwise and.
#[derive(Debug, Copy, Clone, PartialEq, Eq, Structural)]
pub struct And(pub NodeId);

/// A handle on a bitwise or.
#[derive(Debug, Copy, Clone, PartialEq, Eq, Structural)]
pub struct Or(pub NodeId);

/// A handle on a bitwise exclusive or.
#[derive(Debug, Copy, Clone, PartialEq, Eq, Structural)]
pub struct Eor(pub NodeId);

/// A handle on a bitwise negation.
#[derive(Debug, Copy, Clone, PartialEq, Eq, Structural)]
pub struct Not(pub NodeId);

/// A handle on an arithmetic negation.
#[derive(Debug, Copy, Clone, PartialEq, Eq, Structural)]
pub struct Minus(pub NodeId);

/// A handle on a conversion between modes.
#[derive(Debug, Copy, Clone, PartialEq, Eq, Structural)]
pub struct Conv(pub NodeId);

/// A handle on a comparison.
#[derive(Debug, Copy, Clone, PartialEq, Eq, Structural)]
pub struct Cmp(pub NodeId);

/// A handle on a conditional branch.
#[derive(Debug, Copy, Clone, PartialEq, Eq, Structural)]
pub struct Cond(pub NodeId);

/// A handle on a phi.
#[derive(Debug, Copy, Clone, PartialEq, Eq, Structural)]
pub struct Phi(pub NodeId);

/// A handle on an unconditional jump.
#[derive(Debug, Copy, Clone, PartialEq, Eq, Structural)]
pub struct Jmp(pub NodeId);

/// A handle on a return.
#[derive(Debug, Copy, Clone, PartialEq, Eq, Structural)]
pub struct Return(pub NodeId);

/// A handle on a call.
#[derive(Debug, Copy, Clone, PartialEq, Eq, Structural)]
pub struct Call(pub NodeId);

/// A handle on the address of a field.
#[derive(Debug, Copy, Clone, PartialEq, Eq, Structural)]
pub struct Member(pub NodeId);

/// A handle on the address of an array element.
#[derive(Debug, Copy, Clone, PartialEq, Eq, Structural)]
pub struct Sel(pub NodeId);

/// A handle on a load from memory.
#[derive(Debug, Copy, Clone, PartialEq, Eq, Structural)]
pub struct Load(pub NodeId);

/// A handle on a store to memory.
#[derive(Debug, Copy, Clone, PartialEq, Eq, Structural)]
pub struct Store(pub NodeId);

/// A handle on an unknown value.
#[derive(Debug, Copy, Clone, PartialEq, Eq, Structural)]
pub struct Unknown(pub NodeId);

/// A handle on a removed node.
#[derive(Debug, Copy, Clone, PartialEq, Eq, Structural)]
pub struct Bad(pub NodeId);

/// A handle on a projection.
#[derive(Debug, Copy, Clone, PartialEq, Eq, Structural)]
pub struct Proj(pub NodeId);

/// A node together with its kind. Two nodes are the same when their
/// indices are.
#[derive(Debug, Copy, Clone, PartialEq, Eq, Structural)]
pub enum Node {
    Start(Start),
    End(End),
    Block(Block),
    Const(Const),
    Address(Address),
    Add(Add),
    Sub(Sub),
    Mul(Mul),
    Div(Div),
    Mod(Mod),
    And(And),
    Or(Or),
    Eor(Eor),
    Not(Not),
    Minus(Minus),
    Conv(Conv),
    Cmp(Cmp),
    Cond(Cond),
    Phi(Phi),
    Jmp(Jmp),
    Return(Return),
    Call(Call),
    Member(Member),
    Sel(Sel),
    Load(Load),
    Store(Store),
    Unknown(Unknown),
    Bad(Bad),
    Proj(Proj, ProjKind),
}

/// What the projection at index `id` stands for. It is decided by its
/// number and by the node it projects from.
pub open spec fn spec_proj_kind(g: &Graph, id: NodeId) -> ProjKind {
    let num = g.spec_kind(id)->Proj_0;
    let pred = g.spec_ins(id)[0];
    match g.spec_kind(pred) {
        NodeKind::Start => if num == PN_START_M {
            ProjKind::StartM
        } else if num == PN_START_T_ARGS {
            ProjKind::StartTArgs
        } else {
            ProjKind::Other
        },
        NodeKind::Cond => if num == PN_COND_FALSE {
            ProjKind::CondFalse
        } else if num == PN_COND_TRUE {
            ProjKind::CondTrue
        } else {
            ProjKind::Other
        },
        NodeKind::Div => if num == PN_DIV_RES {
            ProjKind::DivRes
        } else {
            ProjKind::Other
        },
        NodeKind::Mod => if num == PN_DIV_RES {
            ProjKind::ModRes
        } else {
            ProjKind::Other
        },
        NodeKind::Call => if num == PN_CALL_T_RESULT {
            ProjKind::CallTResult
        } else {
            ProjKind::Other
        },
        NodeKind::Load => if num == PN_LOAD_RES {
            ProjKind::LoadRes
        } else {
            ProjKind::Other
        },
        NodeKind::Proj(outer) => {
            let base = g.spec_kind(g.spec_ins(pred)[0]);
            if base == NodeKind::Start && outer == PN_START_T_ARGS {
                ProjKind::StartTArgsArg(num)
            } else if base == NodeKind::Call && outer == PN_CALL_T_RESULT {
                ProjKind::CallTResultArg(num)
            } else {
                ProjKind::Other
            }
        },
        _ => ProjKind::Other,
    }
}

/// The node at index `id`, with its kind.
pub open spec fn spec_node(g: &Graph, id: NodeId) -> Node {
    match g.spec_kind(id) {
        NodeKind::Start => Node::Start(Start(id)),
        NodeKind::End => Node::End(End(id)),
        NodeKind::Block => Node::Block(Block(id)),
        NodeKind::Const(_) => Node::Const(Const(id)),
        NodeKind::Address(_) => Node::Address(Address(id)),
        NodeKind::Add => Node::Add(Add(id)),
        NodeKind::Sub => Node::Sub(Sub(id)),
        NodeKind::Mul => Node::Mul(Mul(id)),
        NodeKind::Div => Node::Div(Div(id)),
        NodeKind::Mod => Node::Mod(Mod(id)),
        NodeKind::And => Node::And(And(id)),
        NodeKind::Or => Node::Or(Or(id)),
        NodeKind::Eor => Node::Eor(Eor(id)),
        NodeKind::Not => Node::Not(Not(id)),
        NodeKind::Minus => Node::Minus(Minus(id)),
        NodeKind::Conv => Node::Conv(Conv(id)),
        NodeKind::Cmp(_) => Node::Cmp(Cmp(id)),
        NodeKind::Cond => Node::Cond(Cond(id)),
        NodeKind::Phi => Node::Phi(Phi(id)),
        NodeKind::Jmp => Node::Jmp(Jmp(id)),
        NodeKind::Return => Node::Return(Return(id)),
        NodeKind::Call => Node::Call(Call(id)),
        NodeKind::Member(_) => Node::Member(Member(id)),
        NodeKind::Sel(_) => Node::Sel(Sel(id)),
        NodeKind::Load => Node::Load(Load(id)),
        NodeKind::Store => Node::Store(Store(id)),
        NodeKind::Unknown => Node::Unknown(Unknown(id)),
        NodeKind::Bad => Node::Bad(Bad(id)),
        NodeKind::Proj(_) => Node::Proj(Proj(id), spec_proj_kind(g, id)),
    }
}

/// The nodes at the indices `ids`, in the same order.
pub open spec fn spec_nodes(g: &Graph, ids: Seq<NodeId>) -> Seq<Node> {
    Seq::new(ids.len(), |i: int| spec_node(g, ids[i]))
}

impl Node {
    /// The index of the node in its graph.
    pub open spec fn spec_id(self) -> NodeId {
        match self {
            Node::Start(n) => n.0,
            Node::End(n) => n.0,
            Node::Block(n) => n.0,
            Node::Const(n) => n.0,
            Node::Address(n) => n.0,
            Node::Add(n) => n.0,
            Node::Sub(n) => n.0,
            Node::Mul(n) => n.0,
            Node::Div(n) => n.0,
            Node::Mod(n) => n.0,
            Node::And(n) => n.0,
            Node::Or(n) => n.0,
            Node::Eor(n) => n.0,
            Node::Not(n) => n.0,
            Node::Minus(n) => n.0,
            Node::Conv(n) => n.0,
            Node::Cmp(n) => n.0,
            Node::Cond(n) => n.0,
            Node::Phi(n) => n.0,
            Node::Jmp(n) => n.0,
            Node::Return(n) => n.0,
            Node::Call(n) => n.0,
            Node::Member(n) => n.0,
            Node::Sel(n) => n.0,
            Node::Load(n) => n.0,
            Node::Store(n) => n.0,
            Node::Unknown(n) => n.0,
            Node::Bad(n) => n.0,
            Node::Proj(n, _) => n.0,
        }
    }

    /// The index of the node in its graph.
    pub fn node_id(&self) -> (id: NodeId)
        ensures
            id == self.spec_id(),
    {
        match self {
            Node::Start(n) => n.0,
            Node::End(n) => n.0,
            Node::Block(n) => n.0,
            Node::Const(n) => n.0,
            Node::Address(n) => n.0,
            Node::Add(n) => n.0,
            Node::Sub(n) => n.0,
            Node::Mul(n) => n.0,
            Node::Div(n) => n.0,
            Node::Mod(n) => n.0,
            Node::And(n) => n.0,
            Node::Or(n) => n.0,
            Node::Eor(n) => n.0,
            Node::Not(n) => n.0,
            Node::Minus(n) => n.0,
            Node::Conv(n) => n.0,
            Node::Cmp(n) => n.0,
            Node::Cond(n) => n.0,
            Node::Phi(n) => n.0,
            Node::Jmp(n) => n.0,
            Node::Return(n) => n.0,
            Node::Call(n) => n.0,
            Node::Member(n) => n.0,
            Node::Sel(n) => n.0,
            Node::Load(n) => n.0,
            Node::Store(n) => n.0,
            Node::Unknown(n) => n.0,
            Node::Bad(n) => n.0,
            Node::Proj(n, _) => n.0,
        }
    }

    /// The node is the one that stands at its index in `g`.
    pub open spec fn valid_in(self, g: &Graph) -> bool {
        self.spec_id() < g.nodes@.len() && self == spec_node(g, self.spec_id())
    }

    /// The node at index `id` of `g`.
    pub fn new(g: &Graph, id: NodeId) -> (n: Node)
        requires
            g.wf(),
            id < g.nodes@.len(),
        ensures
            n == spec_node(g, id),
            n.spec_id() == id,
            n.valid_in(g),
    {
        match g.kind(id) {
            NodeKind::Start => Node::Start(Start(id)),
            NodeKind::End => Node::End(End(id)),
            NodeKind::Block => Node::Block(Block(id)),
            NodeKind::Const(_) => Node::Const(Const(id)),
            NodeKind::Address(_) => Node::Address(Address(id)),
            NodeKind::Add => Node::Add(Add(id)),
            NodeKind::Sub => Node::Sub(Sub(id)),
            NodeKind::Mul => Node::Mul(Mul(id)),
            NodeKind::Div => Node::Div(Div(id)),
            NodeKind::Mod => Node::Mod(Mod(id)),
            NodeKind::And => Node::And(And(id)),
            NodeKind::Or => Node::Or(Or(id)),
            NodeKind::Eor => Node::Eor(Eor(id)),
            NodeKind::Not => Node::Not(Not(id)),
            NodeKind::Minus => Node::Minus(Minus(id)),
            NodeKind::Conv => Node::Conv(Conv(id)),
            NodeKind::Cmp(_) => Node::Cmp(Cmp(id)),
            NodeKind::Cond => Node::Cond(Cond(id)),
            NodeKind::Phi => Node::Phi(Phi(id)),
            NodeKind::Jmp => Node::Jmp(Jmp(id)),
            NodeKind::Return => Node::Return(Return(id)),
            NodeKind::Call => Node::Call(Call(id)),
            NodeKind::Member(_) => Node::Member(Member(id)),
            NodeKind::Sel(_) => Node::Sel(Sel(id)),
            NodeKind::Load => Node::Load(Load(id)),
            NodeKind::Store => Node::Store(Store(id)),
            NodeKind::Unknown => Node::Unknown(Unknown(id)),
            NodeKind::Bad => Node::Bad(Bad(id)),
            NodeKind::Proj(_) => {
                let p = Proj(id);
                Node::Proj(p, p.kind(g))
            },
        }
    }

    /// The nodes at the indices `ids`, in the same order.
    pub fn from_ids(g: &Graph, ids: &Vec<NodeId>, from: usize) -> (v: Vec<Node>)
        requires
            g.wf(),
            from <= ids@.len(),
            forall|i: int| 0 <= i < ids@.len() ==> #[trigger] ids@[i] < g.nodes@.len(),
        ensures
            v@ == spec_nodes(g, ids@.subrange(from as int, ids@.len() as int)),
    {
        let mut v: Vec<Node> = Vec::new();
        let mut i: usize = from;
        while i < ids.len()
            invariant
                g.wf(),
                from <= i <= ids@.len(),
                forall|k: int| 0 <= k < ids@.len() ==> #[trigger] ids@[k] < g.nodes@.len(),
                v@ == spec_nodes(g, ids@.subrange(from as int, i as int)),
            decreases ids@.len() - i,
        {
            v.push(Node::new(g, ids[i]));
            assert(v@ =~= spec_nodes(g, ids@.subrange(from as int, i + 1)));
            i += 1;
        }
        assert(ids@.subrange(from as int, i as int) =~= ids@.subrange(from as int, ids@.len() as int));
        v
    }

    /// The block, if the node is one.
    pub fn as_block(self) -> (r: Option<Block>)
        ensures
            r == (match self {
                Node::Block(b) => Some(b),
                _ => None::<Block>,
            }),
    {
        match self {
            Node::Block(b) => Some(b),
            _ => None,
        }
    }

    pub fn is_const(self) -> (r: bool)
        ensures
            r == (self is Const),
    {
        matches!(self, Node::Const(_))
    }

    pub fn is_address(self) -> (r: bool)
        ensures
            r == (self is Address),
    {
        matches!(self, Node::Address(_))
    }

    pub fn is_return(self) -> (r: bool)
        ensures
            r == (self is Return),
    {
        matches!(self, Node::Return(_))
    }

    pub fn is_jmp(self) -> (r: bool)
        ensures
            r == (self is Jmp),
    {
        matches!(self, Node::Jmp(_))
    }

    pub fn is_cond(self) -> (r: bool)
        ensures
            r == (self is Cond),
    {
        matches!(self, Node::Cond(_))
    }

    pub fn is_start(self) -> (r: bool)
        ensures
            r == (self is Start),
    {
        matches!(self, Node::Start(_))
    }

    /// The mode of the node.
    pub fn mode(&self, g: &Graph) -> (m: Mode)
        requires
            self.spec_id() < g.nodes@.len(),
        ensures
            m == g.spec_mode(self.spec_id()),
    {
        g.mode(self.node_id())
    }

    /// The block that the node belongs to.
    pub fn block(&self, g: &Graph) -> (b: Block)
        requires
            g.wf(),
            self.spec_id() < g.nodes@.len(),
        ensures
            b.0 == g.spec_block(self.spec_id()),
            b.0 < g.nodes@.len(),
            g.spec_kind(b.0) == NodeKind::Block,
    {
        Block(g.block_of(self.node_id()))
    }

    /// The nodes that this one depends on.
    pub fn in_nodes(&self, g: &Graph) -> (v: Vec<Node>)
        requires
            g.wf(),
            self.spec_id() < g.nodes@.len(),
        ensures
            v@ == spec_nodes(g, g.spec_ins(self.spec_id())),
    {
        let ins = g.in_nodes(self.node_id());
        assert(ins@.subrange(0, ins@.len() as int) =~= ins@);
        Node::from_ids(g, ins, 0)
    }

    /// The nodes that depend on this one, in the order of their indices.
    pub fn out_nodes(&self, g: &Graph) -> (v: Vec<Node>)
        requires
            g.wf(),
            self.spec_id() < g.nodes@.len(),
        ensures
            forall|i: int| 0 <= i < v@.len() ==> (#[trigger] v@[i]).valid_in(g),
            forall|m: NodeId|
                m < g.nodes@.len() ==> (v@.contains(spec_node(g, m)) <==> #[trigger] g.uses(
                    m,
                    self.spec_id(),
                )),
            forall|i: int, j: int|
                0 <= i < j < v@.len() ==> (#[trigger] v@[i]).spec_id() < (#[trigger] v@[j]).spec_id(),
    {
        let outs = g.out_nodes(self.node_id());
        assert(outs@.subrange(0, outs@.len() as int) =~= outs@);
        let v = Node::from_ids(g, &outs, 0);
        assert forall|m: NodeId| m < g.nodes@.len() implies (v@.contains(spec_node(g, m))
            <==> #[trigger] g.uses(m, self.spec_id())) by {
            if v@.contains(spec_node(g, m)) {
                let i = choose|i: int| 0 <= i < v@.len() && v@[i] == spec_node(g, m);
                assert(outs@[i] == m);
                assert(outs@.contains(m));
            }
            if g.uses(m, self.spec_id()) {
                assert(outs@.contains(m));
                let i = choose|i: int| 0 <= i < outs@.len() && outs@[i] == m;
                assert(v@[i] == spec_node(g, m));
            }
        }
        v
    }
}

impl Proj {
    /// The number of the component that the projection takes.
    pub fn num(self, g: &Graph) -> (n: u32)
        requires
            self.0 < g.nodes@.len(),
            g.spec_kind(self.0) is Proj,
        ensures
            n == g.spec_kind(self.0)->Proj_0,
    {
        match g.kind(self.0) {
            NodeKind::Proj(n) => n,
            _ => 0,
        }
    }

    /// The node that the projection takes a component of.
    pub fn pred(self, g: &Graph) -> (n: NodeId)
        requires
            g.wf(),
            self.0 < g.nodes@.len(),
            g.spec_kind(self.0) is Proj,
        ensures
            n == g.spec_ins(self.0)[0],
            n < g.nodes@.len(),
    {
        let ins = g.in_nodes(self.0);
        ins[0]
    }

    /// What the projection stands for.
    pub fn kind(self, g: &Graph) -> (k: ProjKind)
        requires
            g.wf(),
            self.0 < g.nodes@.len(),
            g.spec_kind(self.0) is Proj,
        ensures
            k == spec_proj_kind(g, self.0),
    {
        let num = self.num(g);
        let pred = self.pred(g);
        match g.kind(pred) {
            NodeKind::Start => if num == PN_START_M {
                ProjKind::StartM
            } else if num == PN_START_T_ARGS {
                ProjKind::StartTArgs
            } else {
                ProjKind::Other
            },
            NodeKind::Cond => if num == PN_COND_FALSE {
                ProjKind::CondFalse
            } else if num == PN_COND_TRUE {
                ProjKind::CondTrue
            } else {
                ProjKind::Other
            },
            NodeKind::Div => if num == PN_DIV_RES {
                ProjKind::DivRes
            } else {
                ProjKind::Other
            },
            NodeKind::Mod => if num == PN_DIV_RES {
                ProjKind::ModRes
            } else {
                ProjKind::Other
            },
            NodeKind::Call => if num == PN_CALL_T_RESULT {
                ProjKind::CallTResult
            } else {
                ProjKind::Other
            },
            NodeKind::Load => if num == PN_LOAD_RES {
                ProjKind::LoadRes
            } else {
                ProjKind::Other
            },
            NodeKind::Proj(outer) => {
                let base = g.kind(Proj(pred).pred(g));
                if matches!(base, NodeKind::Start) && outer == PN_START_T_ARGS {
                    ProjKind::StartTArgsArg(num)
                } else if matches!(base, NodeKind::Call) && outer == PN_CALL_T_RESULT {
                    ProjKind::CallTResultArg(num)
                } else {
                    ProjKind::Other
                }
            },
            _ => ProjKind::Other,
        }
    }
}


impl Block {
    /// The control flow that enters the block: one node for each way in.
    pub fn cfg_preds(self, g: &Graph) -> (v: Vec<Node>)
        requires
            g.wf(),
            self.0 < g.nodes@.len(),
        ensures
            v@ == spec_nodes(g, g.spec_ins(self.0)),
    {
        Node::Block(self).in_nodes(g)
    }

    /// The number of ways into the block.
    pub fn num_cfgpreds(self, g: &Graph) -> (n: usize)
        requires
            g.wf(),
            self.0 < g.nodes@.len(),
        ensures
            n == g.spec_ins(self.0).len(),
    {
        g.in_nodes(self.0).len()
    }
}

/// What a phi yields for each way into its block: the block that the way
/// comes from, and the value.
pub open spec fn spec_phi_preds(g: &Graph, phi: NodeId) -> Seq<(Block, Node)> {
    Seq::new(
        g.spec_ins(phi).len(),
        |i: int| (Block(g.spec_block(g.spec_ins(g.spec_block(phi))[i])), spec_node(g, g.spec_ins(phi)[i])),
    )
}

impl Phi {
    /// The values that the phi chooses from, one for each way into its
    /// block.
    pub fn phi_preds(self, g: &Graph) -> (v: Vec<Node>)
        requires
            g.wf(),
            self.0 < g.nodes@.len(),
        ensures
            v@ == spec_nodes(g, g.spec_ins(self.0)),
    {
        Node::Phi(self).in_nodes(g)
    }

    /// For each way into the phi's block, the block that the way comes
    /// from and the value that the phi yields when the block is entered
    /// that way.
    pub fn preds(self, g: &Graph) -> (v: Vec<(Block, Node)>)
        requires
            g.wf(),
            self.0 < g.nodes@.len(),
            g.spec_kind(self.0) == NodeKind::Phi,
        ensures
            v@ == spec_phi_preds(g, self.0),
    {
        let block = g.block_of(self.0);
        assert(g.node_wf(self.0 as int));
        let ways = g.in_nodes(block);
        let values = g.in_nodes(self.0);
        let mut v: Vec<(Block, Node)> = Vec::new();
        let mut i: usize = 0;
        while i < values.len()
            invariant
                g.wf(),
                i <= values@.len(),
                values@ == g.spec_ins(self.0),
                ways@ == g.spec_ins(g.spec_block(self.0)),
                ways@.len() == values@.len(),
                forall|k: int| 0 <= k < ways@.len() ==> #[trigger] ways@[k] < g.nodes@.len(),
                forall|k: int| 0 <= k < values@.len() ==> #[trigger] values@[k] < g.nodes@.len(),
                v@ == spec_phi_preds(g, self.0).subrange(0, i as int),
            decreases values@.len() - i,
        {
            let from = Block(g.block_of(ways[i]));
            v.push((from, Node::new(g, values[i])));
            assert(v@ =~= spec_phi_preds(g, self.0).subrange(0, i + 1));
            i += 1;
        }
        assert(v@ =~= spec_phi_preds(g, self.0));
        v
    }
}

impl Return {
    /// The values that are returned: the operands behind the memory.
    pub fn return_res(self, g: &Graph) -> (v: Vec<Node>)
        requires
            g.wf(),
            self.0 < g.nodes@.len(),
            g.spec_kind(self.0) == NodeKind::Return,
        ensures
            v@ == spec_nodes(g, g.spec_ins(self.0).subrange(1, g.spec_ins(self.0).len() as int)),
    {
        Node::from_ids(g, g.in_nodes(self.0), 1)
    }
}

impl Call {
    /// The node that says what is called.
    pub fn ptr(self, g: &Graph) -> (n: Node)
        requires
            g.wf(),
            self.0 < g.nodes@.len(),
            g.spec_kind(self.0) == NodeKind::Call,
        ensures
            n == spec_node(g, g.spec_ins(self.0)[1]),
            n.valid_in(g),
    {
        assert(g.node_wf(self.0 as int));
        Node::new(g, g.in_node(self.0, 1))
    }

    /// The arguments of the call: the operands behind memory and callee.
    pub fn args(self, g: &Graph) -> (v: Vec<Node>)
        requires
            g.wf(),
            self.0 < g.nodes@.len(),
            g.spec_kind(self.0) == NodeKind::Call,
        ensures
            v@ == spec_nodes(g, g.spec_ins(self.0).subrange(2, g.spec_ins(self.0).len() as int)),
    {
        Node::from_ids(g, g.in_nodes(self.0), 2)
    }
}

/// Node `m` is the first node that uses node `n`.
pub open spec fn is_first_user(g: &Graph, m: NodeId, n: NodeId) -> bool {
    &&& m < g.nodes@.len()
    &&& g.uses(m, n)
    &&& forall|k: NodeId| k < m ==> !#[trigger] g.uses(k, n)
}

/// Node `n` leads to block `b`: the first node that uses `n` is `b`, and
/// it is a block.
pub open spec fn leads_to(g: &Graph, n: NodeId, b: NodeId) -> bool {
    is_first_user(g, b, n) && g.spec_kind(b) == NodeKind::Block
}

/// The first node that uses node `n`, if any does.
pub fn first_out(g: &Graph, n: NodeId) -> (r: Option<NodeId>)
    requires
        n < g.nodes@.len(),
    ensures
        r matches Some(m) ==> is_first_user(g, m, n),
        r is None ==> forall|m: NodeId| m < g.nodes@.len() ==> !#[trigger] g.uses(m, n),
{
    let outs = g.out_nodes(n);
    if outs.len() > 0 {
        let m = outs[0];
        assert(outs@.contains(m));
        assert forall|k: NodeId| k < m implies !#[trigger] g.uses(k, n) by {
            if g.uses(k, n) {
                assert(outs@.contains(k));
                let i = choose|i: int| 0 <= i < outs@.len() && outs@[i] == k;
                assert(i == 0 || outs@[0] < outs@[i]);
            }
        }
        Some(m)
    } else {
        assert forall|m: NodeId| m < g.nodes@.len() implies !#[trigger] g.uses(m, n) by {
            if g.uses(m, n) {
                assert(outs@.contains(m));
            }
        }
        None
    }
}

/// The block that node `n` leads to, if it leads to one.
pub fn target_block(g: &Graph, n: NodeId) -> (r: Option<Block>)
    requires
        n < g.nodes@.len(),
    ensures
        r matches Some(b) ==> leads_to(g, n, b.0),
        r is None ==> forall|b: NodeId| !#[trigger] leads_to(g, n, b),
{
    match first_out(g, n) {
        Some(m) => if matches!(g.kind(m), NodeKind::Block) {
            Some(Block(m))
        } else {
            assert forall|b: NodeId| !#[trigger] leads_to(g, n, b) by {
                if leads_to(g, n, b) {
                    if b < m {
                        assert(!g.uses(b, n));
                    } else if m < b {
                        assert(!g.uses(m, n));
                    }
                }
            }
            None
        },
        None => None,
    }
}

impl Jmp {
    /// The block that the jump goes to: its first user, if that is a
    /// block.
    pub fn out_target_block(self, g: &Graph) -> (r: Option<Block>)
        requires
            self.0 < g.nodes@.len(),
        ensures
            r matches Some(b) ==> leads_to(g, self.0, b.0),
            r is None ==> forall|b: NodeId| !#[trigger] leads_to(g, self.0, b),
    {
        target_block(g, self.0)
    }
}

/// Node `m` is the projection with number `num` from node `n`.
pub open spec fn is_proj_of(g: &Graph, m: NodeId, n: NodeId, num: u32) -> bool {
    g.spec_kind(m) == NodeKind::Proj(num) && g.spec_ins(m).len() == 1 && g.spec_ins(m)[0] == n
}

/// Node `p` is the first projection with number `num` from node `n`.
pub open spec fn is_first_proj_of(g: &Graph, p: NodeId, n: NodeId, num: u32) -> bool {
    &&& p < g.nodes@.len()
    &&& is_proj_of(g, p, n, num)
    &&& forall|k: NodeId| k < p ==> !#[trigger] is_proj_of(g, k, n, num)
}

/// Node `n` has no projection with number `num`.
pub open spec fn has_no_proj(g: &Graph, n: NodeId, num: u32) -> bool {
    forall|m: NodeId| m < g.nodes@.len() ==> !#[trigger] is_proj_of(g, m, n, num)
}

/// The number of the projection for the way that a branch takes when its
/// condition is `val`.
pub open spec fn cond_pn(val: bool) -> u32 {
    if val {
        PN_COND_TRUE
    } else {
        PN_COND_FALSE
    }
}

/// The first projection with number `num` from node `n`, if there is one.
pub fn out_proj(g: &Graph, n: NodeId, num: u32) -> (r: Option<Proj>)
    requires
        g.wf(),
        n < g.nodes@.len(),
    ensures
        r matches Some(p) ==> is_first_proj_of(g, p.0, n, num),
        r is None ==> has_no_proj(g, n, num),
{
    let mut m: usize = 0;
    while m < g.len()
        invariant
            g.wf(),
            m <= g.nodes@.len(),
            forall|k: NodeId| k < m ==> !#[trigger] is_proj_of(g, k, n, num),
        decreases g.nodes@.len() - m,
    {
        assert(g.node_wf(m as int));
        match g.kind(m) {
            NodeKind::Proj(k) => {
                if k == num && g.in_node(m, 0) == n {
                    return Some(Proj(m));
                }
            },
            _ => {},
        }
        m += 1;
    }
    None
}

impl Cond {
    /// The value that decides the branch.
    pub fn selector(self, g: &Graph) -> (n: Node)
        requires
            g.wf(),
            self.0 < g.nodes@.len(),
            g.spec_kind(self.0) == NodeKind::Cond,
        ensures
            n == spec_node(g, g.spec_ins(self.0)[0]),
            n.valid_in(g),
    {
        assert(g.node_wf(self.0 as int));
        Node::new(g, g.in_node(self.0, 0))
    }

    /// The projection for the way that is taken when the condition is
    /// `val`.
    pub fn out_proj_val(self, g: &Graph, val: bool) -> (r: Option<Proj>)
        requires
            g.wf(),
            self.0 < g.nodes@.len(),
        ensures
            r matches Some(p) ==> is_first_proj_of(g, p.0, self.0, cond_pn(val)),
            r is None ==> has_no_proj(g, self.0, cond_pn(val)),
    {
        if val {
            out_proj(g, self.0, PN_COND_TRUE)
        } else {
            out_proj(g, self.0, PN_COND_FALSE)
        }
    }

    /// The projection for the way that is taken when the condition is
    /// `val`, and the block that it leads to. `None` when there is no
    /// such projection or nothing uses it. What uses it first must be a
    /// block.
    pub fn out_proj_target_block(self, g: &Graph, val: bool) -> (r: Option<(Proj, Block)>)
        requires
            g.wf(),
            self.0 < g.nodes@.len(),
            forall|p: NodeId, m: NodeId|
                #[trigger] is_first_proj_of(g, p, self.0, cond_pn(val)) && #[trigger] is_first_user(
                    g,
                    m,
                    p,
                ) ==> g.spec_kind(m) == NodeKind::Block,
        ensures
            r matches Some((p, b)) ==> {
                &&& is_first_proj_of(g, p.0, self.0, cond_pn(val))
                &&& leads_to(g, p.0, b.0)
            },
            r is None ==> has_no_proj(g, self.0, cond_pn(val)) || exists|p: NodeId|
                #[trigger] is_first_proj_of(g, p, self.0, cond_pn(val)) && forall|m: NodeId|
                    m < g.nodes@.len() ==> !#[trigger] g.uses(m, p),
    {
        match self.out_proj_val(g, val) {
            Some(proj) => match first_out(g, proj.0) {
                Some(m) => Some((proj, Block(m))),
                None => {
                    assert(is_first_proj_of(g, proj.0, self.0, cond_pn(val)));
                    None
                },
            },
            None => None,
        }
    }
}

/// How a node is written out when it is shown for debugging.
#[derive(Debug, Copy, Clone, PartialEq, Eq, Structural)]
pub struct NodeDebugOpts {
    short: bool,
}

impl Default for NodeDebugOpts {
    fn default() -> (r: Self)
        ensures
            !r.spec_short(),
    {
        NodeDebugOpts { short: false }
    }
}

impl NodeDebugOpts {
    /// Whether the short form is asked for.
    pub closed spec fn spec_short(self) -> bool {
        self.short
    }

    /// Whether the short form is asked for.
    pub fn short(self) -> (r: bool)
        ensures
            r == self.spec_short(),
    {
        self.short
    }

    /// The same options, but with the short form switched to `val`.
    pub fn with_short(self, val: bool) -> (r: Self)
        ensures
            r.spec_short() == val,
    {
        let mut opts = self;
        opts.short = val;
        opts
    }
}

/// Something that can be written out for debugging, in a short and a long
/// form.
pub trait NodeDebug: Sized {
    /// The value is one of graph `g`.
    spec fn shown_in(&self, g: &Graph) -> bool;

    /// The text that stands for the value in graph `g` under `options`.
    spec fn spec_debug_text(&self, g: &Graph, options: NodeDebugOpts) -> Seq<u8>;

    /// The text that stands for the value in graph `g` under `options`.
    fn debug_text(&self, g: &Graph, options: NodeDebugOpts) -> (r: Vec<u8>)
        requires
            g.wf(),
            self.shown_in(g),
        ensures
            r@ == self.spec_debug_text(g, options),
    ;
}

/// The text `Address of ` with the space behind it.
pub open spec fn address_of_text() -> Seq<u8> {
    seq![65u8, 100u8, 100u8, 114u8, 101u8, 115u8, 115u8, 32u8, 111u8, 102u8, 32u8]
}

impl NodeDebug for Address {
    open spec fn shown_in(&self, g: &Graph) -> bool {
        self.0 < g.nodes@.len() && g.spec_kind(self.0) is Address
    }

    /// In the short form an `@` and the name of the entity, in the long
    /// form `Address of`, the name of the entity, and the index of the
    /// node.
    open spec fn spec_debug_text(&self, g: &Graph, options: NodeDebugOpts) -> Seq<u8> {
        let name = g.entities@[g.spec_kind(self.0)->Address_0 as int].ld_name@;
        if options.spec_short() {
            seq![64u8] + name
        } else {
            address_of_text() + name + seq![32u8] + crate::diagnostics::spec_decimal(self.0 as nat)
        }
    }

    fn debug_text(&self, g: &Graph, options: NodeDebugOpts) -> (r: Vec<u8>) {
        assert(g.node_wf(self.0 as int));
        let entity = match g.kind(self.0) {
            NodeKind::Address(e) => e,
            _ => 0,
        };
        let name = &g.entities[entity].ld_name;
        let mut r: Vec<u8> = Vec::new();
        if options.short() {
            r.push(64);
            let mut i: usize = 0;
            while i < name.len()
                invariant
                    i <= name@.len(),
                    r@ == seq![64u8] + name@.subrange(0, i as int),
                decreases name@.len() - i,
            {
                r.push(name[i]);
                assert(r@ =~= seq![64u8] + name@.subrange(0, i + 1));
                i += 1;
            }
            assert(name@.subrange(0, i as int) =~= name@);
        } else {
            let head: [u8; 11] = [65, 100, 100, 114, 101, 115, 115, 32, 111, 102, 32];
            assert(head@ =~= address_of_text());
            let mut i: usize = 0;
            while i < 11
                invariant
                    i <= 11,
                    head@ == address_of_text(),
                    r@ == head@.subrange(0, i as int),
                decreases 11 - i,
            {
                r.push(head[i]);
                assert(r@ =~= head@.subrange(0, i + 1));
                i += 1;
            }
            assert(head@.subrange(0, 11) =~= head@);
            let mut i: usize = 0;
            while i < name.len()
                invariant
                    i <= name@.len(),
                    r@ == address_of_text() + name@.subrange(0, i as int),
                decreases name@.len() - i,
            {
                r.push(name[i]);
                assert(r@ =~= address_of_text() + name@.subrange(0, i + 1));
                i += 1;
            }
            assert(name@.subrange(0, i as int) =~= name@);
            r.push(32);
            let digits = crate::diagnostics::decimal(self.0);
            let ghost before = r@;
            let mut i: usize = 0;
            while i < digits.len()
                invariant
                    i <= digits@.len(),
                    r@ == before + digits@.subrange(0, i as int),
                decreases digits@.len() - i,
            {
                r.push(digits[i]);
                assert(r@ =~= before + digits@.subrange(0, i + 1));
                i += 1;
            }
            assert(digits@.subrange(0, i as int) =~= digits@);
            assert(r@ =~= self.spec_debug_text(g, options));
        }
        r
    }
}

/// A value with the options under which it is to be written out.
#[derive(Copy, Clone)]
pub struct NodeDebugFmt<T: NodeDebug + Copy>(pub T, pub NodeDebugOpts);

impl<T: NodeDebug + Copy> NodeDebugFmt<T> {
    /// The same value, written in the short form if `val` holds.
    pub fn short(self, val: bool) -> (r: Self)
        ensures
            r.0 == self.0,
            r.1.spec_short() == val,
    {
        NodeDebugFmt(self.0, self.1.with_short(val))
    }

    /// The same value, written under `opts`.
    pub fn with(self, opts: NodeDebugOpts) -> (r: Self)
        ensures
            r.0 == self.0,
            r.1 == opts,
    {
        NodeDebugFmt(self.0, opts)
    }
}


/// The block that node `n` leads to, if it leads to one.
pub open spec fn spec_target(g: &Graph, n: NodeId) -> Option<NodeId> {
    if exists|b: NodeId| leads_to(g, n, b) {
        Some(choose|b: NodeId| leads_to(g, n, b))
    } else {
        None
    }
}

/// A node leads to one block at most.
pub proof fn lemma_leads_to_unique(g: &Graph, n: NodeId, a: NodeId, b: NodeId)
    requires
        leads_to(g, n, a),
        leads_to(g, n, b),
    ensures
        a == b,
{
    if a < b {
        assert(!g.uses(a, n));
    } else if b < a {
        assert(!g.uses(b, n));
    }
}

/// What `target_block` returns is the block that the node leads to.
pub proof fn lemma_target_is_spec(g: &Graph, n: NodeId, r: Option<Block>)
    requires
        r matches Some(b) ==> leads_to(g, n, b.0),
        r is None ==> forall|b: NodeId| !#[trigger] leads_to(g, n, b),
    ensures
        spec_target(g, n) == (match r {
            Some(b) => Some(b.0),
            None => None::<NodeId>,
        }),
{
    match r {
        Some(b) => {
            let c = choose|c: NodeId| leads_to(g, n, c);
            lemma_leads_to_unique(g, n, b.0, c);
        },
        None => {},
    }
}

/// The first projection with number `num` from node `n`, if there is one.
pub open spec fn spec_out_proj(g: &Graph, n: NodeId, num: u32) -> Option<NodeId> {
    if exists|p: NodeId| is_first_proj_of(g, p, n, num) {
        Some(choose|p: NodeId| is_first_proj_of(g, p, n, num))
    } else {
        None
    }
}

/// What `out_proj` returns is the first projection with the number.
pub proof fn lemma_out_proj_is_spec(g: &Graph, n: NodeId, num: u32, r: Option<Proj>)
    requires
        r matches Some(p) ==> is_first_proj_of(g, p.0, n, num),
        r is None ==> has_no_proj(g, n, num),
    ensures
        spec_out_proj(g, n, num) == (match r {
            Some(p) => Some(p.0),
            None => None::<NodeId>,
        }),
{
    match r {
        Some(p) => {
            let c = choose|c: NodeId| is_first_proj_of(g, c, n, num);
            if c < p.0 {
                assert(!is_proj_of(g, c, n, num));
            } else if p.0 < c {
                assert(!is_proj_of(g, p.0, n, num));
            }
        },
        None => {
            assert forall|p: NodeId| !is_first_proj_of(g, p, n, num) by {
                if is_first_proj_of(g, p, n, num) {
                    assert(!is_proj_of(g, p, n, num));
                }
            }
        },
    }
}

/// The block that a branch goes to when its condition is `val`, if its
/// projection for that way exists and leads to a block.
pub open spec fn spec_branch_target(g: &Graph, cond: NodeId, val: bool) -> Option<NodeId> {
    match spec_out_proj(g, cond, cond_pn(val)) {
        Some(p) => spec_target(g, p),
        None => None,
    }
}

/// Node `c` is the only node that uses node `n`.
pub open spec fn is_sole_user(g: &Graph, c: NodeId, n: NodeId) -> bool {
    &&& c < g.nodes@.len()
    &&& g.uses(c, n)
    &&& forall|m: NodeId| m < g.nodes@.len() && #[trigger] g.uses(m, n) ==> m == c
}

/// The only node that uses node `n`, if exactly one does.
pub fn sole_user(g: &Graph, n: NodeId) -> (r: Option<NodeId>)
    requires
        n < g.nodes@.len(),
    ensures
        r matches Some(c) ==> is_sole_user(g, c, n),
        r is None ==> forall|c: NodeId| !#[trigger] is_sole_user(g, c, n),
{
    let outs = g.out_nodes(n);
    if outs.len() == 1 {
        let c = outs[0];
        assert(outs@.contains(c));
        assert forall|m: NodeId| m < g.nodes@.len() && #[trigger] g.uses(m, n) implies m == c by {
            assert(outs@.contains(m));
            let i = choose|i: int| 0 <= i < outs@.len() && outs@[i] == m;
        }
        Some(c)
    } else {
        assert forall|c: NodeId| !#[trigger] is_sole_user(g, c, n) by {
            if is_sole_user(g, c, n) {
                assert(outs@.contains(c));
                if outs@.len() >= 2 {
                    assert(outs@.contains(outs@[0]));
                    assert(outs@.contains(outs@[1]));
                    assert(g.uses(outs@[0], n));
                    assert(g.uses(outs@[1], n));
                    assert(outs@[0] < outs@[1]);
                }
            }
        }
        None
    }
}

/// What the node enum and the handles of the single kinds of node have
/// in common: each names a node of a graph by its index.
pub trait NodeTrait: Sized {
    /// The index of the node in its graph.
    spec fn spec_ir_node(&self) -> NodeId;

    /// The index of the node in its graph.
    fn internal_ir_node(&self) -> (id: NodeId)
        ensures
            id == self.spec_ir_node(),
    ;
}

impl NodeTrait for Node {
    open spec fn spec_ir_node(&self) -> NodeId {
        self.spec_id()
    }

    fn internal_ir_node(&self) -> (id: NodeId) {
        self.node_id()
    }
}

impl NodeTrait for Start {
    open spec fn spec_ir_node(&self) -> NodeId {
        self.0
    }

    fn internal_ir_node(&self) -> (id: NodeId) {
        self.0
    }
}

impl NodeTrait for End {
    open spec fn spec_ir_node(&self) -> NodeId {
        self.0
    }

    fn internal_ir_node(&self) -> (id: NodeId) {
        self.0
    }
}

impl NodeTrait for Block {
    open spec fn spec_ir_node(&self) -> NodeId {
        self.0
    }

    fn internal_ir_node(&self) -> (id: NodeId) {
        self.0
    }
}

impl NodeTrait for Const {
    open spec fn spec_ir_node(&self) -> NodeId {
        self.0
    }

    fn internal_ir_node(&self) -> (id: NodeId) {
        self.0
    }
}

impl NodeTrait for Address {
    open spec fn spec_ir_node(&self) -> NodeId {
        self.0
    }

    fn internal_ir_node(&self) -> (id: NodeId) {
        self.0
    }
}

impl NodeTrait for Add {
    open spec fn spec_ir_node(&self) -> NodeId {
        self.0
    }

    fn internal_ir_node(&self) -> (id: NodeId) {
        self.0
    }
}

impl NodeTrait for Sub {
    open spec fn spec_ir_node(&self) -> NodeId {
        self.0
    }

    fn internal_ir_node(&self) -> (id: NodeId) {
        self.0
    }
}

impl NodeTrait for Mul {
    open spec fn spec_ir_node(&self) -> NodeId {
        self.0
    }

    fn internal_ir_node(&self) -> (id: NodeId) {
        self.0
    }
}

impl NodeTrait for Div {
    open spec fn spec_ir_node(&self) -> NodeId {
        self.0
    }

    fn internal_ir_node(&self) -> (id: NodeId) {
        self.0
    }
}

impl NodeTrait for Mod {
    open spec fn spec_ir_node(&self) -> NodeId {
        self.0
    }

    fn internal_ir_node(&self) -> (id: NodeId) {
        self.0
    }
}

impl NodeTrait for And {
    open spec fn spec_ir_node(&self) -> NodeId {
        self.0
    }

    fn internal_ir_node(&self) -> (id: NodeId) {
        self.0
    }
}

impl NodeTrait for Or {
    open spec fn spec_ir_node(&self) -> NodeId {
        self.0
    }

    fn internal_ir_node(&self) -> (id: NodeId) {
        self.0
    }
}

impl NodeTrait for Eor {
    open spec fn spec_ir_node(&self) -> NodeId {
        self.0
    }

    fn internal_ir_node(&self) -> (id: NodeId) {
        self.0
    }
}

impl NodeTrait for Not {
    open spec fn spec_ir_node(&self) -> NodeId {
        self.0
    }

    fn internal_ir_node(&self) -> (id: NodeId) {
        self.0
    }
}

impl NodeTrait for Minus {
    open spec fn spec_ir_node(&self) -> NodeId {
        self.0
    }

    fn internal_ir_node(&self) -> (id: NodeId) {
        self.0
    }
}

impl NodeTrait for Conv {
    open spec fn spec_ir_node(&self) -> NodeId {
        self.0
    }

    fn internal_ir_node(&self) -> (id: NodeId) {
        self.0
    }
}

impl NodeTrait for Cmp {
    open spec fn spec_ir_node(&self) -> NodeId {
        self.0
    }

    fn internal_ir_node(&self) -> (id: NodeId) {
        self.0
    }
}

impl NodeTrait for Cond {
    open spec fn spec_ir_node(&self) -> NodeId {
        self.0
    }

    fn internal_ir_node(&self) -> (id: NodeId) {
        self.0
    }
}

impl NodeTrait for Phi {
    open spec fn spec_ir_node(&self) -> NodeId {
        self.0
    }

    fn internal_ir_node(&self) -> (id: NodeId) {
        self.0
    }
}

impl NodeTrait for Jmp {
    open spec fn spec_ir_node(&self) -> NodeId {
        self.0
    }

    fn internal_ir_node(&self) -> (id: NodeId) {
        self.0
    }
}

impl NodeTrait for Return {
    open spec fn spec_ir_node(&self) -> NodeId {
        self.0
    }

    fn internal_ir_node(&self) -> (id: NodeId) {
        self.0
    }
}

impl NodeTrait for Call {
    open spec fn spec_ir_node(&self) -> NodeId {
        self.0
    }

    fn internal_ir_node(&self) -> (id: NodeId) {
        self.0
    }
}

impl NodeTrait for Member {
    open spec fn spec_ir_node(&self) -> NodeId {
        self.0
    }

    fn internal_ir_node(&self) -> (id: NodeId) {
        self.0
    }
}

impl NodeTrait for Sel {
    open spec fn spec_ir_node(&self) -> NodeId {
        self.0
    }

    fn internal_ir_node(&self) -> (id: NodeId) {
        self.0
    }
}

impl NodeTrait for Load {
    open spec fn spec_ir_node(&self) -> NodeId {
        self.0
    }

    fn internal_ir_node(&self) -> (id: NodeId) {
        self.0
    }
}

impl NodeTrait for Store {
    open spec fn spec_ir_node(&self) -> NodeId {
        self.0
    }

    fn internal_ir_node(&self) -> (id: NodeId) {
        self.0
    }
}

impl NodeTrait for Unknown {
    open spec fn spec_ir_node(&self) -> NodeId {
        self.0
    }

    fn internal_ir_node(&self) -> (id: NodeId) {
        self.0
    }
}

impl NodeTrait for Bad {
    open spec fn spec_ir_node(&self) -> NodeId {
        self.0
    }

    fn internal_ir_node(&self) -> (id: NodeId) {
        self.0
    }
}

impl NodeTrait for Proj {
    open spec fn spec_ir_node(&self) -> NodeId {
        self.0
    }

    fn internal_ir_node(&self) -> (id: NodeId) {
        self.0
    }
}

impl Proj {
    /// Adds the projection of component `num` of this node to the graph,
    /// in the block of this node.
    pub fn new_proj(self, g: &mut Graph, num: u32, mode: Mode) -> (p: Proj)
        requires
            old(g).wf(),
            self.0 < old(g).nodes@.len(),
            old(g).nodes@.len() < usize::MAX,
        ensures
            final(g).wf(),
            p.0 == old(g).nodes@.len(),
            final(g).nodes@.len() == p.0 + 1,
            final(g).nodes@.subrange(0, p.0 as int) == old(g).nodes@,
            final(g).spec_kind(p.0) == NodeKind::Proj(num),
            final(g).spec_mode(p.0) == mode,
            final(g).spec_ins(p.0) == seq![self.0],
            final(g).spec_block(p.0) == old(g).spec_block(self.0),
    {
        assert(g.node_wf(self.0 as int));
        let block = g.block_of(self.0);
        let mut ins: Vec<NodeId> = Vec::new();
        ins.push(self.0);
        assert(ins@ =~= seq![self.0]);
        Proj(g.add_node(NodeKind::Proj(num), mode, block, ins))
    }
}

impl Block {
    /// Adds one more way into the block, which must not hold a phi yet.
    pub fn imm_add_pred<N: NodeTrait>(self, g: &mut Graph, pred: N)
        requires
            old(g).wf(),
            self.0 < old(g).nodes@.len(),
            pred.spec_ir_node() < old(g).nodes@.len(),
            old(g).spec_kind(self.0) == NodeKind::Block,
            forall|n: NodeId|
                n < old(g).nodes@.len() && #[trigger] old(g).spec_kind(n) == NodeKind::Phi
                    ==> old(g).spec_block(n) != self.0,
        ensures
            final(g).wf(),
            final(g).nodes@.len() == old(g).nodes@.len(),
            final(g).spec_ins(self.0) == old(g).spec_ins(self.0).push(pred.spec_ir_node()),
            forall|n: NodeId|
                n < old(g).nodes@.len() && n != self.0 ==> #[trigger] final(g).nodes@[n as int]
                    == old(g).nodes@[n as int],
            final(g).spec_kind(self.0) == NodeKind::Block,
    {
        g.add_block_pred(self.0, pred.internal_ir_node());
    }
}

impl Address {
    /// Makes this node the address of entity `entity`.
    pub fn set_entity(self, g: &mut Graph, entity: EntityId)
        requires
            old(g).wf(),
            self.0 < old(g).nodes@.len(),
            old(g).spec_kind(self.0) is Address,
            entity < old(g).entities@.len(),
        ensures
            final(g).wf(),
            final(g).nodes@.len() == old(g).nodes@.len(),
            final(g).spec_kind(self.0) == NodeKind::Address(entity),
            forall|m: NodeId|
                m < old(g).nodes@.len() && m != self.0 ==> #[trigger] final(g).nodes@[m as int]
                    == old(g).nodes@[m as int],
            final(g).entities == old(g).entities,
    {
        g.set_entity(self.0, entity);
    }
}

} // verus!

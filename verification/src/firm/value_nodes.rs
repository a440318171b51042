//! The nodes that stand for values which may be known when the program is
//! compiled, with the values that they depend on and the way in which
//! their own value follows from those.
use super::graph::{Graph, NodeId, NodeKind, ProjKind, Relation, Tarval};
use super::nodes::{spec_proj_kind, Node, Proj};
use vstd::prelude::*;
use vstd::slice::slice_to_vec;

verus! {

/// The number fits in 32 signed bits.
pub open spec fn fits(x: int) -> bool {
    i32::MIN <= x <= i32::MAX
}

/// `x`, which is the sum or the difference of two numbers of 32 signed
/// bits, as a number of 32 signed bits: it wraps around.
pub open spec fn wrap(x: int) -> int {
    if x > i32::MAX {
        x - 0x1_0000_0000
    } else if x < i32::MIN {
        x + 0x1_0000_0000
    } else {
        x
    }
}

/// What is known of a sum of two values.
pub open spec fn spec_add(l: Tarval, r: Tarval) -> Tarval {
    match (l, r) {
        (Tarval::Int(a), Tarval::Int(b)) => if fits(a as int) && fits(b as int) {
            Tarval::Int(wrap(a + b) as i64)
        } else {
            Tarval::Bad
        },
        (Tarval::Unknown, Tarval::Int(_)) | (Tarval::Int(_), Tarval::Unknown) | (
            Tarval::Unknown,
            Tarval::Unknown,
        ) => Tarval::Unknown,
        _ => Tarval::Bad,
    }
}

/// What is known of a difference of two values.
pub open spec fn spec_sub(l: Tarval, r: Tarval) -> Tarval {
    match (l, r) {
        (Tarval::Int(a), Tarval::Int(b)) => if fits(a as int) && fits(b as int) {
            Tarval::Int(wrap(a - b) as i64)
        } else {
            Tarval::Bad
        },
        (Tarval::Unknown, Tarval::Int(_)) | (Tarval::Int(_), Tarval::Unknown) | (
            Tarval::Unknown,
            Tarval::Unknown,
        ) => Tarval::Unknown,
        _ => Tarval::Bad,
    }
}

/// What is known of a product of two values. A product that leaves 32
/// signed bits is taken as not known.
pub open spec fn spec_mul(l: Tarval, r: Tarval) -> Tarval {
    match (l, r) {
        (Tarval::Int(a), Tarval::Int(b)) => if fits(a as int) && fits(b as int) && fits(a * b) {
            Tarval::Int((a * b) as i64)
        } else {
            Tarval::Bad
        },
        (Tarval::Unknown, Tarval::Int(_)) | (Tarval::Int(_), Tarval::Unknown) | (
            Tarval::Unknown,
            Tarval::Unknown,
        ) => Tarval::Unknown,
        _ => Tarval::Bad,
    }
}

/// What is known of a quotient (`rem` not set) or a remainder of two
/// values. Only a division of a number that is not negative by a positive
/// number is taken as known.
pub open spec fn spec_div(l: Tarval, r: Tarval, rem: bool) -> Tarval {
    match (l, r) {
        (Tarval::Int(a), Tarval::Int(b)) => if 0 <= a <= i32::MAX && 0 < b <= i32::MAX {
            if rem {
                Tarval::Int((a % b) as i64)
            } else {
                Tarval::Int((a / b) as i64)
            }
        } else {
            Tarval::Bad
        },
        (Tarval::Unknown, Tarval::Int(_)) | (Tarval::Int(_), Tarval::Unknown) | (
            Tarval::Unknown,
            Tarval::Unknown,
        ) => Tarval::Unknown,
        _ => Tarval::Bad,
    }
}

/// What is known of the comparison of two values under a relation.
pub open spec fn spec_cmp(rel: Relation, l: Tarval, r: Tarval) -> Tarval {
    match (l, r) {
        (Tarval::Int(a), Tarval::Int(b)) => Tarval::Bool(
            match rel {
                Relation::False => false,
                Relation::Equal => a == b,
                Relation::Less => a < b,
                Relation::Greater => a > b,
                Relation::LessEqual => a <= b,
                Relation::GreaterEqual => a >= b,
                Relation::LessGreater => a != b,
                Relation::True => true,
            },
        ),
        (Tarval::Unknown, Tarval::Int(_)) | (Tarval::Int(_), Tarval::Unknown) | (
            Tarval::Unknown,
            Tarval::Unknown,
        ) => Tarval::Unknown,
        _ => Tarval::Bad,
    }
}

/// What is known of the negation of a value.
pub open spec fn spec_neg(v: Tarval) -> Tarval {
    match v {
        Tarval::Int(a) => if fits(a as int) {
            Tarval::Int(wrap(-a) as i64)
        } else {
            Tarval::Bad
        },
        Tarval::Unknown => Tarval::Unknown,
        _ => Tarval::Bad,
    }
}

/// A binary operation on values.
#[derive(Debug, Copy, Clone, PartialEq, Eq, Structural)]
pub enum BinKind {
    Add,
    Sub,
    Mul,
    Div,
    Mod,
    Cmp(Relation),
}

/// What is known of the result of a binary operation on two values.
pub open spec fn spec_binary(kind: BinKind, l: Tarval, r: Tarval) -> Tarval {
    match kind {
        BinKind::Add => spec_add(l, r),
        BinKind::Sub => spec_sub(l, r),
        BinKind::Mul => spec_mul(l, r),
        BinKind::Div => spec_div(l, r, false),
        BinKind::Mod => spec_div(l, r, true),
        BinKind::Cmp(rel) => spec_cmp(rel, l, r),
    }
}

/// `x`, which lies between twice the least and twice the greatest number
/// of 32 signed bits, as a number of 32 signed bits.
fn wrapped(x: i64) -> (r: i64)
    requires
        2 * i32::MIN <= x <= 2 * i32::MAX + 1,
    ensures
        r == wrap(x as int),
{
    if x > 2147483647 {
        x - 4294967296
    } else if x < -2147483648 {
        x + 4294967296
    } else {
        x
    }
}

fn fits_i32(a: i64) -> (r: bool)
    ensures
        r == fits(a as int),
{
    -2147483648 <= a && a <= 2147483647
}

/// What is known of the result of a binary operation on two values.
pub fn compute_binary(kind: BinKind, l: Tarval, r: Tarval) -> (t: Tarval)
    ensures
        t == spec_binary(kind, l, r),
{
    match (l, r) {
        (Tarval::Int(a), Tarval::Int(b)) => {
            match kind {
                BinKind::Add => if fits_i32(a) && fits_i32(b) {
                    Tarval::Int(wrapped(a + b))
                } else {
                    Tarval::Bad
                },
                BinKind::Sub => if fits_i32(a) && fits_i32(b) {
                    Tarval::Int(wrapped(a - b))
                } else {
                    Tarval::Bad
                },
                BinKind::Mul => if fits_i32(a) && fits_i32(b) {
                    assert(-0x8000_0000 * 0x8000_0000 <= a * b <= 0x8000_0000 * 0x8000_0000)
                        by (nonlinear_arith)
                        requires
                            -0x8000_0000 <= a <= 0x7fff_ffff,
                            -0x8000_0000 <= b <= 0x7fff_ffff,
                    ;
                    let p = a * b;
                    if fits_i32(p) {
                        Tarval::Int(p)
                    } else {
                        Tarval::Bad
                    }
                } else {
                    Tarval::Bad
                },
                BinKind::Div => if 0 <= a && a <= 2147483647 && 0 < b && b <= 2147483647 {
                    Tarval::Int(a / b)
                } else {
                    Tarval::Bad
                },
                BinKind::Mod => if 0 <= a && a <= 2147483647 && 0 < b && b <= 2147483647 {
                    Tarval::Int(a % b)
                } else {
                    Tarval::Bad
                },
                BinKind::Cmp(rel) => Tarval::Bool(
                    match rel {
                        Relation::False => false,
                        Relation::Equal => a == b,
                        Relation::Less => a < b,
                        Relation::Greater => a > b,
                        Relation::LessEqual => a <= b,
                        Relation::GreaterEqual => a >= b,
                        Relation::LessGreater => a != b,
                        Relation::True => true,
                    },
                ),
            }
        },
        (Tarval::Unknown, Tarval::Int(_)) => Tarval::Unknown,
        (Tarval::Int(_), Tarval::Unknown) => Tarval::Unknown,
        (Tarval::Unknown, Tarval::Unknown) => Tarval::Unknown,
        _ => Tarval::Bad,
    }
}

/// What is known of the negation of a value.
pub fn compute_neg(v: Tarval) -> (t: Tarval)
    ensures
        t == spec_neg(v),
{
    match v {
        Tarval::Int(a) => if fits_i32(a) {
            Tarval::Int(wrapped(-a))
        } else {
            Tarval::Bad
        },
        Tarval::Unknown => Tarval::Unknown,
        _ => Tarval::Bad,
    }
}

/// The binary operation that a node of kind `kind` stands for, if it
/// stands for one whose value may be known.
pub open spec fn spec_bin_kind(kind: NodeKind) -> Option<BinKind> {
    match kind {
        NodeKind::Add => Some(BinKind::Add),
        NodeKind::Sub => Some(BinKind::Sub),
        NodeKind::Mul => Some(BinKind::Mul),
        NodeKind::Div => Some(BinKind::Div),
        NodeKind::Mod => Some(BinKind::Mod),
        NodeKind::Cmp(rel) => Some(BinKind::Cmp(rel)),
        _ => None,
    }
}

/// The join of the values `values`: what is known of a value that is one
/// of them.
pub open spec fn spec_join_all(values: Seq<Tarval>) -> Tarval
    decreases values.len(),
{
    if values.len() == 0 {
        Tarval::Unknown
    } else {
        super::graph::spec_join(spec_join_all(values.drop_last()), values.last())
    }
}

/// A node cannot be taken as the kind of node that was asked for.
#[derive(Debug, Copy, Clone, PartialEq, Eq, Structural)]
pub struct DowncastErr(pub Node);

/// A node whose value may be known when the program is compiled.
pub trait ValueNode {
    /// The index of the node.
    spec fn spec_id(&self) -> NodeId;

    /// The node is one of graph `g` and of the kind that it is taken
    /// for.
    spec fn valid_in(&self, g: &Graph) -> bool;

    /// The nodes whose values the value of this node follows from.
    spec fn spec_value_nodes(&self, g: &Graph) -> Seq<NodeId>;

    /// What is known of the value of the node when `values` is what is
    /// known of the values that it follows from.
    spec fn spec_compute(&self, g: &Graph, values: Seq<Tarval>) -> Tarval;

    /// The nodes whose values the value of this node follows from.
    fn value_nodes(&self, g: &Graph) -> (r: Vec<NodeId>)
        requires
            g.wf(),
            self.valid_in(g),
        ensures
            r@ == self.spec_value_nodes(g),
    ;

    /// What is known of the value of the node when `values` is what is
    /// known of the values that it follows from, one for each of them.
    fn compute(&self, g: &Graph, values: &Vec<Tarval>) -> (r: Tarval)
        requires
            g.wf(),
            self.valid_in(g),
            values@.len() == self.spec_value_nodes(g).len(),
        ensures
            r == self.spec_compute(g, values@),
    ;
}

/// A node that stands for a binary operation whose value may be known.
pub trait BinOp {
    spec fn spec_id(&self) -> NodeId;

    spec fn valid_in(&self, g: &Graph) -> bool;

    spec fn spec_kind(&self, g: &Graph) -> BinKind;

    spec fn spec_left(&self, g: &Graph) -> NodeId;

    spec fn spec_right(&self, g: &Graph) -> NodeId;

    /// The left operand.
    fn left(&self, g: &Graph) -> (r: NodeId)
        requires
            g.wf(),
            self.valid_in(g),
        ensures
            r == self.spec_left(g),
            r < g.nodes@.len(),
    ;

    /// The right operand.
    fn right(&self, g: &Graph) -> (r: NodeId)
        requires
            g.wf(),
            self.valid_in(g),
        ensures
            r == self.spec_right(g),
            r < g.nodes@.len(),
    ;

    /// What is known of the result when `left` and `right` is what is
    /// known of the operands.
    fn compute(&self, g: &Graph, left: Tarval, right: Tarval) -> (r: Tarval)
        requires
            g.wf(),
            self.valid_in(g),
        ensures
            r == spec_binary(self.spec_kind(g), left, right),
    ;
}

/// A node that stands for a unary operation whose value may be known.
pub trait UnaryOp {
    spec fn spec_id(&self) -> NodeId;

    spec fn valid_in(&self, g: &Graph) -> bool;

    /// Whether the operation is the arithmetic negation. A conversion is
    /// the other unary operation.
    spec fn is_minus(&self, g: &Graph) -> bool;

    spec fn spec_operand(&self, g: &Graph) -> NodeId;

    /// The operand.
    fn operand(&self, g: &Graph) -> (r: NodeId)
        requires
            g.wf(),
            self.valid_in(g),
        ensures
            r == self.spec_operand(g),
            r < g.nodes@.len(),
    ;

    /// What is known of the result when `val` is what is known of the
    /// operand: a conversion keeps what is known.
    fn compute(&self, g: &Graph, val: Tarval) -> (r: Tarval)
        requires
            g.wf(),
            self.valid_in(g),
        ensures
            r == (if self.is_minus(g) {
                spec_neg(val)
            } else {
                val
            }),
    ;
}

/// A handle on a node that stands for a binary operation.
#[derive(Debug, Copy, Clone, PartialEq, Eq, Structural)]
pub struct BinaryNode(pub NodeId);

/// The offset of the left operand among the operands of a node of kind
/// `kind`: a division and a remainder have the memory before it.
pub open spec fn left_index(kind: NodeKind) -> int {
    if kind == NodeKind::Div || kind == NodeKind::Mod {
        1
    } else {
        0
    }
}

impl BinaryNode {
    fn kind(&self, g: &Graph) -> (k: BinKind)
        requires
            self.0 < g.nodes@.len(),
            spec_bin_kind(g.spec_kind(self.0)) is Some,
        ensures
            Some(k) == spec_bin_kind(g.spec_kind(self.0)),
    {
        match g.kind(self.0) {
            NodeKind::Add => BinKind::Add,
            NodeKind::Sub => BinKind::Sub,
            NodeKind::Mul => BinKind::Mul,
            NodeKind::Div => BinKind::Div,
            NodeKind::Mod => BinKind::Mod,
            NodeKind::Cmp(rel) => BinKind::Cmp(rel),
            _ => BinKind::Add,
        }
    }

    fn first(&self, g: &Graph) -> (i: usize)
        requires
            self.0 < g.nodes@.len(),
        ensures
            i == left_index(g.spec_kind(self.0)),
    {
        match g.kind(self.0) {
            NodeKind::Div => 1,
            NodeKind::Mod => 1,
            _ => 0,
        }
    }
}

impl BinOp for BinaryNode {
    open spec fn spec_id(&self) -> NodeId {
        self.0
    }

    open spec fn valid_in(&self, g: &Graph) -> bool {
        self.0 < g.nodes@.len() && spec_bin_kind(g.spec_kind(self.0)) is Some
    }

    open spec fn spec_kind(&self, g: &Graph) -> BinKind {
        spec_bin_kind(g.spec_kind(self.0))->0
    }

    open spec fn spec_left(&self, g: &Graph) -> NodeId {
        g.spec_ins(self.0)[left_index(g.spec_kind(self.0))]
    }

    open spec fn spec_right(&self, g: &Graph) -> NodeId {
        g.spec_ins(self.0)[left_index(g.spec_kind(self.0)) + 1]
    }

    fn left(&self, g: &Graph) -> (r: NodeId) {
        assert(g.node_wf(self.0 as int));
        g.in_node(self.0, self.first(g))
    }

    fn right(&self, g: &Graph) -> (r: NodeId) {
        assert(g.node_wf(self.0 as int));
        g.in_node(self.0, self.first(g) + 1)
    }

    fn compute(&self, g: &Graph, left: Tarval, right: Tarval) -> (r: Tarval) {
        compute_binary(self.kind(g), left, right)
    }
}

/// A handle on a node that stands for a unary operation.
#[derive(Debug, Copy, Clone, PartialEq, Eq, Structural)]
pub struct UnaryNode(pub NodeId);

impl UnaryOp for UnaryNode {
    open spec fn spec_id(&self) -> NodeId {
        self.0
    }

    open spec fn valid_in(&self, g: &Graph) -> bool {
        self.0 < g.nodes@.len() && (g.spec_kind(self.0) == NodeKind::Minus || g.spec_kind(self.0)
            == NodeKind::Conv)
    }

    open spec fn is_minus(&self, g: &Graph) -> bool {
        g.spec_kind(self.0) == NodeKind::Minus
    }

    open spec fn spec_operand(&self, g: &Graph) -> NodeId {
        g.spec_ins(self.0)[0]
    }

    fn operand(&self, g: &Graph) -> (r: NodeId) {
        assert(g.node_wf(self.0 as int));
        g.in_node(self.0, 0)
    }

    fn compute(&self, g: &Graph, val: Tarval) -> (r: Tarval) {
        if matches!(g.kind(self.0), NodeKind::Minus) {
            compute_neg(val)
        } else {
            val
        }
    }
}

/// A handle on a node whose value may be known: a constant, a phi, a
/// projection, or a unary or binary operation.
#[derive(Debug, Copy, Clone, PartialEq, Eq, Structural)]
pub struct AnyValueNode(pub NodeId);

/// A node of kind `kind` is one whose value may be known.
pub open spec fn is_value_kind(kind: NodeKind) -> bool {
    kind is Const || kind == NodeKind::Phi || kind is Proj || kind == NodeKind::Minus || kind
        == NodeKind::Conv || spec_bin_kind(kind) is Some
}

impl ValueNode for AnyValueNode {
    open spec fn spec_id(&self) -> NodeId {
        self.0
    }

    open spec fn valid_in(&self, g: &Graph) -> bool {
        self.0 < g.nodes@.len() && is_value_kind(g.spec_kind(self.0))
    }

    open spec fn spec_value_nodes(&self, g: &Graph) -> Seq<NodeId> {
        let kind = g.spec_kind(self.0);
        let ins = g.spec_ins(self.0);
        if kind is Const {
            Seq::empty()
        } else if kind == NodeKind::Phi {
            ins
        } else if kind is Proj {
            if spec_proj_kind(g, self.0) == ProjKind::DivRes || spec_proj_kind(g, self.0)
                == ProjKind::ModRes {
                seq![ins[0]]
            } else {
                Seq::empty()
            }
        } else if kind == NodeKind::Minus || kind == NodeKind::Conv {
            seq![ins[0]]
        } else {
            seq![ins[left_index(kind)], ins[left_index(kind) + 1]]
        }
    }

    open spec fn spec_compute(&self, g: &Graph, values: Seq<Tarval>) -> Tarval {
        let kind = g.spec_kind(self.0);
        if kind is Const {
            kind->Const_0
        } else if kind == NodeKind::Phi {
            spec_join_all(values)
        } else if kind is Proj {
            if values.len() == 1 {
                values[0]
            } else {
                Tarval::Bad
            }
        } else if kind == NodeKind::Minus {
            spec_neg(values[0])
        } else if kind == NodeKind::Conv {
            values[0]
        } else {
            spec_binary(spec_bin_kind(kind)->0, values[0], values[1])
        }
    }

    fn value_nodes(&self, g: &Graph) -> (r: Vec<NodeId>) {
        assert(g.node_wf(self.0 as int));
        let mut r: Vec<NodeId> = Vec::new();
        match g.kind(self.0) {
            NodeKind::Const(_) => {},
            NodeKind::Phi => {
                r = slice_to_vec(g.in_nodes(self.0).as_slice());
            },
            NodeKind::Proj(_) => {
                match Proj(self.0).kind(g) {
                    ProjKind::DivRes => {
                        r.push(g.in_node(self.0, 0));
                    },
                    ProjKind::ModRes => {
                        r.push(g.in_node(self.0, 0));
                    },
                    _ => {},
                }
            },
            NodeKind::Minus => {
                r.push(g.in_node(self.0, 0));
            },
            NodeKind::Conv => {
                r.push(g.in_node(self.0, 0));
            },
            _ => {
                let b = BinaryNode(self.0);
                r.push(b.left(g));
                r.push(b.right(g));
            },
        }
        assert(r@ =~= self.spec_value_nodes(g));
        r
    }

    fn compute(&self, g: &Graph, values: &Vec<Tarval>) -> (r: Tarval) {
        assert(g.node_wf(self.0 as int));
        match g.kind(self.0) {
            NodeKind::Const(tv) => tv,
            NodeKind::Phi => {
                let mut acc = Tarval::Unknown;
                let mut i: usize = 0;
                assert(values@.subrange(0, 0) =~= Seq::<Tarval>::empty());
                while i < values.len()
                    invariant
                        i <= values@.len(),
                        acc == spec_join_all(values@.subrange(0, i as int)),
                    decreases values@.len() - i,
                {
                    assert(values@.subrange(0, i + 1).drop_last() =~= values@.subrange(0, i as int));
                    acc = acc.join(values[i]);
                    i += 1;
                }
                assert(values@.subrange(0, i as int) =~= values@);
                acc
            },
            NodeKind::Proj(_) => {
                if values.len() == 1 {
                    values[0]
                } else {
                    Tarval::Bad
                }
            },
            NodeKind::Minus => compute_neg(values[0]),
            NodeKind::Conv => values[0],
            _ => BinaryNode(self.0).compute(g, values[0], values[1]),
        }
    }
}

/// The node as one whose value may be known, if it is one.
pub fn try_as_value_node(g: &Graph, node: Node) -> (r: Result<AnyValueNode, DowncastErr>)
    requires
        node.valid_in(g),
    ensures
        r == (if is_value_kind(g.spec_kind(node.spec_id())) {
            Ok::<AnyValueNode, DowncastErr>(AnyValueNode(node.spec_id()))
        } else {
            Err::<AnyValueNode, DowncastErr>(DowncastErr(node))
        }),
        r matches Ok(v) ==> v.valid_in(g),
{
    match node {
        Node::Proj(p, _) => Ok(AnyValueNode(p.0)),
        Node::Const(n) => Ok(AnyValueNode(n.0)),
        Node::Phi(n) => Ok(AnyValueNode(n.0)),
        Node::Minus(n) => Ok(AnyValueNode(n.0)),
        Node::Conv(n) => Ok(AnyValueNode(n.0)),
        Node::Add(n) => Ok(AnyValueNode(n.0)),
        Node::Sub(n) => Ok(AnyValueNode(n.0)),
        Node::Mul(n) => Ok(AnyValueNode(n.0)),
        Node::Div(n) => Ok(AnyValueNode(n.0)),
        Node::Mod(n) => Ok(AnyValueNode(n.0)),
        Node::Cmp(n) => Ok(AnyValueNode(n.0)),
        _ => Err(DowncastErr(node)),
    }
}

/// The node as a binary operation whose value may be known, if it is
/// one.
pub fn try_as_bin_op(g: &Graph, node: Node) -> (r: Result<BinaryNode, DowncastErr>)
    requires
        node.valid_in(g),
    ensures
        r == (if spec_bin_kind(g.spec_kind(node.spec_id())) is Some {
            Ok::<BinaryNode, DowncastErr>(BinaryNode(node.spec_id()))
        } else {
            Err::<BinaryNode, DowncastErr>(DowncastErr(node))
        }),
{
    match node {
        Node::Add(n) => Ok(BinaryNode(n.0)),
        Node::Sub(n) => Ok(BinaryNode(n.0)),
        Node::Mul(n) => Ok(BinaryNode(n.0)),
        Node::Div(n) => Ok(BinaryNode(n.0)),
        Node::Mod(n) => Ok(BinaryNode(n.0)),
        Node::Cmp(n) => Ok(BinaryNode(n.0)),
        _ => Err(DowncastErr(node)),
    }
}

/// The node as a unary operation whose value may be known, if it is one.
pub fn try_as_unary_op(g: &Graph, node: Node) -> (r: Result<UnaryNode, DowncastErr>)
    requires
        node.valid_in(g),
    ensures
        r == (if g.spec_kind(node.spec_id()) == NodeKind::Minus || g.spec_kind(node.spec_id())
            == NodeKind::Conv {
            Ok::<UnaryNode, DowncastErr>(UnaryNode(node.spec_id()))
        } else {
            Err::<UnaryNode, DowncastErr>(DowncastErr(node))
        }),
{
    match node {
        Node::Minus(n) => Ok(UnaryNode(n.0)),
        Node::Conv(n) => Ok(UnaryNode(n.0)),
        _ => Err(DowncastErr(node)),
    }
}

} // verus!

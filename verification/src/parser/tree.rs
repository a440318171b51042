//! The syntax tree as a mathematical value: the same nodes as the tree
//! that the parser builds, with sequences in place of vectors. The
//! grammar is stated over these values.
use crate::asciifile::{Span, Spanned};
use crate::ast::{
    BasicType, BinaryOp, Block, ClassDeclaration, ClassMember, ClassMemberKind, Expr, Parameter,
    Program, Stmt, Type, UnaryOp, AST,
};
use crate::strtab::Symbol;
use vstd::prelude::*;

verus! {

pub ghost enum ExprTree {
    Binary(BinaryOp, Box<Spanned<ExprTree>>, Box<Spanned<ExprTree>>),
    Unary(UnaryOp, Box<Spanned<ExprTree>>),
    MethodInvocation(Box<Spanned<ExprTree>>, Symbol, Spanned<Seq<Spanned<ExprTree>>>),
    FieldAccess(Box<Spanned<ExprTree>>, Symbol),
    ArrayAccess(Box<Spanned<ExprTree>>, Box<Spanned<ExprTree>>),
    Null,
    Boolean(bool),
    Int(Symbol),
    NegInt(Symbol),
    Var(Symbol),
    ThisMethodInvocation(Symbol, Spanned<Seq<Spanned<ExprTree>>>),
    This,
    NewObject(Symbol),
    NewArray(BasicType, Box<Spanned<ExprTree>>, u64),
}

pub ghost enum StmtTree {
    Block(Spanned<Seq<Spanned<StmtTree>>>),
    Empty,
    If(Spanned<ExprTree>, Box<Spanned<StmtTree>>, Option<Box<Spanned<StmtTree>>>),
    While(Spanned<ExprTree>, Box<Spanned<StmtTree>>),
    Expression(Spanned<ExprTree>),
    Return(Option<Spanned<ExprTree>>),
    LocalVariableDeclaration(Spanned<Type>, Symbol, Option<Spanned<ExprTree>>),
}

pub type BlockTree = Spanned<Seq<Spanned<StmtTree>>>;

pub type ParamsTree = Spanned<Seq<Spanned<Parameter>>>;

pub ghost enum MemberKindTree {
    Field(Spanned<Type>),
    Method(Spanned<Type>, ParamsTree, BlockTree),
    MainMethod(ParamsTree, BlockTree),
}

pub ghost struct MemberTree {
    pub kind: MemberKindTree,
    pub name: Symbol,
}

pub ghost struct ClassTree {
    pub name: Symbol,
    pub members: Seq<Spanned<MemberTree>>,
}

pub ghost enum AstTree {
    Empty,
    Program(Spanned<Seq<Spanned<ClassTree>>>),
}

/// The value of an expression node.
pub open spec fn expr_tree(e: &Spanned<Expr>) -> Spanned<ExprTree>
    decreases e, 0nat,
{
    Spanned {
        span: e.span,
        data: match &e.data {
            Expr::Binary(op, l, r) => ExprTree::Binary(
                *op,
                Box::new(expr_tree(&**l)),
                Box::new(expr_tree(&**r)),
            ),
            Expr::Unary(op, x) => ExprTree::Unary(*op, Box::new(expr_tree(&**x))),
            Expr::MethodInvocation(x, name, args) => ExprTree::MethodInvocation(
                Box::new(expr_tree(&**x)),
                *name,
                Spanned { span: args.span, data: expr_trees(&args.data, args.data@.len()) },
            ),
            Expr::FieldAccess(x, name) => ExprTree::FieldAccess(Box::new(expr_tree(&**x)), *name),
            Expr::ArrayAccess(x, i) => ExprTree::ArrayAccess(
                Box::new(expr_tree(&**x)),
                Box::new(expr_tree(&**i)),
            ),
            Expr::Null => ExprTree::Null,
            Expr::Boolean(b) => ExprTree::Boolean(*b),
            Expr::Int(s) => ExprTree::Int(*s),
            Expr::NegInt(s) => ExprTree::NegInt(*s),
            Expr::Var(s) => ExprTree::Var(*s),
            Expr::ThisMethodInvocation(name, args) => ExprTree::ThisMethodInvocation(
                *name,
                Spanned { span: args.span, data: expr_trees(&args.data, args.data@.len()) },
            ),
            Expr::This => ExprTree::This,
            Expr::NewObject(s) => ExprTree::NewObject(*s),
            Expr::NewArray(b, size, depth) => ExprTree::NewArray(
                *b,
                Box::new(expr_tree(&**size)),
                *depth,
            ),
        },
    }
}

/// The values of the first `n` of the expressions `es`.
pub open spec fn expr_trees(es: &Vec<Spanned<Expr>>, n: nat) -> Seq<Spanned<ExprTree>>
    decreases es, n,
{
    if 0 < n <= es@.len() {
        expr_trees(es, (n - 1) as nat).push(expr_tree(&es@[n - 1]))
    } else {
        Seq::empty()
    }
}

/// The value of a statement node.
pub open spec fn stmt_tree(s: &Spanned<Stmt>) -> Spanned<StmtTree>
    decreases s, 0nat,
{
    Spanned {
        span: s.span,
        data: match &s.data {
            Stmt::Block(b) => StmtTree::Block(block_tree(b)),
            Stmt::Empty => StmtTree::Empty,
            Stmt::If(c, a, b) => StmtTree::If(
                expr_tree(&**c),
                Box::new(stmt_tree(&**a)),
                match b {
                    Some(x) => Some(Box::new(stmt_tree(&**x))),
                    None => None,
                },
            ),
            Stmt::While(c, a) => StmtTree::While(expr_tree(&**c), Box::new(stmt_tree(&**a))),
            Stmt::Expression(e) => StmtTree::Expression(expr_tree(&**e)),
            Stmt::Return(e) => StmtTree::Return(
                match e {
                    Some(x) => Some(expr_tree(&**x)),
                    None => None,
                },
            ),
            Stmt::LocalVariableDeclaration(ty, name, e) => StmtTree::LocalVariableDeclaration(
                *ty,
                *name,
                match e {
                    Some(x) => Some(expr_tree(&**x)),
                    None => None,
                },
            ),
        },
    }
}

/// The values of the first `n` of the statements `ss`.
pub open spec fn stmt_trees(ss: &Vec<Spanned<Stmt>>, n: nat) -> Seq<Spanned<StmtTree>>
    decreases ss, n,
{
    if 0 < n <= ss@.len() {
        stmt_trees(ss, (n - 1) as nat).push(stmt_tree(&ss@[n - 1]))
    } else {
        Seq::empty()
    }
}

/// The value of a block.
pub open spec fn block_tree(b: &Spanned<Block>) -> BlockTree
    decreases b, 1nat,
{
    Spanned { span: b.span, data: stmt_trees(&b.data.statements, b.data.statements@.len()) }
}

/// The value of a parameter list.
pub open spec fn params_tree(ps: &Spanned<Vec<Spanned<Parameter>>>) -> ParamsTree {
    Spanned { span: ps.span, data: ps.data@ }
}

/// The value of a class member.
pub open spec fn member_tree(m: &Spanned<ClassMember>) -> Spanned<MemberTree> {
    Spanned {
        span: m.span,
        data: MemberTree {
            name: m.data.name,
            kind: match &m.data.kind {
                ClassMemberKind::Field(ty) => MemberKindTree::Field(*ty),
                ClassMemberKind::Method(ty, ps, body) => MemberKindTree::Method(
                    *ty,
                    params_tree(ps),
                    block_tree(body),
                ),
                ClassMemberKind::MainMethod(ps, body) => MemberKindTree::MainMethod(
                    params_tree(ps),
                    block_tree(body),
                ),
            },
        },
    }
}

/// The values of the members `ms`.
pub open spec fn member_trees(ms: &Vec<Spanned<ClassMember>>) -> Seq<Spanned<MemberTree>> {
    Seq::new(ms@.len(), |k: int| member_tree(&ms@[k]))
}

/// The value of a class declaration.
pub open spec fn class_tree(c: &Spanned<ClassDeclaration>) -> Spanned<ClassTree> {
    Spanned {
        span: c.span,
        data: ClassTree { name: c.data.name, members: member_trees(&c.data.members) },
    }
}

/// The values of the classes `cs`.
pub open spec fn class_trees(cs: &Vec<Spanned<ClassDeclaration>>) -> Seq<Spanned<ClassTree>> {
    Seq::new(cs@.len(), |k: int| class_tree(&cs@[k]))
}

/// The value of a syntax tree.
pub open spec fn ast_tree(a: &AST) -> AstTree {
    match a {
        AST::Empty => AstTree::Empty,
        AST::Program(p) => AstTree::Program(
            Spanned { span: p.span, data: class_trees(&p.data.classes) },
        ),
    }
}

/// Every span of the expression, the node's and those below it, is a
/// span of `bytes`.
pub open spec fn expr_spans_ok(e: Spanned<ExprTree>, bytes: Seq<u8>) -> bool
    decreases e,
{
    &&& e.span.valid_in(bytes)
    &&& match e.data {
        ExprTree::Binary(_, l, r) => expr_spans_ok(*l, bytes) && expr_spans_ok(*r, bytes),
        ExprTree::Unary(_, x) => expr_spans_ok(*x, bytes),
        ExprTree::MethodInvocation(x, _, args) => expr_spans_ok(*x, bytes) && args.span.valid_in(
            bytes,
        ) && forall|k: int| 0 <= k < args.data.len() ==> expr_spans_ok(args.data[k], bytes),
        ExprTree::FieldAccess(x, _) => expr_spans_ok(*x, bytes),
        ExprTree::ArrayAccess(x, i) => expr_spans_ok(*x, bytes) && expr_spans_ok(*i, bytes),
        ExprTree::ThisMethodInvocation(_, args) => args.span.valid_in(bytes) && forall|k: int|
            0 <= k < args.data.len() ==> expr_spans_ok(args.data[k], bytes),
        ExprTree::NewArray(_, size, _) => expr_spans_ok(*size, bytes),
        _ => true,
    }
}

pub open spec fn opt_expr_spans_ok(e: Option<Spanned<ExprTree>>, bytes: Seq<u8>) -> bool {
    e matches Some(x) ==> expr_spans_ok(x, bytes)
}

/// Every span of the statement, the node's and those below it, is a
/// span of `bytes`.
pub open spec fn stmt_spans_ok(s: Spanned<StmtTree>, bytes: Seq<u8>) -> bool
    decreases s,
{
    &&& s.span.valid_in(bytes)
    &&& match s.data {
        StmtTree::Block(b) => b.span.valid_in(bytes) && forall|k: int|
            0 <= k < b.data.len() ==> stmt_spans_ok(b.data[k], bytes),
        StmtTree::Empty => true,
        StmtTree::If(c, a, b) => expr_spans_ok(c, bytes) && stmt_spans_ok(*a, bytes) && (b matches Some(
            x,
        ) ==> stmt_spans_ok(*x, bytes)),
        StmtTree::While(c, a) => expr_spans_ok(c, bytes) && stmt_spans_ok(*a, bytes),
        StmtTree::Expression(e) => expr_spans_ok(e, bytes),
        StmtTree::Return(e) => opt_expr_spans_ok(e, bytes),
        StmtTree::LocalVariableDeclaration(ty, _, e) => ty.span.valid_in(bytes)
            && opt_expr_spans_ok(e, bytes),
    }
}

pub open spec fn block_spans_ok(b: BlockTree, bytes: Seq<u8>) -> bool {
    &&& b.span.valid_in(bytes)
    &&& forall|k: int| 0 <= k < b.data.len() ==> stmt_spans_ok(b.data[k], bytes)
}

pub open spec fn params_spans_ok(ps: ParamsTree, bytes: Seq<u8>) -> bool {
    &&& ps.span.valid_in(bytes)
    &&& forall|k: int|
        0 <= k < ps.data.len() ==> (#[trigger] ps.data[k]).span.valid_in(bytes)
            && ps.data[k].data.ty.span.valid_in(bytes)
}

pub open spec fn member_spans_ok(m: Spanned<MemberTree>, bytes: Seq<u8>) -> bool {
    &&& m.span.valid_in(bytes)
    &&& match m.data.kind {
        MemberKindTree::Field(ty) => ty.span.valid_in(bytes),
        MemberKindTree::Method(ty, ps, body) => ty.span.valid_in(bytes) && params_spans_ok(
            ps,
            bytes,
        ) && block_spans_ok(body, bytes),
        MemberKindTree::MainMethod(ps, body) => params_spans_ok(ps, bytes) && block_spans_ok(
            body,
            bytes,
        ),
    }
}

pub open spec fn members_spans_ok(ms: Seq<Spanned<MemberTree>>, bytes: Seq<u8>) -> bool {
    forall|k: int| 0 <= k < ms.len() ==> member_spans_ok(#[trigger] ms[k], bytes)
}

pub open spec fn class_spans_ok(c: Spanned<ClassTree>, bytes: Seq<u8>) -> bool {
    &&& c.span.valid_in(bytes)
    &&& members_spans_ok(c.data.members, bytes)
}

pub open spec fn classes_spans_ok(cs: Seq<Spanned<ClassTree>>, bytes: Seq<u8>) -> bool {
    forall|k: int| 0 <= k < cs.len() ==> class_spans_ok(#[trigger] cs[k], bytes)
}

/// Every span in the tree starts and ends at a character of `bytes`,
/// and does not end before it starts.
pub open spec fn spans_ok(a: AstTree, bytes: Seq<u8>) -> bool {
    a matches AstTree::Program(p) ==> p.span.valid_in(bytes) && classes_spans_ok(p.data, bytes)
}

/// The values of the first `n` expressions are the values of each.
pub proof fn lemma_expr_trees(es: &Vec<Spanned<Expr>>, n: nat)
    requires
        n <= es@.len(),
    ensures
        expr_trees(es, n).len() == n,
        forall|k: int| 0 <= k < n ==> (#[trigger] expr_trees(es, n)[k]) == expr_tree(&es@[k]),
    decreases n,
{
    if n > 0 {
        lemma_expr_trees(es, (n - 1) as nat);
    }
}

/// The values of the first `n` statements are the values of each.
pub proof fn lemma_stmt_trees(ss: &Vec<Spanned<Stmt>>, n: nat)
    requires
        n <= ss@.len(),
    ensures
        stmt_trees(ss, n).len() == n,
        forall|k: int| 0 <= k < n ==> (#[trigger] stmt_trees(ss, n)[k]) == stmt_tree(&ss@[k]),
    decreases n,
{
    if n > 0 {
        lemma_stmt_trees(ss, (n - 1) as nat);
    }
}

/// The statement ends with an `if` that has no `else`: an `else` behind
/// it would belong to that `if`.
pub open spec fn open_if(s: Spanned<StmtTree>) -> bool
    decreases s,
{
    match s.data {
        StmtTree::If(_, _, None) => true,
        StmtTree::If(_, _, Some(b)) => open_if(*b),
        StmtTree::While(_, a) => open_if(*a),
        _ => false,
    }
}

/// The statement is one that the grammar gives: a declaration stands
/// only in a block, which `in_block` says of this statement, and what
/// stands between an `if` and its `else` does not end with an `if` that
/// has no `else`.
pub open spec fn stmt_shaped(s: Spanned<StmtTree>, in_block: bool) -> bool
    decreases s,
{
    match s.data {
        StmtTree::Block(b) => forall|k: int|
            0 <= k < b.data.len() ==> stmt_shaped(b.data[k], true),
        StmtTree::If(_, a, b) => stmt_shaped(*a, false) && (b matches Some(x) ==> stmt_shaped(
            *x,
            false,
        ) && !open_if(*a)),
        StmtTree::While(_, a) => stmt_shaped(*a, false),
        StmtTree::LocalVariableDeclaration(_, _, _) => in_block,
        _ => true,
    }
}

pub open spec fn block_shaped(b: BlockTree) -> bool {
    forall|k: int| 0 <= k < b.data.len() ==> stmt_shaped(b.data[k], true)
}

pub open spec fn member_shaped(m: Spanned<MemberTree>) -> bool {
    match m.data.kind {
        MemberKindTree::Field(_) => true,
        MemberKindTree::Method(_, _, body) => block_shaped(body),
        MemberKindTree::MainMethod(_, body) => block_shaped(body),
    }
}

/// The number of main methods among the first `n` members.
pub open spec fn mains(ms: Seq<Spanned<MemberTree>>, n: nat) -> nat
    decreases n,
{
    if n == 0 || n > ms.len() {
        0
    } else {
        mains(ms, (n - 1) as nat) + (if ms[n - 1].data.kind is MainMethod {
            1nat
        } else {
            0nat
        })
    }
}

pub open spec fn class_shaped(c: Spanned<ClassTree>) -> bool {
    forall|k: int| 0 <= k < c.data.members.len() ==> member_shaped(#[trigger] c.data.members[k])
}

/// The number of main methods in the first `n` classes.
pub open spec fn program_mains(cs: Seq<Spanned<ClassTree>>, n: nat) -> nat
    decreases n,
{
    if n == 0 || n > cs.len() {
        0
    } else {
        program_mains(cs, (n - 1) as nat) + mains(cs[n - 1].data.members, cs[n - 1].data.members.len())
    }
}

/// The tree is one that the grammar gives: a program has a class, and at
/// most one main method; and every statement is one that the grammar
/// gives.
pub open spec fn shaped(a: AstTree) -> bool {
    a matches AstTree::Program(p) ==> {
        &&& p.data.len() > 0
        &&& program_mains(p.data, p.data.len()) <= 1
        &&& forall|k: int| 0 <= k < p.data.len() ==> class_shaped(#[trigger] p.data[k])
    }
}

/// The number of main methods among the first members depends on these
/// alone.
pub proof fn lemma_mains_same(a: Seq<Spanned<MemberTree>>, b: Seq<Spanned<MemberTree>>, n: nat)
    requires
        n <= a.len(),
        n <= b.len(),
        forall|k: int| 0 <= k < n ==> a[k] == b[k],
    ensures
        mains(a, n) == mains(b, n),
    decreases n,
{
    if n > 0 {
        lemma_mains_same(a, b, (n - 1) as nat);
    }
}

/// The number of main methods in the first classes depends on these
/// alone.
pub proof fn lemma_program_mains_same(
    a: Seq<Spanned<ClassTree>>,
    b: Seq<Spanned<ClassTree>>,
    n: nat,
)
    requires
        n <= a.len(),
        n <= b.len(),
        forall|k: int| 0 <= k < n ==> a[k] == b[k],
    ensures
        program_mains(a, n) == program_mains(b, n),
    decreases n,
{
    if n > 0 {
        lemma_program_mains_same(a, b, (n - 1) as nat);
    }
}

} // verus!

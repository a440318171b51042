//! Where the names and literals of a syntax tree come from: each stands
//! among the tokens that the tree was read from.
use super::grammar::Tokens;
use super::tree::{
    AstTree, BlockTree, ClassTree, ExprTree, MemberKindTree, MemberTree, ParamsTree, StmtTree,
};
use super::Token;
use crate::asciifile::Spanned;
use crate::ast::{BasicType, Parameter};
use crate::strtab::Symbol;
use vstd::prelude::*;

verus! {

/// The token stands among the tokens `t`.
pub open spec fn known(tok: Token, t: Tokens) -> bool {
    exists|i: int| 0 <= i < t.len() && (#[trigger] t[i]).data == tok
}

pub open spec fn name_known(s: Symbol, t: Tokens) -> bool {
    known(Token::Identifier(s), t)
}

pub open spec fn basic_known(b: BasicType, t: Tokens) -> bool {
    b matches BasicType::Custom(s) ==> name_known(s, t)
}

pub open spec fn exprs_known(es: Seq<Spanned<ExprTree>>, t: Tokens) -> bool {
    forall|k: int| 0 <= k < es.len() ==> expr_known(es[k], t)
}

/// Every name and literal of the expression stands among the tokens.
pub open spec fn expr_known(e: Spanned<ExprTree>, t: Tokens) -> bool
    decreases e,
{
    match e.data {
        ExprTree::Binary(_, l, r) => expr_known(*l, t) && expr_known(*r, t),
        ExprTree::Unary(_, x) => expr_known(*x, t),
        ExprTree::MethodInvocation(x, n, args) => expr_known(*x, t) && name_known(n, t)
            && forall|k: int| 0 <= k < args.data.len() ==> expr_known(args.data[k], t),
        ExprTree::FieldAccess(x, n) => expr_known(*x, t) && name_known(n, t),
        ExprTree::ArrayAccess(x, i) => expr_known(*x, t) && expr_known(*i, t),
        ExprTree::Int(s) => known(Token::IntegerLiteral(s), t),
        ExprTree::NegInt(s) => known(Token::IntegerLiteral(s), t),
        ExprTree::Var(s) => name_known(s, t),
        ExprTree::ThisMethodInvocation(n, args) => name_known(n, t) && forall|k: int|
            0 <= k < args.data.len() ==> expr_known(args.data[k], t),
        ExprTree::NewObject(s) => name_known(s, t),
        ExprTree::NewArray(b, size, _) => basic_known(b, t) && expr_known(*size, t),
        _ => true,
    }
}

pub open spec fn opt_expr_known(e: Option<Spanned<ExprTree>>, t: Tokens) -> bool {
    e matches Some(x) ==> expr_known(x, t)
}

pub open spec fn stmts_known(ss: Seq<Spanned<StmtTree>>, t: Tokens) -> bool {
    forall|k: int| 0 <= k < ss.len() ==> stmt_known(ss[k], t)
}

/// Every name and literal of the statement stands among the tokens.
pub open spec fn stmt_known(s: Spanned<StmtTree>, t: Tokens) -> bool
    decreases s,
{
    match s.data {
        StmtTree::Block(b) => forall|k: int| 0 <= k < b.data.len() ==> stmt_known(b.data[k], t),
        StmtTree::Empty => true,
        StmtTree::If(c, a, b) => expr_known(c, t) && stmt_known(*a, t) && (b matches Some(x)
            ==> stmt_known(*x, t)),
        StmtTree::While(c, a) => expr_known(c, t) && stmt_known(*a, t),
        StmtTree::Expression(e) => expr_known(e, t),
        StmtTree::Return(e) => opt_expr_known(e, t),
        StmtTree::LocalVariableDeclaration(ty, n, e) => basic_known(ty.data.basic, t)
            && name_known(n, t) && opt_expr_known(e, t),
    }
}

pub open spec fn param_known(p: Spanned<Parameter>, t: Tokens) -> bool {
    basic_known(p.data.ty.data.basic, t) && name_known(p.data.name, t)
}

pub open spec fn params_known(ps: Seq<Spanned<Parameter>>, t: Tokens) -> bool {
    forall|k: int| 0 <= k < ps.len() ==> param_known(#[trigger] ps[k], t)
}

/// Every name and literal of the member stands among the tokens.
pub open spec fn member_known(m: Spanned<MemberTree>, t: Tokens) -> bool {
    name_known(m.data.name, t) && (match m.data.kind {
        MemberKindTree::Field(ty) => basic_known(ty.data.basic, t),
        MemberKindTree::Method(ty, ps, body) => basic_known(ty.data.basic, t) && params_known(
            ps.data,
            t,
        ) && stmts_known(body.data, t),
        MemberKindTree::MainMethod(ps, body) => params_known(ps.data, t) && stmts_known(
            body.data,
            t,
        ),
    })
}

pub open spec fn members_known(ms: Seq<Spanned<MemberTree>>, t: Tokens) -> bool {
    forall|k: int| 0 <= k < ms.len() ==> member_known(#[trigger] ms[k], t)
}

pub open spec fn class_known(c: Spanned<ClassTree>, t: Tokens) -> bool {
    name_known(c.data.name, t) && members_known(c.data.members, t)
}

pub open spec fn classes_known(cs: Seq<Spanned<ClassTree>>, t: Tokens) -> bool {
    forall|k: int| 0 <= k < cs.len() ==> class_known(#[trigger] cs[k], t)
}

/// Every name and literal of the tree stands among the tokens.
pub open spec fn ast_known(a: AstTree, t: Tokens) -> bool {
    a matches AstTree::Program(p) ==> classes_known(p.data, t)
}

} // verus!

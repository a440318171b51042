//! A syntax tree as MiniJava in a normal form: the tokens of the program,
//! with every operand that is more than a name or a literal in
//! parentheses, a line for every `;`, `{` and `}`, and a space behind
//! every other token.
use super::lextest::{append, UnknownSymbol};
use crate::asciifile::Spanned;
use crate::ast::{
    BasicType, BinaryOp, Block, ClassDeclaration, ClassMember, ClassMemberKind, Expr, Parameter,
    Stmt, Type, UnaryOp, AST,
};
use crate::lexer::{Keyword, Operator};
use crate::parser::tree::{
    lemma_expr_trees, lemma_stmt_trees, ast_tree, block_tree, class_tree, class_trees, expr_tree, expr_trees, member_tree,
    member_trees, params_tree, stmt_tree, stmt_trees, AstTree, BlockTree, ClassTree, ExprTree,
    MemberKindTree, MemberTree, ParamsTree, StmtTree,
};
use crate::parser::Token;
use crate::strtab::{StringTable, Symbol};
use vstd::prelude::*;

verus! {

pub open spec fn op(o: Operator) -> Seq<Token> {
    seq![Token::Operator(o)]
}

pub open spec fn kw(k: Keyword) -> Seq<Token> {
    seq![Token::Keyword(k)]
}

pub open spec fn name(s: Symbol) -> Seq<Token> {
    seq![Token::Identifier(s)]
}

pub open spec fn basic_token(b: BasicType) -> Token {
    match b {
        BasicType::Int => Token::Keyword(Keyword::Int),
        BasicType::Boolean => Token::Keyword(Keyword::Boolean),
        BasicType::Void => Token::Keyword(Keyword::Void),
        BasicType::Custom(s) => Token::Identifier(s),
    }
}

/// `[` `]`, `n` times.
pub open spec fn dims_tokens(n: nat) -> Seq<Token>
    decreases n,
{
    if n == 0 {
        Seq::empty()
    } else {
        dims_tokens((n - 1) as nat) + op(Operator::LeftBracket) + op(Operator::RightBracket)
    }
}

pub open spec fn type_tokens(ty: Type) -> Seq<Token> {
    seq![basic_token(ty.basic)] + dims_tokens(ty.array_depth as nat)
}

pub open spec fn binary_token(o: BinaryOp) -> Token {
    Token::Operator(
        match o {
            BinaryOp::Assign => Operator::Equal,
            BinaryOp::Equals => Operator::DoubleEqual,
            BinaryOp::NotEquals => Operator::ExclaimEqual,
            BinaryOp::LessThan => Operator::LeftChevron,
            BinaryOp::GreaterThan => Operator::RightChevron,
            BinaryOp::LessEquals => Operator::LeftChevronEqual,
            BinaryOp::GreaterEquals => Operator::RightChevronEqual,
            BinaryOp::LogicalOr => Operator::DoublePipe,
            BinaryOp::LogicalAnd => Operator::DoubleAmpersand,
            BinaryOp::Add => Operator::Plus,
            BinaryOp::Sub => Operator::Minus,
            BinaryOp::Mul => Operator::Star,
            BinaryOp::Div => Operator::Slash,
            BinaryOp::Mod => Operator::Percent,
        },
    )
}

pub open spec fn unary_token(o: UnaryOp) -> Token {
    Token::Operator(
        match o {
            UnaryOp::Not => Operator::Exclaim,
            UnaryOp::Neg => Operator::Minus,
        },
    )
}

/// The token of an expression that is one token, except for a literal.
pub open spec fn atom(e: ExprTree) -> Option<Token> {
    match e {
        ExprTree::Null => Some(Token::Keyword(Keyword::Null)),
        ExprTree::Boolean(b) => Some(
            Token::Keyword(
                if b {
                    Keyword::True
                } else {
                    Keyword::False
                },
            ),
        ),
        ExprTree::Var(s) => Some(Token::Identifier(s)),
        ExprTree::This => Some(Token::Keyword(Keyword::This)),
        _ => None,
    }
}

/// Whether the expression is written without parentheses where it is
/// an operand: a name, `null`, `true`, `false`, `this`, and a literal
/// that is not negated.
pub open spec fn is_bare(e: ExprTree, negated: bool) -> bool {
    atom(e) is Some || (e is Int && !negated)
}

/// The tokens of an expression that stands alone: as a statement, a
/// condition, an argument, an index, or in parentheses.
pub open spec fn expr_tokens(e: Spanned<ExprTree>) -> Seq<Token>
    decreases e, 0nat,
{
    match e.data {
        ExprTree::Binary(o, l, r) => operand_tokens(*l, false) + seq![binary_token(o)]
            + operand_tokens(*r, false),
        ExprTree::Unary(o, x) => seq![unary_token(o)] + operand_tokens(*x, o == UnaryOp::Neg),
        ExprTree::MethodInvocation(x, n, args) => operand_tokens(*x, false) + op(Operator::Dot)
            + name(n) + op(Operator::LeftParen) + args_tokens(args.data, args.data.len()) + op(
            Operator::RightParen,
        ),
        ExprTree::FieldAccess(x, n) => operand_tokens(*x, false) + op(Operator::Dot) + name(n),
        ExprTree::ArrayAccess(x, i) => operand_tokens(*x, false) + op(Operator::LeftBracket)
            + expr_tokens(*i) + op(Operator::RightBracket),
        ExprTree::Null => kw(Keyword::Null),
        ExprTree::Boolean(b) => kw(
            if b {
                Keyword::True
            } else {
                Keyword::False
            },
        ),
        ExprTree::Int(s) => seq![Token::IntegerLiteral(s)],
        ExprTree::NegInt(s) => op(Operator::Minus) + seq![Token::IntegerLiteral(s)],
        ExprTree::Var(s) => name(s),
        ExprTree::ThisMethodInvocation(n, args) => name(n) + op(Operator::LeftParen) + args_tokens(
            args.data,
            args.data.len(),
        ) + op(Operator::RightParen),
        ExprTree::This => kw(Keyword::This),
        ExprTree::NewObject(s) => kw(Keyword::New) + name(s) + op(Operator::LeftParen) + op(
            Operator::RightParen,
        ),
        ExprTree::NewArray(b, size, n) => kw(Keyword::New) + seq![basic_token(b)] + op(
            Operator::LeftBracket,
        ) + expr_tokens(*size) + op(Operator::RightBracket) + dims_tokens(n as nat),
    }
}

/// The tokens of an expression that is an operand: in parentheses,
/// unless it is bare. `negated` says that a `-` stands before it.
pub open spec fn operand_tokens(e: Spanned<ExprTree>, negated: bool) -> Seq<Token>
    decreases e, 1nat,
{
    if is_bare(e.data, negated) {
        expr_tokens(e)
    } else {
        op(Operator::LeftParen) + expr_tokens(e) + op(Operator::RightParen)
    }
}

/// The tokens of the first `n` of the arguments `es`, with a comma
/// between every two.
pub open spec fn args_tokens(es: Seq<Spanned<ExprTree>>, n: nat) -> Seq<Token>
    decreases es, n,
{
    if n == 0 || n > es.len() {
        Seq::empty()
    } else if n == 1 {
        expr_tokens(es[0])
    } else {
        args_tokens(es, (n - 1) as nat) + op(Operator::Comma) + expr_tokens(es[n - 1])
    }
}

pub open spec fn opt_expr_tokens(before: Seq<Token>, e: Option<Spanned<ExprTree>>) -> Seq<Token> {
    match e {
        Some(x) => before + expr_tokens(x),
        None => Seq::empty(),
    }
}

pub open spec fn condition_tokens(k: Keyword, c: Spanned<ExprTree>) -> Seq<Token> {
    kw(k) + op(Operator::LeftParen) + expr_tokens(c) + op(Operator::RightParen)
}

/// The tokens of a statement.
pub open spec fn stmt_tokens(s: Spanned<StmtTree>) -> Seq<Token>
    decreases s, 0nat,
{
    match s.data {
        StmtTree::Block(b) => op(Operator::LeftBrace) + stmts_tokens(b.data, b.data.len()) + op(
            Operator::RightBrace,
        ),
        StmtTree::Empty => op(Operator::Semicolon),
        StmtTree::If(c, a, b) => condition_tokens(Keyword::If, c) + stmt_tokens(*a) + (match b {
            Some(x) => kw(Keyword::Else) + stmt_tokens(*x),
            None => Seq::empty(),
        }),
        StmtTree::While(c, a) => condition_tokens(Keyword::While, c) + stmt_tokens(*a),
        StmtTree::Expression(e) => expr_tokens(e) + op(Operator::Semicolon),
        StmtTree::Return(e) => kw(Keyword::Return) + opt_expr_tokens(Seq::empty(), e) + op(
            Operator::Semicolon,
        ),
        StmtTree::LocalVariableDeclaration(ty, n, e) => type_tokens(ty.data) + name(n)
            + opt_expr_tokens(op(Operator::Equal), e) + op(Operator::Semicolon),
    }
}

/// The tokens of the first `n` of the statements `ss`.
pub open spec fn stmts_tokens(ss: Seq<Spanned<StmtTree>>, n: nat) -> Seq<Token>
    decreases ss, n,
{
    if n == 0 || n > ss.len() {
        Seq::empty()
    } else {
        stmts_tokens(ss, (n - 1) as nat) + stmt_tokens(ss[n - 1])
    }
}

pub open spec fn block_tokens(b: BlockTree) -> Seq<Token> {
    op(Operator::LeftBrace) + stmts_tokens(b.data, b.data.len()) + op(Operator::RightBrace)
}

pub open spec fn param_tokens(p: Spanned<Parameter>) -> Seq<Token> {
    type_tokens(p.data.ty.data) + name(p.data.name)
}

/// The tokens of the first `n` of the parameters `ps`, with a comma
/// between every two.
pub open spec fn params_list(ps: Seq<Spanned<Parameter>>, n: nat) -> Seq<Token>
    decreases n,
{
    if n == 0 || n > ps.len() {
        Seq::empty()
    } else if n == 1 {
        param_tokens(ps[0])
    } else {
        params_list(ps, (n - 1) as nat) + op(Operator::Comma) + param_tokens(ps[n - 1])
    }
}

pub open spec fn params_tokens(ps: ParamsTree) -> Seq<Token> {
    op(Operator::LeftParen) + params_list(ps.data, ps.data.len()) + op(Operator::RightParen)
}

/// The tokens of a class member. What a method may throw is not part of
/// the tree, and is not written.
pub open spec fn member_tokens(m: Spanned<MemberTree>) -> Seq<Token> {
    kw(Keyword::Public) + (match m.data.kind {
        MemberKindTree::Field(ty) => type_tokens(ty.data) + name(m.data.name) + op(
            Operator::Semicolon,
        ),
        MemberKindTree::Method(ty, ps, body) => type_tokens(ty.data) + name(m.data.name)
            + params_tokens(ps) + block_tokens(body),
        MemberKindTree::MainMethod(ps, body) => kw(Keyword::Static) + kw(Keyword::Void) + name(
            m.data.name,
        ) + params_tokens(ps) + block_tokens(body),
    })
}

pub open spec fn members_tokens(ms: Seq<Spanned<MemberTree>>, n: nat) -> Seq<Token>
    decreases n,
{
    if n == 0 || n > ms.len() {
        Seq::empty()
    } else {
        members_tokens(ms, (n - 1) as nat) + member_tokens(ms[n - 1])
    }
}

pub open spec fn class_tokens(c: Spanned<ClassTree>) -> Seq<Token> {
    kw(Keyword::Class) + name(c.data.name) + op(Operator::LeftBrace) + members_tokens(
        c.data.members,
        c.data.members.len(),
    ) + op(Operator::RightBrace)
}

pub open spec fn classes_tokens(cs: Seq<Spanned<ClassTree>>, n: nat) -> Seq<Token>
    decreases n,
{
    if n == 0 || n > cs.len() {
        Seq::empty()
    } else {
        classes_tokens(cs, (n - 1) as nat) + class_tokens(cs[n - 1])
    }
}

/// The tokens of a program in normal form.
pub open spec fn ast_tokens(a: AstTree) -> Seq<Token> {
    match a {
        AstTree::Empty => Seq::empty(),
        AstTree::Program(p) => classes_tokens(p.data, p.data.len()),
    }
}

fn push_op(out: &mut Vec<Token>, o: Operator)
    ensures
        final(out)@ == old(out)@ + op(o),
{
    out.push(Token::Operator(o));
    assert(out@ =~= old(out)@ + op(o));
}

fn push_kw(out: &mut Vec<Token>, k: Keyword)
    ensures
        final(out)@ == old(out)@ + kw(k),
{
    out.push(Token::Keyword(k));
    assert(out@ =~= old(out)@ + kw(k));
}

fn push_name(out: &mut Vec<Token>, s: Symbol)
    ensures
        final(out)@ == old(out)@ + name(s),
{
    out.push(Token::Identifier(s));
    assert(out@ =~= old(out)@ + name(s));
}

fn basic_token_of(b: BasicType) -> (t: Token)
    ensures
        t == basic_token(b),
{
    match b {
        BasicType::Int => Token::Keyword(Keyword::Int),
        BasicType::Boolean => Token::Keyword(Keyword::Boolean),
        BasicType::Void => Token::Keyword(Keyword::Void),
        BasicType::Custom(s) => Token::Identifier(s),
    }
}

fn binary_token_of(o: BinaryOp) -> (t: Token)
    ensures
        t == binary_token(o),
{
    Token::Operator(
        match o {
            BinaryOp::Assign => Operator::Equal,
            BinaryOp::Equals => Operator::DoubleEqual,
            BinaryOp::NotEquals => Operator::ExclaimEqual,
            BinaryOp::LessThan => Operator::LeftChevron,
            BinaryOp::GreaterThan => Operator::RightChevron,
            BinaryOp::LessEquals => Operator::LeftChevronEqual,
            BinaryOp::GreaterEquals => Operator::RightChevronEqual,
            BinaryOp::LogicalOr => Operator::DoublePipe,
            BinaryOp::LogicalAnd => Operator::DoubleAmpersand,
            BinaryOp::Add => Operator::Plus,
            BinaryOp::Sub => Operator::Minus,
            BinaryOp::Mul => Operator::Star,
            BinaryOp::Div => Operator::Slash,
            BinaryOp::Mod => Operator::Percent,
        },
    )
}

fn push_dims(out: &mut Vec<Token>, n: u64)
    ensures
        final(out)@ == old(out)@ + dims_tokens(n as nat),
{
    let mut k: u64 = 0;
    assert(out@ =~= old(out)@ + dims_tokens(0));
    while k < n
        invariant
            k <= n,
            out@ == old(out)@ + dims_tokens(k as nat),
        decreases n - k,
    {
        out.push(Token::Operator(Operator::LeftBracket));
        out.push(Token::Operator(Operator::RightBracket));
        k = k + 1;
        assert(out@ =~= old(out)@ + dims_tokens(k as nat));
    }
}

fn push_type(out: &mut Vec<Token>, ty: &Type)
    ensures
        final(out)@ == old(out)@ + type_tokens(*ty),
{
    out.push(basic_token_of(ty.basic));
    push_dims(out, ty.array_depth);
    assert(out@ =~= old(out)@ + type_tokens(*ty));
}

fn bare(e: &Spanned<Expr>, negated: bool) -> (r: bool)
    ensures
        r == is_bare(expr_tree(e).data, negated),
{
    match &e.data {
        Expr::Null | Expr::Boolean(_) | Expr::Var(_) | Expr::This => true,
        Expr::Int(_) => !negated,
        _ => false,
    }
}

/// Puts the tokens of an expression that stands alone behind `out`.
pub fn push_expr(out: &mut Vec<Token>, e: &Spanned<Expr>)
    ensures
        final(out)@ == old(out)@ + expr_tokens(expr_tree(e)),
    decreases e, 0nat,
{
    match &e.data {
        Expr::Binary(o, l, r) => {
            push_operand(out, l, false);
            out.push(binary_token_of(*o));
            push_operand(out, r, false);
            assert(out@ =~= old(out)@ + expr_tokens(expr_tree(e)));
        },
        Expr::Unary(o, x) => {
            match o {
                UnaryOp::Not => {
                    out.push(Token::Operator(Operator::Exclaim));
                    push_operand(out, x, false);
                },
                UnaryOp::Neg => {
                    out.push(Token::Operator(Operator::Minus));
                    push_operand(out, x, true);
                },
            }
            assert(out@ =~= old(out)@ + expr_tokens(expr_tree(e)));
        },
        Expr::MethodInvocation(x, n, args) => {
            push_operand(out, x, false);
            push_op(out, Operator::Dot);
            push_name(out, *n);
            push_args(out, &args.data);
            proof {
                lemma_expr_trees(&args.data, args.data@.len());
            }
            assert(out@ =~= old(out)@ + expr_tokens(expr_tree(e)));
        },
        Expr::FieldAccess(x, n) => {
            push_operand(out, x, false);
            push_op(out, Operator::Dot);
            push_name(out, *n);
            assert(out@ =~= old(out)@ + expr_tokens(expr_tree(e)));
        },
        Expr::ArrayAccess(x, i) => {
            push_operand(out, x, false);
            push_op(out, Operator::LeftBracket);
            push_expr(out, i);
            push_op(out, Operator::RightBracket);
            assert(out@ =~= old(out)@ + expr_tokens(expr_tree(e)));
        },
        Expr::Null => {
            push_kw(out, Keyword::Null);
            assert(out@ =~= old(out)@ + expr_tokens(expr_tree(e)));
        },
        Expr::Boolean(b) => {
            push_kw(
                out,
                if *b {
                    Keyword::True
                } else {
                    Keyword::False
                },
            );
            assert(out@ =~= old(out)@ + expr_tokens(expr_tree(e)));
        },
        Expr::Int(s) => {
            out.push(Token::IntegerLiteral(*s));
            assert(out@ =~= old(out)@ + expr_tokens(expr_tree(e)));
        },
        Expr::NegInt(s) => {
            out.push(Token::Operator(Operator::Minus));
            out.push(Token::IntegerLiteral(*s));
            assert(out@ =~= old(out)@ + expr_tokens(expr_tree(e)));
        },
        Expr::Var(s) => {
            push_name(out, *s);
            assert(out@ =~= old(out)@ + expr_tokens(expr_tree(e)));
        },
        Expr::ThisMethodInvocation(n, args) => {
            push_name(out, *n);
            push_args(out, &args.data);
            proof {
                lemma_expr_trees(&args.data, args.data@.len());
            }
            assert(out@ =~= old(out)@ + expr_tokens(expr_tree(e)));
        },
        Expr::This => {
            push_kw(out, Keyword::This);
            assert(out@ =~= old(out)@ + expr_tokens(expr_tree(e)));
        },
        Expr::NewObject(s) => {
            push_kw(out, Keyword::New);
            push_name(out, *s);
            push_op(out, Operator::LeftParen);
            push_op(out, Operator::RightParen);
            assert(out@ =~= old(out)@ + expr_tokens(expr_tree(e)));
        },
        Expr::NewArray(b, size, n) => {
            push_kw(out, Keyword::New);
            out.push(basic_token_of(*b));
            push_op(out, Operator::LeftBracket);
            push_expr(out, size);
            push_op(out, Operator::RightBracket);
            push_dims(out, *n);
            assert(out@ =~= old(out)@ + expr_tokens(expr_tree(e)));
        },
    }
}

/// Puts the tokens of an operand behind `out`.
pub fn push_operand(out: &mut Vec<Token>, e: &Spanned<Expr>, negated: bool)
    ensures
        final(out)@ == old(out)@ + operand_tokens(expr_tree(e), negated),
    decreases e, 1nat,
{
    if bare(e, negated) {
        push_expr(out, e);
    } else {
        push_op(out, Operator::LeftParen);
        push_expr(out, e);
        push_op(out, Operator::RightParen);
        assert(out@ =~= old(out)@ + operand_tokens(expr_tree(e), negated));
    }
}

/// Puts the arguments of a call, in their parentheses, behind `out`.
pub fn push_args(out: &mut Vec<Token>, args: &Vec<Spanned<Expr>>)
    ensures
        final(out)@ == old(out)@ + op(Operator::LeftParen) + args_tokens(
            expr_trees(args, args@.len()),
            args@.len(),
        ) + op(Operator::RightParen),
    decreases args, args@.len() + 1,
{
    push_op(out, Operator::LeftParen);
    let ghost start = out@;
    let ghost trees = expr_trees(args, args@.len());
    proof {
        lemma_expr_trees(args, args@.len());
    }
    let mut k: usize = 0;
    assert(out@ =~= start + args_tokens(trees, 0));
    while k < args.len()
        invariant
            k <= args@.len(),
            trees == expr_trees(args, args@.len()),
            trees.len() == args@.len(),
            forall|n: int| 0 <= n < args@.len() ==> (#[trigger] trees[n]) == expr_tree(&args@[n]),
            out@ == start + args_tokens(trees, k as nat),
        decreases args@.len() - k,
    {
        let ghost before = out@;
        if k > 0 {
            push_op(out, Operator::Comma);
        }
        push_expr(out, &args[k]);
        k = k + 1;
        assert(out@ =~= start + args_tokens(trees, k as nat));
    }
    push_op(out, Operator::RightParen);
}

fn push_condition(out: &mut Vec<Token>, k: Keyword, c: &Spanned<Expr>)
    ensures
        final(out)@ == old(out)@ + condition_tokens(k, expr_tree(c)),
{
    push_kw(out, k);
    push_op(out, Operator::LeftParen);
    push_expr(out, c);
    push_op(out, Operator::RightParen);
    assert(out@ =~= old(out)@ + condition_tokens(k, expr_tree(c)));
}

/// Puts the tokens of a statement behind `out`.
pub fn push_stmt(out: &mut Vec<Token>, s: &Spanned<Stmt>)
    ensures
        final(out)@ == old(out)@ + stmt_tokens(stmt_tree(s)),
    decreases s, 0nat,
{
    match &s.data {
        Stmt::Block(b) => {
            push_block(out, b);
        },
        Stmt::Empty => {
            push_op(out, Operator::Semicolon);
        },
        Stmt::If(c, a, b) => {
            push_condition(out, Keyword::If, c);
            push_stmt(out, a);
            match b {
                Some(x) => {
                    push_kw(out, Keyword::Else);
                    push_stmt(out, x);
                },
                None => {},
            }
        },
        Stmt::While(c, a) => {
            push_condition(out, Keyword::While, c);
            push_stmt(out, a);
        },
        Stmt::Expression(e) => {
            push_expr(out, e);
            push_op(out, Operator::Semicolon);
        },
        Stmt::Return(e) => {
            push_kw(out, Keyword::Return);
            match e {
                Some(x) => {
                    push_expr(out, x);
                },
                None => {},
            }
            push_op(out, Operator::Semicolon);
        },
        Stmt::LocalVariableDeclaration(ty, n, e) => {
            push_type(out, &ty.data);
            push_name(out, *n);
            match e {
                Some(x) => {
                    push_op(out, Operator::Equal);
                    push_expr(out, x);
                },
                None => {},
            }
            push_op(out, Operator::Semicolon);
        },
    }
    assert(out@ =~= old(out)@ + stmt_tokens(stmt_tree(s)));
}

/// Puts the tokens of a block behind `out`.
pub fn push_block(out: &mut Vec<Token>, b: &Spanned<Block>)
    ensures
        final(out)@ == old(out)@ + block_tokens(block_tree(b)),
    decreases b, 1nat,
{
    push_op(out, Operator::LeftBrace);
    let ghost start = out@;
    let ss = &b.data.statements;
    let ghost trees = stmt_trees(ss, ss@.len());
    proof {
        lemma_stmt_trees(ss, ss@.len());
    }
    let mut k: usize = 0;
    assert(out@ =~= start + stmts_tokens(trees, 0));
    while k < ss.len()
        invariant
            k <= ss@.len(),
            ss == &b.data.statements,
            trees == stmt_trees(ss, ss@.len()),
            trees.len() == ss@.len(),
            forall|n: int| 0 <= n < ss@.len() ==> (#[trigger] trees[n]) == stmt_tree(&ss@[n]),
            out@ == start + stmts_tokens(trees, k as nat),
        decreases ss@.len() - k,
    {
        push_stmt(out, &ss[k]);
        k = k + 1;
        assert(out@ =~= start + stmts_tokens(trees, k as nat));
    }
    push_op(out, Operator::RightBrace);
    assert(out@ =~= old(out)@ + block_tokens(block_tree(b)));
}

fn push_params(out: &mut Vec<Token>, ps: &Spanned<Vec<Spanned<Parameter>>>)
    ensures
        final(out)@ == old(out)@ + params_tokens(params_tree(ps)),
{
    push_op(out, Operator::LeftParen);
    let ghost start = out@;
    let mut k: usize = 0;
    assert(out@ =~= start + params_list(ps.data@, 0));
    while k < ps.data.len()
        invariant
            k <= ps.data@.len(),
            out@ == start + params_list(ps.data@, k as nat),
        decreases ps.data@.len() - k,
    {
        if k > 0 {
            push_op(out, Operator::Comma);
        }
        push_type(out, &ps.data[k].data.ty.data);
        push_name(out, ps.data[k].data.name);
        k = k + 1;
        assert(out@ =~= start + params_list(ps.data@, k as nat));
    }
    push_op(out, Operator::RightParen);
    assert(out@ =~= old(out)@ + params_tokens(params_tree(ps)));
}

fn push_member(out: &mut Vec<Token>, m: &Spanned<ClassMember>)
    ensures
        final(out)@ == old(out)@ + member_tokens(member_tree(m)),
{
    push_kw(out, Keyword::Public);
    match &m.data.kind {
        ClassMemberKind::Field(ty) => {
            push_type(out, &ty.data);
            push_name(out, m.data.name);
            push_op(out, Operator::Semicolon);
        },
        ClassMemberKind::Method(ty, ps, body) => {
            push_type(out, &ty.data);
            push_name(out, m.data.name);
            push_params(out, ps);
            push_block(out, body);
        },
        ClassMemberKind::MainMethod(ps, body) => {
            push_kw(out, Keyword::Static);
            push_kw(out, Keyword::Void);
            push_name(out, m.data.name);
            push_params(out, ps);
            push_block(out, body);
        },
    }
    assert(out@ =~= old(out)@ + member_tokens(member_tree(m)));
}

fn push_class(out: &mut Vec<Token>, c: &Spanned<ClassDeclaration>)
    ensures
        final(out)@ == old(out)@ + class_tokens(class_tree(c)),
{
    push_kw(out, Keyword::Class);
    push_name(out, c.data.name);
    push_op(out, Operator::LeftBrace);
    let ghost start = out@;
    let ms = &c.data.members;
    let ghost trees = member_trees(ms);
    let mut k: usize = 0;
    assert(out@ =~= start + members_tokens(trees, 0));
    while k < ms.len()
        invariant
            k <= ms@.len(),
            trees == member_trees(ms),
            out@ == start + members_tokens(trees, k as nat),
        decreases ms@.len() - k,
    {
        push_member(out, &ms[k]);
        k = k + 1;
        assert(out@ =~= start + members_tokens(trees, k as nat));
    }
    push_op(out, Operator::RightBrace);
    assert(out@ =~= old(out)@ + class_tokens(class_tree(c)));
}

/// The tokens of a program in normal form.
pub fn tokens(a: &AST) -> (out: Vec<Token>)
    ensures
        out@ == ast_tokens(ast_tree(a)),
{
    let mut out: Vec<Token> = Vec::new();
    match a {
        AST::Empty => {},
        AST::Program(p) => {
            let cs = &p.data.classes;
            let ghost trees = class_trees(cs);
            let mut k: usize = 0;
            assert(out@ =~= classes_tokens(trees, 0));
            while k < cs.len()
                invariant
                    k <= cs@.len(),
                    trees == class_trees(cs),
                    out@ == classes_tokens(trees, k as nat),
                decreases cs@.len() - k,
            {
                push_class(&mut out, &cs[k]);
                k = k + 1;
                assert(out@ =~= classes_tokens(trees, k as nat));
            }
        },
    }
    out
}

/// The characters of a token: the spelling of a keyword or an operator,
/// the string of a name or a literal.
pub open spec fn token_text(t: Token, tab: &StringTable) -> Seq<u8> {
    match t {
        Token::Keyword(k) => k.spec_spelling(),
        Token::Operator(o) => o.spec_spelling(),
        Token::Identifier(s) => tab.bytes(s),
        Token::IntegerLiteral(s) => tab.bytes(s),
    }
}

/// The token is a name or a literal whose handle does not belong to the
/// string table.
pub open spec fn foreign(t: Token, tab: &StringTable) -> bool {
    match t {
        Token::Identifier(s) => !tab.owns(s),
        Token::IntegerLiteral(s) => !tab.owns(s),
        _ => false,
    }
}

/// What stands behind a token: a line feed behind `;`, `{` and `}`, and
/// a space behind every other token.
pub open spec fn separator(t: Token) -> u8 {
    if t == Token::Operator(Operator::Semicolon) || t == Token::Operator(Operator::LeftBrace) || t
        == Token::Operator(Operator::RightBrace) {
        10
    } else {
        32
    }
}

/// The text of the first `n` of the tokens `ts`.
pub open spec fn spec_text(ts: Seq<Token>, n: nat, tab: &StringTable) -> Seq<u8>
    decreases n,
{
    if n == 0 || n > ts.len() {
        Seq::empty()
    } else {
        spec_text(ts, (n - 1) as nat, tab) + token_text(ts[n - 1], tab).push(separator(ts[n - 1]))
    }
}

/// The text of the first `n` of the tokens `ts`, where `seps` holds for
/// each token the character that is written behind it.
pub open spec fn text_with(ts: Seq<Token>, n: nat, tab: &StringTable, seps: Seq<u8>) -> Seq<u8>
    decreases n,
{
    if n == 0 || n > ts.len() {
        Seq::empty()
    } else {
        text_with(ts, (n - 1) as nat, tab, seps) + token_text(ts[n - 1], tab).push(seps[n - 1])
    }
}

/// One space for each of `n` tokens.
pub open spec fn spaces(n: nat) -> Seq<u8> {
    Seq::new(n, |k: int| 32u8)
}

/// Whether one of the tokens cannot be written.
pub open spec fn any_foreign(ts: Seq<Token>, tab: &StringTable) -> bool {
    exists|k: int| 0 <= k < ts.len() && foreign(#[trigger] ts[k], tab)
}

fn is_foreign(t: Token, strtab: &StringTable) -> (r: bool)
    ensures
        r == foreign(t, strtab),
{
    match t {
        Token::Identifier(s) => s.id >= strtab.len(),
        Token::IntegerLiteral(s) => s.id >= strtab.len(),
        _ => false,
    }
}

/// Writes the tokens behind `out`, each with what stands behind it.
/// Nothing is written if one of them cannot be written.
pub fn write_tokens(out: &mut Vec<u8>, ts: &Vec<Token>, strtab: &StringTable) -> (r: Result<
    (),
    UnknownSymbol,
>)
    ensures
        r is Err <==> any_foreign(ts@, strtab),
        final(out)@ == (if any_foreign(ts@, strtab) {
            old(out)@
        } else {
            old(out)@ + spec_text(ts@, ts@.len(), strtab)
        }),
{
    let mut k: usize = 0;
    while k < ts.len()
        invariant
            k <= ts@.len(),
            forall|n: int| 0 <= n < k ==> !foreign(#[trigger] ts@[n], strtab),
        decreases ts@.len() - k,
    {
        if is_foreign(ts[k], strtab) {
            return Err(UnknownSymbol);
        }
        k = k + 1;
    }
    k = 0;
    assert(out@ =~= old(out)@ + spec_text(ts@, 0, strtab));
    while k < ts.len()
        invariant
            k <= ts@.len(),
            forall|n: int| 0 <= n < ts@.len() ==> !foreign(#[trigger] ts@[n], strtab),
            out@ == old(out)@ + spec_text(ts@, k as nat, strtab),
        decreases ts@.len() - k,
    {
        let t = ts[k];
        match t {
            Token::Keyword(w) => append(out, w.spelling()),
            Token::Operator(o) => append(out, o.spelling()),
            Token::Identifier(s) => append(out, strtab.get(s)),
            Token::IntegerLiteral(s) => append(out, strtab.get(s)),
        }
        let line = match t {
            Token::Operator(Operator::Semicolon) => true,
            Token::Operator(Operator::LeftBrace) => true,
            Token::Operator(Operator::RightBrace) => true,
            _ => false,
        };
        out.push(
            if line {
                10
            } else {
                32
            },
        );
        k = k + 1;
        assert(out@ =~= old(out)@ + spec_text(ts@, k as nat, strtab));
    }
    Ok(())
}

/// Spells the tokens out behind `out`, each with one space behind it.
/// Nothing is written if one of them cannot be written.
pub fn spell_out(out: &mut Vec<u8>, ts: &Vec<Token>, strtab: &StringTable) -> (r: Result<
    (),
    UnknownSymbol,
>)
    ensures
        r is Err <==> any_foreign(ts@, strtab),
        final(out)@ == (if any_foreign(ts@, strtab) {
            old(out)@
        } else {
            old(out)@ + text_with(ts@, ts@.len(), strtab, spaces(ts@.len()))
        }),
        crate::print::round_trip::all_writable(ts@, strtab) ==> r is Ok && crate::asciifile::all_ascii(
            text_with(ts@, ts@.len(), strtab, spaces(ts@.len())),
        ),
{
    proof {
        if crate::print::round_trip::all_writable(ts@, strtab) {
            crate::print::round_trip::lemma_writable_written(ts@, strtab);
            crate::print::round_trip::lemma_spaced_ascii(ts@, ts@.len(), strtab);
        }
    }
    let mut k: usize = 0;
    while k < ts.len()
        invariant
            k <= ts@.len(),
            forall|n: int| 0 <= n < k ==> !foreign(#[trigger] ts@[n], strtab),
        decreases ts@.len() - k,
    {
        if is_foreign(ts[k], strtab) {
            return Err(UnknownSymbol);
        }
        k = k + 1;
    }
    k = 0;
    let ghost seps = spaces(ts@.len());
    assert(out@ =~= old(out)@ + text_with(ts@, 0, strtab, seps));
    while k < ts.len()
        invariant
            k <= ts@.len(),
            seps == spaces(ts@.len()),
            forall|n: int| 0 <= n < ts@.len() ==> !foreign(#[trigger] ts@[n], strtab),
            out@ == old(out)@ + text_with(ts@, k as nat, strtab, seps),
        decreases ts@.len() - k,
    {
        let t = ts[k];
        match t {
            Token::Keyword(w) => append(out, w.spelling()),
            Token::Operator(o) => append(out, o.spelling()),
            Token::Identifier(s) => append(out, strtab.get(s)),
            Token::IntegerLiteral(s) => append(out, strtab.get(s)),
        }
        out.push(32);
        k = k + 1;
        assert(seps[k - 1] == 32);
        assert(out@ =~= old(out)@ + text_with(ts@, k as nat, strtab, seps));
    }
    Ok(())
}

/// Writes a program in normal form behind `out`: nothing for the empty
/// tree, and nothing if a name or a literal of the tree does not belong
/// to the string table. Where the names and literals of the tree are
/// such as the lexer gives, what is written is ASCII.
pub fn print(a: &AST, strtab: &StringTable, out: &mut Vec<u8>) -> (r: Result<(), UnknownSymbol>)
    ensures
        r is Err <==> any_foreign(ast_tokens(ast_tree(a)), strtab),
        final(out)@ == (if any_foreign(ast_tokens(ast_tree(a)), strtab) {
            old(out)@
        } else {
            old(out)@ + spec_text(
                ast_tokens(ast_tree(a)),
                ast_tokens(ast_tree(a)).len(),
                strtab,
            )
        }),
        crate::print::round_trip::all_writable(ast_tokens(ast_tree(a)), strtab) ==> r is Ok
            && crate::asciifile::all_ascii(
            final(out)@.subrange(old(out)@.len() as int, final(out)@.len() as int),
        ),
{
    let ts = tokens(a);
    proof {
        if crate::print::round_trip::all_writable(ts@, strtab) {
            crate::print::round_trip::lemma_writable_written(ts@, strtab);
            crate::print::round_trip::lemma_text_ascii(ts@, ts@.len(), strtab);
            let text = spec_text(ts@, ts@.len(), strtab);
            assert((old(out)@ + text).subrange(
                old(out)@.len() as int,
                (old(out)@ + text).len() as int,
            ) =~= text);
        }
    }
    write_tokens(out, &ts, strtab)
}

} // verus!

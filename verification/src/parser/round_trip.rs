//! Printing a tree in normal form and parsing what was printed gives
//! the tree again.
use super::grammar::{
    at, binary_op, is_kw, is_op, lowest, name_at, precedence, right_min, span_of, spec_args,
    spec_args_rest, spec_basic, spec_binary, spec_binary_rest, spec_block, spec_block_stmt,
    spec_closed, spec_condition, spec_declaration, spec_dims, spec_expr, spec_new, spec_postfix,
    spec_postfix_ops, spec_primary, spec_stmt, spec_stmts, spec_type, spec_unary,
    starts_declaration, Parsed, Tokens,
};
use super::tree::{block_shaped, open_if, stmt_shaped, BlockTree, ExprTree, StmtTree};
use crate::ast::Type;
use crate::print::pretty::{
    block_tokens, condition_tokens, opt_expr_tokens, stmt_tokens, stmts_tokens, type_tokens,
};
use super::{SyntaxError, Token};
use crate::asciifile::Spanned;
use crate::ast::{BasicType, BinaryOp, UnaryOp};
use crate::lexer::{Keyword, Operator};
use crate::print::pretty::{
    args_tokens, atom, basic_token, binary_token, dims_tokens, expr_tokens, is_bare,
    operand_tokens, unary_token,
};
use vstd::prelude::*;

verus! {

/// The tokens `ts` stand in `t` from index `i` on.
pub open spec fn spells(t: Tokens, i: int, ts: Seq<Token>) -> bool {
    &&& 0 <= i
    &&& i + ts.len() <= t.len()
    &&& forall|k: int| 0 <= k < ts.len() ==> #[trigger] ts[k] == t[i + k].data
}

/// The length of a sequence of tokens, as an integer.
pub open spec fn len(ts: Seq<Token>) -> int {
    ts.len() as int
}

/// A part of what stands in `t` stands in `t`.
pub proof fn lemma_part(t: Tokens, i: int, whole: Seq<Token>, off: int, part: Seq<Token>)
    requires
        spells(t, i, whole),
        0 <= off,
        off + part.len() <= whole.len(),
        whole.subrange(off, off + part.len()) == part,
    ensures
        spells(t, i + off, part),
{
    assert forall|k: int| 0 <= k < part.len() implies #[trigger] part[k] == t[i + off + k].data by {
        assert(part[k] == whole.subrange(off, off + part.len())[k]);
        assert(whole[off + k] == t[i + (off + k)].data);
    }
}

/// The token at a place of what stands in `t`.
pub proof fn lemma_at(t: Tokens, i: int, ts: Seq<Token>, k: int)
    requires
        spells(t, i, ts),
        0 <= k < ts.len(),
    ensures
        at(t, i + k) == Some(ts[k]),
{
    assert(ts[k] == t[i + k].data);
}

/// Two expressions are the same but for their spans.
pub open spec fn expr_alike(a: Spanned<ExprTree>, b: Spanned<ExprTree>) -> bool
    decreases a,
{
    match (a.data, b.data) {
        (ExprTree::Binary(o, l, r), ExprTree::Binary(o2, l2, r2)) => o == o2 && expr_alike(*l, *l2)
            && expr_alike(*r, *r2),
        (ExprTree::Unary(o, x), ExprTree::Unary(o2, x2)) => o == o2 && expr_alike(*x, *x2),
        (ExprTree::MethodInvocation(x, n, xs), ExprTree::MethodInvocation(x2, n2, xs2)) => n == n2
            && expr_alike(*x, *x2) && xs.data.len() == xs2.data.len() && forall|k: int|
            0 <= k < xs.data.len() ==> expr_alike(xs.data[k], xs2.data[k]),
        (ExprTree::FieldAccess(x, n), ExprTree::FieldAccess(x2, n2)) => n == n2 && expr_alike(
            *x,
            *x2,
        ),
        (ExprTree::ArrayAccess(x, i), ExprTree::ArrayAccess(x2, i2)) => expr_alike(*x, *x2)
            && expr_alike(*i, *i2),
        (ExprTree::Null, ExprTree::Null) => true,
        (ExprTree::Boolean(v), ExprTree::Boolean(v2)) => v == v2,
        (ExprTree::Int(s), ExprTree::Int(s2)) => s == s2,
        (ExprTree::NegInt(s), ExprTree::NegInt(s2)) => s == s2,
        (ExprTree::Var(s), ExprTree::Var(s2)) => s == s2,
        (ExprTree::ThisMethodInvocation(n, xs), ExprTree::ThisMethodInvocation(n2, xs2)) => n == n2
            && xs.data.len() == xs2.data.len() && forall|k: int|
            0 <= k < xs.data.len() ==> expr_alike(xs.data[k], xs2.data[k]),
        (ExprTree::This, ExprTree::This) => true,
        (ExprTree::NewObject(s), ExprTree::NewObject(s2)) => s == s2,
        (ExprTree::NewArray(b, x, n), ExprTree::NewArray(b2, x2, n2)) => b == b2 && n == n2
            && expr_alike(*x, *x2),
        _ => false,
    }
}

/// The lists hold expressions that are the same but for their spans.
pub open spec fn exprs_alike(a: Seq<Spanned<ExprTree>>, b: Seq<Spanned<ExprTree>>) -> bool {
    a.len() == b.len() && forall|k: int| 0 <= k < a.len() ==> expr_alike(a[k], b[k])
}

/// The token at index `j` ends an expression: it is `)`, `]`, `,` or
/// `;`.
pub open spec fn stops(t: Tokens, j: int) -> bool {
    is_op(t, j, Operator::RightParen) || is_op(t, j, Operator::RightBracket) || is_op(
        t,
        j,
        Operator::Comma,
    ) || is_op(t, j, Operator::Semicolon)
}

/// What was parsed from index `i` is expression `e` but for the spans,
/// and it ends before index `j`.
pub open spec fn reads_expr(r: Parsed<Spanned<ExprTree>>, e: Spanned<ExprTree>, j: int) -> bool {
    r matches Ok(p) && p.1 == j && expr_alike(e, p.0)
}

pub open spec fn reads_args(
    r: Parsed<Spanned<Seq<Spanned<ExprTree>>>>,
    es: Seq<Spanned<ExprTree>>,
    j: int,
) -> bool {
    r matches Ok(p) && p.1 == j && exprs_alike(es, p.0.data)
}

/// A token with which an operand can start. Behind a `-` it is no
/// literal.
pub open spec fn starts_operand(tok: Token, negated: bool) -> bool {
    match tok {
        Token::Operator(o) => o == Operator::LeftParen,
        Token::Keyword(k) => k == Keyword::Null || k == Keyword::True || k == Keyword::False || k
            == Keyword::This,
        Token::Identifier(_) => true,
        Token::IntegerLiteral(_) => !negated,
    }
}

/// A token with which an expression can start.
pub open spec fn starts_expr(tok: Token) -> bool {
    match tok {
        Token::Operator(o) => o == Operator::LeftParen || o == Operator::Exclaim || o
            == Operator::Minus,
        Token::Keyword(k) => k == Keyword::Null || k == Keyword::True || k == Keyword::False || k
            == Keyword::This || k == Keyword::New,
        Token::Identifier(_) => true,
        Token::IntegerLiteral(_) => true,
    }
}

pub proof fn lemma_first_operand(e: Spanned<ExprTree>, negated: bool)
    ensures
        operand_tokens(e, negated).len() > 0,
        starts_operand(operand_tokens(e, negated)[0], negated),
{
    if is_bare(e.data, negated) {
        assert(expr_tokens(e).len() == 1);
    } else {
        assert(operand_tokens(e, negated)[0] == Token::Operator(Operator::LeftParen));
    }
}

pub proof fn lemma_first_expr(e: Spanned<ExprTree>)
    ensures
        expr_tokens(e).len() > 0,
        starts_expr(expr_tokens(e)[0]),
{
    match e.data {
        ExprTree::Binary(o, l, r) => {
            lemma_first_operand(*l, false);
            assert(expr_tokens(e)[0] == operand_tokens(*l, false)[0]);
        },
        ExprTree::Unary(o, x) => {
            assert(expr_tokens(e)[0] == unary_token(o));
        },
        ExprTree::MethodInvocation(x, n, args) => {
            lemma_first_operand(*x, false);
            assert(expr_tokens(e)[0] == operand_tokens(*x, false)[0]);
        },
        ExprTree::FieldAccess(x, n) => {
            lemma_first_operand(*x, false);
            assert(expr_tokens(e)[0] == operand_tokens(*x, false)[0]);
        },
        ExprTree::ArrayAccess(x, i) => {
            lemma_first_operand(*x, false);
            assert(expr_tokens(e)[0] == operand_tokens(*x, false)[0]);
        },
        ExprTree::NegInt(s) => {
            assert(expr_tokens(e)[0] == Token::Operator(Operator::Minus));
        },
        ExprTree::ThisMethodInvocation(n, args) => {
            assert(expr_tokens(e)[0] == Token::Identifier(n));
        },
        ExprTree::NewObject(s) => {
            assert(expr_tokens(e)[0] == Token::Keyword(Keyword::New));
        },
        ExprTree::NewArray(b, size, n) => {
            assert(expr_tokens(e)[0] == Token::Keyword(Keyword::New));
        },
        _ => {},
    }
}

/// Where nothing follows that continues an operand, the operand is an
/// expression of every precedence.
pub proof fn lemma_from_primary(t: Tokens, i: int, min: nat)
    requires
        spec_primary(t, i) matches Ok(p) && i < p.1 <= t.len() && stops(t, p.1),
        !is_op(t, i, Operator::Exclaim),
        !is_op(t, i, Operator::Minus),
    ensures
        spec_binary(t, i, min) == spec_primary(t, i),
        spec_unary(t, i) == spec_primary(t, i),
{
    let p = spec_primary(t, i)->Ok_0;
    assert(spec_postfix_ops(t, i, p.1, p.0) == Ok::<_, Spanned<SyntaxError>>((p.0, p.1)));
    assert(spec_postfix(t, i) == spec_primary(t, i));
    assert(spec_unary(t, i) == spec_primary(t, i));
    assert(binary_op(at(t, p.1)) is None);
    assert(spec_binary_rest(t, i, p.1, p.0, min) == Ok::<_, Spanned<SyntaxError>>((p.0, p.1)));
}

/// Where an operator follows an operand, the operand is what stands
/// before the operator.
pub proof fn lemma_before_operator(t: Tokens, i: int)
    requires
        spec_primary(t, i) matches Ok(p) && i < p.1 <= t.len() && binary_op(at(t, p.1)) is Some,
        !is_op(t, i, Operator::Exclaim),
        !is_op(t, i, Operator::Minus),
    ensures
        spec_unary(t, i) == spec_primary(t, i),
{
    let p = spec_primary(t, i)->Ok_0;
    assert(spec_postfix_ops(t, i, p.1, p.0) == Ok::<_, Spanned<SyntaxError>>((p.0, p.1)));
    assert(spec_postfix(t, i) == spec_primary(t, i));
}

/// Where nothing follows that continues it, what stands before the
/// operators is an expression of every precedence.
pub proof fn lemma_from_unary(t: Tokens, i: int, min: nat)
    requires
        spec_unary(t, i) matches Ok(p) && i < p.1 <= t.len() && stops(t, p.1),
    ensures
        spec_binary(t, i, min) == spec_unary(t, i),
{
    let p = spec_unary(t, i)->Ok_0;
    assert(binary_op(at(t, p.1)) is None);
    assert(spec_binary_rest(t, i, p.1, p.0, min) == Ok::<_, Spanned<SyntaxError>>((p.0, p.1)));
}

pub proof fn lemma_binary_token(o: BinaryOp)
    ensures
        binary_op(Some(binary_token(o))) == Some(o),
        precedence(o) >= lowest(),
        binary_token(o) != Token::Operator(Operator::LeftParen),
        binary_token(o) != Token::Operator(Operator::Dot),
        binary_token(o) != Token::Operator(Operator::LeftBracket),
{
}

/// The `[` `]` that were printed are counted when they are parsed, if no
/// `[` `]` follows them.
pub proof fn lemma_dims(t: Tokens, i: int, n: nat)
    requires
        spells(t, i, dims_tokens(n)),
        !(is_op(t, i + 2 * n, Operator::LeftBracket) && is_op(
            t,
            i + 2 * n + 1,
            Operator::RightBracket,
        )),
    ensures
        spec_dims(t, i) == n,
        dims_tokens(n).len() == 2 * n,
    decreases n,
{
    lemma_dims_len(n);
    if n > 0 {
        let d = dims_tokens(n);
        lemma_dims_front(n);
        lemma_at(t, i, d, 0);
        lemma_at(t, i, d, 1);
        lemma_dims_len((n - 1) as nat);
        assert(d.subrange(2, 2 + (dims_tokens((n - 1) as nat).len() as int)) =~= dims_tokens(
            (n - 1) as nat,
        ));
        lemma_part(t, i, d, 2, dims_tokens((n - 1) as nat));
        lemma_dims(t, i + 2, (n - 1) as nat);
    }
}

pub proof fn lemma_dims_len(n: nat)
    ensures
        dims_tokens(n).len() == 2 * n,
    decreases n,
{
    if n > 0 {
        lemma_dims_len((n - 1) as nat);
    }
}

/// `n` times `[` `]` start with `[` `]`, and go on with one `[` `]` less.
pub proof fn lemma_dims_front(n: nat)
    requires
        n > 0,
    ensures
        dims_tokens(n) == seq![
            Token::Operator(Operator::LeftBracket),
            Token::Operator(Operator::RightBracket),
        ] + dims_tokens((n - 1) as nat),
    decreases n,
{
    let pair = seq![Token::Operator(Operator::LeftBracket), Token::Operator(Operator::RightBracket)];
    if n == 1 {
        assert(dims_tokens(0) =~= Seq::<Token>::empty());
        assert(dims_tokens(1) =~= pair + dims_tokens(0));
    } else {
        lemma_dims_front((n - 1) as nat);
        assert(dims_tokens(n) =~= pair + dims_tokens((n - 1) as nat));
    }
}

pub proof fn lemma_basic_token(b: BasicType)
    ensures
        basic_token(b) != Token::Keyword(Keyword::Static),
        !(basic_token(b) is Operator),
        !(basic_token(b) is IntegerLiteral),
{
}

/// Where the first `k` of the arguments end in what is printed for the
/// first `n` of them.
pub proof fn lemma_args_prefix(es: Seq<Spanned<ExprTree>>, k: nat, n: nat)
    requires
        k <= n <= es.len(),
    ensures
        args_tokens(es, k).len() <= args_tokens(es, n).len(),
        args_tokens(es, n).subrange(0, args_tokens(es, k).len() as int) == args_tokens(es, k),
        0 < k < n ==> args_tokens(es, n)[args_tokens(es, k).len() as int] == Token::Operator(
            Operator::Comma,
        ),
        k < n ==> args_tokens(es, k).len() < args_tokens(es, n).len(),
    decreases n - k,
{
    if k < n {
        lemma_args_prefix(es, k, (n - 1) as nat);
        lemma_first_expr(es[n - 1]);
        let shorter = args_tokens(es, (n - 1) as nat);
        let whole = args_tokens(es, n);
        if n == 1 {
            assert(shorter =~= Seq::<Token>::empty());
            assert(args_tokens(es, k) =~= Seq::<Token>::empty());
            assert(whole.subrange(0, 0) =~= Seq::<Token>::empty());
        } else {
            assert(whole == shorter + seq![Token::Operator(Operator::Comma)] + expr_tokens(
                es[n - 1],
            ));
            assert(whole.subrange(0, args_tokens(es, k).len() as int) =~= shorter.subrange(
                0,
                args_tokens(es, k).len() as int,
            ));
            if 0 < k {
                if k < n - 1 {
                    assert(whole[args_tokens(es, k).len() as int] == shorter[args_tokens(
                        es,
                        k,
                    ).len() as int]);
                } else {
                    assert(whole[len(shorter) as int] == Token::Operator(Operator::Comma));
                }
            }
        }
    } else {
        assert(args_tokens(es, n).subrange(0, args_tokens(es, n).len() as int) =~= args_tokens(
            es,
            n,
        ));
    }
}

/// How far behind the first token of the arguments argument `k` starts.
pub open spec fn arg_offset(es: Seq<Spanned<ExprTree>>, k: nat) -> int {
    if k == 0 {
        0
    } else {
        len(args_tokens(es, k)) + 1
    }
}

/// Argument `k` stands at its place in what is printed for the
/// arguments and the `)` behind them, and a `,` or the `)` follows it.
pub proof fn lemma_arg_place(es: Seq<Spanned<ExprTree>>, k: nat)
    requires
        k < es.len(),
    ensures
        ({
            let whole = args_tokens(es, es.len()) + seq![Token::Operator(Operator::RightParen)];
            let arg = expr_tokens(es[k as int]);
            let off = arg_offset(es, k);
            &&& off + len(arg) < whole.len()
            &&& whole.subrange(off, off + len(arg)) == arg
            &&& off + len(arg) == args_tokens(es, k + 1).len()
            &&& whole[off + len(arg)] == Token::Operator(
                if k + 1 == es.len() {
                    Operator::RightParen
                } else {
                    Operator::Comma
                },
            )
        }),
{
    let n = es.len();
    let all = args_tokens(es, n);
    let whole = all + seq![Token::Operator(Operator::RightParen)];
    let arg = expr_tokens(es[k as int]);
    let off = arg_offset(es, k);
    let upto = args_tokens(es, k + 1);
    lemma_args_prefix(es, k + 1, n);
    if k == 0 {
        assert(upto == arg);
    } else {
        assert(upto == args_tokens(es, k) + seq![Token::Operator(Operator::Comma)] + arg);
    }
    assert(upto.subrange(off, off + len(arg)) =~= arg);
    assert(all.subrange(0, len(upto) as int).subrange(off, off + len(arg)) =~= all.subrange(
        off,
        off + len(arg),
    ));
    assert(whole.subrange(off, off + len(arg)) =~= all.subrange(off, off + len(arg)));
    if k + 1 == n {
        assert(whole[len(all) as int] == Token::Operator(Operator::RightParen));
    } else {
        lemma_first_expr(es[k as int]);
        assert(len(upto) > 0);
        assert(whole[len(upto) as int] == all[len(upto) as int]);
    }
}

/// An operand that was printed is parsed as a primary expression.
pub proof fn lemma_operand(t: Tokens, i: int, e: Spanned<ExprTree>, negated: bool)
    requires
        spells(t, i, operand_tokens(e, negated)),
        !is_op(t, i + operand_tokens(e, negated).len(), Operator::LeftParen),
    ensures
        reads_expr(spec_primary(t, i), e, i + operand_tokens(e, negated).len()),
        i < i + operand_tokens(e, negated).len() <= t.len(),
    decreases e, 2nat,
{
    let w = operand_tokens(e, negated);
    lemma_first_operand(e, negated);
    lemma_at(t, i, w, 0);
    if is_bare(e.data, negated) {
        assert(len(w) == 1);
    } else {
        let inner = expr_tokens(e);
        assert(w == seq![Token::Operator(Operator::LeftParen)] + inner + seq![
            Token::Operator(Operator::RightParen),
        ]);
        assert(w.subrange(1, 1 + len(inner)) =~= inner);
        lemma_part(t, i, w, 1, inner);
        lemma_at(t, i, w, 1 + len(inner));
        lemma_expr(t, i + 1, e);
        let p = spec_binary(t, i + 1, lowest())->Ok_0;
        assert(spec_primary(t, i) == Ok::<_, Spanned<SyntaxError>>(
            (Spanned { span: span_of(t, i, p.1 + 1), data: p.0.data }, p.1 + 1),
        ));
        lemma_alike_data(e, p.0, Spanned { span: span_of(t, i, p.1 + 1), data: p.0.data });
    }
}

/// Whether two expressions are alike does not depend on their spans.
pub proof fn lemma_alike_data(e: Spanned<ExprTree>, a: Spanned<ExprTree>, b: Spanned<ExprTree>)
    requires
        expr_alike(e, a),
        a.data == b.data,
    ensures
        expr_alike(e, b),
{
}

/// The arguments that were printed, from argument `k` on, are parsed
/// as they are.
pub proof fn lemma_args_rest(
    t: Tokens,
    lo: int,
    es: Seq<Spanned<ExprTree>>,
    k: nat,
    acc: Seq<Spanned<ExprTree>>,
)
    requires
        k < es.len(),
        spells(
            t,
            lo + 1,
            args_tokens(es, es.len()) + seq![Token::Operator(Operator::RightParen)],
        ),
        acc.len() == k,
        forall|m: int| 0 <= m < k ==> expr_alike(es[m], acc[m]),
    ensures
        reads_args(
            spec_args_rest(t, lo, lo + 1 + arg_offset(es, k), acc),
            es,
            lo + 2 + args_tokens(es, es.len()).len(),
        ),
    decreases es, es.len() - k,
{
    let n = es.len();
    let whole = args_tokens(es, n) + seq![Token::Operator(Operator::RightParen)];
    let arg = expr_tokens(es[k as int]);
    let off = arg_offset(es, k);
    let start = lo + 1 + off;
    lemma_arg_place(es, k);
    lemma_part(t, lo + 1, whole, off, arg);
    lemma_at(t, lo + 1, whole, off + len(arg));
    lemma_expr(t, start, es[k as int]);
    let p = spec_binary(t, start, lowest())->Ok_0;
    let more = acc.push(p.0);
    assert forall|m: int| 0 <= m < k + 1 implies expr_alike(es[m], more[m]) by {
        if m < k {
            assert(more[m] == acc[m]);
        }
    }
    if k + 1 < n {
        assert(p.1 + 1 == lo + 1 + arg_offset(es, k + 1));
        lemma_args_rest(t, lo, es, k + 1, more);
    } else {
        assert(spec_args_rest(t, lo, start, acc) == Ok::<_, Spanned<SyntaxError>>(
            (Spanned { span: span_of(t, lo, p.1 + 1), data: more }, p.1 + 1),
        ));
    }
}

/// The arguments that were printed, in their parentheses, are parsed as
/// they are.
pub proof fn lemma_args(t: Tokens, i: int, es: Seq<Spanned<ExprTree>>)
    requires
        spells(
            t,
            i,
            seq![Token::Operator(Operator::LeftParen)] + args_tokens(es, es.len()) + seq![
                Token::Operator(Operator::RightParen),
            ],
        ),
    ensures
        reads_args(spec_args(t, i), es, i + 2 + args_tokens(es, es.len()).len()),
    decreases es, es.len() + 1,
{
    let all = args_tokens(es, es.len());
    let w = seq![Token::Operator(Operator::LeftParen)] + all + seq![
        Token::Operator(Operator::RightParen),
    ];
    lemma_at(t, i, w, 0);
    lemma_at(t, i, w, 1);
    if es.len() == 0 {
        assert(all =~= Seq::<Token>::empty());
        assert(spec_args(t, i) == Ok::<_, Spanned<SyntaxError>>(
            (Spanned { span: span_of(t, i, i + 2), data: Seq::<Spanned<ExprTree>>::empty() }, i + 2),
        ));
    } else {
        let rest = all + seq![Token::Operator(Operator::RightParen)];
        assert(w.subrange(1, 1 + len(rest)) =~= rest);
        lemma_part(t, i, w, 1, rest);
        lemma_first_expr(es[0]);
        lemma_args_prefix(es, 1, es.len());
        assert(all[0] == expr_tokens(es[0])[0]) by {
            assert(all.subrange(0, args_tokens(es, 1).len() as int)[0] == all[0]);
        }
        assert(w[1] == all[0]);
        lemma_args_rest(t, i, es, 0, Seq::empty());
    }
}

/// An expression that was printed, with a token behind it that ends an
/// expression, is parsed as it is.
pub proof fn lemma_expr(t: Tokens, i: int, e: Spanned<ExprTree>)
    requires
        spells(t, i, expr_tokens(e)),
        stops(t, i + expr_tokens(e).len()),
    ensures
        reads_expr(spec_binary(t, i, lowest()), e, i + expr_tokens(e).len()),
        i < i + expr_tokens(e).len() <= t.len(),
    decreases e, 1nat,
{
    lemma_first_expr(e);
    match e.data {
        ExprTree::Binary(_, _, _) => lemma_binary(t, i, e),
        ExprTree::Unary(_, _) => lemma_unary(t, i, e),
        ExprTree::MethodInvocation(_, _, _) => lemma_call(t, i, e),
        ExprTree::FieldAccess(_, _) => lemma_field(t, i, e),
        ExprTree::ArrayAccess(_, _) => lemma_index(t, i, e),
        ExprTree::ThisMethodInvocation(_, _) => lemma_this_call(t, i, e),
        ExprTree::NewObject(_) => lemma_new_object(t, i, e),
        ExprTree::NewArray(_, _, _) => lemma_new_array(t, i, e),
        ExprTree::NegInt(_) => lemma_neg_int(t, i, e),
        _ => lemma_atom(t, i, e),
    }
}

proof fn lemma_atom(t: Tokens, i: int, e: Spanned<ExprTree>)
    requires
        spells(t, i, expr_tokens(e)),
        stops(t, i + expr_tokens(e).len()),
        e.data is Null || e.data is Boolean || e.data is Int || e.data is Var || e.data is This,
    ensures
        reads_expr(spec_binary(t, i, lowest()), e, i + expr_tokens(e).len()),
{
    let w = expr_tokens(e);
    assert(len(w) == 1);
    lemma_at(t, i, w, 0);
    lemma_from_primary(t, i, lowest());
}

proof fn lemma_neg_int(t: Tokens, i: int, e: Spanned<ExprTree>)
    requires
        spells(t, i, expr_tokens(e)),
        stops(t, i + expr_tokens(e).len()),
        e.data is NegInt,
    ensures
        reads_expr(spec_binary(t, i, lowest()), e, i + expr_tokens(e).len()),
{
    let w = expr_tokens(e);
    assert(len(w) == 2);
    lemma_at(t, i, w, 0);
    lemma_at(t, i, w, 1);
    let lit = Spanned { span: span_of(t, i, i + 2), data: e.data };
    assert(spec_postfix_ops(t, i, i + 2, lit) == Ok::<_, Spanned<SyntaxError>>((lit, i + 2)));
    assert(spec_unary(t, i) == Ok::<_, Spanned<SyntaxError>>((lit, i + 2)));
    lemma_from_unary(t, i, lowest());
}

proof fn lemma_binary(t: Tokens, i: int, e: Spanned<ExprTree>)
    requires
        spells(t, i, expr_tokens(e)),
        stops(t, i + expr_tokens(e).len()),
        e.data is Binary,
    ensures
        reads_expr(spec_binary(t, i, lowest()), e, i + expr_tokens(e).len()),
    decreases e, 0nat,
{
    let o = e.data->Binary_0;
    let l = *e.data->Binary_1;
    let r = *e.data->Binary_2;
    let a = operand_tokens(l, false);
    let b = operand_tokens(r, false);
    let w = expr_tokens(e);
    assert(w == a + seq![binary_token(o)] + b);
    lemma_first_operand(l, false);
    lemma_first_operand(r, false);
    lemma_binary_token(o);
    assert(w.subrange(0, len(a) as int) =~= a);
    lemma_part(t, i, w, 0, a);
    lemma_at(t, i, w, len(a) as int);
    assert(w.subrange(len(a) + 1, len(a) + 1 + len(b)) =~= b);
    lemma_part(t, i, w, len(a) + 1, b);
    lemma_at(t, i, a, 0);
    lemma_at(t, i + len(a) + 1, b, 0);
    let j = i + len(a);
    lemma_operand(t, i, l, false);
    lemma_before_operator(t, i);
    lemma_operand(t, j + 1, r, false);
    lemma_from_primary(t, j + 1, right_min(o));
    let lp = spec_primary(t, i)->Ok_0;
    let rp = spec_primary(t, j + 1)->Ok_0;
    let both = Spanned {
        span: span_of(t, i, rp.1),
        data: ExprTree::Binary(o, Box::new(lp.0), Box::new(rp.0)),
    };
    assert(binary_op(at(t, rp.1)) is None);
    assert(spec_binary_rest(t, i, rp.1, both, lowest()) == Ok::<_, Spanned<SyntaxError>>(
        (both, rp.1),
    ));
    assert(spec_binary_rest(t, i, j, lp.0, lowest()) == Ok::<_, Spanned<SyntaxError>>(
        (both, rp.1),
    ));
    assert(spec_binary(t, i, lowest()) == Ok::<_, Spanned<SyntaxError>>((both, rp.1)));
}

proof fn lemma_unary(t: Tokens, i: int, e: Spanned<ExprTree>)
    requires
        spells(t, i, expr_tokens(e)),
        stops(t, i + expr_tokens(e).len()),
        e.data is Unary,
    ensures
        reads_expr(spec_binary(t, i, lowest()), e, i + expr_tokens(e).len()),
    decreases e, 0nat,
{
    let o = e.data->Unary_0;
    let x = *e.data->Unary_1;
    let negated = o == UnaryOp::Neg;
    let a = operand_tokens(x, negated);
    let w = expr_tokens(e);
    assert(w == seq![unary_token(o)] + a);
    lemma_first_operand(x, negated);
    lemma_at(t, i, w, 0);
    assert(w.subrange(1, 1 + len(a)) =~= a);
    lemma_part(t, i, w, 1, a);
    lemma_at(t, i + 1, a, 0);
    lemma_operand(t, i + 1, x, negated);
    lemma_from_primary(t, i + 1, lowest());
    let p = spec_primary(t, i + 1)->Ok_0;
    let node = Spanned { span: span_of(t, i, p.1), data: ExprTree::Unary(o, Box::new(p.0)) };
    assert(spec_unary(t, i) == Ok::<_, Spanned<SyntaxError>>((node, p.1)));
    lemma_from_unary(t, i, lowest());
}

/// What is printed for a call of a method of an object: the object, the
/// `.`, the name, and the arguments in their parentheses.
pub proof fn lemma_call_layout(e: Spanned<ExprTree>)
    requires
        e.data is MethodInvocation,
    ensures
        ({
            let a = operand_tokens(*e.data->MethodInvocation_0, false);
            let xs = e.data->MethodInvocation_2;
            let list = seq![Token::Operator(Operator::LeftParen)] + args_tokens(
                xs.data,
                xs.data.len(),
            ) + seq![Token::Operator(Operator::RightParen)];
            let w = expr_tokens(e);
            &&& len(w) == len(a) + 2 + len(list)
            &&& w.subrange(0, len(a)) == a
            &&& w[len(a)] == Token::Operator(Operator::Dot)
            &&& w[len(a) + 1] == Token::Identifier(e.data->MethodInvocation_1)
            &&& w.subrange(len(a) + 2, len(a) + 2 + len(list)) == list
        }),
{
    let a = operand_tokens(*e.data->MethodInvocation_0, false);
    let xs = e.data->MethodInvocation_2;
    let n = e.data->MethodInvocation_1;
    let list = seq![Token::Operator(Operator::LeftParen)] + args_tokens(xs.data, xs.data.len())
        + seq![Token::Operator(Operator::RightParen)];
    let w = expr_tokens(e);
    assert(w =~= a + seq![Token::Operator(Operator::Dot), Token::Identifier(n)] + list);
    assert(w.subrange(0, len(a)) =~= a);
    assert(w.subrange(len(a) + 2, len(a) + 2 + len(list)) =~= list);
}

/// A call behind an expression is read as a call on the expression.
proof fn lemma_postfix_call(t: Tokens, lo: int, j: int, lhs: Spanned<ExprTree>)
    requires
        is_op(t, j, Operator::Dot),
        name_at(t, j + 1) is Some,
        is_op(t, j + 2, Operator::LeftParen),
        spec_args(t, j + 2) matches Ok(q) && j < q.1 <= t.len() && stops(t, q.1),
    ensures
        spec_postfix_ops(t, lo, j, lhs) == Ok::<_, Spanned<SyntaxError>>(
            (
                Spanned {
                    span: span_of(t, lo, spec_args(t, j + 2)->Ok_0.1),
                    data: ExprTree::MethodInvocation(
                        Box::new(lhs),
                        name_at(t, j + 1)->0,
                        spec_args(t, j + 2)->Ok_0.0,
                    ),
                },
                spec_args(t, j + 2)->Ok_0.1,
            ),
        ),
{
    let q = spec_args(t, j + 2)->Ok_0;
    let call = Spanned {
        span: span_of(t, lo, q.1),
        data: ExprTree::MethodInvocation(Box::new(lhs), name_at(t, j + 1)->0, q.0),
    };
    assert(spec_postfix_ops(t, lo, q.1, call) == Ok::<_, Spanned<SyntaxError>>((call, q.1)));
}

/// What is read behind an operand is an expression of every precedence,
/// where nothing follows that continues it.
proof fn lemma_from_postfix(t: Tokens, i: int, min: nat)
    requires
        spec_primary(t, i) matches Ok(p) && i < p.1 <= t.len() && (spec_postfix_ops(
            t,
            i,
            p.1,
            p.0,
        ) matches Ok(r) && i < r.1 <= t.len() && stops(t, r.1)),
        !is_op(t, i, Operator::Exclaim),
        !is_op(t, i, Operator::Minus),
    ensures
        spec_binary(t, i, min) == spec_postfix_ops(
            t,
            i,
            spec_primary(t, i)->Ok_0.1,
            spec_primary(t, i)->Ok_0.0,
        ),
{
    assert(spec_unary(t, i) == spec_postfix(t, i));
    lemma_from_unary(t, i, min);
}

proof fn lemma_call(t: Tokens, i: int, e: Spanned<ExprTree>)
    requires
        spells(t, i, expr_tokens(e)),
        stops(t, i + expr_tokens(e).len()),
        e.data is MethodInvocation,
    ensures
        reads_expr(spec_binary(t, i, lowest()), e, i + expr_tokens(e).len()),
    decreases e, 0nat,
{
    let x = *e.data->MethodInvocation_0;
    let xs = e.data->MethodInvocation_2;
    let a = operand_tokens(x, false);
    let list = seq![Token::Operator(Operator::LeftParen)] + args_tokens(xs.data, xs.data.len())
        + seq![Token::Operator(Operator::RightParen)];
    let w = expr_tokens(e);
    lemma_call_layout(e);
    lemma_first_operand(x, false);
    lemma_part(t, i, w, 0, a);
    lemma_at(t, i, a, 0);
    lemma_at(t, i, w, len(a));
    lemma_at(t, i, w, len(a) + 1);
    lemma_part(t, i, w, len(a) + 2, list);
    lemma_at(t, i + len(a) + 2, list, 0);
    let j = i + len(a);
    lemma_operand(t, i, x, false);
    lemma_args(t, j + 2, xs.data);
    let p = spec_primary(t, i)->Ok_0;
    lemma_postfix_call(t, i, j, p.0);
    lemma_from_postfix(t, i, lowest());
}

proof fn lemma_field(t: Tokens, i: int, e: Spanned<ExprTree>)
    requires
        spells(t, i, expr_tokens(e)),
        stops(t, i + expr_tokens(e).len()),
        e.data is FieldAccess,
    ensures
        reads_expr(spec_binary(t, i, lowest()), e, i + expr_tokens(e).len()),
    decreases e, 0nat,
{
    let x = *e.data->FieldAccess_0;
    let n = e.data->FieldAccess_1;
    let a = operand_tokens(x, false);
    let w = expr_tokens(e);
    assert(w =~= a + seq![Token::Operator(Operator::Dot), Token::Identifier(n)]);
    lemma_first_operand(x, false);
    assert(w.subrange(0, len(a) as int) =~= a);
    lemma_part(t, i, w, 0, a);
    lemma_at(t, i, a, 0);
    lemma_at(t, i, w, len(a) as int);
    lemma_at(t, i, w, len(a) + 1);
    let j = i + len(a);
    lemma_operand(t, i, x, false);
    let p = spec_primary(t, i)->Ok_0;
    let access = Spanned {
        span: span_of(t, i, j + 2),
        data: ExprTree::FieldAccess(Box::new(p.0), n),
    };
    assert(spec_postfix_ops(t, i, j + 2, access) == Ok::<_, Spanned<SyntaxError>>(
        (access, j + 2),
    ));
    assert(spec_postfix_ops(t, i, j, p.0) == Ok::<_, Spanned<SyntaxError>>((access, j + 2)));
    assert(spec_postfix(t, i) == Ok::<_, Spanned<SyntaxError>>((access, j + 2)));
    assert(spec_unary(t, i) == spec_postfix(t, i));
    lemma_from_unary(t, i, lowest());
}

proof fn lemma_index(t: Tokens, i: int, e: Spanned<ExprTree>)
    requires
        spells(t, i, expr_tokens(e)),
        stops(t, i + expr_tokens(e).len()),
        e.data is ArrayAccess,
    ensures
        reads_expr(spec_binary(t, i, lowest()), e, i + expr_tokens(e).len()),
    decreases e, 0nat,
{
    let x = *e.data->ArrayAccess_0;
    let ix = *e.data->ArrayAccess_1;
    let a = operand_tokens(x, false);
    let b = expr_tokens(ix);
    let w = expr_tokens(e);
    assert(w =~= a + seq![Token::Operator(Operator::LeftBracket)] + b + seq![
        Token::Operator(Operator::RightBracket),
    ]);
    lemma_first_operand(x, false);
    assert(w.subrange(0, len(a) as int) =~= a);
    lemma_part(t, i, w, 0, a);
    lemma_at(t, i, a, 0);
    lemma_at(t, i, w, len(a) as int);
    assert(w.subrange(len(a) + 1, len(a) + 1 + len(b)) =~= b);
    lemma_part(t, i, w, len(a) + 1, b);
    lemma_at(t, i, w, len(a) + 1 + len(b));
    let j = i + len(a);
    lemma_operand(t, i, x, false);
    lemma_expr(t, j + 1, ix);
    let p = spec_primary(t, i)->Ok_0;
    let q = spec_binary(t, j + 1, lowest())->Ok_0;
    let access = Spanned {
        span: span_of(t, i, q.1 + 1),
        data: ExprTree::ArrayAccess(Box::new(p.0), Box::new(q.0)),
    };
    assert(spec_postfix_ops(t, i, q.1 + 1, access) == Ok::<_, Spanned<SyntaxError>>(
        (access, q.1 + 1),
    ));
    assert(spec_postfix_ops(t, i, j, p.0) == Ok::<_, Spanned<SyntaxError>>((access, q.1 + 1)));
    assert(spec_postfix(t, i) == Ok::<_, Spanned<SyntaxError>>((access, q.1 + 1)));
    assert(spec_unary(t, i) == spec_postfix(t, i));
    lemma_from_unary(t, i, lowest());
}

proof fn lemma_this_call(t: Tokens, i: int, e: Spanned<ExprTree>)
    requires
        spells(t, i, expr_tokens(e)),
        stops(t, i + expr_tokens(e).len()),
        e.data is ThisMethodInvocation,
    ensures
        reads_expr(spec_binary(t, i, lowest()), e, i + expr_tokens(e).len()),
    decreases e, 0nat,
{
    let n = e.data->ThisMethodInvocation_0;
    let xs = e.data->ThisMethodInvocation_1;
    let list = seq![Token::Operator(Operator::LeftParen)] + args_tokens(xs.data, xs.data.len())
        + seq![Token::Operator(Operator::RightParen)];
    let w = expr_tokens(e);
    assert(w =~= seq![Token::Identifier(n)] + list);
    lemma_at(t, i, w, 0);
    lemma_at(t, i, w, 1);
    assert(w.subrange(1, 1 + len(list)) =~= list);
    lemma_part(t, i, w, 1, list);
    lemma_args(t, i + 1, xs.data);
    let q = spec_args(t, i + 1)->Ok_0;
    let call = Spanned { span: span_of(t, i, q.1), data: ExprTree::ThisMethodInvocation(n, q.0) };
    assert(spec_primary(t, i) == Ok::<_, Spanned<SyntaxError>>((call, q.1)));
    lemma_from_primary(t, i, lowest());
}

proof fn lemma_new_object(t: Tokens, i: int, e: Spanned<ExprTree>)
    requires
        spells(t, i, expr_tokens(e)),
        stops(t, i + expr_tokens(e).len()),
        e.data is NewObject,
    ensures
        reads_expr(spec_binary(t, i, lowest()), e, i + expr_tokens(e).len()),
{
    let w = expr_tokens(e);
    assert(len(w) == 4);
    lemma_at(t, i, w, 0);
    lemma_at(t, i, w, 1);
    lemma_at(t, i, w, 2);
    lemma_at(t, i, w, 3);
    let node = Spanned { span: span_of(t, i, i + 4), data: e.data };
    assert(spec_new(t, i) == Ok::<_, Spanned<SyntaxError>>((node, i + 4)));
    assert(spec_primary(t, i) == spec_new(t, i));
    lemma_from_primary(t, i, lowest());
}

proof fn lemma_new_array(t: Tokens, i: int, e: Spanned<ExprTree>)
    requires
        spells(t, i, expr_tokens(e)),
        stops(t, i + expr_tokens(e).len()),
        e.data is NewArray,
    ensures
        reads_expr(spec_binary(t, i, lowest()), e, i + expr_tokens(e).len()),
    decreases e, 0nat,
{
    let basic = e.data->NewArray_0;
    let size = *e.data->NewArray_1;
    let n = e.data->NewArray_2;
    let b = expr_tokens(size);
    let d = dims_tokens(n as nat);
    let w = expr_tokens(e);
    assert(w =~= seq![
        Token::Keyword(Keyword::New),
        basic_token(basic),
        Token::Operator(Operator::LeftBracket),
    ] + b + seq![Token::Operator(Operator::RightBracket)] + d);
    lemma_dims_len(n as nat);
    lemma_basic_token(basic);
    lemma_at(t, i, w, 0);
    lemma_at(t, i, w, 1);
    lemma_at(t, i, w, 2);
    assert(w.subrange(3, 3 + len(b)) =~= b);
    lemma_part(t, i, w, 3, b);
    lemma_at(t, i, w, 3 + len(b));
    assert(w.subrange(4 + len(b), 4 + len(b) + len(d)) =~= d);
    lemma_part(t, i, w, 4 + len(b), d);
    lemma_expr(t, i + 3, size);
    let q = spec_binary(t, i + 3, lowest())->Ok_0;
    lemma_dims(t, q.1 + 1, n as nat);
    let node = Spanned {
        span: span_of(t, i, q.1 + 1 + 2 * n),
        data: ExprTree::NewArray(basic, Box::new(q.0), n),
    };
    assert(spec_basic(t, i + 1) == Some(basic));
    assert(spec_new(t, i) == Ok::<_, Spanned<SyntaxError>>((node, q.1 + 1 + 2 * n)));
    assert(spec_primary(t, i) == spec_new(t, i));
    lemma_from_primary(t, i, lowest());
}

pub open spec fn opt_alike(a: Option<Spanned<ExprTree>>, b: Option<Spanned<ExprTree>>) -> bool {
    match (a, b) {
        (Some(x), Some(y)) => expr_alike(x, y),
        (None, None) => true,
        _ => false,
    }
}

/// Two statements are the same but for their spans.
pub open spec fn stmt_alike(a: Spanned<StmtTree>, b: Spanned<StmtTree>) -> bool
    decreases a,
{
    match (a.data, b.data) {
        (StmtTree::Block(x), StmtTree::Block(y)) => x.data.len() == y.data.len() && forall|k: int|
            0 <= k < x.data.len() ==> stmt_alike(x.data[k], y.data[k]),
        (StmtTree::Empty, StmtTree::Empty) => true,
        (StmtTree::If(c, a1, b1), StmtTree::If(c2, a2, b2)) => expr_alike(c, c2) && stmt_alike(
            *a1,
            *a2,
        ) && (match (b1, b2) {
            (Some(x), Some(y)) => stmt_alike(*x, *y),
            (None, None) => true,
            _ => false,
        }),
        (StmtTree::While(c, a1), StmtTree::While(c2, a2)) => expr_alike(c, c2) && stmt_alike(
            *a1,
            *a2,
        ),
        (StmtTree::Expression(e), StmtTree::Expression(e2)) => expr_alike(e, e2),
        (StmtTree::Return(e), StmtTree::Return(e2)) => opt_alike(e, e2),
        (
            StmtTree::LocalVariableDeclaration(ty, n, e),
            StmtTree::LocalVariableDeclaration(ty2, n2, e2),
        ) => ty.data == ty2.data && n == n2 && opt_alike(e, e2),
        _ => false,
    }
}

pub open spec fn stmts_alike(a: Seq<Spanned<StmtTree>>, b: Seq<Spanned<StmtTree>>) -> bool {
    a.len() == b.len() && forall|k: int| 0 <= k < a.len() ==> stmt_alike(a[k], b[k])
}

pub open spec fn reads_stmt(r: Parsed<Spanned<StmtTree>>, s: Spanned<StmtTree>, j: int) -> bool {
    r matches Ok(p) && p.1 == j && stmt_alike(s, p.0)
}

pub open spec fn reads_block(r: Parsed<BlockTree>, ss: Seq<Spanned<StmtTree>>, j: int) -> bool {
    r matches Ok(p) && p.1 == j && stmts_alike(ss, p.0.data)
}

/// A type that was printed is parsed as it is, where a name follows.
pub proof fn lemma_type(t: Tokens, i: int, ty: Type)
    requires
        spells(t, i, type_tokens(ty)),
        name_at(t, i + type_tokens(ty).len()) is Some,
    ensures
        spec_type(t, i) matches Ok(p) && p.0.data == ty && p.1 == i + type_tokens(ty).len(),
        spec_basic(t, i) == Some(ty.basic),
        type_tokens(ty).len() == 1 + 2 * ty.array_depth,
        ty.array_depth > 0 ==> is_op(t, i + 1, Operator::LeftBracket) && is_op(
            t,
            i + 2,
            Operator::RightBracket,
        ),
{
    let w = type_tokens(ty);
    let d = dims_tokens(ty.array_depth as nat);
    lemma_dims_len(ty.array_depth as nat);
    lemma_at(t, i, w, 0);
    assert(w.subrange(1, 1 + len(d)) =~= d);
    lemma_part(t, i, w, 1, d);
    lemma_dims(t, i + 1, ty.array_depth as nat);
    if ty.array_depth > 0 {
        lemma_dims_front(ty.array_depth as nat);
        lemma_at(t, i + 1, d, 0);
        lemma_at(t, i + 1, d, 1);
    }
}

/// A token with which a statement can start.
pub open spec fn starts_stmt(tok: Token) -> bool {
    tok != Token::Operator(Operator::RightBrace) && tok != Token::Keyword(Keyword::Else)
}

pub proof fn lemma_first_stmt(s: Spanned<StmtTree>)
    ensures
        stmt_tokens(s).len() > 0,
        starts_stmt(stmt_tokens(s)[0]),
{
    match s.data {
        StmtTree::Expression(e) => {
            lemma_first_expr(e);
            assert(stmt_tokens(s)[0] == expr_tokens(e)[0]);
        },
        StmtTree::LocalVariableDeclaration(ty, n, e) => {
            lemma_basic_token(ty.data.basic);
            assert(stmt_tokens(s)[0] == basic_token(ty.data.basic));
        },
        StmtTree::Block(b) => {
            assert(stmt_tokens(s)[0] == Token::Operator(Operator::LeftBrace));
        },
        StmtTree::Empty => {},
        StmtTree::If(c, a, b) => {
            assert(stmt_tokens(s)[0] == Token::Keyword(Keyword::If));
        },
        StmtTree::While(c, a) => {
            assert(stmt_tokens(s)[0] == Token::Keyword(Keyword::While));
        },
        StmtTree::Return(e) => {
            assert(stmt_tokens(s)[0] == Token::Keyword(Keyword::Return));
        },
    }
}

/// An expression that starts with a name does not go on as a
/// declaration does: with another name, or with `[` `]`.
pub proof fn lemma_second_token(e: Spanned<ExprTree>)
    ensures
        expr_tokens(e)[0] is Identifier && expr_tokens(e).len() > 1 ==> {
            &&& !(expr_tokens(e)[1] is Identifier)
            &&& expr_tokens(e)[1] == Token::Operator(Operator::LeftBracket) ==> expr_tokens(e).len()
                > 2 && expr_tokens(e)[2] != Token::Operator(Operator::RightBracket)
        },
{
    let w = expr_tokens(e);
    match e.data {
        ExprTree::Binary(o, l, r) => {
            let a = operand_tokens(*l, false);
            lemma_first_operand(*l, false);
            lemma_binary_token(o);
            assert(w == a + seq![binary_token(o)] + operand_tokens(*r, false));
            if a[0] is Identifier {
                assert(len(a) == 1);
                assert(w[1] == binary_token(o));
            }
            assert(w[0] == a[0]);
        },
        ExprTree::MethodInvocation(x, n, xs) => {
            let a = operand_tokens(*x, false);
            lemma_first_operand(*x, false);
            lemma_call_layout(e);
            assert(w[0] == w.subrange(0, len(a))[0]);
            if a[0] is Identifier {
                assert(len(a) == 1);
            }
        },
        ExprTree::FieldAccess(x, n) => {
            let a = operand_tokens(*x, false);
            lemma_first_operand(*x, false);
            assert(w =~= a + seq![Token::Operator(Operator::Dot), Token::Identifier(n)]);
            assert(w[0] == a[0]);
            if a[0] is Identifier {
                assert(len(a) == 1);
                assert(w[1] == Token::Operator(Operator::Dot));
            }
        },
        ExprTree::ArrayAccess(x, ix) => {
            let a = operand_tokens(*x, false);
            let b = expr_tokens(*ix);
            lemma_first_operand(*x, false);
            lemma_first_expr(*ix);
            assert(w =~= a + seq![Token::Operator(Operator::LeftBracket)] + b + seq![
                Token::Operator(Operator::RightBracket),
            ]);
            assert(w[0] == a[0]);
            if a[0] is Identifier {
                assert(len(a) == 1);
                assert(w[1] == Token::Operator(Operator::LeftBracket));
                assert(w[2] == b[0]);
            }
        },
        ExprTree::ThisMethodInvocation(n, xs) => {
            assert(w[1] == Token::Operator(Operator::LeftParen));
        },
        _ => {},
    }
}

/// An expression that was printed, with the token `close` behind it, is
/// parsed as it is.
pub proof fn lemma_closed(t: Tokens, i: int, e: Spanned<ExprTree>, close: Operator)
    requires
        spells(t, i, expr_tokens(e)),
        is_op(t, i + expr_tokens(e).len(), close),
        close == Operator::RightParen || close == Operator::Semicolon,
    ensures
        reads_expr(spec_closed(t, i, close), e, i + expr_tokens(e).len() + 1),
        i < i + expr_tokens(e).len() < t.len(),
{
    lemma_expr(t, i, e);
}

/// A condition that was printed is parsed as it is.
pub proof fn lemma_condition(t: Tokens, i: int, k: Keyword, c: Spanned<ExprTree>)
    requires
        spells(t, i, condition_tokens(k, c)),
    ensures
        at(t, i) == Some(Token::Keyword(k)),
        reads_expr(spec_condition(t, i + 1), c, i + condition_tokens(k, c).len()),
        condition_tokens(k, c).len() == expr_tokens(c).len() + 3,
        i + condition_tokens(k, c).len() <= t.len(),
{
    let w = condition_tokens(k, c);
    let b = expr_tokens(c);
    assert(w =~= seq![Token::Keyword(k), Token::Operator(Operator::LeftParen)] + b + seq![
        Token::Operator(Operator::RightParen),
    ]);
    lemma_at(t, i, w, 0);
    lemma_at(t, i, w, 1);
    assert(w.subrange(2, 2 + len(b)) =~= b);
    lemma_part(t, i, w, 2, b);
    lemma_at(t, i, w, 2 + len(b));
    lemma_closed(t, i + 2, c, Operator::RightParen);
}

/// Where the first `k` of the statements end in what is printed for
/// the first `n` of them.
pub proof fn lemma_stmts_prefix(ss: Seq<Spanned<StmtTree>>, k: nat, n: nat)
    requires
        k <= n <= ss.len(),
    ensures
        stmts_tokens(ss, k).len() <= stmts_tokens(ss, n).len(),
        stmts_tokens(ss, n).subrange(0, stmts_tokens(ss, k).len() as int) == stmts_tokens(ss, k),
    decreases n - k,
{
    if k < n {
        lemma_stmts_prefix(ss, k, (n - 1) as nat);
        let shorter = stmts_tokens(ss, (n - 1) as nat);
        let whole = stmts_tokens(ss, n);
        assert(whole == shorter + stmt_tokens(ss[n - 1]));
        assert(whole.subrange(0, stmts_tokens(ss, k).len() as int) =~= shorter.subrange(
            0,
            stmts_tokens(ss, k).len() as int,
        ));
    } else {
        assert(stmts_tokens(ss, n).subrange(0, stmts_tokens(ss, n).len() as int) =~= stmts_tokens(
            ss,
            n,
        ));
    }
}

/// Statement `k` stands at its place in what is printed for the
/// statements and the `}` behind them, and a statement or the `}`
/// follows it.
pub proof fn lemma_stmt_place(ss: Seq<Spanned<StmtTree>>, k: nat)
    requires
        k < ss.len(),
    ensures
        ({
            let whole = stmts_tokens(ss, ss.len()) + seq![Token::Operator(Operator::RightBrace)];
            let one = stmt_tokens(ss[k as int]);
            let off = len(stmts_tokens(ss, k));
            &&& off + len(one) < len(whole)
            &&& whole.subrange(off, off + len(one)) == one
            &&& off + len(one) == len(stmts_tokens(ss, k + 1))
            &&& whole[off + len(one)] != Token::Keyword(Keyword::Else)
        }),
{
    let n = ss.len();
    let all = stmts_tokens(ss, n);
    let whole = all + seq![Token::Operator(Operator::RightBrace)];
    let one = stmt_tokens(ss[k as int]);
    let off = len(stmts_tokens(ss, k));
    let upto = stmts_tokens(ss, k + 1);
    lemma_stmts_prefix(ss, k + 1, n);
    assert(upto == stmts_tokens(ss, k) + one);
    assert(upto.subrange(off, off + len(one)) =~= one);
    assert(all.subrange(0, len(upto)).subrange(off, off + len(one)) =~= all.subrange(
        off,
        off + len(one),
    ));
    assert(whole.subrange(off, off + len(one)) =~= all.subrange(off, off + len(one)));
    if k + 1 == n {
        assert(whole[len(all)] == Token::Operator(Operator::RightBrace));
    } else {
        lemma_stmts_prefix(ss, k + 2, n);
        let next = stmt_tokens(ss[(k + 1) as int]);
        lemma_first_stmt(ss[(k + 1) as int]);
        assert(stmts_tokens(ss, k + 2) == upto + next);
        assert(all.subrange(0, len(stmts_tokens(ss, k + 2)))[len(upto)] == all[len(upto)]);
        assert(whole[len(upto)] == next[0]);
    }
}

/// A statement that was printed is parsed as it is. Where it ends with
/// an `if` without `else`, no `else` may follow it.
pub proof fn lemma_stmt(t: Tokens, i: int, s: Spanned<StmtTree>)
    requires
        spells(t, i, stmt_tokens(s)),
        stmt_shaped(s, false),
        open_if(s) ==> !is_kw(t, i + stmt_tokens(s).len(), Keyword::Else),
    ensures
        reads_stmt(spec_stmt(t, i), s, i + stmt_tokens(s).len()),
        i < i + stmt_tokens(s).len() <= t.len(),
    decreases s, 1nat,
{
    lemma_first_stmt(s);
    let w = stmt_tokens(s);
    lemma_at(t, i, w, 0);
    match s.data {
        StmtTree::Block(b) => {
            lemma_block(t, i, b);
            let p = spec_block(t, i)->Ok_0;
            assert(spec_stmt(t, i) == Ok::<_, Spanned<SyntaxError>>(
                (Spanned { span: p.0.span, data: StmtTree::Block(p.0) }, p.1),
            ));
        },
        StmtTree::Empty => {},
        StmtTree::If(_, _, _) => lemma_if(t, i, s),
        StmtTree::While(_, _) => lemma_while(t, i, s),
        StmtTree::Expression(e) => {
            let b = expr_tokens(e);
            assert(w == b + seq![Token::Operator(Operator::Semicolon)]);
            lemma_first_expr(e);
            assert(w.subrange(0, len(b)) =~= b);
            lemma_part(t, i, w, 0, b);
            lemma_at(t, i, w, len(b));
            lemma_closed(t, i, e, Operator::Semicolon);
            let p = spec_closed(t, i, Operator::Semicolon)->Ok_0;
            assert(spec_stmt(t, i) == Ok::<_, Spanned<SyntaxError>>(
                (Spanned { span: span_of(t, i, p.1), data: StmtTree::Expression(p.0) }, p.1),
            ));
        },
        StmtTree::Return(None) => {
            assert(w =~= seq![
                Token::Keyword(Keyword::Return),
                Token::Operator(Operator::Semicolon),
            ]);
            lemma_at(t, i, w, 1);
        },
        StmtTree::Return(Some(e)) => {
            let b = expr_tokens(e);
            assert(w =~= seq![Token::Keyword(Keyword::Return)] + b + seq![
                Token::Operator(Operator::Semicolon),
            ]);
            lemma_first_expr(e);
            assert(w.subrange(1, 1 + len(b)) =~= b);
            lemma_part(t, i, w, 1, b);
            lemma_at(t, i, w, 1);
            lemma_at(t, i, w, 1 + len(b));
            lemma_closed(t, i + 1, e, Operator::Semicolon);
            let p = spec_closed(t, i + 1, Operator::Semicolon)->Ok_0;
            assert(spec_stmt(t, i) == Ok::<_, Spanned<SyntaxError>>(
                (Spanned { span: span_of(t, i, p.1), data: StmtTree::Return(Some(p.0)) }, p.1),
            ));
        },
        StmtTree::LocalVariableDeclaration(_, _, _) => {},
    }
}

proof fn lemma_if(t: Tokens, i: int, s: Spanned<StmtTree>)
    requires
        spells(t, i, stmt_tokens(s)),
        stmt_shaped(s, false),
        open_if(s) ==> !is_kw(t, i + stmt_tokens(s).len(), Keyword::Else),
        s.data is If,
    ensures
        reads_stmt(spec_stmt(t, i), s, i + stmt_tokens(s).len()),
    decreases s, 0nat,
{
    let c = s.data->If_0;
    let a = *s.data->If_1;
    let w = stmt_tokens(s);
    let head = condition_tokens(Keyword::If, c);
    let first = stmt_tokens(a);
    lemma_first_stmt(a);
    match s.data->If_2 {
        Some(bx) => {
            let b = *bx;
            let second = stmt_tokens(b);
            lemma_first_stmt(b);
            assert(w =~= head + first + seq![Token::Keyword(Keyword::Else)] + second);
            assert(w.subrange(0, len(head)) =~= head);
            lemma_part(t, i, w, 0, head);
            lemma_condition(t, i, Keyword::If, c);
            assert(w.subrange(len(head), len(head) + len(first)) =~= first);
            lemma_part(t, i, w, len(head), first);
            lemma_at(t, i, w, len(head) + len(first));
            assert(w.subrange(len(head) + len(first) + 1, len(w)) =~= second);
            lemma_part(t, i, w, len(head) + len(first) + 1, second);
            let j = i + len(head);
            lemma_stmt(t, j, a);
            let k = j + len(first);
            lemma_stmt(t, k + 1, b);
            let pc = spec_condition(t, i + 1)->Ok_0;
            let pa = spec_stmt(t, j)->Ok_0;
            let pb = spec_stmt(t, k + 1)->Ok_0;
            assert(spec_stmt(t, i) == Ok::<_, Spanned<SyntaxError>>(
                (
                    Spanned {
                        span: span_of(t, i, pb.1),
                        data: StmtTree::If(pc.0, Box::new(pa.0), Some(Box::new(pb.0))),
                    },
                    pb.1,
                ),
            ));
        },
        None => {
            assert(w =~= head + first);
            assert(w.subrange(0, len(head)) =~= head);
            lemma_part(t, i, w, 0, head);
            lemma_condition(t, i, Keyword::If, c);
            assert(w.subrange(len(head), len(head) + len(first)) =~= first);
            lemma_part(t, i, w, len(head), first);
            let j = i + len(head);
            lemma_stmt(t, j, a);
            let pc = spec_condition(t, i + 1)->Ok_0;
            let pa = spec_stmt(t, j)->Ok_0;
            assert(spec_stmt(t, i) == Ok::<_, Spanned<SyntaxError>>(
                (
                    Spanned {
                        span: span_of(t, i, pa.1),
                        data: StmtTree::If(pc.0, Box::new(pa.0), None),
                    },
                    pa.1,
                ),
            ));
        },
    }
}

proof fn lemma_while(t: Tokens, i: int, s: Spanned<StmtTree>)
    requires
        spells(t, i, stmt_tokens(s)),
        stmt_shaped(s, false),
        open_if(s) ==> !is_kw(t, i + stmt_tokens(s).len(), Keyword::Else),
        s.data is While,
    ensures
        reads_stmt(spec_stmt(t, i), s, i + stmt_tokens(s).len()),
    decreases s, 0nat,
{
    let c = s.data->While_0;
    let a = *s.data->While_1;
    let w = stmt_tokens(s);
    let head = condition_tokens(Keyword::While, c);
    let first = stmt_tokens(a);
    lemma_first_stmt(a);
    assert(w =~= head + first);
    assert(w.subrange(0, len(head)) =~= head);
    lemma_part(t, i, w, 0, head);
    lemma_condition(t, i, Keyword::While, c);
    assert(w.subrange(len(head), len(head) + len(first)) =~= first);
    lemma_part(t, i, w, len(head), first);
    let j = i + len(head);
    lemma_stmt(t, j, a);
    let pc = spec_condition(t, i + 1)->Ok_0;
    let pa = spec_stmt(t, j)->Ok_0;
    assert(spec_stmt(t, i) == Ok::<_, Spanned<SyntaxError>>(
        (
            Spanned { span: span_of(t, i, pa.1), data: StmtTree::While(pc.0, Box::new(pa.0)) },
            pa.1,
        ),
    ));
}

/// A declaration of a local variable that was printed is parsed as it
/// is.
proof fn lemma_declaration(t: Tokens, i: int, s: Spanned<StmtTree>)
    requires
        spells(t, i, stmt_tokens(s)),
        s.data is LocalVariableDeclaration,
    ensures
        reads_stmt(spec_declaration(t, i), s, i + stmt_tokens(s).len()),
        starts_declaration(t, i),
        i < i + stmt_tokens(s).len() <= t.len(),
{
    let ty = s.data->LocalVariableDeclaration_0;
    let n = s.data->LocalVariableDeclaration_1;
    let w = stmt_tokens(s);
    let a = type_tokens(ty.data);
    let semi = seq![Token::Operator(Operator::Semicolon)];
    match s.data->LocalVariableDeclaration_2 {
        Some(e) => {
            let b = expr_tokens(e);
            assert(w =~= a + seq![Token::Identifier(n), Token::Operator(Operator::Equal)] + b
                + semi);
            assert(w.subrange(0, len(a)) =~= a);
            lemma_part(t, i, w, 0, a);
            lemma_at(t, i, w, len(a));
            lemma_at(t, i, w, len(a) + 1);
            assert(w.subrange(len(a) + 2, len(a) + 2 + len(b)) =~= b);
            lemma_part(t, i, w, len(a) + 2, b);
            lemma_at(t, i, w, len(a) + 2 + len(b));
            lemma_type(t, i, ty.data);
            lemma_closed(t, i + len(a) + 2, e, Operator::Semicolon);
            let pt = spec_type(t, i)->Ok_0;
            let pe = spec_closed(t, i + len(a) + 2, Operator::Semicolon)->Ok_0;
            assert(spec_declaration(t, i) == Ok::<_, Spanned<SyntaxError>>(
                (
                    Spanned {
                        span: span_of(t, i, pe.1),
                        data: StmtTree::LocalVariableDeclaration(pt.0, n, Some(pe.0)),
                    },
                    pe.1,
                ),
            ));
        },
        None => {
            assert(w =~= a + seq![Token::Identifier(n)] + semi);
            assert(w.subrange(0, len(a)) =~= a);
            lemma_part(t, i, w, 0, a);
            lemma_at(t, i, w, len(a));
            lemma_at(t, i, w, len(a) + 1);
            lemma_type(t, i, ty.data);
            let pt = spec_type(t, i)->Ok_0;
            assert(spec_declaration(t, i) == Ok::<_, Spanned<SyntaxError>>(
                (
                    Spanned {
                        span: span_of(t, i, i + len(a) + 2),
                        data: StmtTree::LocalVariableDeclaration(pt.0, n, None),
                    },
                    i + len(a) + 2,
                ),
            ));
        },
    }
}

/// A statement of a block that was printed is parsed as it is.
pub proof fn lemma_block_stmt(t: Tokens, i: int, s: Spanned<StmtTree>)
    requires
        spells(t, i, stmt_tokens(s)),
        stmt_shaped(s, true),
        open_if(s) ==> !is_kw(t, i + stmt_tokens(s).len(), Keyword::Else),
    ensures
        reads_stmt(spec_block_stmt(t, i), s, i + stmt_tokens(s).len()),
        i < i + stmt_tokens(s).len() <= t.len(),
    decreases s, 2nat,
{
    let w = stmt_tokens(s);
    lemma_first_stmt(s);
    lemma_at(t, i, w, 0);
    match s.data {
        StmtTree::LocalVariableDeclaration(_, _, _) => {
            lemma_declaration(t, i, s);
        },
        StmtTree::Expression(e) => {
            let b = expr_tokens(e);
            lemma_first_expr(e);
            lemma_second_token(e);
            assert(w == b + seq![Token::Operator(Operator::Semicolon)]);
            assert(w[0] == b[0]);
            lemma_at(t, i, w, 1);
            if len(b) > 1 {
                assert(w[1] == b[1]);
                if len(b) > 2 {
                    lemma_at(t, i, w, 2);
                    assert(w[2] == b[2]);
                }
            }
            assert(!starts_declaration(t, i));
            lemma_stmt(t, i, s);
        },
        _ => {
            assert(!starts_declaration(t, i));
            lemma_stmt(t, i, s);
        },
    }
}

/// The statements of a block that were printed, from statement `k` on,
/// are parsed as they are.
pub proof fn lemma_stmts(
    t: Tokens,
    lo: int,
    ss: Seq<Spanned<StmtTree>>,
    k: nat,
    acc: Seq<Spanned<StmtTree>>,
)
    requires
        k <= ss.len(),
        spells(
            t,
            lo + 1,
            stmts_tokens(ss, ss.len()) + seq![Token::Operator(Operator::RightBrace)],
        ),
        forall|m: int| 0 <= m < ss.len() ==> stmt_shaped(ss[m], true),
        acc.len() == k,
        forall|m: int| 0 <= m < k ==> stmt_alike(ss[m], acc[m]),
    ensures
        reads_block(
            spec_stmts(t, lo, lo + 1 + stmts_tokens(ss, k).len(), acc),
            ss,
            lo + 2 + stmts_tokens(ss, ss.len()).len(),
        ),
    decreases ss, ss.len() - k,
{
    let n = ss.len();
    let all = stmts_tokens(ss, n);
    let whole = all + seq![Token::Operator(Operator::RightBrace)];
    let start = lo + 1 + len(stmts_tokens(ss, k));
    if k == n {
        lemma_at(t, lo + 1, whole, len(all));
    } else {
        let one = stmt_tokens(ss[k as int]);
        lemma_stmt_place(ss, k);
        lemma_first_stmt(ss[k as int]);
        lemma_part(t, lo + 1, whole, len(stmts_tokens(ss, k)), one);
        lemma_at(t, lo + 1, whole, len(stmts_tokens(ss, k)) + len(one));
        lemma_at(t, start, one, 0);
        lemma_block_stmt(t, start, ss[k as int]);
        let p = spec_block_stmt(t, start)->Ok_0;
        let more = acc.push(p.0);
        assert forall|m: int| 0 <= m < k + 1 implies stmt_alike(ss[m], more[m]) by {
            if m < k {
                assert(more[m] == acc[m]);
            }
        }
        lemma_stmts(t, lo, ss, k + 1, more);
    }
}

/// A block that was printed is parsed as it is.
pub proof fn lemma_block(t: Tokens, i: int, b: BlockTree)
    requires
        spells(t, i, block_tokens(b)),
        block_shaped(b),
    ensures
        reads_block(spec_block(t, i), b.data, i + block_tokens(b).len()),
        i < i + block_tokens(b).len() <= t.len(),
    decreases b.data, b.data.len() + 1,
{
    let all = stmts_tokens(b.data, b.data.len());
    let w = block_tokens(b);
    let rest = all + seq![Token::Operator(Operator::RightBrace)];
    assert(w =~= seq![Token::Operator(Operator::LeftBrace)] + rest);
    lemma_at(t, i, w, 0);
    assert(w.subrange(1, 1 + len(rest)) =~= rest);
    lemma_part(t, i, w, 1, rest);
    assert(stmts_tokens(b.data, 0) =~= Seq::<Token>::empty());
    lemma_stmts(t, i, b.data, 0, Seq::empty());
}

} // verus!

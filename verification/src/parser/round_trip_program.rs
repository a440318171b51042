//! Printing a program in normal form and parsing what was printed gives
//! the program again: the classes, their members, and the parameters of
//! the methods.
use super::grammar::{
    at, class_of, is_kw, is_op, name_at, span_of, spec_block, spec_body, spec_class, spec_classes,
    spec_member, spec_members, spec_method_rest, spec_param, spec_params, spec_params_rest,
    spec_parse, spec_type, Parsed, Tokens,
};
use super::round_trip::{
    lemma_at, lemma_basic_token, lemma_block, lemma_part, lemma_type, len, spells, stmts_alike,
};
use super::tree::{
    block_shaped, class_shaped, mains, member_shaped, program_mains, shaped, AstTree, BlockTree,
    ClassTree, MemberKindTree, MemberTree, ParamsTree,
};
use super::{SyntaxError, Token};
use crate::asciifile::Spanned;
use crate::ast::Parameter;
use crate::lexer::{Keyword, Operator};
use crate::print::pretty::{
    ast_tokens, basic_token, block_tokens, class_tokens, classes_tokens, member_tokens,
    members_tokens, param_tokens, params_list, params_tokens, type_tokens,
};
use vstd::prelude::*;

verus! {

/// Two parameters are the same but for their spans.
pub open spec fn param_alike(a: Spanned<Parameter>, b: Spanned<Parameter>) -> bool {
    a.data.ty.data == b.data.ty.data && a.data.name == b.data.name
}

pub open spec fn params_alike(a: Seq<Spanned<Parameter>>, b: Seq<Spanned<Parameter>>) -> bool {
    a.len() == b.len() && forall|k: int| 0 <= k < a.len() ==> param_alike(a[k], b[k])
}

/// Two class members are the same but for their spans.
pub open spec fn member_alike(a: Spanned<MemberTree>, b: Spanned<MemberTree>) -> bool {
    a.data.name == b.data.name && (match (a.data.kind, b.data.kind) {
        (MemberKindTree::Field(x), MemberKindTree::Field(y)) => x.data == y.data,
        (MemberKindTree::Method(x, ps, body), MemberKindTree::Method(y, qs, other)) => x.data
            == y.data && params_alike(ps.data, qs.data) && stmts_alike(body.data, other.data),
        (MemberKindTree::MainMethod(ps, body), MemberKindTree::MainMethod(qs, other)) =>
            params_alike(ps.data, qs.data) && stmts_alike(body.data, other.data),
        _ => false,
    })
}

pub open spec fn members_alike(a: Seq<Spanned<MemberTree>>, b: Seq<Spanned<MemberTree>>) -> bool {
    a.len() == b.len() && forall|k: int| 0 <= k < a.len() ==> member_alike(a[k], b[k])
}

/// Two classes are the same but for their spans.
pub open spec fn class_alike(a: Spanned<ClassTree>, b: Spanned<ClassTree>) -> bool {
    a.data.name == b.data.name && members_alike(a.data.members, b.data.members)
}

pub open spec fn classes_alike(a: Seq<Spanned<ClassTree>>, b: Seq<Spanned<ClassTree>>) -> bool {
    a.len() == b.len() && forall|k: int| 0 <= k < a.len() ==> class_alike(a[k], b[k])
}

/// Two syntax trees are the same but for their spans.
pub open spec fn ast_alike(a: AstTree, b: AstTree) -> bool {
    match (a, b) {
        (AstTree::Empty, AstTree::Empty) => true,
        (AstTree::Program(p), AstTree::Program(q)) => classes_alike(p.data, q.data),
        _ => false,
    }
}

/// A parameter that was printed is parsed as it is.
pub proof fn lemma_param(t: Tokens, i: int, p: Spanned<Parameter>)
    requires
        spells(t, i, param_tokens(p)),
    ensures
        spec_param(t, i) matches Ok(q) && q.1 == i + len(param_tokens(p)) && param_alike(p, q.0),
        len(param_tokens(p)) >= 2,
        i + len(param_tokens(p)) <= t.len(),
        !(param_tokens(p)[0] is Operator),
{
    let w = param_tokens(p);
    let a = type_tokens(p.data.ty.data);
    assert(w == a + seq![Token::Identifier(p.data.name)]);
    assert(w.subrange(0, len(a)) =~= a);
    lemma_part(t, i, w, 0, a);
    lemma_at(t, i, w, len(a));
    lemma_type(t, i, p.data.ty.data);
    lemma_basic_token(p.data.ty.data.basic);
    assert(w[0] == basic_token(p.data.ty.data.basic));
}

pub proof fn lemma_param_len(p: Spanned<Parameter>)
    ensures
        len(param_tokens(p)) >= 1,
        !(param_tokens(p)[0] is Operator),
{
    lemma_basic_token(p.data.ty.data.basic);
    assert(param_tokens(p)[0] == basic_token(p.data.ty.data.basic));
}

/// Where the first `k` of the parameters end in what is printed for
/// the first `n` of them.
pub proof fn lemma_params_prefix(ps: Seq<Spanned<Parameter>>, k: nat, n: nat)
    requires
        k <= n <= ps.len(),
    ensures
        params_list(ps, k).len() <= params_list(ps, n).len(),
        params_list(ps, n).subrange(0, len(params_list(ps, k))) == params_list(ps, k),
        0 < k < n ==> params_list(ps, n)[len(params_list(ps, k))] == Token::Operator(
            Operator::Comma,
        ),
        k < n ==> params_list(ps, k).len() < params_list(ps, n).len(),
    decreases n - k,
{
    if k < n {
        lemma_params_prefix(ps, k, (n - 1) as nat);
        lemma_param_len(ps[n - 1]);
        let shorter = params_list(ps, (n - 1) as nat);
        let whole = params_list(ps, n);
        if n == 1 {
            assert(shorter =~= Seq::<Token>::empty());
            assert(params_list(ps, k) =~= Seq::<Token>::empty());
            assert(whole.subrange(0, 0) =~= Seq::<Token>::empty());
        } else {
            assert(whole == shorter + seq![Token::Operator(Operator::Comma)] + param_tokens(
                ps[n - 1],
            ));
            assert(whole.subrange(0, len(params_list(ps, k))) =~= shorter.subrange(
                0,
                len(params_list(ps, k)),
            ));
            if 0 < k {
                if k < n - 1 {
                    assert(whole[len(params_list(ps, k))] == shorter[len(params_list(ps, k))]);
                } else {
                    assert(whole[len(shorter)] == Token::Operator(Operator::Comma));
                }
            }
        }
    } else {
        assert(params_list(ps, n).subrange(0, len(params_list(ps, n))) =~= params_list(ps, n));
    }
}

/// How far behind the first token of the parameters parameter `k`
/// starts.
pub open spec fn param_offset(ps: Seq<Spanned<Parameter>>, k: nat) -> int {
    if k == 0 {
        0
    } else {
        len(params_list(ps, k)) + 1
    }
}

/// Parameter `k` stands at its place in what is printed for the
/// parameters and the `)` behind them, and a `,` or the `)` follows it.
pub proof fn lemma_param_place(ps: Seq<Spanned<Parameter>>, k: nat)
    requires
        k < ps.len(),
    ensures
        ({
            let whole = params_list(ps, ps.len()) + seq![Token::Operator(Operator::RightParen)];
            let one = param_tokens(ps[k as int]);
            let off = param_offset(ps, k);
            &&& off + len(one) < len(whole)
            &&& whole.subrange(off, off + len(one)) == one
            &&& off + len(one) == len(params_list(ps, k + 1))
            &&& whole[off + len(one)] == Token::Operator(
                if k + 1 == ps.len() {
                    Operator::RightParen
                } else {
                    Operator::Comma
                },
            )
        }),
{
    let n = ps.len();
    let all = params_list(ps, n);
    let whole = all + seq![Token::Operator(Operator::RightParen)];
    let one = param_tokens(ps[k as int]);
    let off = param_offset(ps, k);
    let upto = params_list(ps, k + 1);
    lemma_params_prefix(ps, k + 1, n);
    if k == 0 {
        assert(upto == one);
    } else {
        assert(upto == params_list(ps, k) + seq![Token::Operator(Operator::Comma)] + one);
    }
    assert(upto.subrange(off, off + len(one)) =~= one);
    assert(all.subrange(0, len(upto)).subrange(off, off + len(one)) =~= all.subrange(
        off,
        off + len(one),
    ));
    assert(whole.subrange(off, off + len(one)) =~= all.subrange(off, off + len(one)));
    if k + 1 == n {
        assert(whole[len(all)] == Token::Operator(Operator::RightParen));
    } else {
        lemma_param_len(ps[k as int]);
        assert(len(upto) > 0);
        assert(whole[len(upto)] == all[len(upto)]);
    }
}

/// The parameters that were printed, from parameter `k` on, are parsed
/// as they are.
pub proof fn lemma_params_rest(
    t: Tokens,
    lo: int,
    ps: Seq<Spanned<Parameter>>,
    k: nat,
    acc: Seq<Spanned<Parameter>>,
)
    requires
        k < ps.len(),
        spells(
            t,
            lo + 1,
            params_list(ps, ps.len()) + seq![Token::Operator(Operator::RightParen)],
        ),
        acc.len() == k,
        forall|m: int| 0 <= m < k ==> param_alike(ps[m], acc[m]),
    ensures
        spec_params_rest(t, lo, lo + 1 + param_offset(ps, k), acc) matches Ok(q) && q.1 == lo + 2
            + len(params_list(ps, ps.len())) && params_alike(ps, q.0.data),
    decreases ps.len() - k,
{
    let n = ps.len();
    let whole = params_list(ps, n) + seq![Token::Operator(Operator::RightParen)];
    let one = param_tokens(ps[k as int]);
    let off = param_offset(ps, k);
    let start = lo + 1 + off;
    lemma_param_place(ps, k);
    lemma_part(t, lo + 1, whole, off, one);
    lemma_at(t, lo + 1, whole, off + len(one));
    lemma_param(t, start, ps[k as int]);
    let p = spec_param(t, start)->Ok_0;
    let more = acc.push(p.0);
    assert forall|m: int| 0 <= m < k + 1 implies param_alike(ps[m], more[m]) by {
        if m < k {
            assert(more[m] == acc[m]);
        }
    }
    if k + 1 < n {
        assert(p.1 + 1 == lo + 1 + param_offset(ps, k + 1));
        lemma_params_rest(t, lo, ps, k + 1, more);
    } else {
        assert(spec_params_rest(t, lo, start, acc) == Ok::<_, Spanned<SyntaxError>>(
            (Spanned { span: span_of(t, lo, p.1 + 1), data: more }, p.1 + 1),
        ));
    }
}

/// The parameters that were printed, in their parentheses, are parsed
/// as they are.
pub proof fn lemma_params(t: Tokens, i: int, ps: ParamsTree)
    requires
        spells(t, i, params_tokens(ps)),
    ensures
        spec_params(t, i) matches Ok(q) && q.1 == i + len(params_tokens(ps)) && params_alike(
            ps.data,
            q.0.data,
        ),
        i < i + len(params_tokens(ps)) <= t.len(),
{
    let all = params_list(ps.data, ps.data.len());
    let w = params_tokens(ps);
    assert(w == seq![Token::Operator(Operator::LeftParen)] + all + seq![
        Token::Operator(Operator::RightParen),
    ]);
    lemma_at(t, i, w, 0);
    lemma_at(t, i, w, 1);
    if ps.data.len() == 0 {
        assert(all =~= Seq::<Token>::empty());
        assert(spec_params(t, i) == Ok::<_, Spanned<SyntaxError>>(
            (Spanned { span: span_of(t, i, i + 2), data: Seq::<Spanned<Parameter>>::empty() }, i + 2),
        ));
    } else {
        let rest = all + seq![Token::Operator(Operator::RightParen)];
        assert(w.subrange(1, 1 + len(rest)) =~= rest);
        lemma_part(t, i, w, 1, rest);
        lemma_param_len(ps.data[0]);
        lemma_params_prefix(ps.data, 1, ps.data.len());
        assert(all[0] == param_tokens(ps.data[0])[0]) by {
            assert(all.subrange(0, len(params_list(ps.data, 1)))[0] == all[0]);
        }
        assert(w[1] == all[0]);
        lemma_params_rest(t, i, ps.data, 0, Seq::empty());
    }
}

/// The parameters and the body of a method that were printed are parsed
/// as they are.
pub proof fn lemma_method_rest(t: Tokens, i: int, ps: ParamsTree, body: BlockTree)
    requires
        spells(t, i, params_tokens(ps) + block_tokens(body)),
        block_shaped(body),
    ensures
        spec_method_rest(t, i) matches Ok(q) && q.1 == i + len(params_tokens(ps)) + len(
            block_tokens(body),
        ) && params_alike(ps.data, q.0.0.data) && stmts_alike(body.data, q.0.1.data),
        is_op(t, i, Operator::LeftParen),
        i + len(params_tokens(ps)) + len(block_tokens(body)) <= t.len(),
{
    let a = params_tokens(ps);
    let b = block_tokens(body);
    let w = a + b;
    assert(w.subrange(0, len(a)) =~= a);
    lemma_part(t, i, w, 0, a);
    assert(w.subrange(len(a), len(a) + len(b)) =~= b);
    lemma_part(t, i, w, len(a), b);
    lemma_at(t, i, a, 0);
    lemma_at(t, i + len(a), b, 0);
    lemma_params(t, i, ps);
    lemma_block(t, i + len(a), body);
    assert(spec_body(t, i + len(a)) == spec_block(t, i + len(a)));
}

/// A field that was printed is parsed as it is.
proof fn lemma_field_member(t: Tokens, i: int, m: Spanned<MemberTree>, had_main: bool)
    requires
        spells(t, i, member_tokens(m)),
        m.data.kind is Field,
    ensures
        spec_member(t, i, had_main) matches Ok(q) && q.1 == i + len(member_tokens(m))
            && member_alike(m, q.0),
        i < i + len(member_tokens(m)) <= t.len(),
{
    let w = member_tokens(m);
    let n = m.data.name;
    let ty = m.data.kind->Field_0;
    let a = type_tokens(ty.data);
    assert(w =~= seq![Token::Keyword(Keyword::Public)] + a + seq![
        Token::Identifier(n),
        Token::Operator(Operator::Semicolon),
    ]);
    lemma_basic_token(ty.data.basic);
    assert(w[1] == a[0]);
    lemma_at(t, i, w, 0);
    lemma_at(t, i, w, 1);
    assert(w.subrange(1, 1 + len(a)) =~= a);
    lemma_part(t, i, w, 1, a);
    lemma_at(t, i, w, 1 + len(a));
    lemma_at(t, i, w, 2 + len(a));
    lemma_type(t, i + 1, ty.data);
    lemma_typed_member(t, i, had_main);
}

/// A member with a type is a field where `;` follows its name, and a
/// method where `(` does.
proof fn lemma_typed_member(t: Tokens, i: int, had_main: bool)
    requires
        is_kw(t, i, Keyword::Public),
        !is_kw(t, i + 1, Keyword::Static),
        spec_type(t, i + 1) matches Ok(pt) && name_at(t, pt.1) is Some && (is_op(
            t,
            pt.1 + 1,
            Operator::Semicolon,
        ) || is_op(t, pt.1 + 1, Operator::LeftParen)),
    ensures
        ({
            let pt = spec_type(t, i + 1)->Ok_0;
            let n = name_at(t, pt.1)->0;
            spec_member(t, i, had_main) == (if is_op(t, pt.1 + 1, Operator::Semicolon) {
                Ok::<_, Spanned<SyntaxError>>(
                    (
                        Spanned {
                            span: span_of(t, i, pt.1 + 2),
                            data: MemberTree { kind: MemberKindTree::Field(pt.0), name: n },
                        },
                        pt.1 + 2,
                    ),
                )
            } else {
                match spec_method_rest(t, pt.1 + 1) {
                    Err(e) => Err(e),
                    Ok(pr) => Ok(
                        (
                            Spanned {
                                span: span_of(t, i, pr.1),
                                data: MemberTree {
                                    kind: MemberKindTree::Method(pt.0, pr.0.0, pr.0.1),
                                    name: n,
                                },
                            },
                            pr.1,
                        ),
                    ),
                }
            })
        }),
{
}

/// A method that was printed is parsed as it is.
proof fn lemma_method_member(t: Tokens, i: int, m: Spanned<MemberTree>, had_main: bool)
    requires
        spells(t, i, member_tokens(m)),
        member_shaped(m),
        m.data.kind is Method,
    ensures
        spec_member(t, i, had_main) matches Ok(q) && q.1 == i + len(member_tokens(m))
            && member_alike(m, q.0),
        i < i + len(member_tokens(m)) <= t.len(),
{
    let w = member_tokens(m);
    let n = m.data.name;
    let ty = m.data.kind->Method_0;
    let ps = m.data.kind->Method_1;
    let body = m.data.kind->Method_2;
    let a = type_tokens(ty.data);
    let rest = params_tokens(ps) + block_tokens(body);
    assert(w =~= seq![Token::Keyword(Keyword::Public)] + a + seq![Token::Identifier(n)] + rest);
    lemma_basic_token(ty.data.basic);
    assert(w[1] == a[0]);
    lemma_at(t, i, w, 0);
    lemma_at(t, i, w, 1);
    assert(w.subrange(1, 1 + len(a)) =~= a);
    lemma_part(t, i, w, 1, a);
    lemma_at(t, i, w, 1 + len(a));
    assert(w.subrange(2 + len(a), 2 + len(a) + len(rest)) =~= rest);
    lemma_part(t, i, w, 2 + len(a), rest);
    lemma_type(t, i + 1, ty.data);
    lemma_method_rest(t, i + 2 + len(a), ps, body);
    lemma_typed_member(t, i, had_main);
}

/// The main method is what follows `public static void` and a name.
proof fn lemma_static_member(t: Tokens, i: int)
    requires
        is_kw(t, i, Keyword::Public),
        is_kw(t, i + 1, Keyword::Static),
        is_kw(t, i + 2, Keyword::Void),
        name_at(t, i + 3) is Some,
    ensures
        spec_member(t, i, false) == (match spec_method_rest(t, i + 4) {
            Err(e) => Err::<_, Spanned<SyntaxError>>(e),
            Ok(pr) => Ok(
                (
                    Spanned {
                        span: span_of(t, i, pr.1),
                        data: MemberTree {
                            kind: MemberKindTree::MainMethod(pr.0.0, pr.0.1),
                            name: name_at(t, i + 3)->0,
                        },
                    },
                    pr.1,
                ),
            ),
        }),
{
}

/// The main method that was printed is parsed as it is.
proof fn lemma_main_member(t: Tokens, i: int, m: Spanned<MemberTree>)
    requires
        spells(t, i, member_tokens(m)),
        member_shaped(m),
        m.data.kind is MainMethod,
    ensures
        spec_member(t, i, false) matches Ok(q) && q.1 == i + len(member_tokens(m))
            && member_alike(m, q.0),
        i < i + len(member_tokens(m)) <= t.len(),
{
    let w = member_tokens(m);
    let n = m.data.name;
    let ps = m.data.kind->MainMethod_0;
    let body = m.data.kind->MainMethod_1;
    let rest = params_tokens(ps) + block_tokens(body);
    assert(w =~= seq![
        Token::Keyword(Keyword::Public),
        Token::Keyword(Keyword::Static),
        Token::Keyword(Keyword::Void),
        Token::Identifier(n),
    ] + rest);
    lemma_at(t, i, w, 0);
    lemma_at(t, i, w, 1);
    lemma_at(t, i, w, 2);
    lemma_at(t, i, w, 3);
    assert(w.subrange(4, 4 + len(rest)) =~= rest);
    lemma_part(t, i, w, 4, rest);
    lemma_method_rest(t, i + 4, ps, body);
    lemma_static_member(t, i);
}

/// A class member that was printed is parsed as it is. For the main
/// method no main method may have been parsed before.
pub proof fn lemma_member(t: Tokens, i: int, m: Spanned<MemberTree>, had_main: bool)
    requires
        spells(t, i, member_tokens(m)),
        member_shaped(m),
        m.data.kind is MainMethod ==> !had_main,
    ensures
        spec_member(t, i, had_main) matches Ok(q) && q.1 == i + len(member_tokens(m))
            && member_alike(m, q.0),
        i < i + len(member_tokens(m)) <= t.len(),
{
    match m.data.kind {
        MemberKindTree::Field(_) => lemma_field_member(t, i, m, had_main),
        MemberKindTree::Method(_, _, _) => lemma_method_member(t, i, m, had_main),
        MemberKindTree::MainMethod(_, _) => lemma_main_member(t, i, m),
    }
}

pub proof fn lemma_member_len(m: Spanned<MemberTree>)
    ensures
        len(member_tokens(m)) >= 1,
        member_tokens(m)[0] == Token::Keyword(Keyword::Public),
{
}

/// Where the first `k` of the members end in what is printed for the
/// first `n` of them.
pub proof fn lemma_members_prefix(ms: Seq<Spanned<MemberTree>>, k: nat, n: nat)
    requires
        k <= n <= ms.len(),
    ensures
        members_tokens(ms, k).len() <= members_tokens(ms, n).len(),
        members_tokens(ms, n).subrange(0, len(members_tokens(ms, k))) == members_tokens(ms, k),
        mains(ms, k) <= mains(ms, n),
    decreases n - k,
{
    if k < n {
        lemma_members_prefix(ms, k, (n - 1) as nat);
        let shorter = members_tokens(ms, (n - 1) as nat);
        let whole = members_tokens(ms, n);
        assert(whole == shorter + member_tokens(ms[n - 1]));
        assert(whole.subrange(0, len(members_tokens(ms, k))) =~= shorter.subrange(
            0,
            len(members_tokens(ms, k)),
        ));
    } else {
        assert(members_tokens(ms, n).subrange(0, len(members_tokens(ms, n))) =~= members_tokens(
            ms,
            n,
        ));
    }
}

/// Member `k` stands at its place in what is printed for the members
/// and the `}` behind them.
pub proof fn lemma_member_place(ms: Seq<Spanned<MemberTree>>, k: nat)
    requires
        k < ms.len(),
    ensures
        ({
            let whole = members_tokens(ms, ms.len()) + seq![Token::Operator(Operator::RightBrace)];
            let one = member_tokens(ms[k as int]);
            let off = len(members_tokens(ms, k));
            &&& off + len(one) < len(whole)
            &&& whole.subrange(off, off + len(one)) == one
            &&& off + len(one) == len(members_tokens(ms, k + 1))
        }),
{
    let n = ms.len();
    let all = members_tokens(ms, n);
    let whole = all + seq![Token::Operator(Operator::RightBrace)];
    let one = member_tokens(ms[k as int]);
    let off = len(members_tokens(ms, k));
    let upto = members_tokens(ms, k + 1);
    lemma_members_prefix(ms, k + 1, n);
    assert(upto == members_tokens(ms, k) + one);
    assert(upto.subrange(off, off + len(one)) =~= one);
    assert(all.subrange(0, len(upto)).subrange(off, off + len(one)) =~= all.subrange(
        off,
        off + len(one),
    ));
    assert(whole.subrange(off, off + len(one)) =~= all.subrange(off, off + len(one)));
}

/// The members of a class that were printed, from member `k` on, are
/// parsed as they are. `before` says whether a class before this one has
/// the main method.
pub proof fn lemma_members(
    t: Tokens,
    first: int,
    ms: Seq<Spanned<MemberTree>>,
    k: nat,
    acc: Seq<Spanned<MemberTree>>,
    before: bool,
)
    requires
        k <= ms.len(),
        spells(
            t,
            first,
            members_tokens(ms, ms.len()) + seq![Token::Operator(Operator::RightBrace)],
        ),
        forall|m: int| 0 <= m < ms.len() ==> member_shaped(#[trigger] ms[m]),
        acc.len() == k,
        forall|m: int| 0 <= m < k ==> member_alike(ms[m], acc[m]),
        mains(ms, ms.len()) + (if before {
            1int
        } else {
            0int
        }) <= 1,
    ensures
        spec_members(t, first + len(members_tokens(ms, k)), before || mains(ms, k) > 0, acc)
            matches Ok(q) && q.1 == first + len(members_tokens(ms, ms.len())) + 1 && members_alike(
            ms,
            q.0.0,
        ) && q.0.1 == (before || mains(ms, ms.len()) > 0),
    decreases ms.len() - k,
{
    let n = ms.len();
    let all = members_tokens(ms, n);
    let whole = all + seq![Token::Operator(Operator::RightBrace)];
    let start = first + len(members_tokens(ms, k));
    let flag = before || mains(ms, k) > 0;
    if k == n {
        lemma_at(t, first, whole, len(all));
    } else {
        let one = member_tokens(ms[k as int]);
        lemma_member_place(ms, k);
        lemma_member_len(ms[k as int]);
        lemma_members_prefix(ms, k + 1, n);
        lemma_part(t, first, whole, len(members_tokens(ms, k)), one);
        lemma_at(t, start, one, 0);
        assert(member_shaped(ms[k as int]));
        lemma_member(t, start, ms[k as int], flag);
        let p = spec_member(t, start, flag)->Ok_0;
        let more = acc.push(p.0);
        assert forall|m: int| 0 <= m < k + 1 implies member_alike(ms[m], more[m]) by {
            if m < k {
                assert(more[m] == acc[m]);
            }
        }
        assert((flag || p.0.data.kind is MainMethod) == (before || mains(ms, k + 1) > 0));
        lemma_members(t, first, ms, k + 1, more, before);
    }
}

/// A class that was printed is parsed as it is.
pub proof fn lemma_class(t: Tokens, i: int, c: Spanned<ClassTree>, before: bool)
    requires
        spells(t, i, class_tokens(c)),
        class_shaped(c),
        mains(c.data.members, c.data.members.len()) + (if before {
            1int
        } else {
            0int
        }) <= 1,
    ensures
        spec_class(t, i, before) matches Ok(q) && q.1 == i + len(class_tokens(c)) && class_alike(
            c,
            q.0.0,
        ) && q.0.1 == (before || mains(c.data.members, c.data.members.len()) > 0),
        i < i + len(class_tokens(c)) <= t.len(),
{
    let ms = c.data.members;
    let all = members_tokens(ms, ms.len());
    let w = class_tokens(c);
    let rest = all + seq![Token::Operator(Operator::RightBrace)];
    assert(w =~= seq![
        Token::Keyword(Keyword::Class),
        Token::Identifier(c.data.name),
        Token::Operator(Operator::LeftBrace),
    ] + rest);
    lemma_at(t, i, w, 0);
    lemma_at(t, i, w, 1);
    lemma_at(t, i, w, 2);
    assert(w.subrange(3, 3 + len(rest)) =~= rest);
    lemma_part(t, i, w, 3, rest);
    assert(members_tokens(ms, 0) =~= Seq::<Token>::empty());
    lemma_members(t, i + 3, ms, 0, Seq::empty(), before);
}

/// Where the first `k` of the classes end in what is printed for the
/// first `n` of them.
pub proof fn lemma_classes_prefix(cs: Seq<Spanned<ClassTree>>, k: nat, n: nat)
    requires
        k <= n <= cs.len(),
    ensures
        classes_tokens(cs, k).len() <= classes_tokens(cs, n).len(),
        classes_tokens(cs, n).subrange(0, len(classes_tokens(cs, k))) == classes_tokens(cs, k),
        program_mains(cs, k) <= program_mains(cs, n),
    decreases n - k,
{
    if k < n {
        lemma_classes_prefix(cs, k, (n - 1) as nat);
        let shorter = classes_tokens(cs, (n - 1) as nat);
        let whole = classes_tokens(cs, n);
        assert(whole == shorter + class_tokens(cs[n - 1]));
        assert(whole.subrange(0, len(classes_tokens(cs, k))) =~= shorter.subrange(
            0,
            len(classes_tokens(cs, k)),
        ));
    } else {
        assert(classes_tokens(cs, n).subrange(0, len(classes_tokens(cs, n))) =~= classes_tokens(
            cs,
            n,
        ));
    }
}

/// Class `k` stands at its place in what is printed for the classes.
pub proof fn lemma_class_place(cs: Seq<Spanned<ClassTree>>, k: nat)
    requires
        k < cs.len(),
    ensures
        ({
            let whole = classes_tokens(cs, cs.len());
            let one = class_tokens(cs[k as int]);
            let off = len(classes_tokens(cs, k));
            &&& off + len(one) <= len(whole)
            &&& whole.subrange(off, off + len(one)) == one
            &&& off + len(one) == len(classes_tokens(cs, k + 1))
            &&& len(one) >= 1
        }),
{
    let n = cs.len();
    let whole = classes_tokens(cs, n);
    let one = class_tokens(cs[k as int]);
    let off = len(classes_tokens(cs, k));
    let upto = classes_tokens(cs, k + 1);
    lemma_classes_prefix(cs, k + 1, n);
    assert(upto == classes_tokens(cs, k) + one);
    assert(upto.subrange(off, off + len(one)) =~= one);
    assert(whole.subrange(0, len(upto)).subrange(off, off + len(one)) =~= whole.subrange(
        off,
        off + len(one),
    ));
}

/// The classes that were printed, from class `k` on, are parsed as
/// they are.
pub proof fn lemma_classes(
    t: Tokens,
    cs: Seq<Spanned<ClassTree>>,
    k: nat,
    acc: Seq<Spanned<ClassTree>>,
)
    requires
        k <= cs.len(),
        spells(t, 0, classes_tokens(cs, cs.len())),
        t.len() == classes_tokens(cs, cs.len()).len(),
        forall|m: int| 0 <= m < cs.len() ==> class_shaped(#[trigger] cs[m]),
        program_mains(cs, cs.len()) <= 1,
        acc.len() == k,
        forall|m: int| 0 <= m < k ==> class_alike(cs[m], acc[m]),
    ensures
        spec_classes(t, len(classes_tokens(cs, k)), program_mains(cs, k) > 0, acc) matches Ok(q)
            && classes_alike(cs, q),
    decreases cs.len() - k,
{
    let n = cs.len();
    let start = len(classes_tokens(cs, k));
    let flag = program_mains(cs, k) > 0;
    if k < n {
        let one = class_tokens(cs[k as int]);
        lemma_class_place(cs, k);
        lemma_classes_prefix(cs, k + 1, n);
        lemma_part(t, 0, classes_tokens(cs, n), start, one);
        assert(class_shaped(cs[k as int]));
        lemma_class(t, start, cs[k as int], flag);
        let p = spec_class(t, start, flag)->Ok_0;
        let more = acc.push(p.0.0);
        assert forall|m: int| 0 <= m < k + 1 implies class_alike(cs[m], more[m]) by {
            if m < k {
                assert(more[m] == acc[m]);
            }
        }
        assert(p.0.1 == (program_mains(cs, k + 1) > 0));
        lemma_classes(t, cs, k + 1, more);
    }
}

/// The law of printing and parsing: where `a` is a tree as the parser
/// gives it, and the tokens `t` are those of `a` in normal form, with
/// whatever spans, parsing `t` gives `a` again but for the spans.
pub proof fn lemma_round_trip(a: AstTree, t: Tokens)
    requires
        shaped(a),
        spells(t, 0, ast_tokens(a)),
        t.len() == ast_tokens(a).len(),
    ensures
        spec_parse(t) matches Ok(b) && ast_alike(a, b),
{
    match a {
        AstTree::Empty => {},
        AstTree::Program(p) => {
            lemma_class_place(p.data, 0);
            lemma_classes_prefix(p.data, 1, p.data.len());
            assert(classes_tokens(p.data, 0) =~= Seq::<Token>::empty());
            lemma_classes(t, p.data, 0, Seq::empty());
        },
    }
}

} // verus!

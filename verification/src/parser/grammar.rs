//! The grammar of MiniJava, as functions from a sequence of tokens and a
//! place in it to the tree that is read from there and the place behind
//! it, or to the first error.
use super::tree::{
    AstTree, BlockTree, ClassTree, ExprTree, MemberKindTree, MemberTree, ParamsTree, StmtTree,
};
use super::{Expected, SyntaxError, Token};
use crate::asciifile::{Position, Span, Spanned};
use crate::ast::{BasicType, BinaryOp, Parameter, Type, UnaryOp};
use crate::lexer::{Keyword, Operator};
use crate::strtab::Symbol;
use vstd::prelude::*;

verus! {

pub type Tokens = Seq<Spanned<Token>>;

/// What was read, and the index of the token behind it.
pub type Parsed<T> = Result<(T, int), Spanned<SyntaxError>>;

/// The token at index `i`, if there is one.
pub open spec fn at(t: Tokens, i: int) -> Option<Token> {
    if 0 <= i < t.len() {
        Some(t[i].data)
    } else {
        None
    }
}

pub open spec fn is_op(t: Tokens, i: int, op: Operator) -> bool {
    at(t, i) == Some(Token::Operator(op))
}

pub open spec fn is_kw(t: Tokens, i: int, kw: Keyword) -> bool {
    at(t, i) == Some(Token::Keyword(kw))
}

/// The name at index `i`, if an identifier stands there.
pub open spec fn name_at(t: Tokens, i: int) -> Option<Symbol> {
    match at(t, i) {
        Some(Token::Identifier(s)) => Some(s),
        _ => None,
    }
}

/// The span of the last token. At the first character where there is no
/// token.
pub open spec fn end_span(t: Tokens) -> Span {
    if t.len() > 0 {
        t[t.len() - 1].span
    } else {
        let p = Position { row: 0, col: 0, byte_offset: 0 };
        Span { start: p, end: p }
    }
}

/// The error for a token at index `i` that is none of those that may
/// stand there, or for the end of the tokens at `i`.
pub open spec fn spec_error(t: Tokens, i: int, expected: Expected) -> Spanned<SyntaxError> {
    if 0 <= i < t.len() {
        Spanned {
            span: t[i].span,
            data: SyntaxError::UnexpectedToken { expected, found: t[i].data },
        }
    } else {
        Spanned { span: end_span(t), data: SyntaxError::UnexpectedEOF }
    }
}

/// The span from the start of token `lo` to the end of the token before
/// `hi`.
pub open spec fn span_of(t: Tokens, lo: int, hi: int) -> Span {
    Span { start: t[lo].span.start, end: t[hi - 1].span.end }
}

/// The node for what was read from the tokens `lo` up to `hi`.
pub open spec fn node<T>(t: Tokens, lo: int, hi: int, data: T) -> Parsed<Spanned<T>> {
    Ok((Spanned { span: span_of(t, lo, hi), data }, hi))
}

/// The basic type that the token at index `i` names.
pub open spec fn spec_basic(t: Tokens, i: int) -> Option<BasicType> {
    match at(t, i) {
        Some(Token::Keyword(Keyword::Int)) => Some(BasicType::Int),
        Some(Token::Keyword(Keyword::Boolean)) => Some(BasicType::Boolean),
        Some(Token::Keyword(Keyword::Void)) => Some(BasicType::Void),
        Some(Token::Identifier(s)) => Some(BasicType::Custom(s)),
        _ => None,
    }
}

/// How many times `[` `]` stands at index `i`.
pub open spec fn spec_dims(t: Tokens, i: int) -> nat
    decreases t.len() - i,
{
    if is_op(t, i, Operator::LeftBracket) && is_op(t, i + 1, Operator::RightBracket) {
        1 + spec_dims(t, i + 2)
    } else {
        0
    }
}

/// A type: a basic type and every `[` `]` that follows it.
pub open spec fn spec_type(t: Tokens, i: int) -> Parsed<Spanned<Type>> {
    match spec_basic(t, i) {
        Some(basic) => {
            let n = spec_dims(t, i + 1);
            node(t, i, i + 1 + 2 * n, Type { basic, array_depth: n as u64 })
        },
        None => Err(spec_error(t, i, Expected::Type)),
    }
}

/// The binary operator that a token stands for.
pub open spec fn binary_op(tok: Option<Token>) -> Option<BinaryOp> {
    match tok {
        Some(Token::Operator(Operator::Equal)) => Some(BinaryOp::Assign),
        Some(Token::Operator(Operator::DoubleEqual)) => Some(BinaryOp::Equals),
        Some(Token::Operator(Operator::ExclaimEqual)) => Some(BinaryOp::NotEquals),
        Some(Token::Operator(Operator::LeftChevron)) => Some(BinaryOp::LessThan),
        Some(Token::Operator(Operator::RightChevron)) => Some(BinaryOp::GreaterThan),
        Some(Token::Operator(Operator::LeftChevronEqual)) => Some(BinaryOp::LessEquals),
        Some(Token::Operator(Operator::RightChevronEqual)) => Some(BinaryOp::GreaterEquals),
        Some(Token::Operator(Operator::DoublePipe)) => Some(BinaryOp::LogicalOr),
        Some(Token::Operator(Operator::DoubleAmpersand)) => Some(BinaryOp::LogicalAnd),
        Some(Token::Operator(Operator::Plus)) => Some(BinaryOp::Add),
        Some(Token::Operator(Operator::Minus)) => Some(BinaryOp::Sub),
        Some(Token::Operator(Operator::Star)) => Some(BinaryOp::Mul),
        Some(Token::Operator(Operator::Slash)) => Some(BinaryOp::Div),
        Some(Token::Operator(Operator::Percent)) => Some(BinaryOp::Mod),
        _ => None,
    }
}

/// How tightly a binary operator binds: the higher, the tighter.
pub open spec fn precedence(op: BinaryOp) -> nat {
    match op {
        BinaryOp::Assign => 1,
        BinaryOp::LogicalOr => 2,
        BinaryOp::LogicalAnd => 3,
        BinaryOp::Equals | BinaryOp::NotEquals => 4,
        BinaryOp::LessThan | BinaryOp::GreaterThan | BinaryOp::LessEquals
        | BinaryOp::GreaterEquals => 5,
        BinaryOp::Add | BinaryOp::Sub => 6,
        BinaryOp::Mul | BinaryOp::Div | BinaryOp::Mod => 7,
    }
}

/// The least precedence of an operator in the right operand of `op`
/// that is not in parentheses. An assignment groups to the right, every
/// other operator to the left.
pub open spec fn right_min(op: BinaryOp) -> nat {
    if op == BinaryOp::Assign {
        1
    } else {
        precedence(op) + 1
    }
}

/// The least precedence there is: that of an expression.
pub open spec fn lowest() -> nat {
    1
}

/// `new name()` or `new basic[size]` with every `[` `]` that follows, where
/// `new` stands at index `i`.
pub open spec fn spec_new(t: Tokens, i: int) -> Parsed<Spanned<ExprTree>>
    decreases t.len() - i, 0nat,
{
    if name_at(t, i + 1) is Some && is_op(t, i + 2, Operator::LeftParen) {
        if is_op(t, i + 3, Operator::RightParen) {
            node(t, i, i + 4, ExprTree::NewObject(name_at(t, i + 1)->0))
        } else {
            Err(spec_error(t, i + 3, Expected::Operator(Operator::RightParen)))
        }
    } else {
        match spec_basic(t, i + 1) {
            None => Err(spec_error(t, i + 1, Expected::Type)),
            Some(basic) => if !is_op(t, i + 2, Operator::LeftBracket) {
                Err(spec_error(t, i + 2, Expected::Operator(Operator::LeftBracket)))
            } else if i < 0 {
                Err(spec_error(t, i, Expected::Expression))
            } else {
                match spec_binary(t, i + 3, lowest()) {
                    Err(e) => Err(e),
                    Ok((size, j)) => if is_op(t, j, Operator::RightBracket) {
                        let n = spec_dims(t, j + 1);
                        node(
                            t,
                            i,
                            j + 1 + 2 * n,
                            ExprTree::NewArray(basic, Box::new(size), n as u64),
                        )
                    } else {
                        Err(spec_error(t, j, Expected::Operator(Operator::RightBracket)))
                    },
                }
            },
        }
    }
}

/// A primary expression: a literal, a name, a call of a method of this
/// object, `this`, an expression in parentheses, or a `new` expression.
pub open spec fn spec_primary(t: Tokens, i: int) -> Parsed<Spanned<ExprTree>>
    decreases t.len() - i, 1nat,
{
    match at(t, i) {
        Some(Token::Keyword(Keyword::Null)) => node(t, i, i + 1, ExprTree::Null),
        Some(Token::Keyword(Keyword::False)) => node(t, i, i + 1, ExprTree::Boolean(false)),
        Some(Token::Keyword(Keyword::True)) => node(t, i, i + 1, ExprTree::Boolean(true)),
        Some(Token::Keyword(Keyword::This)) => node(t, i, i + 1, ExprTree::This),
        Some(Token::IntegerLiteral(s)) => node(t, i, i + 1, ExprTree::Int(s)),
        Some(Token::Identifier(s)) => if is_op(t, i + 1, Operator::LeftParen) {
            match spec_args(t, i + 1) {
                Err(e) => Err(e),
                Ok((args, j)) => node(t, i, j, ExprTree::ThisMethodInvocation(s, args)),
            }
        } else {
            node(t, i, i + 1, ExprTree::Var(s))
        },
        Some(Token::Operator(Operator::LeftParen)) => match spec_binary(t, i + 1, lowest()) {
            Err(e) => Err(e),
            Ok((e, j)) => if is_op(t, j, Operator::RightParen) {
                node(t, i, j + 1, e.data)
            } else {
                Err(spec_error(t, j, Expected::Operator(Operator::RightParen)))
            },
        },
        Some(Token::Keyword(Keyword::New)) => spec_new(t, i),
        _ => Err(spec_error(t, i, Expected::Expression)),
    }
}

/// The arguments of a call, with their parentheses: `(` stands at index
/// `i`.
pub open spec fn spec_args(t: Tokens, i: int) -> Parsed<Spanned<Seq<Spanned<ExprTree>>>>
    decreases t.len() - i, 7nat,
{
    if !is_op(t, i, Operator::LeftParen) {
        Err(spec_error(t, i, Expected::Operator(Operator::LeftParen)))
    } else if is_op(t, i + 1, Operator::RightParen) {
        node(t, i, i + 2, Seq::empty())
    } else {
        spec_args_rest(t, i, i + 1, Seq::empty())
    }
}

/// The arguments from index `j` on, after the arguments `acc` of the
/// list that starts at `lo`.
pub open spec fn spec_args_rest(
    t: Tokens,
    lo: int,
    j: int,
    acc: Seq<Spanned<ExprTree>>,
) -> Parsed<Spanned<Seq<Spanned<ExprTree>>>>
    decreases t.len() - j, 6nat,
{
    match spec_binary(t, j, lowest()) {
        Err(e) => Err(e),
        Ok((e, k)) => if is_op(t, k, Operator::Comma) && k >= j {
            spec_args_rest(t, lo, k + 1, acc.push(e))
        } else if is_op(t, k, Operator::RightParen) {
            node(t, lo, k + 1, acc.push(e))
        } else {
            Err(spec_error(t, k, Expected::Operator(Operator::RightParen)))
        },
    }
}

/// The accesses and calls that follow the expression `lhs`, which was
/// read from the tokens `lo` up to `j`. They group to the left.
pub open spec fn spec_postfix_ops(t: Tokens, lo: int, j: int, lhs: Spanned<ExprTree>) -> Parsed<
    Spanned<ExprTree>,
>
    decreases t.len() - j, 0nat,
{
    if is_op(t, j, Operator::Dot) {
        match name_at(t, j + 1) {
            None => Err(spec_error(t, j + 1, Expected::Identifier)),
            Some(name) => if is_op(t, j + 2, Operator::LeftParen) {
                match spec_args(t, j + 2) {
                    Err(e) => Err(e),
                    Ok((args, k)) => {
                        let call = Spanned {
                            span: span_of(t, lo, k),
                            data: ExprTree::MethodInvocation(Box::new(lhs), name, args),
                        };
                        if j < k <= t.len() {
                            spec_postfix_ops(t, lo, k, call)
                        } else {
                            Ok((call, k))
                        }
                    },
                }
            } else {
                spec_postfix_ops(
                    t,
                    lo,
                    j + 2,
                    Spanned {
                        span: span_of(t, lo, j + 2),
                        data: ExprTree::FieldAccess(Box::new(lhs), name),
                    },
                )
            },
        }
    } else if is_op(t, j, Operator::LeftBracket) {
        match spec_binary(t, j + 1, lowest()) {
            Err(e) => Err(e),
            Ok((index, k)) => if is_op(t, k, Operator::RightBracket) && k >= j {
                spec_postfix_ops(
                    t,
                    lo,
                    k + 1,
                    Spanned {
                        span: span_of(t, lo, k + 1),
                        data: ExprTree::ArrayAccess(Box::new(lhs), Box::new(index)),
                    },
                )
            } else {
                Err(spec_error(t, k, Expected::Operator(Operator::RightBracket)))
            },
        }
    } else {
        Ok((lhs, j))
    }
}

/// A primary expression with the accesses and calls that follow it.
pub open spec fn spec_postfix(t: Tokens, i: int) -> Parsed<Spanned<ExprTree>>
    decreases t.len() - i, 2nat,
{
    match spec_primary(t, i) {
        Err(e) => Err(e),
        Ok((p, j)) => if i < j <= t.len() {
            spec_postfix_ops(t, i, j, p)
        } else {
            Ok((p, j))
        },
    }
}

/// A postfix expression with the `!` and `-` before it. A `-` directly
/// before a literal belongs to the literal.
pub open spec fn spec_unary(t: Tokens, i: int) -> Parsed<Spanned<ExprTree>>
    decreases t.len() - i, 3nat,
{
    if is_op(t, i, Operator::Exclaim) {
        match spec_unary(t, i + 1) {
            Err(e) => Err(e),
            Ok((x, j)) => node(t, i, j, ExprTree::Unary(UnaryOp::Not, Box::new(x))),
        }
    } else if is_op(t, i, Operator::Minus) {
        match at(t, i + 1) {
            Some(Token::IntegerLiteral(s)) => spec_postfix_ops(
                t,
                i,
                i + 2,
                Spanned { span: span_of(t, i, i + 2), data: ExprTree::NegInt(s) },
            ),
            _ => match spec_unary(t, i + 1) {
                Err(e) => Err(e),
                Ok((x, j)) => node(t, i, j, ExprTree::Unary(UnaryOp::Neg, Box::new(x))),
            },
        }
    } else {
        spec_postfix(t, i)
    }
}

/// An expression in which no operator outside parentheses binds less
/// tightly than `min`.
pub open spec fn spec_binary(t: Tokens, i: int, min: nat) -> Parsed<Spanned<ExprTree>>
    decreases t.len() - i, 4nat,
{
    match spec_unary(t, i) {
        Err(e) => Err(e),
        Ok((lhs, j)) => if i < j <= t.len() {
            spec_binary_rest(t, i, j, lhs, min)
        } else {
            Ok((lhs, j))
        },
    }
}

/// The operators and right operands that follow the expression `lhs`,
/// which was read from the tokens `lo` up to `j`.
pub open spec fn spec_binary_rest(
    t: Tokens,
    lo: int,
    j: int,
    lhs: Spanned<ExprTree>,
    min: nat,
) -> Parsed<Spanned<ExprTree>>
    decreases t.len() - j, 0nat,
{
    match binary_op(at(t, j)) {
        Some(op) => if precedence(op) >= min {
            match spec_binary(t, j + 1, right_min(op)) {
                Err(e) => Err(e),
                Ok((rhs, k)) => {
                    let both = Spanned {
                        span: span_of(t, lo, k),
                        data: ExprTree::Binary(op, Box::new(lhs), Box::new(rhs)),
                    };
                    if j < k <= t.len() {
                        spec_binary_rest(t, lo, k, both, min)
                    } else {
                        Ok((both, k))
                    }
                },
            }
        } else {
            Ok((lhs, j))
        },
        None => Ok((lhs, j)),
    }
}

/// An expression.
pub open spec fn spec_expr(t: Tokens, i: int) -> Parsed<Spanned<ExprTree>> {
    spec_binary(t, i, lowest())
}

/// An expression and the token `close` behind it.
pub open spec fn spec_closed(t: Tokens, i: int, close: Operator) -> Parsed<Spanned<ExprTree>> {
    match spec_expr(t, i) {
        Err(e) => Err(e),
        Ok((e, j)) => if is_op(t, j, close) {
            Ok((e, j + 1))
        } else {
            Err(spec_error(t, j, Expected::Operator(close)))
        },
    }
}

/// The condition of an `if` or a `while`, in its parentheses, where `(`
/// is to stand at index `i`.
pub open spec fn spec_condition(t: Tokens, i: int) -> Parsed<Spanned<ExprTree>> {
    if is_op(t, i, Operator::LeftParen) {
        spec_closed(t, i + 1, Operator::RightParen)
    } else {
        Err(spec_error(t, i, Expected::Operator(Operator::LeftParen)))
    }
}

/// A statement.
pub open spec fn spec_stmt(t: Tokens, i: int) -> Parsed<Spanned<StmtTree>>
    decreases t.len() - i, 2nat,
{
    match at(t, i) {
        Some(Token::Operator(Operator::LeftBrace)) => match spec_block(t, i) {
            Err(e) => Err(e),
            Ok((b, j)) => Ok((Spanned { span: b.span, data: StmtTree::Block(b) }, j)),
        },
        Some(Token::Operator(Operator::Semicolon)) => node(t, i, i + 1, StmtTree::Empty),
        Some(Token::Keyword(Keyword::If)) => match spec_condition(t, i + 1) {
            Err(e) => Err(e),
            Ok((c, j)) => if j <= i {
                Err(spec_error(t, j, Expected::Expression))
            } else {
                match spec_stmt(t, j) {
                    Err(e) => Err(e),
                    Ok((a, k)) => if is_kw(t, k, Keyword::Else) && k >= i {
                        match spec_stmt(t, k + 1) {
                            Err(e) => Err(e),
                            Ok((b, m)) => node(
                                t,
                                i,
                                m,
                                StmtTree::If(c, Box::new(a), Some(Box::new(b))),
                            ),
                        }
                    } else {
                        node(t, i, k, StmtTree::If(c, Box::new(a), None))
                    },
                }
            },
        },
        Some(Token::Keyword(Keyword::While)) => match spec_condition(t, i + 1) {
            Err(e) => Err(e),
            Ok((c, j)) => if j <= i {
                Err(spec_error(t, j, Expected::Expression))
            } else {
                match spec_stmt(t, j) {
                    Err(e) => Err(e),
                    Ok((a, k)) => node(t, i, k, StmtTree::While(c, Box::new(a))),
                }
            },
        },
        Some(Token::Keyword(Keyword::Return)) => if is_op(t, i + 1, Operator::Semicolon) {
            node(t, i, i + 2, StmtTree::Return(None))
        } else {
            match spec_closed(t, i + 1, Operator::Semicolon) {
                Err(e) => Err(e),
                Ok((e, j)) => node(t, i, j, StmtTree::Return(Some(e))),
            }
        },
        _ => match spec_closed(t, i, Operator::Semicolon) {
            Err(e) => Err(e),
            Ok((e, j)) => node(t, i, j, StmtTree::Expression(e)),
        },
    }
}

/// Whether the declaration of a local variable starts at index `i`: with
/// `int`, `boolean` or `void`, or with a name that is followed by another
/// name or by `[` `]`.
pub open spec fn starts_declaration(t: Tokens, i: int) -> bool {
    match spec_basic(t, i) {
        None => false,
        Some(BasicType::Custom(_)) => name_at(t, i + 1) is Some || (is_op(
            t,
            i + 1,
            Operator::LeftBracket,
        ) && is_op(t, i + 2, Operator::RightBracket)),
        Some(_) => true,
    }
}

/// The declaration of a local variable: a type, a name, optionally `=`
/// and the first value, and `;`.
pub open spec fn spec_declaration(t: Tokens, i: int) -> Parsed<Spanned<StmtTree>> {
    match spec_type(t, i) {
        Err(e) => Err(e),
        Ok((ty, j)) => match name_at(t, j) {
            None => Err(spec_error(t, j, Expected::Identifier)),
            Some(name) => if is_op(t, j + 1, Operator::Equal) {
                match spec_closed(t, j + 2, Operator::Semicolon) {
                    Err(e) => Err(e),
                    Ok((e, k)) => node(
                        t,
                        i,
                        k,
                        StmtTree::LocalVariableDeclaration(ty, name, Some(e)),
                    ),
                }
            } else if is_op(t, j + 1, Operator::Semicolon) {
                node(t, i, j + 2, StmtTree::LocalVariableDeclaration(ty, name, None))
            } else {
                Err(spec_error(t, j + 1, Expected::Operator(Operator::Semicolon)))
            },
        },
    }
}

/// A statement of a block: a declaration of a local variable, or a
/// statement.
pub open spec fn spec_block_stmt(t: Tokens, i: int) -> Parsed<Spanned<StmtTree>>
    decreases t.len() - i, 3nat,
{
    if starts_declaration(t, i) {
        spec_declaration(t, i)
    } else {
        spec_stmt(t, i)
    }
}

/// The statements from index `j` up to the `}` that closes the block
/// which starts at `lo`, after the statements `acc`.
pub open spec fn spec_stmts(t: Tokens, lo: int, j: int, acc: Seq<Spanned<StmtTree>>) -> Parsed<
    BlockTree,
>
    decreases t.len() - j, 4nat,
{
    if is_op(t, j, Operator::RightBrace) {
        node(t, lo, j + 1, acc)
    } else {
        match spec_block_stmt(t, j) {
            Err(e) => Err(e),
            Ok((s, k)) => if j < k <= t.len() {
                spec_stmts(t, lo, k, acc.push(s))
            } else {
                Err(spec_error(t, k, Expected::Operator(Operator::RightBrace)))
            },
        }
    }
}

/// A block: statements in braces.
pub open spec fn spec_block(t: Tokens, i: int) -> Parsed<BlockTree>
    decreases t.len() - i, 1nat,
{
    if is_op(t, i, Operator::LeftBrace) {
        spec_stmts(t, i, i + 1, Seq::empty())
    } else {
        Err(spec_error(t, i, Expected::Operator(Operator::LeftBrace)))
    }
}

/// A parameter: a type and a name.
pub open spec fn spec_param(t: Tokens, i: int) -> Parsed<Spanned<Parameter>> {
    match spec_type(t, i) {
        Err(e) => Err(e),
        Ok((ty, j)) => match name_at(t, j) {
            None => Err(spec_error(t, j, Expected::Identifier)),
            Some(name) => node(t, i, j + 1, Parameter { ty, name }),
        },
    }
}

/// The parameters from index `j` on, after the parameters `acc` of the
/// list that starts at `lo`.
pub open spec fn spec_params_rest(
    t: Tokens,
    lo: int,
    j: int,
    acc: Seq<Spanned<Parameter>>,
) -> Parsed<ParamsTree>
    decreases t.len() - j,
{
    match spec_param(t, j) {
        Err(e) => Err(e),
        Ok((p, k)) => if is_op(t, k, Operator::Comma) && k >= j {
            spec_params_rest(t, lo, k + 1, acc.push(p))
        } else if is_op(t, k, Operator::RightParen) {
            node(t, lo, k + 1, acc.push(p))
        } else {
            Err(spec_error(t, k, Expected::Operator(Operator::RightParen)))
        },
    }
}

/// The parameters of a method, with their parentheses.
pub open spec fn spec_params(t: Tokens, i: int) -> Parsed<ParamsTree> {
    if !is_op(t, i, Operator::LeftParen) {
        Err(spec_error(t, i, Expected::Operator(Operator::LeftParen)))
    } else if is_op(t, i + 1, Operator::RightParen) {
        node(t, i, i + 2, Seq::empty())
    } else {
        spec_params_rest(t, i, i + 1, Seq::empty())
    }
}

/// What follows the parameters of a method: optionally `throws` and a
/// name, then the body.
pub open spec fn spec_body(t: Tokens, i: int) -> Parsed<BlockTree> {
    if is_kw(t, i, Keyword::Throws) {
        if name_at(t, i + 1) is Some {
            spec_block(t, i + 2)
        } else {
            Err(spec_error(t, i + 1, Expected::Identifier))
        }
    } else {
        spec_block(t, i)
    }
}

/// A method from its parameters on.
pub open spec fn spec_method_rest(t: Tokens, i: int) -> Parsed<(ParamsTree, BlockTree)> {
    match spec_params(t, i) {
        Err(e) => Err(e),
        Ok((params, j)) => match spec_body(t, j) {
            Err(e) => Err(e),
            Ok((body, k)) => Ok(((params, body), k)),
        },
    }
}

/// A class member. It starts with `public`. With `static` behind that it
/// is the main method, which is an error where `had_main` says that the
/// program has one already. Else a type and a name follow, and then `;`
/// for a field or `(` for a method.
pub open spec fn spec_member(t: Tokens, i: int, had_main: bool) -> Parsed<Spanned<MemberTree>> {
    if !is_kw(t, i, Keyword::Public) {
        Err(spec_error(t, i, Expected::Keyword(Keyword::Public)))
    } else if is_kw(t, i + 1, Keyword::Static) {
        if had_main {
            Err(Spanned { span: t[i + 1].span, data: SyntaxError::DuplicateMainMethod })
        } else if !is_kw(t, i + 2, Keyword::Void) {
            Err(spec_error(t, i + 2, Expected::Keyword(Keyword::Void)))
        } else {
            match name_at(t, i + 3) {
                None => Err(spec_error(t, i + 3, Expected::Identifier)),
                Some(name) => match spec_method_rest(t, i + 4) {
                    Err(e) => Err(e),
                    Ok(((params, body), k)) => node(
                        t,
                        i,
                        k,
                        MemberTree { kind: MemberKindTree::MainMethod(params, body), name },
                    ),
                },
            }
        }
    } else {
        match spec_type(t, i + 1) {
            Err(e) => Err(e),
            Ok((ty, j)) => match name_at(t, j) {
                None => Err(spec_error(t, j, Expected::Identifier)),
                Some(name) => if is_op(t, j + 1, Operator::Semicolon) {
                    node(t, i, j + 2, MemberTree { kind: MemberKindTree::Field(ty), name })
                } else if is_op(t, j + 1, Operator::LeftParen) {
                    match spec_method_rest(t, j + 1) {
                        Err(e) => Err(e),
                        Ok(((params, body), k)) => node(
                            t,
                            i,
                            k,
                            MemberTree { kind: MemberKindTree::Method(ty, params, body), name },
                        ),
                    }
                } else if 0 <= j + 1 < t.len() {
                    Err(Spanned { span: t[j + 1].span, data: SyntaxError::InvalidMemberDeclaration })
                } else {
                    Err(spec_error(t, j + 1, Expected::Operator(Operator::Semicolon)))
                },
            },
        }
    }
}

/// Whether `m` is the main method.
pub open spec fn is_main(m: Spanned<MemberTree>) -> bool {
    m.data.kind is MainMethod
}

/// The members from index `j` up to the `}` that closes the class, after
/// the members `acc`. The last component of the result says whether the
/// program has a main method by now.
pub open spec fn spec_members(
    t: Tokens,
    j: int,
    had_main: bool,
    acc: Seq<Spanned<MemberTree>>,
) -> Parsed<(Seq<Spanned<MemberTree>>, bool)>
    decreases t.len() - j,
{
    if is_op(t, j, Operator::RightBrace) {
        Ok(((acc, had_main), j + 1))
    } else {
        match spec_member(t, j, had_main) {
            Err(e) => Err(e),
            Ok((m, k)) => if j < k <= t.len() {
                spec_members(t, k, had_main || is_main(m), acc.push(m))
            } else {
                Err(spec_error(t, k, Expected::Operator(Operator::RightBrace)))
            },
        }
    }
}

/// The class `name` that starts at index `i`, with the members that
/// were read.
pub open spec fn class_of(
    t: Tokens,
    i: int,
    name: Symbol,
    r: Parsed<(Seq<Spanned<MemberTree>>, bool)>,
) -> Parsed<(Spanned<ClassTree>, bool)> {
    match r {
        Err(e) => Err(e),
        Ok(((members, main), k)) => Ok(
            ((Spanned { span: span_of(t, i, k), data: ClassTree { name, members } }, main), k),
        ),
    }
}

/// A class: `class`, a name, and the members in braces.
pub open spec fn spec_class(t: Tokens, i: int, had_main: bool) -> Parsed<
    (Spanned<ClassTree>, bool),
> {
    if !is_kw(t, i, Keyword::Class) {
        Err(spec_error(t, i, Expected::Keyword(Keyword::Class)))
    } else {
        match name_at(t, i + 1) {
            None => Err(spec_error(t, i + 1, Expected::Identifier)),
            Some(name) => if !is_op(t, i + 2, Operator::LeftBrace) {
                Err(spec_error(t, i + 2, Expected::Operator(Operator::LeftBrace)))
            } else {
                class_of(t, i, name, spec_members(t, i + 3, had_main, Seq::empty()))
            },
        }
    }
}

/// The classes from index `j` up to the end of the tokens, after the
/// classes `acc`.
pub open spec fn spec_classes(
    t: Tokens,
    j: int,
    had_main: bool,
    acc: Seq<Spanned<ClassTree>>,
) -> Result<Seq<Spanned<ClassTree>>, Spanned<SyntaxError>>
    decreases t.len() - j,
{
    if j >= t.len() {
        Ok(acc)
    } else {
        match spec_class(t, j, had_main) {
            Err(e) => Err(e),
            Ok(((c, main), k)) => if j < k <= t.len() {
                spec_classes(t, k, main, acc.push(c))
            } else {
                Err(spec_error(t, k, Expected::Keyword(Keyword::Class)))
            },
        }
    }
}

/// The syntax tree of a program: of no token the empty tree, else the
/// classes that the tokens spell, or the first error.
pub open spec fn spec_parse(t: Tokens) -> Result<AstTree, Spanned<SyntaxError>> {
    if t.len() == 0 {
        Ok(AstTree::Empty)
    } else {
        match spec_classes(t, 0, false, Seq::empty()) {
            Err(e) => Err(e),
            Ok(classes) => Ok(
                AstTree::Program(Spanned { span: span_of(t, 0, t.len() as int), data: classes }),
            ),
        }
    }
}

} // verus!

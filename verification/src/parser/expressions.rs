//! Parsing expressions: binary operators by their precedence, and below
//! them unary operators, accesses and calls, and primary expressions.
use super::grammar::{
    at, binary_op, is_op, lowest, name_at, precedence, right_min, span_of, spec_args,
    spec_args_rest, spec_binary, spec_binary_rest, spec_closed, spec_condition, spec_error,
    spec_expr, spec_new, spec_postfix, spec_postfix_ops, spec_primary, spec_unary, Parsed,
};
use super::names::{expr_known, exprs_known};
use super::tree::{expr_spans_ok, expr_tree, expr_trees, ExprTree};
use super::{Expected, Parser, SyntaxError, Token};
use crate::asciifile::{Span, Spanned};
use crate::ast::{BinaryOp, Expr, UnaryOp};
use crate::lexer::{Keyword, Operator};
use vstd::prelude::*;

verus! {

pub type ExprResult = Result<(Spanned<Expr>, usize), Spanned<SyntaxError>>;

pub type ArgsResult = Result<(Spanned<Vec<Spanned<Expr>>>, usize), Spanned<SyntaxError>>;

/// The expression that was parsed is the one that the grammar gives.
pub open spec fn same_expr(r: ExprResult, s: Parsed<Spanned<ExprTree>>) -> bool {
    match r {
        Ok((e, j)) => s == Ok::<(Spanned<ExprTree>, int), Spanned<SyntaxError>>(
            (expr_tree(&e), j as int),
        ),
        Err(e) => s == Err::<(Spanned<ExprTree>, int), Spanned<SyntaxError>>(e),
    }
}

/// The value of a list of arguments.
pub open spec fn args_tree(a: &Spanned<Vec<Spanned<Expr>>>) -> Spanned<Seq<Spanned<ExprTree>>> {
    Spanned { span: a.span, data: expr_trees(&a.data, a.data@.len()) }
}

pub open spec fn same_args(r: ArgsResult, s: Parsed<Spanned<Seq<Spanned<ExprTree>>>>) -> bool {
    match r {
        Ok((a, j)) => s == Ok::<(Spanned<Seq<Spanned<ExprTree>>>, int), Spanned<SyntaxError>>(
            (args_tree(&a), j as int),
        ),
        Err(e) => s == Err::<(Spanned<Seq<Spanned<ExprTree>>>, int), Spanned<SyntaxError>>(e),
    }
}

/// Every span in each of the expressions is a span of `bytes`.
pub open spec fn all_spans_ok(es: Seq<Spanned<ExprTree>>, bytes: Seq<u8>) -> bool {
    forall|k: int| 0 <= k < es.len() ==> expr_spans_ok(es[k], bytes)
}

/// The values of the first `n` expressions depend on these alone.
pub proof fn lemma_expr_trees_same(a: &Vec<Spanned<Expr>>, b: &Vec<Spanned<Expr>>, n: nat)
    requires
        n <= a@.len(),
        n <= b@.len(),
        forall|k: int| 0 <= k < n ==> a@[k] == b@[k],
    ensures
        expr_trees(a, n) == expr_trees(b, n),
    decreases n,
{
    if n > 0 {
        lemma_expr_trees_same(a, b, (n - 1) as nat);
    }
}

/// The values of a list with one more expression at its end.
pub proof fn lemma_expr_trees_push(a: &Vec<Spanned<Expr>>, b: &Vec<Spanned<Expr>>)
    requires
        b@.len() == a@.len() + 1,
        forall|k: int| 0 <= k < a@.len() ==> a@[k] == b@[k],
    ensures
        expr_trees(b, b@.len()) == expr_trees(a, a@.len()).push(expr_tree(&b@[a@.len() as int])),
{
    lemma_expr_trees_same(a, b, a@.len());
}

/// The binary operator that a token stands for.
pub fn binary_op_of(tok: Option<Token>) -> (r: Option<BinaryOp>)
    ensures
        r == binary_op(tok),
{
    match tok {
        Some(Token::Operator(Operator::Equal)) => Some(BinaryOp::Assign),
        Some(Token::Operator(Operator::DoubleEqual)) => Some(BinaryOp::Equals),
        Some(Token::Operator(Operator::ExclaimEqual)) => Some(BinaryOp::NotEquals),
        Some(Token::Operator(Operator::LeftChevron)) => Some(BinaryOp::LessThan),
        Some(Token::Operator(Operator::RightChevron)) => Some(BinaryOp::GreaterThan),
        Some(Token::Operator(Operator::LeftChevronEqual)) => Some(BinaryOp::LessEquals),
        Some(Token::Operator(Operator::RightChevronEqual)) => Some(BinaryOp::GreaterEquals),
        Some(Token::Operator(Operator::DoublePipe)) => Some(BinaryOp::LogicalOr),
        Some(Token::Operator(Operator::DoubleAmpersand)) => Some(BinaryOp::LogicalAnd),
        Some(Token::Operator(Operator::Plus)) => Some(BinaryOp::Add),
        Some(Token::Operator(Operator::Minus)) => Some(BinaryOp::Sub),
        Some(Token::Operator(Operator::Star)) => Some(BinaryOp::Mul),
        Some(Token::Operator(Operator::Slash)) => Some(BinaryOp::Div),
        Some(Token::Operator(Operator::Percent)) => Some(BinaryOp::Mod),
        _ => None,
    }
}

pub fn precedence_of(op: BinaryOp) -> (p: u8)
    ensures
        p == precedence(op),
{
    match op {
        BinaryOp::Assign => 1,
        BinaryOp::LogicalOr => 2,
        BinaryOp::LogicalAnd => 3,
        BinaryOp::Equals | BinaryOp::NotEquals => 4,
        BinaryOp::LessThan | BinaryOp::GreaterThan | BinaryOp::LessEquals
        | BinaryOp::GreaterEquals => 5,
        BinaryOp::Add | BinaryOp::Sub => 6,
        BinaryOp::Mul | BinaryOp::Div | BinaryOp::Mod => 7,
    }
}

pub fn right_min_of(op: BinaryOp) -> (p: u8)
    ensures
        p == right_min(op),
{
    match op {
        BinaryOp::Assign => 1,
        _ => precedence_of(op) + 1,
    }
}

impl<'f> Parser<'f> {
    /// The expression `r` that ends before index `j` was read from index
    /// `i` on or later, and its spans are spans of the file.
    pub open spec fn expr_read(&self, r: ExprResult, i: int) -> bool {
        r matches Ok((e, j)) ==> i < j <= self.tokens@.len() && (self.in_order() ==> expr_spans_ok(
            expr_tree(&e),
            self.file@,
        )) && expr_known(expr_tree(&e), self.tokens@)
    }

    pub open spec fn args_read(&self, r: ArgsResult, i: int) -> bool {
        r matches Ok((a, j)) ==> i < j <= self.tokens@.len() && (self.in_order()
            ==> a.span.valid_in(self.file@) && all_spans_ok(
            expr_trees(&a.data, a.data@.len()),
            self.file@,
        )) && exprs_known(expr_trees(&a.data, a.data@.len()), self.tokens@)
    }

    /// A `new` expression, where `new` stands at index `i`.
    pub fn parse_new(&self, i: usize) -> (r: ExprResult)
        requires
            i < self.tokens@.len(),
        ensures
            same_expr(r, spec_new(self.tokens@, i as int)),
            self.expr_read(r, i as int),
        decreases self.tokens@.len() - i, 0nat,
    {
        match self.name_at(i, 1) {
            Some(name) if self.is_op(i, 2, Operator::LeftParen) => {
                if self.is_op(i, 3, Operator::RightParen) {
                    return Ok(
                        (Spanned { span: self.span(i, i + 4), data: Expr::NewObject(name) }, i + 4),
                    );
                } else {
                    return Err(self.error(i, 3, Expected::Operator(Operator::RightParen)));
                }
            },
            _ => {},
        }
        match self.basic(i, 1) {
            None => Err(self.error(i, 1, Expected::Type)),
            Some(basic) => if !self.is_op(i, 2, Operator::LeftBracket) {
                Err(self.error(i, 2, Expected::Operator(Operator::LeftBracket)))
            } else {
                match self.parse_expr(i + 3) {
                    Err(e) => Err(e),
                    Ok((size, j)) => if self.is_op(j, 0, Operator::RightBracket) {
                        let (n, next) = self.parse_dims(j + 1);
                        Ok(
                            (
                                Spanned {
                                    span: self.span(i, next),
                                    data: Expr::NewArray(basic, Box::new(size), n),
                                },
                                next,
                            ),
                        )
                    } else {
                        Err(self.error(j, 0, Expected::Operator(Operator::RightBracket)))
                    },
                }
            },
        }
    }

    /// A primary expression.
    pub fn parse_primary(&self, i: usize) -> (r: ExprResult)
        requires
            i <= self.tokens@.len(),
        ensures
            same_expr(r, spec_primary(self.tokens@, i as int)),
            self.expr_read(r, i as int),
        decreases self.tokens@.len() - i, 1nat,
    {
        match self.peek(i, 0) {
            Some(Token::Keyword(Keyword::Null)) => Ok(
                (Spanned { span: self.span(i, i + 1), data: Expr::Null }, i + 1),
            ),
            Some(Token::Keyword(Keyword::False)) => Ok(
                (Spanned { span: self.span(i, i + 1), data: Expr::Boolean(false) }, i + 1),
            ),
            Some(Token::Keyword(Keyword::True)) => Ok(
                (Spanned { span: self.span(i, i + 1), data: Expr::Boolean(true) }, i + 1),
            ),
            Some(Token::Keyword(Keyword::This)) => Ok(
                (Spanned { span: self.span(i, i + 1), data: Expr::This }, i + 1),
            ),
            Some(Token::IntegerLiteral(s)) => Ok(
                (Spanned { span: self.span(i, i + 1), data: Expr::Int(s) }, i + 1),
            ),
            Some(Token::Identifier(s)) => if self.is_op(i, 1, Operator::LeftParen) {
                match self.parse_args(i + 1) {
                    Err(e) => Err(e),
                    Ok((args, j)) => Ok(
                        (
                            Spanned {
                                span: self.span(i, j),
                                data: Expr::ThisMethodInvocation(s, args),
                            },
                            j,
                        ),
                    ),
                }
            } else {
                Ok((Spanned { span: self.span(i, i + 1), data: Expr::Var(s) }, i + 1))
            },
            Some(Token::Operator(Operator::LeftParen)) => match self.parse_expr(i + 1) {
                Err(e) => Err(e),
                Ok((e, j)) => if self.is_op(j, 0, Operator::RightParen) {
                    Ok((Spanned { span: self.span(i, j + 1), data: e.data }, j + 1))
                } else {
                    Err(self.error(j, 0, Expected::Operator(Operator::RightParen)))
                },
            },
            Some(Token::Keyword(Keyword::New)) => self.parse_new(i),
            _ => Err(self.error(i, 0, Expected::Expression)),
        }
    }

    /// The arguments of a call, with their parentheses.
    pub fn parse_args(&self, i: usize) -> (r: ArgsResult)
        requires
            i <= self.tokens@.len(),
        ensures
            same_args(r, spec_args(self.tokens@, i as int)),
            self.args_read(r, i as int),
        decreases self.tokens@.len() - i, 7nat,
    {
        if !self.is_op(i, 0, Operator::LeftParen) {
            return Err(self.error(i, 0, Expected::Operator(Operator::LeftParen)));
        }
        let mut args: Vec<Spanned<Expr>> = Vec::new();
        if self.is_op(i, 1, Operator::RightParen) {
            return Ok((Spanned { span: self.span(i, i + 2), data: args }, i + 2));
        }
        let mut j: usize = i + 1;
        let ghost goal = spec_args_rest(self.tokens@, i as int, i + 1, Seq::empty());
        loop
            invariant
                i < j <= self.tokens@.len(),
                spec_args_rest(self.tokens@, i as int, j as int, expr_trees(&args, args@.len()))
                    == goal,
                goal == spec_args(self.tokens@, i as int),
                self.in_order() ==> all_spans_ok(expr_trees(&args, args@.len()), self.file@),
                exprs_known(expr_trees(&args, args@.len()), self.tokens@),
            decreases self.tokens@.len() - j,
        {
            match self.parse_expr(j) {
                Err(e) => {
                    return Err(e);
                },
                Ok((e, k)) => {
                    let ghost before = args;
                    args.push(e);
                    proof {
                        lemma_expr_trees_push(&before, &args);
                    }
                    if self.is_op(k, 0, Operator::Comma) {
                        j = k + 1;
                    } else if self.is_op(k, 0, Operator::RightParen) {
                        return Ok((Spanned { span: self.span(i, k + 1), data: args }, k + 1));
                    } else {
                        return Err(self.error(k, 0, Expected::Operator(Operator::RightParen)));
                    }
                },
            }
        }
    }

    /// The accesses and calls behind the expression `first`, which was
    /// read from the tokens `lo` up to `from`.
    pub fn parse_postfix_ops(&self, lo: usize, from: usize, first: Spanned<Expr>) -> (r: ExprResult)
        requires
            lo < from <= self.tokens@.len(),
            self.in_order() ==> expr_spans_ok(expr_tree(&first), self.file@),
            expr_known(expr_tree(&first), self.tokens@),
        ensures
            same_expr(
                r,
                spec_postfix_ops(self.tokens@, lo as int, from as int, expr_tree(&first)),
            ),
            self.expr_read(r, lo as int),
        decreases self.tokens@.len() - from, 0nat,
    {
        let mut lhs = first;
        let mut j: usize = from;
        let ghost goal = spec_postfix_ops(self.tokens@, lo as int, from as int, expr_tree(&first));
        loop
            invariant
                lo < from <= j <= self.tokens@.len(),
                spec_postfix_ops(self.tokens@, lo as int, j as int, expr_tree(&lhs)) == goal,
                goal == spec_postfix_ops(self.tokens@, lo as int, from as int, expr_tree(&first)),
                self.in_order() ==> expr_spans_ok(expr_tree(&lhs), self.file@),
                expr_known(expr_tree(&lhs), self.tokens@),
            decreases self.tokens@.len() - j,
        {
            if self.is_op(j, 0, Operator::Dot) {
                match self.name_at(j, 1) {
                    None => {
                        return Err(self.error(j, 1, Expected::Identifier));
                    },
                    Some(name) => if self.is_op(j, 2, Operator::LeftParen) {
                        match self.parse_args(j + 2) {
                            Err(e) => {
                                return Err(e);
                            },
                            Ok((args, k)) => {
                                lhs = Spanned {
                                    span: self.span(lo, k),
                                    data: Expr::MethodInvocation(Box::new(lhs), name, args),
                                };
                                j = k;
                            },
                        }
                    } else {
                        lhs = Spanned {
                            span: self.span(lo, j + 2),
                            data: Expr::FieldAccess(Box::new(lhs), name),
                        };
                        j = j + 2;
                    },
                }
            } else if self.is_op(j, 0, Operator::LeftBracket) {
                match self.parse_expr(j + 1) {
                    Err(e) => {
                        return Err(e);
                    },
                    Ok((index, k)) => if self.is_op(k, 0, Operator::RightBracket) {
                        lhs = Spanned {
                            span: self.span(lo, k + 1),
                            data: Expr::ArrayAccess(Box::new(lhs), Box::new(index)),
                        };
                        j = k + 1;
                    } else {
                        return Err(self.error(k, 0, Expected::Operator(Operator::RightBracket)));
                    },
                }
            } else {
                return Ok((lhs, j));
            }
        }
    }

    /// A primary expression with the accesses and calls behind it.
    pub fn parse_postfix(&self, i: usize) -> (r: ExprResult)
        requires
            i <= self.tokens@.len(),
        ensures
            same_expr(r, spec_postfix(self.tokens@, i as int)),
            self.expr_read(r, i as int),
        decreases self.tokens@.len() - i, 2nat,
    {
        match self.parse_primary(i) {
            Err(e) => Err(e),
            Ok((p, j)) => self.parse_postfix_ops(i, j, p),
        }
    }

    /// A postfix expression with the `!` and `-` before it.
    pub fn parse_unary(&self, i: usize) -> (r: ExprResult)
        requires
            i <= self.tokens@.len(),
        ensures
            same_expr(r, spec_unary(self.tokens@, i as int)),
            self.expr_read(r, i as int),
        decreases self.tokens@.len() - i, 3nat,
    {
        if self.is_op(i, 0, Operator::Exclaim) {
            match self.parse_unary(i + 1) {
                Err(e) => Err(e),
                Ok((x, j)) => Ok(
                    (
                        Spanned {
                            span: self.span(i, j),
                            data: Expr::Unary(UnaryOp::Not, Box::new(x)),
                        },
                        j,
                    ),
                ),
            }
        } else if self.is_op(i, 0, Operator::Minus) {
            match self.peek(i, 1) {
                Some(Token::IntegerLiteral(s)) => self.parse_postfix_ops(
                    i,
                    i + 2,
                    Spanned { span: self.span(i, i + 2), data: Expr::NegInt(s) },
                ),
                _ => match self.parse_unary(i + 1) {
                    Err(e) => Err(e),
                    Ok((x, j)) => Ok(
                        (
                            Spanned {
                                span: self.span(i, j),
                                data: Expr::Unary(UnaryOp::Neg, Box::new(x)),
                            },
                            j,
                        ),
                    ),
                },
            }
        } else {
            self.parse_postfix(i)
        }
    }

    /// An expression in which no operator outside parentheses binds less
    /// tightly than `min`.
    pub fn parse_binary(&self, i: usize, min: u8) -> (r: ExprResult)
        requires
            i <= self.tokens@.len(),
        ensures
            same_expr(r, spec_binary(self.tokens@, i as int, min as nat)),
            self.expr_read(r, i as int),
        decreases self.tokens@.len() - i, 4nat,
    {
        let (first, from) = match self.parse_unary(i) {
            Err(e) => {
                return Err(e);
            },
            Ok(p) => p,
        };
        let mut lhs = first;
        let mut j: usize = from;
        let ghost goal = spec_binary(self.tokens@, i as int, min as nat);
        loop
            invariant
                i < j <= self.tokens@.len(),
                spec_binary_rest(self.tokens@, i as int, j as int, expr_tree(&lhs), min as nat)
                    == goal,
                goal == spec_binary(self.tokens@, i as int, min as nat),
                self.in_order() ==> expr_spans_ok(expr_tree(&lhs), self.file@),
                expr_known(expr_tree(&lhs), self.tokens@),
            decreases self.tokens@.len() - j,
        {
            match binary_op_of(self.peek(j, 0)) {
                Some(op) if precedence_of(op) >= min => {
                    match self.parse_binary(j + 1, right_min_of(op)) {
                        Err(e) => {
                            return Err(e);
                        },
                        Ok((rhs, k)) => {
                            lhs = Spanned {
                                span: self.span(i, k),
                                data: Expr::Binary(op, Box::new(lhs), Box::new(rhs)),
                            };
                            j = k;
                        },
                    }
                },
                _ => {
                    return Ok((lhs, j));
                },
            }
        }
    }

    /// An expression.
    pub fn parse_expr(&self, i: usize) -> (r: ExprResult)
        requires
            i <= self.tokens@.len(),
        ensures
            same_expr(r, spec_expr(self.tokens@, i as int)),
            same_expr(r, spec_binary(self.tokens@, i as int, lowest())),
            self.expr_read(r, i as int),
        decreases self.tokens@.len() - i, 5nat,
    {
        self.parse_binary(i, 1)
    }

    /// An expression and the token `close` behind it.
    pub fn parse_closed(&self, i: usize, close: Operator) -> (r: ExprResult)
        requires
            i <= self.tokens@.len(),
        ensures
            same_expr(r, spec_closed(self.tokens@, i as int, close)),
            self.expr_read(r, i as int),
    {
        match self.parse_expr(i) {
            Err(e) => Err(e),
            Ok((e, j)) => if self.is_op(j, 0, close) {
                Ok((e, j + 1))
            } else {
                Err(self.error(j, 0, Expected::Operator(close)))
            },
        }
    }

    /// The condition of an `if` or a `while`, in its parentheses.
    pub fn parse_condition(&self, i: usize) -> (r: ExprResult)
        requires
            i <= self.tokens@.len(),
        ensures
            same_expr(r, spec_condition(self.tokens@, i as int)),
            self.expr_read(r, i as int),
    {
        if self.is_op(i, 0, Operator::LeftParen) {
            self.parse_closed(i + 1, Operator::RightParen)
        } else {
            Err(self.error(i, 0, Expected::Operator(Operator::LeftParen)))
        }
    }
}

} // verus!

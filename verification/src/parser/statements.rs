//! Parsing statements and blocks.
use super::expressions::ExprResult;
use super::grammar::{
    is_kw, is_op, name_at, span_of, spec_block, spec_block_stmt, spec_closed, spec_condition,
    spec_declaration, spec_error, spec_stmt, spec_stmts, spec_type, starts_declaration, Parsed,
};
use super::names::{stmt_known, stmts_known};
use super::tree::{
    block_shaped, block_spans_ok, block_tree, expr_spans_ok, expr_tree, open_if, stmt_shaped,
    stmt_spans_ok, stmt_tree, stmt_trees, BlockTree, StmtTree,
};
use super::{Expected, Parser, SyntaxError, Token};
use crate::asciifile::{Span, Spanned};
use crate::ast::{BasicType, Block, Stmt};
use crate::lexer::{Keyword, Operator};
use vstd::prelude::*;

verus! {

pub type StmtResult = Result<(Spanned<Stmt>, usize), Spanned<SyntaxError>>;

pub type BlockResult = Result<(Spanned<Block>, usize), Spanned<SyntaxError>>;

/// The statement that was parsed is the one that the grammar gives.
pub open spec fn same_stmt(r: StmtResult, s: Parsed<Spanned<StmtTree>>) -> bool {
    match r {
        Ok((x, j)) => s == Ok::<(Spanned<StmtTree>, int), Spanned<SyntaxError>>(
            (stmt_tree(&x), j as int),
        ),
        Err(e) => s == Err::<(Spanned<StmtTree>, int), Spanned<SyntaxError>>(e),
    }
}

/// The block that was parsed is the one that the grammar gives.
pub open spec fn same_block(r: BlockResult, s: Parsed<BlockTree>) -> bool {
    match r {
        Ok((x, j)) => s == Ok::<(BlockTree, int), Spanned<SyntaxError>>((block_tree(&x), j as int)),
        Err(e) => s == Err::<(BlockTree, int), Spanned<SyntaxError>>(e),
    }
}

/// The values of the first `n` statements depend on these alone.
pub proof fn lemma_stmt_trees_same(a: &Vec<Spanned<Stmt>>, b: &Vec<Spanned<Stmt>>, n: nat)
    requires
        n <= a@.len(),
        n <= b@.len(),
        forall|k: int| 0 <= k < n ==> a@[k] == b@[k],
    ensures
        stmt_trees(a, n) == stmt_trees(b, n),
    decreases n,
{
    if n > 0 {
        lemma_stmt_trees_same(a, b, (n - 1) as nat);
    }
}

/// The values of a list with one more statement at its end.
pub proof fn lemma_stmt_trees_push(a: &Vec<Spanned<Stmt>>, b: &Vec<Spanned<Stmt>>)
    requires
        b@.len() == a@.len() + 1,
        forall|k: int| 0 <= k < a@.len() ==> a@[k] == b@[k],
    ensures
        stmt_trees(b, b@.len()) == stmt_trees(a, a@.len()).push(stmt_tree(&b@[a@.len() as int])),
{
    lemma_stmt_trees_same(a, b, a@.len());
}

/// Each of the statements is one that the grammar gives for a block.
pub open spec fn all_stmts_shaped(ss: Seq<Spanned<StmtTree>>) -> bool {
    forall|k: int| 0 <= k < ss.len() ==> stmt_shaped(ss[k], true)
}

/// Every span in each of the statements is a span of `bytes`.
pub open spec fn all_stmts_ok(ss: Seq<Spanned<StmtTree>>, bytes: Seq<u8>) -> bool {
    forall|k: int| 0 <= k < ss.len() ==> stmt_spans_ok(ss[k], bytes)
}

impl<'f> Parser<'f> {
    /// The statement `r` that ends before index `j` was read from index
    /// `i` on, and its spans are spans of the file.
    pub open spec fn stmt_read(&self, r: StmtResult, i: int) -> bool {
        r matches Ok((s, j)) ==> i < j <= self.tokens@.len() && (self.in_order() ==> stmt_spans_ok(
            stmt_tree(&s),
            self.file@,
        )) && stmt_known(stmt_tree(&s), self.tokens@)
    }

    /// The statement `r` is one that the grammar gives, and where it ends
    /// with an `if` that has no `else`, no `else` follows it.
    pub open spec fn stmt_formed(&self, r: StmtResult, in_block: bool) -> bool {
        r matches Ok((s, j)) ==> stmt_shaped(stmt_tree(&s), in_block) && (open_if(stmt_tree(&s))
            ==> !is_kw(self.tokens@, j as int, Keyword::Else))
    }

    /// The statements of the block `r` are such that the grammar gives.
    pub open spec fn block_formed(&self, r: BlockResult) -> bool {
        r matches Ok((b, _)) ==> block_shaped(block_tree(&b))
    }

    pub open spec fn block_read(&self, r: BlockResult, i: int) -> bool {
        r matches Ok((b, j)) ==> i < j <= self.tokens@.len() && (self.in_order()
            ==> block_spans_ok(block_tree(&b), self.file@)) && stmts_known(
            block_tree(&b).data,
            self.tokens@,
        )
    }

    /// Whether the declaration of a local variable starts at index `i`.
    pub fn starts_declaration(&self, i: usize) -> (r: bool)
        requires
            i <= self.tokens@.len(),
        ensures
            r == starts_declaration(self.tokens@, i as int),
    {
        match self.basic(i, 0) {
            None => false,
            Some(BasicType::Custom(_)) => self.name_at(i, 1).is_some() || (self.is_op(
                i,
                1,
                Operator::LeftBracket,
            ) && self.is_op(i, 2, Operator::RightBracket)),
            Some(_) => true,
        }
    }

    /// The declaration of a local variable.
    pub fn parse_declaration(&self, i: usize) -> (r: StmtResult)
        requires
            i <= self.tokens@.len(),
        ensures
            same_stmt(r, spec_declaration(self.tokens@, i as int)),
            self.stmt_read(r, i as int),
            self.stmt_formed(r, true),
    {
        match self.parse_type(i) {
            Err(e) => Err(e),
            Ok((ty, j)) => match self.name_at(j, 0) {
                None => Err(self.error(j, 0, Expected::Identifier)),
                Some(name) => if self.is_op(j, 1, Operator::Equal) {
                    match self.parse_closed(j + 2, Operator::Semicolon) {
                        Err(e) => Err(e),
                        Ok((e, k)) => Ok(
                            (
                                Spanned {
                                    span: self.span(i, k),
                                    data: Stmt::LocalVariableDeclaration(
                                        ty,
                                        name,
                                        Some(Box::new(e)),
                                    ),
                                },
                                k,
                            ),
                        ),
                    }
                } else if self.is_op(j, 1, Operator::Semicolon) {
                    Ok(
                        (
                            Spanned {
                                span: self.span(i, j + 2),
                                data: Stmt::LocalVariableDeclaration(ty, name, None),
                            },
                            j + 2,
                        ),
                    )
                } else {
                    Err(self.error(j, 1, Expected::Operator(Operator::Semicolon)))
                },
            },
        }
    }

    /// A statement.
    pub fn parse_stmt(&self, i: usize) -> (r: StmtResult)
        requires
            i <= self.tokens@.len(),
        ensures
            same_stmt(r, spec_stmt(self.tokens@, i as int)),
            self.stmt_read(r, i as int),
            self.stmt_formed(r, false),
        decreases self.tokens@.len() - i, 2nat,
    {
        match self.peek(i, 0) {
            Some(Token::Operator(Operator::LeftBrace)) => match self.parse_block(i) {
                Err(e) => Err(e),
                Ok((b, j)) => Ok((Spanned { span: b.span, data: Stmt::Block(b) }, j)),
            },
            Some(Token::Operator(Operator::Semicolon)) => Ok(
                (Spanned { span: self.span(i, i + 1), data: Stmt::Empty }, i + 1),
            ),
            Some(Token::Keyword(Keyword::If)) => match self.parse_condition(i + 1) {
                Err(e) => Err(e),
                Ok((c, j)) => match self.parse_stmt(j) {
                    Err(e) => Err(e),
                    Ok((a, k)) => if self.is_kw(k, 0, Keyword::Else) {
                        match self.parse_stmt(k + 1) {
                            Err(e) => Err(e),
                            Ok((b, m)) => Ok(
                                (
                                    Spanned {
                                        span: self.span(i, m),
                                        data: Stmt::If(
                                            Box::new(c),
                                            Box::new(a),
                                            Some(Box::new(b)),
                                        ),
                                    },
                                    m,
                                ),
                            ),
                        }
                    } else {
                        Ok(
                            (
                                Spanned {
                                    span: self.span(i, k),
                                    data: Stmt::If(Box::new(c), Box::new(a), None),
                                },
                                k,
                            ),
                        )
                    },
                },
            },
            Some(Token::Keyword(Keyword::While)) => match self.parse_condition(i + 1) {
                Err(e) => Err(e),
                Ok((c, j)) => match self.parse_stmt(j) {
                    Err(e) => Err(e),
                    Ok((a, k)) => Ok(
                        (
                            Spanned {
                                span: self.span(i, k),
                                data: Stmt::While(Box::new(c), Box::new(a)),
                            },
                            k,
                        ),
                    ),
                },
            },
            Some(Token::Keyword(Keyword::Return)) => if self.is_op(i, 1, Operator::Semicolon) {
                Ok((Spanned { span: self.span(i, i + 2), data: Stmt::Return(None) }, i + 2))
            } else {
                match self.parse_closed(i + 1, Operator::Semicolon) {
                    Err(e) => Err(e),
                    Ok((e, j)) => Ok(
                        (
                            Spanned {
                                span: self.span(i, j),
                                data: Stmt::Return(Some(Box::new(e))),
                            },
                            j,
                        ),
                    ),
                }
            },
            _ => match self.parse_closed(i, Operator::Semicolon) {
                Err(e) => Err(e),
                Ok((e, j)) => Ok(
                    (Spanned { span: self.span(i, j), data: Stmt::Expression(Box::new(e)) }, j),
                ),
            },
        }
    }

    /// A statement of a block: a declaration of a local variable, or a
    /// statement.
    pub fn parse_block_stmt(&self, i: usize) -> (r: StmtResult)
        requires
            i <= self.tokens@.len(),
        ensures
            same_stmt(r, spec_block_stmt(self.tokens@, i as int)),
            self.stmt_read(r, i as int),
            self.stmt_formed(r, true),
        decreases self.tokens@.len() - i, 3nat,
    {
        if self.starts_declaration(i) {
            self.parse_declaration(i)
        } else {
            self.parse_stmt(i)
        }
    }

    /// A block: statements in braces.
    pub fn parse_block(&self, i: usize) -> (r: BlockResult)
        requires
            i <= self.tokens@.len(),
        ensures
            same_block(r, spec_block(self.tokens@, i as int)),
            self.block_read(r, i as int),
            self.block_formed(r),
        decreases self.tokens@.len() - i, 1nat,
    {
        if !self.is_op(i, 0, Operator::LeftBrace) {
            return Err(self.error(i, 0, Expected::Operator(Operator::LeftBrace)));
        }
        let mut statements: Vec<Spanned<Stmt>> = Vec::new();
        let mut j: usize = i + 1;
        loop
            invariant
                i < j <= self.tokens@.len(),
                spec_stmts(
                    self.tokens@,
                    i as int,
                    j as int,
                    stmt_trees(&statements, statements@.len()),
                ) == spec_block(self.tokens@, i as int),
                self.in_order() ==> all_stmts_ok(
                    stmt_trees(&statements, statements@.len()),
                    self.file@,
                ),
                all_stmts_shaped(stmt_trees(&statements, statements@.len())),
                stmts_known(stmt_trees(&statements, statements@.len()), self.tokens@),
            decreases self.tokens@.len() - j,
        {
            if self.is_op(j, 0, Operator::RightBrace) {
                return Ok(
                    (Spanned { span: self.span(i, j + 1), data: Block { statements } }, j + 1),
                );
            }
            match self.parse_block_stmt(j) {
                Err(e) => {
                    return Err(e);
                },
                Ok((s, k)) => {
                    let ghost before = statements;
                    let ghost read = stmt_tree(&s);
                    statements.push(s);
                    proof {
                        lemma_stmt_trees_push(&before, &statements);
                        let trees = stmt_trees(&before, before@.len());
                        assert(stmt_trees(&statements, statements@.len()) == trees.push(read));
                        assert forall|n: int| 0 <= n < trees.push(read).len() implies stmt_shaped(
                            trees.push(read)[n],
                            true,
                        ) by {
                            if n < trees.len() {
                                assert(stmt_shaped(trees[n], true));
                            }
                        }
                        assert forall|n: int| 0 <= n < trees.push(read).len() implies stmt_known(
                            trees.push(read)[n],
                            self.tokens@,
                        ) by {
                            if n < trees.len() {
                                assert(stmt_known(trees[n], self.tokens@));
                            }
                        }
                        if self.in_order() {
                            assert forall|n: int| 0 <= n < trees.push(read).len() implies stmt_spans_ok(
                                trees.push(read)[n],
                                self.file@,
                            ) by {
                                if n < trees.len() {
                                    assert(stmt_spans_ok(trees[n], self.file@));
                                }
                            }
                        }
                    }
                    j = k;
                },
            }
        }
    }
}

} // verus!

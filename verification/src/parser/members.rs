//! Parsing classes and their members.
use super::grammar::{
    class_of, is_kw, is_main, is_op, name_at, span_of, spec_block, spec_body, spec_class, spec_classes,
    spec_error, spec_member, spec_members, spec_method_rest, spec_param, spec_params,
    spec_params_rest, spec_parse, spec_type, Parsed,
};
use super::names::{
    name_known, ast_known, class_known, classes_known, member_known, members_known, param_known,
    params_known, stmts_known,
};
use super::statements::{same_block, BlockResult};
use super::tree::{
    ast_tree, block_shaped, block_spans_ok, block_tree, class_shaped, class_spans_ok, class_tree,
    class_trees, classes_spans_ok, lemma_mains_same, lemma_program_mains_same, mains,
    member_shaped, member_spans_ok, member_tree, member_trees, members_spans_ok, params_spans_ok,
    params_tree, program_mains, shaped, spans_ok, AstTree, BlockTree, ClassTree, MemberTree,
    ParamsTree,
};
use super::{same, Expected, Parser, SyntaxError, Token};
use crate::asciifile::{Span, Spanned};
use crate::ast::{
    Block, ClassDeclaration, ClassMember, ClassMemberKind, Parameter, Program, AST,
};
use crate::lexer::{Keyword, Operator};
use vstd::prelude::*;

verus! {

pub type ParamResult = Result<(Spanned<Parameter>, usize), Spanned<SyntaxError>>;

pub type ParamsResult = Result<(Spanned<Vec<Spanned<Parameter>>>, usize), Spanned<SyntaxError>>;

pub type MethodResult = Result<
    ((Spanned<Vec<Spanned<Parameter>>>, Spanned<Block>), usize),
    Spanned<SyntaxError>,
>;

pub type MemberResult = Result<(Spanned<ClassMember>, usize), Spanned<SyntaxError>>;

pub type ClassResult = Result<((Spanned<ClassDeclaration>, bool), usize), Spanned<SyntaxError>>;

/// The parameters that were parsed are those that the grammar gives.
pub open spec fn same_params(r: ParamsResult, s: Parsed<ParamsTree>) -> bool {
    match r {
        Ok((x, j)) => s == Ok::<(ParamsTree, int), Spanned<SyntaxError>>(
            (params_tree(&x), j as int),
        ),
        Err(e) => s == Err::<(ParamsTree, int), Spanned<SyntaxError>>(e),
    }
}

pub open spec fn same_method(r: MethodResult, s: Parsed<(ParamsTree, BlockTree)>) -> bool {
    match r {
        Ok(((ps, body), j)) => s == Ok::<((ParamsTree, BlockTree), int), Spanned<SyntaxError>>(
            ((params_tree(&ps), block_tree(&body)), j as int),
        ),
        Err(e) => s == Err::<((ParamsTree, BlockTree), int), Spanned<SyntaxError>>(e),
    }
}

/// The member that was parsed is the one that the grammar gives.
pub open spec fn same_member(r: MemberResult, s: Parsed<Spanned<MemberTree>>) -> bool {
    match r {
        Ok((x, j)) => s == Ok::<(Spanned<MemberTree>, int), Spanned<SyntaxError>>(
            (member_tree(&x), j as int),
        ),
        Err(e) => s == Err::<(Spanned<MemberTree>, int), Spanned<SyntaxError>>(e),
    }
}

/// The class that was parsed is the one that the grammar gives.
pub open spec fn same_class(r: ClassResult, s: Parsed<(Spanned<ClassTree>, bool)>) -> bool {
    match r {
        Ok(((x, main), j)) => s == Ok::<((Spanned<ClassTree>, bool), int), Spanned<SyntaxError>>(
            ((class_tree(&x), main), j as int),
        ),
        Err(e) => s == Err::<((Spanned<ClassTree>, bool), int), Spanned<SyntaxError>>(e),
    }
}

/// The tree that was parsed is the one that the grammar gives.
pub open spec fn same_ast(
    r: Result<AST, Spanned<SyntaxError>>,
    s: Result<AstTree, Spanned<SyntaxError>>,
) -> bool {
    match r {
        Ok(a) => s == Ok::<AstTree, Spanned<SyntaxError>>(ast_tree(&a)),
        Err(e) => s == Err::<AstTree, Spanned<SyntaxError>>(e),
    }
}

impl<'f> Parser<'f> {
    /// A parameter: a type and a name.
    pub fn parse_param(&self, i: usize) -> (r: ParamResult)
        requires
            i <= self.tokens@.len(),
        ensures
            same(r, spec_param(self.tokens@, i as int)),
            r matches Ok((p, _)) ==> param_known(p, self.tokens@),
            r matches Ok((p, j)) ==> i < j <= self.tokens@.len() && (self.in_order()
                ==> p.span.valid_in(self.file@) && p.data.ty.span.valid_in(self.file@)),
    {
        match self.parse_type(i) {
            Err(e) => Err(e),
            Ok((ty, j)) => match self.name_at(j, 0) {
                None => Err(self.error(j, 0, Expected::Identifier)),
                Some(name) => Ok(
                    (Spanned { span: self.span(i, j + 1), data: Parameter { ty, name } }, j + 1),
                ),
            },
        }
    }

    /// The parameters of a method, with their parentheses.
    pub fn parse_params(&self, i: usize) -> (r: ParamsResult)
        requires
            i <= self.tokens@.len(),
        ensures
            same_params(r, spec_params(self.tokens@, i as int)),
            r matches Ok((ps, _)) ==> params_known(ps.data@, self.tokens@),
            r matches Ok((ps, j)) ==> i < j <= self.tokens@.len() && (self.in_order()
                ==> params_spans_ok(params_tree(&ps), self.file@)),
    {
        if !self.is_op(i, 0, Operator::LeftParen) {
            return Err(self.error(i, 0, Expected::Operator(Operator::LeftParen)));
        }
        let mut params: Vec<Spanned<Parameter>> = Vec::new();
        if self.is_op(i, 1, Operator::RightParen) {
            return Ok((Spanned { span: self.span(i, i + 2), data: params }, i + 2));
        }
        let mut j: usize = i + 1;
        loop
            invariant
                i < j <= self.tokens@.len(),
                spec_params_rest(self.tokens@, i as int, j as int, params@) == spec_params(
                    self.tokens@,
                    i as int,
                ),
                self.in_order() ==> forall|k: int|
                    0 <= k < params@.len() ==> (#[trigger] params@[k]).span.valid_in(self.file@)
                        && params@[k].data.ty.span.valid_in(self.file@),
                params_known(params@, self.tokens@),
            decreases self.tokens@.len() - j,
        {
            match self.parse_param(j) {
                Err(e) => {
                    return Err(e);
                },
                Ok((p, k)) => {
                    params.push(p);
                    if self.is_op(k, 0, Operator::Comma) {
                        j = k + 1;
                    } else if self.is_op(k, 0, Operator::RightParen) {
                        return Ok((Spanned { span: self.span(i, k + 1), data: params }, k + 1));
                    } else {
                        return Err(self.error(k, 0, Expected::Operator(Operator::RightParen)));
                    }
                },
            }
        }
    }

    /// What follows the parameters of a method: optionally `throws` and a
    /// name, then the body.
    pub fn parse_body(&self, i: usize) -> (r: BlockResult)
        requires
            i <= self.tokens@.len(),
        ensures
            same_block(r, spec_body(self.tokens@, i as int)),
            self.block_read(r, i as int),
            self.block_formed(r),
    {
        if self.is_kw(i, 0, Keyword::Throws) {
            if self.name_at(i, 1).is_some() {
                self.parse_block(i + 2)
            } else {
                Err(self.error(i, 1, Expected::Identifier))
            }
        } else {
            self.parse_block(i)
        }
    }

    /// A method from its parameters on.
    pub fn parse_method_rest(&self, i: usize) -> (r: MethodResult)
        requires
            i <= self.tokens@.len(),
        ensures
            same_method(r, spec_method_rest(self.tokens@, i as int)),
            r matches Ok(((_, body), _)) ==> block_shaped(block_tree(&body)),
            r matches Ok(((ps, body), _)) ==> params_known(ps.data@, self.tokens@) && stmts_known(
                block_tree(&body).data,
                self.tokens@,
            ),
            r matches Ok(((ps, body), j)) ==> i < j <= self.tokens@.len() && (self.in_order()
                ==> params_spans_ok(params_tree(&ps), self.file@) && block_spans_ok(
                block_tree(&body),
                self.file@,
            )),
    {
        match self.parse_params(i) {
            Err(e) => Err(e),
            Ok((params, j)) => match self.parse_body(j) {
                Err(e) => Err(e),
                Ok((body, k)) => Ok(((params, body), k)),
            },
        }
    }

    /// A class member. `had_main` says whether the program has a main
    /// method already.
    pub fn parse_member(&self, i: usize, had_main: bool) -> (r: MemberResult)
        requires
            i <= self.tokens@.len(),
        ensures
            same_member(r, spec_member(self.tokens@, i as int, had_main)),
            r matches Ok((m, _)) ==> member_shaped(member_tree(&m)) && (member_tree(
                &m,
            ).data.kind is MainMethod ==> !had_main),
            r matches Ok((m, _)) ==> member_known(member_tree(&m), self.tokens@),
            r matches Ok((m, j)) ==> i < j <= self.tokens@.len() && (self.in_order()
                ==> member_spans_ok(member_tree(&m), self.file@)),
    {
        if !self.is_kw(i, 0, Keyword::Public) {
            return Err(self.error(i, 0, Expected::Keyword(Keyword::Public)));
        }
        if self.is_kw(i, 1, Keyword::Static) {
            if had_main {
                return Err(
                    Spanned { span: self.tokens[i + 1].span, data: SyntaxError::DuplicateMainMethod },
                );
            }
            if !self.is_kw(i, 2, Keyword::Void) {
                return Err(self.error(i, 2, Expected::Keyword(Keyword::Void)));
            }
            match self.name_at(i, 3) {
                None => Err(self.error(i, 3, Expected::Identifier)),
                Some(name) => match self.parse_method_rest(i + 4) {
                    Err(e) => Err(e),
                    Ok(((params, body), k)) => Ok(
                        (
                            Spanned {
                                span: self.span(i, k),
                                data: ClassMember {
                                    kind: ClassMemberKind::MainMethod(params, body),
                                    name,
                                },
                            },
                            k,
                        ),
                    ),
                },
            }
        } else {
            match self.parse_type(i + 1) {
                Err(e) => Err(e),
                Ok((ty, j)) => match self.name_at(j, 0) {
                    None => Err(self.error(j, 0, Expected::Identifier)),
                    Some(name) => if self.is_op(j, 1, Operator::Semicolon) {
                        Ok(
                            (
                                Spanned {
                                    span: self.span(i, j + 2),
                                    data: ClassMember { kind: ClassMemberKind::Field(ty), name },
                                },
                                j + 2,
                            ),
                        )
                    } else if self.is_op(j, 1, Operator::LeftParen) {
                        match self.parse_method_rest(j + 1) {
                            Err(e) => Err(e),
                            Ok(((params, body), k)) => Ok(
                                (
                                    Spanned {
                                        span: self.span(i, k),
                                        data: ClassMember {
                                            kind: ClassMemberKind::Method(ty, params, body),
                                            name,
                                        },
                                    },
                                    k,
                                ),
                            ),
                        }
                    } else if j + 1 < self.tokens.len() {
                        Err(
                            Spanned {
                                span: self.tokens[j + 1].span,
                                data: SyntaxError::InvalidMemberDeclaration,
                            },
                        )
                    } else {
                        Err(self.error(j, 1, Expected::Operator(Operator::Semicolon)))
                    },
                },
            }
        }
    }

    /// A class: `class`, a name, and the members in braces. The flag in
    /// the result says whether the program has a main method by now.
    pub fn parse_class(&self, i: usize, had_main: bool) -> (r: ClassResult)
        requires
            i <= self.tokens@.len(),
        ensures
            same_class(r, spec_class(self.tokens@, i as int, had_main)),
            r matches Ok(((c, _), _)) ==> class_known(class_tree(&c), self.tokens@),
            r matches Ok(((c, main), _)) ==> {
                let ms = class_tree(&c).data.members;
                &&& class_shaped(class_tree(&c))
                &&& main == (had_main || mains(ms, ms.len()) > 0)
                &&& mains(ms, ms.len()) + (if had_main {
                    1int
                } else {
                    0int
                }) <= 1
            },
            r matches Ok(((c, _), j)) ==> i < j <= self.tokens@.len() && (self.in_order()
                ==> class_spans_ok(class_tree(&c), self.file@)),
    {
        if !self.is_kw(i, 0, Keyword::Class) {
            return Err(self.error(i, 0, Expected::Keyword(Keyword::Class)));
        }
        let name = match self.name_at(i, 1) {
            None => {
                return Err(self.error(i, 1, Expected::Identifier));
            },
            Some(name) => name,
        };
        if !self.is_op(i, 2, Operator::LeftBrace) {
            return Err(self.error(i, 2, Expected::Operator(Operator::LeftBrace)));
        }
        let mut members: Vec<Spanned<ClassMember>> = Vec::new();
        let mut main = had_main;
        let mut j: usize = i + 3;
        let ghost goal = spec_members(self.tokens@, i + 3, had_main, Seq::empty());
        assert(member_trees(&members) =~= Seq::empty());
        loop
            invariant
                i + 3 <= j <= self.tokens@.len(),
                spec_members(self.tokens@, j as int, main, member_trees(&members)) == goal,
                class_of(self.tokens@, i as int, name, goal) == spec_class(
                    self.tokens@,
                    i as int,
                    had_main,
                ),
                self.in_order() ==> members_spans_ok(member_trees(&members), self.file@),
                forall|k: int|
                    0 <= k < members@.len() ==> member_shaped(#[trigger] member_trees(&members)[k]),
                members_known(member_trees(&members), self.tokens@),
                name_known(name, self.tokens@),
                main == (had_main || mains(member_trees(&members), members@.len() as nat) > 0),
                mains(member_trees(&members), members@.len() as nat) + (if had_main {
                    1int
                } else {
                    0int
                }) <= 1,
            decreases self.tokens@.len() - j,
        {
            if self.is_op(j, 0, Operator::RightBrace) {
                return Ok(
                    (
                        (
                            Spanned {
                                span: self.span(i, j + 1),
                                data: ClassDeclaration { name, members },
                            },
                            main,
                        ),
                        j + 1,
                    ),
                );
            }
            match self.parse_member(j, main) {
                Err(e) => {
                    return Err(e);
                },
                Ok((m, k)) => {
                    let ghost before = member_trees(&members);
                    let ghost read = member_tree(&m);
                    let found_main = match &m.data.kind {
                        ClassMemberKind::MainMethod(_, _) => true,
                        _ => false,
                    };
                    assert(found_main == is_main(read));
                    main = main || found_main;
                    members.push(m);
                    proof {
                        assert(member_trees(&members) =~= before.push(read));
                        lemma_mains_same(before.push(read), before, before.len());
                        assert forall|n: int| 0 <= n < before.push(read).len() implies member_shaped(
                            #[trigger] before.push(read)[n],
                        ) by {
                            if n < before.len() {
                                assert(member_shaped(before[n]));
                            }
                        }
                        assert forall|n: int| 0 <= n < before.push(read).len() implies member_known(
                            #[trigger] before.push(read)[n],
                            self.tokens@,
                        ) by {
                            if n < before.len() {
                                assert(member_known(before[n], self.tokens@));
                            }
                        }
                        if self.in_order() {
                            assert forall|n: int| 0 <= n < before.push(read).len() implies member_spans_ok(
                                #[trigger] before.push(read)[n],
                                self.file@,
                            ) by {
                                if n < before.len() {
                                    assert(member_spans_ok(before[n], self.file@));
                                }
                            }
                        }
                    }
                    j = k;
                },
            }
        }
    }

    /// The syntax tree of the program that the tokens spell: the tree that
    /// the grammar gives, or the first error. Every span in it is a span
    /// of the file, if the tokens are those of the file.
    pub fn parse(&self) -> (r: Result<AST, Spanned<SyntaxError>>)
        ensures
            same_ast(r, spec_parse(self.tokens@)),
            r matches Ok(a) ==> shaped(ast_tree(&a)),
            r matches Ok(a) ==> ast_known(ast_tree(&a), self.tokens@),
            r matches Ok(a) ==> (self.in_order() ==> spans_ok(ast_tree(&a), self.file@)),
    {
        let n = self.tokens.len();
        if n == 0 {
            return Ok(AST::Empty);
        }
        let mut classes: Vec<Spanned<ClassDeclaration>> = Vec::new();
        let mut main = false;
        let mut j: usize = 0;
        assert(class_trees(&classes) =~= Seq::empty());
        while j < n
            invariant
                0 < n == self.tokens@.len(),
                j <= n,
                spec_classes(self.tokens@, j as int, main, class_trees(&classes)) == spec_classes(
                    self.tokens@,
                    0,
                    false,
                    Seq::empty(),
                ),
                self.in_order() ==> classes_spans_ok(class_trees(&classes), self.file@),
                j > 0 ==> classes@.len() > 0,
                forall|k: int|
                    0 <= k < classes@.len() ==> class_shaped(#[trigger] class_trees(&classes)[k]),
                classes_known(class_trees(&classes), self.tokens@),
                main == (program_mains(class_trees(&classes), classes@.len() as nat) > 0),
                program_mains(class_trees(&classes), classes@.len() as nat) <= 1,
            decreases n - j,
        {
            match self.parse_class(j, main) {
                Err(e) => {
                    return Err(e);
                },
                Ok(((c, now), k)) => {
                    let ghost before = class_trees(&classes);
                    let ghost read = class_tree(&c);
                    classes.push(c);
                    proof {
                        assert(class_trees(&classes) =~= before.push(read));
                        lemma_program_mains_same(before.push(read), before, before.len());
                        assert forall|n: int| 0 <= n < before.push(read).len() implies class_shaped(
                            #[trigger] before.push(read)[n],
                        ) by {
                            if n < before.len() {
                                assert(class_shaped(before[n]));
                            }
                        }
                        assert forall|n: int| 0 <= n < before.push(read).len() implies class_known(
                            #[trigger] before.push(read)[n],
                            self.tokens@,
                        ) by {
                            if n < before.len() {
                                assert(class_known(before[n], self.tokens@));
                            }
                        }
                        if self.in_order() {
                            assert forall|n: int| 0 <= n < before.push(read).len() implies class_spans_ok(
                                #[trigger] before.push(read)[n],
                                self.file@,
                            ) by {
                                if n < before.len() {
                                    assert(class_spans_ok(before[n], self.file@));
                                }
                            }
                        }
                    }
                    main = now;
                    j = k;
                },
            }
        }
        Ok(AST::Program(Spanned { span: self.span(0, n), data: Program { classes } }))
    }
}

} // verus!

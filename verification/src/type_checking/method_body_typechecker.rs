//! Checking of method bodies: every statement and expression is typed
//! against the declarations of the program, with the variables that are
//! visible where it stands. What is wrong is collected, not thrown: the
//! check goes on behind an error.
use super::scoped::{spec_define, spec_lookup, Scoped};
use super::type_system::{
    array_of, assignable, spec_basic, spec_checked, CheckedType, ClassDef, ClassMethodDef,
    MethodParamDef, RedefinitionKind, SemanticError, TypeSystem,
};
use crate::asciifile::{Span, Spanned};
use crate::ast;
use crate::strtab::Symbol;
use vstd::prelude::*;
use vstd::std_specs::convert::FromSpecImpl;

pub use super::scoped::VarDef;

verus! {

/// What an expression refers to, where it refers to something that has a
/// place in memory or can be called.
#[derive(Debug, Clone, Copy, PartialEq, Eq, Structural)]
pub enum RefInfo {
    GlobalVar(Symbol),
    /// A local variable.
    Var(Symbol),
    /// A parameter of the method.
    Param(Symbol),
    /// The field with the given index of the class with the given index.
    Field(usize, usize),
    /// The method with the given index of the class with the given index.
    Method(usize, usize),
    /// `this`, an object of the class with the given index.
    This(usize),
    ArrayAccess,
}

/// What is known of an expression that could be typed.
pub struct ExprInfo {
    pub ty: CheckedType,
    pub ref_info: Option<RefInfo>,
}

impl ExprInfo {
    /// An expression of type `ty` that refers to `ref_info`.
    pub fn new(ty: CheckedType, ref_info: RefInfo) -> (r: ExprInfo)
        ensures
            r == (ExprInfo { ty, ref_info: Some(ref_info) }),
    {
        ExprInfo { ty, ref_info: Some(ref_info) }
    }
}

impl From<CheckedType> for ExprInfo {
    fn from(item: CheckedType) -> (r: ExprInfo) {
        ExprInfo { ty: item, ref_info: None }
    }
}

impl FromSpecImpl<CheckedType> for ExprInfo {
    open spec fn obeys_from_spec() -> bool {
        true
    }

    open spec fn from_spec(item: CheckedType) -> ExprInfo {
        ExprInfo { ty: item, ref_info: None }
    }
}

/// The type of an expression could not be determined.
#[derive(Debug, Clone, Copy, PartialEq, Eq, Structural)]
pub struct CouldNotDetermineType;

/// An expression that refers to nothing and has type `ty`.
pub open spec fn plain(ty: CheckedType) -> Result<ExprInfo, CouldNotDetermineType> {
    Ok(ExprInfo { ty, ref_info: None })
}

/// `errs` with the error `e` at `span` behind it.
pub open spec fn report(errs: Seq<Spanned<SemanticError>>, span: Span, e: SemanticError) -> Seq<
    Spanned<SemanticError>,
> {
    errs.push(Spanned { span, data: e })
}

/// `errs`, with the error that the expression has a wrong type behind it
/// if the expression was typed and its type may not be assigned to
/// `expected`.
pub open spec fn expect_type(
    errs: Seq<Spanned<SemanticError>>,
    expected: CheckedType,
    typed: Result<ExprInfo, CouldNotDetermineType>,
    span: Span,
) -> Seq<Spanned<SemanticError>> {
    match typed {
        Ok(info) => if assignable(expected, info.ty) {
            errs
        } else {
            report(errs, span, SemanticError::InvalidType { ty_expected: expected, ty_expr: info.ty })
        },
        Err(_) => errs,
    }
}

/// `errs`, with the error that the class does not exist behind it if
/// `basic` names a class that the program does not declare.
pub open spec fn expect_class(
    ts: &TypeSystem,
    errs: Seq<Spanned<SemanticError>>,
    basic: ast::BasicType,
    span: Span,
) -> Seq<Spanned<SemanticError>> {
    match basic {
        ast::BasicType::Custom(name) => if ts.spec_class(name) is None {
            report(errs, span, SemanticError::ClassDoesNotExist { class_name: name })
        } else {
            errs
        },
        _ => errs,
    }
}

/// The class of objects of type `ty`, if it is one that the program
/// declares.
pub open spec fn spec_resolve_class(ts: &TypeSystem, ty: CheckedType) -> Option<int> {
    match ty {
        CheckedType::TypeRef(name) => ts.spec_class(name),
        _ => None,
    }
}

/// Where a method body is checked: in which method of which class.
pub struct Place {
    pub class: usize,
    pub method: usize,
}

impl Place {
    /// The class and the method exist in `ts`.
    pub open spec fn valid_in(&self, ts: &TypeSystem) -> bool {
        self.class < ts.defined_classes@.len()
            && self.method < ts.defined_classes@[self.class as int].methods@.len()
    }

    pub open spec fn class_def(&self, ts: &TypeSystem) -> ClassDef {
        ts.defined_classes@[self.class as int]
    }

    pub open spec fn method_def(&self, ts: &TypeSystem) -> ClassMethodDef {
        ts.defined_classes@[self.class as int].methods@[self.method as int]
    }
}

/// What a name that stands alone refers to, and what is wrong with it. A
/// local variable or a parameter comes first, then a field of the class,
/// then a class, which cannot be referred to in this way.
pub open spec fn spec_lookup_var(
    ts: &TypeSystem,
    at: &Place,
    scopes: Seq<Seq<(Symbol, VarDef)>>,
    name: Symbol,
    span: Span,
    errs: Seq<Spanned<SemanticError>>,
) -> (Result<ExprInfo, CouldNotDetermineType>, Seq<Spanned<SemanticError>>) {
    match spec_lookup(scopes, name) {
        Some(VarDef::Local { ty, .. }) => (
            Ok(ExprInfo { ty, ref_info: Some(RefInfo::Var(name)) }),
            errs,
        ),
        Some(VarDef::Param(def)) => if at.method_def(ts).is_main {
            (Err(CouldNotDetermineType), report(errs, span, SemanticError::MainMethodParamMustNotBeUsed))
        } else {
            (Ok(ExprInfo { ty: def.ty, ref_info: Some(RefInfo::Param(name)) }), errs)
        },
        None => match at.class_def(ts).spec_field(name) {
            Some(f) => (
                Ok(
                    ExprInfo {
                        ty: at.class_def(ts).fields@[f].ty,
                        ref_info: Some(RefInfo::Field(at.class, f as usize)),
                    },
                ),
                if at.method_def(ts).is_static {
                    report(
                        errs,
                        span,
                        SemanticError::CannotAccessNonStaticFieldInStaticMethod { field_name: name },
                    )
                } else {
                    errs
                },
            ),
            None => if ts.spec_class(name) is Some {
                (
                    Err(CouldNotDetermineType),
                    report(errs, span, SemanticError::InvalidReferenceToClass { class_name: name }),
                )
            } else {
                (
                    Err(CouldNotDetermineType),
                    report(errs, span, SemanticError::CannotLookupVarOrField { name }),
                )
            },
        },
    }
}

/// The type of an expression and what is wrong with it. `errs` is what
/// was found wrong before; what is found in the expression is put behind
/// it, in the order of the source.
pub open spec fn spec_type_expr(
    ts: &TypeSystem,
    at: &Place,
    scopes: Seq<Seq<(Symbol, VarDef)>>,
    expr: &Spanned<ast::Expr>,
    errs: Seq<Spanned<SemanticError>>,
) -> (Result<ExprInfo, CouldNotDetermineType>, Seq<Spanned<SemanticError>>)
    decreases expr, 0nat,
{
    match &expr.data {
        ast::Expr::Binary(_, lhs, rhs) => {
            let l = spec_type_expr(ts, at, scopes, lhs, errs);
            match l.0 {
                Err(_) => (Err(CouldNotDetermineType), l.1),
                Ok(li) => {
                    let r = spec_type_expr(ts, at, scopes, rhs, l.1);
                    match r.0 {
                        Err(_) => (Err(CouldNotDetermineType), r.1),
                        Ok(_) => (plain(li.ty), r.1),
                    }
                },
            }
        },
        ast::Expr::Unary(_, operand) => {
            let o = spec_type_expr(ts, at, scopes, operand, errs);
            match o.0 {
                Err(_) => (Err(CouldNotDetermineType), o.1),
                Ok(oi) => (plain(oi.ty), o.1),
            }
        },
        ast::Expr::FieldAccess(target, name) => {
            let t = spec_type_expr(ts, at, scopes, target, errs);
            match t.0 {
                Err(_) => (Err(CouldNotDetermineType), t.1),
                Ok(ti) => match spec_resolve_class(ts, ti.ty) {
                    None => (Err(CouldNotDetermineType), t.1),
                    Some(c) => match ts.defined_classes@[c].spec_field(*name) {
                        None => (Err(CouldNotDetermineType), t.1),
                        Some(f) => (
                            Ok(
                                ExprInfo {
                                    ty: ts.defined_classes@[c].fields@[f].ty,
                                    ref_info: Some(RefInfo::Field(c as usize, f as usize)),
                                },
                            ),
                            t.1,
                        ),
                    },
                },
            }
        },
        ast::Expr::ArrayAccess(target, index) => {
            let i = spec_type_expr(ts, at, scopes, index, errs);
            match i.0 {
                Err(_) => (Err(CouldNotDetermineType), i.1),
                Ok(_) => {
                    let t = spec_type_expr(ts, at, scopes, target, i.1);
                    match t.0 {
                        Err(_) => (Err(CouldNotDetermineType), t.1),
                        Ok(ti) => {
                            let e = expect_type(t.1, CheckedType::Int, i.0, index.span);
                            match ti.ty {
                                CheckedType::Array(item) => (
                                    Ok(
                                        ExprInfo {
                                            ty: *item,
                                            ref_info: Some(RefInfo::ArrayAccess),
                                        },
                                    ),
                                    e,
                                ),
                                _ => (Err(CouldNotDetermineType), e),
                            }
                        },
                    }
                },
            }
        },
        ast::Expr::Null => (plain(CheckedType::Null), errs),
        ast::Expr::Boolean(_) => (plain(CheckedType::Boolean), errs),
        ast::Expr::Int(_) | ast::Expr::NegInt(_) => (plain(CheckedType::Int), errs),
        ast::Expr::Var(name) => spec_lookup_var(ts, at, scopes, *name, expr.span, errs),
        ast::Expr::MethodInvocation(target, name, args) => {
            let t = spec_type_expr(ts, at, scopes, target, errs);
            match t.0 {
                Err(_) => (Err(CouldNotDetermineType), t.1),
                Ok(ti) => match spec_resolve_class(ts, ti.ty) {
                    None => (Err(CouldNotDetermineType), t.1),
                    Some(c) => spec_invocation(ts, at, scopes, c, *name, &args.data, t.1),
                },
            }
        },
        ast::Expr::ThisMethodInvocation(name, args) => {
            let e = if at.method_def(ts).is_static {
                report(
                    errs,
                    expr.span,
                    SemanticError::ThisMethodInvocationInStaticMethod { method_name: *name },
                )
            } else {
                errs
            };
            spec_invocation(ts, at, scopes, at.class as int, *name, &args.data, e)
        },
        ast::Expr::This => if at.method_def(ts).is_static {
            (Err(CouldNotDetermineType), report(errs, expr.span, SemanticError::ThisInStaticMethod))
        } else {
            (
                Ok(
                    ExprInfo {
                        ty: CheckedType::TypeRef(at.class_def(ts).name),
                        ref_info: Some(RefInfo::This(at.class)),
                    },
                ),
                errs,
            )
        },
        ast::Expr::NewObject(name) => if ts.spec_class(*name) is Some {
            (plain(CheckedType::TypeRef(*name)), errs)
        } else {
            (
                Err(CouldNotDetermineType),
                report(errs, expr.span, SemanticError::ClassDoesNotExist { class_name: *name }),
            )
        },
        ast::Expr::NewArray(basic, size, extra) => {
            let s = spec_type_expr(ts, at, scopes, size, errs);
            let e = expect_class(
                ts,
                expect_type(s.1, CheckedType::Int, s.0, size.span),
                *basic,
                expr.span,
            );
            (plain(array_of(spec_basic(*basic), (*extra + 1) as nat)), e)
        },
    }
}

/// The type of a call of the method `name` of the class with index `c`,
/// and what is wrong with it: the arguments have to be as many as the
/// parameters, and each has to fit its parameter.
pub open spec fn spec_invocation(
    ts: &TypeSystem,
    at: &Place,
    scopes: Seq<Seq<(Symbol, VarDef)>>,
    c: int,
    name: Symbol,
    args: &Vec<Spanned<ast::Expr>>,
    errs: Seq<Spanned<SemanticError>>,
) -> (Result<ExprInfo, CouldNotDetermineType>, Seq<Spanned<SemanticError>>)
    decreases args, args@.len() + 1,
{
    match ts.defined_classes@[c].spec_method(name) {
        None => (Err(CouldNotDetermineType), errs),
        Some(mi) => {
            let method = ts.defined_classes@[c].methods@[mi];
            let e = spec_args(ts, at, scopes, args, method.params@, 0, errs);
            if args@.len() == method.params@.len() {
                (
                    Ok(
                        ExprInfo {
                            ty: method.return_ty,
                            ref_info: Some(RefInfo::Method(c as usize, mi as usize)),
                        },
                    ),
                    e,
                )
            } else {
                (Err(CouldNotDetermineType), e)
            }
        },
    }
}

/// What is wrong with the arguments `args[i..]` of a call of a method
/// with the parameters `params`.
pub open spec fn spec_args(
    ts: &TypeSystem,
    at: &Place,
    scopes: Seq<Seq<(Symbol, VarDef)>>,
    args: &Vec<Spanned<ast::Expr>>,
    params: Seq<MethodParamDef>,
    i: int,
    errs: Seq<Spanned<SemanticError>>,
) -> Seq<Spanned<SemanticError>>
    decreases args, args@.len() - i,
{
    if 0 <= i < args@.len() {
        let a = spec_type_expr(ts, at, scopes, &args@[i], errs);
        let e = if i < params.len() {
            expect_type(a.1, params[i].ty, a.0, args@[i].span)
        } else {
            a.1
        };
        spec_args(ts, at, scopes, args, params, i + 1, e)
    } else {
        errs
    }
}


/// Checks the body of one method.
pub struct MethodBodyTypeChecker<'a> {
    pub type_system: &'a TypeSystem,
    /// The class and the method whose body is checked.
    pub place: Place,
    /// The local variables and parameters that are visible.
    pub local_scope: Scoped,
    /// What was found wrong so far, in the order of the source.
    pub errors: Vec<Spanned<SemanticError>>,
}

impl<'a> MethodBodyTypeChecker<'a> {
    /// The class and the method exist, and a scope is open.
    pub open spec fn wf(&self) -> bool {
        self.place.valid_in(self.type_system) && self.local_scope@.len() > 0
    }

    /// Nothing but the errors changed from `old` to `self`.
    pub open spec fn same_but_errors(&self, old: &Self) -> bool {
        &&& self.type_system == old.type_system
        &&& self.place == old.place
        &&& self.local_scope@ == old.local_scope@
    }

    /// Puts an error at `span` behind those that were found.
    fn report_error(&mut self, span: Span, e: SemanticError)
        ensures
            final(self).same_but_errors(old(self)),
            final(self).errors@ == report(old(self).errors@, span, e),
    {
        self.errors.push(Spanned { span, data: e });
    }

    /// Reports that the expression has a wrong type if it was typed and
    /// its type may not be assigned to `expected`.
    fn check_assignable(
        &mut self,
        expected: &CheckedType,
        typed: &Result<ExprInfo, CouldNotDetermineType>,
        span: Span,
    )
        ensures
            final(self).same_but_errors(old(self)),
            final(self).errors@ == expect_type(old(self).errors@, *expected, *typed, span),
    {
        match typed {
            Ok(info) => {
                if !expected.is_assignable_from(&info.ty) {
                    self.report_error(
                        span,
                        SemanticError::InvalidType {
                            ty_expected: expected.copy(),
                            ty_expr: info.ty.copy(),
                        },
                    );
                }
            },
            Err(_) => {},
        }
    }

    /// Reports that the class does not exist if `basic` names a class
    /// that the program does not declare.
    fn check_class_exists(&mut self, basic: &ast::BasicType, span: Span)
        ensures
            final(self).same_but_errors(old(self)),
            final(self).errors@ == expect_class(
                old(self).type_system,
                old(self).errors@,
                *basic,
                span,
            ),
    {
        match basic {
            ast::BasicType::Custom(name) => {
                if self.type_system.resolve_type_ref(*name).is_none() {
                    self.report_error(span, SemanticError::ClassDoesNotExist { class_name: *name });
                }
            },
            _ => {},
        }
    }

    /// The class of objects of type `ty`, if it is one that the program
    /// declares.
    pub fn resolve_class(&self, ty: &CheckedType) -> (r: Option<usize>)
        ensures
            r matches Some(c) ==> spec_resolve_class(self.type_system, *ty) == Some(c as int) && c
                < self.type_system.defined_classes@.len(),
            r is None ==> spec_resolve_class(self.type_system, *ty) is None,
    {
        match ty {
            CheckedType::TypeRef(name) => self.type_system.resolve_type_ref(*name),
            _ => None,
        }
    }

    /// What a name that stands alone refers to.
    pub fn lookup_var(&mut self, name: Symbol, span: Span) -> (r: Result<
        ExprInfo,
        CouldNotDetermineType,
    >)
        requires
            old(self).wf(),
        ensures
            final(self).same_but_errors(old(self)),
            (r, final(self).errors@) == spec_lookup_var(
                old(self).type_system,
                &old(self).place,
                old(self).local_scope@,
                name,
                span,
                old(self).errors@,
            ),
    {
        let ts = self.type_system;
        let class = &ts.defined_classes[self.place.class];
        let method = &class.methods[self.place.method];
        let found: Option<(CheckedType, bool)> = match self.local_scope.lookup(name) {
            Some(VarDef::Local { ty, .. }) => Some((ty.copy(), false)),
            Some(VarDef::Param(def)) => Some((def.ty.copy(), true)),
            None => None,
        };
        match found {
            Some((ty, false)) => Ok(ExprInfo::new(ty, RefInfo::Var(name))),
            Some((ty, true)) => {
                if method.is_main {
                    self.report_error(span, SemanticError::MainMethodParamMustNotBeUsed);
                    Err(CouldNotDetermineType)
                } else {
                    Ok(ExprInfo::new(ty, RefInfo::Param(name)))
                }
            },
            None => match class.get_field(name) {
                Some(f) => {
                    if method.is_static {
                        self.report_error(
                            span,
                            SemanticError::CannotAccessNonStaticFieldInStaticMethod {
                                field_name: name,
                            },
                        );
                    }
                    Ok(ExprInfo::new(class.fields[f].ty.copy(), RefInfo::Field(self.place.class, f)))
                },
                None => {
                    if ts.resolve_type_ref(name).is_some() {
                        self.report_error(
                            span,
                            SemanticError::InvalidReferenceToClass { class_name: name },
                        );
                    } else {
                        self.report_error(span, SemanticError::CannotLookupVarOrField { name });
                    }
                    Err(CouldNotDetermineType)
                },
            },
        }
    }

    /// The type of an expression. What is wrong with the expression is
    /// put behind the errors that were found before.
    pub fn get_type_expr(&mut self, expr: &Spanned<ast::Expr>) -> (r: Result<
        ExprInfo,
        CouldNotDetermineType,
    >)
        requires
            old(self).wf(),
        ensures
            final(self).same_but_errors(old(self)),
            (r, final(self).errors@) == spec_type_expr(
                old(self).type_system,
                &old(self).place,
                old(self).local_scope@,
                expr,
                old(self).errors@,
            ),
        decreases expr, 0nat,
    {
        let ts = self.type_system;
        match &expr.data {
            ast::Expr::Binary(_, lhs, rhs) => {
                let li = match self.get_type_expr(lhs) {
                    Ok(i) => i,
                    Err(_) => {
                        return Err(CouldNotDetermineType);
                    },
                };
                match self.get_type_expr(rhs) {
                    Ok(_) => Ok(ExprInfo { ty: li.ty, ref_info: None }),
                    Err(_) => Err(CouldNotDetermineType),
                }
            },
            ast::Expr::Unary(_, operand) => match self.get_type_expr(operand) {
                Ok(oi) => Ok(ExprInfo { ty: oi.ty, ref_info: None }),
                Err(_) => Err(CouldNotDetermineType),
            },
            ast::Expr::FieldAccess(target, name) => {
                let ti = match self.get_type_expr(target) {
                    Ok(i) => i,
                    Err(_) => {
                        return Err(CouldNotDetermineType);
                    },
                };
                match self.resolve_class(&ti.ty) {
                    None => Err(CouldNotDetermineType),
                    Some(c) => match ts.defined_classes[c].get_field(*name) {
                        None => Err(CouldNotDetermineType),
                        Some(f) => Ok(
                            ExprInfo::new(
                                ts.defined_classes[c].fields[f].ty.copy(),
                                RefInfo::Field(c, f),
                            ),
                        ),
                    },
                }
            },
            ast::Expr::ArrayAccess(target, index) => {
                let i = self.get_type_expr(index);
                if i.is_err() {
                    return Err(CouldNotDetermineType);
                }
                let ti = match self.get_type_expr(target) {
                    Ok(t) => t,
                    Err(_) => {
                        return Err(CouldNotDetermineType);
                    },
                };
                self.check_assignable(&CheckedType::Int, &i, index.span);
                match ti.ty {
                    CheckedType::Array(item) => Ok(ExprInfo::new(*item, RefInfo::ArrayAccess)),
                    _ => Err(CouldNotDetermineType),
                }
            },
            ast::Expr::Null => Ok(ExprInfo { ty: CheckedType::Null, ref_info: None }),
            ast::Expr::Boolean(_) => Ok(ExprInfo { ty: CheckedType::Boolean, ref_info: None }),
            ast::Expr::Int(_) | ast::Expr::NegInt(_) => Ok(
                ExprInfo { ty: CheckedType::Int, ref_info: None },
            ),
            ast::Expr::Var(name) => self.lookup_var(*name, expr.span),
            ast::Expr::MethodInvocation(target, name, args) => {
                let ti = match self.get_type_expr(target) {
                    Ok(i) => i,
                    Err(_) => {
                        return Err(CouldNotDetermineType);
                    },
                };
                match self.resolve_class(&ti.ty) {
                    None => Err(CouldNotDetermineType),
                    Some(c) => self.check_method_invocation(*name, c, &args.data),
                }
            },
            ast::Expr::ThisMethodInvocation(name, args) => {
                if ts.defined_classes[self.place.class].methods[self.place.method].is_static {
                    self.report_error(
                        expr.span,
                        SemanticError::ThisMethodInvocationInStaticMethod { method_name: *name },
                    );
                }
                let c = self.place.class;
                self.check_method_invocation(*name, c, &args.data)
            },
            ast::Expr::This => {
                let class = &ts.defined_classes[self.place.class];
                if class.methods[self.place.method].is_static {
                    self.report_error(expr.span, SemanticError::ThisInStaticMethod);
                    Err(CouldNotDetermineType)
                } else {
                    Ok(
                        ExprInfo::new(
                            CheckedType::TypeRef(class.name),
                            RefInfo::This(self.place.class),
                        ),
                    )
                }
            },
            ast::Expr::NewObject(name) => {
                if ts.resolve_type_ref(*name).is_some() {
                    Ok(ExprInfo { ty: CheckedType::TypeRef(*name), ref_info: None })
                } else {
                    self.report_error(
                        expr.span,
                        SemanticError::ClassDoesNotExist { class_name: *name },
                    );
                    Err(CouldNotDetermineType)
                }
            },
            ast::Expr::NewArray(basic, size, extra) => {
                let s = self.get_type_expr(size);
                self.check_assignable(&CheckedType::Int, &s, size.span);
                self.check_class_exists(basic, expr.span);
                let inner = CheckedType::from_basic(basic).wrap(*extra);
                Ok(ExprInfo { ty: CheckedType::Array(Box::new(inner)), ref_info: None })
            },
        }
    }

    /// The type of a call of the method `method_name` of the class with
    /// index `target_class`.
    pub fn check_method_invocation(
        &mut self,
        method_name: Symbol,
        target_class: usize,
        args: &Vec<Spanned<ast::Expr>>,
    ) -> (r: Result<ExprInfo, CouldNotDetermineType>)
        requires
            old(self).wf(),
            target_class < old(self).type_system.defined_classes@.len(),
        ensures
            final(self).same_but_errors(old(self)),
            (r, final(self).errors@) == spec_invocation(
                old(self).type_system,
                &old(self).place,
                old(self).local_scope@,
                target_class as int,
                method_name,
                args,
                old(self).errors@,
            ),
        decreases args, args@.len() + 1,
    {
        let ts = self.type_system;
        let class = &ts.defined_classes[target_class];
        let mi = match class.get_method(method_name) {
            Some(mi) => mi,
            None => {
                return Err(CouldNotDetermineType);
            },
        };
        let method = &class.methods[mi];
        let mut i: usize = 0;
        while i < args.len()
            invariant
                self.wf(),
                self.same_but_errors(old(self)),
                ts == self.type_system,
                i <= args@.len(),
                *method == ts.defined_classes@[target_class as int].methods@[mi as int],
                spec_args(
                    ts,
                    &self.place,
                    self.local_scope@,
                    args,
                    method.params@,
                    0,
                    old(self).errors@,
                ) == spec_args(
                    ts,
                    &self.place,
                    self.local_scope@,
                    args,
                    method.params@,
                    i as int,
                    self.errors@,
                ),
            decreases args@.len() - i,
        {
            let a = self.get_type_expr(&args[i]);
            if i < method.params.len() {
                self.check_assignable(&method.params[i].ty, &a, args[i].span);
            }
            i += 1;
        }
        if args.len() == method.params.len() {
            Ok(ExprInfo::new(method.return_ty.copy(), RefInfo::Method(target_class, mi)))
        } else {
            Err(CouldNotDetermineType)
        }
    }
}


/// `errs`, with the error that a condition must be boolean behind it if
/// the condition was typed and is not.
pub open spec fn expect_condition(
    errs: Seq<Spanned<SemanticError>>,
    typed: Result<ExprInfo, CouldNotDetermineType>,
    span: Span,
) -> Seq<Spanned<SemanticError>> {
    match typed {
        Ok(info) => if assignable(CheckedType::Boolean, info.ty) {
            errs
        } else {
            report(errs, span, SemanticError::ConditionMustBeBoolean)
        },
        Err(_) => errs,
    }
}

/// The scopes behind a statement, and what is wrong with the statement.
/// Only the declaration of a local variable changes the scopes.
pub open spec fn spec_check_stmt(
    ts: &TypeSystem,
    at: &Place,
    scopes: Seq<Seq<(Symbol, VarDef)>>,
    stmt: &Spanned<ast::Stmt>,
    errs: Seq<Spanned<SemanticError>>,
) -> (Seq<Seq<(Symbol, VarDef)>>, Seq<Spanned<SemanticError>>)
    decreases stmt, 0nat,
{
    match &stmt.data {
        ast::Stmt::Block(block) => (
            scopes,
            spec_check_stmts(
                ts,
                at,
                scopes.push(Seq::empty()),
                &block.data.statements,
                0,
                errs,
            ).1,
        ),
        ast::Stmt::Empty => (scopes, errs),
        ast::Stmt::If(cond, then, otherwise) => {
            let c = spec_type_expr(ts, at, scopes, cond, errs);
            let t = spec_check_stmt(ts, at, scopes, then, expect_condition(c.1, c.0, cond.span));
            match otherwise {
                Some(o) => spec_check_stmt(ts, at, t.0, o, t.1),
                None => t,
            }
        },
        ast::Stmt::While(cond, body) => {
            let c = spec_type_expr(ts, at, scopes, cond, errs);
            spec_check_stmt(ts, at, scopes, body, expect_condition(c.1, c.0, cond.span))
        },
        ast::Stmt::Expression(expr) => (scopes, spec_type_expr(ts, at, scopes, expr, errs).1),
        ast::Stmt::Return(value) => {
            let return_ty = at.method_def(ts).return_ty;
            match value {
                None => if return_ty is Void {
                    (scopes, errs)
                } else {
                    (
                        scopes,
                        report(
                            errs,
                            stmt.span,
                            SemanticError::MethodMustReturnSomething { ty: return_ty },
                        ),
                    )
                },
                Some(expr) => {
                    let e = spec_type_expr(ts, at, scopes, expr, errs);
                    if return_ty is Void {
                        (scopes, report(e.1, stmt.span, SemanticError::VoidMethodCannotReturnValue))
                    } else {
                        match e.0 {
                            Ok(info) => if assignable(return_ty, info.ty) {
                                (scopes, e.1)
                            } else {
                                (
                                    scopes,
                                    report(
                                        e.1,
                                        stmt.span,
                                        SemanticError::InvalidReturnType {
                                            ty_expr: info.ty,
                                            ty_return: return_ty,
                                        },
                                    ),
                                )
                            },
                            Err(_) => (scopes, e.1),
                        }
                    }
                },
            }
        },
        ast::Stmt::LocalVariableDeclaration(ty, name, init) => {
            let def_ty = spec_checked(ty.data);
            let e0 = expect_class(ts, errs, ty.data.basic, ty.span);
            let defined = if spec_lookup(scopes, *name) is Some {
                (
                    scopes,
                    report(
                        e0,
                        stmt.span,
                        SemanticError::RedefinitionError {
                            kind: RedefinitionKind::LocalVar,
                            name: *name,
                        },
                    ),
                )
            } else {
                (spec_define(scopes, *name, VarDef::Local { name: *name, ty: def_ty }), e0)
            };
            match init {
                Some(expr) => {
                    let e = spec_type_expr(ts, at, defined.0, expr, defined.1);
                    (defined.0, expect_type(e.1, def_ty, e.0, expr.span))
                },
                None => defined,
            }
        },
    }
}

/// The scopes behind the statements `stmts[i..]`, and what is wrong with
/// them.
pub open spec fn spec_check_stmts(
    ts: &TypeSystem,
    at: &Place,
    scopes: Seq<Seq<(Symbol, VarDef)>>,
    stmts: &Vec<Spanned<ast::Stmt>>,
    i: int,
    errs: Seq<Spanned<SemanticError>>,
) -> (Seq<Seq<(Symbol, VarDef)>>, Seq<Spanned<SemanticError>>)
    decreases stmts, stmts@.len() - i,
{
    if 0 <= i < stmts@.len() {
        let s = spec_check_stmt(ts, at, scopes, &stmts@[i], errs);
        spec_check_stmts(ts, at, s.0, stmts, i + 1, s.1)
    } else {
        (scopes, errs)
    }
}

/// Checking a statement leaves as many scopes open as it found.
pub proof fn lemma_stmt_keeps_depth(
    ts: &TypeSystem,
    at: &Place,
    scopes: Seq<Seq<(Symbol, VarDef)>>,
    stmt: &Spanned<ast::Stmt>,
    errs: Seq<Spanned<SemanticError>>,
)
    requires
        scopes.len() > 0,
    ensures
        spec_check_stmt(ts, at, scopes, stmt, errs).0.len() == scopes.len(),
    decreases stmt,
{
    match &stmt.data {
        ast::Stmt::If(cond, then, otherwise) => {
            let c = spec_type_expr(ts, at, scopes, cond, errs);
            let e = expect_condition(c.1, c.0, cond.span);
            lemma_stmt_keeps_depth(ts, at, scopes, then, e);
            let t = spec_check_stmt(ts, at, scopes, then, e);
            match otherwise {
                Some(o) => {
                    lemma_stmt_keeps_depth(ts, at, t.0, o, t.1);
                },
                None => {},
            }
        },
        ast::Stmt::While(cond, body) => {
            let c = spec_type_expr(ts, at, scopes, cond, errs);
            lemma_stmt_keeps_depth(ts, at, scopes, body, expect_condition(c.1, c.0, cond.span));
        },
        _ => {},
    }
}

impl<'a> MethodBodyTypeChecker<'a> {
    /// Nothing but the errors and the scopes changed from `old` to
    /// `self`.
    pub open spec fn same_place(&self, old: &Self) -> bool {
        self.type_system == old.type_system && self.place == old.place
    }

    /// Reports that a condition must be boolean if the condition was
    /// typed and is not.
    fn check_condition(&mut self, typed: &Result<ExprInfo, CouldNotDetermineType>, span: Span)
        ensures
            final(self).same_but_errors(old(self)),
            final(self).errors@ == expect_condition(old(self).errors@, *typed, span),
    {
        match typed {
            Ok(info) => {
                if !CheckedType::Boolean.is_assignable_from(&info.ty) {
                    self.report_error(span, SemanticError::ConditionMustBeBoolean);
                }
            },
            Err(_) => {},
        }
    }

    /// Checks the statements of a block in a scope of their own.
    pub fn check_type_block(&mut self, block: &ast::Block)
        requires
            old(self).wf(),
        ensures
            final(self).wf(),
            final(self).same_but_errors(old(self)),
            final(self).errors@ == spec_check_stmts(
                old(self).type_system,
                &old(self).place,
                old(self).local_scope@.push(Seq::empty()),
                &block.statements,
                0,
                old(self).errors@,
            ).1,
        decreases block.statements, block.statements@.len() + 1,
    {
        let ghost before = self.local_scope@;
        self.local_scope.enter_scope();
        let stmts = &block.statements;
        let mut i: usize = 0;
        while i < stmts.len()
            invariant
                self.wf(),
                self.same_place(old(self)),
                self.local_scope@.len() == before.len() + 1,
                self.local_scope@.drop_last() == before,
                before == old(self).local_scope@,
                stmts == &block.statements,
                i <= stmts@.len(),
                spec_check_stmts(
                    self.type_system,
                    &self.place,
                    before.push(Seq::empty()),
                    stmts,
                    0,
                    old(self).errors@,
                ) == spec_check_stmts(
                    self.type_system,
                    &self.place,
                    self.local_scope@,
                    stmts,
                    i as int,
                    self.errors@,
                ),
            decreases stmts@.len() - i,
        {
            self.check_type_stmt(&stmts[i]);
            i += 1;
        }
        let r = self.local_scope.leave_scope();
    }

    /// Checks a statement. What is wrong with it is put behind the errors
    /// that were found before; a local variable that it declares is
    /// visible from then on.
    pub fn check_type_stmt(&mut self, stmt: &Spanned<ast::Stmt>)
        requires
            old(self).wf(),
        ensures
            final(self).wf(),
            final(self).same_place(old(self)),
            final(self).local_scope@.len() == old(self).local_scope@.len(),
            final(self).local_scope@.drop_last() == old(self).local_scope@.drop_last(),
            (final(self).local_scope@, final(self).errors@) == spec_check_stmt(
                old(self).type_system,
                &old(self).place,
                old(self).local_scope@,
                stmt,
                old(self).errors@,
            ),
        decreases stmt, 0nat,
    {
        let ts = self.type_system;
        match &stmt.data {
            ast::Stmt::Block(block) => {
                self.check_type_block(&block.data);
            },
            ast::Stmt::Empty => {},
            ast::Stmt::If(cond, then, otherwise) => {
                let c = self.get_type_expr(cond);
                self.check_condition(&c, cond.span);
                self.check_type_stmt(then);
                match otherwise {
                    Some(o) => {
                        self.check_type_stmt(o);
                    },
                    None => {},
                }
            },
            ast::Stmt::While(cond, body) => {
                let c = self.get_type_expr(cond);
                self.check_condition(&c, cond.span);
                self.check_type_stmt(body);
            },
            ast::Stmt::Expression(expr) => {
                let _ = self.get_type_expr(expr);
            },
            ast::Stmt::Return(value) => {
                let return_ty = &ts.defined_classes[self.place.class].methods[self.place.method].return_ty;
                let is_void = matches!(return_ty, CheckedType::Void);
                match value {
                    None => {
                        if !is_void {
                            self.report_error(
                                stmt.span,
                                SemanticError::MethodMustReturnSomething { ty: return_ty.copy() },
                            );
                        }
                    },
                    Some(expr) => {
                        let e = self.get_type_expr(expr);
                        if is_void {
                            self.report_error(stmt.span, SemanticError::VoidMethodCannotReturnValue);
                        } else {
                            match e {
                                Ok(info) => {
                                    if !return_ty.is_assignable_from(&info.ty) {
                                        self.report_error(
                                            stmt.span,
                                            SemanticError::InvalidReturnType {
                                                ty_expr: info.ty,
                                                ty_return: return_ty.copy(),
                                            },
                                        );
                                    }
                                },
                                Err(_) => {},
                            }
                        }
                    },
                }
            },
            ast::Stmt::LocalVariableDeclaration(ty, name, init) => {
                let def_ty = CheckedType::from_ty(&ty.data);
                self.check_class_exists(&ty.data.basic, ty.span);
                let ghost scopes0 = self.local_scope@;
                match self.local_scope.define(*name, VarDef::Local { name: *name, ty: def_ty.copy() }) {
                    Ok(_) => {
                        assert(self.local_scope@.drop_last() =~= scopes0.drop_last());
                    },
                    Err(_) => {
                        self.report_error(
                            stmt.span,
                            SemanticError::RedefinitionError {
                                kind: RedefinitionKind::LocalVar,
                                name: *name,
                            },
                        );
                    },
                }
                match init {
                    Some(expr) => {
                        let e = self.get_type_expr(expr);
                        self.check_assignable(&def_ty, &e, expr.span);
                    },
                    None => {},
                }
            },
        }
    }
}


/// The scopes in which the parameters `params[i..]` are defined on top of
/// `scopes`. Of two parameters with one name the first counts.
pub open spec fn spec_param_scope(
    params: Seq<MethodParamDef>,
    i: int,
    scopes: Seq<Seq<(Symbol, VarDef)>>,
) -> Seq<Seq<(Symbol, VarDef)>>
    decreases params.len() - i,
{
    if 0 <= i < params.len() {
        spec_param_scope(
            params,
            i + 1,
            if spec_lookup(scopes, params[i].name) is Some {
                scopes
            } else {
                spec_define(scopes, params[i].name, VarDef::Param(params[i]))
            },
        )
    } else {
        scopes
    }
}

/// What is wrong with the body `body` of the method with index `m` of the
/// class with index `c`.
pub open spec fn spec_check_body(
    ts: &TypeSystem,
    c: usize,
    m: usize,
    body: &ast::Block,
    errs: Seq<Spanned<SemanticError>>,
) -> Seq<Spanned<SemanticError>> {
    let at = Place { class: c, method: m };
    spec_check_stmts(
        ts,
        &at,
        spec_param_scope(
            at.method_def(ts).params@,
            0,
            seq![Seq::<(Symbol, VarDef)>::empty()],
        ).push(Seq::empty()),
        &body.statements,
        0,
        errs,
    ).1
}

/// What is wrong with the bodies of the methods among `members[i..]` of
/// the class with index `c`. A member without a method of its name in the
/// class is passed over.
pub open spec fn spec_check_members(
    ts: &TypeSystem,
    c: usize,
    members: &Vec<Spanned<ast::ClassMember>>,
    i: int,
    errs: Seq<Spanned<SemanticError>>,
) -> Seq<Spanned<SemanticError>>
    decreases members@.len() - i,
{
    if 0 <= i < members@.len() {
        let member = members@[i].data;
        let e = match member.kind {
            ast::ClassMemberKind::Field(_) => errs,
            ast::ClassMemberKind::Method(_, _, block) => match ts.defined_classes@[c as int].spec_method(
                member.name,
            ) {
                Some(m) => spec_check_body(ts, c, m as usize, &block.data, errs),
                None => errs,
            },
            ast::ClassMemberKind::MainMethod(_, block) => match ts.defined_classes@[c as int].spec_method(
                member.name,
            ) {
                Some(m) => spec_check_body(ts, c, m as usize, &block.data, errs),
                None => errs,
            },
        };
        spec_check_members(ts, c, members, i + 1, e)
    } else {
        errs
    }
}

/// The type system knows the class of the declaration, and in it every
/// method that the declaration has.
pub open spec fn declared(ts: &TypeSystem, class_decl: &ast::ClassDeclaration) -> bool {
    ts.spec_class(class_decl.name) matches Some(c) && forall|i: int|
        0 <= i < class_decl.members@.len() && !((#[trigger] class_decl.members@[i]).data.kind is Field)
            ==> ts.defined_classes@[c].spec_method(class_decl.members@[i].data.name) is Some
}

/// Whether the type system knows the class of the declaration, and in it
/// every method that the declaration has.
pub fn is_declared(class_decl: &ast::ClassDeclaration, ts: &TypeSystem) -> (r: bool)
    ensures
        r == declared(ts, class_decl),
{
    let c = match ts.resolve_type_ref(class_decl.name) {
        Some(c) => c,
        None => {
            return false;
        },
    };
    let members = &class_decl.members;
    let mut i: usize = 0;
    while i < members.len()
        invariant
            i <= members@.len(),
            members == &class_decl.members,
            ts.spec_class(class_decl.name) == Some(c as int),
            c < ts.defined_classes@.len(),
            forall|j: int|
                0 <= j < i && !((#[trigger] members@[j]).data.kind is Field)
                    ==> ts.defined_classes@[c as int].spec_method(members@[j].data.name) is Some,
        decreases members@.len() - i,
    {
        let member = &members[i].data;
        let is_field = match &member.kind {
            ast::ClassMemberKind::Field(_) => true,
            _ => false,
        };
        if !is_field && ts.defined_classes[c].get_method(member.name).is_none() {
            assert(!(members@[i as int].data.kind is Field));
            return false;
        }
        i += 1;
    }
    true
}

/// What is wrong with the method bodies of a class declaration. Nothing
/// is checked if the program does not declare a class of that name.
pub open spec fn spec_check_methods(ts: &TypeSystem, class_decl: &ast::ClassDeclaration) -> Seq<
    Spanned<SemanticError>,
> {
    match ts.spec_class(class_decl.name) {
        Some(c) => spec_check_members(ts, c as usize, &class_decl.members, 0, Seq::empty()),
        None => Seq::empty(),
    }
}

impl<'a> MethodBodyTypeChecker<'a> {
    /// Checks the body of the method with index `m` of the class with
    /// index `c`, and puts what is wrong with it behind `errors`.
    fn check_body(
        type_system: &'a TypeSystem,
        c: usize,
        m: usize,
        body: &ast::Block,
        errors: Vec<Spanned<SemanticError>>,
    ) -> (r: Vec<Spanned<SemanticError>>)
        requires
            c < type_system.defined_classes@.len(),
            m < type_system.defined_classes@[c as int].methods@.len(),
        ensures
            r@ == spec_check_body(type_system, c, m, body, errors@),
    {
        let mut checker = MethodBodyTypeChecker {
            type_system,
            place: Place { class: c, method: m },
            local_scope: Scoped::new(),
            errors,
        };
        let params = &type_system.defined_classes[c].methods[m].params;
        let mut i: usize = 0;
        while i < params.len()
            invariant
                i <= params@.len(),
                checker.local_scope@.len() > 0,
                checker.type_system == type_system,
                checker.place == (Place { class: c, method: m }),
                checker.errors@ == errors@,
                spec_param_scope(params@, 0, seq![Seq::<(Symbol, VarDef)>::empty()])
                    == spec_param_scope(params@, i as int, checker.local_scope@),
            decreases params@.len() - i,
        {
            let def = MethodParamDef { name: params[i].name, ty: params[i].ty.copy() };
            let _ = checker.local_scope.define(params[i].name, VarDef::Param(def));
            i += 1;
        }
        checker.check_type_block(body);
        checker.errors
    }

    /// Checks the bodies of all methods of a class declaration against
    /// the type system, and returns what is wrong with them in the order
    /// of the source.
    pub fn check_methods(class_decl: &ast::ClassDeclaration, type_system: &'a TypeSystem) -> (r: Vec<
        Spanned<SemanticError>,
    >)
        requires
            declared(type_system, class_decl),
        ensures
            r@ == spec_check_methods(type_system, class_decl),
    {
        let mut errors: Vec<Spanned<SemanticError>> = Vec::new();
        let c = match type_system.resolve_type_ref(class_decl.name) {
            Some(c) => c,
            None => {
                return errors;
            },
        };
        let members = &class_decl.members;
        let mut i: usize = 0;
        while i < members.len()
            invariant
                i <= members@.len(),
                c < type_system.defined_classes@.len(),
                spec_check_members(type_system, c, members, 0, Seq::empty()) == spec_check_members(
                    type_system,
                    c,
                    members,
                    i as int,
                    errors@,
                ),
            decreases members@.len() - i,
        {
            let member = &members[i].data;
            match &member.kind {
                ast::ClassMemberKind::Field(_) => {},
                ast::ClassMemberKind::Method(_, _, block) => {
                    match type_system.defined_classes[c].get_method(member.name) {
                        Some(m) => {
                            errors = Self::check_body(type_system, c, m, &block.data, errors);
                        },
                        None => {},
                    }
                },
                ast::ClassMemberKind::MainMethod(_, block) => {
                    match type_system.defined_classes[c].get_method(member.name) {
                        Some(m) => {
                            errors = Self::check_body(type_system, c, m, &block.data, errors);
                        },
                        None => {},
                    }
                },
            }
            i += 1;
        }
        errors
    }
}

} // verus!

//! The two phases of semantic analysis: the declarations of a program are
//! collected into a type system, and then the method bodies are checked
//! against it.
use super::method_body_typechecker::{
    declared, is_declared, spec_check_methods, MethodBodyTypeChecker,
};
use super::type_system::{
    first_index, spec_checked, CheckedType, ClassDef, ClassFieldDef, ClassMethodDef,
    MethodParamDef, RedefinitionKind, SemanticError, TypeSystem,
};
use crate::asciifile::{Span, Spanned};
use crate::ast;
use crate::strtab::Symbol;
use vstd::prelude::*;

verus! {

/// A method as its declaration gives it.
pub struct MethodSig {
    pub name: Symbol,
    pub params: Seq<(Symbol, CheckedType)>,
    pub return_ty: CheckedType,
    pub is_static: bool,
    pub is_main: bool,
}

/// A class as its declaration gives it.
pub struct ClassSig {
    pub name: Symbol,
    pub fields: Seq<(Symbol, CheckedType)>,
    pub methods: Seq<MethodSig>,
}

impl ClassMethodDef {
    pub open spec fn sig(&self) -> MethodSig {
        MethodSig {
            name: self.name,
            params: Seq::new(self.params@.len(), |i: int| (self.params@[i].name, self.params@[i].ty)),
            return_ty: self.return_ty,
            is_static: self.is_static,
            is_main: self.is_main,
        }
    }
}

impl ClassDef {
    pub open spec fn sig(&self) -> ClassSig {
        ClassSig {
            name: self.name,
            fields: Seq::new(self.fields@.len(), |i: int| (self.fields@[i].name, self.fields@[i].ty)),
            methods: Seq::new(self.methods@.len(), |i: int| self.methods@[i].sig()),
        }
    }
}

impl TypeSystem {
    /// The classes of the type system as their declarations give them.
    pub open spec fn sigs(&self) -> Seq<ClassSig> {
        Seq::new(self.defined_classes@.len(), |i: int| self.defined_classes@[i].sig())
    }
}

/// The parameters of a method as they are written in the source.
pub open spec fn spec_params(params: Seq<Spanned<ast::Parameter>>) -> Seq<(Symbol, CheckedType)> {
    Seq::new(params.len(), |i: int| (params[i].data.name, spec_checked(params[i].data.ty.data)))
}

/// What the declarations collected so far are, while the members of one
/// class are gone through.
pub struct Collected {
    pub fields: Seq<(Symbol, CheckedType)>,
    pub methods: Seq<MethodSig>,
    /// Whether the program has a main method already.
    pub main_seen: bool,
    pub errs: Seq<Spanned<SemanticError>>,
}

/// The name is that of one of the fields.
pub open spec fn is_field(fields: Seq<(Symbol, CheckedType)>, name: Symbol) -> bool {
    exists|i: int| 0 <= i < fields.len() && (#[trigger] fields[i]).0 == name
}

/// The name is that of one of the methods.
pub open spec fn is_method(methods: Seq<MethodSig>, name: Symbol) -> bool {
    exists|i: int| 0 <= i < methods.len() && (#[trigger] methods[i]).name == name
}

/// The name is that of one of the classes.
pub open spec fn is_class(classes: Seq<ClassSig>, name: Symbol) -> bool {
    exists|i: int| 0 <= i < classes.len() && (#[trigger] classes[i]).name == name
}

/// `errs` with the error behind it that `name` is declared again.
pub open spec fn redefined(
    errs: Seq<Spanned<SemanticError>>,
    span: Span,
    kind: RedefinitionKind,
    name: Symbol,
) -> Seq<Spanned<SemanticError>> {
    errs.push(Spanned { span, data: SemanticError::RedefinitionError { kind, name } })
}

/// What one member adds to what was collected: a field or a method of a
/// new name is declared, and one of a name that is taken is an error, as
/// is a second main method of the program.
pub open spec fn spec_collect_member(c: Collected, member: &Spanned<ast::ClassMember>) -> Collected {
    let name = member.data.name;
    match member.data.kind {
        ast::ClassMemberKind::Field(ty) => if is_field(c.fields, name) {
            Collected { errs: redefined(c.errs, member.span, RedefinitionKind::Field, name), ..c }
        } else {
            Collected { fields: c.fields.push((name, spec_checked(ty.data))), ..c }
        },
        ast::ClassMemberKind::Method(ret, params, _) => if is_method(c.methods, name) {
            Collected { errs: redefined(c.errs, member.span, RedefinitionKind::Method, name), ..c }
        } else {
            Collected {
                methods: c.methods.push(
                    MethodSig {
                        name,
                        params: spec_params(params.data@),
                        return_ty: spec_checked(ret.data),
                        is_static: false,
                        is_main: false,
                    },
                ),
                ..c
            }
        },
        ast::ClassMemberKind::MainMethod(params, _) => if is_method(c.methods, name) || c.main_seen {
            Collected { errs: redefined(c.errs, member.span, RedefinitionKind::Method, name), ..c }
        } else {
            Collected {
                methods: c.methods.push(
                    MethodSig {
                        name,
                        params: spec_params(params.data@),
                        return_ty: CheckedType::Void,
                        is_static: true,
                        is_main: true,
                    },
                ),
                main_seen: true,
                ..c
            }
        },
    }
}

/// What the members `members[i..]` add to what was collected.
pub open spec fn spec_collect_members(
    c: Collected,
    members: Seq<Spanned<ast::ClassMember>>,
    i: int,
) -> Collected
    decreases members.len() - i,
{
    if 0 <= i < members.len() {
        spec_collect_members(spec_collect_member(c, &members[i]), members, i + 1)
    } else {
        c
    }
}

/// The classes that the declarations `decls[i..]` add to `classes`, with
/// what is wrong with them: a class of a name that is taken is an error
/// and is passed over.
pub open spec fn spec_collect(
    classes: Seq<ClassSig>,
    main_seen: bool,
    errs: Seq<Spanned<SemanticError>>,
    decls: Seq<Spanned<ast::ClassDeclaration>>,
    i: int,
) -> (Seq<ClassSig>, Seq<Spanned<SemanticError>>)
    decreases decls.len() - i,
{
    if 0 <= i < decls.len() {
        let decl = decls[i];
        if is_class(classes, decl.data.name) {
            spec_collect(
                classes,
                main_seen,
                redefined(errs, decl.span, RedefinitionKind::Class, decl.data.name),
                decls,
                i + 1,
            )
        } else {
            let c = spec_collect_members(
                Collected { fields: Seq::empty(), methods: Seq::empty(), main_seen, errs },
                decl.data.members@,
                0,
            );
            spec_collect(
                classes.push(ClassSig { name: decl.data.name, fields: c.fields, methods: c.methods }),
                c.main_seen,
                c.errs,
                decls,
                i + 1,
            )
        }
    } else {
        (classes, errs)
    }
}

/// The parameters of a method as they are written in the source.
fn collect_params(params: &Vec<Spanned<ast::Parameter>>) -> (r: Vec<MethodParamDef>)
    ensures
        Seq::new(r@.len(), |i: int| (r@[i].name, r@[i].ty)) == spec_params(params@),
{
    let mut r: Vec<MethodParamDef> = Vec::new();
    let mut i: usize = 0;
    while i < params.len()
        invariant
            i <= params@.len(),
            r@.len() == i,
            forall|k: int|
                0 <= k < i ==> (#[trigger] r@[k]).name == params@[k].data.name && r@[k].ty
                    == spec_checked(params@[k].data.ty.data),
        decreases params@.len() - i,
    {
        r.push(
            MethodParamDef {
                name: params[i].data.name,
                ty: CheckedType::from_ty(&params[i].data.ty.data),
            },
        );
        i += 1;
    }
    assert(Seq::new(r@.len(), |i: int| (r@[i].name, r@[i].ty)) =~= spec_params(params@));
    r
}

impl TypeSystem {
    /// The type system of a program, with what is wrong with its
    /// declarations.
    pub fn from_program(program: &ast::Program) -> (r: (TypeSystem, Vec<Spanned<SemanticError>>))
        ensures
            (r.0.sigs(), r.1@) == spec_collect(Seq::empty(), false, Seq::empty(), program.classes@, 0),
    {
        let mut ts = TypeSystem::new();
        let mut errors: Vec<Spanned<SemanticError>> = Vec::new();
        let mut main_seen = false;
        let decls = &program.classes;
        let mut i: usize = 0;
        assert(ts.sigs() =~= Seq::<ClassSig>::empty());
        while i < decls.len()
            invariant
                i <= decls@.len(),
                spec_collect(Seq::empty(), false, Seq::empty(), decls@, 0) == spec_collect(
                    ts.sigs(),
                    main_seen,
                    errors@,
                    decls@,
                    i as int,
                ),
            decreases decls@.len() - i,
        {
            let decl = &decls[i];
            let name = decl.data.name;
            let known = ts.resolve_type_ref(name);
            proof {
                lemma_is_class(&ts, name);
            }
            if known.is_some() {
                errors.push(
                    Spanned {
                        span: decl.span,
                        data: SemanticError::RedefinitionError { kind: RedefinitionKind::Class, name },
                    },
                );
            } else {
                let mut class = ClassDef { name, fields: Vec::new(), methods: Vec::new() };
                let members = &decl.data.members;
                let ghost start = Collected {
                    fields: Seq::empty(),
                    methods: Seq::empty(),
                    main_seen,
                    errs: errors@,
                };
                let mut k: usize = 0;
                assert(class.sig().fields =~= Seq::empty());
                assert(class.sig().methods =~= Seq::empty());
                while k < members.len()
                    invariant
                        k <= members@.len(),
                        class.name == name,
                        spec_collect_members(start, members@, 0) == spec_collect_members(
                            Collected {
                                fields: class.sig().fields,
                                methods: class.sig().methods,
                                main_seen,
                                errs: errors@,
                            },
                            members@,
                            k as int,
                        ),
                    decreases members@.len() - k,
                {
                    let member = &members[k];
                    let mname = member.data.name;
                    let ghost before = class.sig();
                    match &member.data.kind {
                        ast::ClassMemberKind::Field(ty) => {
                            let found = class.get_field(mname);
                            proof {
                                lemma_is_field(&class, mname);
                            }
                            if found.is_some() {
                                errors.push(
                                    Spanned {
                                        span: member.span,
                                        data: SemanticError::RedefinitionError {
                                            kind: RedefinitionKind::Field,
                                            name: mname,
                                        },
                                    },
                                );
                            } else {
                                class.fields.push(
                                    ClassFieldDef { name: mname, ty: CheckedType::from_ty(&ty.data) },
                                );
                                assert(class.sig().fields =~= before.fields.push(
                                    (mname, spec_checked(ty.data)),
                                ));
                                assert(class.sig().methods =~= before.methods);
                            }
                        },
                        ast::ClassMemberKind::Method(ret, params, _) => {
                            let found = class.get_method(mname);
                            proof {
                                lemma_is_method(&class, mname);
                            }
                            if found.is_some() {
                                errors.push(
                                    Spanned {
                                        span: member.span,
                                        data: SemanticError::RedefinitionError {
                                            kind: RedefinitionKind::Method,
                                            name: mname,
                                        },
                                    },
                                );
                            } else {
                                let def = ClassMethodDef {
                                    name: mname,
                                    params: collect_params(&params.data),
                                    return_ty: CheckedType::from_ty(&ret.data),
                                    is_static: false,
                                    is_main: false,
                                };
                                let ghost sig = def.sig();
                                class.methods.push(def);
                                assert(class.sig().methods =~= before.methods.push(sig));
                                assert(class.sig().fields =~= before.fields);
                            }
                        },
                        ast::ClassMemberKind::MainMethod(params, _) => {
                            let found = class.get_method(mname);
                            proof {
                                lemma_is_method(&class, mname);
                            }
                            if found.is_some() || main_seen {
                                errors.push(
                                    Spanned {
                                        span: member.span,
                                        data: SemanticError::RedefinitionError {
                                            kind: RedefinitionKind::Method,
                                            name: mname,
                                        },
                                    },
                                );
                            } else {
                                let def = ClassMethodDef {
                                    name: mname,
                                    params: collect_params(&params.data),
                                    return_ty: CheckedType::Void,
                                    is_static: true,
                                    is_main: true,
                                };
                                let ghost sig = def.sig();
                                class.methods.push(def);
                                main_seen = true;
                                assert(class.sig().methods =~= before.methods.push(sig));
                                assert(class.sig().fields =~= before.fields);
                            }
                        },
                    }
                    k += 1;
                }
                let ghost sig = class.sig();
                let ghost before = ts.sigs();
                ts.defined_classes.push(class);
                assert(ts.sigs() =~= before.push(sig));
            }
            i += 1;
        }
        (ts, errors)
    }
}

/// A class has a field of a name exactly when the search for the name
/// finds one.
pub proof fn lemma_is_field(class: &ClassDef, name: Symbol)
    ensures
        is_field(class.sig().fields, name) <==> class.spec_field(name) is Some,
{
    let names = super::type_system::field_names(class.fields@);
    lemma_found_iff(names, name, 0);
    if is_field(class.sig().fields, name) {
        let i = choose|i: int|
            0 <= i < class.sig().fields.len() && (#[trigger] class.sig().fields[i]).0 == name;
        assert(names[i] == name);
    }
    if class.spec_field(name) is Some {
        super::type_system::lemma_first_index(names, name, 0);
        let i = class.spec_field(name)->0;
        assert(class.sig().fields[i].0 == name);
    }
}

/// A class has a method of a name exactly when the search for the name
/// finds one.
pub proof fn lemma_is_method(class: &ClassDef, name: Symbol)
    ensures
        is_method(class.sig().methods, name) <==> class.spec_method(name) is Some,
{
    let names = super::type_system::method_names(class.methods@);
    lemma_found_iff(names, name, 0);
    if is_method(class.sig().methods, name) {
        let i = choose|i: int|
            0 <= i < class.sig().methods.len() && (#[trigger] class.sig().methods[i]).name == name;
        assert(names[i] == name);
    }
    if class.spec_method(name) is Some {
        super::type_system::lemma_first_index(names, name, 0);
        let i = class.spec_method(name)->0;
        assert(class.sig().methods[i].name == name);
    }
}

/// A type system has a class of a name exactly when the search for the
/// name finds one.
pub proof fn lemma_is_class(ts: &TypeSystem, name: Symbol)
    ensures
        is_class(ts.sigs(), name) <==> ts.spec_class(name) is Some,
{
    let names = super::type_system::class_names(ts.defined_classes@);
    lemma_found_iff(names, name, 0);
    if is_class(ts.sigs(), name) {
        let i = choose|i: int| 0 <= i < ts.sigs().len() && (#[trigger] ts.sigs()[i]).name == name;
        assert(names[i] == name);
    }
    if ts.spec_class(name) is Some {
        super::type_system::lemma_first_index(names, name, 0);
        let i = ts.spec_class(name)->0;
        assert(ts.sigs()[i].name == name);
    }
}

/// The search for a name finds one exactly when the name is there.
pub proof fn lemma_found_iff(names: Seq<Symbol>, name: Symbol, from: int)
    requires
        0 <= from,
    ensures
        first_index(names, name, from) is Some <==> exists|i: int|
            from <= i < names.len() && #[trigger] names[i] == name,
    decreases names.len() - from,
{
    if from < names.len() {
        if names[from] != name {
            lemma_found_iff(names, name, from + 1);
            if exists|i: int| from <= i < names.len() && #[trigger] names[i] == name {
                let i = choose|i: int| from <= i < names.len() && #[trigger] names[i] == name;
                assert(from + 1 <= i);
            }
        }
    }
}

/// What is wrong with the method bodies of the classes `decls[i..]`, put
/// behind `errs`.
pub open spec fn spec_check_bodies(
    ts: &TypeSystem,
    decls: Seq<Spanned<ast::ClassDeclaration>>,
    i: int,
    errs: Seq<Spanned<SemanticError>>,
) -> Seq<Spanned<SemanticError>>
    decreases decls.len() - i,
{
    if 0 <= i < decls.len() {
        spec_check_bodies(
            ts,
            decls,
            i + 1,
            if declared(ts, &decls[i].data) {
                errs + spec_check_methods(ts, &decls[i].data)
            } else {
                errs
            },
        )
    } else {
        errs
    }
}

/// Checks the meaning of a program: collects its declarations and checks
/// its method bodies. Returns the type system and everything that is
/// wrong, the declarations first and then the bodies class by class. The
/// program is sound exactly when nothing is returned as wrong.
pub fn check(program: &ast::Program) -> (r: (TypeSystem, Vec<Spanned<SemanticError>>))
    ensures
        r.0.sigs() == spec_collect(Seq::empty(), false, Seq::empty(), program.classes@, 0).0,
        r.1@ == spec_check_bodies(
            &r.0,
            program.classes@,
            0,
            spec_collect(Seq::empty(), false, Seq::empty(), program.classes@, 0).1,
        ),
{
    let (ts, mut errors) = TypeSystem::from_program(program);
    let decls = &program.classes;
    let ghost collected = errors@;
    let mut i: usize = 0;
    while i < decls.len()
        invariant
            i <= decls@.len(),
            spec_check_bodies(&ts, decls@, 0, collected) == spec_check_bodies(
                &ts,
                decls@,
                i as int,
                errors@,
            ),
        decreases decls@.len() - i,
    {
        if is_declared(&decls[i].data, &ts) {
            let mut found = MethodBodyTypeChecker::check_methods(&decls[i].data, &ts);
            let ghost before = errors@;
            let ghost added = found@;
            errors.append(&mut found);
            assert(errors@ =~= before + added);
        }
        i += 1;
    }
    (ts, errors)
}

/// The error that the class of declaration `decl` is declared again.
pub open spec fn class_redefined(decl: Spanned<ast::ClassDeclaration>) -> Spanned<SemanticError> {
    Spanned {
        span: decl.span,
        data: SemanticError::RedefinitionError {
            kind: RedefinitionKind::Class,
            name: decl.data.name,
        },
    }
}

/// What was found wrong stays in the list while the members of a class
/// are gone through.
pub proof fn lemma_members_keep(
    c: Collected,
    members: Seq<Spanned<ast::ClassMember>>,
    i: int,
    e: Spanned<SemanticError>,
)
    requires
        c.errs.contains(e),
    ensures
        spec_collect_members(c, members, i).errs.contains(e),
    decreases members.len() - i,
{
    if 0 <= i < members.len() {
        let next = spec_collect_member(c, &members[i]);
        let j = choose|j: int| 0 <= j < c.errs.len() && c.errs[j] == e;
        assert(next.errs[j] == e);
        lemma_members_keep(next, members, i + 1, e);
    }
}

/// What was found wrong stays in the list, and a name that is the name
/// of a class stays one, while the declarations are gone through.
pub proof fn lemma_collect_keeps(
    classes: Seq<ClassSig>,
    main_seen: bool,
    errs: Seq<Spanned<SemanticError>>,
    decls: Seq<Spanned<ast::ClassDeclaration>>,
    i: int,
    e: Spanned<SemanticError>,
    name: Symbol,
)
    ensures
        errs.contains(e) ==> spec_collect(classes, main_seen, errs, decls, i).1.contains(e),
        is_class(classes, name) ==> is_class(
            spec_collect(classes, main_seen, errs, decls, i).0,
            name,
        ),
    decreases decls.len() - i,
{
    if 0 <= i < decls.len() {
        let decl = decls[i];
        if is_class(classes, decl.data.name) {
            let next = redefined(errs, decl.span, RedefinitionKind::Class, decl.data.name);
            if errs.contains(e) {
                let j = choose|j: int| 0 <= j < errs.len() && errs[j] == e;
                assert(next[j] == e);
            }
            lemma_collect_keeps(classes, main_seen, next, decls, i + 1, e, name);
        } else {
            let start = Collected { fields: Seq::empty(), methods: Seq::empty(), main_seen, errs };
            let c = spec_collect_members(start, decl.data.members@, 0);
            let more = classes.push(
                ClassSig { name: decl.data.name, fields: c.fields, methods: c.methods },
            );
            if errs.contains(e) {
                lemma_members_keep(start, decl.data.members@, 0, e);
            }
            if is_class(classes, name) {
                let j = choose|j: int| 0 <= j < classes.len() && (#[trigger] classes[j]).name == name;
                assert(more[j].name == name);
            }
            lemma_collect_keeps(more, c.main_seen, c.errs, decls, i + 1, e, name);
        }
    }
}

/// A declaration whose name is the name of a class already is found
/// wrong where it stands.
pub proof fn lemma_collect_again(
    classes: Seq<ClassSig>,
    main_seen: bool,
    errs: Seq<Spanned<SemanticError>>,
    decls: Seq<Spanned<ast::ClassDeclaration>>,
    i: int,
    b: int,
)
    requires
        0 <= i <= b < decls.len(),
        is_class(classes, decls[b].data.name),
    ensures
        spec_collect(classes, main_seen, errs, decls, i).1.contains(class_redefined(decls[b])),
    decreases b - i,
{
    let decl = decls[i];
    let name = decls[b].data.name;
    let e = class_redefined(decls[b]);
    if is_class(classes, decl.data.name) {
        let next = redefined(errs, decl.span, RedefinitionKind::Class, decl.data.name);
        if i == b {
            assert(next[errs.len() as int] == e);
            lemma_collect_keeps(classes, main_seen, next, decls, i + 1, e, name);
        } else {
            lemma_collect_again(classes, main_seen, next, decls, i + 1, b);
        }
    } else {
        let start = Collected { fields: Seq::empty(), methods: Seq::empty(), main_seen, errs };
        let c = spec_collect_members(start, decl.data.members@, 0);
        let more = classes.push(
            ClassSig { name: decl.data.name, fields: c.fields, methods: c.methods },
        );
        let j = choose|j: int| 0 <= j < classes.len() && (#[trigger] classes[j]).name == name;
        assert(more[j].name == name);
        lemma_collect_again(more, c.main_seen, c.errs, decls, i + 1, b);
    }
}

/// Of two declarations with one name the second is found wrong where it
/// stands, and the name is the name of a class.
pub proof fn lemma_collect_twice(
    classes: Seq<ClassSig>,
    main_seen: bool,
    errs: Seq<Spanned<SemanticError>>,
    decls: Seq<Spanned<ast::ClassDeclaration>>,
    i: int,
    a: int,
    b: int,
)
    requires
        0 <= i <= a < b < decls.len(),
        decls[a].data.name == decls[b].data.name,
    ensures
        spec_collect(classes, main_seen, errs, decls, i).1.contains(class_redefined(decls[b])),
        is_class(spec_collect(classes, main_seen, errs, decls, i).0, decls[b].data.name),
    decreases a - i,
{
    let decl = decls[i];
    let name = decls[b].data.name;
    let e = class_redefined(decls[b]);
    if is_class(classes, decl.data.name) {
        let next = redefined(errs, decl.span, RedefinitionKind::Class, decl.data.name);
        if i == a {
            lemma_collect_again(classes, main_seen, next, decls, i + 1, b);
            lemma_collect_keeps(classes, main_seen, next, decls, i + 1, e, name);
        } else {
            lemma_collect_twice(classes, main_seen, next, decls, i + 1, a, b);
        }
    } else {
        let start = Collected { fields: Seq::empty(), methods: Seq::empty(), main_seen, errs };
        let c = spec_collect_members(start, decl.data.members@, 0);
        let more = classes.push(
            ClassSig { name: decl.data.name, fields: c.fields, methods: c.methods },
        );
        if i == a {
            assert(more[classes.len() as int].name == name);
            lemma_collect_again(more, c.main_seen, c.errs, decls, i + 1, b);
            lemma_collect_keeps(more, c.main_seen, c.errs, decls, i + 1, e, name);
        } else {
            lemma_collect_twice(more, c.main_seen, c.errs, decls, i + 1, a, b);
        }
    }
}

/// No two of the classes have one name.
pub open spec fn names_apart(classes: Seq<ClassSig>) -> bool {
    forall|i: int, j: int|
        0 <= i < j < classes.len() ==> (#[trigger] classes[i]).name != (#[trigger] classes[j]).name
}

/// No name is given to two classes while the declarations are gone
/// through.
pub proof fn lemma_collect_apart(
    classes: Seq<ClassSig>,
    main_seen: bool,
    errs: Seq<Spanned<SemanticError>>,
    decls: Seq<Spanned<ast::ClassDeclaration>>,
    i: int,
)
    requires
        names_apart(classes),
    ensures
        names_apart(spec_collect(classes, main_seen, errs, decls, i).0),
    decreases decls.len() - i,
{
    if 0 <= i < decls.len() {
        let decl = decls[i];
        if is_class(classes, decl.data.name) {
            let next = redefined(errs, decl.span, RedefinitionKind::Class, decl.data.name);
            lemma_collect_apart(classes, main_seen, next, decls, i + 1);
        } else {
            let start = Collected { fields: Seq::empty(), methods: Seq::empty(), main_seen, errs };
            let c = spec_collect_members(start, decl.data.members@, 0);
            let more = classes.push(
                ClassSig { name: decl.data.name, fields: c.fields, methods: c.methods },
            );
            assert forall|a: int, b: int| 0 <= a < b < more.len() implies (#[trigger] more[a]).name != (
            #[trigger] more[b]).name by {
                if b == classes.len() {
                    assert(classes[a].name != decl.data.name);
                } else {
                    assert(classes[a].name != classes[b].name);
                }
            }
            lemma_collect_apart(more, c.main_seen, c.errs, decls, i + 1);
        }
    }
}

/// What was found wrong with the declarations stays in the list while
/// the method bodies are checked.
pub proof fn lemma_bodies_keep(
    ts: &TypeSystem,
    decls: Seq<Spanned<ast::ClassDeclaration>>,
    i: int,
    errs: Seq<Spanned<SemanticError>>,
    e: Spanned<SemanticError>,
)
    requires
        errs.contains(e),
    ensures
        spec_check_bodies(ts, decls, i, errs).contains(e),
    decreases decls.len() - i,
{
    if 0 <= i < decls.len() {
        let next = if declared(ts, &decls[i].data) {
            errs + spec_check_methods(ts, &decls[i].data)
        } else {
            errs
        };
        let j = choose|j: int| 0 <= j < errs.len() && errs[j] == e;
        assert(next[j] == e);
        lemma_bodies_keep(ts, decls, i + 1, next, e);
    }
}

/// The law of the second declaration: where two classes of a program
/// have one name, the check of the program finds the second one wrong,
/// as a class that is declared again, at the place of that declaration,
/// and the name is the name of one class of the type system and no
/// more.
pub proof fn lemma_class_declared_twice(
    ts: &TypeSystem,
    decls: Seq<Spanned<ast::ClassDeclaration>>,
    a: int,
    b: int,
)
    requires
        0 <= a < b < decls.len(),
        decls[a].data.name == decls[b].data.name,
    ensures
        is_class(
            spec_collect(Seq::empty(), false, Seq::empty(), decls, 0).0,
            decls[b].data.name,
        ),
        names_apart(spec_collect(Seq::empty(), false, Seq::empty(), decls, 0).0),
        spec_check_bodies(
            ts,
            decls,
            0,
            spec_collect(Seq::empty(), false, Seq::empty(), decls, 0).1,
        ).contains(class_redefined(decls[b])),
{
    lemma_collect_twice(Seq::empty(), false, Seq::empty(), decls, 0, a, b);
    lemma_collect_apart(Seq::empty(), false, Seq::empty(), decls, 0);
    lemma_bodies_keep(
        ts,
        decls,
        0,
        spec_collect(Seq::empty(), false, Seq::empty(), decls, 0).1,
        class_redefined(decls[b]),
    );
}

} // verus!

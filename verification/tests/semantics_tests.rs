use compiler_lib::asciifile::{Position, Span, Spanned};
use compiler_lib::ast::{
    BasicType, BinaryOp, Block, ClassDeclaration, ClassMember, ClassMemberKind, Expr, Parameter,
    Program, Stmt, Type, UnaryOp,
};
use compiler_lib::strtab::{StringTable, Symbol};
use compiler_lib::type_checking::method_body_typechecker::{is_declared, MethodBodyTypeChecker};
use compiler_lib::type_checking::semantics::check;
use compiler_lib::type_checking::type_system::{
    CheckedType, RedefinitionKind, SemanticError, TypeSystem,
};

fn at(offset: usize) -> Span {
    let p = Position { row: 0, col: offset, byte_offset: offset };
    Span::new(p, p)
}

fn sp<T>(offset: usize, data: T) -> Spanned<T> {
    Spanned::new(at(offset), data)
}

fn ty(basic: BasicType, depth: u64) -> Spanned<Type> {
    sp(0, Type { basic, array_depth: depth })
}

fn block(statements: Vec<Spanned<Stmt>>) -> Spanned<Block> {
    sp(0, Block { statements })
}

fn method(
    name: Symbol,
    ret: BasicType,
    params: Vec<(BasicType, Symbol)>,
    body: Vec<Spanned<Stmt>>,
) -> Spanned<ClassMember> {
    let params = params
        .into_iter()
        .map(|(basic, name)| sp(0, Parameter { ty: ty(basic, 0), name }))
        .collect();
    sp(
        0,
        ClassMember {
            kind: ClassMemberKind::Method(ty(ret, 0), sp(0, params), block(body)),
            name,
        },
    )
}

fn main_method(st: &mut StringTable, offset: usize, body: Vec<Spanned<Stmt>>) -> Spanned<ClassMember> {
    let string = st.intern(b"String");
    let args = st.intern(b"args");
    let params = vec![sp(0, Parameter { ty: ty(BasicType::Custom(string), 1), name: args })];
    sp(
        offset,
        ClassMember {
            kind: ClassMemberKind::MainMethod(sp(0, params), block(body)),
            name: st.intern(b"main"),
        },
    )
}

fn field(name: Symbol, basic: BasicType) -> Spanned<ClassMember> {
    sp(0, ClassMember { kind: ClassMemberKind::Field(ty(basic, 0)), name })
}

fn class(offset: usize, name: Symbol, members: Vec<Spanned<ClassMember>>) -> Spanned<ClassDeclaration> {
    sp(offset, ClassDeclaration { name, members })
}

fn errors_of(program: &Program) -> Vec<(usize, SemanticError)> {
    let (_, errors) = check(program);
    errors.into_iter().map(|e| (e.span.start.byte_offset, e.data)).collect()
}

fn int_lit(st: &mut StringTable, offset: usize, digits: &str) -> Box<Spanned<Expr>> {
    Box::new(sp(offset, Expr::Int(st.intern(digits.as_bytes()))))
}

#[test]
fn smallest_program_is_sound() {
    let mut st = StringTable::new();
    let a = st.intern(b"A");
    let main = main_method(&mut st, 0, vec![]);
    let program = Program { classes: vec![class(0, a, vec![main])] };
    let (ts, errors) = check(&program);
    assert!(errors.is_empty());
    assert_eq!(ts.defined_classes.len(), 1);
    let m = &ts.defined_classes[0].methods[0];
    assert!(m.is_main && m.is_static);
    assert_eq!(m.return_ty, CheckedType::Void);
    assert_eq!(m.params.len(), 1);
    assert_eq!(
        m.params[0].ty,
        CheckedType::Array(Box::new(CheckedType::TypeRef(st.intern(b"String"))))
    );
}

#[test]
fn condition_must_be_boolean() {
    let mut st = StringTable::new();
    let a = st.intern(b"A");
    let m = st.intern(b"m");
    let one = int_lit(&mut st, 41, "1");
    let body = vec![sp(37, Stmt::If(one, Box::new(sp(44, Stmt::Block(block(vec![])))), None))];
    let program = Program { classes: vec![class(0, a, vec![method(m, BasicType::Void, vec![], body)])] };
    assert_eq!(errors_of(&program), vec![(41, SemanticError::ConditionMustBeBoolean)]);
}

#[test]
fn while_condition_must_be_boolean_too() {
    let mut st = StringTable::new();
    let a = st.intern(b"A");
    let m = st.intern(b"m");
    let cond = Box::new(sp(9, Expr::Null));
    let ok = Box::new(sp(20, Expr::Boolean(true)));
    let body = vec![
        sp(3, Stmt::While(cond, Box::new(sp(12, Stmt::Empty)))),
        sp(15, Stmt::While(ok, Box::new(sp(25, Stmt::Empty)))),
    ];
    let program = Program { classes: vec![class(0, a, vec![method(m, BasicType::Void, vec![], body)])] };
    assert_eq!(errors_of(&program), vec![(9, SemanticError::ConditionMustBeBoolean)]);
}

#[test]
fn a_second_class_of_one_name_is_a_redefinition() {
    let mut st = StringTable::new();
    let a = st.intern(b"A");
    let b = st.intern(b"B");
    let program = Program {
        classes: vec![class(0, a, vec![]), class(11, b, vec![]), class(22, a, vec![])],
    };
    let (ts, errors) = check(&program);
    assert_eq!(errors.len(), 1);
    assert_eq!(errors[0].span, at(22));
    match &errors[0].data {
        SemanticError::RedefinitionError { kind, name } => {
            assert_eq!(*kind, RedefinitionKind::Class);
            assert_eq!(kind.name(), "class");
            assert_eq!(*name, a);
        }
        other => panic!("unexpected error {:?}", other),
    }
    assert_eq!(ts.defined_classes.len(), 2);
}

#[test]
fn redefined_members_and_a_second_main() {
    let mut st = StringTable::new();
    let a = st.intern(b"A");
    let b = st.intern(b"B");
    let x = st.intern(b"x");
    let f = st.intern(b"f");
    let main = st.intern(b"main");
    let mut first = vec![
        field(x, BasicType::Int),
        field(x, BasicType::Boolean),
        method(f, BasicType::Void, vec![], vec![]),
        method(f, BasicType::Int, vec![], vec![]),
    ];
    first.push(main_method(&mut st, 50, vec![]));
    let second = vec![main_method(&mut st, 90, vec![])];
    let program = Program { classes: vec![class(0, a, first), class(80, b, second)] };
    let (ts, errors) = TypeSystem::from_program(&program);
    let found: Vec<(usize, SemanticError)> =
        errors.into_iter().map(|e| (e.span.start.byte_offset, e.data)).collect();
    assert_eq!(
        found,
        vec![
            (0, SemanticError::RedefinitionError { kind: RedefinitionKind::Field, name: x }),
            (0, SemanticError::RedefinitionError { kind: RedefinitionKind::Method, name: f }),
            (90, SemanticError::RedefinitionError { kind: RedefinitionKind::Method, name: main }),
        ]
    );
    assert_eq!(ts.defined_classes[0].fields.len(), 1);
    assert_eq!(ts.defined_classes[0].fields[0].ty, CheckedType::Int);
    assert_eq!(ts.defined_classes[0].methods.len(), 2);
    assert_eq!(ts.defined_classes[1].methods.len(), 0);
    assert_eq!(ts.resolve_type_ref(b), Some(1));
    assert_eq!(ts.defined_classes[0].get_method(f), Some(0));
    assert_eq!(ts.defined_classes[0].get_field(f), None);
}

#[test]
fn returning_an_int_from_a_boolean_method() {
    let mut st = StringTable::new();
    let a = st.intern(b"A");
    let m = st.intern(b"m");
    let one = int_lit(&mut st, 30, "1");
    let body = vec![sp(23, Stmt::Return(Some(one)))];
    let program =
        Program { classes: vec![class(0, a, vec![method(m, BasicType::Boolean, vec![], body)])] };
    assert_eq!(
        errors_of(&program),
        vec![(
            23,
            SemanticError::InvalidReturnType {
                ty_expr: CheckedType::Int,
                ty_return: CheckedType::Boolean
            }
        )]
    );
}

#[test]
fn returns_in_void_and_other_methods() {
    let mut st = StringTable::new();
    let a = st.intern(b"A");
    let v = st.intern(b"v");
    let i = st.intern(b"i");
    let one = int_lit(&mut st, 9, "1");
    let void_body = vec![sp(1, Stmt::Return(None)), sp(5, Stmt::Return(Some(one)))];
    let two = int_lit(&mut st, 29, "2");
    let int_body = vec![sp(20, Stmt::Return(None)), sp(25, Stmt::Return(Some(two)))];
    let program = Program {
        classes: vec![class(
            0,
            a,
            vec![
                method(v, BasicType::Void, vec![], void_body),
                method(i, BasicType::Int, vec![], int_body),
            ],
        )],
    };
    assert_eq!(
        errors_of(&program),
        vec![
            (5, SemanticError::VoidMethodCannotReturnValue),
            (20, SemanticError::MethodMustReturnSomething { ty: CheckedType::Int }),
        ]
    );
}

#[test]
fn names_are_looked_up_in_scopes_fields_and_classes() {
    let mut st = StringTable::new();
    let a = st.intern(b"A");
    let m = st.intern(b"m");
    let x = st.intern(b"x");
    let p = st.intern(b"p");
    let fld = st.intern(b"fld");
    let nope = st.intern(b"nope");
    let one = int_lit(&mut st, 12, "1");
    let body = vec![
        sp(10, Stmt::LocalVariableDeclaration(ty(BasicType::Int, 0), x, Some(one))),
        sp(20, Stmt::LocalVariableDeclaration(ty(BasicType::Boolean, 0), x, None)),
        sp(30, Stmt::Expression(Box::new(sp(31, Expr::Var(x))))),
        sp(40, Stmt::Expression(Box::new(sp(41, Expr::Var(p))))),
        sp(50, Stmt::Expression(Box::new(sp(51, Expr::Var(fld))))),
        sp(60, Stmt::Expression(Box::new(sp(61, Expr::Var(a))))),
        sp(70, Stmt::Expression(Box::new(sp(71, Expr::Var(nope))))),
        sp(
            80,
            Stmt::Block(block(vec![sp(
                81,
                Stmt::LocalVariableDeclaration(ty(BasicType::Int, 0), p, None),
            )])),
        ),
        sp(
            90,
            Stmt::LocalVariableDeclaration(
                ty(BasicType::Boolean, 0),
                nope,
                Some(Box::new(sp(95, Expr::Var(x)))),
            ),
        ),
    ];
    let program = Program {
        classes: vec![class(
            0,
            a,
            vec![
                field(fld, BasicType::Boolean),
                method(m, BasicType::Void, vec![(BasicType::Int, p)], body),
            ],
        )],
    };
    assert_eq!(
        errors_of(&program),
        vec![
            (20, SemanticError::RedefinitionError { kind: RedefinitionKind::LocalVar, name: x }),
            (61, SemanticError::InvalidReferenceToClass { class_name: a }),
            (71, SemanticError::CannotLookupVarOrField { name: nope }),
            (81, SemanticError::RedefinitionError { kind: RedefinitionKind::LocalVar, name: p }),
            (
                95,
                SemanticError::InvalidType {
                    ty_expected: CheckedType::Boolean,
                    ty_expr: CheckedType::Int
                }
            ),
        ]
    );
}

#[test]
fn the_main_method_is_static() {
    let mut st = StringTable::new();
    let a = st.intern(b"A");
    let fld = st.intern(b"fld");
    let args = st.intern(b"args");
    let f = st.intern(b"f");
    let body = vec![
        sp(10, Stmt::Expression(Box::new(sp(11, Expr::This)))),
        sp(20, Stmt::Expression(Box::new(sp(21, Expr::Var(fld))))),
        sp(30, Stmt::Expression(Box::new(sp(31, Expr::Var(args))))),
        sp(40, Stmt::Expression(Box::new(sp(41, Expr::ThisMethodInvocation(f, sp(42, vec![])))))),
    ];
    let main = main_method(&mut st, 5, body);
    let program = Program {
        classes: vec![class(
            0,
            a,
            vec![field(fld, BasicType::Int), method(f, BasicType::Void, vec![], vec![]), main],
        )],
    };
    assert_eq!(
        errors_of(&program),
        vec![
            (11, SemanticError::ThisInStaticMethod),
            (21, SemanticError::CannotAccessNonStaticFieldInStaticMethod { field_name: fld }),
            (31, SemanticError::MainMethodParamMustNotBeUsed),
            (41, SemanticError::ThisMethodInvocationInStaticMethod { method_name: f }),
        ]
    );
}

#[test]
fn calls_arrays_and_objects() {
    let mut st = StringTable::new();
    let a = st.intern(b"A");
    let b = st.intern(b"B");
    let m = st.intern(b"m");
    let g = st.intern(b"g");
    let arr = st.intern(b"arr");
    let missing = st.intern(b"Missing");
    let t = |e: Expr, o: usize| Box::new(sp(o, e));
    let five = int_lit(&mut st, 13, "5");
    let idx = t(Expr::Boolean(true), 25);
    let arg = t(Expr::Boolean(false), 36);
    let body = vec![
        sp(
            10,
            Stmt::LocalVariableDeclaration(
                ty(BasicType::Int, 2),
                arr,
                Some(t(Expr::NewArray(BasicType::Int, five, 1), 12)),
            ),
        ),
        sp(20, Stmt::Expression(t(Expr::ArrayAccess(t(Expr::Var(arr), 21), idx), 22))),
        sp(
            30,
            Stmt::Expression(t(
                Expr::MethodInvocation(t(Expr::NewObject(b), 31), g, sp(35, vec![*arg])),
                32,
            )),
        ),
        sp(40, Stmt::Expression(t(Expr::NewObject(missing), 41))),
        sp(
            50,
            Stmt::Return(Some(t(
                Expr::Binary(
                    BinaryOp::Add,
                    t(Expr::Unary(UnaryOp::Neg, t(Expr::Null, 53)), 52),
                    t(Expr::This, 55),
                ),
                51,
            ))),
        ),
        sp(
            60,
            Stmt::Expression(t(
                Expr::NewArray(BasicType::Custom(missing), t(Expr::Null, 63), 0),
                61,
            )),
        ),
    ];
    let program = Program {
        classes: vec![
            class(0, a, vec![method(m, BasicType::Custom(a), vec![], body)]),
            class(
                100,
                b,
                vec![method(g, BasicType::Int, vec![(BasicType::Int, arr)], vec![])],
            ),
        ],
    };
    assert_eq!(
        errors_of(&program),
        vec![
            (
                25,
                SemanticError::InvalidType {
                    ty_expected: CheckedType::Int,
                    ty_expr: CheckedType::Boolean
                }
            ),
            (
                36,
                SemanticError::InvalidType {
                    ty_expected: CheckedType::Int,
                    ty_expr: CheckedType::Boolean
                }
            ),
            (41, SemanticError::ClassDoesNotExist { class_name: missing }),
            (
                63,
                SemanticError::InvalidType {
                    ty_expected: CheckedType::Int,
                    ty_expr: CheckedType::Null
                }
            ),
            (61, SemanticError::ClassDoesNotExist { class_name: missing }),
        ]
    );
}

#[test]
fn assignability() {
    let a = CheckedType::TypeRef(Symbol { id: 0 });
    let b = CheckedType::TypeRef(Symbol { id: 1 });
    let ints = CheckedType::Array(Box::new(CheckedType::Int));
    assert!(a.is_assignable_from(&CheckedType::Null));
    assert!(ints.is_assignable_from(&CheckedType::Null));
    assert!(a.is_assignable_from(&a.copy()));
    assert!(!a.is_assignable_from(&b));
    assert!(!CheckedType::Int.is_assignable_from(&CheckedType::Null));
    assert!(!CheckedType::Void.is_assignable_from(&CheckedType::Null));
    assert!(CheckedType::Void.is_assignable_from(&CheckedType::Void));
    assert!(!CheckedType::Int.is_assignable_from(&CheckedType::Boolean));
    assert!(!ints.is_assignable_from(&CheckedType::Array(Box::new(CheckedType::Boolean))));
    assert!(CheckedType::Null.is_assignable_from(&CheckedType::Null));
    assert_eq!(
        CheckedType::from_ty(&Type { basic: BasicType::Boolean, array_depth: 2 }),
        CheckedType::Array(Box::new(CheckedType::Array(Box::new(CheckedType::Boolean))))
    );
}

#[test]
fn methods_of_an_unknown_class_are_not_checked() {
    let mut st = StringTable::new();
    let a = st.intern(b"A");
    let m = st.intern(b"m");
    let one = int_lit(&mut st, 3, "1");
    let decl = ClassDeclaration {
        name: a,
        members: vec![method(m, BasicType::Void, vec![], vec![sp(1, Stmt::Return(Some(one)))])],
    };
    let ts = TypeSystem::new();
    // the bodies of a class that the type system does not know are not
    // checked
    assert!(!is_declared(&decl, &ts));
}

//! The types of a program and the classes that it declares.
use crate::asciifile::{Span, Spanned};
use crate::ast;
use crate::strtab::Symbol;
use vstd::prelude::*;

verus! {

/// A type in its resolved form.
#[derive(Debug, PartialEq, Eq)]
pub enum CheckedType {
    Int,
    Boolean,
    Void,
    /// An object of the class with this name.
    TypeRef(Symbol),
    /// An array with elements of this type.
    Array(Box<CheckedType>),
    /// The type of `null`.
    Null,
}

/// A value of type `from` may be assigned to a place of type `to`: `null`
/// may be assigned to objects and arrays, and apart from that the types
/// must be the same.
pub open spec fn assignable(to: CheckedType, from: CheckedType) -> bool {
    ((to is TypeRef || to is Array) && from is Null) || to == from
}

/// The type `base` wrapped into `depth` layers of array.
pub open spec fn array_of(base: CheckedType, depth: nat) -> CheckedType
    decreases depth,
{
    if depth == 0 {
        base
    } else {
        CheckedType::Array(Box::new(array_of(base, (depth - 1) as nat)))
    }
}

/// The resolved form of a basic type.
pub open spec fn spec_basic(basic: ast::BasicType) -> CheckedType {
    match basic {
        ast::BasicType::Int => CheckedType::Int,
        ast::BasicType::Boolean => CheckedType::Boolean,
        ast::BasicType::Void => CheckedType::Void,
        ast::BasicType::Custom(name) => CheckedType::TypeRef(name),
    }
}

/// The resolved form of a type as it is written in the source.
pub open spec fn spec_checked(ty: ast::Type) -> CheckedType {
    array_of(spec_basic(ty.basic), ty.array_depth as nat)
}

impl CheckedType {
    /// Whether the two types are the same.
    pub fn same(&self, other: &CheckedType) -> (r: bool)
        ensures
            r == (*self == *other),
        decreases self,
    {
        match (self, other) {
            (CheckedType::Int, CheckedType::Int) => true,
            (CheckedType::Boolean, CheckedType::Boolean) => true,
            (CheckedType::Void, CheckedType::Void) => true,
            (CheckedType::Null, CheckedType::Null) => true,
            (CheckedType::TypeRef(a), CheckedType::TypeRef(b)) => a.id == b.id,
            (CheckedType::Array(a), CheckedType::Array(b)) => a.same(b),
            _ => false,
        }
    }

    /// A copy of the type.
    pub fn copy(&self) -> (r: CheckedType)
        ensures
            r == *self,
        decreases self,
    {
        match self {
            CheckedType::Int => CheckedType::Int,
            CheckedType::Boolean => CheckedType::Boolean,
            CheckedType::Void => CheckedType::Void,
            CheckedType::Null => CheckedType::Null,
            CheckedType::TypeRef(a) => CheckedType::TypeRef(*a),
            CheckedType::Array(a) => CheckedType::Array(Box::new(a.copy())),
        }
    }

    /// Whether a value of type `other` may be assigned to a place of this
    /// type.
    pub fn is_assignable_from(&self, other: &CheckedType) -> (r: bool)
        ensures
            r == assignable(*self, *other),
    {
        match (self, other) {
            (CheckedType::TypeRef(_), CheckedType::Null) => true,
            (CheckedType::Array(_), CheckedType::Null) => true,
            _ => self.same(other),
        }
    }

    /// The resolved form of a basic type.
    pub fn from_basic(basic: &ast::BasicType) -> (r: CheckedType)
        ensures
            r == spec_basic(*basic),
    {
        match basic {
            ast::BasicType::Int => CheckedType::Int,
            ast::BasicType::Boolean => CheckedType::Boolean,
            ast::BasicType::Void => CheckedType::Void,
            ast::BasicType::Custom(name) => CheckedType::TypeRef(*name),
        }
    }

    /// This type wrapped into `depth` layers of array.
    pub fn wrap(self, depth: u64) -> (r: CheckedType)
        ensures
            r == array_of(self, depth as nat),
    {
        let ghost base = self;
        let mut ty = self;
        let mut d: u64 = 0;
        while d < depth
            invariant
                d <= depth,
                ty == array_of(base, d as nat),
            decreases depth - d,
        {
            ty = CheckedType::Array(Box::new(ty));
            d += 1;
        }
        ty
    }

    /// The resolved form of a type as it is written in the source.
    pub fn from_ty(ty: &ast::Type) -> (r: CheckedType)
        ensures
            r == spec_checked(*ty),
    {
        CheckedType::from_basic(&ty.basic).wrap(ty.array_depth)
    }
}

/// What can be declared twice by mistake.
#[derive(Debug, Clone, Copy, PartialEq, Eq, Structural)]
pub enum RedefinitionKind {
    Class,
    Field,
    Method,
    Param,
    LocalVar,
}

impl RedefinitionKind {
    /// The word for the kind in a message.
    pub fn name(&self) -> (s: &'static str)
        ensures
            s@ == (match *self {
                RedefinitionKind::Class => "class"@,
                RedefinitionKind::Field => "field"@,
                RedefinitionKind::Method => "method"@,
                RedefinitionKind::Param => "parameter"@,
                RedefinitionKind::LocalVar => "local var"@,
            }),
    {
        match self {
            RedefinitionKind::Class => "class",
            RedefinitionKind::Field => "field",
            RedefinitionKind::Method => "method",
            RedefinitionKind::Param => "parameter",
            RedefinitionKind::LocalVar => "local var",
        }
    }
}

/// What can be wrong with the meaning of a program.
#[derive(Debug, PartialEq, Eq)]
pub enum SemanticError {
    ConditionMustBeBoolean,
    /// A `return;` in a method that returns a value of type `ty`.
    MethodMustReturnSomething { ty: CheckedType },
    VoidMethodCannotReturnValue,
    InvalidReturnType { ty_expr: CheckedType, ty_return: CheckedType },
    InvalidType { ty_expected: CheckedType, ty_expr: CheckedType },
    RedefinitionError { kind: RedefinitionKind, name: Symbol },
    ThisInStaticMethod,
    ThisMethodInvocationInStaticMethod { method_name: Symbol },
    ClassDoesNotExist { class_name: Symbol },
    InvalidReferenceToClass { class_name: Symbol },
    CannotLookupVarOrField { name: Symbol },
    CannotAccessNonStaticFieldInStaticMethod { field_name: Symbol },
    MainMethodParamMustNotBeUsed,
}

pub struct MethodParamDef {
    pub name: Symbol,
    pub ty: CheckedType,
}

pub struct ClassFieldDef {
    pub name: Symbol,
    pub ty: CheckedType,
}

pub struct ClassMethodDef {
    pub name: Symbol,
    pub params: Vec<MethodParamDef>,
    pub return_ty: CheckedType,
    pub is_static: bool,
    pub is_main: bool,
}

pub struct ClassDef {
    pub name: Symbol,
    pub fields: Vec<ClassFieldDef>,
    pub methods: Vec<ClassMethodDef>,
}

/// The classes that a program declares.
pub struct TypeSystem {
    pub defined_classes: Vec<ClassDef>,
}

/// The first index at or behind `from` at which `names` holds `name`.
pub open spec fn first_index(names: Seq<Symbol>, name: Symbol, from: int) -> Option<int>
    decreases names.len() - from,
{
    if from >= names.len() {
        None
    } else if names[from] == name {
        Some(from)
    } else {
        first_index(names, name, from + 1)
    }
}

/// An index that `first_index` yields lies in the names and holds the
/// name.
pub proof fn lemma_first_index(names: Seq<Symbol>, name: Symbol, from: int)
    requires
        0 <= from,
    ensures
        first_index(names, name, from) matches Some(i) ==> from <= i < names.len() && names[i]
            == name,
    decreases names.len() - from,
{
    if from < names.len() && names[from] != name {
        lemma_first_index(names, name, from + 1);
    }
}

/// The names of the classes, in order.
pub open spec fn class_names(classes: Seq<ClassDef>) -> Seq<Symbol> {
    Seq::new(classes.len(), |i: int| classes[i].name)
}

/// The names of the fields, in order.
pub open spec fn field_names(fields: Seq<ClassFieldDef>) -> Seq<Symbol> {
    Seq::new(fields.len(), |i: int| fields[i].name)
}

/// The names of the methods, in order.
pub open spec fn method_names(methods: Seq<ClassMethodDef>) -> Seq<Symbol> {
    Seq::new(methods.len(), |i: int| methods[i].name)
}

impl ClassDef {
    /// The index of the field with this name.
    pub open spec fn spec_field(&self, name: Symbol) -> Option<int> {
        first_index(field_names(self.fields@), name, 0)
    }

    /// The index of the method with this name.
    pub open spec fn spec_method(&self, name: Symbol) -> Option<int> {
        first_index(method_names(self.methods@), name, 0)
    }

    /// The index of the field with this name.
    pub fn get_field(&self, name: Symbol) -> (r: Option<usize>)
        ensures
            r matches Some(i) ==> self.spec_field(name) == Some(i as int) && i
                < self.fields@.len() && self.fields@[i as int].name == name,
            r is None ==> self.spec_field(name) is None,
    {
        let ghost names = field_names(self.fields@);
        let mut i: usize = 0;
        while i < self.fields.len()
            invariant
                i <= self.fields@.len(),
                names == field_names(self.fields@),
                first_index(names, name, 0) == first_index(names, name, i as int),
            decreases self.fields@.len() - i,
        {
            if self.fields[i].name.id == name.id {
                return Some(i);
            }
            i += 1;
        }
        None
    }

    /// The index of the method with this name.
    pub fn get_method(&self, name: Symbol) -> (r: Option<usize>)
        ensures
            r matches Some(i) ==> self.spec_method(name) == Some(i as int) && i
                < self.methods@.len() && self.methods@[i as int].name == name,
            r is None ==> self.spec_method(name) is None,
    {
        let ghost names = method_names(self.methods@);
        let mut i: usize = 0;
        while i < self.methods.len()
            invariant
                i <= self.methods@.len(),
                names == method_names(self.methods@),
                first_index(names, name, 0) == first_index(names, name, i as int),
            decreases self.methods@.len() - i,
        {
            if self.methods[i].name.id == name.id {
                return Some(i);
            }
            i += 1;
        }
        None
    }
}

impl TypeSystem {
    /// The index of the class with this name.
    pub open spec fn spec_class(&self, name: Symbol) -> Option<int> {
        first_index(class_names(self.defined_classes@), name, 0)
    }

    /// A type system without classes.
    pub fn new() -> (ts: TypeSystem)
        ensures
            ts.defined_classes@.len() == 0,
    {
        TypeSystem { defined_classes: Vec::new() }
    }

    /// The index of the class with this name.
    pub fn resolve_type_ref(&self, name: Symbol) -> (r: Option<usize>)
        ensures
            r matches Some(i) ==> self.spec_class(name) == Some(i as int) && i
                < self.defined_classes@.len() && self.defined_classes@[i as int].name == name,
            r is None ==> self.spec_class(name) is None,
    {
        let ghost names = class_names(self.defined_classes@);
        let mut i: usize = 0;
        while i < self.defined_classes.len()
            invariant
                i <= self.defined_classes@.len(),
                names == class_names(self.defined_classes@),
                first_index(names, name, 0) == first_index(names, name, i as int),
            decreases self.defined_classes@.len() - i,
        {
            if self.defined_classes[i].name.id == name.id {
                return Some(i);
            }
            i += 1;
        }
        None
    }

    /// The class with index `id`.
    pub fn get_class(&self, id: usize) -> (c: &ClassDef)
        requires
            id < self.defined_classes@.len(),
        ensures
            *c == self.defined_classes@[id as int],
    {
        &self.defined_classes[id]
    }
}

} // verus!

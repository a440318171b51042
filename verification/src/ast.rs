//! The abstract syntax tree of a MiniJava program. Every node that can be
//! the place of an error carries the stretch of source it was read from.
use crate::asciifile::Spanned;
use crate::strtab::Symbol;
use vstd::prelude::*;

verus! {

/// The digits of an integer literal. Whether they fit in an `int` is not
/// decided when they are read.
pub type IntLit = Symbol;

pub type ParameterList = Vec<Spanned<Parameter>>;

pub type ArgumentList = Vec<Spanned<Expr>>;

/// What a source file was parsed into.
#[derive(Debug, PartialEq, Eq)]
pub enum AST {
    Empty,
    Program(Spanned<Program>),
}

/// The top-level node. It holds all class declarations of the program, in
/// source order.
#[derive(Debug, PartialEq, Eq)]
pub struct Program {
    pub classes: Vec<Spanned<ClassDeclaration>>,
}

/// The declaration of a class: its name and its members.
#[derive(Debug, PartialEq, Eq)]
pub struct ClassDeclaration {
    pub name: Symbol,
    pub members: Vec<Spanned<ClassMember>>,
}

/// A member of a class. Every member has a name.
#[derive(Debug, PartialEq, Eq)]
pub struct ClassMember {
    pub kind: ClassMemberKind,
    pub name: Symbol,
}

/// A class member is a field with its type, a method with its return
/// type, parameters and body, or the main method, which a program has at
/// most once and whose one parameter is a `String[]`.
#[derive(Debug, PartialEq, Eq)]
pub enum ClassMemberKind {
    Field(Spanned<Type>),
    Method(Spanned<Type>, Spanned<ParameterList>, Spanned<Block>),
    MainMethod(Spanned<ParameterList>, Spanned<Block>),
}

/// A parameter of a method.
#[derive(Debug, PartialEq, Eq, Clone)]
pub struct Parameter {
    pub ty: Spanned<Type>,
    pub name: Symbol,
}

/// A basic type, or an array of it with `array_depth` dimensions.
#[derive(Debug, PartialEq, Eq, Clone)]
pub struct Type {
    pub basic: BasicType,
    /// The number of `[]` behind the basic type.
    pub array_depth: u64,
}

#[derive(Debug, PartialEq, Eq, Clone, Copy)]
pub enum BasicType {
    /// A 32-bit integer.
    Int,
    Boolean,
    Void,
    /// A class.
    Custom(Symbol),
}

/// A sequence of statements in braces.
#[derive(Debug, PartialEq, Eq)]
pub struct Block {
    pub statements: Vec<Spanned<Stmt>>,
}

#[derive(Debug, PartialEq, Eq)]
pub enum Stmt {
    Block(Spanned<Block>),
    /// The statement `;`.
    Empty,
    /// The condition, the statement for the case that it holds, and
    /// optionally the one for the case that it does not.
    If(Box<Spanned<Expr>>, Box<Spanned<Stmt>>, Option<Box<Spanned<Stmt>>>),
    While(Box<Spanned<Expr>>, Box<Spanned<Stmt>>),
    Expression(Box<Spanned<Expr>>),
    Return(Option<Box<Spanned<Expr>>>),
    /// The type, the name and optionally the initial value of a local
    /// variable.
    LocalVariableDeclaration(Spanned<Type>, Symbol, Option<Box<Spanned<Expr>>>),
}

#[derive(Debug, PartialEq, Eq)]
pub enum Expr {
    Binary(BinaryOp, Box<Spanned<Expr>>, Box<Spanned<Expr>>),
    Unary(UnaryOp, Box<Spanned<Expr>>),
    /// `receiver.name(args)`
    MethodInvocation(Box<Spanned<Expr>>, Symbol, Spanned<ArgumentList>),
    /// `receiver.name`
    FieldAccess(Box<Spanned<Expr>>, Symbol),
    /// `array[index]`
    ArrayAccess(Box<Spanned<Expr>>, Box<Spanned<Expr>>),
    Null,
    Boolean(bool),
    Int(IntLit),
    /// A literal with a minus sign directly before it: the negation of
    /// its digits, so that the least `int` can be written.
    NegInt(IntLit),
    Var(Symbol),
    /// `name(args)`, which is a call on `this`.
    ThisMethodInvocation(Symbol, Spanned<ArgumentList>),
    This,
    /// `new name()`
    NewObject(Symbol),
    /// `new basic[size]` followed by as many `[]` as the last field says.
    NewArray(BasicType, Box<Spanned<Expr>>, u64),
}

#[derive(Debug, PartialEq, Eq, Clone, Copy)]
pub enum BinaryOp {
    Assign,
    Equals,
    NotEquals,
    LessThan,
    GreaterThan,
    LessEquals,
    GreaterEquals,
    LogicalOr,
    LogicalAnd,
    Add,
    Sub,
    Mul,
    Div,
    Mod,
}

#[derive(Debug, PartialEq, Eq, Clone, Copy)]
pub enum UnaryOp {
    Not,
    Neg,
}

} // verus!

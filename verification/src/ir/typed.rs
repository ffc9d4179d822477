use vstd::prelude::*;
use crate::integer::BigInteger;
use crate::ir::ast::{InfixOp, PrefixOp};
use crate::ir::Ident;
use crate::span::Spanned;

verus! {

/// A program whose expressions carry their types.
#[derive(Debug)]
pub struct Ast(pub Vec<Spanned<ModuleExpression>>);

/// A typed top-level item.
#[derive(Debug)]
pub enum ModuleExpression {
    Expression(Spanned<TypedExpression>),
    Let { name: Spanned<Ident>, params: Vec<Spanned<Ident>>, expr: Spanned<TypedExpression> },
}

/// An expression together with its type.
#[derive(Debug)]
pub struct TypedExpression {
    pub expr: Expression,
    pub ty: Type,
}

/// The type of a value: an integer, a boolean, or a function from one type
/// to another.
#[derive(Debug, PartialEq, Eq)]
pub enum Type {
    Int,
    Bool,
    Function(Box<Type>, Box<Type>),
}

/// A typed expression's shape.
#[derive(Debug)]
pub enum Expression {
    Int(BigInteger),
    Bool(bool),
    Ident(Ident),
    Let {
        name: Spanned<Ident>,
        params: Vec<Spanned<Ident>>,
        expr: Spanned<Box<Expression>>,
        in_: Spanned<Box<Expression>>,
    },
    Call { callee: Spanned<Box<Expression>>, arg: Spanned<Box<Expression>> },
    Semicolon(Spanned<Box<Expression>>, Option<Spanned<Box<Expression>>>),
    PrefixOp { expr: Spanned<Box<Expression>>, op: Spanned<PrefixOp> },
    InfixOp { lhs: Spanned<Box<Expression>>, rhs: Spanned<Box<Expression>>, op: Spanned<InfixOp> },
}

} // verus!

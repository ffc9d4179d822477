use vstd::prelude::*;
use crate::integer::BigInteger;
use crate::ir::Ident;
use crate::span::{Span, Spanned};

verus! {

/// A parsed program: its module expressions, in order.
#[derive(Debug)]
pub struct Ast(pub Vec<Spanned<ModuleExpression>>);

/// A top-level item: an expression, or a definition that stays in scope
/// for the rest of the program.
#[derive(Debug)]
pub enum ModuleExpression {
    Expression(Spanned<Expression>),
    Let { name: Spanned<Ident>, params: Vec<Spanned<Ident>>, expr: Spanned<Expression> },
}

/// An expression.
#[derive(Debug)]
pub enum Expression {
    Unit,
    Int(BigInteger),
    Bool(bool),
    Ident(Ident),
    /// A function of one parameter.
    Function { param: Spanned<Ident>, body: Spanned<Box<Expression>> },
    /// `let name params = expr in in_`: `name` is bound to the value of
    /// `expr` while `in_` is evaluated; the parameters take no part in
    /// evaluation.
    Let {
        name: Spanned<Ident>,
        params: Vec<Spanned<Ident>>,
        expr: Spanned<Box<Expression>>,
        in_: Spanned<Box<Expression>>,
    },
    /// `callee arg`
    Call { callee: Spanned<Box<Expression>>, arg: Spanned<Box<Expression>> },
    /// `lhs; rhs`, where `rhs` may be missing.
    Semicolon(Spanned<Box<Expression>>, Option<Spanned<Box<Expression>>>),
    PrefixOp { expr: Spanned<Box<Expression>>, op: Spanned<PrefixOp> },
    InfixOp { lhs: Spanned<Box<Expression>>, rhs: Spanned<Box<Expression>>, op: Spanned<InfixOp> },
    /// `if condition then then_branch else else_branch`
    IfThenElse {
        condition: Spanned<Box<Expression>>,
        then_branch: Spanned<Box<Expression>>,
        else_branch: Option<Spanned<Box<Expression>>>,
    },
}

#[derive(Clone, Copy, Debug, PartialEq, Eq, Structural)]
pub enum PrefixOp {
    Pos,
    Neg,
    LogicalNot,
    BitwiseNot,
}

#[derive(Clone, Copy, Debug, PartialEq, Eq, Structural)]
pub enum InfixOp {
    Mul,
    Div,
    Modulo,
    Add,
    Sub,
    LeftBitshift,
    RightBitshift,
    LessThan,
    GreaterThan,
    LessThanEquals,
    GreaterThanEquals,
    Equal,
    NotEqual,
    BitwiseAnd,
    BitwiseXor,
    BitwiseOr,
    LogicalAnd,
    LogicalOr,
}

/// The mathematical form of an expression: integers as `int`, lists as `Seq`.
pub enum Term {
    Unit,
    Int(int),
    Bool(bool),
    Ident(Ident),
    Function { param: Spanned<Ident>, body: Spanned<Box<Term>> },
    Let {
        name: Spanned<Ident>,
        params: Seq<Spanned<Ident>>,
        expr: Spanned<Box<Term>>,
        in_: Spanned<Box<Term>>,
    },
    Call { callee: Spanned<Box<Term>>, arg: Spanned<Box<Term>> },
    Semicolon(Spanned<Box<Term>>, Option<Spanned<Box<Term>>>),
    PrefixOp { expr: Spanned<Box<Term>>, op: Spanned<PrefixOp> },
    InfixOp { lhs: Spanned<Box<Term>>, rhs: Spanned<Box<Term>>, op: Spanned<InfixOp> },
    IfThenElse {
        condition: Spanned<Box<Term>>,
        then_branch: Spanned<Box<Term>>,
        else_branch: Option<Spanned<Box<Term>>>,
    },
}

/// The mathematical form of a module expression.
pub enum ModuleTerm {
    Expression(Spanned<Term>),
    Let { name: Spanned<Ident>, params: Seq<Spanned<Ident>>, expr: Spanned<Term> },
}

pub open spec fn boxed_term(e: Spanned<Box<Expression>>) -> Spanned<Box<Term>>
    decreases e, 1nat,
{
    Spanned { inner: Box::new(term(*e.inner)), span: e.span }
}

/// The term of an expression.
pub open spec fn term(e: Expression) -> Term
    decreases e, 0nat,
{
    match e {
        Expression::Unit => Term::Unit,
        Expression::Int(n) => Term::Int(n@),
        Expression::Bool(b) => Term::Bool(b),
        Expression::Ident(i) => Term::Ident(i),
        Expression::Function { param, body } => Term::Function { param, body: boxed_term(body) },
        Expression::Let { name, params, expr, in_ } => Term::Let {
            name,
            params: params@,
            expr: boxed_term(expr),
            in_: boxed_term(in_),
        },
        Expression::Call { callee, arg } => Term::Call {
            callee: boxed_term(callee),
            arg: boxed_term(arg),
        },
        Expression::Semicolon(lhs, rhs) => Term::Semicolon(
            boxed_term(lhs),
            match rhs {
                Some(r) => Some(boxed_term(r)),
                None => None,
            },
        ),
        Expression::PrefixOp { expr, op } => Term::PrefixOp { expr: boxed_term(expr), op },
        Expression::InfixOp { lhs, rhs, op } => Term::InfixOp {
            lhs: boxed_term(lhs),
            rhs: boxed_term(rhs),
            op,
        },
        Expression::IfThenElse { condition, then_branch, else_branch } => Term::IfThenElse {
            condition: boxed_term(condition),
            then_branch: boxed_term(then_branch),
            else_branch: match else_branch {
                Some(e) => Some(boxed_term(e)),
                None => None,
            },
        },
    }
}

pub open spec fn spanned_term(e: Spanned<Expression>) -> Spanned<Term> {
    Spanned { inner: term(e.inner), span: e.span }
}

pub open spec fn module_term(m: ModuleExpression) -> ModuleTerm {
    match m {
        ModuleExpression::Expression(e) => ModuleTerm::Expression(spanned_term(e)),
        ModuleExpression::Let { name, params, expr } => ModuleTerm::Let {
            name,
            params: params@,
            expr: spanned_term(expr),
        },
    }
}

/// The module terms of a program.
pub open spec fn ast_terms(items: Seq<Spanned<ModuleExpression>>) -> Seq<Spanned<ModuleTerm>> {
    items.map_values(|m: Spanned<ModuleExpression>| Spanned { inner: module_term(m.inner), span: m.span })
}

impl View for Ast {
    type V = Seq<Spanned<ModuleTerm>>;

    open spec fn view(&self) -> Seq<Spanned<ModuleTerm>> {
        ast_terms(self.0@)
    }
}

/// A copy of a list of spanned identifiers.
pub fn copy_idents(v: &Vec<Spanned<Ident>>) -> (r: Vec<Spanned<Ident>>)
    ensures
        r@ == v@,
{
    let mut r: Vec<Spanned<Ident>> = Vec::new();
    let mut i: usize = 0;
    while i < v.len()
        invariant
            i <= v@.len(),
            r@ == v@.take(i as int),
        decreases v@.len() - i,
    {
        r.push(Spanned { inner: v[i].inner, span: v[i].span });
        i = i + 1;
    }
    assert(r@ =~= v@);
    r
}

impl Expression {
    /// A copy of the expression.
    pub fn duplicate(&self) -> (r: Expression)
        ensures
            term(r) == term(*self),
        decreases self,
    {
        match self {
            Expression::Unit => Expression::Unit,
            Expression::Int(n) => Expression::Int(n.duplicate()),
            Expression::Bool(b) => Expression::Bool(*b),
            Expression::Ident(i) => Expression::Ident(*i),
            Expression::Function { param, body } => Expression::Function {
                param: *param,
                body: duplicate_boxed(body),
            },
            Expression::Let { name, params, expr, in_ } => Expression::Let {
                name: *name,
                params: copy_idents(params),
                expr: duplicate_boxed(expr),
                in_: duplicate_boxed(in_),
            },
            Expression::Call { callee, arg } => Expression::Call {
                callee: duplicate_boxed(callee),
                arg: duplicate_boxed(arg),
            },
            Expression::Semicolon(lhs, rhs) => Expression::Semicolon(
                duplicate_boxed(lhs),
                match rhs {
                    Some(r) => Some(duplicate_boxed(r)),
                    None => None,
                },
            ),
            Expression::PrefixOp { expr, op } => Expression::PrefixOp {
                expr: duplicate_boxed(expr),
                op: *op,
            },
            Expression::InfixOp { lhs, rhs, op } => Expression::InfixOp {
                lhs: duplicate_boxed(lhs),
                rhs: duplicate_boxed(rhs),
                op: *op,
            },
            Expression::IfThenElse { condition, then_branch, else_branch } => {
                Expression::IfThenElse {
                    condition: duplicate_boxed(condition),
                    then_branch: duplicate_boxed(then_branch),
                    else_branch: match else_branch {
                        Some(e) => Some(duplicate_boxed(e)),
                        None => None,
                    },
                }
            },
        }
    }
}

/// A copy of a spanned, boxed expression.
pub fn duplicate_boxed(e: &Spanned<Box<Expression>>) -> (r: Spanned<Box<Expression>>)
    ensures
        boxed_term(r) == boxed_term(*e),
    decreases e, 1nat,
{
    Spanned { inner: Box::new(e.inner.duplicate()), span: e.span }
}

} // verus!

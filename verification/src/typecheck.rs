use vstd::prelude::*;
use crate::diagnostics::Diagnostic;
use crate::ir::ast::{Ast, Expression, ModuleExpression};
use crate::ir::typed::{self, Type, TypedExpression};
use crate::span::Spanned;

verus! {

/// Whether an expression is one the type checker gives a type: an integer or a
/// boolean literal.
pub open spec fn is_literal(e: Expression) -> bool {
    e matches Expression::Int(_) || e matches Expression::Bool(_)
}

/// Whether a module expression is a literal standing alone.
pub open spec fn is_literal_item(m: ModuleExpression) -> bool {
    match m {
        ModuleExpression::Expression(e) => is_literal(e.inner),
        _ => false,
    }
}

/// Whether `t` is the typed form of the literal `e`: the same value, with
/// type `Int` for an integer and `Bool` for a boolean.
pub open spec fn typed_literal(e: Expression, t: TypedExpression) -> bool {
    match e {
        Expression::Int(n) => t.ty == Type::Int && (t.expr matches typed::Expression::Int(m) && m@ == n@),
        Expression::Bool(b) => t.ty == Type::Bool && t.expr == typed::Expression::Bool(b),
        _ => false,
    }
}

/// Whether `t` is the typed form of the module expression `m`, at the same
/// places.
pub open spec fn typed_item(m: Spanned<ModuleExpression>, t: Spanned<typed::ModuleExpression>) -> bool {
    &&& t.span == m.span
    &&& match (m.inner, t.inner) {
        (ModuleExpression::Expression(e), typed::ModuleExpression::Expression(te)) => {
            te.span == e.span && typed_literal(e.inner, te.inner)
        },
        _ => false,
    }
}

/// Gives each module expression of the program its type. The type checker knows
/// the types of integer and boolean literals; a program with any other
/// expression is left out by `requires`.
pub fn typecheck(ast: Ast) -> (r: (typed::Ast, Vec<Diagnostic>))
    requires
        forall|k: int| 0 <= k < ast.0@.len() ==> is_literal_item(#[trigger] ast.0@[k].inner),
    ensures
        r.0.0@.len() == ast.0@.len(),
        forall|k: int| 0 <= k < ast.0@.len() ==> typed_item(#[trigger] ast.0@[k], r.0.0@[k]),
        r.1@.len() == 0,
{
    let mut typechecker = Typechecker { diagnostics: Vec::new() };
    let typed = typechecker.ast(&ast);
    (typed, typechecker.diagnostics)
}

/// The type checker's state: the problems found so far.
struct Typechecker {
    diagnostics: Vec<Diagnostic>,
}

impl Typechecker {
    fn ast(&mut self, ast: &Ast) -> (r: typed::Ast)
        requires
            forall|k: int| 0 <= k < ast.0@.len() ==> is_literal_item(#[trigger] ast.0@[k].inner),
        ensures
            r.0@.len() == ast.0@.len(),
            forall|k: int| 0 <= k < ast.0@.len() ==> typed_item(#[trigger] ast.0@[k], r.0@[k]),
            final(self).diagnostics@ == old(self).diagnostics@,
    {
        let mut items: Vec<Spanned<typed::ModuleExpression>> = Vec::new();
        let mut i: usize = 0;
        while i < ast.0.len()
            invariant
                forall|k: int| 0 <= k < ast.0@.len() ==> is_literal_item(#[trigger] ast.0@[k].inner),
                i <= ast.0@.len(),
                items@.len() == i,
                forall|k: int| 0 <= k < i ==> typed_item(#[trigger] ast.0@[k], items@[k]),
                self.diagnostics@ == old(self).diagnostics@,
            decreases ast.0@.len() - i,
        {
            let item = self.mod_expression(&ast.0[i]);
            items.push(item);
            i = i + 1;
        }
        typed::Ast(items)
    }

    fn mod_expression(&mut self, m: &Spanned<ModuleExpression>) -> (r: Spanned<typed::ModuleExpression>)
        requires
            is_literal_item(m.inner),
        ensures
            typed_item(*m, r),
            final(self).diagnostics@ == old(self).diagnostics@,
    {
        match &m.inner {
            ModuleExpression::Expression(e) => {
                let typed = self.expression(e);
                Spanned { inner: typed::ModuleExpression::Expression(typed), span: m.span }
            },
            ModuleExpression::Let { .. } => unreached(),
        }
    }

    fn expression(&mut self, e: &Spanned<Expression>) -> (r: Spanned<TypedExpression>)
        requires
            is_literal(e.inner),
        ensures
            r.span == e.span,
            typed_literal(e.inner, r.inner),
            final(self).diagnostics@ == old(self).diagnostics@,
    {
        let typed = match &e.inner {
            Expression::Int(value) => TypedExpression {
                expr: typed::Expression::Int(value.duplicate()),
                ty: Type::Int,
            },
            Expression::Bool(value) => TypedExpression { expr: typed::Expression::Bool(*value), ty: Type::Bool },
            _ => unreached(),
        };
        Spanned { inner: typed, span: e.span }
    }
}

} // verus!

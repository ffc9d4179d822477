pub mod value;
pub mod env;
pub mod scopes;

use vstd::prelude::*;
use crate::diagnostics::{Diagnostic, Failure, spanned_val};
use crate::integer::{abs, integer_and, integer_or, integer_xor, trunc_quotient, trunc_remainder, BigInteger};
use crate::interpreter::env::{lookup, Env};
use crate::interpreter::value::{duplicate_env, Builtin, Val, Value, value_model};
use crate::ir::ast::{
    boxed_term, module_term, term, Ast, Expression, InfixOp, ModuleExpression,
    ModuleTerm, PrefixOp, Term,
};
use crate::ir::{Ident, Interner};
use crate::span::{Span, Spanned};

verus! {

/// How an evaluation ended.
pub enum Outcome {
    Value(Val),
    Failed(Failure),
    /// An integer division or remainder by zero.
    DividedByZero,
    /// The evaluation nested deeper than its budget.
    OutOfFuel,
}

/// Why an evaluation stopped before giving a value.
#[derive(Debug)]
pub enum Stop {
    Diagnostic(Diagnostic),
    /// An integer division or remainder by zero.
    DivisionByZero,
    /// The evaluation nested deeper than its budget.
    DepthExhausted,
}

pub open spec fn stop_model(s: Stop) -> Outcome {
    match s {
        Stop::Diagnostic(d) => Outcome::Failed(d@),
        Stop::DivisionByZero => Outcome::DividedByZero,
        Stop::DepthExhausted => Outcome::OutOfFuel,
    }
}

pub open spec fn result_model(r: Result<Value, Stop>) -> Outcome {
    match r {
        Ok(v) => Outcome::Value(value_model(v)),
        Err(s) => stop_model(s),
    }
}

pub open spec fn printed_model(p: Seq<Value>) -> Seq<Val> {
    p.map_values(|v: Value| value_model(v))
}

pub open spec fn unbox(e: Spanned<Box<Term>>) -> Spanned<Term> {
    Spanned { inner: *e.inner, span: e.span }
}

pub open spec fn boxed(e: Spanned<Term>) -> Spanned<Box<Term>> {
    Spanned { inner: Box::new(e.inner), span: e.span }
}


/// The result of a prefix operator on a value.
pub open spec fn apply_prefix(v: Spanned<Val>, op: Spanned<PrefixOp>) -> Outcome {
    match v.inner {
        Val::Int(n) => match op.inner {
            PrefixOp::Pos => Outcome::Value(Val::Int(n)),
            PrefixOp::Neg => Outcome::Value(Val::Int(-n)),
            PrefixOp::BitwiseNot => Outcome::Value(Val::Int(-n - 1)),
            PrefixOp::LogicalNot => Outcome::Failed(Failure::CantApplyPrefixOp { expr: v, op }),
        },
        Val::Bool(b) => match op.inner {
            PrefixOp::LogicalNot => Outcome::Value(Val::Bool(!b)),
            PrefixOp::BitwiseNot => Outcome::Value(Val::Bool(!b)),
            _ => Outcome::Failed(Failure::CantApplyPrefixOp { expr: v, op }),
        },
        _ => Outcome::Failed(Failure::CantApplyPrefixOp { expr: v, op }),
    }
}

/// The result of an infix operator on two integers, if it applies to them.
pub open spec fn int_infix(a: int, b: int, op: InfixOp) -> Option<Outcome> {
    match op {
        InfixOp::Mul => Some(Outcome::Value(Val::Int(a * b))),
        InfixOp::Div => Some(
            if b == 0 { Outcome::DividedByZero } else { Outcome::Value(Val::Int(trunc_quotient(a, b))) },
        ),
        InfixOp::Modulo => Some(
            if b == 0 { Outcome::DividedByZero } else { Outcome::Value(Val::Int(trunc_remainder(a, b))) },
        ),
        InfixOp::Add => Some(Outcome::Value(Val::Int(a + b))),
        InfixOp::Sub => Some(Outcome::Value(Val::Int(a - b))),
        InfixOp::LessThan => Some(Outcome::Value(Val::Bool(a < b))),
        InfixOp::GreaterThan => Some(Outcome::Value(Val::Bool(a > b))),
        InfixOp::LessThanEquals => Some(Outcome::Value(Val::Bool(a <= b))),
        InfixOp::GreaterThanEquals => Some(Outcome::Value(Val::Bool(a >= b))),
        InfixOp::Equal => Some(Outcome::Value(Val::Bool(a == b))),
        InfixOp::NotEqual => Some(Outcome::Value(Val::Bool(a != b))),
        InfixOp::BitwiseAnd => Some(Outcome::Value(Val::Int(integer_and(a, b)))),
        InfixOp::BitwiseXor => Some(Outcome::Value(Val::Int(integer_xor(a, b)))),
        InfixOp::BitwiseOr => Some(Outcome::Value(Val::Int(integer_or(a, b)))),
        _ => None,
    }
}

/// The result of an infix operator on two booleans, if it applies to them.
pub open spec fn bool_infix(a: bool, b: bool, op: InfixOp) -> Option<bool> {
    match op {
        InfixOp::Equal => Some(a == b),
        InfixOp::NotEqual => Some(a != b),
        InfixOp::BitwiseAnd => Some(a && b),
        InfixOp::BitwiseXor => Some(a != b),
        InfixOp::BitwiseOr => Some(a || b),
        InfixOp::LogicalAnd => Some(a && b),
        InfixOp::LogicalOr => Some(a || b),
        _ => None,
    }
}

/// The result of an infix operator on two values.
pub open spec fn apply_infix(l: Spanned<Val>, r: Spanned<Val>, op: Spanned<InfixOp>) -> Outcome {
    let fail = Outcome::Failed(Failure::CantApplyInfixOp { lhs: l, rhs: r, op });
    match (l.inner, r.inner) {
        (Val::Unit, Val::Unit) => match op.inner {
            InfixOp::Equal => Outcome::Value(Val::Bool(true)),
            InfixOp::NotEqual => Outcome::Value(Val::Bool(false)),
            _ => fail,
        },
        (Val::Int(a), Val::Int(b)) => match int_infix(a, b, op.inner) {
            Some(o) => o,
            None => fail,
        },
        (Val::Bool(a), Val::Bool(b)) => match bool_infix(a, b, op.inner) {
            Some(c) => Outcome::Value(Val::Bool(c)),
            None => fail,
        },
        _ => fail,
    }
}

/// Evaluates `e` (found at `span`) in `env`, nesting at most `fuel` deep:
/// how it ends, and the values that it prints, in order. Bindings made
/// inside `e` do not outlive it.
pub open spec fn eval(fuel: nat, env: Seq<(Ident, Val)>, e: Term, span: Span) -> (Outcome, Seq<Val>)
    decreases fuel,
{
    if fuel == 0 {
        (Outcome::OutOfFuel, Seq::empty())
    } else {
        let f = (fuel - 1) as nat;
        match e {
            Term::Unit => (Outcome::Value(Val::Unit), Seq::empty()),
            Term::Int(n) => (Outcome::Value(Val::Int(n)), Seq::empty()),
            Term::Bool(b) => (Outcome::Value(Val::Bool(b)), Seq::empty()),
            Term::Ident(id) => match lookup(env, id) {
                Some(v) => (Outcome::Value(v), Seq::empty()),
                None => (
                    Outcome::Failed(Failure::NameNotDefined { ident: Spanned { inner: id, span } }),
                    Seq::empty(),
                ),
            },
            Term::Function { param, body } => (
                Outcome::Value(Val::Closure(param.inner, env, unbox(body))),
                Seq::empty(),
            ),
            Term::Let { name, params: _, expr, in_ } => {
                let bound = eval(f, env, *expr.inner, expr.span);
                match bound.0 {
                    Outcome::Value(v) => {
                        let rest = eval(f, env.push((name.inner, v)), *in_.inner, in_.span);
                        (rest.0, bound.1 + rest.1)
                    },
                    _ => bound,
                }
            },
            Term::Call { callee, arg } => {
                let c = eval(f, env, *callee.inner, callee.span);
                match c.0 {
                    Outcome::Value(cv) => {
                        let a = eval(f, env, *arg.inner, arg.span);
                        match a.0 {
                            Outcome::Value(av) => match cv {
                                Val::Closure(param, cenv, body) => {
                                    let b = eval(f, env + cenv + seq![(param, av)], body.inner, body.span);
                                    (b.0, c.1 + a.1 + b.1)
                                },
                                Val::Builtin(Builtin::Print) => (
                                    Outcome::Value(Val::Unit),
                                    c.1 + a.1 + seq![av],
                                ),
                                _ => (
                                    Outcome::Failed(
                                        Failure::CantCall { callee: Spanned { inner: cv, span: callee.span } },
                                    ),
                                    c.1 + a.1,
                                ),
                            },
                            _ => (a.0, c.1 + a.1),
                        }
                    },
                    _ => c,
                }
            },
            Term::Semicolon(lhs, rhs) => {
                let l = eval(f, env, *lhs.inner, lhs.span);
                match l.0 {
                    Outcome::Value(_) => match rhs {
                        None => (Outcome::Value(Val::Unit), l.1),
                        Some(r) => {
                            let rr = eval(f, env, *r.inner, r.span);
                            (rr.0, l.1 + rr.1)
                        },
                    },
                    _ => l,
                }
            },
            Term::PrefixOp { expr, op } => {
                let x = eval(f, env, *expr.inner, expr.span);
                match x.0 {
                    Outcome::Value(v) => (apply_prefix(Spanned { inner: v, span: expr.span }, op), x.1),
                    _ => x,
                }
            },
            Term::InfixOp { lhs, rhs, op } => {
                let l = eval(f, env, *lhs.inner, lhs.span);
                match l.0 {
                    Outcome::Value(lv) => {
                        let r = eval(f, env, *rhs.inner, rhs.span);
                        match r.0 {
                            Outcome::Value(rv) => (
                                apply_infix(
                                    Spanned { inner: lv, span: lhs.span },
                                    Spanned { inner: rv, span: rhs.span },
                                    op,
                                ),
                                l.1 + r.1,
                            ),
                            _ => (r.0, l.1 + r.1),
                        }
                    },
                    _ => l,
                }
            },
            Term::IfThenElse { condition, then_branch, else_branch } => {
                let c = eval(f, env, *condition.inner, condition.span);
                match c.0 {
                    Outcome::Value(Val::Bool(true)) => {
                        let t = eval(f, env, *then_branch.inner, then_branch.span);
                        (t.0, c.1 + t.1)
                    },
                    Outcome::Value(Val::Bool(false)) => match else_branch {
                        None => (Outcome::Value(Val::Unit), c.1),
                        Some(e) => {
                            let t = eval(f, env, *e.inner, e.span);
                            (t.0, c.1 + t.1)
                        },
                    },
                    Outcome::Value(v) => (
                        Outcome::Failed(
                            Failure::InvalidCondition { condition: Spanned { inner: v, span: condition.span } },
                        ),
                        c.1,
                    ),
                    _ => c,
                }
            },
        }
    }
}


/// The result of a prefix operator on a value.
fn prefix_op(expr: Spanned<Value>, op: Spanned<PrefixOp>) -> (r: Result<Value, Stop>)
    ensures
        result_model(r) == apply_prefix(spanned_val(expr), op),
{
    match &expr.inner {
        Value::Int(n) => match op.inner {
            PrefixOp::Pos => return Ok(Value::Int(n.duplicate())),
            PrefixOp::Neg => return Ok(Value::Int(n.neg())),
            PrefixOp::BitwiseNot => return Ok(Value::Int(n.not())),
            PrefixOp::LogicalNot => {},
        },
        Value::Bool(b) => match op.inner {
            PrefixOp::LogicalNot => return Ok(Value::Bool(!*b)),
            PrefixOp::BitwiseNot => return Ok(Value::Bool(!*b)),
            _ => {},
        },
        _ => {},
    }
    Err(Stop::Diagnostic(Diagnostic::CantApplyPrefixOp { expr: Box::new(expr), op }))
}

/// The result of an infix operator on two integers, if it applies to them.
fn int_infix_op(a: &BigInteger, b: &BigInteger, op: InfixOp) -> (r: Option<Result<Value, Stop>>)
    ensures
        match r {
            Some(x) => int_infix(a@, b@, op) == Some(result_model(x)),
            None => int_infix(a@, b@, op) is None,
        },
{
    match op {
        InfixOp::Mul => Some(Ok(Value::Int(a.mul(b)))),
        InfixOp::Div => {
            if b.equals(&BigInteger::zero()) {
                Some(Err(Stop::DivisionByZero))
            } else {
                Some(Ok(Value::Int(a.div(b))))
            }
        },
        InfixOp::Modulo => {
            if b.equals(&BigInteger::zero()) {
                Some(Err(Stop::DivisionByZero))
            } else {
                Some(Ok(Value::Int(a.rem(b))))
            }
        },
        InfixOp::Add => Some(Ok(Value::Int(a.add(b)))),
        InfixOp::Sub => Some(Ok(Value::Int(a.sub(b)))),
        InfixOp::LessThan => Some(Ok(Value::Bool(a.less_than(b)))),
        InfixOp::GreaterThan => Some(Ok(Value::Bool(b.less_than(a)))),
        InfixOp::LessThanEquals => Some(Ok(Value::Bool(!b.less_than(a)))),
        InfixOp::GreaterThanEquals => Some(Ok(Value::Bool(!a.less_than(b)))),
        InfixOp::Equal => Some(Ok(Value::Bool(a.equals(b)))),
        InfixOp::NotEqual => Some(Ok(Value::Bool(!a.equals(b)))),
        InfixOp::BitwiseAnd => Some(Ok(Value::Int(a.bitand(b)))),
        InfixOp::BitwiseXor => Some(Ok(Value::Int(a.bitxor(b)))),
        InfixOp::BitwiseOr => Some(Ok(Value::Int(a.bitor(b)))),
        _ => None,
    }
}

/// The result of an infix operator on two booleans, if it applies to them.
fn bool_infix_op(a: bool, b: bool, op: InfixOp) -> (r: Option<bool>)
    ensures
        r == bool_infix(a, b, op),
{
    match op {
        InfixOp::Equal => Some(a == b),
        InfixOp::NotEqual => Some(a != b),
        InfixOp::BitwiseAnd => Some(a && b),
        InfixOp::BitwiseXor => Some(a != b),
        InfixOp::BitwiseOr => Some(a || b),
        InfixOp::LogicalAnd => Some(a && b),
        InfixOp::LogicalOr => Some(a || b),
        _ => None,
    }
}

/// The result of an infix operator on two values.
fn infix_op(lhs: Spanned<Value>, rhs: Spanned<Value>, op: Spanned<InfixOp>) -> (r: Result<Value, Stop>)
    ensures
        result_model(r) == apply_infix(spanned_val(lhs), spanned_val(rhs), op),
{
    match (&lhs.inner, &rhs.inner) {
        (Value::Unit, Value::Unit) => match op.inner {
            InfixOp::Equal => return Ok(Value::Bool(true)),
            InfixOp::NotEqual => return Ok(Value::Bool(false)),
            _ => {},
        },
        (Value::Int(a), Value::Int(b)) => match int_infix_op(a, b, op.inner) {
            Some(x) => return x,
            None => {},
        },
        (Value::Bool(a), Value::Bool(b)) => match bool_infix_op(*a, *b, op.inner) {
            Some(c) => return Ok(Value::Bool(c)),
            None => {},
        },
        _ => {},
    }
    Err(
        Stop::Diagnostic(
            Diagnostic::CantApplyInfixOp { lhs: Box::new(lhs), rhs: Box::new(rhs), op: Box::new(op) },
        ),
    )
}



/// Calling the builtin `print` on an argument that gives a value prints that
/// value, after whatever the argument printed, and gives `()`.
pub proof fn law_print_prints(fuel: nat, env: Seq<(Ident, Val)>, p: Spanned<Ident>, arg: Spanned<Term>, span: Span)
    requires
        fuel >= 2,
        lookup(env, p.inner) == Some(Val::Builtin(Builtin::Print)),
        eval((fuel - 1) as nat, env, arg.inner, arg.span).0 is Value,
    ensures
        eval(
            fuel,
            env,
            Term::Call { callee: boxed(Spanned { inner: Term::Ident(p.inner), span: p.span }), arg: boxed(arg) },
            span,
        ) == (
            Outcome::Value(Val::Unit),
            eval((fuel - 1) as nat, env, arg.inner, arg.span).1.push(
                eval((fuel - 1) as nat, env, arg.inner, arg.span).0->Value_0,
            ),
        ),
{
    let f = (fuel - 1) as nat;
    assert(eval(f, env, Term::Ident(p.inner), p.span).1 =~= Seq::<Val>::empty());
    let a = eval(f, env, arg.inner, arg.span);
    assert(Seq::<Val>::empty() + a.1 + seq![a.0->Value_0] =~= a.1.push(a.0->Value_0));
}

/// A sequence `lhs; rhs` runs `lhs`, then `rhs`: when `lhs` gives a value,
/// the sequence ends exactly as `rhs` ends and prints what `lhs` prints, then
/// what `rhs` prints; without `rhs` it gives `()`; when `lhs` stops, the
/// sequence stops the same way and `rhs` is not run.
pub proof fn law_sequence(fuel: nat, env: Seq<(Ident, Val)>, lhs: Spanned<Term>, rhs: Spanned<Term>, span: Span)
    requires
        fuel >= 1,
    ensures
        eval((fuel - 1) as nat, env, lhs.inner, lhs.span).0 is Value ==> {
            &&& eval(fuel, env, Term::Semicolon(boxed(lhs), Some(boxed(rhs))), span) == (
                eval((fuel - 1) as nat, env, rhs.inner, rhs.span).0,
                eval((fuel - 1) as nat, env, lhs.inner, lhs.span).1 + eval((fuel - 1) as nat, env, rhs.inner, rhs.span).1,
            )
            &&& eval(fuel, env, Term::Semicolon(boxed(lhs), None), span) == (
                Outcome::Value(Val::Unit),
                eval((fuel - 1) as nat, env, lhs.inner, lhs.span).1,
            )
        },
        !(eval((fuel - 1) as nat, env, lhs.inner, lhs.span).0 is Value) ==> eval(
            fuel,
            env,
            Term::Semicolon(boxed(lhs), Some(boxed(rhs))),
            span,
        ) == eval((fuel - 1) as nat, env, lhs.inner, lhs.span),
{
}

/// Operators on two integers compute the arithmetic and comparisons of
/// mathematics: `+ - *` give the sum, difference and product; `<`, `>`,
/// `<=`, `>=`, `==`, `!=` compare; `/` and `%` by zero stop the run, and
/// otherwise give a quotient `q` and remainder `r` with `q * b + r == a`,
/// `r` smaller than `b` in size and of the sign of `a`; the logical operators
/// and shifts do not apply.
pub proof fn law_integer_operators(a: int, b: int, sa: Span, sb: Span, op: Spanned<InfixOp>)
    ensures
        ({
            let r = apply_infix(Spanned { inner: Val::Int(a), span: sa }, Spanned { inner: Val::Int(b), span: sb }, op);
            let fail = Outcome::Failed(Failure::CantApplyInfixOp {
                lhs: Spanned { inner: Val::Int(a), span: sa },
                rhs: Spanned { inner: Val::Int(b), span: sb },
                op,
            });
            &&& op.inner == InfixOp::Add ==> r == Outcome::Value(Val::Int(a + b))
            &&& op.inner == InfixOp::Sub ==> r == Outcome::Value(Val::Int(a - b))
            &&& op.inner == InfixOp::Mul ==> r == Outcome::Value(Val::Int(a * b))
            &&& op.inner == InfixOp::LessThan ==> r == Outcome::Value(Val::Bool(a < b))
            &&& op.inner == InfixOp::GreaterThan ==> r == Outcome::Value(Val::Bool(a > b))
            &&& op.inner == InfixOp::LessThanEquals ==> r == Outcome::Value(Val::Bool(a <= b))
            &&& op.inner == InfixOp::GreaterThanEquals ==> r == Outcome::Value(Val::Bool(a >= b))
            &&& op.inner == InfixOp::Equal ==> r == Outcome::Value(Val::Bool(a == b))
            &&& op.inner == InfixOp::NotEqual ==> r == Outcome::Value(Val::Bool(a != b))
            &&& (op.inner == InfixOp::Div || op.inner == InfixOp::Modulo) && b == 0 ==> r == Outcome::DividedByZero
            &&& op.inner == InfixOp::Div && b != 0 ==> (r matches Outcome::Value(Val::Int(q)) && {
                &&& q * b + trunc_remainder(a, b) == a
                &&& abs(trunc_remainder(a, b)) < abs(b)
                &&& (trunc_remainder(a, b) == 0 || (trunc_remainder(a, b) < 0) == (a < 0))
            })
            &&& op.inner == InfixOp::Modulo && b != 0 ==> (r matches Outcome::Value(Val::Int(m)) && {
                &&& trunc_quotient(a, b) * b + m == a
                &&& abs(m) < abs(b)
                &&& (m == 0 || (m < 0) == (a < 0))
            })
            &&& (op.inner == InfixOp::LogicalAnd || op.inner == InfixOp::LogicalOr || op.inner == InfixOp::LeftBitshift
                || op.inner == InfixOp::RightBitshift) ==> r == fail
        }),
{
    if b != 0 {
        lemma_trunc_division(a, b);
    }
}

/// The quotient rounded toward zero and its remainder divide `a` by `b`.
proof fn lemma_trunc_division(a: int, b: int)
    requires
        b != 0,
    ensures
        trunc_quotient(a, b) * b + trunc_remainder(a, b) == a,
        abs(trunc_remainder(a, b)) < abs(b),
        trunc_remainder(a, b) == 0 || (trunc_remainder(a, b) < 0) == (a < 0),
{
    let q = abs(a) / abs(b);
    let r = abs(a) % abs(b);
    assert(q * abs(b) + r == abs(a) && 0 <= r < abs(b)) by (nonlinear_arith)
        requires
            abs(b) > 0,
            q == abs(a) / abs(b),
            r == abs(a) % abs(b),
    ;
    if (a < 0) == (b < 0) {
        if a < 0 {
            assert(q * b == -(q * abs(b))) by (nonlinear_arith)
                requires
                    b < 0,
                    abs(b) == -b,
            ;
        } else {
            assert(q * b == q * abs(b));
        }
    } else {
        if a < 0 {
            assert((-q) * b == -(q * abs(b))) by (nonlinear_arith)
                requires
                    b > 0,
                    abs(b) == b,
            ;
        } else {
            assert((-q) * b == q * abs(b)) by (nonlinear_arith)
                requires
                    b < 0,
                    abs(b) == -b,
            ;
        }
    }
}

/// Operators on two booleans are those of logic: `&&` and `&` are "and",
/// `||` and `|` are "or", `^` and `!=` differ, `==` agrees; the others do not
/// apply.
pub proof fn law_boolean_operators(a: bool, b: bool, sa: Span, sb: Span, op: Spanned<InfixOp>)
    ensures
        ({
            let r = apply_infix(Spanned { inner: Val::Bool(a), span: sa }, Spanned { inner: Val::Bool(b), span: sb }, op);
            &&& (op.inner == InfixOp::LogicalAnd || op.inner == InfixOp::BitwiseAnd) ==> r == Outcome::Value(Val::Bool(a && b))
            &&& (op.inner == InfixOp::LogicalOr || op.inner == InfixOp::BitwiseOr) ==> r == Outcome::Value(Val::Bool(a || b))
            &&& (op.inner == InfixOp::BitwiseXor || op.inner == InfixOp::NotEqual) ==> r == Outcome::Value(Val::Bool(a != b))
            &&& op.inner == InfixOp::Equal ==> r == Outcome::Value(Val::Bool(a == b))
            &&& !(op.inner == InfixOp::LogicalAnd || op.inner == InfixOp::BitwiseAnd || op.inner == InfixOp::LogicalOr
                || op.inner == InfixOp::BitwiseOr || op.inner == InfixOp::BitwiseXor || op.inner == InfixOp::NotEqual
                || op.inner == InfixOp::Equal) ==> r is Failed
        }),
{
}

/// `()` equals `()`: `==` gives `true`, `!=` gives `false`, and no other
/// operator applies to two units.
pub proof fn law_unit_operators(sa: Span, sb: Span, op: Spanned<InfixOp>)
    ensures
        ({
            let r = apply_infix(Spanned { inner: Val::Unit, span: sa }, Spanned { inner: Val::Unit, span: sb }, op);
            &&& op.inner == InfixOp::Equal ==> r == Outcome::Value(Val::Bool(true))
            &&& op.inner == InfixOp::NotEqual ==> r == Outcome::Value(Val::Bool(false))
            &&& op.inner != InfixOp::Equal && op.inner != InfixOp::NotEqual ==> r is Failed
        }),
{
}

/// Prefix operators: `+` keeps an integer, `-` negates it, `~` gives
/// `-n - 1`; `!` and `~` negate a boolean; anything else does not apply.
pub proof fn law_prefix_operators(v: Val, sv: Span, op: Spanned<PrefixOp>)
    ensures
        ({
            let r = apply_prefix(Spanned { inner: v, span: sv }, op);
            &&& v matches Val::Int(n) ==> {
                &&& op.inner == PrefixOp::Pos ==> r == Outcome::Value(Val::Int(n))
                &&& op.inner == PrefixOp::Neg ==> r == Outcome::Value(Val::Int(-n))
                &&& op.inner == PrefixOp::BitwiseNot ==> r == Outcome::Value(Val::Int(-n - 1))
                &&& op.inner == PrefixOp::LogicalNot ==> r is Failed
            }
            &&& v matches Val::Bool(b) ==> {
                &&& (op.inner == PrefixOp::LogicalNot || op.inner == PrefixOp::BitwiseNot) ==> r == Outcome::Value(Val::Bool(!b))
                &&& (op.inner == PrefixOp::Pos || op.inner == PrefixOp::Neg) ==> r is Failed
            }
            &&& (v is Unit || v is Closure || v is Builtin) ==> r is Failed
        }),
{
}

/// A function expression gives a closure of its parameter, the bindings in
/// scope and its body, and prints nothing.
pub proof fn law_function_captures_scope(fuel: nat, env: Seq<(Ident, Val)>, param: Spanned<Ident>, body: Spanned<Term>, span: Span)
    requires
        fuel >= 1,
    ensures
        eval(fuel, env, Term::Function { param, body: boxed(body) }, span) == (
            Outcome::Value(Val::Closure(param.inner, env, body)),
            Seq::<Val>::empty(),
        ),
{
    assert(unbox(boxed(body)) == body);
}

/// Calling a closure whose argument gives a value evaluates its body in the
/// caller's bindings, then the closure's bindings, then the parameter bound
/// to the argument; what is printed is what the callee, the argument and the
/// body print, in that order.
pub proof fn law_call_runs_body(
    fuel: nat,
    env: Seq<(Ident, Val)>,
    callee: Spanned<Term>,
    arg: Spanned<Term>,
    span: Span,
    param: Ident,
    cenv: Seq<(Ident, Val)>,
    body: Spanned<Term>,
    a: Val,
)
    requires
        fuel >= 1,
        eval((fuel - 1) as nat, env, callee.inner, callee.span).0 == Outcome::Value(Val::Closure(param, cenv, body)),
        eval((fuel - 1) as nat, env, arg.inner, arg.span).0 == Outcome::Value(a),
    ensures
        eval(fuel, env, Term::Call { callee: boxed(callee), arg: boxed(arg) }, span) == (
            eval((fuel - 1) as nat, env + cenv + seq![(param, a)], body.inner, body.span).0,
            eval((fuel - 1) as nat, env, callee.inner, callee.span).1 + eval((fuel - 1) as nat, env, arg.inner, arg.span).1
                + eval((fuel - 1) as nat, env + cenv + seq![(param, a)], body.inner, body.span).1,
        ),
{
}

/// `let name = expr in name` gives the value of `expr`, and prints what
/// `expr` prints.
pub proof fn law_let_binds(fuel: nat, env: Seq<(Ident, Val)>, name: Spanned<Ident>, expr: Spanned<Term>, span: Span)
    requires
        fuel >= 2,
        eval((fuel - 1) as nat, env, expr.inner, expr.span).0 is Value,
    ensures
        eval(
            fuel,
            env,
            Term::Let {
                name,
                params: Seq::empty(),
                expr: boxed(expr),
                in_: boxed(Spanned { inner: Term::Ident(name.inner), span: name.span }),
            },
            span,
        ) == eval((fuel - 1) as nat, env, expr.inner, expr.span),
{
    let f = (fuel - 1) as nat;
    let b = eval(f, env, expr.inner, expr.span);
    let v = b.0->Value_0;
    crate::interpreter::env::law_lookup_after_push(env, name.inner, v, name.inner);
    assert(eval(f, env.push((name.inner, v)), Term::Ident(name.inner), name.span) == (
        Outcome::Value(v),
        Seq::<Val>::empty(),
    ));
    assert(b.1 + Seq::<Val>::empty() =~= b.1);
}

pub proof fn lemma_printed_push(a: Seq<Value>, v: Value)
    ensures
        printed_model(a.push(v)) == printed_model(a).push(value_model(v)),
{
    assert(printed_model(a.push(v)) =~= printed_model(a).push(value_model(v)));
}


/// An evaluator: the bindings in scope and the values printed so far.
pub struct Interpreter {
    pub env: Env,
    pub printed: Vec<Value>,
}

impl Interpreter {
    /// Evaluates `e`, found at `span`, nesting at most `fuel` deep.
    pub fn expression(&mut self, e: &Expression, span: Span, fuel: u64) -> (r: Result<Value, Stop>)
        ensures
            final(self).env.0@ == old(self).env.0@,
            printed_model(final(self).printed@) == printed_model(old(self).printed@) + eval(
                fuel as nat,
                old(self).env@,
                term(*e),
                span,
            ).1,
            result_model(r) == eval(fuel as nat, old(self).env@, term(*e), span).0,
        decreases fuel, 1nat,
    {
        if fuel == 0 {
            assert(printed_model(self.printed@) + Seq::<Val>::empty() =~= printed_model(self.printed@));
            return Err(Stop::DepthExhausted);
        }
        let f = fuel - 1;
        let ghost p0 = printed_model(self.printed@);
        assert(p0 + Seq::<Val>::empty() =~= p0);
        match e {
            Expression::Unit => Ok(Value::Unit),
            Expression::Int(n) => Ok(Value::Int(n.duplicate())),
            Expression::Bool(b) => Ok(Value::Bool(*b)),
            Expression::Ident(id) => match self.env.get(*id) {
                Some(v) => Ok(v),
                None => Err(
                    Stop::Diagnostic(Diagnostic::NameNotDefined { ident: Spanned { inner: *id, span } }),
                ),
            },
            Expression::Function { param, body } => {
                let env = duplicate_env(&self.env);
                let inner = body.inner.duplicate();
                Ok(Value::Function { param: param.inner, env, body: Spanned { inner, span: body.span } })
            },
            Expression::Let { name, params, expr, in_ } => self.let_in(name, params, expr, in_, span, fuel),
            Expression::Call { callee, arg } => self.call(callee, arg, span, fuel),
            Expression::Semicolon(lhs, rhs) => self.semicolon(lhs, rhs, span, fuel),
            Expression::PrefixOp { expr, op } => {
                let x = self.expression(&expr.inner, expr.span, f);
                match x {
                    Ok(v) => prefix_op(Spanned { inner: v, span: expr.span }, *op),
                    Err(stop) => Err(stop),
                }
            },
            Expression::InfixOp { lhs, rhs, op } => self.infix(lhs, rhs, *op, span, fuel),
            Expression::IfThenElse { condition, then_branch, else_branch } => {
                self.if_then_else(condition, then_branch, else_branch, span, fuel)
            },
        }
    }


    fn let_in(
        &mut self,
        name: &Spanned<Ident>,
        params: &Vec<Spanned<Ident>>,
        expr: &Spanned<Box<Expression>>,
        in_: &Spanned<Box<Expression>>,
        span: Span,
        fuel: u64,
    ) -> (r: Result<Value, Stop>)
        requires
            fuel > 0,
        ensures
            final(self).env.0@ == old(self).env.0@,
            printed_model(final(self).printed@) == printed_model(old(self).printed@) + eval(
                fuel as nat,
                old(self).env@,
                Term::Let { name: *name, params: params@, expr: boxed_term(*expr), in_: boxed_term(*in_) },
                span,
            ).1,
            result_model(r) == eval(
                fuel as nat,
                old(self).env@,
                Term::Let { name: *name, params: params@, expr: boxed_term(*expr), in_: boxed_term(*in_) },
                span,
            ).0,
        decreases fuel, 0nat,
    {
        let f = fuel - 1;
        let ghost env0 = self.env.0@;
        let ghost p0 = printed_model(self.printed@);
        let b = self.expression(&expr.inner, expr.span, f);
        let ghost p1 = printed_model(self.printed@);
        match b {
            Ok(v) => {
                self.env.push(name.inner, v);
                let r = self.expression(&in_.inner, in_.span, f);
                self.env.pop();
                assert(self.env.0@ =~= env0);
                proof {
                    assert(boxed(Spanned { inner: term(*expr.inner), span: expr.span }) == boxed_term(*expr));
                }
                r
            },
            Err(stop) => Err(stop),
        }
    }
}


impl Interpreter {
    fn call(&mut self, callee: &Spanned<Box<Expression>>, arg: &Spanned<Box<Expression>>, span: Span, fuel: u64) -> (r: Result<Value, Stop>)
        requires
            fuel > 0,
        ensures
            final(self).env.0@ == old(self).env.0@,
            printed_model(final(self).printed@) == printed_model(old(self).printed@) + eval(
                fuel as nat,
                old(self).env@,
                Term::Call { callee: boxed_term(*callee), arg: boxed_term(*arg) },
                span,
            ).1,
            result_model(r) == eval(
                fuel as nat,
                old(self).env@,
                Term::Call { callee: boxed_term(*callee), arg: boxed_term(*arg) },
                span,
            ).0,
        decreases fuel, 0nat,
    {
        let f = fuel - 1;
        let ghost env0 = self.env.0@;
        let ghost p0 = printed_model(self.printed@);
        let c = self.expression(&callee.inner, callee.span, f);
        let cv = match c {
            Ok(v) => v,
            Err(stop) => return Err(stop),
        };
        let ghost p1 = printed_model(self.printed@);
        let a = self.expression(&arg.inner, arg.span, f);
        let av = match a {
            Ok(v) => v,
            Err(stop) => return Err(stop),
        };
        match cv {
            Value::Function { param, env, body } => {
                let mut cenv = env;
                let ghost cenv0 = cenv.0@;
                let ghost avm = value_model(av);
                let env_len = self.env.len();
                self.env.append(&mut cenv);
                self.env.push(param, av);
                proof {
                    crate::interpreter::value::lemma_env_model_add(env0, cenv0);
                    assert(self.env@ =~= env_model_of(env0) + env_model_of(cenv0) + seq![(param, avm)]);
                }
                let result = self.expression(&body.inner, body.span, f);
                self.env.truncate(env_len);
                assert(self.env.0@ =~= env0);
                result
            },
            Value::Builtin(Builtin::Print) => {
                proof {
                    lemma_printed_push(self.printed@, av);
                }
                self.printed.push(av);
                Ok(Value::Unit)
            },
            other => Err(
                Stop::Diagnostic(
                    Diagnostic::CantCall { callee: Box::new(Spanned { inner: other, span: callee.span }) },
                ),
            ),
        }
    }

    fn semicolon(&mut self, lhs: &Spanned<Box<Expression>>, rhs: &Option<Spanned<Box<Expression>>>, span: Span, fuel: u64) -> (r: Result<Value, Stop>)
        requires
            fuel > 0,
        ensures
            final(self).env.0@ == old(self).env.0@,
            printed_model(final(self).printed@) == printed_model(old(self).printed@) + eval(
                fuel as nat,
                old(self).env@,
                Term::Semicolon(boxed_term(*lhs), match *rhs { Some(r) => Some(boxed_term(r)), None => None }),
                span,
            ).1,
            result_model(r) == eval(
                fuel as nat,
                old(self).env@,
                Term::Semicolon(boxed_term(*lhs), match *rhs { Some(r) => Some(boxed_term(r)), None => None }),
                span,
            ).0,
        decreases fuel, 0nat,
    {
        let f = fuel - 1;
        let l = self.expression(&lhs.inner, lhs.span, f);
        match l {
            Ok(_) => match rhs {
                None => Ok(Value::Unit),
                Some(r) => self.expression(&r.inner, r.span, f),
            },
            Err(stop) => Err(stop),
        }
    }

    fn infix(&mut self, lhs: &Spanned<Box<Expression>>, rhs: &Spanned<Box<Expression>>, op: Spanned<InfixOp>, span: Span, fuel: u64) -> (r: Result<Value, Stop>)
        requires
            fuel > 0,
        ensures
            final(self).env.0@ == old(self).env.0@,
            printed_model(final(self).printed@) == printed_model(old(self).printed@) + eval(
                fuel as nat,
                old(self).env@,
                Term::InfixOp { lhs: boxed_term(*lhs), rhs: boxed_term(*rhs), op },
                span,
            ).1,
            result_model(r) == eval(
                fuel as nat,
                old(self).env@,
                Term::InfixOp { lhs: boxed_term(*lhs), rhs: boxed_term(*rhs), op },
                span,
            ).0,
        decreases fuel, 0nat,
    {
        let f = fuel - 1;
        let l = self.expression(&lhs.inner, lhs.span, f);
        let lv = match l {
            Ok(v) => v,
            Err(stop) => return Err(stop),
        };
        let r = self.expression(&rhs.inner, rhs.span, f);
        match r {
            Ok(rv) => infix_op(Spanned { inner: lv, span: lhs.span }, Spanned { inner: rv, span: rhs.span }, op),
            Err(stop) => Err(stop),
        }
    }

    fn if_then_else(
        &mut self,
        condition: &Spanned<Box<Expression>>,
        then_branch: &Spanned<Box<Expression>>,
        else_branch: &Option<Spanned<Box<Expression>>>,
        span: Span,
        fuel: u64,
    ) -> (r: Result<Value, Stop>)
        requires
            fuel > 0,
        ensures
            final(self).env.0@ == old(self).env.0@,
            printed_model(final(self).printed@) == printed_model(old(self).printed@) + eval(
                fuel as nat,
                old(self).env@,
                Term::IfThenElse {
                    condition: boxed_term(*condition),
                    then_branch: boxed_term(*then_branch),
                    else_branch: match *else_branch { Some(e) => Some(boxed_term(e)), None => None },
                },
                span,
            ).1,
            result_model(r) == eval(
                fuel as nat,
                old(self).env@,
                Term::IfThenElse {
                    condition: boxed_term(*condition),
                    then_branch: boxed_term(*then_branch),
                    else_branch: match *else_branch { Some(e) => Some(boxed_term(e)), None => None },
                },
                span,
            ).0,
        decreases fuel, 0nat,
    {
        let f = fuel - 1;
        let c = self.expression(&condition.inner, condition.span, f);
        match c {
            Ok(Value::Bool(true)) => self.expression(&then_branch.inner, then_branch.span, f),
            Ok(Value::Bool(false)) => match else_branch {
                None => Ok(Value::Unit),
                Some(e) => self.expression(&e.inner, e.span, f),
            },
            Ok(other) => Err(
                Stop::Diagnostic(
                    Diagnostic::InvalidCondition {
                        condition: Box::new(Spanned { inner: other, span: condition.span }),
                    },
                ),
            ),
            Err(stop) => Err(stop),
        }
    }
}

pub open spec fn env_model_of(s: Seq<(Ident, Value)>) -> Seq<(Ident, Val)> {
    crate::interpreter::value::env_model(s)
}


/// Runs one module expression: how it ends, what it prints, and the
/// bindings in scope afterwards.
pub open spec fn run_module(fuel: nat, env: Seq<(Ident, Val)>, m: ModuleTerm) -> (Outcome, Seq<Val>, Seq<(Ident, Val)>) {
    match m {
        ModuleTerm::Expression(e) => {
            let x = eval(fuel, env, e.inner, e.span);
            match x.0 {
                Outcome::Value(_) => (Outcome::Value(Val::Unit), x.1, env),
                _ => (x.0, x.1, env),
            }
        },
        ModuleTerm::Let { name, params: _, expr } => {
            let b = eval(fuel, env, expr.inner, expr.span);
            match b.0 {
                Outcome::Value(v) => (Outcome::Value(Val::Unit), b.1, env.push((name.inner, v))),
                _ => (b.0, b.1, env),
            }
        },
    }
}

/// Runs module expressions in order until one fails: how the run ends
/// (`()` when every one succeeds) and what it prints.
pub open spec fn run_items(fuel: nat, env: Seq<(Ident, Val)>, items: Seq<Spanned<ModuleTerm>>) -> (Outcome, Seq<Val>)
    decreases items.len(),
{
    if items.len() == 0 {
        (Outcome::Value(Val::Unit), Seq::empty())
    } else {
        let x = run_module(fuel, env, items[0].inner);
        match x.0 {
            Outcome::Value(_) => {
                let rest = run_items(fuel, x.2, items.drop_first());
                (rest.0, x.1 + rest.1)
            },
            _ => (x.0, x.1),
        }
    }
}

pub open spec fn unit_result_model(r: Result<(), Stop>) -> Outcome {
    match r {
        Ok(()) => Outcome::Value(Val::Unit),
        Err(s) => stop_model(s),
    }
}

/// The evaluation budget of a program run: the deepest nesting of
/// evaluations allowed.
pub const EVALUATION_DEPTH: u64 = 0xffff_ffff_ffff_ffff;

impl Interpreter {
    /// Runs one module expression.
    pub fn mod_expression(&mut self, m: &ModuleExpression, fuel: u64) -> (r: Result<(), Stop>)
        ensures
            final(self).env@ == run_module(fuel as nat, old(self).env@, module_term(*m)).2,
            printed_model(final(self).printed@) == printed_model(old(self).printed@) + run_module(
                fuel as nat,
                old(self).env@,
                module_term(*m),
            ).1,
            unit_result_model(r) == run_module(fuel as nat, old(self).env@, module_term(*m)).0,
    {
        match m {
            ModuleExpression::Expression(e) => {
                let x = self.expression(&e.inner, e.span, fuel);
                match x {
                    Ok(_) => Ok(()),
                    Err(stop) => Err(stop),
                }
            },
            ModuleExpression::Let { name, params: _, expr } => {
                let b = self.expression(&expr.inner, expr.span, fuel);
                match b {
                    Ok(v) => {
                        self.env.push(name.inner, v);
                        Ok(())
                    },
                    Err(stop) => Err(stop),
                }
            },
        }
    }

    /// Binds `print` to the printing builtin, innermost, then runs the module
    /// expressions of `ast` in order until one fails.
    pub fn ast(&mut self, ast: &Ast, interner: &mut Interner, fuel: u64) -> (r: Result<(), Stop>)
        requires
            old(interner).wf(),
            old(interner).names().len() + 2 < u32::MAX,
        ensures
            final(interner).wf(),
            old(interner).names().is_prefix_of(final(interner).names()),
            exists|p: Ident|
                {
                    &&& final(interner).holds(p)
                    &&& #[trigger] final(interner).name_of(p) == print_name()
                    &&& printed_model(final(self).printed@) == printed_model(old(self).printed@) + run_items(
                        fuel as nat,
                        old(self).env@.push((p, Val::Builtin(Builtin::Print))),
                        ast@,
                    ).1
                    &&& unit_result_model(r) == run_items(
                        fuel as nat,
                        old(self).env@.push((p, Val::Builtin(Builtin::Print))),
                        ast@,
                    ).0
                },
    {
        let print = Ident::get_or_intern(interner, "print");
        proof {
            reveal_strlit("print");
        }
        self.env.push(print, Value::Builtin(Builtin::Print));
        let r = self.items(ast, fuel);
        assert(interner.name_of(print) == print_name());
        r
    }

    /// Runs the module expressions of `ast` in order until one fails.
    fn items(&mut self, ast: &Ast, fuel: u64) -> (r: Result<(), Stop>)
        ensures
            printed_model(final(self).printed@) == printed_model(old(self).printed@) + run_items(
                fuel as nat,
                old(self).env@,
                ast@,
            ).1,
            unit_result_model(r) == run_items(fuel as nat, old(self).env@, ast@).0,
    {
        let ghost items = ast@;
        let ghost env0 = self.env@;
        let ghost p0 = printed_model(self.printed@);
        let mut i: usize = 0;
        assert(items.skip(0) =~= items);
        while i < ast.0.len()
            invariant
                i <= ast.0@.len(),
                items == ast@,
                env0 == old(self).env@,
                p0 == printed_model(old(self).printed@),
                items.len() == ast.0@.len(),
                run_items(fuel as nat, env0, items).0 == run_items(fuel as nat, self.env@, items.skip(i as int)).0,
                run_items(fuel as nat, env0, items).1 == (printed_model(self.printed@).skip(p0.len() as int))
                    + run_items(fuel as nat, self.env@, items.skip(i as int)).1,
                p0.is_prefix_of(printed_model(self.printed@)),
            decreases ast.0@.len() - i,
        {
            let ghost before = printed_model(self.printed@);
            let ghost env_i = self.env@;
            let ghost rest = items.skip(i as int);
            assert(rest[0] == items[i as int]);
            assert(rest.drop_first() =~= items.skip(i + 1));
            assert(items[i as int].inner == module_term(ast.0@[i as int].inner));
            let x = self.mod_expression(&ast.0[i].inner, fuel);
            match x {
                Ok(()) => {},
                Err(stop) => {
                    proof {
                        let xm = run_module(fuel as nat, env_i, rest[0].inner);
                        assert(run_items(fuel as nat, env_i, rest) == (xm.0, xm.1));
                        assert(before =~= p0 + before.skip(p0.len() as int));
                        assert(printed_model(self.printed@) =~= p0 + (before.skip(p0.len() as int) + xm.1));
                    }
                    let r = Err(stop);
                    assert(unit_result_model(r) == run_items(fuel as nat, env0, items).0);
                    return r;
                },
            }
            assert(printed_model(self.printed@).skip(p0.len() as int) =~= before.skip(p0.len() as int) + run_module(fuel as nat, env_i, rest[0].inner).1);
            i = i + 1;
        }
        assert(items.skip(i as int) =~= Seq::<Spanned<ModuleTerm>>::empty());
        assert(printed_model(self.printed@) =~= p0 + printed_model(self.printed@).skip(p0.len() as int));
        Ok(())
    }
}

/// What a program run did: the values it printed, in order, and how it
/// ended.
#[derive(Debug)]
pub struct Run {
    pub printed: Vec<Value>,
    pub result: Result<(), Stop>,
}

pub open spec fn print_name() -> Seq<char> {
    seq!['p', 'r', 'i', 'n', 't']
}

/// Whether `run` is what running `items` gives, starting from a scope that
/// binds only the name `print` (held by `interner`) to the printing builtin.
pub open spec fn program_ran(run: Run, items: Seq<Spanned<ModuleTerm>>, interner: Interner) -> bool {
    exists|p: Ident|
        {
            &&& interner.holds(p)
            &&& #[trigger] interner.name_of(p) == print_name()
            &&& printed_model(run.printed@) == run_items(
                EVALUATION_DEPTH as nat,
                seq![(p, Val::Builtin(Builtin::Print))],
                items,
            ).1
            &&& unit_result_model(run.result) == run_items(
                EVALUATION_DEPTH as nat,
                seq![(p, Val::Builtin(Builtin::Print))],
                items,
            ).0
        }
}

/// Runs a program on a fresh interpreter: `print` is bound to the printing
/// builtin, then the module expressions run in order until one fails.
pub fn interpret(ast: &Ast, interner: &mut Interner) -> (r: Run)
    requires
        old(interner).wf(),
        old(interner).names().len() + 2 < u32::MAX,
    ensures
        final(interner).wf(),
        old(interner).names().is_prefix_of(final(interner).names()),
        program_ran(r, ast@, *final(interner)),
{
    let mut interpreter = Interpreter { env: Env::new(), printed: Vec::new() };
    assert(printed_model(interpreter.printed@) =~= Seq::<Val>::empty());
    let result = interpreter.ast(ast, interner, EVALUATION_DEPTH);
    let r = Run { printed: interpreter.printed, result };
    proof {
        let p = choose|p: Ident|
            {
                &&& interner.holds(p)
                &&& #[trigger] interner.name_of(p) == print_name()
                &&& printed_model(interpreter.printed@) == Seq::<Val>::empty() + run_items(
                    EVALUATION_DEPTH as nat,
                    Seq::<(Ident, Val)>::empty().push((p, Val::Builtin(Builtin::Print))),
                    ast@,
                ).1
                &&& unit_result_model(result) == run_items(
                    EVALUATION_DEPTH as nat,
                    Seq::<(Ident, Val)>::empty().push((p, Val::Builtin(Builtin::Print))),
                    ast@,
                ).0
            };
        assert(Seq::<(Ident, Val)>::empty().push((p, Val::Builtin(Builtin::Print))) =~= seq![(p, Val::Builtin(Builtin::Print))]);
        assert(Seq::<Val>::empty() + run_items(EVALUATION_DEPTH as nat, seq![(p, Val::Builtin(Builtin::Print))], ast@).1 =~= run_items(EVALUATION_DEPTH as nat, seq![(p, Val::Builtin(Builtin::Print))], ast@).1);
        assert(interner.name_of(p) == print_name());
    }
    r
}

} // verus!

use puppy::integer::BigInteger;
use puppy::interpreter::env::{Env, EnvLen};
use puppy::interpreter::scopes::{ScopeLen, Scopes};
use puppy::interpreter::value::{Builtin, Value};
use puppy::ir::ast::{Ast, Expression, InfixOp, ModuleExpression, PrefixOp};
use puppy::ir::typed::{self, Type};
use puppy::ir::{Ident, Interner};
use puppy::span::{Ctx, Span, Spanned};
use puppy::typecheck::typecheck;

fn sp(start: usize, end: usize) -> Span {
    Span::new(Ctx(0), start, end)
}

fn shown(v: &Value, interner: &Interner) -> String {
    v.display(interner)
}

#[test]
fn small_integers_and_copies() {
    let interner = Interner::new();
    assert_eq!(shown(&Value::Int(BigInteger::zero()), &interner), "0");
    assert_eq!(shown(&Value::Int(BigInteger::from_u64(u64::MAX)), &interner), "18446744073709551615");
    assert_eq!(BigInteger::from_u64(0), BigInteger::zero());
    let n = BigInteger::from_u64(1 << 40);
    assert_eq!(shown(&Value::Int(n.duplicate()), &interner), "1099511627776");
    assert_eq!(n.duplicate(), n);
}

#[test]
fn interning_gives_one_identifier_per_name() {
    let mut interner = Interner::new();
    assert_eq!(interner.len(), 0);
    let a = Ident::get_or_intern(&mut interner, "alpha");
    let b = interner.get_or_intern("beta");
    let a2 = Ident::get_or_intern(&mut interner, "alpha");
    assert_eq!(a, a2);
    assert_ne!(a, b);
    assert_eq!(interner.len(), 2);
    assert_eq!(a.resolve(&interner), "alpha");
    assert_eq!(interner.resolve(b), "beta");
}

#[test]
fn env_lookup_finds_the_innermost_binding() {
    let mut interner = Interner::new();
    let x = interner.get_or_intern("x");
    let y = interner.get_or_intern("y");
    let mut env = Env::new();
    assert!(env.get(x).is_none());
    env.push(x, Value::Int(BigInteger::from_u64(1)));
    let before: EnvLen = env.len();
    env.push(y, Value::Bool(true));
    env.push(x, Value::Int(BigInteger::from_u64(2)));
    assert_eq!(shown(&env.get(x).unwrap(), &interner), "2");
    assert_eq!(shown(&env.get(y).unwrap(), &interner), "true");
    env.pop();
    assert_eq!(shown(&env.get(x).unwrap(), &interner), "1");
    env.truncate(before);
    assert_eq!(env.len().0, 1);
    assert!(env.get(y).is_none());
    let mut other = Env::new();
    other.push(y, Value::Unit);
    env.append(&mut other);
    assert_eq!(other.len().0, 0);
    assert_eq!(env.len().0, 2);
    assert_eq!(shown(&env.get(y).unwrap(), &interner), "()");
    env.truncate(before);
    assert!(env.get(y).is_none());
    env.pop();
    env.pop();
    assert_eq!(env.len().0, 0);
}

#[test]
fn scopes_look_up_by_name() {
    let interner = Interner::new();
    let mut scopes = Scopes::new();
    assert!(scopes.get("a").is_none());
    scopes.push(Spanned::new("a", sp(0, 1)), Value::Int(BigInteger::from_u64(1)));
    let before: ScopeLen = scopes.len();
    scopes.push(Spanned::new("a", sp(2, 3)), Value::Int(BigInteger::from_u64(2)));
    assert_eq!(shown(scopes.get("a").unwrap(), &interner), "2");
    scopes.pop();
    assert_eq!(shown(scopes.get("a").unwrap(), &interner), "1");
    scopes.push(Spanned::new("b", sp(4, 5)), Value::Unit);
    scopes.truncate(before);
    assert_eq!(scopes.len().0, 1);
    assert!(scopes.get("b").is_none());
}

#[test]
fn builtins_and_closures_show() {
    let mut interner = Interner::new();
    let p = interner.get_or_intern("p");
    assert_eq!(shown(&Value::Builtin(Builtin::Print), &interner), "<builtin>");
    let f = Value::Function { param: p, env: Env::new(), body: Spanned::new(Expression::Unit, sp(0, 2)) };
    assert_eq!(shown(&f, &interner), "fn (p) = <expr>");
    assert_eq!(shown(&Value::Bool(false), &interner), "false");
}

fn literal(e: Expression, s: Span) -> Spanned<ModuleExpression> {
    Spanned::new(ModuleExpression::Expression(Spanned::new(e, s)), s)
}

#[test]
fn literals_get_their_types() {
    let ast = Ast(vec![
        literal(Expression::Int(BigInteger::from_u64(9)), sp(0, 1)),
        literal(Expression::Bool(true), sp(2, 6)),
    ]);
    let (typed_ast, diagnostics) = typecheck(ast);
    assert!(diagnostics.is_empty());
    assert_eq!(typed_ast.0.len(), 2);
    match &typed_ast.0[0].inner {
        typed::ModuleExpression::Expression(t) => {
            assert_eq!(t.inner.ty, Type::Int);
            assert_eq!(t.span, sp(0, 1));
            match &t.inner.expr {
                typed::Expression::Int(n) => assert_eq!(Value::Int(n.duplicate()).display(&Interner::new()), "9"),
                other => panic!("not an integer: {:?}", other),
            }
        }
        other => panic!("not an expression: {:?}", other),
    }
    match &typed_ast.0[1].inner {
        typed::ModuleExpression::Expression(t) => {
            assert_eq!(t.inner.ty, Type::Bool);
            assert!(matches!(t.inner.expr, typed::Expression::Bool(true)));
        }
        other => panic!("not an expression: {:?}", other),
    }
    assert_eq!(typed_ast.0[1].span, sp(2, 6));
    assert_ne!(Type::Function(Box::new(Type::Int), Box::new(Type::Bool)), Type::Int);
}

#[test]
fn spans_join_and_end() {
    let a = Span::new(Ctx(1), 3, 5);
    let b = Span::new(Ctx(1), 1, 4);
    assert_eq!(a.union(&b), Span::new(Ctx(1), 1, 5));
    assert_eq!(a.to_end(), Span::new(Ctx(1), 5, 5));
    assert_eq!(a.inner(), (Ctx(1), 3, 5));
    assert_eq!((a.context(), a.start(), a.end()), (Ctx(1), 3, 5));
    assert_eq!(Span::default_span(), Span::new(Ctx(0), 0, 0));
}

fn boxed(e: Expression, s: Span) -> Spanned<Box<Expression>> {
    Spanned::new(Box::new(e), s)
}

#[test]
fn tree_labels_of_every_kind_of_node() {
    let mut interner = Interner::new();
    let x = interner.get_or_intern("x");
    let f = interner.get_or_intern("f");
    let s = sp(0, 1);
    let ident = Expression::Ident(x);
    assert_eq!(ident.label(&interner), "x");
    assert_eq!(Expression::Unit.label(&interner), "()");
    assert_eq!(Expression::Int(BigInteger::from_u64(123)).label(&interner), "123");
    assert_eq!(Expression::Bool(false).label(&interner), "false");
    let func = Expression::Function { param: Spanned::new(x, s), body: boxed(Expression::Ident(x), s) };
    assert_eq!(func.label(&interner), "fn x");
    assert_eq!(func.children().len(), 1);
    let let_ = Expression::Let {
        name: Spanned::new(f, s),
        params: vec![Spanned::new(x, s), Spanned::new(x, s)],
        expr: boxed(Expression::Unit, s),
        in_: boxed(Expression::Bool(true), s),
    };
    assert_eq!(let_.label(&interner), "let f x x");
    let kids: Vec<String> = let_.children().iter().map(|c| c.label(&interner)).collect();
    assert_eq!(kids, vec!["()", "true"]);
    let prefix = Expression::PrefixOp { expr: boxed(Expression::Unit, s), op: Spanned::new(PrefixOp::LogicalNot, s) };
    assert_eq!(prefix.label(&interner), "prefix LogicalNot");
    let infix = Expression::InfixOp {
        lhs: boxed(Expression::Unit, s),
        rhs: boxed(Expression::Bool(true), s),
        op: Spanned::new(InfixOp::GreaterThanEquals, s),
    };
    assert_eq!(infix.label(&interner), "infix GreaterThanEquals");
    let cond = Expression::IfThenElse {
        condition: boxed(Expression::Bool(true), s),
        then_branch: boxed(Expression::Unit, s),
        else_branch: Some(boxed(Expression::Int(BigInteger::from_u64(1)), s)),
    };
    assert_eq!(cond.label(&interner), "if");
    let kids: Vec<String> = cond.children().iter().map(|c| c.label(&interner)).collect();
    assert_eq!(kids, vec!["true", "()", "1"]);
    let seq = Expression::Semicolon(boxed(Expression::Unit, s), Some(boxed(Expression::Unit, s)));
    assert_eq!(seq.label(&interner), ";");
    assert_eq!(seq.children().len(), 2);
    let m = ModuleExpression::Let { name: Spanned::new(f, s), params: vec![], expr: Spanned::new(Expression::Unit, s) };
    assert_eq!(m.label(&interner), "let f ");
    assert_eq!(m.children()[0].label(&interner), "()");
}

#[test]
fn operators_have_names_and_symbols() {
    assert_eq!(PrefixOp::Neg.name(), "Neg");
    assert_eq!(PrefixOp::BitwiseNot.symbol(), "~");
    assert_eq!(InfixOp::LeftBitshift.name(), "LeftBitshift");
    assert_eq!(InfixOp::LogicalOr.symbol(), "||");
}

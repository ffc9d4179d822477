use puppy::diagnostics::Diagnostic;
use puppy::ir::ast::{Ast, Expression, ModuleExpression};
use puppy::ir::Interner;
use puppy::lexer::lexer;
use puppy::parser::parser;
use puppy::span::{Ctx, Span};

fn parse_source(source: &str) -> (Option<Ast>, Vec<Diagnostic>, Interner) {
    let mut interner = Interner::new();
    let tokens = match lexer(source, 0, &mut interner) {
        Ok((Some(t), errors)) => {
            assert!(errors.is_empty());
            t
        }
        _ => panic!("the source did not lex"),
    };
    let (ast, errors) = parser(&tokens, &interner);
    (ast, errors, interner)
}

fn render(e: &Expression, interner: &Interner) -> String {
    let label = e.label(interner);
    if let Expression::Semicolon(lhs, None) = e {
        return format!("{}({})", label, render(&lhs.inner, interner));
    }
    let children = e.children();
    if children.is_empty() {
        label
    } else {
        let parts: Vec<String> = children.iter().map(|c| render(c, interner)).collect();
        format!("{}({})", label, parts.join(", "))
    }
}

fn render_item(m: &ModuleExpression, interner: &Interner) -> String {
    let children = m.children();
    assert_eq!(children.len(), 1);
    format!("{}: {}", m.label(interner), render(children[0], interner))
}

fn one_expression(source: &str) -> String {
    let (ast, errors, interner) = parse_source(source);
    assert!(errors.is_empty());
    let ast = ast.unwrap();
    assert_eq!(ast.0.len(), 1);
    render_item(&ast.0[0].inner, &interner)
}

#[test]
fn multiplication_binds_tighter_than_addition() {
    assert_eq!(one_expression("1 + 2 * 3"), "expr: infix Add(1, infix Mul(2, 3))");
    assert_eq!(one_expression("1 * 2 + 3"), "expr: infix Add(infix Mul(1, 2), 3)");
}

#[test]
fn binary_operators_group_to_the_left() {
    assert_eq!(one_expression("1 - 2 - 3"), "expr: infix Sub(infix Sub(1, 2), 3)");
    assert_eq!(one_expression("8 / 4 % 3"), "expr: infix Modulo(infix Div(8, 4), 3)");
}

#[test]
fn precedence_levels_from_shift_to_logical_or() {
    assert_eq!(one_expression("1 << 2 + 3"), "expr: infix LeftBitshift(1, infix Add(2, 3))");
    assert_eq!(one_expression("1 < 2 == true"), "expr: infix Equal(infix LessThan(1, 2), true)");
    assert_eq!(
        one_expression("a | b ^ c & d"),
        "expr: infix BitwiseOr(a, infix BitwiseXor(b, infix BitwiseAnd(c, d)))"
    );
    assert_eq!(one_expression("a || b && c"), "expr: infix LogicalOr(a, infix LogicalAnd(b, c))");
    assert_eq!(one_expression("a != b >= c"), "expr: infix NotEqual(a, infix GreaterThanEquals(b, c))");
}

#[test]
fn prefix_operators_nest() {
    assert_eq!(one_expression("- ~1"), "expr: prefix Neg(prefix BitwiseNot(1))");
    assert_eq!(one_expression("!true && +x"), "expr: infix LogicalAnd(prefix LogicalNot(true), prefix Pos(x))");
}

#[test]
fn application_is_juxtaposition() {
    assert_eq!(one_expression("f 1 2"), "expr: call(call(f, 1), 2)");
    assert_eq!(one_expression("f 1 + 2"), "expr: call(f, infix Add(1, 2))");
}

#[test]
fn parentheses_group() {
    assert_eq!(one_expression("(1 + 2) * 3"), "expr: infix Mul(infix Add(1, 2), 3)");
    assert_eq!(one_expression("f (g x)"), "expr: call(f, call(g, x))");
}

#[test]
fn semicolons_sequence() {
    assert_eq!(one_expression("a; b; c"), "expr: ;(;(a, b), c)");
    assert_eq!(one_expression("a;"), "expr: ;(a)");
}

#[test]
fn let_in_binds() {
    assert_eq!(one_expression("let x = 1 in x"), "expr: let x (1, x)");
    assert_eq!(one_expression("let f x y = x in f"), "expr: let f x y(x, f)");
}

#[test]
fn module_definitions_follow_each_other() {
    let (ast, errors, interner) = parse_source("let x = 1 let f a b = a + b f x");
    assert!(errors.is_empty());
    let ast = ast.unwrap();
    let items: Vec<String> = ast.0.iter().map(|m| render_item(&m.inner, &interner)).collect();
    assert_eq!(items, vec!["let x : 1", "let f a b: call(call(infix Add(a, b), f), x)"]);
    assert_eq!(ast.label(), "Ast");
    assert_eq!(ast.children().len(), 2);
}

#[test]
fn spans_cover_the_source_of_each_node() {
    let (ast, _, _) = parse_source("1 + 23");
    let ast = ast.unwrap();
    assert_eq!(ast.0[0].span, Span::new(Ctx(0), 0, 6));
    match &ast.0[0].inner {
        ModuleExpression::Expression(e) => {
            assert_eq!(e.span, Span::new(Ctx(0), 0, 6));
            match &e.inner {
                Expression::InfixOp { lhs, rhs, op } => {
                    assert_eq!(lhs.span, Span::new(Ctx(0), 0, 1));
                    assert_eq!(rhs.span, Span::new(Ctx(0), 4, 6));
                    assert_eq!(op.span, Span::new(Ctx(0), 2, 3));
                }
                other => panic!("not an operator: {:?}", other),
            }
        }
        other => panic!("not an expression: {:?}", other),
    }
}

#[test]
fn an_empty_program_parses() {
    let (ast, errors, _) = parse_source("");
    assert!(errors.is_empty());
    assert_eq!(ast.unwrap().0.len(), 0);
}

#[test]
fn a_dangling_operator_is_reported_at_the_end_of_input() {
    let (ast, errors, _) = parse_source("1 +");
    assert!(ast.is_none());
    assert_eq!(errors.len(), 1);
    match &errors[0] {
        Diagnostic::ParserError(e) => {
            assert_eq!(e.reason, "found end of input expected something else");
            assert_eq!(e.span, Span::new(Ctx(0), 3, 3));
        }
        other => panic!("not a parse error: {:?}", other),
    }
}

#[test]
fn an_unfinished_definition_is_reported_at_the_end_of_input() {
    let (ast, errors, _) = parse_source("let x =");
    assert!(ast.is_none());
    match &errors[0] {
        Diagnostic::ParserError(e) => {
            assert_eq!(e.reason, "found end of input expected something else");
            assert_eq!(e.span, Span::new(Ctx(0), 7, 7));
        }
        other => panic!("not a parse error: {:?}", other),
    }
}

#[test]
fn an_error_is_reported_at_the_furthest_token_reached() {
    let (ast, errors, _) = parse_source("let x = 1 in x in 2");
    assert!(ast.is_none());
    match &errors[0] {
        Diagnostic::ParserError(e) => {
            assert_eq!(e.reason, "found 'in' expected end of input");
            assert_eq!(e.span, Span::new(Ctx(0), 15, 17));
        }
        other => panic!("not a parse error: {:?}", other),
    }
    let (ast, errors, _) = parse_source("let x = 1 1 let");
    assert!(ast.is_none());
    match &errors[0] {
        Diagnostic::ParserError(e) => {
            assert_eq!(e.reason, "found end of input expected something else");
            assert_eq!(e.span, Span::new(Ctx(0), 15, 15));
        }
        other => panic!("not a parse error: {:?}", other),
    }
    let (ast, errors, _) = parse_source("let x = in 2");
    assert!(ast.is_none());
    match &errors[0] {
        Diagnostic::ParserError(e) => {
            assert_eq!(e.reason, "found 'in' expected something else");
            assert_eq!(e.span, Span::new(Ctx(0), 8, 10));
        }
        other => panic!("not a parse error: {:?}", other),
    }
}

#[test]
fn a_let_without_in_inside_an_expression_is_reported() {
    let (ast, errors, _) = parse_source("(let x = 1)");
    assert!(ast.is_none());
    match &errors[0] {
        Diagnostic::ParserError(e) => {
            assert_eq!(e.reason, "found '(...)' expected end of input");
            assert_eq!(e.span, Span::new(Ctx(0), 0, 11));
        }
        other => panic!("not a parse error: {:?}", other),
    }
}

#[test]
fn a_parenthesized_program_is_its_contents_with_the_groups_span() {
    let (ast, errors, interner) = parse_source("(1 + 2)");
    assert!(errors.is_empty());
    let ast = ast.unwrap();
    assert_eq!(ast.0.len(), 1);
    assert_eq!(ast.0[0].span, Span::new(Ctx(0), 0, 7));
    match &ast.0[0].inner {
        ModuleExpression::Expression(e) => {
            assert_eq!(e.span, Span::new(Ctx(0), 0, 7));
            assert_eq!(render(&e.inner, &interner), "infix Add(1, 2)");
        }
        other => panic!("not an expression: {:?}", other),
    }
}

fn spans_cover(e: &Expression, span: Span) {
    let parts: Vec<Span> = match e {
        Expression::InfixOp { lhs, rhs, .. } => vec![lhs.span, rhs.span],
        Expression::PrefixOp { expr, .. } => vec![expr.span],
        Expression::Call { callee, arg } => vec![callee.span, arg.span],
        Expression::Semicolon(lhs, rhs) => {
            let mut v = vec![lhs.span];
            if let Some(r) = rhs {
                v.push(r.span);
            }
            v
        }
        Expression::Let { expr, in_, .. } => vec![expr.span, in_.span],
        _ => vec![],
    };
    for p in parts {
        assert!(span.start <= p.start && p.end <= span.end);
    }
    let kids: Vec<(&Expression, Span)> = match e {
        Expression::InfixOp { lhs, rhs, .. } => vec![(&*lhs.inner, lhs.span), (&*rhs.inner, rhs.span)],
        Expression::PrefixOp { expr, .. } => vec![(&*expr.inner, expr.span)],
        Expression::Call { callee, arg } => vec![(&*callee.inner, callee.span), (&*arg.inner, arg.span)],
        Expression::Let { expr, in_, .. } => vec![(&*expr.inner, expr.span), (&*in_.inner, in_.span)],
        _ => vec![],
    };
    for (k, s) in kids {
        spans_cover(k, s);
    }
}

#[test]
fn node_spans_cover_their_parts() {
    let (ast, errors, _) = parse_source("let x = (1 + -2) * f 3 in x; print (x - 1)");
    assert!(errors.is_empty());
    for m in &ast.unwrap().0 {
        if let ModuleExpression::Expression(e) = &m.inner {
            assert!(m.span.start <= e.span.start && e.span.end <= m.span.end);
            spans_cover(&e.inner, e.span);
        }
    }
}

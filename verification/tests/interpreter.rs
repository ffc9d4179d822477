use puppy::compile::{compile, Compilation, SourceProgram};
use puppy::diagnostics::{Diagnostic, LabelStyle};
use puppy::integer::BigInteger;
use puppy::interpreter::env::Env;
use puppy::interpreter::{interpret, Interpreter, Run, Stop};
use puppy::ir::ast::{Ast, Expression, ModuleExpression};
use puppy::ir::Interner;
use puppy::span::{Ctx, Span, Spanned};

fn run(source: &str) -> (Compilation, Interner) {
    let mut interner = Interner::new();
    let c = match compile(source, 0, &mut interner) {
        Ok(c) => c,
        Err(_) => panic!("the interner ran out of names"),
    };
    (c, interner)
}

fn printed(r: &Run, interner: &Interner) -> Vec<String> {
    r.printed.iter().map(|v| v.display(interner)).collect()
}

fn outputs(source: &str) -> Vec<String> {
    let (c, interner) = run(source);
    assert!(c.diagnostics.is_empty());
    let r = c.run.unwrap();
    assert!(r.result.is_ok(), "the run failed: {:?}", r.result);
    printed(&r, &interner)
}

fn failure(source: &str) -> (Vec<String>, String, Vec<(LabelStyle, usize, usize, String)>) {
    let (c, interner) = run(source);
    let r = c.run.unwrap();
    let out = printed(&r, &interner);
    match r.result {
        Err(Stop::Diagnostic(d)) => {
            let report = d.report(&interner);
            let labels = report.labels.iter().map(|l| (l.style, l.start, l.end, l.message.clone())).collect();
            (out, report.message, labels)
        }
        other => panic!("no diagnostic: {:?}", other),
    }
}

#[test]
fn prints_a_number() {
    assert_eq!(outputs("print 1"), vec!["1"]);
}

#[test]
fn evaluates_arithmetic() {
    assert_eq!(outputs("print (1 + 2 * 3)"), vec!["7"]);
    assert_eq!(outputs("print (10 - 20)"), vec!["-10"]);
    assert_eq!(outputs("print (-5)"), vec!["-5"]);
    assert_eq!(outputs("print (+5)"), vec!["5"]);
}

#[test]
fn division_rounds_toward_zero() {
    assert_eq!(outputs("print (7 / 2)"), vec!["3"]);
    assert_eq!(outputs("print (-7 / 2)"), vec!["-3"]);
    assert_eq!(outputs("print (-7 % 2)"), vec!["-1"]);
    assert_eq!(outputs("print (7 % -2)"), vec!["1"]);
}

#[test]
fn bitwise_operators_on_integers() {
    assert_eq!(outputs("print (~5)"), vec!["-6"]);
    assert_eq!(outputs("print (12 & 10)"), vec!["8"]);
    assert_eq!(outputs("print (12 | 10)"), vec!["14"]);
    assert_eq!(outputs("print (12 ^ 10)"), vec!["6"]);
    assert_eq!(outputs("print (-6 & 3)"), vec!["2"]);
}

#[test]
fn integers_have_no_size_limit() {
    assert_eq!(outputs("print (100000000000000000000 + 3)"), vec!["100000000000000000003"]);
    assert_eq!(outputs("print (3 - 100000000000000000000)"), vec!["-99999999999999999997"]);
    assert_eq!(outputs("print (100000000000000000000 * 3)"), vec!["300000000000000000000"]);
    assert_eq!(outputs("print (100000000000000000000 / 3)"), vec!["33333333333333333333"]);
    assert_eq!(outputs("print (100000000000000000000 % 3)"), vec!["1"]);
    assert_eq!(outputs("print (-100000000000000000000 / 3)"), vec!["-33333333333333333333"]);
    assert_eq!(outputs("print (-100000000000000000000 % 3)"), vec!["-1"]);
    assert_eq!(outputs("print (18446744073709551616 == 18446744073709551616)"), vec!["true"]);
    assert_eq!(outputs("print (18446744073709551616 < 18446744073709551617)"), vec!["true"]);
    assert_eq!(outputs("print (~(-3))"), vec!["2"]);
}

#[test]
fn negative_bitwise_operands_use_twos_complement() {
    assert_eq!(outputs("print (-6 | 3)"), vec!["-5"]);
    assert_eq!(outputs("print (-6 ^ 3)"), vec!["-7"]);
    assert_eq!(outputs("print (-1 & 100000000000000000000)"), vec!["100000000000000000000"]);
}

#[test]
fn comparisons_give_booleans() {
    assert_eq!(outputs("print (1 < 2)"), vec!["true"]);
    assert_eq!(outputs("print (2 <= 1)"), vec!["false"]);
    assert_eq!(outputs("print (2 > 1)"), vec!["true"]);
    assert_eq!(outputs("print (1 >= 1)"), vec!["true"]);
    assert_eq!(outputs("print (3 == 3)"), vec!["true"]);
    assert_eq!(outputs("print (3 != 3)"), vec!["false"]);
}

#[test]
fn boolean_operators() {
    assert_eq!(outputs("print (true && false)"), vec!["false"]);
    assert_eq!(outputs("print (true || false)"), vec!["true"]);
    assert_eq!(outputs("print (!true)"), vec!["false"]);
    assert_eq!(outputs("print (~true)"), vec!["false"]);
    assert_eq!(outputs("print (true ^ true)"), vec!["false"]);
    assert_eq!(outputs("print (true == false)"), vec!["false"]);
}

#[test]
fn semicolons_run_in_order() {
    assert_eq!(outputs("print 1; print 2; print 3"), vec!["1", "2", "3"]);
}

#[test]
fn print_gives_unit() {
    assert_eq!(outputs("print (print 1)"), vec!["1", "()"]);
}

#[test]
fn let_in_binds_a_value() {
    assert_eq!(outputs("let x = 5 in print (x * x)"), vec!["25"]);
}

#[test]
fn let_parameters_take_no_part_in_evaluation() {
    assert_eq!(outputs("let f a = 1 in print f"), vec!["1"]);
    assert_eq!(outputs("let f a b = 40 + 2 let g = print f"), vec!["42"]);
    let (out, message, _) = failure("let f x = x * 2 in print f");
    assert!(out.is_empty());
    assert_eq!(message, "name 'x' is not defined in this scope");
}

#[test]
fn module_definitions_stay_in_scope() {
    assert_eq!(outputs("let x = 40 let y = x + 2 let z = print y"), vec!["42"]);
}

#[test]
fn calls_see_the_callers_bindings() {
    // fn x = y, called where y is bound: the body sees the caller's y.
    let mut interner = Interner::new();
    let f = interner.get_or_intern("f");
    let x = interner.get_or_intern("x");
    let y = interner.get_or_intern("y");
    let print = interner.get_or_intern("print");
    let s = Span::new(Ctx(0), 0, 1);
    let b = |e: Expression| Spanned::new(Box::new(e), s);
    let call = |c: Expression, a: Expression| Expression::Call { callee: b(c), arg: b(a) };
    let func = Expression::Function { param: Spanned::new(x, s), body: b(Expression::Ident(y)) };
    let body = Expression::Let {
        name: Spanned::new(y, s),
        params: vec![],
        expr: b(Expression::Int(BigInteger::from_u64(3))),
        in_: b(call(Expression::Ident(print), call(Expression::Ident(f), Expression::Int(BigInteger::zero())))),
    };
    let program = Expression::Let { name: Spanned::new(f, s), params: vec![], expr: b(func), in_: b(body) };
    let ast = Ast(vec![Spanned::new(ModuleExpression::Expression(Spanned::new(program, s)), s)]);
    let r = interpret(&ast, &mut interner);
    assert!(r.result.is_ok());
    assert_eq!(printed(&r, &interner), vec!["3"]);
}

#[test]
fn a_function_value_shows_its_parameter() {
    let mut interner = Interner::new();
    let x = interner.get_or_intern("x");
    let print = interner.get_or_intern("print");
    let s = Span::new(Ctx(0), 0, 1);
    let func = Expression::Function { param: Spanned::new(x, s), body: Spanned::new(Box::new(Expression::Ident(x)), s) };
    let e = Expression::Call {
        callee: Spanned::new(Box::new(Expression::Ident(print)), s),
        arg: Spanned::new(Box::new(func), s),
    };
    let ast = Ast(vec![Spanned::new(ModuleExpression::Expression(Spanned::new(e, s)), s)]);
    let r = interpret(&ast, &mut interner);
    assert_eq!(printed(&r, &interner), vec!["fn (x) = <expr>"]);
}

#[test]
fn an_inner_binding_shadows_an_outer_one() {
    assert_eq!(outputs("let x = 1 in let x = 2 in print x"), vec!["2"]);
}

#[test]
fn values_show_as_text() {
    assert_eq!(outputs("print print"), vec!["<builtin>"]);
    assert_eq!(outputs("print true"), vec!["true"]);
}

#[test]
fn an_unknown_name_is_reported() {
    let (out, message, labels) = failure("print z");
    assert!(out.is_empty());
    assert_eq!(message, "name 'z' is not defined in this scope");
    assert_eq!(labels, vec![(LabelStyle::Primary, 6, 7, String::new())]);
}

#[test]
fn a_prefix_operator_on_the_wrong_value_is_reported() {
    let (_, message, labels) = failure("print (-true)");
    assert_eq!(message, "cannot apply the operator '-' to this value");
    assert_eq!(
        labels,
        vec![(LabelStyle::Primary, 7, 8, String::new()), (LabelStyle::Secondary, 8, 12, "operand".to_string())]
    );
}

#[test]
fn an_infix_operator_on_the_wrong_values_is_reported() {
    let (_, message, labels) = failure("1 + true");
    assert_eq!(message, "cannot apply the operator '+' to these two values");
    assert_eq!(
        labels,
        vec![
            (LabelStyle::Primary, 2, 3, String::new()),
            (LabelStyle::Secondary, 0, 1, "lefthand operand".to_string()),
            (LabelStyle::Secondary, 4, 8, "righthand operand".to_string()),
        ]
    );
    let (_, message, _) = failure("1 << 2");
    assert_eq!(message, "cannot apply the operator '<<' to these two values");
    let (_, message, _) = failure("true < false");
    assert_eq!(message, "cannot apply the operator '<' to these two values");
}

#[test]
fn calling_a_number_is_reported() {
    let (_, message, labels) = failure("1 2");
    assert_eq!(message, "cannot call this value as a function");
    assert_eq!(labels, vec![(LabelStyle::Primary, 0, 1, String::new())]);
}

#[test]
fn a_run_stops_at_the_first_failing_item() {
    let (out, message, _) = failure("let a = print 1 let b = z let c = print 2");
    assert_eq!(out, vec!["1"]);
    assert_eq!(message, "name 'z' is not defined in this scope");
}

#[test]
fn dividing_by_zero_stops_the_run() {
    let (c, interner) = run("print 1; print (1 / 0); print 2");
    let r = c.run.unwrap();
    assert_eq!(printed(&r, &interner), vec!["1"]);
    assert!(matches!(r.result, Err(Stop::DivisionByZero)));
    let (c, _) = run("print (1 % 0)");
    assert!(matches!(c.run.unwrap().result, Err(Stop::DivisionByZero)));
}

#[test]
fn a_source_that_does_not_lex_is_not_run() {
    let (c, _) = run("print $");
    assert!(c.ast.is_none());
    assert!(c.run.is_none());
    assert_eq!(c.diagnostics.len(), 1);
    match &c.diagnostics[0] {
        Diagnostic::ParserError(e) => assert_eq!(e.reason, "found '$' expected end of input"),
        other => panic!("not a parse error: {:?}", other),
    }
}

#[test]
fn a_source_that_does_not_parse_is_not_run() {
    let (c, interner) = run("print 1 +");
    assert!(c.ast.is_none());
    assert!(c.run.is_none());
    assert_eq!(c.diagnostics.len(), 1);
    let report = c.diagnostics[0].report(&interner);
    assert_eq!(report.message, "found end of input expected something else");
    assert_eq!(report.labels.len(), 1);
    assert_eq!((report.labels[0].file_id, report.labels[0].start, report.labels[0].end), (0, 9, 9));
    assert_eq!(report.labels[0].style, LabelStyle::Primary);
}

#[test]
fn lexer_recovery_errors_come_with_the_parse() {
    let (c, interner) = run("(1 $) 2");
    assert!(c.run.is_none());
    let messages: Vec<String> = c.diagnostics.iter().map(|d| d.report(&interner).message).collect();
    assert_eq!(messages, vec!["found '$' expected ')'", "found '(...)' expected end of input"]);
}

#[test]
fn a_source_program_holds_its_text() {
    let p = SourceProgram::new("print 1".to_string(), Ctx(3));
    assert_eq!(p.text(), "print 1");
    assert_eq!(p.file_ctx(), Ctx(3));
    let mut interner = Interner::new();
    let c = compile(p.text(), p.file_ctx().0, &mut interner).ok().unwrap();
    assert!(c.diagnostics.is_empty());
    assert_eq!(c.ast.unwrap().0[0].span.context, Ctx(3));
}

#[test]
fn compile_reports_what_the_lexer_and_the_parser_report() {
    for source in ["(1 $) 2", "print 1 +", "print $", "let x = in 2", "print 1"] {
        let mut separate = Interner::new();
        let (tokens, mut expected) = match puppy::lexer::lexer(source, 0, &mut separate) {
            Ok(r) => r,
            Err(_) => panic!("the interner ran out of names"),
        };
        if let Some(t) = &tokens {
            let (_, parser_errors) = puppy::parser::parser(t, &separate);
            expected.extend(parser_errors);
        }
        let (c, interner) = run(source);
        let got: Vec<String> = c.diagnostics.iter().map(|d| d.report(&interner).message).collect();
        let want: Vec<String> = expected.iter().map(|d| d.report(&separate).message).collect();
        assert_eq!(got, want);
    }
}

#[test]
fn a_fresh_interpreter_binds_print_itself() {
    let (c, mut interner) = run("print 5; print (1 + 1)");
    let ast = c.ast.unwrap();
    let mut fresh = Interpreter { env: Env::new(), printed: vec![] };
    let result = fresh.ast(&ast, &mut interner, 100);
    assert!(result.is_ok());
    let shown: Vec<String> = fresh.printed.iter().map(|v| v.display(&interner)).collect();
    assert_eq!(shown, vec!["5", "2"]);
}

#[test]
fn a_program_may_shadow_print() {
    assert_eq!(outputs("let print = 1 let x = print"), Vec::<String>::new());
    let (c, interner) = run("let print = 1 let x = print 2");
    let r = c.run.unwrap();
    assert!(printed(&r, &interner).is_empty());
    assert!(matches!(r.result, Err(Stop::Diagnostic(Diagnostic::CantCall { .. }))));
}

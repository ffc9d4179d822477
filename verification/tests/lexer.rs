use puppy::diagnostics::Diagnostic;
use puppy::integer::BigInteger;
use puppy::ir::token::{Ctrl, Kw, Token, Tokens};
use puppy::ir::{Ident, Interner};
use puppy::lexer::lexer;
use puppy::span::{Ctx, Span};

fn span(start: usize, end: usize) -> Span {
    Span::new(Ctx(0), start, end)
}

fn lex_ok(source: &str, interner: &mut Interner) -> (Option<Tokens>, Vec<Diagnostic>) {
    match lexer(source, 0, interner) {
        Ok(r) => r,
        Err(_) => panic!("the interner ran out of names"),
    }
}

fn reason(d: &Diagnostic) -> (String, Span) {
    match d {
        Diagnostic::ParserError(e) => (e.reason.clone(), e.span),
        other => panic!("not a parse error: {:?}", other),
    }
}

#[test]
fn lexes_a_let_expression() {
    let mut interner = Interner::new();
    let (tokens, errors) = lex_ok("let x = 12 in x", &mut interner);
    assert!(errors.is_empty());
    let tokens = tokens.unwrap();
    let x = Ident::get_or_intern(&mut interner, "x");
    let expected = vec![
        (Token::Kw(Kw::Let), span(0, 3)),
        (Token::Ident(x), span(4, 5)),
        (Token::Ctrl(Ctrl::Equals), span(6, 7)),
        (Token::Int(BigInteger::from_u64(12)), span(8, 10)),
        (Token::Kw(Kw::In), span(11, 13)),
        (Token::Ident(x), span(14, 15)),
    ];
    assert_eq!(tokens.0, expected);
    assert_eq!(interner.len(), 1);
}

#[test]
fn lexes_keywords_and_booleans() {
    let mut interner = Interner::new();
    let (tokens, errors) = lex_ok("if then else fn true false", &mut interner);
    assert!(errors.is_empty());
    let kinds: Vec<Token> = tokens.unwrap().0.into_iter().map(|(t, _)| t).collect();
    assert_eq!(
        kinds,
        vec![
            Token::Kw(Kw::If),
            Token::Kw(Kw::Then),
            Token::Kw(Kw::Else),
            Token::Kw(Kw::Fn),
            Token::Bool(true),
            Token::Bool(false),
        ]
    );
    assert_eq!(interner.len(), 0);
}

#[test]
fn lexes_two_character_symbols_first() {
    let mut interner = Interner::new();
    let (tokens, errors) = lex_ok("<<>>-><=>===!=&&||::< > = ! & | : - ~", &mut interner);
    assert!(errors.is_empty());
    let kinds: Vec<Token> = tokens.unwrap().0.into_iter().map(|(t, _)| t).collect();
    assert_eq!(
        kinds,
        vec![
            Token::Ctrl(Ctrl::DoubleLt),
            Token::Ctrl(Ctrl::DoubleGt),
            Token::Ctrl(Ctrl::Arrow),
            Token::Ctrl(Ctrl::LessThanEquals),
            Token::Ctrl(Ctrl::GreaterThanEquals),
            Token::Ctrl(Ctrl::DoubleEquals),
            Token::Ctrl(Ctrl::NotEquals),
            Token::Ctrl(Ctrl::DoubleAmpersand),
            Token::Ctrl(Ctrl::DoublePipe),
            Token::Ctrl(Ctrl::DoubleColon),
            Token::Ctrl(Ctrl::LessThan),
            Token::Ctrl(Ctrl::GreaterThan),
            Token::Ctrl(Ctrl::Equals),
            Token::Ctrl(Ctrl::Bang),
            Token::Ctrl(Ctrl::Ampersand),
            Token::Ctrl(Ctrl::Pipe),
            Token::Ctrl(Ctrl::Colon),
            Token::Ctrl(Ctrl::Minus),
            Token::Ctrl(Ctrl::Tilde),
        ]
    );
}

#[test]
fn skips_comments_and_white_space() {
    let mut interner = Interner::new();
    let (tokens, errors) = lex_ok("  // a comment\n\t1 // another\n+ 2", &mut interner);
    assert!(errors.is_empty());
    let tokens = tokens.unwrap();
    assert_eq!(
        tokens.0,
        vec![
            (Token::Int(BigInteger::from_u64(1)), span(16, 17)),
            (Token::Ctrl(Ctrl::Plus), span(29, 30)),
            (Token::Int(BigInteger::from_u64(2)), span(31, 32)),
        ]
    );
}

#[test]
fn spans_count_bytes() {
    let mut interner = Interner::new();
    let (tokens, errors) = lex_ok("\u{a0}é", &mut interner);
    // 'é' is no identifier character: nothing after the padding can be read.
    assert!(tokens.is_none());
    assert_eq!(errors.len(), 1);
    let (msg, sp) = reason(&errors[0]);
    assert_eq!(msg, "found 'é' expected end of input");
    assert_eq!(sp, span(2, 4));
}

#[test]
fn token_spans_count_bytes_after_wide_characters() {
    let mut interner = Interner::new();
    // "ü" takes two bytes, "€" three, inside a comment.
    let (tokens, errors) = lex_ok("// ü€\nx (y)", &mut interner);
    assert!(errors.is_empty());
    let tokens = tokens.unwrap();
    assert_eq!(tokens.0[0].1, span(9, 10));
    match &tokens.0[1] {
        (Token::Parentheses(inner), sp) => {
            assert_eq!(*sp, span(11, 14));
            assert_eq!(inner.0[0].1, span(12, 13));
        }
        other => panic!("not a group: {:?}", other),
    }
    let (_, errors) = lex_ok("(é $)", &mut interner);
    let (msg, sp) = reason(&errors[0]);
    assert_eq!(msg, "found 'é' expected ')'");
    assert_eq!(sp, span(1, 3));
}

#[test]
fn a_zero_is_a_number_of_its_own() {
    let mut interner = Interner::new();
    let (tokens, errors) = lex_ok("007", &mut interner);
    assert!(errors.is_empty());
    let kinds: Vec<Token> = tokens.unwrap().0.into_iter().map(|(t, _)| t).collect();
    assert_eq!(
        kinds,
        vec![
            Token::Int(BigInteger::zero()),
            Token::Int(BigInteger::zero()),
            Token::Int(BigInteger::from_u64(7)),
        ]
    );
}

#[test]
fn reads_large_numbers() {
    let mut interner = Interner::new();
    let (tokens, errors) = lex_ok("123456789012345678901234567890", &mut interner);
    assert!(errors.is_empty());
    let tokens = tokens.unwrap();
    match &tokens.0[0].0 {
        Token::Int(_) => assert_eq!(tokens.0[0].0.display(&interner), "123456789012345678901234567890"),
        other => panic!("not a number: {:?}", other),
    }
}

#[test]
fn groups_brackets() {
    let mut interner = Interner::new();
    let (tokens, errors) = lex_ok("(1 [2] {})", &mut interner);
    assert!(errors.is_empty());
    let tokens = tokens.unwrap();
    assert_eq!(tokens.0.len(), 1);
    let inner = match &tokens.0[0] {
        (Token::Parentheses(inner), sp) => {
            assert_eq!(*sp, span(0, 10));
            inner
        }
        other => panic!("not a group: {:?}", other),
    };
    assert_eq!(inner.0.len(), 3);
    assert_eq!(inner.0[0], (Token::Int(BigInteger::from_u64(1)), span(1, 2)));
    assert_eq!(
        inner.0[1],
        (Token::SquareBrackets(Tokens(vec![(Token::Int(BigInteger::from_u64(2)), span(4, 5))])), span(3, 6))
    );
    assert_eq!(inner.0[2], (Token::CurlyBraces(Tokens(vec![])), span(7, 9)));
}

#[test]
fn recovers_from_an_unreadable_group() {
    let mut interner = Interner::new();
    let (tokens, errors) = lex_ok("(1 $ 2) 3", &mut interner);
    let tokens = tokens.unwrap();
    assert_eq!(
        tokens.0,
        vec![
            (Token::Parentheses(Tokens(vec![(Token::Error, span(0, 7))])), span(0, 7)),
            (Token::Int(BigInteger::from_u64(3)), span(8, 9)),
        ]
    );
    assert_eq!(errors.len(), 1);
    let (msg, sp) = reason(&errors[0]);
    assert_eq!(msg, "found '$' expected ')'");
    assert_eq!(sp, span(3, 4));
}

#[test]
fn an_unclosed_group_is_an_error() {
    let mut interner = Interner::new();
    let (tokens, errors) = lex_ok("(1 2", &mut interner);
    assert!(tokens.is_none());
    assert_eq!(errors.len(), 1);
    let (msg, sp) = reason(&errors[0]);
    assert_eq!(msg, "found '(' expected end of input");
    assert_eq!(sp, span(0, 1));
}

#[test]
fn a_stray_closer_is_an_error() {
    let mut interner = Interner::new();
    let (tokens, errors) = lex_ok("1 )", &mut interner);
    assert!(tokens.is_none());
    let (msg, sp) = reason(&errors[0]);
    assert_eq!(msg, "found ')' expected end of input");
    assert_eq!(sp, span(2, 3));
}

#[test]
fn empty_source_has_no_tokens() {
    let mut interner = Interner::new();
    let (tokens, errors) = lex_ok("", &mut interner);
    assert!(errors.is_empty());
    assert_eq!(tokens.unwrap().0, vec![]);
}

#[test]
fn trailing_comments_belong_to_the_last_token() {
    let mut interner = Interner::new();
    let (tokens, errors) = lex_ok("1 // one\n  // two", &mut interner);
    assert!(errors.is_empty());
    assert_eq!(tokens.unwrap().0, vec![(Token::Int(BigInteger::from_u64(1)), span(0, 1))]);
}

#[test]
fn padding_without_a_token_is_an_error() {
    let mut interner = Interner::new();
    let (tokens, errors) = lex_ok("  // only a comment", &mut interner);
    assert!(tokens.is_none());
    assert_eq!(errors.len(), 1);
    let (msg, sp) = reason(&errors[0]);
    assert_eq!(msg, "found end of input expected a token");
    assert_eq!(sp, span(19, 19));
}

#[test]
fn same_name_same_identifier() {
    let mut interner = Interner::new();
    let (tokens, _) = lex_ok("a b a", &mut interner);
    let tokens = tokens.unwrap();
    assert_eq!(tokens.0[0].0, tokens.0[2].0);
    assert_ne!(tokens.0[0].0, tokens.0[1].0);
    assert_eq!(interner.len(), 2);
}

#[test]
fn spans_carry_the_file() {
    let mut interner = Interner::new();
    let tokens = match lexer("x", 7, &mut interner) {
        Ok((Some(t), _)) => t,
        _ => panic!("no tokens"),
    };
    assert_eq!(tokens.0[0].1, Span::new(Ctx(7), 0, 1));
}

#[test]
fn keyword_and_symbol_text_read_back() {
    let kws = [Kw::Let, Kw::In, Kw::If, Kw::Then, Kw::Else, Kw::Fn];
    for kw in kws {
        let mut interner = Interner::new();
        let (tokens, errors) = lex_ok(kw.text(), &mut interner);
        assert!(errors.is_empty());
        assert_eq!(tokens.unwrap().0, vec![(Token::Kw(kw), span(0, kw.text().chars().count()))]);
    }
    let ctrls = [Ctrl::Arrow, Ctrl::Slash, Ctrl::Percent, Ctrl::Dot, Ctrl::Caret, Ctrl::Comma, Ctrl::Semicolon, Ctrl::Star];
    for c in ctrls {
        let mut interner = Interner::new();
        let (tokens, errors) = lex_ok(c.text(), &mut interner);
        assert!(errors.is_empty());
        assert_eq!(tokens.unwrap().0, vec![(Token::Ctrl(c), span(0, c.text().chars().count()))]);
    }
}

#[test]
fn tokens_show_their_text() {
    let mut interner = Interner::new();
    let x = Ident::get_or_intern(&mut interner, "xyz");
    assert_eq!(Token::Ident(x).display(&interner), "xyz");
    assert_eq!(Token::Int(BigInteger::from_u64(42)).display(&interner), "42");
    assert_eq!(Token::Bool(true).display(&interner), "true");
    assert_eq!(Token::Kw(Kw::Then).display(&interner), "then");
    assert_eq!(Token::Ctrl(Ctrl::NotEquals).display(&interner), "!=");
    assert_eq!(Token::Unit.display(&interner), "()");
    assert_eq!(Token::Error.display(&interner), "<error>");
    assert_eq!(Token::Parentheses(Tokens(vec![])).display(&interner), "(...)");
    assert_eq!(Token::CurlyBraces(Tokens(vec![])).display(&interner), "{...}");
    assert_eq!(Token::SquareBrackets(Tokens(vec![])).display(&interner), "[...]");
}

#[test]
fn identifier_number_and_boolean_text_read_back() {
    let mut interner = Interner::new();
    let x = Ident::get_or_intern(&mut interner, "snake_case_2");
    let tokens = [Token::Ident(x), Token::Int(BigInteger::from_u64(9876543210)), Token::Int(BigInteger::zero()), Token::Bool(false)];
    for t in tokens {
        let text = t.display(&interner);
        let before = interner.len();
        let (read, errors) = lex_ok(&text, &mut interner);
        assert!(errors.is_empty());
        assert_eq!(read.unwrap().0, vec![(t, span(0, text.chars().count()))]);
        assert_eq!(interner.len(), before);
    }
}

#[test]
fn token_spans_are_in_order_inside_the_source() {
    let mut interner = Interner::new();
    let source = "a + (b * 2) // c\n  - 3 >= [x]";
    let (tokens, errors) = lex_ok(source, &mut interner);
    assert!(errors.is_empty());
    let tokens = tokens.unwrap().0;
    assert_eq!(tokens.len(), 7);
    let len = source.chars().count();
    for (_, sp) in &tokens {
        assert!(sp.start < sp.end && sp.end <= len);
        assert_eq!(sp.context, Ctx(0));
    }
    for w in tokens.windows(2) {
        assert!(w[0].1.end <= w[1].1.start);
    }
}

#[test]
fn nested_tokens_lie_inside_their_groups_and_show_their_lexemes() {
    let mut interner = Interner::new();
    let source = "f (a + [b, 12]) {c}";
    let chars: Vec<char> = source.chars().collect();
    let (tokens, errors) = lex_ok(source, &mut interner);
    assert!(errors.is_empty());
    fn check(tokens: &Tokens, chars: &[char], interner: &Interner, from: usize, to: usize) {
        let mut last_end = from;
        for (t, sp) in &tokens.0 {
            assert!(last_end <= sp.start && sp.start < sp.end && sp.end <= to);
            last_end = sp.end;
            let text: String = chars[sp.start..sp.end].iter().collect();
            match t {
                Token::Parentheses(inner) | Token::CurlyBraces(inner) | Token::SquareBrackets(inner) => {
                    assert_eq!(text.chars().next(), t.display(interner).chars().next());
                    assert_eq!(text.chars().last(), t.display(interner).chars().last());
                    check(inner, chars, interner, sp.start, sp.end);
                }
                _ => assert_eq!(text, t.display(interner)),
            }
        }
    }
    check(&tokens.unwrap(), &chars, &interner, 0, chars.len());
}

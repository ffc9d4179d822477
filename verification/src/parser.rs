use vstd::prelude::*;
use crate::diagnostics::{Diagnostic, Failure, ParserError};
use crate::interpreter::{boxed, unbox};
use crate::ir::ast::{
    ast_terms, copy_idents, spanned_term, term, Ast, Expression, InfixOp, ModuleExpression,
    ModuleTerm, PrefixOp, Term,
};
use crate::ir::token::{
    lemma_tokens_model, tok_names_held, tok_text, token_model, tokens_model, Ctrl, Kw, Tok, Token,
    Tokens,
};
use crate::ir::{Ident, Interner};
use crate::lexer::{lemma_byte_pos_order, lemma_encode_len, lemma_toks_bytes, lex, lexed, spans_in_order, tokens_fit, toks_bytes};
use vstd::utf8::encode_utf8;
use crate::span::{Ctx, Span, Spanned};
use crate::text::concat;

verus! {

// ---------------------------------------------------------------------------
// The grammar, over token sequences.
//
// Precedence levels, tightest first: 0 prefix operators, 1 `* / %`,
// 2 `+ -`, 3 `<< >>`, 4 `< > <= >=`, 5 `== !=`, 6 `&`, 7 `^`, 8 `|`,
// 9 `&&`, 10 `||`, 11 application, 12 `;`. Binary operators and
// application group to the left; prefix operators nest to the right.
// ---------------------------------------------------------------------------

/// The binary operator that a token stands for at a level.
pub open spec fn infix_op_at(level: nat, t: Tok) -> Option<InfixOp> {
    match t {
        Tok::Ctrl(c) => if level == 1 {
            if c == Ctrl::Star {
                Some(InfixOp::Mul)
            } else if c == Ctrl::Slash {
                Some(InfixOp::Div)
            } else if c == Ctrl::Percent {
                Some(InfixOp::Modulo)
            } else {
                None
            }
        } else if level == 2 {
            if c == Ctrl::Plus {
                Some(InfixOp::Add)
            } else if c == Ctrl::Minus {
                Some(InfixOp::Sub)
            } else {
                None
            }
        } else if level == 3 {
            if c == Ctrl::DoubleLt {
                Some(InfixOp::LeftBitshift)
            } else if c == Ctrl::DoubleGt {
                Some(InfixOp::RightBitshift)
            } else {
                None
            }
        } else if level == 4 {
            if c == Ctrl::LessThan {
                Some(InfixOp::LessThan)
            } else if c == Ctrl::GreaterThan {
                Some(InfixOp::GreaterThan)
            } else if c == Ctrl::LessThanEquals {
                Some(InfixOp::LessThanEquals)
            } else if c == Ctrl::GreaterThanEquals {
                Some(InfixOp::GreaterThanEquals)
            } else {
                None
            }
        } else if level == 5 {
            if c == Ctrl::DoubleEquals {
                Some(InfixOp::Equal)
            } else if c == Ctrl::NotEquals {
                Some(InfixOp::NotEqual)
            } else {
                None
            }
        } else if level == 6 {
            if c == Ctrl::Ampersand { Some(InfixOp::BitwiseAnd) } else { None }
        } else if level == 7 {
            if c == Ctrl::Caret { Some(InfixOp::BitwiseXor) } else { None }
        } else if level == 8 {
            if c == Ctrl::Pipe { Some(InfixOp::BitwiseOr) } else { None }
        } else if level == 9 {
            if c == Ctrl::DoubleAmpersand { Some(InfixOp::LogicalAnd) } else { None }
        } else if level == 10 {
            if c == Ctrl::DoublePipe { Some(InfixOp::LogicalOr) } else { None }
        } else {
            None
        },
        _ => None,
    }
}

/// The prefix operator that a token stands for.
pub open spec fn prefix_op_of(t: Tok) -> Option<PrefixOp> {
    match t {
        Tok::Ctrl(Ctrl::Plus) => Some(PrefixOp::Pos),
        Tok::Ctrl(Ctrl::Minus) => Some(PrefixOp::Neg),
        Tok::Ctrl(Ctrl::Bang) => Some(PrefixOp::LogicalNot),
        Tok::Ctrl(Ctrl::Tilde) => Some(PrefixOp::BitwiseNot),
        _ => None,
    }
}

/// The span from the token at `from` to the token before `to`.
pub open spec fn span_between(toks: Seq<(Tok, Span)>, from: nat, to: nat) -> Span {
    Span {
        context: toks[from as int].1.context,
        start: toks[from as int].1.start,
        end: toks[to - 1].1.end,
    }
}

/// The identifiers that follow each other from `pos`, with their spans.
pub open spec fn ident_run(toks: Seq<(Tok, Span)>, pos: nat) -> Seq<Spanned<Ident>>
    decreases toks.len() - pos,
{
    if pos < toks.len() {
        match toks[pos as int].0 {
            Tok::Ident(i) => seq![Spanned { inner: i, span: toks[pos as int].1 }] + ident_run(toks, pos + 1),
            _ => Seq::empty(),
        }
    } else {
        Seq::empty()
    }
}

pub open spec fn is_tok(toks: Seq<(Tok, Span)>, pos: nat, t: Tok) -> bool {
    pos < toks.len() && toks[pos as int].0 == t
}

/// Parses an expression of the given level at `pos`: the expression and
/// the position after it.
pub open spec fn parse_level(toks: Seq<(Tok, Span)>, pos: nat, level: nat) -> Option<(Spanned<Term>, nat)>
    decreases toks, toks.len() - pos, level, 2nat,
{
    if pos > toks.len() {
        None
    } else if level == 0 {
        if pos < toks.len() && prefix_op_of(toks[pos as int].0) is Some {
            match parse_level(toks, pos + 1, 0) {
                Some((e, p)) => {
                    let op = Spanned { inner: prefix_op_of(toks[pos as int].0)->0, span: toks[pos as int].1 };
                    Some((
                        Spanned { inner: Term::PrefixOp { expr: boxed(e), op }, span: op.span.spec_union(e.span) },
                        p,
                    ))
                },
                None => None,
            }
        } else {
            parse_atom(toks, pos)
        }
    } else if level <= 11 {
        match parse_level(toks, pos, (level - 1) as nat) {
            Some((l, p)) => if pos < p <= toks.len() {
                parse_tail(toks, l, p, level)
            } else {
                Some((l, p))
            },
            None => None,
        }
    } else {
        match parse_level(toks, pos, 11) {
            Some((l, p)) => if pos < p <= toks.len() {
                parse_semicolons(toks, l, p)
            } else {
                Some((l, p))
            },
            None => None,
        }
    }
}

/// Continues an expression of a binary level (1 to 10) or of application
/// (11) whose left part `lhs` ends at `pos`.
pub open spec fn parse_tail(toks: Seq<(Tok, Span)>, lhs: Spanned<Term>, pos: nat, level: nat) -> Option<(Spanned<Term>, nat)>
    decreases toks, toks.len() - pos, level, 0nat,
{
    if pos > toks.len() || level == 0 {
        Some((lhs, pos))
    } else if level == 11 {
        match parse_level(toks, pos, 10) {
            Some((a, p)) => if pos < p <= toks.len() {
                parse_tail(
                    toks,
                    Spanned { inner: Term::Call { callee: boxed(lhs), arg: boxed(a) }, span: lhs.span.spec_union(a.span) },
                    p,
                    11,
                )
            } else {
                Some((lhs, pos))
            },
            None => Some((lhs, pos)),
        }
    } else if level < 11 && pos < toks.len() && infix_op_at(level, toks[pos as int].0) is Some {
        match parse_level(toks, pos + 1, (level - 1) as nat) {
            Some((r, p)) => if pos + 1 < p <= toks.len() {
                let op = Spanned { inner: infix_op_at(level, toks[pos as int].0)->0, span: toks[pos as int].1 };
                parse_tail(
                    toks,
                    Spanned { inner: Term::InfixOp { lhs: boxed(lhs), rhs: boxed(r), op }, span: lhs.span.spec_union(r.span) },
                    p,
                    level,
                )
            } else {
                Some((lhs, pos))
            },
            None => Some((lhs, pos)),
        }
    } else {
        Some((lhs, pos))
    }
}

/// Continues an expression whose part before any `;` is `lhs`, ending at `pos`.
pub open spec fn parse_semicolons(toks: Seq<(Tok, Span)>, lhs: Spanned<Term>, pos: nat) -> Option<(Spanned<Term>, nat)>
    decreases toks, toks.len() - pos, 12nat, 0nat,
{
    if pos < toks.len() && toks[pos as int].0 == Tok::Ctrl(Ctrl::Semicolon) {
        match parse_level(toks, pos + 1, 11) {
            Some((r, p)) => if pos + 1 < p <= toks.len() {
                parse_semicolons(
                    toks,
                    Spanned { inner: Term::Semicolon(boxed(lhs), Some(boxed(r))), span: lhs.span.spec_union(r.span) },
                    p,
                )
            } else {
                Some((lhs, pos))
            },
            None => parse_semicolons(
                toks,
                Spanned { inner: Term::Semicolon(boxed(lhs), None), span: lhs.span.spec_union(toks[pos as int].1) },
                pos + 1,
            ),
        }
    } else {
        Some((lhs, pos))
    }
}

/// Parses an atom at `pos`: a parenthesized expression, a `let ... in ...`,
/// or a literal or identifier.
pub open spec fn parse_atom(toks: Seq<(Tok, Span)>, pos: nat) -> Option<(Spanned<Term>, nat)>
    decreases toks, toks.len() - pos, 0nat, 1nat,
{
    if pos >= toks.len() {
        None
    } else {
        let span = toks[pos as int].1;
        match toks[pos as int].0 {
            Tok::Parentheses(inner) => {
                proof {
                    assert(decreases_to!(toks => toks[pos as int]));
                    assert(decreases_to!(toks[pos as int] => toks[pos as int].0));
                }
                match parse_level(inner, 0, 12) {
                    Some((e, p)) => if p == inner.len() {
                        Some((Spanned { inner: e.inner, span }, pos + 1))
                    } else {
                        None
                    },
                    None => None,
                }
            },
            Tok::Kw(Kw::Let) => match parse_binding(toks, pos) {
                Some((name, params, expr, q)) => if pos < q && is_tok(toks, q, Tok::Kw(Kw::In)) {
                    match parse_level(toks, q + 1, 12) {
                        Some((b, p)) => if q + 1 < p <= toks.len() {
                            Some((
                                Spanned {
                                    inner: Term::Let {
                                        name,
                                        params,
                                        expr: boxed(expr),
                                        in_: boxed(Spanned { inner: b.inner, span: span_between(toks, q + 1, p) }),
                                    },
                                    span: span_between(toks, pos, p),
                                },
                                p,
                            ))
                        } else {
                            None
                        },
                        None => None,
                    }
                } else {
                    None
                },
                None => None,
            },
            Tok::Int(n) => Some((Spanned { inner: Term::Int(n), span }, pos + 1)),
            Tok::Bool(b) => Some((Spanned { inner: Term::Bool(b), span }, pos + 1)),
            Tok::Ident(i) => Some((Spanned { inner: Term::Ident(i), span }, pos + 1)),
            _ => None,
        }
    }
}

/// Parses `let name params = expr` from the `let` at `pos`: the name, the
/// parameters, the bound expression and the position after it.
pub open spec fn parse_binding(toks: Seq<(Tok, Span)>, pos: nat) -> Option<(Spanned<Ident>, Seq<Spanned<Ident>>, Spanned<Term>, nat)>
    decreases toks, toks.len() - pos, 0nat, 0nat,
{
    if pos + 1 < toks.len() {
        match toks[pos + 1int].0 {
            Tok::Ident(n) => {
                let name = Spanned { inner: n, span: toks[pos + 1int].1 };
                let params = ident_run(toks, pos + 2);
                let q = pos + 2 + params.len();
                if is_tok(toks, q, Tok::Ctrl(Ctrl::Equals)) {
                    match parse_level(toks, q + 1, 12) {
                        Some((e, p)) => if q + 1 < p <= toks.len() {
                            Some((name, params, Spanned { inner: e.inner, span: span_between(toks, q + 1, p) }, p))
                        } else {
                            None
                        },
                        None => None,
                    }
                } else {
                    None
                }
            },
            _ => None,
        }
    } else {
        None
    }
}


/// Parses a module expression at `pos`: an expression, or else a
/// definition `let name params = expr`.
pub open spec fn parse_module(toks: Seq<(Tok, Span)>, pos: nat) -> Option<(Spanned<ModuleTerm>, nat)> {
    if pos >= toks.len() {
        None
    } else {
        match parse_level(toks, pos, 12) {
            Some((e, p)) => if pos < p <= toks.len() {
                let sp = span_between(toks, pos, p);
                Some((Spanned { inner: ModuleTerm::Expression(Spanned { inner: e.inner, span: sp }), span: sp }, p))
            } else {
                None
            },
            None => if is_tok(toks, pos, Tok::Kw(Kw::Let)) {
                match parse_binding(toks, pos) {
                    Some((name, params, expr, q)) => if pos < q <= toks.len() {
                        Some((Spanned { inner: ModuleTerm::Let { name, params, expr }, span: span_between(toks, pos, q) }, q))
                    } else {
                        None
                    },
                    None => None,
                }
            } else {
                None
            },
        }
    }
}

/// Parses module expressions from `pos` until one cannot be parsed: the
/// module expressions and where parsing stopped.
pub open spec fn parse_items(toks: Seq<(Tok, Span)>, pos: nat) -> (Seq<Spanned<ModuleTerm>>, nat)
    decreases toks.len() - pos,
{
    if pos >= toks.len() {
        (Seq::empty(), pos)
    } else {
        match parse_module(toks, pos) {
            Some((m, p)) => if pos < p <= toks.len() {
                let rest = parse_items(toks, p);
                (seq![m] + rest.0, rest.1)
            } else {
                (Seq::empty(), pos)
            },
            None => (Seq::empty(), pos),
        }
    }
}

// ---------------------------------------------------------------------------
// How far parsing looks. Each `reach_*` function gives the furthest token
// position that the matching `parse_*` function looks at, whether or not it
// succeeds; `toks.len()` stands for the end of the input, and a bracket
// group counts as the one position it stands at.
// ---------------------------------------------------------------------------

pub open spec fn nat_max(a: nat, b: nat) -> nat {
    if a >= b { a } else { b }
}

pub open spec fn reach_level(toks: Seq<(Tok, Span)>, pos: nat, level: nat) -> nat
    decreases toks.len() - pos, level, 2nat,
{
    if pos > toks.len() {
        pos
    } else if level == 0 {
        if pos < toks.len() && prefix_op_of(toks[pos as int].0) is Some {
            nat_max(pos, reach_level(toks, pos + 1, 0))
        } else {
            reach_atom(toks, pos)
        }
    } else if level <= 11 {
        let r = reach_level(toks, pos, (level - 1) as nat);
        match parse_level(toks, pos, (level - 1) as nat) {
            Some((_, p)) => if pos < p <= toks.len() {
                nat_max(r, reach_tail(toks, p, level))
            } else {
                r
            },
            None => r,
        }
    } else {
        let r = reach_level(toks, pos, 11);
        match parse_level(toks, pos, 11) {
            Some((_, p)) => if pos < p <= toks.len() {
                nat_max(r, reach_semicolons(toks, p))
            } else {
                r
            },
            None => r,
        }
    }
}

pub open spec fn reach_tail(toks: Seq<(Tok, Span)>, pos: nat, level: nat) -> nat
    decreases toks.len() - pos, level, 0nat,
{
    if pos > toks.len() || level == 0 {
        pos
    } else if level == 11 {
        let r = reach_level(toks, pos, 10);
        match parse_level(toks, pos, 10) {
            Some((_, p)) => if pos < p <= toks.len() {
                nat_max(r, reach_tail(toks, p, 11))
            } else {
                r
            },
            None => r,
        }
    } else if level < 11 && pos < toks.len() && infix_op_at(level, toks[pos as int].0) is Some {
        let r = nat_max(pos, reach_level(toks, pos + 1, (level - 1) as nat));
        match parse_level(toks, pos + 1, (level - 1) as nat) {
            Some((_, p)) => if pos + 1 < p <= toks.len() {
                nat_max(r, reach_tail(toks, p, level))
            } else {
                r
            },
            None => r,
        }
    } else {
        pos
    }
}

pub open spec fn reach_semicolons(toks: Seq<(Tok, Span)>, pos: nat) -> nat
    decreases toks.len() - pos, 12nat, 0nat,
{
    if pos < toks.len() && toks[pos as int].0 == Tok::Ctrl(Ctrl::Semicolon) {
        let r = reach_level(toks, pos + 1, 11);
        match parse_level(toks, pos + 1, 11) {
            Some((_, p)) => if pos + 1 < p <= toks.len() {
                nat_max(r, reach_semicolons(toks, p))
            } else {
                r
            },
            None => nat_max(r, reach_semicolons(toks, pos + 1)),
        }
    } else {
        pos
    }
}

pub open spec fn reach_atom(toks: Seq<(Tok, Span)>, pos: nat) -> nat
    decreases toks.len() - pos, 0nat, 1nat,
{
    if pos >= toks.len() {
        pos
    } else {
        match toks[pos as int].0 {
            Tok::Kw(Kw::Let) => {
                let r = reach_binding(toks, pos);
                match parse_binding(toks, pos) {
                    Some((_, _, _, q)) => if pos < q && is_tok(toks, q, Tok::Kw(Kw::In)) {
                        nat_max(nat_max(r, q), reach_level(toks, q + 1, 12))
                    } else {
                        nat_max(r, q)
                    },
                    None => r,
                }
            },
            _ => pos,
        }
    }
}

pub open spec fn reach_binding(toks: Seq<(Tok, Span)>, pos: nat) -> nat
    decreases toks.len() - pos, 0nat, 0nat,
{
    if pos + 1 < toks.len() {
        match toks[pos + 1int].0 {
            Tok::Ident(_) => {
                let q = pos + 2 + ident_run(toks, pos + 2).len();
                if is_tok(toks, q, Tok::Ctrl(Ctrl::Equals)) {
                    nat_max(q, reach_level(toks, q + 1, 12))
                } else {
                    q
                }
            },
            _ => pos + 1,
        }
    } else {
        pos + 1
    }
}

pub open spec fn reach_module(toks: Seq<(Tok, Span)>, pos: nat) -> nat {
    let r = reach_level(toks, pos, 12);
    if parse_level(toks, pos, 12) is None && is_tok(toks, pos, Tok::Kw(Kw::Let)) {
        nat_max(r, reach_binding(toks, pos))
    } else {
        r
    }
}

pub open spec fn reach_items(toks: Seq<(Tok, Span)>, pos: nat) -> nat
    decreases toks.len() - pos,
{
    if pos >= toks.len() {
        pos
    } else {
        let r = reach_module(toks, pos);
        match parse_module(toks, pos) {
            Some((_, p)) => if pos < p <= toks.len() {
                nat_max(r, reach_items(toks, p))
            } else {
                r
            },
            None => r,
        }
    }
}

/// The empty span at the end of the last token: where the end of the input
/// is reported.
pub open spec fn end_of_input(toks: Seq<(Tok, Span)>) -> Span {
    Span { context: toks.last().1.context, start: toks.last().1.end, end: toks.last().1.end }
}

/// The error of a parse that stopped at `stop` after looking as far as
/// `far`: at the end of the input when parsing ran into it; at the token
/// where parsing stopped, as left over, when nothing looked further; else at
/// the furthest token looked at.
pub open spec fn parse_failure(toks: Seq<(Tok, Span)>, stop: nat, far: nat, names: Seq<Seq<char>>) -> Failure {
    if far >= toks.len() {
        Failure::Parse { reason: "found end of input expected something else"@, span: end_of_input(toks) }
    } else if far <= stop {
        Failure::Parse {
            reason: "found '"@ + tok_text(toks[stop as int].0, names) + "' expected end of input"@,
            span: toks[stop as int].1,
        }
    } else {
        Failure::Parse {
            reason: "found '"@ + tok_text(toks[far as int].0, names) + "' expected something else"@,
            span: toks[far as int].1,
        }
    }
}

/// The result of parsing a whole token list: the program, or `None` with
/// the error at the furthest place that parsing reached.
pub open spec fn parse(toks: Seq<(Tok, Span)>, names: Seq<Seq<char>>) -> (Option<Seq<Spanned<ModuleTerm>>>, Seq<Failure>) {
    let r = parse_items(toks, 0);
    if r.1 >= toks.len() {
        (Some(r.0), Seq::empty())
    } else {
        (None, seq![parse_failure(toks, r.1, reach_items(toks, 0), names)])
    }
}

// ---------------------------------------------------------------------------
// Laws of the grammar.
// ---------------------------------------------------------------------------

/// The binary level of a token: 1 to 10 for a binary operator, else 0.
pub open spec fn op_level(t: Tok) -> nat {
    if infix_op_at(1, t) is Some {
        1
    } else if infix_op_at(2, t) is Some {
        2
    } else if infix_op_at(3, t) is Some {
        3
    } else if infix_op_at(4, t) is Some {
        4
    } else if infix_op_at(5, t) is Some {
        5
    } else if infix_op_at(6, t) is Some {
        6
    } else if infix_op_at(7, t) is Some {
        7
    } else if infix_op_at(8, t) is Some {
        8
    } else if infix_op_at(9, t) is Some {
        9
    } else if infix_op_at(10, t) is Some {
        10
    } else {
        0
    }
}

/// A token that is an expression on its own: a number, a boolean or a name.
pub open spec fn is_atom_tok(t: Tok) -> bool {
    t is Int || t is Bool || t is Ident
}

/// The expression of an atom token.
pub open spec fn atom_term(t: (Tok, Span)) -> Spanned<Term> {
    Spanned {
        inner: match t.0 {
            Tok::Int(n) => Term::Int(n),
            Tok::Bool(b) => Term::Bool(b),
            Tok::Ident(i) => Term::Ident(i),
            _ => Term::Unit,
        },
        span: t.1,
    }
}

/// The binary node of operator token `o` over `lhs` and `rhs`, spanning both.
pub open spec fn binary(lhs: Spanned<Term>, o: (Tok, Span), rhs: Spanned<Term>) -> Spanned<Term> {
    Spanned {
        inner: Term::InfixOp {
            lhs: boxed(lhs),
            rhs: boxed(rhs),
            op: Spanned { inner: infix_op_at(op_level(o.0), o.0)->0, span: o.1 },
        },
        span: lhs.span.spec_union(rhs.span),
    }
}

proof fn lemma_op_level(t: Tok, l: nat)
    ensures
        (infix_op_at(l, t) is Some) == (1 <= l <= 10 && op_level(t) == l),
        op_level(t) <= 10,
{
}

/// Nothing parses at the end of the input.
proof fn lemma_nothing_at_end(toks: Seq<(Tok, Span)>, l: nat)
    requires
        l <= 12,
    ensures
        parse_level(toks, toks.len(), l) is None,
    decreases l,
{
    if l == 0 {
        assert(parse_atom(toks, toks.len()) is None);
    } else if l <= 11 {
        lemma_nothing_at_end(toks, (l - 1) as nat);
    } else {
        lemma_nothing_at_end(toks, 11);
    }
}

/// An expression that ends where no binary operator of the levels from
/// `l0` up to `l1` follows is also the expression of level `l1` there.
proof fn lemma_lift(toks: Seq<(Tok, Span)>, pos: nat, l0: nat, l1: nat, e: Spanned<Term>, p: nat)
    requires
        l0 <= l1 <= 10,
        pos < p <= toks.len(),
        parse_level(toks, pos, l0) == Some((e, p)),
        p < toks.len() ==> !(l0 < op_level(toks[p as int].0) <= l1),
    ensures
        parse_level(toks, pos, l1) == Some((e, p)),
    decreases l1,
{
    if l1 > l0 {
        lemma_lift(toks, pos, l0, (l1 - 1) as nat, e, p);
        if p < toks.len() {
            lemma_op_level(toks[p as int].0, l1);
        }
        assert(parse_tail(toks, e, p, l1) == Some((e, p)));
    }
}

/// An expression of level 10 that reaches the end of the input is the
/// whole expression.
proof fn lemma_top(toks: Seq<(Tok, Span)>, pos: nat, e: Spanned<Term>)
    requires
        pos < toks.len(),
        parse_level(toks, pos, 10) == Some((e, toks.len())),
    ensures
        parse_level(toks, pos, 12) == Some((e, toks.len())),
{
    lemma_nothing_at_end(toks, 10);
    assert(parse_tail(toks, e, toks.len(), 11) == Some((e, toks.len())));
    assert(parse_level(toks, pos, 11) == Some((e, toks.len())));
    assert(parse_semicolons(toks, e, toks.len()) == Some((e, toks.len())));
}

/// An atom is the expression of level 0 at its position.
proof fn lemma_atom(toks: Seq<(Tok, Span)>, pos: nat)
    requires
        pos < toks.len(),
        is_atom_tok(toks[pos as int].0),
    ensures
        parse_level(toks, pos, 0) == Some((atom_term(toks[pos as int]), pos + 1)),
{
    assert(prefix_op_of(toks[pos as int].0) is None);
    assert(parse_atom(toks, pos) == Some((atom_term(toks[pos as int]), pos + 1)));
}

/// `b o c` at the end of the input, with `o` of level `l`, is the binary
/// node at every level from `l` to 10.
proof fn lemma_one_operator(toks: Seq<(Tok, Span)>, pos: nat, l: nat)
    requires
        pos + 3 == toks.len(),
        is_atom_tok(toks[pos as int].0),
        is_atom_tok(toks[pos + 2int].0),
        1 <= op_level(toks[pos + 1int].0) <= l <= 10,
    ensures
        parse_level(toks, pos, l) == Some(
            (binary(atom_term(toks[pos as int]), toks[pos + 1int], atom_term(toks[pos + 2int])), pos + 3),
        ),
{
    let lo = op_level(toks[pos + 1int].0);
    lemma_atom(toks, pos);
    lemma_atom(toks, pos + 2);
    lemma_lift(toks, pos, 0, (lo - 1) as nat, atom_term(toks[pos as int]), pos + 1);
    lemma_lift(toks, pos + 2, 0, (lo - 1) as nat, atom_term(toks[pos + 2int]), pos + 3);
    lemma_op_level(toks[pos + 1int].0, lo);
    let node = binary(atom_term(toks[pos as int]), toks[pos + 1int], atom_term(toks[pos + 2int]));
    assert(parse_tail(toks, node, pos + 3, lo) == Some((node, pos + 3)));
    assert(parse_tail(toks, atom_term(toks[pos as int]), pos + 1, lo) == Some((node, pos + 3)));
    assert(parse_level(toks, pos, lo) == Some((node, pos + 3)));
    lemma_lift(toks, pos, lo, l, node, pos + 3);
}

/// Precedence: in `a o2 b o1 c`, where `o1` binds tighter than `o2`, the
/// tighter operator takes `b` and `c`.
pub proof fn law_tighter_operator_binds_first(toks: Seq<(Tok, Span)>)
    requires
        toks.len() == 5,
        is_atom_tok(toks[0].0),
        is_atom_tok(toks[2].0),
        is_atom_tok(toks[4].0),
        1 <= op_level(toks[3].0) < op_level(toks[1].0),
    ensures
        parse_level(toks, 0, 12) == Some(
            (binary(atom_term(toks[0]), toks[1], binary(atom_term(toks[2]), toks[3], atom_term(toks[4]))), 5nat),
        ),
{
    let l2 = op_level(toks[1].0);
    lemma_atom(toks, 0);
    lemma_lift(toks, 0, 0, (l2 - 1) as nat, atom_term(toks[0]), 1);
    lemma_one_operator(toks, 2, (l2 - 1) as nat);
    lemma_op_level(toks[1].0, l2);
    let inner = binary(atom_term(toks[2]), toks[3], atom_term(toks[4]));
    let node = binary(atom_term(toks[0]), toks[1], inner);
    assert(parse_tail(toks, node, 5, l2) == Some((node, 5nat)));
    assert(parse_tail(toks, atom_term(toks[0]), 1, l2) == Some((node, 5nat)));
    assert(parse_level(toks, 0, l2) == Some((node, 5nat)));
    lemma_lift(toks, 0, l2, 10, node, 5);
    lemma_top(toks, 0, node);
}

/// Grouping: in `a o1 b o2 c`, where `o1` binds at least as tight as `o2`
/// (in particular, two operators of one level), `o1` takes `a` and `b`:
/// operators of one level group to the left.
pub proof fn law_operators_group_to_the_left(toks: Seq<(Tok, Span)>)
    requires
        toks.len() == 5,
        is_atom_tok(toks[0].0),
        is_atom_tok(toks[2].0),
        is_atom_tok(toks[4].0),
        1 <= op_level(toks[1].0) <= op_level(toks[3].0),
    ensures
        parse_level(toks, 0, 12) == Some(
            (binary(binary(atom_term(toks[0]), toks[1], atom_term(toks[2])), toks[3], atom_term(toks[4])), 5nat),
        ),
{
    let l1 = op_level(toks[1].0);
    let l2 = op_level(toks[3].0);
    lemma_atom(toks, 0);
    lemma_atom(toks, 2);
    lemma_atom(toks, 4);
    lemma_op_level(toks[1].0, l1);
    lemma_op_level(toks[3].0, l2);
    lemma_op_level(toks[3].0, l1);
    lemma_lift(toks, 0, 0, (l1 - 1) as nat, atom_term(toks[0]), 1);
    lemma_lift(toks, 2, 0, (l1 - 1) as nat, atom_term(toks[2]), 3);
    lemma_lift(toks, 4, 0, (l2 - 1) as nat, atom_term(toks[4]), 5);
    let left = binary(atom_term(toks[0]), toks[1], atom_term(toks[2]));
    let node = binary(left, toks[3], atom_term(toks[4]));
    assert(parse_tail(toks, node, 5, l2) == Some((node, 5nat)));
    assert(parse_tail(toks, atom_term(toks[0]), 1, l1) == parse_tail(toks, left, 3, l1));
    if l1 == l2 {
        assert(parse_tail(toks, left, 3, l1) == Some((node, 5nat)));
        assert(parse_level(toks, 0, l1) == Some((node, 5nat)));
    } else {
        assert(parse_tail(toks, left, 3, l1) == Some((left, 3nat)));
        assert(parse_level(toks, 0, l1) == Some((left, 3nat)));
        lemma_lift(toks, 0, l1, (l2 - 1) as nat, left, 3);
        assert(parse_tail(toks, left, 3, l2) == Some((node, 5nat)));
        assert(parse_level(toks, 0, l2) == Some((node, 5nat)));
    }
    lemma_lift(toks, 0, l2, 10, node, 5);
    lemma_top(toks, 0, node);
}

/// A bracket group whose tokens parse as a whole expression parses as that
/// expression, with the group's span.
pub proof fn law_parenthesized_group(toks: Seq<(Tok, Span)>, e: Spanned<Term>)
    requires
        toks.len() == 1,
        toks[0].0 matches Tok::Parentheses(inner) && parse_level(inner, 0, 12) == Some((e, inner.len())),
    ensures
        parse_level(toks, 0, 12) == Some((Spanned { inner: e.inner, span: toks[0].1 }, 1nat)),
{
    let g = Spanned { inner: e.inner, span: toks[0].1 };
    assert(parse_atom(toks, 0) == Some((g, 1nat)));
    assert(parse_level(toks, 0, 0) == Some((g, 1nat)));
    lemma_lift(toks, 0, 0, 10, g, 1);
    lemma_top(toks, 0, g);
}

/// Whether `inner` lies within `outer`.
pub open spec fn span_within(inner: Span, outer: Span) -> bool {
    outer.start <= inner.start && inner.end <= outer.end
}

/// Whether the spans of `toks` are non-empty and in order, and the tokens of
/// each parenthesized group, at every depth, lie in order inside the group's
/// span.
pub open spec fn spans_nested(toks: Seq<(Tok, Span)>) -> bool
    decreases toks, 1nat,
{
    &&& forall|j: int| 0 <= j < toks.len() ==> (#[trigger] toks[j]).1.start < toks[j].1.end
    &&& forall|j: int, m: int| 0 <= j < m < toks.len() ==> (#[trigger] toks[j]).1.end <= (#[trigger] toks[m]).1.start
    &&& groups_nested(toks)
}

pub open spec fn groups_nested(toks: Seq<(Tok, Span)>) -> bool
    decreases toks, 0nat,
{
    if toks.len() == 0 {
        true
    } else {
        proof {
            assert(decreases_to!(toks => toks[0]));
            assert(decreases_to!(toks[0] => toks[0].0));
        }
        &&& match toks[0].0 {
            Tok::Parentheses(inner) => {
                &&& forall|j: int| 0 <= j < inner.len() ==> span_within((#[trigger] inner[j]).1, toks[0].1)
                &&& spans_nested(inner)
            },
            _ => true,
        }
        &&& groups_nested(toks.drop_first())
    }
}

/// Whether every part of `t`, at every depth, lies within the span of the
/// node it is part of, `span` being the span of `t`.
pub open spec fn covers(span: Span, t: Term) -> bool
    decreases t,
{
    match t {
        Term::Function { param: _, body } => span_within(body.span, span) && covers(body.span, *body.inner),
        Term::Let { name: _, params: _, expr, in_ } => {
            &&& span_within(expr.span, span) && covers(expr.span, *expr.inner)
            &&& span_within(in_.span, span) && covers(in_.span, *in_.inner)
        },
        Term::Call { callee, arg } => {
            &&& span_within(callee.span, span) && covers(callee.span, *callee.inner)
            &&& span_within(arg.span, span) && covers(arg.span, *arg.inner)
        },
        Term::Semicolon(lhs, rhs) => {
            &&& span_within(lhs.span, span) && covers(lhs.span, *lhs.inner)
            &&& match rhs {
                Some(r) => span_within(r.span, span) && covers(r.span, *r.inner),
                None => true,
            }
        },
        Term::PrefixOp { expr, op: _ } => span_within(expr.span, span) && covers(expr.span, *expr.inner),
        Term::InfixOp { lhs, rhs, op: _ } => {
            &&& span_within(lhs.span, span) && covers(lhs.span, *lhs.inner)
            &&& span_within(rhs.span, span) && covers(rhs.span, *rhs.inner)
        },
        Term::IfThenElse { condition, then_branch, else_branch } => {
            &&& span_within(condition.span, span) && covers(condition.span, *condition.inner)
            &&& span_within(then_branch.span, span) && covers(then_branch.span, *then_branch.inner)
            &&& match else_branch {
                Some(e) => span_within(e.span, span) && covers(e.span, *e.inner),
                None => true,
            }
        },
        _ => true,
    }
}

/// Whether `sp` lies within the tokens from `a` to the one before `b`.
pub open spec fn in_range(sp: Span, toks: Seq<(Tok, Span)>, a: nat, b: nat) -> bool {
    toks[a as int].1.start <= sp.start && sp.end <= toks[b - 1].1.end
}

proof fn lemma_widen(sp1: Span, sp2: Span, t: Term)
    requires
        covers(sp1, t),
        span_within(sp1, sp2),
    ensures
        covers(sp2, t),
{
}

proof fn lemma_order(toks: Seq<(Tok, Span)>, a: int, b: int)
    requires
        spans_nested(toks),
        0 <= a <= b < toks.len(),
    ensures
        toks[a].1.start <= toks[b].1.start,
        toks[a].1.end <= toks[b].1.end,
        toks[a].1.start < toks[a].1.end,
{
    assert(toks[b].1.start < toks[b].1.end);
    if a < b {
        assert(toks[a].1.end <= toks[b].1.start);
    }
}

proof fn lemma_group_at(toks: Seq<(Tok, Span)>, pos: int)
    requires
        groups_nested(toks),
        0 <= pos < toks.len(),
    ensures
        toks[pos].0 matches Tok::Parentheses(inner) ==> {
            &&& forall|j: int| 0 <= j < inner.len() ==> span_within((#[trigger] inner[j]).1, toks[pos].1)
            &&& spans_nested(inner)
        },
    decreases pos,
{
    if pos > 0 {
        lemma_group_at(toks.drop_first(), pos - 1);
        assert(toks.drop_first()[pos - 1] == toks[pos]);
    }
}

proof fn lemma_covers_level(toks: Seq<(Tok, Span)>, pos: nat, l: nat)
    requires
        spans_nested(toks),
        pos <= toks.len(),
        l <= 12,
    ensures
        parse_level(toks, pos, l) matches Some((e, p)) ==> {
            &&& pos < p <= toks.len()
            &&& covers(e.span, e.inner)
            &&& in_range(e.span, toks, pos, p)
        },
    decreases toks, toks.len() - pos, l, 2nat,
{
    if l == 0 {
        if pos < toks.len() && prefix_op_of(toks[pos as int].0) is Some {
            lemma_covers_level(toks, pos + 1, 0);
            if let Some((e, p)) = parse_level(toks, pos + 1, 0) {
                lemma_order(toks, pos as int, p - 1);
                lemma_order(toks, pos as int, pos + 1int);
            }
        } else {
            lemma_covers_atom(toks, pos);
        }
    } else if l <= 11 {
        lemma_covers_level(toks, pos, (l - 1) as nat);
        if let Some((lhs, p)) = parse_level(toks, pos, (l - 1) as nat) {
            lemma_covers_tail(toks, lhs, p, l, pos);
        }
    } else {
        lemma_covers_level(toks, pos, 11);
        if let Some((lhs, p)) = parse_level(toks, pos, 11) {
            lemma_covers_semicolons(toks, lhs, p, pos);
        }
    }
}

proof fn lemma_covers_tail(toks: Seq<(Tok, Span)>, lhs: Spanned<Term>, pos: nat, l: nat, start: nat)
    requires
        spans_nested(toks),
        start < pos <= toks.len(),
        1 <= l <= 11,
        covers(lhs.span, lhs.inner),
        in_range(lhs.span, toks, start, pos),
    ensures
        parse_tail(toks, lhs, pos, l) matches Some((e, p)) ==> {
            &&& pos <= p <= toks.len()
            &&& covers(e.span, e.inner)
            &&& in_range(e.span, toks, start, p)
        },
    decreases toks, toks.len() - pos, l, 0nat,
{
    if l == 11 {
        lemma_covers_level(toks, pos, 10);
        if let Some((a, p)) = parse_level(toks, pos, 10) {
            let node = Spanned { inner: Term::Call { callee: boxed(lhs), arg: boxed(a) }, span: lhs.span.spec_union(a.span) };
            lemma_order(toks, start as int, pos as int);
            lemma_order(toks, pos - 1, p - 1);
            lemma_covers_tail(toks, node, p, 11, start);
        }
    } else if pos < toks.len() && infix_op_at(l, toks[pos as int].0) is Some {
        lemma_covers_level(toks, pos + 1, (l - 1) as nat);
        if let Some((r, p)) = parse_level(toks, pos + 1, (l - 1) as nat) {
            if pos + 1 < p <= toks.len() {
                let op = Spanned { inner: infix_op_at(l, toks[pos as int].0)->0, span: toks[pos as int].1 };
                let node = Spanned { inner: Term::InfixOp { lhs: boxed(lhs), rhs: boxed(r), op }, span: lhs.span.spec_union(r.span) };
                lemma_order(toks, start as int, pos + 1int);
                lemma_order(toks, pos - 1, p - 1);
                lemma_covers_tail(toks, node, p, l, start);
            }
        }
    }
}

proof fn lemma_covers_semicolons(toks: Seq<(Tok, Span)>, lhs: Spanned<Term>, pos: nat, start: nat)
    requires
        spans_nested(toks),
        start < pos <= toks.len(),
        covers(lhs.span, lhs.inner),
        in_range(lhs.span, toks, start, pos),
    ensures
        parse_semicolons(toks, lhs, pos) matches Some((e, p)) ==> {
            &&& pos <= p <= toks.len()
            &&& covers(e.span, e.inner)
            &&& in_range(e.span, toks, start, p)
        },
    decreases toks, toks.len() - pos, 12nat, 0nat,
{
    if pos < toks.len() && toks[pos as int].0 == Tok::Ctrl(Ctrl::Semicolon) {
        lemma_covers_level(toks, pos + 1, 11);
        lemma_order(toks, start as int, pos as int);
        lemma_order(toks, pos - 1, pos as int);
        match parse_level(toks, pos + 1, 11) {
            Some((r, p)) => {
                if pos + 1 < p <= toks.len() {
                    let node = Spanned { inner: Term::Semicolon(boxed(lhs), Some(boxed(r))), span: lhs.span.spec_union(r.span) };
                    lemma_order(toks, pos - 1, p - 1);
                    lemma_covers_semicolons(toks, node, p, start);
                }
            },
            None => {
                let node = Spanned { inner: Term::Semicolon(boxed(lhs), None), span: lhs.span.spec_union(toks[pos as int].1) };
                lemma_covers_semicolons(toks, node, pos + 1, start);
            },
        }
    }
}

proof fn lemma_covers_atom(toks: Seq<(Tok, Span)>, pos: nat)
    requires
        spans_nested(toks),
        pos <= toks.len(),
    ensures
        parse_atom(toks, pos) matches Some((e, p)) ==> {
            &&& pos < p <= toks.len()
            &&& covers(e.span, e.inner)
            &&& in_range(e.span, toks, pos, p)
        },
    decreases toks, toks.len() - pos, 0nat, 1nat,
{
    if pos < toks.len() {
        match toks[pos as int].0 {
            Tok::Parentheses(inner) => {
                assert(decreases_to!(toks => toks[pos as int]));
                assert(decreases_to!(toks[pos as int] => toks[pos as int].0));
                lemma_group_at(toks, pos as int);
                lemma_covers_level(inner, 0, 12);
                if let Some((e, p)) = parse_level(inner, 0, 12) {
                    if p == inner.len() {
                        assert(span_within(inner[0].1, toks[pos as int].1));
                        assert(span_within(inner[p - 1].1, toks[pos as int].1));
                        lemma_widen(e.span, toks[pos as int].1, e.inner);
                    }
                }
            },
            Tok::Kw(Kw::Let) => {
                lemma_covers_binding(toks, pos);
                if let Some((name, params, expr, q)) = parse_binding(toks, pos) {
                    if pos < q && is_tok(toks, q, Tok::Kw(Kw::In)) {
                        lemma_covers_level(toks, q + 1, 12);
                        if let Some((b, p)) = parse_level(toks, q + 1, 12) {
                            if q + 1 < p <= toks.len() {
                                lemma_widen(b.span, span_between(toks, q + 1, p), b.inner);
                                lemma_order(toks, pos as int, q + 1int);
                                lemma_order(toks, q - 1, p - 1);
                                lemma_order(toks, pos as int, pos + 1int);
                            }
                        }
                    }
                }
            },
            _ => {},
        }
    }
}

proof fn lemma_covers_binding(toks: Seq<(Tok, Span)>, pos: nat)
    requires
        spans_nested(toks),
        pos < toks.len(),
    ensures
        parse_binding(toks, pos) matches Some((_, _, expr, p)) ==> {
            &&& pos + 2 < p <= toks.len()
            &&& covers(expr.span, expr.inner)
            &&& in_range(expr.span, toks, pos + 1, p)
        },
    decreases toks, toks.len() - pos, 0nat, 0nat,
{
    if pos + 1 < toks.len() {
        if let Tok::Ident(_) = toks[pos + 1int].0 {
            let q = pos + 2 + ident_run(toks, pos + 2).len();
            if is_tok(toks, q, Tok::Ctrl(Ctrl::Equals)) {
                lemma_covers_level(toks, q + 1, 12);
                if let Some((e, p)) = parse_level(toks, q + 1, 12) {
                    if q + 1 < p <= toks.len() {
                        lemma_widen(e.span, span_between(toks, q + 1, p), e.inner);
                        lemma_order(toks, pos + 1int, q + 1int);
                    }
                }
            }
        }
    }
}

proof fn lemma_fit_tokens_nest(toks: Seq<(Tok, Span)>, s: Seq<char>, names: Seq<Seq<char>>, ctx: Ctx, a: nat, b: nat)
    requires
        spans_in_order(toks, ctx, a, b),
        tokens_fit(toks, s, names),
    ensures
        spans_nested(toks),
    decreases toks,
{
    if toks.len() > 0 {
        let rest = toks.drop_first();
        assert forall|j: int| 0 <= j < rest.len() implies {
            &&& (#[trigger] rest[j]).1.context == ctx
            &&& a <= rest[j].1.start
            &&& rest[j].1.start < rest[j].1.end
            &&& rest[j].1.end <= b
        } by {
            assert(rest[j] == toks[j + 1]);
        }
        assert forall|j: int, m: int| 0 <= j < m < rest.len() implies (#[trigger] rest[j]).1.end <= (#[trigger] rest[m]).1.start by {
            assert(rest[j] == toks[j + 1]);
            assert(rest[m] == toks[m + 1]);
        }
        lemma_fit_tokens_nest(rest, s, names, ctx, a, b);
        if let Tok::Parentheses(inner) = toks[0].0 {
            assert(decreases_to!(toks => toks[0]));
            assert(decreases_to!(toks[0] => toks[0].0));
            let sp = toks[0].1;
            lemma_fit_tokens_nest(inner, s, names, sp.context, sp.start as nat, sp.end as nat);
        }
    }
}

proof fn lemma_bytes_nest(toks: Seq<(Tok, Span)>, s: Seq<char>, names: Seq<Seq<char>>, ctx: Ctx, a: nat, b: nat)
    requires
        spans_in_order(toks, ctx, a, b),
        tokens_fit(toks, s, names),
        b <= s.len(),
        encode_utf8(s).len() <= usize::MAX,
    ensures
        spans_nested(toks_bytes(s, toks)),
    decreases toks,
{
    let bt = toks_bytes(s, toks);
    lemma_toks_bytes(s, toks);
    assert forall|j: int| 0 <= j < bt.len() implies (#[trigger] bt[j]).1.start < bt[j].1.end by {
        assert(toks[j].1.start < toks[j].1.end <= s.len());
        lemma_byte_pos_order(s, toks[j].1.start as nat, toks[j].1.end as nat);
    }
    assert forall|j: int, m: int| 0 <= j < m < bt.len() implies (#[trigger] bt[j]).1.end <= (#[trigger] bt[m]).1.start by {
        assert(toks[j].1.end <= toks[m].1.start);
        lemma_byte_pos_order(s, toks[j].1.end as nat, toks[m].1.start as nat);
    }
    if toks.len() > 0 {
        let rest = toks.drop_first();
        assert forall|j: int| 0 <= j < rest.len() implies {
            &&& (#[trigger] rest[j]).1.context == ctx
            &&& a <= rest[j].1.start
            &&& rest[j].1.start < rest[j].1.end
            &&& rest[j].1.end <= b
        } by {
            assert(rest[j] == toks[j + 1]);
        }
        assert forall|j: int, m: int| 0 <= j < m < rest.len() implies (#[trigger] rest[j]).1.end <= (#[trigger] rest[m]).1.start by {
            assert(rest[j] == toks[j + 1]);
            assert(rest[m] == toks[m + 1]);
        }
        lemma_bytes_nest(rest, s, names, ctx, a, b);
        assert(bt.drop_first() =~= toks_bytes(s, rest));
        if let Tok::Parentheses(inner) = toks[0].0 {
            assert(decreases_to!(toks => toks[0]));
            assert(decreases_to!(toks[0] => toks[0].0));
            let sp = toks[0].1;
            lemma_bytes_nest(inner, s, names, sp.context, sp.start as nat, sp.end as nat);
            let bi = toks_bytes(s, inner);
            lemma_toks_bytes(s, inner);
            assert forall|j: int| 0 <= j < bi.len() implies span_within((#[trigger] bi[j]).1, bt[0].1) by {
                lemma_byte_pos_order(s, sp.start as nat, inner[j].1.start as nat);
                lemma_byte_pos_order(s, inner[j].1.end as nat, sp.end as nat);
            }
        }
    }
}

/// The tokens that the lexer gives nest as the parser's laws ask: their
/// spans are in order, and each group's tokens lie in order inside it. This
/// holds of the spans in characters (`lex`) and in bytes (`lexed`), which is
/// what the lexer hands out.
pub proof fn law_lexed_tokens_nest(s: Seq<char>, ctx: Ctx, names: Seq<Seq<char>>)
    requires
        encode_utf8(s).len() <= usize::MAX,
    ensures
        lex(s, ctx, names) matches Some((Some(toks), _, _)) ==> spans_nested(toks),
        lexed(s, ctx, names) matches Some((Some(toks), _, _)) ==> spans_nested(toks),
{
    assert(s.len() <= encode_utf8(s).len()) by {
        lemma_encode_len(s);
    }
    crate::lexer::law_token_spans_in_order(s, ctx, names);
    if let Some((Some(toks), _, fin)) = lex(s, ctx, names) {
        lemma_fit_tokens_nest(toks, s, fin, ctx, 0, s.len());
        lemma_bytes_nest(toks, s, fin, ctx, 0, s.len());
    }
}


/// Every node of a parsed expression spans its parts: at every depth, the
/// span of each part lies within the span of its node, and the whole lies
/// within the tokens it was parsed from. (The tokens' spans are in order and
/// each group's tokens lie inside it, as `law_lexed_tokens_nest` shows of
/// the lexer's tokens.)
pub proof fn law_node_spans_cover_their_parts(toks: Seq<(Tok, Span)>, pos: nat, l: nat)
    requires
        spans_nested(toks),
        pos <= toks.len(),
        l <= 12,
    ensures
        parse_level(toks, pos, l) matches Some((e, p)) ==> {
            &&& covers(e.span, e.inner)
            &&& in_range(e.span, toks, pos, p)
        },
{
    lemma_covers_level(toks, pos, l);
}

/// Whether a module expression's expression spans its parts and lies within
/// the module expression's span.
pub open spec fn module_covers(m: Spanned<ModuleTerm>) -> bool {
    match m.inner {
        ModuleTerm::Expression(e) => covers(e.span, e.inner) && span_within(e.span, m.span),
        ModuleTerm::Let { name: _, params: _, expr } => covers(expr.span, expr.inner) && span_within(expr.span, m.span),
    }
}

proof fn lemma_covers_module(toks: Seq<(Tok, Span)>, pos: nat)
    requires
        spans_nested(toks),
        pos < toks.len(),
    ensures
        parse_module(toks, pos) matches Some((m, p)) ==> module_covers(m),
{
    lemma_covers_level(toks, pos, 12);
    match parse_level(toks, pos, 12) {
        Some((e, p)) => {
            if pos < p <= toks.len() {
                lemma_widen(e.span, span_between(toks, pos, p), e.inner);
            }
        },
        None => {
            if is_tok(toks, pos, Tok::Kw(Kw::Let)) {
                lemma_covers_binding(toks, pos);
                if let Some((_, _, expr, q)) = parse_binding(toks, pos) {
                    lemma_order(toks, pos as int, pos + 1int);
                }
            }
        },
    }
}

proof fn lemma_covers_items(toks: Seq<(Tok, Span)>, pos: nat)
    requires
        spans_nested(toks),
    ensures
        forall|k: int| 0 <= k < parse_items(toks, pos).0.len() ==> module_covers(#[trigger] parse_items(toks, pos).0[k]),
    decreases toks.len() - pos,
{
    if pos < toks.len() {
        lemma_covers_module(toks, pos);
        if let Some((m, p)) = parse_module(toks, pos) {
            if pos < p <= toks.len() {
                lemma_covers_items(toks, p);
                let rest = parse_items(toks, p).0;
                assert forall|k: int| 0 <= k < (seq![m] + rest).len() implies module_covers(#[trigger] (seq![m] + rest)[k]) by {
                    if k > 0 {
                        assert((seq![m] + rest)[k] == rest[k - 1]);
                    }
                }
            }
        }
    }
}

/// In a parsed program every node spans its parts, at every depth, and each
/// module expression's expression lies within the module expression's span
/// (for tokens that nest, as the lexer's do: `law_lexed_tokens_nest`).
pub proof fn law_program_spans_cover_their_parts(toks: Seq<(Tok, Span)>, names: Seq<Seq<char>>)
    requires
        spans_nested(toks),
    ensures
        parse(toks, names).0 matches Some(items) ==> forall|k: int| 0 <= k < items.len() ==> module_covers(#[trigger] items[k]),
{
    lemma_covers_items(toks, 0);
}

/// A program that is one bracket group whose tokens parse as a whole
/// expression is that expression alone, with the group's span.
pub proof fn law_parenthesized_program(toks: Seq<(Tok, Span)>, e: Spanned<Term>, names: Seq<Seq<char>>)
    requires
        toks.len() == 1,
        toks[0].0 matches Tok::Parentheses(inner) && parse_level(inner, 0, 12) == Some((e, inner.len())),
    ensures
        parse(toks, names) == (
            Some(seq![Spanned {
                inner: ModuleTerm::Expression(Spanned { inner: e.inner, span: toks[0].1 }),
                span: toks[0].1,
            }]),
            Seq::<Failure>::empty(),
        ),
{
    law_parenthesized_group(toks, e);
    let g = Spanned { inner: e.inner, span: toks[0].1 };
    assert(span_between(toks, 0, 1) == toks[0].1);
    let m = Spanned { inner: ModuleTerm::Expression(g), span: toks[0].1 };
    assert(parse_module(toks, 0) == Some((m, 1nat)));
    assert(parse_items(toks, 1).0 =~= Seq::<Spanned<ModuleTerm>>::empty());
    assert(parse_items(toks, 0).0 =~= seq![m]);
}

/// Whether a control symbol is one of the binary operators.
pub open spec fn is_binary_symbol(c: Ctrl) -> bool {
    ||| c == Ctrl::Star
    ||| c == Ctrl::Slash
    ||| c == Ctrl::Percent
    ||| c == Ctrl::Plus
    ||| c == Ctrl::Minus
    ||| c == Ctrl::DoubleLt
    ||| c == Ctrl::DoubleGt
    ||| c == Ctrl::LessThan
    ||| c == Ctrl::GreaterThan
    ||| c == Ctrl::LessThanEquals
    ||| c == Ctrl::GreaterThanEquals
    ||| c == Ctrl::DoubleEquals
    ||| c == Ctrl::NotEquals
    ||| c == Ctrl::Ampersand
    ||| c == Ctrl::Caret
    ||| c == Ctrl::Pipe
    ||| c == Ctrl::DoubleAmpersand
    ||| c == Ctrl::DoublePipe
}

/// Each binary operator symbol parses to its own operator: `a c b`, for atoms
/// `a` and `b` and an operator symbol `c`, is the one binary node of `a` and
/// `b` whose operator is the one that `c` spells (`>` is `GreaterThan`, `!=`
/// is `NotEqual`, ...); the operator's source symbol is the text of `c`.
pub proof fn law_operator_symbols(toks: Seq<(Tok, Span)>, c: Ctrl)
    requires
        toks.len() == 3,
        is_atom_tok(toks[0].0),
        is_atom_tok(toks[2].0),
        toks[1].0 == Tok::Ctrl(c),
        is_binary_symbol(c),
    ensures
        parse_level(toks, 0, 12) matches Some((e, p)) && p == 3 && (e.inner matches Term::InfixOp { lhs, rhs, op } && {
            &&& *lhs.inner == atom_term(toks[0]).inner
            &&& *rhs.inner == atom_term(toks[2]).inner
            &&& op.span == toks[1].1
            &&& crate::diagnostics::infix_symbol(op.inner) == crate::ir::token::ctrl_text(c)
            &&& c == Ctrl::Star ==> op.inner == InfixOp::Mul
            &&& c == Ctrl::Slash ==> op.inner == InfixOp::Div
            &&& c == Ctrl::Percent ==> op.inner == InfixOp::Modulo
            &&& c == Ctrl::Plus ==> op.inner == InfixOp::Add
            &&& c == Ctrl::Minus ==> op.inner == InfixOp::Sub
            &&& c == Ctrl::DoubleLt ==> op.inner == InfixOp::LeftBitshift
            &&& c == Ctrl::DoubleGt ==> op.inner == InfixOp::RightBitshift
            &&& c == Ctrl::LessThan ==> op.inner == InfixOp::LessThan
            &&& c == Ctrl::GreaterThan ==> op.inner == InfixOp::GreaterThan
            &&& c == Ctrl::LessThanEquals ==> op.inner == InfixOp::LessThanEquals
            &&& c == Ctrl::GreaterThanEquals ==> op.inner == InfixOp::GreaterThanEquals
            &&& c == Ctrl::DoubleEquals ==> op.inner == InfixOp::Equal
            &&& c == Ctrl::NotEquals ==> op.inner == InfixOp::NotEqual
            &&& c == Ctrl::Ampersand ==> op.inner == InfixOp::BitwiseAnd
            &&& c == Ctrl::Caret ==> op.inner == InfixOp::BitwiseXor
            &&& c == Ctrl::Pipe ==> op.inner == InfixOp::BitwiseOr
            &&& c == Ctrl::DoubleAmpersand ==> op.inner == InfixOp::LogicalAnd
            &&& c == Ctrl::DoublePipe ==> op.inner == InfixOp::LogicalOr
        }),
{
    let l = op_level(toks[1].0);
    assert(1 <= l <= 10);
    lemma_one_operator(toks, 0, l);
    let node = binary(atom_term(toks[0]), toks[1], atom_term(toks[2]));
    lemma_lift(toks, 0, l, 10, node, 3);
    lemma_top(toks, 0, node);
}

/// Each prefix symbol parses to its own operator: `c a`, for an atom `a` and
/// one of the symbols `+ - ! ~`, is the one prefix node over `a` whose
/// operator is the one that `c` spells (`+` is `Pos`, `-` is `Neg`, `!` is
/// `LogicalNot`, `~` is `BitwiseNot`); the operator's source symbol is the
/// text of `c`.
pub proof fn law_prefix_symbols(toks: Seq<(Tok, Span)>, c: Ctrl)
    requires
        toks.len() == 2,
        toks[0].0 == Tok::Ctrl(c),
        is_atom_tok(toks[1].0),
        c == Ctrl::Plus || c == Ctrl::Minus || c == Ctrl::Bang || c == Ctrl::Tilde,
    ensures
        parse_level(toks, 0, 12) matches Some((e, p)) && p == 2 && (e.inner matches Term::PrefixOp { expr, op } && {
            &&& *expr.inner == atom_term(toks[1]).inner
            &&& op.span == toks[0].1
            &&& crate::diagnostics::prefix_symbol(op.inner) == crate::ir::token::ctrl_text(c)
            &&& c == Ctrl::Plus ==> op.inner == PrefixOp::Pos
            &&& c == Ctrl::Minus ==> op.inner == PrefixOp::Neg
            &&& c == Ctrl::Bang ==> op.inner == PrefixOp::LogicalNot
            &&& c == Ctrl::Tilde ==> op.inner == PrefixOp::BitwiseNot
        }),
{
    lemma_atom(toks, 1);
    let a = atom_term(toks[1]);
    let op = Spanned { inner: prefix_op_of(toks[0].0)->0, span: toks[0].1 };
    let node = Spanned { inner: Term::PrefixOp { expr: boxed(a), op }, span: op.span.spec_union(a.span) };
    assert(parse_level(toks, 0, 0) == Some((node, 2nat)));
    lemma_lift(toks, 0, 0, 10, node, 2);
    lemma_top(toks, 0, node);
}

// ---------------------------------------------------------------------------
// The parser.
// ---------------------------------------------------------------------------

pub open spec fn same_parse(r: Option<(Spanned<Expression>, usize)>, s: Option<(Spanned<Term>, nat)>) -> bool {
    match (r, s) {
        (Some((e, p)), Some((t, q))) => spanned_term(e) == t && p as nat == q,
        (None, None) => true,
        _ => false,
    }
}

fn infix_op_for(level: usize, t: &Token) -> (r: Option<InfixOp>)
    ensures
        r == infix_op_at(level as nat, token_model(*t)),
{
    match t {
        Token::Ctrl(c) => {
            let c = *c;
            if level == 1 {
                if c == Ctrl::Star {
                    Some(InfixOp::Mul)
                } else if c == Ctrl::Slash {
                    Some(InfixOp::Div)
                } else if c == Ctrl::Percent {
                    Some(InfixOp::Modulo)
                } else {
                    None
                }
            } else if level == 2 {
                if c == Ctrl::Plus {
                    Some(InfixOp::Add)
                } else if c == Ctrl::Minus {
                    Some(InfixOp::Sub)
                } else {
                    None
                }
            } else if level == 3 {
                if c == Ctrl::DoubleLt {
                    Some(InfixOp::LeftBitshift)
                } else if c == Ctrl::DoubleGt {
                    Some(InfixOp::RightBitshift)
                } else {
                    None
                }
            } else if level == 4 {
                if c == Ctrl::LessThan {
                    Some(InfixOp::LessThan)
                } else if c == Ctrl::GreaterThan {
                    Some(InfixOp::GreaterThan)
                } else if c == Ctrl::LessThanEquals {
                    Some(InfixOp::LessThanEquals)
                } else if c == Ctrl::GreaterThanEquals {
                    Some(InfixOp::GreaterThanEquals)
                } else {
                    None
                }
            } else if level == 5 {
                if c == Ctrl::DoubleEquals {
                    Some(InfixOp::Equal)
                } else if c == Ctrl::NotEquals {
                    Some(InfixOp::NotEqual)
                } else {
                    None
                }
            } else if level == 6 {
                if c == Ctrl::Ampersand { Some(InfixOp::BitwiseAnd) } else { None }
            } else if level == 7 {
                if c == Ctrl::Caret { Some(InfixOp::BitwiseXor) } else { None }
            } else if level == 8 {
                if c == Ctrl::Pipe { Some(InfixOp::BitwiseOr) } else { None }
            } else if level == 9 {
                if c == Ctrl::DoubleAmpersand { Some(InfixOp::LogicalAnd) } else { None }
            } else if level == 10 {
                if c == Ctrl::DoublePipe { Some(InfixOp::LogicalOr) } else { None }
            } else {
                None
            }
        },
        _ => None,
    }
}

fn prefix_op_for(t: &Token) -> (r: Option<PrefixOp>)
    ensures
        r == prefix_op_of(token_model(*t)),
{
    match t {
        Token::Ctrl(Ctrl::Plus) => Some(PrefixOp::Pos),
        Token::Ctrl(Ctrl::Minus) => Some(PrefixOp::Neg),
        Token::Ctrl(Ctrl::Bang) => Some(PrefixOp::LogicalNot),
        Token::Ctrl(Ctrl::Tilde) => Some(PrefixOp::BitwiseNot),
        _ => None,
    }
}

fn between(toks: &Vec<(Token, Span)>, from: usize, to: usize) -> (r: Span)
    requires
        from < to <= toks@.len(),
    ensures
        r == span_between(tokens_model(toks@), from as nat, to as nat),
{
    proof {
        lemma_tokens_model(toks@);
    }
    Span { context: toks[from].1.context, start: toks[from].1.start, end: toks[to - 1].1.end }
}

fn box_spanned(e: Spanned<Expression>) -> (r: Spanned<Box<Expression>>)
    ensures
        crate::ir::ast::boxed_term(r) == boxed(spanned_term(e)),
{
    Spanned { inner: Box::new(e.inner), span: e.span }
}

/// The identifiers that follow each other from `pos`.
fn idents_from(toks: &Vec<(Token, Span)>, pos: usize) -> (r: Vec<Spanned<Ident>>)
    requires
        pos <= toks@.len(),
    ensures
        r@ == ident_run(tokens_model(toks@), pos as nat),
        pos + r@.len() <= toks@.len(),
{
    let ghost m = tokens_model(toks@);
    proof {
        lemma_tokens_model(toks@);
    }
    let mut r: Vec<Spanned<Ident>> = Vec::new();
    let mut i = pos;
    while i < toks.len() && matches!(toks[i].0, Token::Ident(_))
        invariant
            pos <= i <= toks@.len(),
            m == tokens_model(toks@),
            m.len() == toks@.len(),
            forall|j: int| 0 <= j < toks@.len() ==> #[trigger] m[j] == (token_model(toks@[j].0), toks@[j].1),
            r@.len() == i - pos,
            ident_run(m, pos as nat) == r@ + ident_run(m, i as nat),
        decreases toks@.len() - i,
    {
        let ghost old_r = r@;
        match &toks[i].0 {
            Token::Ident(id) => {
                r.push(Spanned { inner: *id, span: toks[i].1 });
                assert(ident_run(m, i as nat) == seq![Spanned { inner: *id, span: toks@[i as int].1 }] + ident_run(m, (i + 1) as nat));
                assert(r@ + ident_run(m, (i + 1) as nat) =~= old_r + ident_run(m, i as nat));
            },
            _ => {},
        }
        i = i + 1;
    }
    proof {
        if i < toks@.len() {
            assert(ident_run(m, i as nat) =~= Seq::<Spanned<Ident>>::empty());
        }
    }
    assert(r@ =~= r@ + Seq::<Spanned<Ident>>::empty());
    r
}


/// Records that parsing looked at position `p`.
fn note(far: &mut usize, p: usize)
    ensures
        *final(far) as nat == nat_max(*old(far) as nat, p as nat),
{
    if p > *far {
        *far = p;
    }
}

/// Parses an expression of the given level at `pos`; `far` becomes the
/// furthest position looked at.
fn level_at(toks: &Vec<(Token, Span)>, pos: usize, level: usize, far: &mut usize) -> (r: Option<(Spanned<Expression>, usize)>)
    requires
        pos <= toks@.len(),
        level <= 12,
    ensures
        same_parse(r, parse_level(tokens_model(toks@), pos as nat, level as nat)),
        r matches Some((e, p)) ==> pos < p <= toks@.len(),
        *final(far) as nat == nat_max(*old(far) as nat, reach_level(tokens_model(toks@), pos as nat, level as nat)),
    decreases toks@, toks@.len() - pos, level, 2nat,
{
    let ghost m = tokens_model(toks@);
    proof {
        lemma_tokens_model(toks@);
    }
    if level == 0 {
        if pos < toks.len() {
            match prefix_op_for(&toks[pos].0) {
                Some(op) => {
                    let op = Spanned { inner: op, span: toks[pos].1 };
                    note(far, pos);
                    match level_at(toks, pos + 1, 0, far) {
                        Some((e, p)) => {
                            let span = op.span.union(&e.span);
                            return Some((Spanned { inner: Expression::PrefixOp { expr: box_spanned(e), op }, span }, p));
                        },
                        None => return None,
                    }
                },
                None => {},
            }
        }
        atom_at(toks, pos, far)
    } else if level <= 11 {
        match level_at(toks, pos, level - 1, far) {
            Some((l, p)) => tail_at(toks, l, p, level, far),
            None => None,
        }
    } else {
        match level_at(toks, pos, 11, far) {
            Some((l, p)) => semicolons_at(toks, l, p, far),
            None => None,
        }
    }
}

/// Continues an expression of a binary level or of application.
fn tail_at(toks: &Vec<(Token, Span)>, lhs: Spanned<Expression>, pos: usize, level: usize, far: &mut usize) -> (r: Option<(Spanned<Expression>, usize)>)
    requires
        0 < pos <= toks@.len(),
        1 <= level <= 11,
    ensures
        same_parse(r, parse_tail(tokens_model(toks@), spanned_term(lhs), pos as nat, level as nat)),
        r matches Some((e, p)) ==> pos <= p <= toks@.len(),
        *final(far) as nat == nat_max(*old(far) as nat, reach_tail(tokens_model(toks@), pos as nat, level as nat)),
    decreases toks@, toks@.len() - pos, level, 0nat,
{
    let ghost m = tokens_model(toks@);
    proof {
        lemma_tokens_model(toks@);
    }
    if level == 11 {
        match level_at(toks, pos, 10, far) {
            Some((a, p)) => {
                let span = lhs.span.union(&a.span);
                let call = Expression::Call { callee: box_spanned(lhs), arg: box_spanned(a) };
                tail_at(toks, Spanned { inner: call, span }, p, 11, far)
            },
            None => Some((lhs, pos)),
        }
    } else if pos < toks.len() {
        note(far, pos);
        match infix_op_for(level, &toks[pos].0) {
            Some(op) => {
                let op = Spanned { inner: op, span: toks[pos].1 };
                match level_at(toks, pos + 1, level - 1, far) {
                    Some((rhs, p)) => {
                        let span = lhs.span.union(&rhs.span);
                        let e = Expression::InfixOp { lhs: box_spanned(lhs), rhs: box_spanned(rhs), op };
                        tail_at(toks, Spanned { inner: e, span }, p, level, far)
                    },
                    None => Some((lhs, pos)),
                }
            },
            None => Some((lhs, pos)),
        }
    } else {
        note(far, pos);
        Some((lhs, pos))
    }
}

/// Continues an expression with `;` and what follows each.
fn semicolons_at(toks: &Vec<(Token, Span)>, lhs: Spanned<Expression>, pos: usize, far: &mut usize) -> (r: Option<(Spanned<Expression>, usize)>)
    requires
        0 < pos <= toks@.len(),
    ensures
        same_parse(r, parse_semicolons(tokens_model(toks@), spanned_term(lhs), pos as nat)),
        r matches Some((e, p)) ==> pos <= p <= toks@.len(),
        *final(far) as nat == nat_max(*old(far) as nat, reach_semicolons(tokens_model(toks@), pos as nat)),
    decreases toks@, toks@.len() - pos, 12nat, 0nat,
{
    let ghost m = tokens_model(toks@);
    proof {
        lemma_tokens_model(toks@);
    }
    if pos < toks.len() && matches!(toks[pos].0, Token::Ctrl(Ctrl::Semicolon)) {
        let op_span = toks[pos].1;
        match level_at(toks, pos + 1, 11, far) {
            Some((rhs, p)) => {
                let span = lhs.span.union(&rhs.span);
                let e = Expression::Semicolon(box_spanned(lhs), Some(box_spanned(rhs)));
                semicolons_at(toks, Spanned { inner: e, span }, p, far)
            },
            None => {
                let span = lhs.span.union(&op_span);
                let e = Expression::Semicolon(box_spanned(lhs), None);
                semicolons_at(toks, Spanned { inner: e, span }, pos + 1, far)
            },
        }
    } else {
        note(far, pos);
        Some((lhs, pos))
    }
}

/// Parses an atom at `pos`.
fn atom_at(toks: &Vec<(Token, Span)>, pos: usize, far: &mut usize) -> (r: Option<(Spanned<Expression>, usize)>)
    requires
        pos <= toks@.len(),
    ensures
        same_parse(r, parse_atom(tokens_model(toks@), pos as nat)),
        r matches Some((e, p)) ==> pos < p <= toks@.len(),
        *final(far) as nat == nat_max(*old(far) as nat, reach_atom(tokens_model(toks@), pos as nat)),
    decreases toks@, toks@.len() - pos, 0nat, 1nat,
{
    let ghost m = tokens_model(toks@);
    proof {
        lemma_tokens_model(toks@);
    }
    if pos >= toks.len() {
        note(far, pos);
        return None;
    }
    let span = toks[pos].1;
    if !matches!(toks[pos].0, Token::Kw(Kw::Let)) {
        note(far, pos);
    }
    match &toks[pos].0 {
        Token::Parentheses(ts) => {
            proof {
                assert(decreases_to!(toks@ => toks@[pos as int]));
                assert(decreases_to!(toks@[pos as int] => toks@[pos as int].0));
                assert(decreases_to!(toks@[pos as int].0 => *ts));
                assert(decreases_to!(*ts => ts.0));
                assert(decreases_to!(ts.0 => ts.0@));
            }
            let mut inner_far: usize = 0;
            match level_at(&ts.0, 0, 12, &mut inner_far) {
                Some((e, p)) => if p == ts.0.len() {
                    proof {
                        lemma_tokens_model(ts.0@);
                    }
                    Some((Spanned { inner: e.inner, span }, pos + 1))
                } else {
                    proof {
                        lemma_tokens_model(ts.0@);
                    }
                    None
                },
                None => None,
            }
        },
        Token::Kw(Kw::Let) => match binding_at(toks, pos, far) {
            Some((name, params, expr, q)) => {
                note(far, q);
                if q < toks.len() && matches!(toks[q].0, Token::Kw(Kw::In)) {
                    match level_at(toks, q + 1, 12, far) {
                        Some((b, p)) => {
                            let in_span = between(toks, q + 1, p);
                            let whole = between(toks, pos, p);
                            let e = Expression::Let {
                                name,
                                params,
                                expr: box_spanned(expr),
                                in_: Spanned { inner: Box::new(b.inner), span: in_span },
                            };
                            Some((Spanned { inner: e, span: whole }, p))
                        },
                        None => None,
                    }
                } else {
                    None
                }
            },
            None => None,
        },
        Token::Int(n) => Some((Spanned { inner: Expression::Int(n.duplicate()), span }, pos + 1)),
        Token::Bool(b) => Some((Spanned { inner: Expression::Bool(*b), span }, pos + 1)),
        Token::Ident(i) => Some((Spanned { inner: Expression::Ident(*i), span }, pos + 1)),
        _ => None,
    }
}

/// Parses `let name params = expr` from the `let` at `pos`.
fn binding_at(toks: &Vec<(Token, Span)>, pos: usize, far: &mut usize) -> (r: Option<(Spanned<Ident>, Vec<Spanned<Ident>>, Spanned<Expression>, usize)>)
    requires
        pos < toks@.len(),
    ensures
        *final(far) as nat == nat_max(*old(far) as nat, reach_binding(tokens_model(toks@), pos as nat)),
        match (r, parse_binding(tokens_model(toks@), pos as nat)) {
            (Some((n, ps, e, q)), Some((n2, ps2, e2, q2))) => n == n2 && ps@ == ps2 && spanned_term(e) == e2
                && q as nat == q2,
            (None, None) => true,
            _ => false,
        },
        r matches Some((n, ps, e, q)) ==> pos < q <= toks@.len(),
    decreases toks@, toks@.len() - pos, 0nat, 0nat,
{
    let ghost m = tokens_model(toks@);
    proof {
        lemma_tokens_model(toks@);
    }
    let n = toks.len();
    if pos + 1 < n {
        match &toks[pos + 1].0 {
            Token::Ident(id) => {
                let name = Spanned { inner: *id, span: toks[pos + 1].1 };
                let params = idents_from(toks, pos + 2);
                let q = pos + 2 + params.len();
                note(far, q);
                if q < n && matches!(toks[q].0, Token::Ctrl(Ctrl::Equals)) {
                    match level_at(toks, q + 1, 12, far) {
                        Some((e, p)) => {
                            let sp = between(toks, q + 1, p);
                            Some((name, params, Spanned { inner: e.inner, span: sp }, p))
                        },
                        None => None,
                    }
                } else {
                    None
                }
            },
            _ => {
                note(far, pos + 1);
                None
            },
        }
    } else {
        note(far, pos + 1);
        None
    }
}


pub open spec fn same_module(r: Option<(Spanned<ModuleExpression>, usize)>, s: Option<(Spanned<ModuleTerm>, nat)>) -> bool {
    match (r, s) {
        (Some((e, p)), Some((t, q))) => Spanned { inner: crate::ir::ast::module_term(e.inner), span: e.span } == t
            && p as nat == q,
        (None, None) => true,
        _ => false,
    }
}

/// Parses a module expression at `pos`.
fn module_at(toks: &Vec<(Token, Span)>, pos: usize, far: &mut usize) -> (r: Option<(Spanned<ModuleExpression>, usize)>)
    requires
        pos < toks@.len(),
    ensures
        same_module(r, parse_module(tokens_model(toks@), pos as nat)),
        r matches Some((e, p)) ==> pos < p <= toks@.len(),
        *final(far) as nat == nat_max(*old(far) as nat, reach_module(tokens_model(toks@), pos as nat)),
{
    proof {
        lemma_tokens_model(toks@);
    }
    match level_at(toks, pos, 12, far) {
        Some((e, p)) => {
            let sp = between(toks, pos, p);
            Some((Spanned { inner: ModuleExpression::Expression(Spanned { inner: e.inner, span: sp }), span: sp }, p))
        },
        None => {
            if matches!(toks[pos].0, Token::Kw(Kw::Let)) {
                match binding_at(toks, pos, far) {
                    Some((name, params, expr, q)) => {
                        let sp = between(toks, pos, q);
                        Some((Spanned { inner: ModuleExpression::Let { name, params, expr }, span: sp }, q))
                    },
                    None => None,
                }
            } else {
                None
            }
        },
    }
}

/// Parses a token list into a program. Gives the program, or `None` with an
/// error at the furthest place that parsing reached: the end of the input
/// (the empty span after the last token) when parsing ran into it.
pub fn parser(tokens: &Tokens, interner: &Interner) -> (r: (Option<Ast>, Vec<Diagnostic>))
    requires
        interner.wf(),
        forall|i: int| 0 <= i < tokens.0@.len() ==> tok_names_held(#[trigger] token_model(tokens.0@[i].0), *interner),
    ensures
        match (r.0, parse(tokens@, interner.names()).0) {
            (Some(a), Some(items)) => a@ == items,
            (None, None) => true,
            _ => false,
        },
        crate::lexer::errors_model(r.1@) == parse(tokens@, interner.names()).1,
{
    let toks = &tokens.0;
    let ghost m = tokens_model(toks@);
    proof {
        lemma_tokens_model(toks@);
    }
    let mut items: Vec<Spanned<ModuleExpression>> = Vec::new();
    let mut cur: usize = 0;
    let mut stopped = false;
    let mut far: usize = 0;
    assert(ast_terms(items@) + parse_items(m, 0).0 =~= parse_items(m, 0).0);
    while cur < toks.len() && !stopped
        invariant
            cur <= toks@.len(),
            stopped ==> parse_items(m, cur as nat).1 == cur,
            stopped ==> far as nat == reach_items(m, 0),
            !stopped ==> nat_max(far as nat, reach_items(m, cur as nat)) == reach_items(m, 0),
            m == tokens_model(toks@),
            m.len() == toks@.len(),
            parse_items(m, 0).0 == ast_terms(items@) + parse_items(m, cur as nat).0,
            parse_items(m, 0).1 == parse_items(m, cur as nat).1,
        decreases toks@.len() - cur + (if stopped { 0int } else { 1int }),
    {
        let ghost here = parse_items(m, cur as nat);
        match module_at(toks, cur, &mut far) {
            Some((item, p)) => {
                let ghost old_items = items@;
                let ghost t = Spanned { inner: crate::ir::ast::module_term(item.inner), span: item.span };
                items.push(item);
                assert(ast_terms(items@) =~= ast_terms(old_items).push(t));
                assert(here.0 == seq![t] + parse_items(m, p as nat).0);
                assert(ast_terms(items@) + parse_items(m, p as nat).0 =~= ast_terms(old_items) + here.0);
                cur = p;
            },
            None => {
                assert(here.0 =~= Seq::<Spanned<ModuleTerm>>::empty());
                assert(ast_terms(items@) + here.0 =~= ast_terms(items@));
                stopped = true;
            },
        }
    }
    let ghost fin = parse_items(m, cur as nat);
    assert(fin.1 == cur);
    if cur >= toks.len() {
        assert(fin.0 =~= Seq::<Spanned<ModuleTerm>>::empty());
        assert(ast_terms(items@) + fin.0 =~= ast_terms(items@));
        let errors: Vec<Diagnostic> = Vec::new();
        assert(crate::lexer::errors_model(errors@) =~= Seq::<Failure>::empty());
        (Some(Ast(items)), errors)
    } else {
        let d = if far >= toks.len() {
            let last = toks[toks.len() - 1].1;
            proof {
                reveal_strlit("found end of input expected something else");
            }
            let reason = String::from_str("found end of input expected something else");
            Diagnostic::ParserError(ParserError { reason, span: last.to_end() })
        } else if far <= cur {
            let shown = toks[cur].0.display(interner);
            let head = concat("found '", shown.as_str());
            let reason = concat(head.as_str(), "' expected end of input");
            Diagnostic::ParserError(ParserError { reason, span: toks[cur].1 })
        } else {
            let shown = toks[far].0.display(interner);
            let head = concat("found '", shown.as_str());
            let reason = concat(head.as_str(), "' expected something else");
            Diagnostic::ParserError(ParserError { reason, span: toks[far].1 })
        };
        let mut errors: Vec<Diagnostic> = Vec::new();
        errors.push(d);
        assert(crate::lexer::errors_model(errors@) =~= seq![d@]);
        (None, errors)
    }
}

} // verus!

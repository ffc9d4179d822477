use vstd::prelude::*;
use vstd::utf8::{encode_scalar, encode_utf8};
use crate::diagnostics::{Diagnostic, Failure, ParserError};
use crate::integer::{all_digits, decimal_value, digit_char, is_digit, nat_decimal, BigInteger};
use crate::ir::token::{ctrl_text, kw_text, lemma_tokens_model, tok_names_held, tok_text, token_model, tokens_model, Ctrl, Kw, Tok, Token, Tokens};
use crate::ir::{Ident, Interner};
use crate::span::{Ctx, Span};
use crate::text::{chars_of, concat, same_text, string_of};

verus! {

// ---------------------------------------------------------------------------
// The lexical grammar, over the characters of the source.
// ---------------------------------------------------------------------------

/// Unicode white space (the `White_Space` property).
pub open spec fn is_whitespace(c: char) -> bool {
    ||| ('\u{9}' <= c && c <= '\u{d}')
    ||| c == ' '
    ||| c == '\u{85}'
    ||| c == '\u{a0}'
    ||| c == '\u{1680}'
    ||| ('\u{2000}' <= c && c <= '\u{200a}')
    ||| c == '\u{2028}'
    ||| c == '\u{2029}'
    ||| c == '\u{202f}'
    ||| c == '\u{205f}'
    ||| c == '\u{3000}'
}

pub open spec fn is_ident_start(c: char) -> bool {
    ('a' <= c && c <= 'z') || ('A' <= c && c <= 'Z') || c == '_'
}

pub open spec fn is_ident_continue(c: char) -> bool {
    is_ident_start(c) || is_digit(c)
}

pub open spec fn is_opener(c: char) -> bool {
    c == '(' || c == '{' || c == '['
}

pub open spec fn is_closer(c: char) -> bool {
    c == ')' || c == '}' || c == ']'
}

/// The closing bracket of an opening one.
pub open spec fn closer_of(c: char) -> char {
    if c == '(' {
        ')'
    } else if c == '{' {
        '}'
    } else {
        ']'
    }
}

/// The first position at or after `i` that holds a newline, or the end.
pub open spec fn line_end(s: Seq<char>, i: nat) -> nat
    decreases s.len() - i,
{
    if i < s.len() && s[i as int] != '\n' {
        line_end(s, i + 1)
    } else {
        i
    }
}

/// The first position at or after `i` that does not continue an identifier.
pub open spec fn ident_end(s: Seq<char>, i: nat) -> nat
    decreases s.len() - i,
{
    if i < s.len() && is_ident_continue(s[i as int]) {
        ident_end(s, i + 1)
    } else {
        i
    }
}

/// The first position at or after `i` that does not hold a decimal digit.
pub open spec fn digits_end(s: Seq<char>, i: nat) -> nat
    decreases s.len() - i,
{
    if i < s.len() && is_digit(s[i as int]) {
        digits_end(s, i + 1)
    } else {
        i
    }
}

pub proof fn lemma_line_end(s: Seq<char>, i: nat)
    requires
        i <= s.len(),
    ensures
        i <= line_end(s, i) <= s.len(),
    decreases s.len() - i,
{
    if i < s.len() && s[i as int] != '\n' {
        lemma_line_end(s, i + 1);
    }
}

/// Whether a comment (`//` up to the end of the line) starts at `i`.
pub open spec fn comment_at(s: Seq<char>, i: nat) -> bool {
    i + 1 < s.len() && s[i as int] == '/' && s[i + 1int] == '/'
}

/// The first position at or after `i` that is neither white space nor
/// inside a comment.
pub open spec fn pad(s: Seq<char>, i: nat) -> nat
    decreases s.len() - i,
{
    if i >= s.len() {
        i
    } else if is_whitespace(s[i as int]) {
        pad(s, i + 1)
    } else if comment_at(s, i) {
        proof {
            lemma_line_end(s, i + 2);
        }
        pad(s, line_end(s, i + 2))
    } else {
        i
    }
}

pub proof fn lemma_pad(s: Seq<char>, i: nat)
    requires
        i <= s.len(),
    ensures
        i <= pad(s, i) <= s.len(),
        pad(s, i) < s.len() ==> !is_whitespace(s[pad(s, i) as int]) && !comment_at(s, pad(s, i)),
    decreases s.len() - i,
{
    if i < s.len() {
        if is_whitespace(s[i as int]) {
            lemma_pad(s, i + 1);
        } else if comment_at(s, i) {
            lemma_line_end(s, i + 2);
            lemma_pad(s, line_end(s, i + 2));
        }
    }
}

/// The control symbol of two characters, if they make one.
pub open spec fn ctrl2(a: char, b: char) -> Option<Ctrl> {
    if a == '<' && b == '<' {
        Some(Ctrl::DoubleLt)
    } else if a == '>' && b == '>' {
        Some(Ctrl::DoubleGt)
    } else if a == '-' && b == '>' {
        Some(Ctrl::Arrow)
    } else if a == '=' && b == '=' {
        Some(Ctrl::DoubleEquals)
    } else if a == '!' && b == '=' {
        Some(Ctrl::NotEquals)
    } else if a == '<' && b == '=' {
        Some(Ctrl::LessThanEquals)
    } else if a == '>' && b == '=' {
        Some(Ctrl::GreaterThanEquals)
    } else if a == ':' && b == ':' {
        Some(Ctrl::DoubleColon)
    } else if a == '&' && b == '&' {
        Some(Ctrl::DoubleAmpersand)
    } else if a == '|' && b == '|' {
        Some(Ctrl::DoublePipe)
    } else {
        None
    }
}

/// The control symbol of one character, if it is one.
pub open spec fn ctrl1(c: char) -> Option<Ctrl> {
    if c == ';' {
        Some(Ctrl::Semicolon)
    } else if c == '+' {
        Some(Ctrl::Plus)
    } else if c == '-' {
        Some(Ctrl::Minus)
    } else if c == '*' {
        Some(Ctrl::Star)
    } else if c == '/' {
        Some(Ctrl::Slash)
    } else if c == '%' {
        Some(Ctrl::Percent)
    } else if c == '.' {
        Some(Ctrl::Dot)
    } else if c == '~' {
        Some(Ctrl::Tilde)
    } else if c == '&' {
        Some(Ctrl::Ampersand)
    } else if c == '^' {
        Some(Ctrl::Caret)
    } else if c == '|' {
        Some(Ctrl::Pipe)
    } else if c == ',' {
        Some(Ctrl::Comma)
    } else if c == ':' {
        Some(Ctrl::Colon)
    } else if c == '<' {
        Some(Ctrl::LessThan)
    } else if c == '>' {
        Some(Ctrl::GreaterThan)
    } else if c == '=' {
        Some(Ctrl::Equals)
    } else if c == '!' {
        Some(Ctrl::Bang)
    } else {
        None
    }
}

/// The keyword or boolean that a word spells, if any.
pub open spec fn reserved_word(w: Seq<char>) -> Option<Tok> {
    if w == kw_text(Kw::Let) {
        Some(Tok::Kw(Kw::Let))
    } else if w == kw_text(Kw::In) {
        Some(Tok::Kw(Kw::In))
    } else if w == kw_text(Kw::If) {
        Some(Tok::Kw(Kw::If))
    } else if w == kw_text(Kw::Then) {
        Some(Tok::Kw(Kw::Then))
    } else if w == kw_text(Kw::Else) {
        Some(Tok::Kw(Kw::Else))
    } else if w == kw_text(Kw::Fn) {
        Some(Tok::Kw(Kw::Fn))
    } else if w == seq!['t', 'r', 'u', 'e'] {
        Some(Tok::Bool(true))
    } else if w == seq!['f', 'a', 'l', 's', 'e'] {
        Some(Tok::Bool(false))
    } else {
        None
    }
}

/// Interning `w` in the names `names`: the names afterwards and the
/// identifier of `w`; `None` when the names are too close to the key space
/// of the interner.
pub open spec fn intern(names: Seq<Seq<char>>, w: Seq<char>) -> Option<(Seq<Seq<char>>, Ident)> {
    if names.len() + 2 >= u32::MAX {
        None
    } else if names.contains(w) {
        Some((names, Ident((choose|i: nat| i < names.len() && names[i as int] == w) as usize)))
    } else {
        Some((names.push(w), Ident(names.len() as usize)))
    }
}

/// "found X expected Y", where X is the character at `p` or the end of input.
pub open spec fn found_expected(s: Seq<char>, p: nat, expected: Seq<char>) -> Seq<char> {
    let found = if p < s.len() { seq!['\''] + seq![s[p as int]] + seq!['\''] } else { "end of input"@ };
    "found "@ + found + " expected "@ + expected
}

/// The span of the character at `p` (empty at the end of input).
pub open spec fn char_span(s: Seq<char>, ctx: Ctx, p: nat) -> Span {
    Span { context: ctx, start: p as usize, end: (if p < s.len() { p + 1 } else { p }) as usize }
}

/// The group token of the bracket `open` around `inner`.
pub open spec fn group(open: char, inner: Seq<(Tok, Span)>) -> Tok {
    if open == '(' {
        Tok::Parentheses(inner)
    } else if open == '{' {
        Tok::CurlyBraces(inner)
    } else {
        Tok::SquareBrackets(inner)
    }
}

/// From `i`, skips characters and balanced bracket groups; stops at an
/// unbalanced closing bracket or at the end.
pub open spec fn skip_block(s: Seq<char>, i: nat) -> nat
    decreases s.len() - i, 1nat,
{
    if i >= s.len() {
        i
    } else if is_opener(s[i as int]) {
        match skip_group(s, i) {
            Some(e) => if i < e <= s.len() {
                skip_block(s, e)
            } else {
                i
            },
            None => i,
        }
    } else if is_closer(s[i as int]) {
        i
    } else {
        skip_block(s, i + 1)
    }
}

/// The end of the balanced bracket group that opens at `i`, if it closes.
pub open spec fn skip_group(s: Seq<char>, i: nat) -> Option<nat>
    decreases s.len() - i, 0nat,
{
    if i < s.len() {
        let j = skip_block(s, i + 1);
        if j < s.len() && s[j as int] == closer_of(s[i as int]) {
            Some(j + 1)
        } else {
            None
        }
    } else {
        None
    }
}

/// The result of reading one token at `k`: the token and where it ends
/// (`None` when no token starts there), the errors reported, the interned
/// names afterwards, and whether the interner ran out of keys.
pub struct TokenStep {
    pub tok: Option<(Tok, nat)>,
    pub errors: Seq<Failure>,
    pub names: Seq<Seq<char>>,
    pub exhausted: bool,
}

/// The result of reading tokens from a position: the tokens, where reading
/// stopped, the errors reported, the interned names afterwards, and whether
/// the interner ran out of keys.
pub struct SeqStep {
    pub toks: Seq<(Tok, Span)>,
    pub stop: nat,
    pub errors: Seq<Failure>,
    pub names: Seq<Seq<char>>,
    pub exhausted: bool,
}

/// Reads the token at `k`.
pub open spec fn lex_token(s: Seq<char>, ctx: Ctx, k: nat, names: Seq<Seq<char>>) -> TokenStep
    decreases s.len() - k, 0nat,
{
    let none = TokenStep { tok: None, errors: Seq::empty(), names, exhausted: false };
    if k >= s.len() {
        none
    } else {
        let c = s[k as int];
        if is_digit(c) {
            let e = if c == '0' { k + 1 } else { digits_end(s, k + 1) };
            TokenStep {
                tok: Some((Tok::Int(decimal_value(s.subrange(k as int, e as int)) as int), e)),
                errors: Seq::empty(),
                names,
                exhausted: false,
            }
        } else if is_ident_start(c) {
            let e = ident_end(s, k + 1);
            let w = s.subrange(k as int, e as int);
            match reserved_word(w) {
                Some(t) => TokenStep { tok: Some((t, e)), errors: Seq::empty(), names, exhausted: false },
                None => match intern(names, w) {
                    Some((n2, id)) => TokenStep {
                        tok: Some((Tok::Ident(id), e)),
                        errors: Seq::empty(),
                        names: n2,
                        exhausted: false,
                    },
                    None => TokenStep { tok: None, errors: Seq::empty(), names, exhausted: true },
                },
            }
        } else if k + 1 < s.len() && ctrl2(c, s[k + 1int]) is Some {
            TokenStep {
                tok: Some((Tok::Ctrl(ctrl2(c, s[k + 1int])->0), k + 2)),
                errors: Seq::empty(),
                names,
                exhausted: false,
            }
        } else if ctrl1(c) is Some {
            TokenStep { tok: Some((Tok::Ctrl(ctrl1(c)->0), k + 1)), errors: Seq::empty(), names, exhausted: false }
        } else if is_opener(c) {
            let inner = lex_seq(s, ctx, k + 1, names);
            if inner.exhausted {
                TokenStep { tok: None, errors: Seq::empty(), names: inner.names, exhausted: true }
            } else if inner.stop < s.len() && s[inner.stop as int] == closer_of(c) {
                TokenStep {
                    tok: Some((group(c, inner.toks), inner.stop + 1)),
                    errors: inner.errors,
                    names: inner.names,
                    exhausted: false,
                }
            } else {
                match skip_group(s, k) {
                    Some(e) => TokenStep {
                        tok: Some(
                            (group(c, seq![(Tok::Error, Span { context: ctx, start: k as usize, end: e as usize })]), e),
                        ),
                        errors: seq![
                            Failure::Parse {
                                reason: found_expected(s, pad(s, inner.stop), seq!['\'', closer_of(c), '\'']),
                                span: char_span(s, ctx, pad(s, inner.stop)),
                            },
                        ],
                        names: inner.names,
                        exhausted: false,
                    },
                    None => TokenStep { tok: None, errors: Seq::empty(), names: inner.names, exhausted: false },
                }
            }
        } else {
            none
        }
    }
}

/// Reads tokens from `i`, each with the white space and comments around
/// it, until no token can be read.
pub open spec fn lex_seq(s: Seq<char>, ctx: Ctx, i: nat, names: Seq<Seq<char>>) -> SeqStep
    decreases s.len() - i, 1nat,
{
    if i > s.len() {
        SeqStep { toks: Seq::empty(), stop: i, errors: Seq::empty(), names, exhausted: false }
    } else {
        let k = pad(s, i);
        proof {
            lemma_pad(s, i);
        }
        let t = lex_token(s, ctx, k, names);
        if t.exhausted {
            SeqStep { toks: Seq::empty(), stop: i, errors: Seq::empty(), names: t.names, exhausted: true }
        } else {
            match t.tok {
                Some((tok, e)) => if k < e <= s.len() {
                    proof {
                        lemma_pad(s, e);
                    }
                    let rest = lex_seq(s, ctx, pad(s, e), t.names);
                    SeqStep {
                        toks: seq![(tok, Span { context: ctx, start: k as usize, end: e as usize })] + rest.toks,
                        stop: rest.stop,
                        errors: t.errors + rest.errors,
                        names: rest.names,
                        exhausted: rest.exhausted,
                    }
                } else {
                    SeqStep { toks: Seq::empty(), stop: i, errors: Seq::empty(), names: t.names, exhausted: false }
                },
                None => SeqStep { toks: Seq::empty(), stop: i, errors: Seq::empty(), names: t.names, exhausted: false },
            }
        }
    }
}

/// The result of lexing a whole source: the tokens (`None` when some text
/// could not be read) and the errors, in order; `None` when the interner ran
/// out of keys.
pub open spec fn lex(s: Seq<char>, ctx: Ctx, names: Seq<Seq<char>>) -> Option<(Option<Seq<(Tok, Span)>>, Seq<Failure>, Seq<Seq<char>>)> {
    let r = lex_seq(s, ctx, 0, names);
    if r.exhausted {
        None
    } else if r.stop == s.len() {
        Some((Some(r.toks), r.errors, r.names))
    } else {
        let p = pad(s, r.stop);
        let expected = if p < s.len() { "end of input"@ } else { "a token"@ };
        Some((None, r.errors.push(Failure::Parse { reason: found_expected(s, p, expected), span: char_span(s, ctx, p) }), r.names))
    }
}


/// A source that is exactly one token, with nothing before it, reads as that
/// token alone.
proof fn lemma_lex_single(s: Seq<char>, ctx: Ctx, names: Seq<Seq<char>>, t: Tok)
    requires
        0 < s.len(),
        pad(s, 0) == 0,
        lex_token(s, ctx, 0, names) == (TokenStep {
            tok: Some((t, s.len())),
            errors: Seq::empty(),
            names,
            exhausted: false,
        }),
    ensures
        lex(s, ctx, names) == Some(
            (
                Some(seq![(t, Span { context: ctx, start: 0, end: s.len() as usize })]),
                Seq::<Failure>::empty(),
                names,
            ),
        ),
{
    assert(pad(s, s.len()) == s.len());
    let rest = lex_seq(s, ctx, s.len(), names);
    assert(lex_token(s, ctx, s.len(), names).tok is None);
    assert(rest.toks =~= Seq::<(Tok, Span)>::empty());
    assert(rest.stop == s.len());
    let all = lex_seq(s, ctx, 0, names);
    assert(all.toks =~= seq![(t, Span { context: ctx, start: 0, end: s.len() as usize })]);
    assert(all.errors =~= Seq::<Failure>::empty());
}

/// A source that is exactly one token, with nothing before it, reads as that
/// token alone, with the names that reading it leaves.
proof fn lemma_lex_single_names(s: Seq<char>, ctx: Ctx, names: Seq<Seq<char>>, t: Tok, after: Seq<Seq<char>>)
    requires
        0 < s.len(),
        pad(s, 0) == 0,
        lex_token(s, ctx, 0, names) == (TokenStep {
            tok: Some((t, s.len())),
            errors: Seq::empty(),
            names: after,
            exhausted: false,
        }),
    ensures
        lex(s, ctx, names) == Some(
            (
                Some(seq![(t, Span { context: ctx, start: 0, end: s.len() as usize })]),
                Seq::<Failure>::empty(),
                after,
            ),
        ),
{
    assert(pad(s, s.len()) == s.len());
    let rest = lex_seq(s, ctx, s.len(), after);
    assert(lex_token(s, ctx, s.len(), after).tok is None);
    assert(rest.toks =~= Seq::<(Tok, Span)>::empty());
    assert(rest.stop == s.len());
    let all = lex_seq(s, ctx, 0, names);
    assert(all.toks =~= seq![(t, Span { context: ctx, start: 0, end: s.len() as usize })]);
    assert(all.errors =~= Seq::<Failure>::empty());
}

/// Names are made of ASCII letters, upper and lower case, digits and `_`, and
/// start with a letter or `_`: a word so spelled that is no keyword or
/// boolean reads as one identifier token whose name is the word, with no
/// error. (With the interner one name short of its key space, the lexer stops
/// at any name.)
pub proof fn law_names_lex_as_identifiers(w: Seq<char>, ctx: Ctx, names: Seq<Seq<char>>)
    requires
        w.len() > 0,
        ('a' <= w[0] && w[0] <= 'z') || ('A' <= w[0] && w[0] <= 'Z') || w[0] == '_',
        forall|i: int|
            1 <= i < w.len() ==> ('a' <= #[trigger] w[i] && w[i] <= 'z') || ('A' <= w[i] && w[i] <= 'Z') || ('0' <= w[i]
                && w[i] <= '9') || w[i] == '_',
        reserved_word(w) is None,
        names.len() + 2 < u32::MAX,
    ensures
        lex(w, ctx, names) matches Some((Some(toks), errs, after)) && {
            &&& errs.len() == 0
            &&& toks.len() == 1
            &&& toks[0].1 == Span { context: ctx, start: 0, end: w.len() as usize }
            &&& toks[0].0 matches Tok::Ident(id) && id.0 < after.len() && after[id.0 as int] == w
            &&& names.is_prefix_of(after)
        },
{
    assert(pad(w, 0) == 0);
    assert forall|k: int| 1 <= k < w.len() implies is_ident_continue(#[trigger] w[k]) by {}
    lemma_ident_end_full(w, 1);
    assert(w.subrange(0, w.len() as int) =~= w);
    let (after, id) = intern(names, w)->0;
    if names.contains(w) {
        let k = choose|i: nat| i < names.len() && names[i as int] == w;
        assert(after[k as int] == w);
        assert(names.is_prefix_of(after));
    } else {
        assert(after[names.len() as int] == w);
        assert(names.is_prefix_of(after));
    }
    assert(lex_token(w, ctx, 0, names) == (TokenStep {
        tok: Some((Tok::Ident(id), w.len())),
        errors: Seq::empty(),
        names: after,
        exhausted: false,
    }));
    lemma_lex_single_names(w, ctx, names, Tok::Ident(id), after);
}

/// The text that shows a control symbol reads back as that symbol alone.
pub proof fn law_ctrl_text_lexes(c: Ctrl, ctx: Ctx, names: Seq<Seq<char>>)
    ensures
        lex(ctrl_text(c), ctx, names) == Some(
            (
                Some(seq![(Tok::Ctrl(c), Span { context: ctx, start: 0, end: ctrl_text(c).len() as usize })]),
                Seq::<Failure>::empty(),
                names,
            ),
        ),
{
    let s = ctrl_text(c);
    assert(pad(s, 0) == 0);
    assert(lex_token(s, ctx, 0, names) == (TokenStep {
        tok: Some((Tok::Ctrl(c), s.len())),
        errors: Seq::empty(),
        names,
        exhausted: false,
    }));
    lemma_lex_single(s, ctx, names, Tok::Ctrl(c));
}

/// The text of a keyword reads back as that keyword alone.
pub proof fn law_keyword_text_lexes(k: Kw, ctx: Ctx, names: Seq<Seq<char>>)
    ensures
        lex(kw_text(k), ctx, names) == Some(
            (
                Some(seq![(Tok::Kw(k), Span { context: ctx, start: 0, end: kw_text(k).len() as usize })]),
                Seq::<Failure>::empty(),
                names,
            ),
        ),
{
    let s = kw_text(k);
    assert(pad(s, 0) == 0);
    assert(ident_end(s, s.len()) == s.len());
    assert(ident_end(s, 1) == s.len()) by {
        reveal_with_fuel(ident_end, 4);
    }
    assert(s.subrange(0, s.len() as int) =~= s);
    assert(lex_token(s, ctx, 0, names) == (TokenStep {
        tok: Some((Tok::Kw(k), s.len())),
        errors: Seq::empty(),
        names,
        exhausted: false,
    }));
    lemma_lex_single(s, ctx, names, Tok::Kw(k));
}

/// Whether `w` is spelled like an identifier: a letter or `_`, then letters,
/// digits and `_`.
pub open spec fn ident_shaped(w: Seq<char>) -> bool {
    &&& w.len() > 0
    &&& is_ident_start(w[0])
    &&& forall|j: int| 1 <= j < w.len() ==> is_ident_continue(#[trigger] w[j])
}

proof fn lemma_ident_end_full(s: Seq<char>, j: nat)
    requires
        j <= s.len(),
        forall|k: int| j <= k < s.len() ==> is_ident_continue(#[trigger] s[k]),
    ensures
        ident_end(s, j) == s.len(),
    decreases s.len() - j,
{
    if j < s.len() {
        lemma_ident_end_full(s, j + 1);
    }
}

/// The name of an identifier that the interner holds reads back as that
/// identifier alone, when it is spelled like one and is no keyword or
/// boolean; the interner is left as it was. (With the interner one name short
/// of its key space, the lexer stops at any name.)
pub proof fn law_ident_text_lexes(interner: Interner, id: Ident, ctx: Ctx)
    requires
        interner.wf(),
        interner.names().len() + 2 < u32::MAX,
        interner.holds(id),
        ident_shaped(interner.name_of(id)),
        reserved_word(interner.name_of(id)) is None,
    ensures
        lex(interner.name_of(id), ctx, interner.names()) == Some(
            (
                Some(seq![(Tok::Ident(id), Span { context: ctx, start: 0, end: interner.name_of(id).len() as usize })]),
                Seq::<Failure>::empty(),
                interner.names(),
            ),
        ),
{
    let names = interner.names();
    let s = interner.name_of(id);
    assert(pad(s, 0) == 0);
    lemma_ident_end_full(s, 1);
    assert(s.subrange(0, s.len() as int) =~= s);
    assert(names[id.0 as int] == s);
    assert(names.contains(s));
    let w = id.0 as nat;
    assert(w < names.len() && names[w as int] == s);
    assert(exists|i: nat| i < names.len() && names[i as int] == s);
    let k = choose|i: nat| i < names.len() && names[i as int] == s;
    assert(k < names.len() && names[k as int] == s);
    if k < id.0 {
        assert(names[k as int] != names[id.0 as int]);
    } else if id.0 < k {
        assert(names[id.0 as int] != names[k as int]);
    }
    assert(intern(names, s) == Some((names, id)));
    assert(lex_token(s, ctx, 0, names) == (TokenStep {
        tok: Some((Tok::Ident(id), s.len())),
        errors: Seq::empty(),
        names,
        exhausted: false,
    }));
    lemma_lex_single(s, ctx, names, Tok::Ident(id));
}

proof fn lemma_digits_end_full(s: Seq<char>, j: nat)
    requires
        j <= s.len(),
        forall|k: int| j <= k < s.len() ==> is_digit(#[trigger] s[k]),
    ensures
        digits_end(s, j) == s.len(),
    decreases s.len() - j,
{
    if j < s.len() {
        lemma_digits_end_full(s, j + 1);
    }
}

/// The decimal digits of `n` are digits, the first of them is `0` only for
/// zero, and their value is `n`.
proof fn lemma_nat_decimal(n: nat)
    ensures
        nat_decimal(n).len() >= 1,
        all_digits(nat_decimal(n)),
        decimal_value(nat_decimal(n)) == n,
        (nat_decimal(n)[0] == '0') == (n == 0),
    decreases n,
{
    let d = nat_decimal(n);
    if n < 10 {
        assert(d == seq![digit_char(n)]);
        assert(d.drop_last() =~= Seq::<char>::empty());
        assert((digit_char(n) as nat) == 48 + n);
        assert(decimal_value(d) == 10 * decimal_value(d.drop_last()) + (d.last() as nat - 48) as nat);
        assert(decimal_value(d.drop_last()) == 0);
    } else {
        lemma_nat_decimal(n / 10);
        let p = nat_decimal(n / 10);
        assert(d == p.push(digit_char(n % 10)));
        assert(d.drop_last() =~= p);
        assert((digit_char(n % 10) as nat) == 48 + n % 10);
        assert(d[0] == p[0]);
        assert(decimal_value(d) == 10 * decimal_value(p) + (n % 10));
        assert(10 * (n / 10) + n % 10 == n) by (nonlinear_arith);
    }
}

/// The decimal text of a natural number reads back as that number alone.
/// (A negative number shows with a `-`, which reads as an operator of its
/// own.)
pub proof fn law_number_text_lexes(n: nat, ctx: Ctx, names: Seq<Seq<char>>)
    ensures
        lex(nat_decimal(n), ctx, names) == Some(
            (
                Some(seq![(Tok::Int(n as int), Span { context: ctx, start: 0, end: nat_decimal(n).len() as usize })]),
                Seq::<Failure>::empty(),
                names,
            ),
        ),
{
    let s = nat_decimal(n);
    lemma_nat_decimal(n);
    assert(is_digit(s[0]));
    assert(pad(s, 0) == 0);
    if s[0] == '0' {
        assert(n == 0);
        assert(s == seq!['0']);
    } else {
        lemma_digits_end_full(s, 1);
    }
    assert(s.subrange(0, s.len() as int) =~= s);
    assert(lex_token(s, ctx, 0, names) == (TokenStep {
        tok: Some((Tok::Int(n as int), s.len())),
        errors: Seq::empty(),
        names,
        exhausted: false,
    }));
    lemma_lex_single(s, ctx, names, Tok::Int(n as int));
}

/// The text that shows a boolean reads back as that boolean alone.
pub proof fn law_bool_text_lexes(b: bool, ctx: Ctx, names: Seq<Seq<char>>)
    ensures
        lex(crate::interpreter::value::bool_text(b), ctx, names) == Some(
            (
                Some(seq![(Tok::Bool(b), Span { context: ctx, start: 0, end: crate::interpreter::value::bool_text(b).len() as usize })]),
                Seq::<Failure>::empty(),
                names,
            ),
        ),
{
    let s = crate::interpreter::value::bool_text(b);
    assert(pad(s, 0) == 0);
    assert(ident_end(s, s.len()) == s.len());
    assert(ident_end(s, 1) == s.len()) by {
        reveal_with_fuel(ident_end, 5);
    }
    assert(s.subrange(0, s.len() as int) =~= s);
    assert(lex_token(s, ctx, 0, names) == (TokenStep {
        tok: Some((Tok::Bool(b), s.len())),
        errors: Seq::empty(),
        names,
        exhausted: false,
    }));
    lemma_lex_single(s, ctx, names, Tok::Bool(b));
}

/// Whether the spans of `toks` lie in `[from, to]` of the file `ctx`, each
/// non-empty and each after the one before.
pub open spec fn spans_in_order(toks: Seq<(Tok, Span)>, ctx: Ctx, from: nat, to: nat) -> bool {
    &&& forall|j: int|
        0 <= j < toks.len() ==> {
            &&& (#[trigger] toks[j]).1.context == ctx
            &&& from <= toks[j].1.start
            &&& toks[j].1.start < toks[j].1.end
            &&& toks[j].1.end <= to
        }
    &&& forall|j: int, m: int| 0 <= j < m < toks.len() ==> (#[trigger] toks[j]).1.end <= (#[trigger] toks[m]).1.start
}

/// Whether `text` is what the source shows of token `t`: a control symbol,
/// keyword, boolean or identifier its text; a number its decimal digits; a
/// bracket group its opening and closing brackets at either end.
pub open spec fn lexeme_fits(t: Tok, text: Seq<char>, names: Seq<Seq<char>>) -> bool {
    match t {
        Tok::Ctrl(c) => text == ctrl_text(c),
        Tok::Kw(k) => text == kw_text(k),
        Tok::Bool(b) => text == crate::interpreter::value::bool_text(b),
        Tok::Ident(id) => id.0 < names.len() && text == names[id.0 as int],
        Tok::Int(n) => text.len() > 0 && all_digits(text) && n == decimal_value(text),
        Tok::Parentheses(_) => text.len() >= 2 && text[0] == '(' && text.last() == ')',
        Tok::CurlyBraces(_) => text.len() >= 2 && text[0] == '{' && text.last() == '}',
        Tok::SquareBrackets(_) => text.len() >= 2 && text[0] == '[' && text.last() == ']',
        _ => true,
    }
}

/// Whether every token of `toks`, at every depth, fits the source `s`: its
/// span shows its lexeme, and the tokens of a group lie in order inside the
/// group's span.
pub open spec fn tokens_fit(toks: Seq<(Tok, Span)>, s: Seq<char>, names: Seq<Seq<char>>) -> bool
    decreases toks,
{
    if toks.len() == 0 {
        true
    } else {
        proof {
            assert(decreases_to!(toks => toks[0]));
            assert(decreases_to!(toks[0] => toks[0].0));
        }
        let t = toks[0].0;
        let sp = toks[0].1;
        &&& sp.start <= sp.end <= s.len()
        &&& lexeme_fits(t, s.subrange(sp.start as int, sp.end as int), names)
        &&& match t {
            Tok::Parentheses(inner) => spans_in_order(inner, sp.context, sp.start as nat, sp.end as nat)
                && tokens_fit(inner, s, names),
            Tok::CurlyBraces(inner) => spans_in_order(inner, sp.context, sp.start as nat, sp.end as nat)
                && tokens_fit(inner, s, names),
            Tok::SquareBrackets(inner) => spans_in_order(inner, sp.context, sp.start as nat, sp.end as nat)
                && tokens_fit(inner, s, names),
            _ => true,
        }
        &&& tokens_fit(toks.drop_first(), s, names)
    }
}

proof fn lemma_digits_end_bounds(s: Seq<char>, j: nat)
    requires
        j <= s.len(),
    ensures
        j <= digits_end(s, j) <= s.len(),
        forall|k: int| j <= k < digits_end(s, j) ==> is_digit(#[trigger] s[k]),
    decreases s.len() - j,
{
    if j < s.len() && is_digit(s[j as int]) {
        lemma_digits_end_bounds(s, j + 1);
    }
}

proof fn lemma_ident_end_bounds(s: Seq<char>, j: nat)
    requires
        j <= s.len(),
    ensures
        j <= ident_end(s, j) <= s.len(),
    decreases s.len() - j,
{
    if j < s.len() && is_ident_continue(s[j as int]) {
        lemma_ident_end_bounds(s, j + 1);
    }
}

proof fn lemma_ctrl2_text(a: char, b: char)
    requires
        ctrl2(a, b) is Some,
    ensures
        ctrl_text(ctrl2(a, b)->0) == seq![a, b],
{
}

proof fn lemma_ctrl1_text(a: char)
    requires
        ctrl1(a) is Some,
    ensures
        ctrl_text(ctrl1(a)->0) == seq![a],
{
}

/// A single token that is no group fits the source when its span shows its
/// lexeme.
proof fn lemma_single_fits(s: Seq<char>, ctx: Ctx, t: Tok, k: nat, e: nat, fin: Seq<Seq<char>>)
    requires
        k < e <= s.len(),
        s.len() <= usize::MAX,
        lexeme_fits(t, s.subrange(k as int, e as int), fin),
        !(t is Parentheses || t is CurlyBraces || t is SquareBrackets),
    ensures
        tokens_fit(seq![(t, Span { context: ctx, start: k as usize, end: e as usize })], s, fin),
{
    let one = seq![(t, Span { context: ctx, start: k as usize, end: e as usize })];
    assert(one.drop_first() =~= Seq::<(Tok, Span)>::empty());
    assert(one[0].1.start as int == k);
    assert(one[0].1.end as int == e);
    assert(tokens_fit(one.drop_first(), s, fin));
}

/// A group token fits the source when its span runs from its opening to its
/// closing bracket and its tokens fit inside it.
proof fn lemma_group_fits(s: Seq<char>, ctx: Ctx, c: char, inner: Seq<(Tok, Span)>, k: nat, e: nat, fin: Seq<Seq<char>>)
    requires
        k + 1 < e <= s.len(),
        s.len() <= usize::MAX,
        is_opener(c),
        s[k as int] == c,
        s[e - 1] == closer_of(c),
        spans_in_order(inner, ctx, k, e),
        tokens_fit(inner, s, fin),
    ensures
        tokens_fit(seq![(group(c, inner), Span { context: ctx, start: k as usize, end: e as usize })], s, fin),
{
    let one = seq![(group(c, inner), Span { context: ctx, start: k as usize, end: e as usize })];
    assert(one.drop_first() =~= Seq::<(Tok, Span)>::empty());
    assert(one[0].1.start as int == k);
    assert(one[0].1.end as int == e);
    assert(tokens_fit(one.drop_first(), s, fin));
    let text = s.subrange(k as int, e as int);
    assert(text[0] == c);
    assert(text.last() == s[e - 1]);
    assert(lexeme_fits(group(c, inner), text, fin));
}

/// What reading one token at `k` gives fits the source, and the names only
/// grow.
proof fn lemma_lex_token_fits(s: Seq<char>, ctx: Ctx, k: nat, names: Seq<Seq<char>>, fin: Seq<Seq<char>>)
    requires
        k < s.len(),
        s.len() <= usize::MAX,
        lex_token(s, ctx, k, names).names.is_prefix_of(fin),
    ensures
        names.is_prefix_of(lex_token(s, ctx, k, names).names),
        !lex_token(s, ctx, k, names).exhausted ==> match lex_token(s, ctx, k, names).tok {
            Some((t, e)) => k < e <= s.len() ==> tokens_fit(
                seq![(t, Span { context: ctx, start: k as usize, end: e as usize })],
                s,
                fin,
            ),
            None => true,
        },
    decreases s.len() - k, 0nat,
{
    let t = lex_token(s, ctx, k, names);
    let c = s[k as int];
    if is_digit(c) {
        let e = if c == '0' { k + 1 } else { digits_end(s, k + 1) };
        lemma_digits_end_bounds(s, k + 1);
        let w = s.subrange(k as int, e as int);
        assert(all_digits(w)) by {
            assert forall|m: int| 0 <= m < w.len() implies is_digit(#[trigger] w[m]) by {
                assert(w[m] == s[k + m]);
            }
        }
        lemma_single_fits(s, ctx, (t.tok->0).0, k, e, fin);
    } else if is_ident_start(c) {
        let e = ident_end(s, k + 1);
        lemma_ident_end_bounds(s, k + 1);
        let w = s.subrange(k as int, e as int);
        match reserved_word(w) {
            Some(_) => {},
            None => match intern(names, w) {
                Some((n2, id)) => {
                    if names.contains(w) {
                        let i0 = choose|i: nat| i < names.len() && names[i as int] == w;
                        assert(n2[i0 as int] == w);
                        assert(fin[i0 as int] == w);
                    } else {
                        assert(n2[names.len() as int] == w);
                        assert(fin[names.len() as int] == w);
                    }
                },
                None => {},
            },
        }
        if let Some((tok, e2)) = t.tok {
            if k < e2 <= s.len() {
                assert(e2 == e);
                lemma_single_fits(s, ctx, tok, k, e2, fin);
            }
        }
    } else if k + 1 < s.len() && ctrl2(c, s[k + 1int]) is Some {
        lemma_ctrl2_text(c, s[k + 1int]);
        assert(s.subrange(k as int, k + 2int) =~= seq![c, s[k + 1int]]);
        lemma_single_fits(s, ctx, (t.tok->0).0, k, k + 2, fin);
    } else if ctrl1(c) is Some {
        lemma_ctrl1_text(c);
        assert(s.subrange(k as int, k + 1int) =~= seq![c]);
        lemma_single_fits(s, ctx, (t.tok->0).0, k, k + 1, fin);
    } else if is_opener(c) {
        let inner = lex_seq(s, ctx, k + 1, names);
        lemma_lex_seq_fits(s, ctx, k + 1, names, fin);
        if !inner.exhausted {
            if let Some((tok, e)) = t.tok {
                if k < e <= s.len() {
                    if inner.stop < s.len() && s[inner.stop as int] == closer_of(c) {
                        assert(e == inner.stop + 1);
                        lemma_group_fits(s, ctx, c, inner.toks, k, e, fin);
                    } else {
                        let j = skip_block(s, k + 1);
                        assert(e == j + 1);
                        assert(s[j as int] == closer_of(c));
                        let err = seq![(Tok::Error, Span { context: ctx, start: k as usize, end: e as usize })];
                        assert(err.drop_first() =~= Seq::<(Tok, Span)>::empty());
                        assert(tokens_fit(err.drop_first(), s, fin));
                        assert(tokens_fit(err, s, fin));
                        assert(spans_in_order(err, ctx, k, e));
                        lemma_group_fits(s, ctx, c, err, k, e, fin);
                    }
                }
            }
        }
    }
}

/// What reading tokens from `i` gives fits the source: the tokens lie in
/// order between `i` and where reading stopped, each fits, and the names
/// only grow.
proof fn lemma_lex_seq_fits(s: Seq<char>, ctx: Ctx, i: nat, names: Seq<Seq<char>>, fin: Seq<Seq<char>>)
    requires
        i <= s.len(),
        s.len() <= usize::MAX,
        lex_seq(s, ctx, i, names).names.is_prefix_of(fin),
    ensures
        names.is_prefix_of(lex_seq(s, ctx, i, names).names),
        i <= lex_seq(s, ctx, i, names).stop <= s.len(),
        spans_in_order(lex_seq(s, ctx, i, names).toks, ctx, i, lex_seq(s, ctx, i, names).stop),
        tokens_fit(lex_seq(s, ctx, i, names).toks, s, fin),
    decreases s.len() - i, 1nat,
{
    let k = pad(s, i);
    lemma_pad(s, i);
    let r = lex_seq(s, ctx, i, names);
    if k >= s.len() {
        assert(r.toks =~= Seq::<(Tok, Span)>::empty());
        return;
    }
    let t = lex_token(s, ctx, k, names);
    if t.exhausted {
        lemma_lex_token_fits(s, ctx, k, names, t.names);
        return;
    }
    match t.tok {
        Some((tok, e)) => {
            if k < e <= s.len() {
                lemma_pad(s, e);
                let rest = lex_seq(s, ctx, pad(s, e), t.names);
                lemma_lex_seq_fits(s, ctx, pad(s, e), t.names, fin);
                assert(t.names.is_prefix_of(fin));
                lemma_lex_token_fits(s, ctx, k, names, fin);
                let head = (tok, Span { context: ctx, start: k as usize, end: e as usize });
                let all = r.toks;
                assert(all == seq![head] + rest.toks);
                assert(all[0] == head);
                assert(all.drop_first() =~= rest.toks);
                assert(seq![head][0] == head);
                assert(seq![head].drop_first() =~= Seq::<(Tok, Span)>::empty());
                assert forall|j: int, m: int| 0 <= j < m < all.len() implies (#[trigger] all[j]).1.end <= (#[trigger] all[m]).1.start by {
                    if j > 0 {
                        assert(all[j] == rest.toks[j - 1]);
                    }
                    assert(all[m] == rest.toks[m - 1]);
                }
                assert forall|j: int| 0 <= j < all.len() implies {
                    &&& (#[trigger] all[j]).1.context == ctx
                    &&& i <= all[j].1.start
                    &&& all[j].1.start < all[j].1.end
                    &&& all[j].1.end <= r.stop
                } by {
                    if j > 0 {
                        assert(all[j] == rest.toks[j - 1]);
                    }
                }
            } else {
                lemma_lex_token_fits(s, ctx, k, names, t.names);
                assert(r.toks =~= Seq::<(Tok, Span)>::empty());
            }
        },
        None => {
            lemma_lex_token_fits(s, ctx, k, names, t.names);
            assert(r.toks =~= Seq::<(Tok, Span)>::empty());
        },
    }
}

/// The tokens that a source reads as fit it, at every depth (in the
/// character positions of `lex`; `lexed` counts the same spans in bytes, and
/// `law_lexed_tokens_nest` shows the order survives): at each depth
/// the spans are non-empty, in the source's file and in order; a group's
/// tokens lie inside the group's span, which runs from its opening to its
/// closing bracket; and a control symbol, keyword, boolean, identifier or
/// number spans exactly its text.
pub proof fn law_token_spans_in_order(s: Seq<char>, ctx: Ctx, names: Seq<Seq<char>>)
    requires
        s.len() <= usize::MAX,
    ensures
        lex(s, ctx, names) matches Some((Some(toks), _, fin)) ==> {
            &&& spans_in_order(toks, ctx, 0, s.len())
            &&& tokens_fit(toks, s, fin)
        },
{
    let r = lex_seq(s, ctx, 0, names);
    lemma_lex_seq_fits(s, ctx, 0, names, r.names);
}

/// The text that shows a keyword, control symbol, boolean, natural number or
/// identifier (one spelled like an identifier and no keyword) reads back as
/// that token alone, and leaves the interner as it was.
pub proof fn law_token_text_lexes(t: Tok, interner: Interner, ctx: Ctx)
    requires
        interner.wf(),
        interner.names().len() + 2 < u32::MAX,
        match t {
            Tok::Kw(_) | Tok::Ctrl(_) | Tok::Bool(_) => true,
            Tok::Int(n) => n >= 0,
            Tok::Ident(id) => {
                &&& interner.holds(id)
                &&& ident_shaped(interner.name_of(id))
                &&& reserved_word(interner.name_of(id)) is None
            },
            _ => false,
        },
    ensures
        lex(tok_text(t, interner.names()), ctx, interner.names()) == Some(
            (
                Some(seq![(t, Span { context: ctx, start: 0, end: tok_text(t, interner.names()).len() as usize })]),
                Seq::<Failure>::empty(),
                interner.names(),
            ),
        ),
{
    match t {
        Tok::Kw(k) => law_keyword_text_lexes(k, ctx, interner.names()),
        Tok::Ctrl(c) => law_ctrl_text_lexes(c, ctx, interner.names()),
        Tok::Bool(b) => law_bool_text_lexes(b, ctx, interner.names()),
        Tok::Int(n) => law_number_text_lexes(n as nat, ctx, interner.names()),
        Tok::Ident(id) => law_ident_text_lexes(interner, id, ctx),
        _ => {},
    }
}

// ---------------------------------------------------------------------------
// Byte offsets. The grammar above counts characters; the tokens and errors
// that the lexer hands out count bytes of the UTF-8 text.
// ---------------------------------------------------------------------------

/// The byte offset of character position `k` of `s` (the end of the text for
/// a position past it).
pub open spec fn byte_pos(s: Seq<char>, k: nat) -> nat {
    if k <= s.len() {
        encode_utf8(s.take(k as int)).len()
    } else {
        encode_utf8(s).len()
    }
}

/// A span of character positions as a span of byte offsets.
pub open spec fn byte_span(s: Seq<char>, sp: Span) -> Span {
    Span {
        context: sp.context,
        start: byte_pos(s, sp.start as nat) as usize,
        end: byte_pos(s, sp.end as nat) as usize,
    }
}

/// A token with its spans, at every depth, counted in bytes.
pub open spec fn tok_bytes(s: Seq<char>, t: Tok) -> Tok
    decreases t,
{
    match t {
        Tok::Parentheses(inner) => Tok::Parentheses(toks_bytes(s, inner)),
        Tok::CurlyBraces(inner) => Tok::CurlyBraces(toks_bytes(s, inner)),
        Tok::SquareBrackets(inner) => Tok::SquareBrackets(toks_bytes(s, inner)),
        _ => t,
    }
}

/// Tokens with their spans, at every depth, counted in bytes.
pub open spec fn toks_bytes(s: Seq<char>, toks: Seq<(Tok, Span)>) -> Seq<(Tok, Span)>
    decreases toks,
{
    if toks.len() == 0 {
        Seq::empty()
    } else {
        proof {
            assert(decreases_to!(toks => toks[0]));
            assert(decreases_to!(toks[0] => toks[0].0));
        }
        seq![(tok_bytes(s, toks[0].0), byte_span(s, toks[0].1))] + toks_bytes(s, toks.drop_first())
    }
}

/// An error with its span counted in bytes.
pub open spec fn failure_bytes(s: Seq<char>, f: Failure) -> Failure {
    match f {
        Failure::Parse { reason, span } => Failure::Parse { reason, span: byte_span(s, span) },
        _ => f,
    }
}

/// What the lexer gives: the result of `lex` with every span counted in
/// bytes.
pub open spec fn lexed(s: Seq<char>, ctx: Ctx, names: Seq<Seq<char>>) -> Option<(Option<Seq<(Tok, Span)>>, Seq<Failure>, Seq<Seq<char>>)> {
    match lex(s, ctx, names) {
        None => None,
        Some((t, e, n)) => Some(
            (
                match t {
                    Some(ts) => Some(toks_bytes(s, ts)),
                    None => None,
                },
                e.map_values(|f: Failure| failure_bytes(s, f)),
                n,
            ),
        ),
    }
}

/// Counting spans in bytes keeps the tokens, one for one.
pub proof fn lemma_toks_bytes(s: Seq<char>, toks: Seq<(Tok, Span)>)
    ensures
        toks_bytes(s, toks).len() == toks.len(),
        forall|j: int|
            0 <= j < toks.len() ==> #[trigger] toks_bytes(s, toks)[j] == (tok_bytes(s, toks[j].0), byte_span(s, toks[j].1)),
    decreases toks.len(),
{
    if toks.len() > 0 {
        lemma_toks_bytes(s, toks.drop_first());
        assert forall|j: int| 0 <= j < toks.len() implies #[trigger] toks_bytes(s, toks)[j] == (
            tok_bytes(s, toks[j].0),
            byte_span(s, toks[j].1),
        ) by {
            if j > 0 {
                assert(toks.drop_first()[j - 1] == toks[j]);
            }
        }
    }
}

proof fn lemma_encode_concat(a: Seq<char>, b: Seq<char>)
    ensures
        encode_utf8(a + b) == encode_utf8(a) + encode_utf8(b),
    decreases a.len(),
{
    if a.len() > 0 {
        lemma_encode_concat(a.drop_first(), b);
        assert((a + b).drop_first() =~= a.drop_first() + b);
        assert((a + b)[0] == a[0]);
        assert(encode_scalar(a[0] as u32) + (encode_utf8(a.drop_first()) + encode_utf8(b)) =~= (encode_scalar(
            a[0] as u32,
        ) + encode_utf8(a.drop_first())) + encode_utf8(b));
    } else {
        assert(a + b =~= b);
        assert(encode_utf8(a) + encode_utf8(b) =~= encode_utf8(b));
    }
}

/// The number of bytes of the UTF-8 encoding of `c`.
fn utf8_width(c: char) -> (r: usize)
    ensures
        r == encode_scalar(c as u32).len(),
        1 <= r <= 4,
{
    proof {
        vstd::utf8::char_is_scalar(c);
    }
    let v = c as u32;
    if v <= 0x7f {
        1
    } else if v <= 0x7ff {
        2
    } else if v <= 0xffff {
        3
    } else {
        4
    }
}

/// Byte offsets grow with character positions, strictly inside the text,
/// and never pass the length of the text in bytes.
pub proof fn lemma_byte_pos_order(s: Seq<char>, j: nat, k: nat)
    requires
        j <= k,
    ensures
        byte_pos(s, j) <= byte_pos(s, k),
        j < k <= s.len() ==> byte_pos(s, j) < byte_pos(s, k),
        byte_pos(s, k) <= encode_utf8(s).len(),
{
    let a = if j <= s.len() { j } else { s.len() };
    let b = if k <= s.len() { k } else { s.len() };
    assert(s.take(s.len() as int) =~= s);
    lemma_encode_concat(s.take(a as int), s.subrange(a as int, b as int));
    assert(s.take(b as int) =~= s.take(a as int) + s.subrange(a as int, b as int));
    lemma_encode_concat(s.take(b as int), s.skip(b as int));
    assert(s =~= s.take(b as int) + s.skip(b as int));
    if a < b {
        let mid = s.subrange(a as int, b as int);
        assert(encode_utf8(mid) == encode_scalar(mid[0] as u32) + encode_utf8(mid.drop_first()));
        assert(encode_scalar(mid[0] as u32).len() >= 1);
    }
}

/// The byte offset of each character position of `cs`, and of its end.
fn byte_offsets(cs: &Vec<char>, total: usize) -> (r: Vec<usize>)
    requires
        total == encode_utf8(cs@).len(),
    ensures
        r@.len() == cs@.len() + 1,
        forall|k: int| 0 <= k <= cs@.len() ==> #[trigger] r@[k] == byte_pos(cs@, k as nat),
{
    let mut r: Vec<usize> = Vec::new();
    r.push(0);
    assert(cs@.take(0) =~= Seq::<char>::empty());
    let mut acc: usize = 0;
    let mut i: usize = 0;
    while i < cs.len()
        invariant
            i <= cs@.len(),
            total == encode_utf8(cs@).len(),
            r@.len() == i + 1,
            acc == byte_pos(cs@, i as nat),
            forall|k: int| 0 <= k <= i ==> #[trigger] r@[k] == byte_pos(cs@, k as nat),
        decreases cs@.len() - i,
    {
        let w = utf8_width(cs[i]);
        proof {
            let a = cs@.take(i as int);
            let b = cs@.take(i + 1);
            assert(b =~= a + seq![cs@[i as int]]);
            lemma_encode_concat(a, seq![cs@[i as int]]);
            let one = seq![cs@[i as int]];
            assert(one.drop_first() =~= Seq::<char>::empty());
            assert(encode_utf8(one.drop_first()) =~= Seq::<u8>::empty());
            assert(encode_utf8(one) == encode_scalar(one[0] as u32) + encode_utf8(one.drop_first()));
            assert(encode_utf8(one) =~= encode_scalar(cs@[i as int] as u32));
            let rest = cs@.skip(i + 1);
            assert(cs@ =~= b + rest);
            lemma_encode_concat(b, rest);
        }
        acc = acc + w;
        r.push(acc);
        i = i + 1;
    }
    assert(cs@.take(cs@.len() as int) =~= cs@);
    r
}

/// A copy of `t` with its spans, at every depth, counted in bytes.
fn token_to_bytes(t: &Token, offsets: &Vec<usize>, Ghost(s): Ghost<Seq<char>>) -> (r: Token)
    requires
        offsets@.len() == s.len() + 1,
        forall|k: int| 0 <= k <= s.len() ==> #[trigger] offsets@[k] == byte_pos(s, k as nat),
    ensures
        token_model(r) == tok_bytes(s, token_model(*t)),
    decreases t,
{
    match t {
        Token::Parentheses(ts) => Token::Parentheses(Tokens(tokens_to_bytes(&ts.0, offsets, Ghost(s)))),
        Token::CurlyBraces(ts) => Token::CurlyBraces(Tokens(tokens_to_bytes(&ts.0, offsets, Ghost(s)))),
        Token::SquareBrackets(ts) => Token::SquareBrackets(Tokens(tokens_to_bytes(&ts.0, offsets, Ghost(s)))),
        Token::Error => Token::Error,
        Token::Ident(i) => Token::Ident(*i),
        Token::Unit => Token::Unit,
        Token::Int(n) => Token::Int(n.duplicate()),
        Token::Bool(b) => Token::Bool(*b),
        Token::Kw(k) => Token::Kw(*k),
        Token::Ctrl(c) => Token::Ctrl(*c),
    }
}

/// The byte offset of a character position.
fn byte_at(offsets: &Vec<usize>, k: usize, Ghost(s): Ghost<Seq<char>>) -> (r: usize)
    requires
        offsets@.len() == s.len() + 1,
        forall|j: int| 0 <= j <= s.len() ==> #[trigger] offsets@[j] == byte_pos(s, j as nat),
    ensures
        r == byte_pos(s, k as nat),
{
    let n = offsets.len() - 1;
    if k <= n {
        offsets[k]
    } else {
        assert(s.take(s.len() as int) =~= s);
        offsets[n]
    }
}

/// A span of character positions as a span of byte offsets.
fn span_to_bytes(sp: Span, offsets: &Vec<usize>, Ghost(s): Ghost<Seq<char>>) -> (r: Span)
    requires
        offsets@.len() == s.len() + 1,
        forall|j: int| 0 <= j <= s.len() ==> #[trigger] offsets@[j] == byte_pos(s, j as nat),
    ensures
        r == byte_span(s, sp),
{
    Span { context: sp.context, start: byte_at(offsets, sp.start, Ghost(s)), end: byte_at(offsets, sp.end, Ghost(s)) }
}

/// A copy of `toks` with their spans, at every depth, counted in bytes.
fn tokens_to_bytes(toks: &Vec<(Token, Span)>, offsets: &Vec<usize>, Ghost(s): Ghost<Seq<char>>) -> (r: Vec<(Token, Span)>)
    requires
        offsets@.len() == s.len() + 1,
        forall|k: int| 0 <= k <= s.len() ==> #[trigger] offsets@[k] == byte_pos(s, k as nat),
    ensures
        tokens_model(r@) == toks_bytes(s, tokens_model(toks@)),
    decreases toks,
{
    let mut r: Vec<(Token, Span)> = Vec::new();
    let mut i: usize = 0;
    while i < toks.len()
        invariant
            i <= toks@.len(),
            offsets@.len() == s.len() + 1,
            forall|k: int| 0 <= k <= s.len() ==> #[trigger] offsets@[k] == byte_pos(s, k as nat),
            r@.len() == i,
            forall|j: int|
                0 <= j < i ==> token_model((#[trigger] r@[j]).0) == tok_bytes(s, token_model(toks@[j].0))
                    && r@[j].1 == byte_span(s, toks@[j].1),
        decreases toks@.len() - i,
    {
        proof {
            assert(decreases_to!(toks => toks@));
            assert(decreases_to!(toks@ => toks@[i as int]));
            assert(decreases_to!(toks@[i as int] => toks@[i as int].0));
        }
        let t = token_to_bytes(&toks[i].0, offsets, Ghost(s));
        let sp = span_to_bytes(toks[i].1, offsets, Ghost(s));
        r.push((t, sp));
        i = i + 1;
    }
    proof {
        lemma_tokens_model(r@);
        lemma_tokens_model(toks@);
        lemma_toks_bytes(s, tokens_model(toks@));
        assert(tokens_model(r@) =~= toks_bytes(s, tokens_model(toks@)));
    }
    r
}

/// Whether every error is a parse error.
pub open spec fn all_parse(e: Seq<Failure>) -> bool {
    forall|j: int| 0 <= j < e.len() ==> (#[trigger] e[j]) is Parse
}

proof fn lemma_token_errors_parse(s: Seq<char>, ctx: Ctx, k: nat, names: Seq<Seq<char>>)
    ensures
        all_parse(lex_token(s, ctx, k, names).errors),
    decreases s.len() - k, 0nat,
{
    if k < s.len() && is_opener(s[k as int]) && !is_digit(s[k as int]) && !is_ident_start(s[k as int]) {
        lemma_seq_errors_parse(s, ctx, k + 1, names);
    }
}

proof fn lemma_seq_errors_parse(s: Seq<char>, ctx: Ctx, i: nat, names: Seq<Seq<char>>)
    ensures
        all_parse(lex_seq(s, ctx, i, names).errors),
    decreases s.len() - i, 1nat,
{
    if i <= s.len() {
        let k = pad(s, i);
        lemma_pad(s, i);
        let t = lex_token(s, ctx, k, names);
        lemma_token_errors_parse(s, ctx, k, names);
        if !t.exhausted {
            if let Some((tok, e)) = t.tok {
                if k < e <= s.len() {
                    lemma_pad(s, e);
                    lemma_seq_errors_parse(s, ctx, pad(s, e), t.names);
                    let rest = lex_seq(s, ctx, pad(s, e), t.names);
                    assert forall|j: int| 0 <= j < (t.errors + rest.errors).len() implies (#[trigger] (t.errors
                        + rest.errors)[j]) is Parse by {
                        if j >= t.errors.len() {
                            assert((t.errors + rest.errors)[j] == rest.errors[j - t.errors.len()]);
                        }
                    }
                }
            }
        }
    }
}

/// Errors with their spans counted in bytes.
fn errors_to_bytes(errors: Vec<Diagnostic>, offsets: &Vec<usize>, Ghost(s): Ghost<Seq<char>>) -> (r: Vec<Diagnostic>)
    requires
        offsets@.len() == s.len() + 1,
        forall|k: int| 0 <= k <= s.len() ==> #[trigger] offsets@[k] == byte_pos(s, k as nat),
        forall|j: int| 0 <= j < errors@.len() ==> (#[trigger] errors@[j]) is ParserError,
    ensures
        errors_model(r@) == errors_model(errors@).map_values(|f: Failure| failure_bytes(s, f)),
{
    let mut r: Vec<Diagnostic> = Vec::new();
    let mut i: usize = 0;
    while i < errors.len()
        invariant
            i <= errors@.len(),
            offsets@.len() == s.len() + 1,
            forall|k: int| 0 <= k <= s.len() ==> #[trigger] offsets@[k] == byte_pos(s, k as nat),
            forall|j: int| 0 <= j < errors@.len() ==> (#[trigger] errors@[j]) is ParserError,
            r@.len() == i,
            forall|j: int| 0 <= j < i ==> (#[trigger] r@[j])@ == failure_bytes(s, errors@[j]@),
        decreases errors@.len() - i,
    {
        match &errors[i] {
            Diagnostic::ParserError(e) => {
                let span = span_to_bytes(e.span, offsets, Ghost(s));
                let reason = String::from_str(e.reason.as_str());
                r.push(Diagnostic::ParserError(ParserError { reason, span }));
            },
            _ => {
                proof {
                    assert(errors@[i as int] is ParserError);
                }
                r.push(unreached());
            },
        }
        i = i + 1;
    }
    assert(errors_model(r@) =~= errors_model(errors@).map_values(|f: Failure| failure_bytes(s, f)));
    r
}

/// The text that a keyword, control symbol, boolean or identifier token
/// shows.
pub open spec fn leaf_text(t: Tok, names: Seq<Seq<char>>) -> Option<Seq<char>> {
    match t {
        Tok::Ctrl(c) => Some(ctrl_text(c)),
        Tok::Kw(k) => Some(kw_text(k)),
        Tok::Bool(b) => Some(crate::interpreter::value::bool_text(b)),
        Tok::Ident(id) => Some(names[id.0 as int]),
        _ => None,
    }
}

/// Whether every token of `toks`, at every depth, has a byte span inside
/// `bytes` that holds the UTF-8 encoding of its text, for a keyword, control
/// symbol, boolean or identifier.
pub open spec fn bytes_fit(toks: Seq<(Tok, Span)>, bytes: Seq<u8>, names: Seq<Seq<char>>) -> bool
    decreases toks,
{
    if toks.len() == 0 {
        true
    } else {
        proof {
            assert(decreases_to!(toks => toks[0]));
            assert(decreases_to!(toks[0] => toks[0].0));
        }
        let t = toks[0].0;
        let sp = toks[0].1;
        &&& sp.start <= sp.end <= bytes.len()
        &&& (leaf_text(t, names) matches Some(x) ==> bytes.subrange(sp.start as int, sp.end as int) == encode_utf8(x))
        &&& match t {
            Tok::Parentheses(inner) => bytes_fit(inner, bytes, names),
            Tok::CurlyBraces(inner) => bytes_fit(inner, bytes, names),
            Tok::SquareBrackets(inner) => bytes_fit(inner, bytes, names),
            _ => true,
        }
        &&& bytes_fit(toks.drop_first(), bytes, names)
    }
}

/// The bytes of the encoding of `s` between the byte offsets of `a` and `b`
/// are the encoding of `s[a..b]`.
proof fn lemma_byte_slice(s: Seq<char>, a: nat, b: nat)
    requires
        a <= b <= s.len(),
    ensures
        byte_pos(s, a) <= byte_pos(s, b) <= encode_utf8(s).len(),
        encode_utf8(s).subrange(byte_pos(s, a) as int, byte_pos(s, b) as int) == encode_utf8(s.subrange(a as int, b as int)),
{
    lemma_byte_pos_order(s, a, b);
    let x = s.take(a as int);
    let y = s.subrange(a as int, b as int);
    let z = s.skip(b as int);
    assert(s =~= x + y + z);
    assert(s.take(b as int) =~= x + y);
    lemma_encode_concat(x, y);
    lemma_encode_concat(x + y, z);
    assert(encode_utf8(s).subrange(byte_pos(s, a) as int, byte_pos(s, b) as int) =~= encode_utf8(y));
}

proof fn lemma_bytes_fit(toks: Seq<(Tok, Span)>, s: Seq<char>, names: Seq<Seq<char>>)
    requires
        tokens_fit(toks, s, names),
        encode_utf8(s).len() <= usize::MAX,
    ensures
        bytes_fit(toks_bytes(s, toks), encode_utf8(s), names),
    decreases toks,
{
    if toks.len() > 0 {
        let bt = toks_bytes(s, toks);
        assert(bt.drop_first() =~= toks_bytes(s, toks.drop_first()));
        lemma_bytes_fit(toks.drop_first(), s, names);
        let sp = toks[0].1;
        lemma_byte_slice(s, sp.start as nat, sp.end as nat);
        assert(bt[0] == (tok_bytes(s, toks[0].0), byte_span(s, sp)));
        match toks[0].0 {
            Tok::Parentheses(inner) => {
                assert(decreases_to!(toks => toks[0]));
                assert(decreases_to!(toks[0] => toks[0].0));
                lemma_bytes_fit(inner, s, names);
            },
            Tok::CurlyBraces(inner) => {
                assert(decreases_to!(toks => toks[0]));
                assert(decreases_to!(toks[0] => toks[0].0));
                lemma_bytes_fit(inner, s, names);
            },
            Tok::SquareBrackets(inner) => {
                assert(decreases_to!(toks => toks[0]));
                assert(decreases_to!(toks[0] => toks[0].0));
                lemma_bytes_fit(inner, s, names);
            },
            _ => {},
        }
    }
}

/// The tokens that the lexer hands out show their source, at every depth: the
/// bytes of the source under the span of a keyword, control symbol, boolean
/// or identifier are the UTF-8 encoding of its text (so a control symbol
/// displays as its source slice).
pub proof fn law_lexed_tokens_show_their_source(s: Seq<char>, ctx: Ctx, names: Seq<Seq<char>>)
    requires
        encode_utf8(s).len() <= usize::MAX,
    ensures
        lexed(s, ctx, names) matches Some((Some(toks), _, fin)) ==> bytes_fit(toks, encode_utf8(s), fin),
{
    lemma_encode_len(s);
    law_token_spans_in_order(s, ctx, names);
    if let Some((Some(toks), _, fin)) = lex(s, ctx, names) {
        lemma_bytes_fit(toks, s, fin);
    }
}

/// A text has at least as many bytes as characters.
pub proof fn lemma_encode_len(s: Seq<char>)
    ensures
        s.len() <= encode_utf8(s).len(),
    decreases s.len(),
{
    if s.len() > 0 {
        lemma_encode_len(s.drop_first());
        assert(encode_scalar(s[0] as u32).len() >= 1);
    }
}

// ---------------------------------------------------------------------------
// The lexer.
// ---------------------------------------------------------------------------

/// The interner ran out of keys for new names.
#[derive(Debug)]
pub struct NamesExhausted;

pub open spec fn errors_model(v: Seq<Diagnostic>) -> Seq<Failure> {
    v.map_values(|d: Diagnostic| d@)
}

proof fn lemma_errors_push(v: Seq<Diagnostic>, d: Diagnostic)
    ensures
        errors_model(v.push(d)) == errors_model(v).push(d@),
{
    assert(errors_model(v.push(d)) =~= errors_model(v).push(d@));
}

proof fn lemma_errors_take(v: Seq<Diagnostic>, n: int)
    requires
        0 <= n <= v.len(),
    ensures
        errors_model(v.take(n)) == errors_model(v).take(n),
{
    assert(errors_model(v.take(n)) =~= errors_model(v).take(n));
}

fn whitespace(c: char) -> (r: bool)
    ensures
        r == is_whitespace(c),
{
    ('\u{9}' <= c && c <= '\u{d}') || c == ' ' || c == '\u{85}' || c == '\u{a0}' || c == '\u{1680}'
        || ('\u{2000}' <= c && c <= '\u{200a}') || c == '\u{2028}' || c == '\u{2029}' || c == '\u{202f}'
        || c == '\u{205f}' || c == '\u{3000}'
}

fn digit(c: char) -> (r: bool)
    ensures
        r == is_digit(c),
{
    '0' <= c && c <= '9'
}

fn ident_start(c: char) -> (r: bool)
    ensures
        r == is_ident_start(c),
{
    ('a' <= c && c <= 'z') || ('A' <= c && c <= 'Z') || c == '_'
}

fn ident_continue(c: char) -> (r: bool)
    ensures
        r == is_ident_continue(c),
{
    ident_start(c) || digit(c)
}

fn line_end_of(cs: &Vec<char>, i: usize) -> (r: usize)
    requires
        i <= cs@.len(),
    ensures
        r == line_end(cs@, i as nat),
{
    let mut j = i;
    while j < cs.len() && cs[j] != '\n'
        invariant
            i <= j <= cs@.len(),
            line_end(cs@, i as nat) == line_end(cs@, j as nat),
        decreases cs@.len() - j,
    {
        j = j + 1;
    }
    j
}

fn ident_end_of(cs: &Vec<char>, i: usize) -> (r: usize)
    requires
        i <= cs@.len(),
    ensures
        r == ident_end(cs@, i as nat),
        i <= r <= cs@.len(),
{
    let mut j = i;
    while j < cs.len() && ident_continue(cs[j])
        invariant
            i <= j <= cs@.len(),
            ident_end(cs@, i as nat) == ident_end(cs@, j as nat),
        decreases cs@.len() - j,
    {
        j = j + 1;
    }
    j
}

fn digits_end_of(cs: &Vec<char>, i: usize) -> (r: usize)
    requires
        i <= cs@.len(),
    ensures
        r == digits_end(cs@, i as nat),
        i <= r <= cs@.len(),
        forall|m: int| i <= m < r ==> is_digit(#[trigger] cs@[m]),
{
    let mut j = i;
    while j < cs.len() && digit(cs[j])
        invariant
            i <= j <= cs@.len(),
            digits_end(cs@, i as nat) == digits_end(cs@, j as nat),
            forall|m: int| i <= m < j ==> is_digit(#[trigger] cs@[m]),
        decreases cs@.len() - j,
    {
        j = j + 1;
    }
    j
}

fn pad_from(cs: &Vec<char>, i: usize) -> (r: usize)
    requires
        i <= cs@.len(),
    ensures
        r == pad(cs@, i as nat),
        i <= r <= cs@.len(),
{
    let mut j = i;
    proof {
        lemma_pad(cs@, i as nat);
    }
    loop
        invariant
            i <= j <= cs@.len(),
            pad(cs@, i as nat) == pad(cs@, j as nat),
        decreases cs@.len() - j,
    {
        if j >= cs.len() {
            return j;
        } else if whitespace(cs[j]) {
            j = j + 1;
        } else if j + 1 < cs.len() && cs[j] == '/' && cs[j + 1] == '/' {
            proof {
                lemma_line_end(cs@, (j + 2) as nat);
            }
            j = line_end_of(cs, j + 2);
        } else {
            return j;
        }
    }
}

fn ctrl_of_two(a: char, b: char) -> (r: Option<Ctrl>)
    ensures
        r == ctrl2(a, b),
{
    if a == '<' && b == '<' {
        Some(Ctrl::DoubleLt)
    } else if a == '>' && b == '>' {
        Some(Ctrl::DoubleGt)
    } else if a == '-' && b == '>' {
        Some(Ctrl::Arrow)
    } else if a == '=' && b == '=' {
        Some(Ctrl::DoubleEquals)
    } else if a == '!' && b == '=' {
        Some(Ctrl::NotEquals)
    } else if a == '<' && b == '=' {
        Some(Ctrl::LessThanEquals)
    } else if a == '>' && b == '=' {
        Some(Ctrl::GreaterThanEquals)
    } else if a == ':' && b == ':' {
        Some(Ctrl::DoubleColon)
    } else if a == '&' && b == '&' {
        Some(Ctrl::DoubleAmpersand)
    } else if a == '|' && b == '|' {
        Some(Ctrl::DoublePipe)
    } else {
        None
    }
}

fn ctrl_of_one(c: char) -> (r: Option<Ctrl>)
    ensures
        r == ctrl1(c),
{
    if c == ';' {
        Some(Ctrl::Semicolon)
    } else if c == '+' {
        Some(Ctrl::Plus)
    } else if c == '-' {
        Some(Ctrl::Minus)
    } else if c == '*' {
        Some(Ctrl::Star)
    } else if c == '/' {
        Some(Ctrl::Slash)
    } else if c == '%' {
        Some(Ctrl::Percent)
    } else if c == '.' {
        Some(Ctrl::Dot)
    } else if c == '~' {
        Some(Ctrl::Tilde)
    } else if c == '&' {
        Some(Ctrl::Ampersand)
    } else if c == '^' {
        Some(Ctrl::Caret)
    } else if c == '|' {
        Some(Ctrl::Pipe)
    } else if c == ',' {
        Some(Ctrl::Comma)
    } else if c == ':' {
        Some(Ctrl::Colon)
    } else if c == '<' {
        Some(Ctrl::LessThan)
    } else if c == '>' {
        Some(Ctrl::GreaterThan)
    } else if c == '=' {
        Some(Ctrl::Equals)
    } else if c == '!' {
        Some(Ctrl::Bang)
    } else {
        None
    }
}

/// The keyword or boolean that `w` spells, if any.
fn reserved(w: &str) -> (r: Option<Token>)
    ensures
        match r {
            Some(t) => reserved_word(w@) == Some(token_model(t)),
            None => reserved_word(w@) is None,
        },
{
    proof {
        reveal_strlit("let");
        reveal_strlit("in");
        reveal_strlit("if");
        reveal_strlit("then");
        reveal_strlit("else");
        reveal_strlit("fn");
        reveal_strlit("true");
        reveal_strlit("false");
        assert("let"@ =~= kw_text(Kw::Let));
        assert("in"@ =~= kw_text(Kw::In));
        assert("if"@ =~= kw_text(Kw::If));
        assert("then"@ =~= kw_text(Kw::Then));
        assert("else"@ =~= kw_text(Kw::Else));
        assert("fn"@ =~= kw_text(Kw::Fn));
        assert("true"@ =~= seq!['t', 'r', 'u', 'e']);
        assert("false"@ =~= seq!['f', 'a', 'l', 's', 'e']);
    }
    if same_text(w, "let") {
        Some(Token::Kw(Kw::Let))
    } else if same_text(w, "in") {
        Some(Token::Kw(Kw::In))
    } else if same_text(w, "if") {
        Some(Token::Kw(Kw::If))
    } else if same_text(w, "then") {
        Some(Token::Kw(Kw::Then))
    } else if same_text(w, "else") {
        Some(Token::Kw(Kw::Else))
    } else if same_text(w, "fn") {
        Some(Token::Kw(Kw::Fn))
    } else if same_text(w, "true") {
        Some(Token::Bool(true))
    } else if same_text(w, "false") {
        Some(Token::Bool(false))
    } else {
        None
    }
}

/// "found X expected Y" for the character at `p`.
fn found_expected_text(cs: &Vec<char>, p: usize, expected: &str) -> (r: String)
    requires
        p <= cs@.len(),
    ensures
        r@ == found_expected(cs@, p as nat, expected@),
{
    let mut r = String::from_str("found ");
    if p < cs.len() {
        r.push('\'');
        r.push(cs[p]);
        r.push('\'');
    } else {
        r.append("end of input");
    }
    r.append(" expected ");
    r.append(expected);
    assert(r@ =~= found_expected(cs@, p as nat, expected@));
    r
}

/// The end of the balanced bracket group that opens at `i`, if it closes.
fn skip_group_at(cs: &Vec<char>, i: usize) -> (r: Option<usize>)
    requires
        i < cs@.len(),
    ensures
        r == match skip_group(cs@, i as nat) {
            Some(e) => Some(e as usize),
            None => None::<usize>,
        },
        r matches Some(e) ==> i < e <= cs@.len(),
    decreases cs@.len() - i, 0nat,
{
    let n = cs.len();
    let j = skip_block_from(cs, i + 1);
    let open = cs[i];
    let close = if open == '(' {
        ')'
    } else if open == '{' {
        '}'
    } else {
        ']'
    };
    if j < cs.len() && cs[j] == close {
        Some(j + 1)
    } else {
        None
    }
}

/// From `i`, skips characters and balanced bracket groups.
fn skip_block_from(cs: &Vec<char>, i: usize) -> (r: usize)
    requires
        i <= cs@.len(),
    ensures
        r == skip_block(cs@, i as nat),
        i <= r <= cs@.len(),
    decreases cs@.len() - i, 1nat,
{
    if i >= cs.len() {
        return i;
    }
    let c = cs[i];
    if c == '(' || c == '{' || c == '[' {
        match skip_group_at(cs, i) {
            Some(e) => skip_block_from(cs, e),
            None => i,
        }
    } else if c == ')' || c == '}' || c == ']' {
        i
    } else {
        skip_block_from(cs, i + 1)
    }
}

/// The group token of the bracket `open` around `inner`.
fn make_group(open: char, inner: Vec<(Token, Span)>) -> (r: Token)
    ensures
        token_model(r) == group(open, tokens_model(inner@)),
{
    if open == '(' {
        Token::Parentheses(Tokens(inner))
    } else if open == '{' {
        Token::CurlyBraces(Tokens(inner))
    } else {
        Token::SquareBrackets(Tokens(inner))
    }
}


/// The token at `k`, where it ends, and the errors it reports (pushed on
/// `errors`). `Ok(None)` when no token starts at `k`.
fn token_at(
    cs: &Vec<char>,
    ctx: Ctx,
    k: usize,
    interner: &mut Interner,
    errors: &mut Vec<Diagnostic>,
) -> (r: Result<Option<(Token, usize)>, NamesExhausted>)
    requires
        k < cs@.len(),
        old(interner).wf(),
    ensures
        final(interner).wf(),
        final(interner).names() == lex_token(cs@, ctx, k as nat, old(interner).names()).names,
        r is Err <==> lex_token(cs@, ctx, k as nat, old(interner).names()).exhausted,
        r matches Ok(Some((t, e))) ==> k < e <= cs@.len(),
        r matches Ok(Some((t, e))) ==> tok_names_held(token_model(t), *final(interner)),
        old(interner).names().len() <= final(interner).names().len(),
        r matches Ok(x) ==> match x {
            Some((t, e)) => lex_token(cs@, ctx, k as nat, old(interner).names()).tok == Some(
                (token_model(t), e as nat),
            ),
            None => lex_token(cs@, ctx, k as nat, old(interner).names()).tok is None,
        },
        r is Ok ==> errors_model(final(errors)@) == errors_model(old(errors)@) + lex_token(
            cs@,
            ctx,
            k as nat,
            old(interner).names(),
        ).errors,
    decreases cs@.len() - k, 0nat,
{
    let ghost names0 = interner.names();
    let ghost errs0 = errors_model(errors@);
    assert(errs0 + Seq::<Failure>::empty() =~= errs0);
    let n = cs.len();
    let c = cs[k];
    if digit(c) {
        let e = if c == '0' {
            k + 1
        } else {
            digits_end_of(cs, k + 1)
        };
        let w = string_of(cs, k, e);
        assert forall|m: int| 0 <= m < w@.len() implies is_digit(#[trigger] w@[m]) by {
            assert(w@[m] == cs@[k + m]);
        }
        match BigInteger::parse_decimal(w.as_str()) {
            Ok(v) => Ok(Some((Token::Int(v), e))),
            Err(_) => unreached(),
        }
    } else if ident_start(c) {
        let e = ident_end_of(cs, k + 1);
        let w = string_of(cs, k, e);
        match reserved(w.as_str()) {
            Some(t) => Ok(Some((t, e))),
            None => {
                if interner.len() + 2 >= u32::MAX as usize {
                    return Err(NamesExhausted);
                }
                let id = interner.get_or_intern(w.as_str());
                proof {
                    if names0.contains(w@) {
                        let i = choose|i: nat| i < names0.len() && names0[i as int] == w@;
                        assert(names0[id.0 as int] == w@);
                        assert(i == id.0);
                    }
                }
                Ok(Some((Token::Ident(id), e)))
            },
        }
    } else if k + 1 < n && ctrl_of_two(c, cs[k + 1]).is_some() {
        match ctrl_of_two(c, cs[k + 1]) {
            Some(x) => Ok(Some((Token::Ctrl(x), k + 2))),
            None => Ok(None),
        }
    } else if ctrl_of_one(c).is_some() {
        match ctrl_of_one(c) {
            Some(x) => Ok(Some((Token::Ctrl(x), k + 1))),
            None => Ok(None),
        }
    } else if c == '(' || c == '{' || c == '[' {
        let errs_len = errors.len();
        let inner = tokens_from(cs, ctx, k + 1, interner, errors);
        let (toks, stop) = match inner {
            Ok(x) => x,
            Err(x) => return Err(x),
        };
        let close = if c == '(' {
            ')'
        } else if c == '{' {
            '}'
        } else {
            ']'
        };
        if stop < n && cs[stop] == close {
            Ok(Some((make_group(c, toks), stop + 1)))
        } else {
            proof {
                assert(errors_model(errors@).len() == errors@.len());
                assert(errors_model(old(errors)@).len() == old(errors)@.len());
                lemma_errors_take(errors@, errs_len as int);
            }
            errors.truncate(errs_len);
            assert(errors_model(errors@) =~= errs0);
            match skip_group_at(cs, k) {
                Some(e) => {
                    let p = pad_from(cs, stop);
                    let expected = if c == '(' {
                        "')'"
                    } else if c == '{' {
                        "'}'"
                    } else {
                        "']'"
                    };
                    proof {
                        reveal_strlit("')'");
                        reveal_strlit("'}'");
                        reveal_strlit("']'");
                        assert(expected@ =~= seq!['\'', closer_of(c), '\'']);
                    }
                    let reason = found_expected_text(cs, p, expected);
                    let end = if p < n {
                        p + 1
                    } else {
                        p
                    };
                    let d = Diagnostic::ParserError(
                        ParserError { reason, span: Span { context: ctx, start: p, end } },
                    );
                    proof {
                        lemma_errors_push(errors@, d);
                    }
                    errors.push(d);
                    let mut inner_error: Vec<(Token, Span)> = Vec::new();
                    inner_error.push((Token::Error, Span { context: ctx, start: k, end: e }));
                    proof {
                        lemma_tokens_model(inner_error@);
                        assert(tokens_model(inner_error@) =~= seq![
                            (Tok::Error, Span { context: ctx, start: k, end: e }),
                        ]);
                    }
                    Ok(Some((make_group(c, inner_error), e)))
                },
                None => Ok(None),
            }
        }
    } else {
        Ok(None)
    }
}

/// The tokens read from `i` on, and where reading stopped; errors are
/// pushed on `errors`.
fn tokens_from(
    cs: &Vec<char>,
    ctx: Ctx,
    i: usize,
    interner: &mut Interner,
    errors: &mut Vec<Diagnostic>,
) -> (r: Result<(Vec<(Token, Span)>, usize), NamesExhausted>)
    requires
        i <= cs@.len(),
        old(interner).wf(),
    ensures
        final(interner).wf(),
        final(interner).names() == lex_seq(cs@, ctx, i as nat, old(interner).names()).names,
        r is Err <==> lex_seq(cs@, ctx, i as nat, old(interner).names()).exhausted,
        old(interner).names().len() <= final(interner).names().len(),
        r matches Ok((v, stop)) ==> {
            &&& i <= stop <= cs@.len()
            &&& forall|j: int| 0 <= j < v@.len() ==> tok_names_held(#[trigger] token_model(v@[j].0), *final(interner))
            &&& tokens_model(v@) == lex_seq(cs@, ctx, i as nat, old(interner).names()).toks
            &&& stop as nat == lex_seq(cs@, ctx, i as nat, old(interner).names()).stop
            &&& errors_model(final(errors)@) == errors_model(old(errors)@) + lex_seq(
                cs@,
                ctx,
                i as nat,
                old(interner).names(),
            ).errors
        },
    decreases cs@.len() - i, 1nat,
{
    let ghost full = lex_seq(cs@, ctx, i as nat, interner.names());
    let ghost errs0 = errors_model(errors@);
    let ghost mut acc: Seq<Failure> = Seq::empty();
    let mut toks: Vec<(Token, Span)> = Vec::new();
    let mut cur = i;
    assert(tokens_model(toks@) + full.toks =~= full.toks);
    assert(errs0 + Seq::<Failure>::empty() =~= errs0);
    loop
        invariant
            i <= cur <= cs@.len(),
            interner.wf(),
            full == lex_seq(cs@, ctx, i as nat, old(interner).names()),
            full.exhausted == lex_seq(cs@, ctx, cur as nat, interner.names()).exhausted,
            full.names == lex_seq(cs@, ctx, cur as nat, interner.names()).names,
            full.stop == lex_seq(cs@, ctx, cur as nat, interner.names()).stop,
            full.toks == tokens_model(toks@) + lex_seq(cs@, ctx, cur as nat, interner.names()).toks,
            full.errors == acc + lex_seq(cs@, ctx, cur as nat, interner.names()).errors,
            errors_model(errors@) == errs0 + acc,
            errs0 == errors_model(old(errors)@),
            old(interner).names().len() <= interner.names().len(),
            forall|j: int| 0 <= j < toks@.len() ==> tok_names_held(#[trigger] token_model(toks@[j].0), *interner),
        decreases cs@.len() - cur,
    {
        let ghost names_now = interner.names();
        let ghost here = lex_seq(cs@, ctx, cur as nat, names_now);
        let k = pad_from(cs, cur);
        if k >= cs.len() {
            assert(here.toks =~= Seq::<(Tok, Span)>::empty());
            assert(tokens_model(toks@) + here.toks =~= tokens_model(toks@));
            assert(acc + here.errors =~= acc);
            return Ok((toks, cur));
        }
        let ghost step = lex_token(cs@, ctx, k as nat, names_now);
        let ghost errs_before = errors_model(errors@);
        let t = token_at(cs, ctx, k, interner, errors);
        match t {
            Err(x) => return Err(x),
            Ok(None) => {
                assert(errors_model(errors@) == errs_before + step.errors);
                assert(step.errors =~= Seq::<Failure>::empty());
                assert(here.toks =~= Seq::<(Tok, Span)>::empty());
                assert(tokens_model(toks@) + here.toks =~= tokens_model(toks@));
                assert(acc + here.errors =~= acc);
                assert(errors_model(errors@) =~= errs0 + acc);
                return Ok((toks, cur));
            },
            Ok(Some((tok, e))) => {
                let span = Span { context: ctx, start: k, end: e };
                let ghost tm = token_model(tok);
                let ghost old_toks = toks@;
                toks.push((tok, span));
                let next = pad_from(cs, e);
                proof {
                    assert(toks@.drop_last() =~= old_toks);
                    let rest = lex_seq(cs@, ctx, next as nat, interner.names());
                    assert(here.toks == seq![(tm, span)] + rest.toks);
                    assert(tokens_model(toks@) + rest.toks =~= tokens_model(old_toks) + here.toks);
                    assert(errors_model(errors@) == errs_before + step.errors);
                    acc = acc + step.errors;
                    assert(full.errors =~= acc + rest.errors);
                }
                cur = next;
            },
        }
    }
}

/// Reads the tokens of the characters `cs`, with spans counting characters.
fn lex_chars(cs: &Vec<char>, file_id: usize, interner: &mut Interner) -> (r: Result<(Option<Tokens>, Vec<Diagnostic>), NamesExhausted>)
    requires
        old(interner).wf(),
    ensures
        final(interner).wf(),
        r matches Ok((Some(t), _)) ==> forall|j: int| 0 <= j < t.0@.len() ==> tok_names_held(#[trigger] token_model(t.0@[j].0), *final(interner)),
        match lex(cs@, Ctx(file_id), old(interner).names()) {
            None => r is Err,
            Some((toks, errs, names)) => match r {
                Ok((t, d)) => {
                    &&& final(interner).names() == names
                    &&& errors_model(d@) == errs
                    &&& match (t, toks) {
                        (Some(t), Some(toks)) => t@ == toks,
                        (None, None) => true,
                        _ => false,
                    }
                },
                Err(_) => false,
            },
        },
{
    let ctx = Ctx(file_id);
    let mut errors: Vec<Diagnostic> = Vec::new();
    assert(errors_model(errors@) =~= Seq::<Failure>::empty());
    let r = tokens_from(cs, ctx, 0, interner, &mut errors);
    match r {
        Err(x) => Err(x),
        Ok((toks, stop)) => {
            assert(errors_model(errors@) =~= lex_seq(cs@, ctx, 0, old(interner).names()).errors);
            if stop == cs.len() {
                Ok((Some(Tokens(toks)), errors))
            } else {
                let p = pad_from(cs, stop);
                let expected = if p < cs.len() {
                    "end of input"
                } else {
                    "a token"
                };
                let reason = found_expected_text(cs, p, expected);
                let end = if p < cs.len() {
                    p + 1
                } else {
                    p
                };
                let d = Diagnostic::ParserError(ParserError { reason, span: Span { context: ctx, start: p, end } });
                proof {
                    lemma_errors_push(errors@, d);
                }
                errors.push(d);
                Ok((None, errors))
            }
        },
    }
}

/// Reads the tokens of `source` (file `file_id`), interning identifiers in
/// `interner`; spans count bytes of the text. Gives the tokens, or `None`
/// when some text could not be read, with the errors found; bracket groups
/// whose contents cannot be read but whose brackets balance become a group
/// holding one error token.
pub fn lexer(source: &str, file_id: usize, interner: &mut Interner) -> (r: Result<(Option<Tokens>, Vec<Diagnostic>), NamesExhausted>)
    requires
        old(interner).wf(),
        encode_utf8(source@).len() <= usize::MAX,
    ensures
        final(interner).wf(),
        r matches Ok((Some(t), _)) ==> forall|j: int| 0 <= j < t.0@.len() ==> tok_names_held(#[trigger] token_model(t.0@[j].0), *final(interner)),
        match lexed(source@, Ctx(file_id), old(interner).names()) {
            None => r is Err,
            Some((toks, errs, names)) => match r {
                Ok((t, d)) => {
                    &&& final(interner).names() == names
                    &&& errors_model(d@) == errs
                    &&& match (t, toks) {
                        (Some(t), Some(toks)) => t@ == toks,
                        (None, None) => true,
                        _ => false,
                    }
                },
                Err(_) => false,
            },
        },
{
    let cs = chars_of(source);
    let offsets = byte_offsets(&cs, source.len());
    match lex_chars(&cs, file_id, interner) {
        Err(x) => Err(x),
        Ok((t, d)) => {
            proof {
                lemma_seq_errors_parse(cs@, Ctx(file_id), 0, old(interner).names());
                let errs = (lex(cs@, Ctx(file_id), old(interner).names())->0).1;
                assert(all_parse(errs));
                assert forall|j: int| 0 <= j < d@.len() implies (#[trigger] d@[j]) is ParserError by {
                    assert(errors_model(d@)[j] == d@[j]@);
                    assert(errs[j] is Parse);
                }
            }
            let d2 = errors_to_bytes(d, &offsets, Ghost(cs@));
            match t {
                Some(t) => {
                    let t2 = tokens_to_bytes(&t.0, &offsets, Ghost(cs@));
                    proof {
                        lemma_tokens_model(t.0@);
                        lemma_tokens_model(t2@);
                        lemma_toks_bytes(cs@, tokens_model(t.0@));
                        assert forall|j: int| 0 <= j < t2@.len() implies tok_names_held(
                            #[trigger] token_model(t2@[j].0),
                            *interner,
                        ) by {
                            assert(tokens_model(t2@)[j] == toks_bytes(cs@, tokens_model(t.0@))[j]);
                            assert(token_model(t2@[j].0) == tok_bytes(cs@, token_model(t.0@[j].0)));
                            assert(tok_names_held(token_model(t.0@[j].0), *interner));
                        }
                    }
                    Ok((Some(Tokens(t2)), d2))
                },
                None => Ok((None, d2)),
            }
        },
    }
}

} // verus!

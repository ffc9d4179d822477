use vstd::prelude::*;
use crate::integer::{decimal_text, BigInteger};
use crate::interpreter::value::{bool_string, bool_text};
use crate::ir::{Ident, Interner};
use crate::span::Span;
use crate::text::concat;

verus! {

/// A list of tokens with their spans.
#[derive(Debug, PartialEq, Eq)]
pub struct Tokens(pub Vec<(Token, Span)>);

/// A token. Bracketed groups are single tokens holding their contents.
#[derive(Debug, PartialEq, Eq)]
pub enum Token {
    /// A group whose contents could not be read.
    Error,
    Parentheses(Tokens),
    CurlyBraces(Tokens),
    SquareBrackets(Tokens),
    Ident(Ident),
    Unit,
    Int(BigInteger),
    Bool(bool),
    Kw(Kw),
    Ctrl(Ctrl),
}

#[derive(Clone, Copy, Debug, PartialEq, Eq, Structural)]
pub enum Kw {
    Let,
    In,
    If,
    Then,
    Else,
    Fn,
}

#[derive(Clone, Copy, Debug, PartialEq, Eq, Structural)]
pub enum Ctrl {
    DoubleLt,
    DoubleGt,
    Arrow,
    DoubleEquals,
    NotEquals,
    LessThanEquals,
    GreaterThanEquals,
    DoubleColon,
    DoubleAmpersand,
    DoublePipe,
    Semicolon,
    Plus,
    Minus,
    Star,
    Slash,
    Percent,
    Dot,
    Tilde,
    Ampersand,
    Caret,
    Pipe,
    Comma,
    Colon,
    LessThan,
    GreaterThan,
    Equals,
    Bang,
}

/// The mathematical form of a token: integers as `int`, groups as `Seq`.
pub enum Tok {
    Error,
    Parentheses(Seq<(Tok, Span)>),
    CurlyBraces(Seq<(Tok, Span)>),
    SquareBrackets(Seq<(Tok, Span)>),
    Ident(Ident),
    Unit,
    Int(int),
    Bool(bool),
    Kw(Kw),
    Ctrl(Ctrl),
}

pub open spec fn token_model(t: Token) -> Tok
    decreases t,
{
    match t {
        Token::Error => Tok::Error,
        Token::Parentheses(ts) => {
            proof {
                assert(decreases_to!(ts => ts.0));
                assert(decreases_to!(ts.0 => ts.0@));
            }
            Tok::Parentheses(tokens_model(ts.0@))
        },
        Token::CurlyBraces(ts) => {
            proof {
                assert(decreases_to!(ts => ts.0));
                assert(decreases_to!(ts.0 => ts.0@));
            }
            Tok::CurlyBraces(tokens_model(ts.0@))
        },
        Token::SquareBrackets(ts) => {
            proof {
                assert(decreases_to!(ts => ts.0));
                assert(decreases_to!(ts.0 => ts.0@));
            }
            Tok::SquareBrackets(tokens_model(ts.0@))
        },
        Token::Ident(i) => Tok::Ident(i),
        Token::Unit => Tok::Unit,
        Token::Int(n) => Tok::Int(n@),
        Token::Bool(b) => Tok::Bool(b),
        Token::Kw(k) => Tok::Kw(k),
        Token::Ctrl(c) => Tok::Ctrl(c),
    }
}

pub open spec fn tokens_model(s: Seq<(Token, Span)>) -> Seq<(Tok, Span)>
    decreases s,
{
    if s.len() == 0 {
        Seq::empty()
    } else {
        proof {
            assert(decreases_to!(s => s[s.len() - 1]));
        }
        tokens_model(s.drop_last()).push((token_model(s.last().0), s.last().1))
    }
}

pub proof fn lemma_tokens_model(s: Seq<(Token, Span)>)
    ensures
        tokens_model(s).len() == s.len(),
        forall|i: int|
            0 <= i < s.len() ==> #[trigger] tokens_model(s)[i] == (token_model(s[i].0), s[i].1),
    decreases s.len(),
{
    if s.len() > 0 {
        lemma_tokens_model(s.drop_last());
        assert forall|i: int| 0 <= i < s.len() implies #[trigger] tokens_model(s)[i] == (
            token_model(s[i].0),
            s[i].1,
        ) by {
            if i < s.len() - 1 {
                assert(s.drop_last()[i] == s[i]);
            }
        }
    }
}

impl View for Tokens {
    type V = Seq<(Tok, Span)>;

    open spec fn view(&self) -> Seq<(Tok, Span)> {
        tokens_model(self.0@)
    }
}

/// The text of a keyword.
pub open spec fn kw_text(k: Kw) -> Seq<char> {
    match k {
        Kw::Let => seq!['l', 'e', 't'],
        Kw::In => seq!['i', 'n'],
        Kw::If => seq!['i', 'f'],
        Kw::Then => seq!['t', 'h', 'e', 'n'],
        Kw::Else => seq!['e', 'l', 's', 'e'],
        Kw::Fn => seq!['f', 'n'],
    }
}

/// The text of a control symbol.
pub open spec fn ctrl_text(c: Ctrl) -> Seq<char> {
    match c {
        Ctrl::DoubleLt => seq!['<', '<'],
        Ctrl::DoubleGt => seq!['>', '>'],
        Ctrl::Arrow => seq!['-', '>'],
        Ctrl::DoubleEquals => seq!['=', '='],
        Ctrl::NotEquals => seq!['!', '='],
        Ctrl::LessThanEquals => seq!['<', '='],
        Ctrl::GreaterThanEquals => seq!['>', '='],
        Ctrl::DoubleColon => seq![':', ':'],
        Ctrl::DoubleAmpersand => seq!['&', '&'],
        Ctrl::DoublePipe => seq!['|', '|'],
        Ctrl::Semicolon => seq![';'],
        Ctrl::Plus => seq!['+'],
        Ctrl::Minus => seq!['-'],
        Ctrl::Star => seq!['*'],
        Ctrl::Slash => seq!['/'],
        Ctrl::Percent => seq!['%'],
        Ctrl::Dot => seq!['.'],
        Ctrl::Tilde => seq!['~'],
        Ctrl::Ampersand => seq!['&'],
        Ctrl::Caret => seq!['^'],
        Ctrl::Pipe => seq!['|'],
        Ctrl::Comma => seq![','],
        Ctrl::Colon => seq![':'],
        Ctrl::LessThan => seq!['<'],
        Ctrl::GreaterThan => seq!['>'],
        Ctrl::Equals => seq!['='],
        Ctrl::Bang => seq!['!'],
    }
}

/// Different control symbols show as different texts.
pub proof fn law_ctrl_texts_differ(a: Ctrl, b: Ctrl)
    requires
        a != b,
    ensures
        ctrl_text(a) != ctrl_text(b),
{
    if ctrl_text(a) == ctrl_text(b) {
        assert(ctrl_text(a).len() == ctrl_text(b).len());
        assert(ctrl_text(a)[0] == ctrl_text(b)[0]);
        if ctrl_text(a).len() == 2 {
            assert(ctrl_text(a)[1] == ctrl_text(b)[1]);
        }
    }
}

/// The text that shows a token.
pub open spec fn tok_text(t: Tok, names: Seq<Seq<char>>) -> Seq<char> {
    match t {
        Tok::Error => seq!['<', 'e', 'r', 'r', 'o', 'r', '>'],
        Tok::Parentheses(_) => seq!['(', '.', '.', '.', ')'],
        Tok::CurlyBraces(_) => seq!['{', '.', '.', '.', '}'],
        Tok::SquareBrackets(_) => seq!['[', '.', '.', '.', ']'],
        Tok::Ident(i) => names[i.0 as int],
        Tok::Unit => seq!['(', ')'],
        Tok::Int(n) => decimal_text(n),
        Tok::Bool(b) => bool_text(b),
        Tok::Kw(k) => kw_text(k),
        Tok::Ctrl(c) => ctrl_text(c),
    }
}

impl Kw {
    /// The text of the keyword.
    pub fn text(&self) -> (r: &'static str)
        ensures
            r@ == kw_text(*self),
    {
        match self {
            Kw::Let => {
                proof { reveal_strlit("let"); }
                "let"
            },
            Kw::In => {
                proof { reveal_strlit("in"); }
                "in"
            },
            Kw::If => {
                proof { reveal_strlit("if"); }
                "if"
            },
            Kw::Then => {
                proof { reveal_strlit("then"); }
                "then"
            },
            Kw::Else => {
                proof { reveal_strlit("else"); }
                "else"
            },
            Kw::Fn => {
                proof { reveal_strlit("fn"); }
                "fn"
            },
        }
    }
}

impl Ctrl {
    /// The text of the control symbol.
    pub fn text(&self) -> (r: &'static str)
        ensures
            r@ == ctrl_text(*self),
    {
        match self {
            Ctrl::DoubleLt => { proof { reveal_strlit("<<"); } "<<" },
            Ctrl::DoubleGt => { proof { reveal_strlit(">>"); } ">>" },
            Ctrl::Arrow => { proof { reveal_strlit("->"); } "->" },
            Ctrl::DoubleEquals => { proof { reveal_strlit("=="); } "==" },
            Ctrl::NotEquals => { proof { reveal_strlit("!="); } "!=" },
            Ctrl::LessThanEquals => { proof { reveal_strlit("<="); } "<=" },
            Ctrl::GreaterThanEquals => { proof { reveal_strlit(">="); } ">=" },
            Ctrl::DoubleColon => { proof { reveal_strlit("::"); } "::" },
            Ctrl::DoubleAmpersand => { proof { reveal_strlit("&&"); } "&&" },
            Ctrl::DoublePipe => { proof { reveal_strlit("||"); } "||" },
            Ctrl::Semicolon => { proof { reveal_strlit(";"); } ";" },
            Ctrl::Plus => { proof { reveal_strlit("+"); } "+" },
            Ctrl::Minus => { proof { reveal_strlit("-"); } "-" },
            Ctrl::Star => { proof { reveal_strlit("*"); } "*" },
            Ctrl::Slash => { proof { reveal_strlit("/"); } "/" },
            Ctrl::Percent => { proof { reveal_strlit("%"); } "%" },
            Ctrl::Dot => { proof { reveal_strlit("."); } "." },
            Ctrl::Tilde => { proof { reveal_strlit("~"); } "~" },
            Ctrl::Ampersand => { proof { reveal_strlit("&"); } "&" },
            Ctrl::Caret => { proof { reveal_strlit("^"); } "^" },
            Ctrl::Pipe => { proof { reveal_strlit("|"); } "|" },
            Ctrl::Comma => { proof { reveal_strlit(","); } "," },
            Ctrl::Colon => { proof { reveal_strlit(":"); } ":" },
            Ctrl::LessThan => { proof { reveal_strlit("<"); } "<" },
            Ctrl::GreaterThan => { proof { reveal_strlit(">"); } ">" },
            Ctrl::Equals => { proof { reveal_strlit("="); } "=" },
            Ctrl::Bang => { proof { reveal_strlit("!"); } "!" },
        }
    }
}

/// Whether every identifier in the token is held by the interner.
pub open spec fn tok_names_held(t: Tok, interner: Interner) -> bool {
    match t {
        Tok::Ident(i) => interner.holds(i),
        _ => true,
    }
}

impl Token {
    /// The text that shows the token.
    pub fn display(&self, interner: &Interner) -> (r: String)
        requires
            interner.wf(),
            tok_names_held(token_model(*self), *interner),
        ensures
            r@ == tok_text(token_model(*self), interner.names()),
    {
        match self {
            Token::Error => {
                proof { reveal_strlit("<error>"); }
                String::from_str("<error>")
            },
            Token::Parentheses(_) => {
                proof { reveal_strlit("(...)"); }
                String::from_str("(...)")
            },
            Token::CurlyBraces(_) => {
                proof { reveal_strlit("{...}"); }
                String::from_str("{...}")
            },
            Token::SquareBrackets(_) => {
                proof { reveal_strlit("[...]"); }
                String::from_str("[...]")
            },
            Token::Ident(i) => String::from_str(i.resolve(interner)),
            Token::Unit => {
                proof { reveal_strlit("()"); }
                String::from_str("()")
            },
            Token::Int(n) => n.to_decimal(),
            Token::Bool(b) => bool_string(*b),
            Token::Kw(k) => String::from_str(k.text()),
            Token::Ctrl(c) => String::from_str(c.text()),
        }
    }
}

} // verus!

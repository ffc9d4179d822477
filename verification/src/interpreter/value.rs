use vstd::prelude::*;
use crate::integer::{decimal_text, BigInteger};
use crate::interpreter::env::Env;
use crate::ir::ast::{spanned_term, Expression, Term};
use crate::ir::{Ident, Interner};
use crate::span::Spanned;
use crate::text::concat;

verus! {

/// A function provided by the language itself.
#[derive(Clone, Copy, Debug, PartialEq, Eq, Structural)]
pub enum Builtin {
    /// Prints its argument on a line of its own and gives `()`.
    Print,
}

/// A runtime value.
#[derive(Debug)]
pub enum Value {
    Unit,
    Int(BigInteger),
    Bool(bool),
    /// A function of one parameter with the environment it was made in.
    Function { param: Ident, env: Env, body: Spanned<Expression> },
    Builtin(Builtin),
}

/// The mathematical form of a value.
pub enum Val {
    Unit,
    Int(int),
    Bool(bool),
    Closure(Ident, Seq<(Ident, Val)>, Spanned<Term>),
    Builtin(Builtin),
}

/// The mathematical form of a value.
pub open spec fn value_model(v: Value) -> Val
    decreases v,
{
    match v {
        Value::Unit => Val::Unit,
        Value::Int(n) => Val::Int(n@),
        Value::Bool(b) => Val::Bool(b),
        Value::Function { param, env, body } => {
            proof {
                assert(decreases_to!(env => env.0));
                assert(decreases_to!(env.0 => env.0@));
            }
            Val::Closure(param, env_model(env.0@), spanned_term(body))
        },
        Value::Builtin(b) => Val::Builtin(b),
    }
}

/// The mathematical form of a list of bindings.
pub open spec fn env_model(s: Seq<(Ident, Value)>) -> Seq<(Ident, Val)>
    decreases s,
{
    if s.len() == 0 {
        Seq::empty()
    } else {
        proof {
            assert(decreases_to!(s => s[s.len() - 1]));
        }
        env_model(s.drop_last()).push((s.last().0, value_model(s.last().1)))
    }
}

/// `env_model` maps each binding on its own.
pub proof fn lemma_env_model(s: Seq<(Ident, Value)>)
    ensures
        env_model(s).len() == s.len(),
        forall|i: int|
            0 <= i < s.len() ==> #[trigger] env_model(s)[i] == (s[i].0, value_model(s[i].1)),
    decreases s.len(),
{
    if s.len() > 0 {
        lemma_env_model(s.drop_last());
        assert forall|i: int| 0 <= i < s.len() implies #[trigger] env_model(s)[i] == (
            s[i].0,
            value_model(s[i].1),
        ) by {
            if i < s.len() - 1 {
                assert(s.drop_last()[i] == s[i]);
            }
        }
    }
}

/// `env_model` of a concatenation is the concatenation of the models.
pub proof fn lemma_env_model_add(a: Seq<(Ident, Value)>, b: Seq<(Ident, Value)>)
    ensures
        env_model(a + b) == env_model(a) + env_model(b),
{
    lemma_env_model(a);
    lemma_env_model(b);
    lemma_env_model(a + b);
    assert(env_model(a + b) =~= env_model(a) + env_model(b));
}

/// `env_model` of a prefix is the prefix of the model.
pub proof fn lemma_env_model_take(s: Seq<(Ident, Value)>, n: int)
    requires
        0 <= n <= s.len(),
    ensures
        env_model(s.take(n)) == env_model(s).take(n),
{
    lemma_env_model(s);
    lemma_env_model(s.take(n));
    assert(env_model(s.take(n)) =~= env_model(s).take(n));
}

/// Two lists of bindings with the same models pointwise have the same model.
pub proof fn lemma_env_model_pointwise(a: Seq<(Ident, Value)>, b: Seq<(Ident, Value)>)
    requires
        a.len() == b.len(),
        forall|i: int|
            0 <= i < a.len() ==> a[i].0 == b[i].0 && value_model(a[i].1) == value_model(
                #[trigger] b[i].1,
            ),
    ensures
        env_model(a) == env_model(b),
{
    lemma_env_model(a);
    lemma_env_model(b);
    assert(env_model(a) =~= env_model(b));
}

/// The text that printing a value shows.
pub open spec fn value_text(v: Val, names: Seq<Seq<char>>) -> Seq<char> {
    match v {
        Val::Unit => seq!['(', ')'],
        Val::Int(n) => decimal_text(n),
        Val::Bool(b) => bool_text(b),
        Val::Closure(param, _, _) => seq!['f', 'n', ' ', '('] + names[param.0 as int] + seq![
            ')',
            ' ',
            '=',
            ' ',
            '<',
            'e',
            'x',
            'p',
            'r',
            '>',
        ],
        Val::Builtin(_) => seq!['<', 'b', 'u', 'i', 'l', 't', 'i', 'n', '>'],
    }
}

pub open spec fn bool_text(b: bool) -> Seq<char> {
    if b {
        seq!['t', 'r', 'u', 'e']
    } else {
        seq!['f', 'a', 'l', 's', 'e']
    }
}

/// The identifiers that a value mentions as closure parameters, directly.
pub open spec fn value_names_held(v: Val, interner: Interner) -> bool {
    match v {
        Val::Closure(param, _, _) => interner.holds(param),
        _ => true,
    }
}

/// "true" or "false".
pub fn bool_string(b: bool) -> (r: String)
    ensures
        r@ == bool_text(b),
{
    if b {
        let r = String::from_str("true");
        proof {
            reveal_strlit("true");
        }
        r
    } else {
        let r = String::from_str("false");
        proof {
            reveal_strlit("false");
        }
        r
    }
}

impl Value {
    /// The text that printing the value shows.
    pub fn display(&self, interner: &Interner) -> (r: String)
        requires
            interner.wf(),
            value_names_held(value_model(*self), *interner),
        ensures
            r@ == value_text(value_model(*self), interner.names()),
    {
        match self {
            Value::Unit => {
                let r = String::from_str("()");
                proof {
                    reveal_strlit("()");
                }
                r
            },
            Value::Int(n) => n.to_decimal(),
            Value::Bool(b) => bool_string(*b),
            Value::Function { param, env: _, body: _ } => {
                let head = concat("fn (", param.resolve(interner));
                let r = concat(head.as_str(), ") = <expr>");
                proof {
                    reveal_strlit("fn (");
                    reveal_strlit(") = <expr>");
                    assert(r@ =~= value_text(value_model(*self), interner.names()));
                }
                r
            },
            Value::Builtin(_) => {
                let r = String::from_str("<builtin>");
                proof {
                    reveal_strlit("<builtin>");
                }
                r
            },
        }
    }
}

/// A copy of a value.
pub fn duplicate_value(v: &Value) -> (r: Value)
    ensures
        value_model(r) == value_model(*v),
    decreases v,
{
    match v {
        Value::Unit => Value::Unit,
        Value::Int(n) => Value::Int(n.duplicate()),
        Value::Bool(b) => Value::Bool(*b),
        Value::Function { param, env, body } => {
            let env2 = duplicate_env(env);
            let body2 = Spanned { inner: body.inner.duplicate(), span: body.span };
            Value::Function { param: *param, env: env2, body: body2 }
        },
        Value::Builtin(b) => Value::Builtin(*b),
    }
}

/// A copy of an environment.
pub fn duplicate_env(e: &Env) -> (r: Env)
    ensures
        env_model(r.0@) == env_model(e.0@),
    decreases e,
{
    let mut out: Vec<(Ident, Value)> = Vec::new();
    let mut i: usize = 0;
    while i < e.0.len()
        invariant
            i <= e.0@.len(),
            out@.len() == i,
            forall|j: int|
                0 <= j < i ==> out@[j].0 == e.0@[j].0 && value_model(#[trigger] out@[j].1)
                    == value_model(e.0@[j].1),
        decreases e.0@.len() - i,
    {
        proof {
            assert(decreases_to!(e => e.0));
            vstd::std_specs::vec::axiom_vec_index_decreases(e.0, i as int);
            assert(decreases_to!(e.0 => e.0[i as int]));
            assert(decreases_to!(e.0[i as int] => e.0[i as int].1));
        }
        let v = duplicate_value(&e.0[i].1);
        out.push((e.0[i].0, v));
        i = i + 1;
    }
    proof {
        lemma_env_model_pointwise(out@, e.0@);
    }
    Env(out)
}

} // verus!

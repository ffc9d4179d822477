use vstd::prelude::*;
use crate::integer::decimal_text;
use crate::interpreter::value::{bool_string, bool_text};
use crate::ir::ast::{
    Ast, Expression, InfixOp, ModuleExpression, ModuleTerm, PrefixOp, Term, module_term, term,
};
use crate::ir::{Ident, Interner};
use crate::span::Spanned;
use crate::text::concat;

verus! {

// The labels and children of the nodes of a program's syntax tree, as a tree
// printer shows them: one label per node, its children below it.

/// The name of a prefix operator's variant.
pub open spec fn prefix_name(op: PrefixOp) -> Seq<char> {
    match op {
        PrefixOp::Pos => "Pos"@,
        PrefixOp::Neg => "Neg"@,
        PrefixOp::LogicalNot => "LogicalNot"@,
        PrefixOp::BitwiseNot => "BitwiseNot"@,
    }
}

/// The name of a binary operator's variant.
pub open spec fn infix_name(op: InfixOp) -> Seq<char> {
    match op {
        InfixOp::Mul => "Mul"@,
        InfixOp::Div => "Div"@,
        InfixOp::Modulo => "Modulo"@,
        InfixOp::Add => "Add"@,
        InfixOp::Sub => "Sub"@,
        InfixOp::LeftBitshift => "LeftBitshift"@,
        InfixOp::RightBitshift => "RightBitshift"@,
        InfixOp::LessThan => "LessThan"@,
        InfixOp::GreaterThan => "GreaterThan"@,
        InfixOp::LessThanEquals => "LessThanEquals"@,
        InfixOp::GreaterThanEquals => "GreaterThanEquals"@,
        InfixOp::Equal => "Equal"@,
        InfixOp::NotEqual => "NotEqual"@,
        InfixOp::BitwiseAnd => "BitwiseAnd"@,
        InfixOp::BitwiseXor => "BitwiseXor"@,
        InfixOp::BitwiseOr => "BitwiseOr"@,
        InfixOp::LogicalAnd => "LogicalAnd"@,
        InfixOp::LogicalOr => "LogicalOr"@,
    }
}

/// The length, first and last character of a name.
spec fn name_shape(name: Seq<char>) -> (int, char, char) {
    (name.len() as int, name[0], name[name.len() - 1])
}

/// The shape of each binary operator's name.
proof fn lemma_infix_name_shape(op: InfixOp)
    ensures
        name_shape(infix_name(op)) == match op {
            InfixOp::Mul => (3int, 'M', 'l'),
            InfixOp::Div => (3int, 'D', 'v'),
            InfixOp::Modulo => (6int, 'M', 'o'),
            InfixOp::Add => (3int, 'A', 'd'),
            InfixOp::Sub => (3int, 'S', 'b'),
            InfixOp::LeftBitshift => (12int, 'L', 't'),
            InfixOp::RightBitshift => (13int, 'R', 't'),
            InfixOp::LessThan => (8int, 'L', 'n'),
            InfixOp::GreaterThan => (11int, 'G', 'n'),
            InfixOp::LessThanEquals => (14int, 'L', 's'),
            InfixOp::GreaterThanEquals => (17int, 'G', 's'),
            InfixOp::Equal => (5int, 'E', 'l'),
            InfixOp::NotEqual => (8int, 'N', 'l'),
            InfixOp::BitwiseAnd => (10int, 'B', 'd'),
            InfixOp::BitwiseXor => (10int, 'B', 'r'),
            InfixOp::BitwiseOr => (9int, 'B', 'r'),
            InfixOp::LogicalAnd => (10int, 'L', 'd'),
            InfixOp::LogicalOr => (9int, 'L', 'r'),
        },
{
    match op {
        InfixOp::Mul => reveal_strlit("Mul"),
        InfixOp::Div => reveal_strlit("Div"),
        InfixOp::Modulo => reveal_strlit("Modulo"),
        InfixOp::Add => reveal_strlit("Add"),
        InfixOp::Sub => reveal_strlit("Sub"),
        InfixOp::LeftBitshift => reveal_strlit("LeftBitshift"),
        InfixOp::RightBitshift => reveal_strlit("RightBitshift"),
        InfixOp::LessThan => reveal_strlit("LessThan"),
        InfixOp::GreaterThan => reveal_strlit("GreaterThan"),
        InfixOp::LessThanEquals => reveal_strlit("LessThanEquals"),
        InfixOp::GreaterThanEquals => reveal_strlit("GreaterThanEquals"),
        InfixOp::Equal => reveal_strlit("Equal"),
        InfixOp::NotEqual => reveal_strlit("NotEqual"),
        InfixOp::BitwiseAnd => reveal_strlit("BitwiseAnd"),
        InfixOp::BitwiseXor => reveal_strlit("BitwiseXor"),
        InfixOp::BitwiseOr => reveal_strlit("BitwiseOr"),
        InfixOp::LogicalAnd => reveal_strlit("LogicalAnd"),
        InfixOp::LogicalOr => reveal_strlit("LogicalOr"),
    }
}

/// The shape of each prefix operator's name.
proof fn lemma_prefix_name_shape(op: PrefixOp)
    ensures
        name_shape(prefix_name(op)) == match op {
            PrefixOp::Pos => (3int, 'P', 's'),
            PrefixOp::Neg => (3int, 'N', 'g'),
            PrefixOp::LogicalNot => (10int, 'L', 't'),
            PrefixOp::BitwiseNot => (10int, 'B', 't'),
        },
{
    match op {
        PrefixOp::Pos => reveal_strlit("Pos"),
        PrefixOp::Neg => reveal_strlit("Neg"),
        PrefixOp::LogicalNot => reveal_strlit("LogicalNot"),
        PrefixOp::BitwiseNot => reveal_strlit("BitwiseNot"),
    }
}

/// Operators are told apart by their names: two different binary operators,
/// or two different prefix operators, never show the same name, so the label
/// of an operator node says which operator it applies.
pub proof fn law_operator_names_distinct(a: InfixOp, b: InfixOp, p: PrefixOp, q: PrefixOp)
    ensures
        a != b ==> infix_name(a) != infix_name(b),
        p != q ==> prefix_name(p) != prefix_name(q),
{
    lemma_infix_name_shape(a);
    lemma_infix_name_shape(b);
    lemma_prefix_name_shape(p);
    lemma_prefix_name_shape(q);
}

/// An operator shows as the name of its variant, letter by letter, as the
/// tree printer of the syntax tree writes it (`GreaterThan` for `>`, ...).
pub proof fn law_operator_names_spell_variants(a: InfixOp, p: PrefixOp)
    ensures
        infix_name(a) =~= match a {
            InfixOp::Mul => seq!['M', 'u', 'l'],
            InfixOp::Div => seq!['D', 'i', 'v'],
            InfixOp::Modulo => seq!['M', 'o', 'd', 'u', 'l', 'o'],
            InfixOp::Add => seq!['A', 'd', 'd'],
            InfixOp::Sub => seq!['S', 'u', 'b'],
            InfixOp::LeftBitshift => seq!['L', 'e', 'f', 't', 'B', 'i', 't', 's', 'h', 'i', 'f', 't'],
            InfixOp::RightBitshift => seq!['R', 'i', 'g', 'h', 't', 'B', 'i', 't', 's', 'h', 'i', 'f', 't'],
            InfixOp::LessThan => seq!['L', 'e', 's', 's', 'T', 'h', 'a', 'n'],
            InfixOp::GreaterThan => seq!['G', 'r', 'e', 'a', 't', 'e', 'r', 'T', 'h', 'a', 'n'],
            InfixOp::LessThanEquals => seq!['L', 'e', 's', 's', 'T', 'h', 'a', 'n', 'E', 'q', 'u', 'a', 'l', 's'],
            InfixOp::GreaterThanEquals => seq!['G', 'r', 'e', 'a', 't', 'e', 'r', 'T', 'h', 'a', 'n', 'E', 'q', 'u', 'a', 'l', 's'],
            InfixOp::Equal => seq!['E', 'q', 'u', 'a', 'l'],
            InfixOp::NotEqual => seq!['N', 'o', 't', 'E', 'q', 'u', 'a', 'l'],
            InfixOp::BitwiseAnd => seq!['B', 'i', 't', 'w', 'i', 's', 'e', 'A', 'n', 'd'],
            InfixOp::BitwiseXor => seq!['B', 'i', 't', 'w', 'i', 's', 'e', 'X', 'o', 'r'],
            InfixOp::BitwiseOr => seq!['B', 'i', 't', 'w', 'i', 's', 'e', 'O', 'r'],
            InfixOp::LogicalAnd => seq!['L', 'o', 'g', 'i', 'c', 'a', 'l', 'A', 'n', 'd'],
            InfixOp::LogicalOr => seq!['L', 'o', 'g', 'i', 'c', 'a', 'l', 'O', 'r'],
        },
        prefix_name(p) =~= match p {
            PrefixOp::Pos => seq!['P', 'o', 's'],
            PrefixOp::Neg => seq!['N', 'e', 'g'],
            PrefixOp::LogicalNot => seq!['L', 'o', 'g', 'i', 'c', 'a', 'l', 'N', 'o', 't'],
            PrefixOp::BitwiseNot => seq!['B', 'i', 't', 'w', 'i', 's', 'e', 'N', 'o', 't'],
        },
{
    match a {
        InfixOp::Mul => reveal_strlit("Mul"),
        InfixOp::Div => reveal_strlit("Div"),
        InfixOp::Modulo => reveal_strlit("Modulo"),
        InfixOp::Add => reveal_strlit("Add"),
        InfixOp::Sub => reveal_strlit("Sub"),
        InfixOp::LeftBitshift => reveal_strlit("LeftBitshift"),
        InfixOp::RightBitshift => reveal_strlit("RightBitshift"),
        InfixOp::LessThan => reveal_strlit("LessThan"),
        InfixOp::GreaterThan => reveal_strlit("GreaterThan"),
        InfixOp::LessThanEquals => reveal_strlit("LessThanEquals"),
        InfixOp::GreaterThanEquals => reveal_strlit("GreaterThanEquals"),
        InfixOp::Equal => reveal_strlit("Equal"),
        InfixOp::NotEqual => reveal_strlit("NotEqual"),
        InfixOp::BitwiseAnd => reveal_strlit("BitwiseAnd"),
        InfixOp::BitwiseXor => reveal_strlit("BitwiseXor"),
        InfixOp::BitwiseOr => reveal_strlit("BitwiseOr"),
        InfixOp::LogicalAnd => reveal_strlit("LogicalAnd"),
        InfixOp::LogicalOr => reveal_strlit("LogicalOr"),
    }
    match p {
        PrefixOp::Pos => reveal_strlit("Pos"),
        PrefixOp::Neg => reveal_strlit("Neg"),
        PrefixOp::LogicalNot => reveal_strlit("LogicalNot"),
        PrefixOp::BitwiseNot => reveal_strlit("BitwiseNot"),
    }
}

/// The names of `params`, separated by single spaces.
pub open spec fn joined_names(params: Seq<Spanned<Ident>>, names: Seq<Seq<char>>) -> Seq<char>
    decreases params.len(),
{
    if params.len() == 0 {
        Seq::empty()
    } else if params.len() == 1 {
        names[params[0].inner.0 as int]
    } else {
        joined_names(params.drop_last(), names) + " "@ + names[params.last().inner.0 as int]
    }
}

/// The label of a definition: `let`, its name, a space and its parameters.
pub open spec fn let_label(name: Ident, params: Seq<Spanned<Ident>>, names: Seq<Seq<char>>) -> Seq<char> {
    "let "@ + names[name.0 as int] + " "@ + joined_names(params, names)
}

/// The label of a module expression's node.
pub open spec fn module_label(m: ModuleTerm, names: Seq<Seq<char>>) -> Seq<char> {
    match m {
        ModuleTerm::Expression(_) => "expr"@,
        ModuleTerm::Let { name, params, expr: _ } => let_label(name.inner, params, names),
    }
}

/// The label of an expression's node.
pub open spec fn expression_label(e: Term, names: Seq<Seq<char>>) -> Seq<char> {
    match e {
        Term::Unit => "()"@,
        Term::Int(n) => decimal_text(n),
        Term::Bool(b) => bool_text(b),
        Term::Ident(i) => names[i.0 as int],
        Term::Function { param, body: _ } => "fn "@ + names[param.inner.0 as int],
        Term::Let { name, params, expr: _, in_: _ } => let_label(name.inner, params, names),
        Term::Call { .. } => "call"@,
        Term::Semicolon(_, _) => ";"@,
        Term::PrefixOp { expr: _, op } => "prefix "@ + prefix_name(op.inner),
        Term::InfixOp { lhs: _, rhs: _, op } => "infix "@ + infix_name(op.inner),
        Term::IfThenElse { .. } => "if"@,
    }
}

/// The children of an expression's node, in order.
pub open spec fn expression_children(e: Term) -> Seq<Term> {
    match e {
        Term::Unit | Term::Int(_) | Term::Bool(_) | Term::Ident(_) => Seq::empty(),
        Term::Function { param: _, body } => seq![*body.inner],
        Term::Let { name: _, params: _, expr, in_ } => seq![*expr.inner, *in_.inner],
        Term::Call { callee, arg } => seq![*callee.inner, *arg.inner],
        Term::Semicolon(lhs, rhs) => match rhs {
            Some(r) => seq![*lhs.inner, *r.inner],
            None => seq![*lhs.inner],
        },
        Term::PrefixOp { expr, op: _ } => seq![*expr.inner],
        Term::InfixOp { lhs, rhs, op: _ } => seq![*lhs.inner, *rhs.inner],
        Term::IfThenElse { condition, then_branch, else_branch } => match else_branch {
            Some(e) => seq![*condition.inner, *then_branch.inner, *e.inner],
            None => seq![*condition.inner, *then_branch.inner],
        },
    }
}

/// Whether the interner holds every name that the node's label shows.
pub open spec fn label_names_held(e: Term, interner: Interner) -> bool {
    match e {
        Term::Ident(i) => interner.holds(i),
        Term::Function { param, body: _ } => interner.holds(param.inner),
        Term::Let { name, params, expr: _, in_: _ } => {
            &&& interner.holds(name.inner)
            &&& forall|k: int| 0 <= k < params.len() ==> interner.holds(#[trigger] params[k].inner)
        },
        _ => true,
    }
}

/// Whether the interner holds every name that a module node's label shows.
pub open spec fn module_label_names_held(m: ModuleTerm, interner: Interner) -> bool {
    match m {
        ModuleTerm::Expression(_) => true,
        ModuleTerm::Let { name, params, expr: _ } => {
            &&& interner.holds(name.inner)
            &&& forall|k: int| 0 <= k < params.len() ==> interner.holds(#[trigger] params[k].inner)
        },
    }
}

impl PrefixOp {
    /// The name of the operator's variant.
    pub fn name(&self) -> (r: &'static str)
        ensures
            r@ == prefix_name(*self),
    {
        match self {
            PrefixOp::Pos => { proof { reveal_strlit("Pos"); } "Pos" },
            PrefixOp::Neg => { proof { reveal_strlit("Neg"); } "Neg" },
            PrefixOp::LogicalNot => { proof { reveal_strlit("LogicalNot"); } "LogicalNot" },
            PrefixOp::BitwiseNot => { proof { reveal_strlit("BitwiseNot"); } "BitwiseNot" },
        }
    }
}

impl InfixOp {
    /// The name of the operator's variant.
    pub fn name(&self) -> (r: &'static str)
        ensures
            r@ == infix_name(*self),
    {
        match self {
            InfixOp::Mul => { proof { reveal_strlit("Mul"); } "Mul" },
            InfixOp::Div => { proof { reveal_strlit("Div"); } "Div" },
            InfixOp::Modulo => { proof { reveal_strlit("Modulo"); } "Modulo" },
            InfixOp::Add => { proof { reveal_strlit("Add"); } "Add" },
            InfixOp::Sub => { proof { reveal_strlit("Sub"); } "Sub" },
            InfixOp::LeftBitshift => { proof { reveal_strlit("LeftBitshift"); } "LeftBitshift" },
            InfixOp::RightBitshift => { proof { reveal_strlit("RightBitshift"); } "RightBitshift" },
            InfixOp::LessThan => { proof { reveal_strlit("LessThan"); } "LessThan" },
            InfixOp::GreaterThan => { proof { reveal_strlit("GreaterThan"); } "GreaterThan" },
            InfixOp::LessThanEquals => { proof { reveal_strlit("LessThanEquals"); } "LessThanEquals" },
            InfixOp::GreaterThanEquals => {
                proof { reveal_strlit("GreaterThanEquals"); }
                "GreaterThanEquals"
            },
            InfixOp::Equal => { proof { reveal_strlit("Equal"); } "Equal" },
            InfixOp::NotEqual => { proof { reveal_strlit("NotEqual"); } "NotEqual" },
            InfixOp::BitwiseAnd => { proof { reveal_strlit("BitwiseAnd"); } "BitwiseAnd" },
            InfixOp::BitwiseXor => { proof { reveal_strlit("BitwiseXor"); } "BitwiseXor" },
            InfixOp::BitwiseOr => { proof { reveal_strlit("BitwiseOr"); } "BitwiseOr" },
            InfixOp::LogicalAnd => { proof { reveal_strlit("LogicalAnd"); } "LogicalAnd" },
            InfixOp::LogicalOr => { proof { reveal_strlit("LogicalOr"); } "LogicalOr" },
        }
    }
}

/// The label of a definition with the given name and parameters.
fn let_label_string(name: Ident, params: &Vec<Spanned<Ident>>, interner: &Interner) -> (r: String)
    requires
        interner.wf(),
        interner.holds(name),
        forall|k: int| 0 <= k < params@.len() ==> interner.holds(#[trigger] params@[k].inner),
    ensures
        r@ == let_label(name, params@, interner.names()),
{
    let head = concat("let ", name.resolve(interner));
    let mut r = concat(head.as_str(), " ");
    proof {
        reveal_strlit("let ");
        reveal_strlit(" ");
    }
    let ghost start = r@;
    let mut i: usize = 0;
    while i < params.len()
        invariant
            interner.wf(),
            forall|k: int| 0 <= k < params@.len() ==> interner.holds(#[trigger] params@[k].inner),
            i <= params@.len(),
            r@ == start + joined_names(params@.take(i as int), interner.names()),
        decreases params@.len() - i,
    {
        let ghost before = r@;
        proof {
            assert(params@.take(i as int + 1).drop_last() =~= params@.take(i as int));
            assert(params@.take(i as int + 1).last() == params@[i as int]);
        }
        if i > 0 {
            r = concat(r.as_str(), " ");
        }
        r = concat(r.as_str(), params[i].inner.resolve(interner));
        proof {
            if i == 0 {
                assert(params@.take(0) =~= Seq::<Spanned<Ident>>::empty());
                assert(r@ =~= start + joined_names(params@.take(1), interner.names()));
            } else {
                assert(r@ =~= start + joined_names(params@.take(i as int + 1), interner.names()));
            }
        }
        i = i + 1;
    }
    assert(params@.take(params@.len() as int) =~= params@);
    r
}

impl Ast {
    /// The label of the root node.
    pub fn label(&self) -> (r: &'static str)
        ensures
            r@ == "Ast"@,
    {
        "Ast"
    }

    /// The module expressions below the root, in order.
    pub fn children(&self) -> (r: Vec<&ModuleExpression>)
        ensures
            r@.len() == self.0@.len(),
            forall|k: int| 0 <= k < r@.len() ==> *#[trigger] r@[k] == self.0@[k].inner,
    {
        let mut r: Vec<&ModuleExpression> = Vec::new();
        let mut i: usize = 0;
        while i < self.0.len()
            invariant
                i <= self.0@.len(),
                r@.len() == i,
                forall|k: int| 0 <= k < r@.len() ==> *#[trigger] r@[k] == self.0@[k].inner,
            decreases self.0@.len() - i,
        {
            r.push(&self.0[i].inner);
            i = i + 1;
        }
        r
    }
}

impl ModuleExpression {
    /// The label of the node: `expr`, or the definition's `let` line.
    pub fn label(&self, interner: &Interner) -> (r: String)
        requires
            interner.wf(),
            module_label_names_held(module_term(*self), *interner),
        ensures
            r@ == module_label(module_term(*self), interner.names()),
    {
        match self {
            ModuleExpression::Expression(_) => {
                proof {
                    reveal_strlit("expr");
                }
                String::from_str("expr")
            },
            ModuleExpression::Let { name, params, expr: _ } => {
                proof {
                    assert(module_term(*self) matches ModuleTerm::Let { params: ps, .. } && ps == params@);
                }
                let_label_string(name.inner, params, interner)
            },
        }
    }

    /// The expression below the node.
    pub fn children(&self) -> (r: Vec<&Expression>)
        ensures
            r@.len() == 1,
            *r@[0] == match *self {
                ModuleExpression::Expression(e) => e.inner,
                ModuleExpression::Let { name: _, params: _, expr } => expr.inner,
            },
    {
        let mut r: Vec<&Expression> = Vec::new();
        match self {
            ModuleExpression::Expression(e) => r.push(&e.inner),
            ModuleExpression::Let { name: _, params: _, expr } => r.push(&expr.inner),
        }
        r
    }
}

impl Expression {
    /// The label of the node.
    pub fn label(&self, interner: &Interner) -> (r: String)
        requires
            interner.wf(),
            label_names_held(term(*self), *interner),
        ensures
            r@ == expression_label(term(*self), interner.names()),
    {
        match self {
            Expression::Unit => {
                proof {
                    reveal_strlit("()");
                }
                String::from_str("()")
            },
            Expression::Int(n) => n.to_decimal(),
            Expression::Bool(b) => bool_string(*b),
            Expression::Ident(i) => String::from_str(i.resolve(interner)),
            Expression::Function { param, body: _ } => {
                proof {
                    reveal_strlit("fn ");
                }
                concat("fn ", param.inner.resolve(interner))
            },
            Expression::Let { name, params, expr: _, in_: _ } => {
                proof {
                    assert(term(*self) matches Term::Let { params: ps, .. } && ps == params@);
                }
                let_label_string(name.inner, params, interner)
            },
            Expression::Call { .. } => {
                proof {
                    reveal_strlit("call");
                }
                String::from_str("call")
            },
            Expression::Semicolon(_, _) => {
                proof {
                    reveal_strlit(";");
                }
                String::from_str(";")
            },
            Expression::PrefixOp { expr: _, op } => {
                proof {
                    reveal_strlit("prefix ");
                }
                concat("prefix ", op.inner.name())
            },
            Expression::InfixOp { lhs: _, rhs: _, op } => {
                proof {
                    reveal_strlit("infix ");
                }
                concat("infix ", op.inner.name())
            },
            Expression::IfThenElse { .. } => {
                proof {
                    reveal_strlit("if");
                }
                String::from_str("if")
            },
        }
    }

    /// The expressions below the node, in order. A `;` whose right-hand side
    /// is missing has no children list: it is left out by `requires`.
    pub fn children(&self) -> (r: Vec<&Expression>)
        requires
            !(*self matches Expression::Semicolon(_, None)),
        ensures
            r@.len() == expression_children(term(*self)).len(),
            forall|k: int| 0 <= k < r@.len() ==> term(*#[trigger] r@[k]) == expression_children(term(*self))[k],
    {
        let mut r: Vec<&Expression> = Vec::new();
        match self {
            Expression::Unit | Expression::Int(_) | Expression::Bool(_) | Expression::Ident(_) => {},
            Expression::Function { param: _, body } => r.push(&*body.inner),
            Expression::Let { name: _, params: _, expr, in_ } => {
                r.push(&*expr.inner);
                r.push(&*in_.inner);
            },
            Expression::Call { callee, arg } => {
                r.push(&*callee.inner);
                r.push(&*arg.inner);
            },
            Expression::Semicolon(lhs, rhs) => {
                r.push(&*lhs.inner);
                match rhs {
                    Some(x) => r.push(&*x.inner),
                    None => {},
                }
            },
            Expression::PrefixOp { expr, op: _ } => r.push(&*expr.inner),
            Expression::InfixOp { lhs, rhs, op: _ } => {
                r.push(&*lhs.inner);
                r.push(&*rhs.inner);
            },
            Expression::IfThenElse { condition, then_branch, else_branch } => {
                r.push(&*condition.inner);
                r.push(&*then_branch.inner);
                match else_branch {
                    Some(x) => r.push(&*x.inner),
                    None => {},
                }
            },
        }
        r
    }
}

} // verus!

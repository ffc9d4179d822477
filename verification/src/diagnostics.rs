use vstd::prelude::*;
use crate::interpreter::value::{value_model, Val, Value};
use crate::ir::ast::{InfixOp, PrefixOp};
use crate::ir::{Ident, Interner};
use crate::text::concat;
use crate::span::{Span, Spanned};

verus! {

/// A problem found in a program, with the places it concerns.
#[derive(Debug)]
pub enum Diagnostic {
    ParserError(ParserError),
    CantApplyPrefixOp { expr: Box<Spanned<Value>>, op: Spanned<PrefixOp> },
    CantApplyInfixOp { lhs: Box<Spanned<Value>>, rhs: Box<Spanned<Value>>, op: Box<Spanned<InfixOp>> },
    CantCall { callee: Box<Spanned<Value>> },
    NameNotDefined { ident: Spanned<Ident> },
    InvalidCondition { condition: Box<Spanned<Value>> },
}

/// Source text that could not be read: why, and where.
#[derive(Debug)]
pub struct ParserError {
    pub reason: String,
    pub span: Span,
}

/// The mathematical form of a diagnostic.
pub enum Failure {
    Parse { reason: Seq<char>, span: Span },
    CantApplyPrefixOp { expr: Spanned<Val>, op: Spanned<PrefixOp> },
    CantApplyInfixOp { lhs: Spanned<Val>, rhs: Spanned<Val>, op: Spanned<InfixOp> },
    CantCall { callee: Spanned<Val> },
    NameNotDefined { ident: Spanned<Ident> },
    InvalidCondition { condition: Spanned<Val> },
}

pub open spec fn spanned_val(v: Spanned<Value>) -> Spanned<Val> {
    Spanned { inner: value_model(v.inner), span: v.span }
}

impl View for Diagnostic {
    type V = Failure;

    open spec fn view(&self) -> Failure {
        match *self {
            Diagnostic::ParserError(e) => Failure::Parse { reason: e.reason@, span: e.span },
            Diagnostic::CantApplyPrefixOp { expr, op } => Failure::CantApplyPrefixOp {
                expr: spanned_val(*expr),
                op,
            },
            Diagnostic::CantApplyInfixOp { lhs, rhs, op } => Failure::CantApplyInfixOp {
                lhs: spanned_val(*lhs),
                rhs: spanned_val(*rhs),
                op: *op,
            },
            Diagnostic::CantCall { callee } => Failure::CantCall { callee: spanned_val(*callee) },
            Diagnostic::NameNotDefined { ident } => Failure::NameNotDefined { ident },
            Diagnostic::InvalidCondition { condition } => Failure::InvalidCondition {
                condition: spanned_val(*condition),
            },
        }
    }
}


/// Whether a label marks the main place of a diagnostic or a related one.
#[derive(Clone, Copy, Debug, PartialEq, Eq, Structural)]
pub enum LabelStyle {
    Primary,
    Secondary,
}

/// A place in a file that a report points at, with a note.
#[derive(Debug)]
pub struct Label {
    pub style: LabelStyle,
    pub file_id: usize,
    pub start: usize,
    pub end: usize,
    pub message: String,
}

/// What a diagnostic shows: an error message and the places it concerns.
#[derive(Debug)]
pub struct Report {
    pub message: String,
    pub labels: Vec<Label>,
}

/// The mathematical form of a label.
pub struct LabelModel {
    pub style: LabelStyle,
    pub span: Span,
    pub message: Seq<char>,
}

pub open spec fn label_model(l: Label) -> LabelModel {
    LabelModel {
        style: l.style,
        span: Span { context: crate::span::Ctx(l.file_id), start: l.start, end: l.end },
        message: l.message@,
    }
}

pub open spec fn labels_model(v: Seq<Label>) -> Seq<LabelModel> {
    v.map_values(|l: Label| label_model(l))
}

/// The source text of a prefix operator.
pub open spec fn prefix_symbol(op: PrefixOp) -> Seq<char> {
    match op {
        PrefixOp::Pos => seq!['+'],
        PrefixOp::Neg => seq!['-'],
        PrefixOp::LogicalNot => seq!['!'],
        PrefixOp::BitwiseNot => seq!['~'],
    }
}

/// The source text of a binary operator.
pub open spec fn infix_symbol(op: InfixOp) -> Seq<char> {
    match op {
        InfixOp::Mul => seq!['*'],
        InfixOp::Div => seq!['/'],
        InfixOp::Modulo => seq!['%'],
        InfixOp::Add => seq!['+'],
        InfixOp::Sub => seq!['-'],
        InfixOp::LeftBitshift => seq!['<', '<'],
        InfixOp::RightBitshift => seq!['>', '>'],
        InfixOp::LessThan => seq!['<'],
        InfixOp::GreaterThan => seq!['>'],
        InfixOp::LessThanEquals => seq!['<', '='],
        InfixOp::GreaterThanEquals => seq!['>', '='],
        InfixOp::Equal => seq!['=', '='],
        InfixOp::NotEqual => seq!['!', '='],
        InfixOp::BitwiseAnd => seq!['&'],
        InfixOp::BitwiseXor => seq!['^'],
        InfixOp::BitwiseOr => seq!['|'],
        InfixOp::LogicalAnd => seq!['&', '&'],
        InfixOp::LogicalOr => seq!['|', '|'],
    }
}

pub open spec fn primary(span: Span) -> LabelModel {
    LabelModel { style: LabelStyle::Primary, span, message: Seq::empty() }
}

pub open spec fn secondary(span: Span, message: Seq<char>) -> LabelModel {
    LabelModel { style: LabelStyle::Secondary, span, message }
}

/// The message and labels that a diagnostic reports.
pub open spec fn report_of(f: Failure, names: Seq<Seq<char>>) -> (Seq<char>, Seq<LabelModel>) {
    match f {
        Failure::Parse { reason, span } => (reason, seq![primary(span)]),
        Failure::CantApplyPrefixOp { expr, op } => (
            "cannot apply the operator '"@ + prefix_symbol(op.inner) + "' to this value"@,
            seq![primary(op.span), secondary(expr.span, "operand"@)],
        ),
        Failure::CantApplyInfixOp { lhs, rhs, op } => (
            "cannot apply the operator '"@ + infix_symbol(op.inner) + "' to these two values"@,
            seq![
                primary(op.span),
                secondary(lhs.span, "lefthand operand"@),
                secondary(rhs.span, "righthand operand"@),
            ],
        ),
        Failure::CantCall { callee } => ("cannot call this value as a function"@, seq![primary(callee.span)]),
        Failure::NameNotDefined { ident } => (
            "name '"@ + names[ident.inner.0 as int] + "' is not defined in this scope"@,
            seq![primary(ident.span)],
        ),
        Failure::InvalidCondition { condition } => (
            "this value is not of type bool, so it cannot be used as condition in an if expression"@,
            seq![primary(condition.span)],
        ),
    }
}

/// Every diagnostic reports at least one place, and the first place it
/// reports is its primary one.
pub proof fn law_primary_label_first(f: Failure, names: Seq<Seq<char>>)
    ensures
        report_of(f, names).1.len() >= 1,
        report_of(f, names).1[0].style == LabelStyle::Primary,
        forall|k: int| 1 <= k < report_of(f, names).1.len() ==> #[trigger] report_of(f, names).1[k].style == LabelStyle::Secondary,
{
}

impl PrefixOp {
    /// The source text of the operator.
    pub fn symbol(&self) -> (r: &'static str)
        ensures
            r@ == prefix_symbol(*self),
    {
        match self {
            PrefixOp::Pos => { proof { reveal_strlit("+"); } "+" },
            PrefixOp::Neg => { proof { reveal_strlit("-"); } "-" },
            PrefixOp::LogicalNot => { proof { reveal_strlit("!"); } "!" },
            PrefixOp::BitwiseNot => { proof { reveal_strlit("~"); } "~" },
        }
    }
}

impl InfixOp {
    /// The source text of the operator.
    pub fn symbol(&self) -> (r: &'static str)
        ensures
            r@ == infix_symbol(*self),
    {
        match self {
            InfixOp::Mul => { proof { reveal_strlit("*"); } "*" },
            InfixOp::Div => { proof { reveal_strlit("/"); } "/" },
            InfixOp::Modulo => { proof { reveal_strlit("%"); } "%" },
            InfixOp::Add => { proof { reveal_strlit("+"); } "+" },
            InfixOp::Sub => { proof { reveal_strlit("-"); } "-" },
            InfixOp::LeftBitshift => { proof { reveal_strlit("<<"); } "<<" },
            InfixOp::RightBitshift => { proof { reveal_strlit(">>"); } ">>" },
            InfixOp::LessThan => { proof { reveal_strlit("<"); } "<" },
            InfixOp::GreaterThan => { proof { reveal_strlit(">"); } ">" },
            InfixOp::LessThanEquals => { proof { reveal_strlit("<="); } "<=" },
            InfixOp::GreaterThanEquals => { proof { reveal_strlit(">="); } ">=" },
            InfixOp::Equal => { proof { reveal_strlit("=="); } "==" },
            InfixOp::NotEqual => { proof { reveal_strlit("!="); } "!=" },
            InfixOp::BitwiseAnd => { proof { reveal_strlit("&"); } "&" },
            InfixOp::BitwiseXor => { proof { reveal_strlit("^"); } "^" },
            InfixOp::BitwiseOr => { proof { reveal_strlit("|"); } "|" },
            InfixOp::LogicalAnd => { proof { reveal_strlit("&&"); } "&&" },
            InfixOp::LogicalOr => { proof { reveal_strlit("||"); } "||" },
        }
    }
}

fn primary_label(span: Span) -> (r: Label)
    ensures
        label_model(r) == primary(span),
{
    let r = Label { style: LabelStyle::Primary, file_id: span.context.0, start: span.start, end: span.end, message: String::new() };
    r
}

fn secondary_label(span: Span, message: &str) -> (r: Label)
    ensures
        label_model(r) == secondary(span, message@),
{
    Label {
        style: LabelStyle::Secondary,
        file_id: span.context.0,
        start: span.start,
        end: span.end,
        message: String::from_str(message),
    }
}

/// Whether the identifiers that the diagnostic names are held by the interner.
pub open spec fn failure_names_held(f: Failure, interner: Interner) -> bool {
    match f {
        Failure::NameNotDefined { ident } => interner.holds(ident.inner),
        _ => true,
    }
}

impl Diagnostic {
    /// The message and the labelled places that the diagnostic reports.
    pub fn report(&self, interner: &Interner) -> (r: Report)
        requires
            interner.wf(),
            failure_names_held(self@, *interner),
        ensures
            (r.message@, labels_model(r.labels@)) == report_of(self@, interner.names()),
    {
        let mut labels: Vec<Label> = Vec::new();
        let message = match self {
            Diagnostic::ParserError(e) => {
                labels.push(primary_label(e.span));
                String::from_str(e.reason.as_str())
            },
            Diagnostic::CantApplyPrefixOp { expr, op } => {
                labels.push(primary_label(op.span));
                labels.push(secondary_label(expr.span, "operand"));
                let head = concat("cannot apply the operator '", op.inner.symbol());
                concat(head.as_str(), "' to this value")
            },
            Diagnostic::CantApplyInfixOp { lhs, rhs, op } => {
                labels.push(primary_label(op.span));
                labels.push(secondary_label(lhs.span, "lefthand operand"));
                labels.push(secondary_label(rhs.span, "righthand operand"));
                let head = concat("cannot apply the operator '", op.inner.symbol());
                concat(head.as_str(), "' to these two values")
            },
            Diagnostic::CantCall { callee } => {
                labels.push(primary_label(callee.span));
                String::from_str("cannot call this value as a function")
            },
            Diagnostic::NameNotDefined { ident } => {
                labels.push(primary_label(ident.span));
                let head = concat("name '", ident.inner.resolve(interner));
                concat(head.as_str(), "' is not defined in this scope")
            },
            Diagnostic::InvalidCondition { condition } => {
                labels.push(primary_label(condition.span));
                String::from_str(
                    "this value is not of type bool, so it cannot be used as condition in an if expression",
                )
            },
        };
        proof {
            let rm = report_of(self@, interner.names());
            assert(message@ =~= rm.0);
            assert(labels_model(labels@) =~= rm.1);
        }
        Report { message, labels }
    }
}

} // verus!

//! The abstract syntax tree produced by the parser, with its mathematical view.
use crate::constructs::{Construct, ConstructV};
use vstd::prelude::*;

verus! {

/// An interned name: its index in the interner and the namespace it lives in.
#[derive(Clone, Copy, PartialEq, Eq, PartialOrd, Ord, Hash, Debug, Structural)]
pub struct Symbol(pub u32, pub Namespace);

/// The namespace of a symbol.
#[derive(Clone, Copy, PartialEq, Eq, PartialOrd, Ord, Hash, Debug, Structural)]
pub enum Namespace {
    Variant,
    Binding,
    Global,
}

/// A top-level definition.
#[derive(Debug)]
pub enum AstNode {
    Global(Symbol, Box<Expr>),
    Function(Symbol, Box<Function>),
}

/// A function definition: its parameters and its body.
#[derive(Debug)]
pub struct Function {
    pub args: Vec<Param>,
    pub body: Box<Expr>,
}

/// A function parameter and the construct it is declared with.
#[derive(Debug)]
pub struct Param {
    pub ident: Symbol,
    pub cons: Construct,
}

/// An expression.
#[derive(Debug)]
pub enum Expr {
    Word(i64),
    Lhs(Lhs),
    Binop(Bop, Box<Expr>, Box<Expr>),
    Unop(Uop, Box<Expr>),
    Let(Lhs, Box<Expr>, Box<Expr>),
    Cond(Box<Expr>, Box<Expr>, Box<Expr>),
    Call(Lhs, Vec<Expr>),
}

/// A place that a name denotes.
#[derive(Clone, Copy, PartialEq, Eq, Debug, Structural)]
pub enum Lhs {
    Ident(Symbol),
}

/// Binary operators.
#[derive(Clone, Copy, PartialEq, Eq, Debug, Structural)]
pub enum Bop {
    Add,
    Sub,
    Mult,
    Div,
    AddF,
    SubF,
    MultF,
    DivF,
    DivU,
    DivUF,
    Mod,
    ModU,
    BitOr,
    BitAnd,
    BitXor,
    LogOr,
    LogAnd,
    Eq,
    Neq,
    Leq,
    Geq,
    Gt,
    Lt,
}

/// Unary operators.
#[derive(Clone, Copy, PartialEq, Eq, Debug, Structural)]
pub enum Uop {
    Not(),
    Neg(),
}

/// The mathematical value of an expression: `Vec`s become `Seq`s.
pub enum ExprV {
    Word(i64),
    Lhs(Lhs),
    Binop(Bop, Box<ExprV>, Box<ExprV>),
    Unop(Uop, Box<ExprV>),
    Let(Lhs, Box<ExprV>, Box<ExprV>),
    Cond(Box<ExprV>, Box<ExprV>, Box<ExprV>),
    Call(Lhs, Seq<ExprV>),
}

/// The mathematical value of a parameter.
pub struct ParamV {
    pub ident: Symbol,
    pub cons: ConstructV,
}

/// The mathematical value of a function definition.
pub struct FunctionV {
    pub args: Seq<ParamV>,
    pub body: ExprV,
}

/// The mathematical value of a top-level definition.
pub enum AstNodeV {
    Global(Symbol, ExprV),
    Function(Symbol, FunctionV),
}

impl Expr {
    pub open spec fn view(&self) -> ExprV
        decreases self,
    {
        match self {
            Expr::Word(w) => ExprV::Word(*w),
            Expr::Lhs(l) => ExprV::Lhs(*l),
            Expr::Binop(b, e1, e2) => ExprV::Binop(*b, Box::new(e1.view()), Box::new(e2.view())),
            Expr::Unop(u, e) => ExprV::Unop(*u, Box::new(e.view())),
            Expr::Let(l, e1, e2) => ExprV::Let(*l, Box::new(e1.view()), Box::new(e2.view())),
            Expr::Cond(c, e1, e2) => ExprV::Cond(
                Box::new(c.view()),
                Box::new(e1.view()),
                Box::new(e2.view()),
            ),
            Expr::Call(l, args) => ExprV::Call(*l, exprs_view(args@)),
        }
    }
}

/// The views of a sequence of expressions, in order.
pub open spec fn exprs_view(s: Seq<Expr>) -> Seq<ExprV>
    decreases s,
{
    if s.len() == 0 {
        Seq::empty()
    } else {
        exprs_view(s.subrange(0, s.len() - 1)).push(s[s.len() - 1].view())
    }
}

/// The view of a parameter.
pub open spec fn param_view(p: Param) -> ParamV {
    ParamV { ident: p.ident, cons: p.cons.view() }
}

/// The views of a sequence of parameters, in order.
pub open spec fn params_view(s: Seq<Param>) -> Seq<ParamV> {
    Seq::new(s.len(), |i: int| param_view(s[i]))
}

impl AstNode {
    pub open spec fn view(&self) -> AstNodeV {
        match self {
            AstNode::Global(s, e) => AstNodeV::Global(*s, e.view()),
            AstNode::Function(s, f) => AstNodeV::Function(
                *s,
                FunctionV { args: params_view(f.args@), body: f.body.view() },
            ),
        }
    }
}

/// The views of a sequence of top-level definitions, in order.
pub open spec fn nodes_view(s: Seq<AstNode>) -> Seq<AstNodeV> {
    Seq::new(s.len(), |i: int| s[i].view())
}

/// Appending an expression appends its view.
pub proof fn lemma_exprs_view_push(s: Seq<Expr>, e: Expr)
    ensures
        exprs_view(s.push(e)) == exprs_view(s).push(e.view()),
        exprs_view(s).len() == s.len(),
{
    assert(s.push(e).subrange(0, s.len() as int) =~= s);
    lemma_exprs_view_len(s);
}

/// The views are as many as the expressions.
pub proof fn lemma_exprs_view_len(s: Seq<Expr>)
    ensures
        exprs_view(s).len() == s.len(),
    decreases s.len(),
{
    if s.len() > 0 {
        lemma_exprs_view_len(s.subrange(0, s.len() - 1));
    }
}

} // verus!

//! BIR: the untyped, LLVM-like intermediate representation that the AST lowers to.
use crate::ast::Symbol;
use vstd::prelude::*;

verus! {

/// A register, numbered.
pub type Reg = usize;

/// The types of BIR.
#[derive(Debug)]
pub enum Type {
    I64,
    Ptr(Box<Type>),
    FPtr(Box<Type>, Vec<Type>),
    Pack(usize),
}

/// An operand: a word, a local register, a global, or null.
#[derive(Clone, Copy, PartialEq, Eq, Debug, Structural)]
pub enum Operand {
    Word(i64),
    Ident(Reg),
    GIdent(Symbol),
    Null,
}

/// Binary operations of BIR.
#[derive(Clone, Copy, PartialEq, Eq, Debug, Structural)]
pub enum Bop {
    Add,
    Sub,
    Mult,
    Div,
    AddF,
    SubF,
    MultF,
    DivF,
    DivU,
    DivUF,
    Mod,
    ModU,
    BitOr,
    BitAnd,
    LogOr,
    LogAnd,
}

/// Comparisons of BIR.
#[derive(Clone, Copy, PartialEq, Eq, Debug, Structural)]
pub enum Cmp {
    Eq,
    Neq,
    Leq,
    Geq,
    Gt,
    Lt,
}

/// The kinds of statement.
#[derive(Debug)]
pub enum StmtKind {
    Bop(Bop, Operand, Operand),
    Alloca(Type),
    Load(Operand, Operand),
    Store(Operand, Operand),
    Cmp(Cmp, Operand, Operand),
    Call(Operand, Vec<Operand>),
    Gep(Operand, Vec<Operand>),
}

/// A statement and the register it defines, if any.
#[derive(Debug)]
pub struct Stmt {
    pub dest: Option<Reg>,
    pub stmt: StmtKind,
}

/// A block terminator.
#[derive(Clone, Copy, PartialEq, Eq, Debug, Structural)]
pub enum Term {
    Ret(Operand),
    Br(),
}

/// A basic block: its statements and its terminator, once it has one.
#[derive(Debug)]
pub struct Block {
    pub stmts: Vec<Stmt>,
    pub term: Option<Term>,
}

/// A function parameter, held in a register.
#[derive(Debug)]
pub struct FParam {
    pub ident: Reg,
}

/// A function: its name, parameters, entry block, and its labelled blocks (each
/// label once).
#[derive(Debug)]
pub struct Func {
    pub ident: Symbol,
    pub args: Vec<FParam>,
    pub entry: Block,
    pub body: Vec<(String, Block)>,
}

/// A global and its constant value.
#[derive(Debug)]
pub struct Global {
    pub ident: Symbol,
    pub val: Operand,
}

/// A declaration of a program.
#[derive(Debug)]
pub enum Decl {
    FDecl(Func),
    GDecl(Global),
}

/// A program: its declarations in order.
pub type Prog = Vec<Decl>;

// ---------------------------------------------------------------- views

pub enum TypeV {
    I64,
    Ptr(Box<TypeV>),
    FPtr(Box<TypeV>, Seq<TypeV>),
    Pack(usize),
}

impl Type {
    pub open spec fn view(&self) -> TypeV
        decreases self,
    {
        match self {
            Type::I64 => TypeV::I64,
            Type::Ptr(t) => TypeV::Ptr(Box::new(t.view())),
            Type::FPtr(t, ts) => TypeV::FPtr(Box::new(t.view()), types_view(ts@)),
            Type::Pack(n) => TypeV::Pack(*n),
        }
    }
}

pub open spec fn types_view(s: Seq<Type>) -> Seq<TypeV>
    decreases s,
{
    if s.len() == 0 {
        Seq::empty()
    } else {
        types_view(s.subrange(0, s.len() - 1)).push(s[s.len() - 1].view())
    }
}

pub enum StmtKindV {
    Bop(Bop, Operand, Operand),
    Alloca(TypeV),
    Load(Operand, Operand),
    Store(Operand, Operand),
    Cmp(Cmp, Operand, Operand),
    Call(Operand, Seq<Operand>),
    Gep(Operand, Seq<Operand>),
}

impl StmtKind {
    pub open spec fn view(&self) -> StmtKindV {
        match self {
            StmtKind::Bop(b, x, y) => StmtKindV::Bop(*b, *x, *y),
            StmtKind::Alloca(t) => StmtKindV::Alloca(t.view()),
            StmtKind::Load(x, y) => StmtKindV::Load(*x, *y),
            StmtKind::Store(x, y) => StmtKindV::Store(*x, *y),
            StmtKind::Cmp(c, x, y) => StmtKindV::Cmp(*c, *x, *y),
            StmtKind::Call(f, xs) => StmtKindV::Call(*f, xs@),
            StmtKind::Gep(p, xs) => StmtKindV::Gep(*p, xs@),
        }
    }
}

pub struct StmtV {
    pub dest: Option<Reg>,
    pub stmt: StmtKindV,
}

impl Stmt {
    pub open spec fn view(&self) -> StmtV {
        StmtV { dest: self.dest, stmt: self.stmt.view() }
    }
}

pub open spec fn stmts_view(s: Seq<Stmt>) -> Seq<StmtV> {
    Seq::new(s.len(), |i: int| s[i].view())
}

pub struct BlockV {
    pub stmts: Seq<StmtV>,
    pub term: Option<Term>,
}

impl Block {
    pub open spec fn view(&self) -> BlockV {
        BlockV { stmts: stmts_view(self.stmts@), term: self.term }
    }
}

/// The labelled blocks, each label with its block.
pub open spec fn labelled_view(s: Seq<(String, Block)>) -> Seq<(Seq<char>, BlockV)> {
    Seq::new(s.len(), |i: int| (s[i].0@, s[i].1.view()))
}

pub struct FuncV {
    pub ident: Symbol,
    pub args: Seq<Reg>,
    pub entry: BlockV,
    pub body: Seq<(Seq<char>, BlockV)>,
}

impl Func {
    pub open spec fn view(&self) -> FuncV {
        FuncV {
            ident: self.ident,
            args: Seq::new(self.args@.len(), |i: int| self.args@[i].ident),
            entry: self.entry.view(),
            body: labelled_view(self.body@),
        }
    }
}

pub enum DeclV {
    FDecl(FuncV),
    GDecl(Symbol, Operand),
}

impl Decl {
    pub open spec fn view(&self) -> DeclV {
        match self {
            Decl::FDecl(f) => DeclV::FDecl(f.view()),
            Decl::GDecl(g) => DeclV::GDecl(g.ident, g.val),
        }
    }
}

pub open spec fn prog_view(p: Seq<Decl>) -> Seq<DeclV> {
    Seq::new(p.len(), |i: int| p[i].view())
}

} // verus!

//! The parser: recursive descent for definitions and expressions, precedence
//! climbing for binary operators, and an interner that names each identifier by a
//! `Symbol`.
//!
//! The parser's meaning is given by the spec functions `sp_*` below, which read a
//! token sequence from a state (a position and the interner's contents) and give
//! the value read and the new state, or the error reported. Each executable
//! function is proved to compute exactly its spec function.
use crate::ast::{
    exprs_view, lemma_exprs_view_push, nodes_view, params_view, AstNode, AstNodeV, Bop, Expr, ExprV,
    Function, FunctionV, Lhs, Namespace, Param, ParamV, Symbol, Uop,
};
use crate::constructs::{Construct, ConstructV};
use crate::err::{p_err_reftok, p_err_tok, tok_err, PErr, ParserError};
use crate::token::{same_kind, Token, TokenKind};
use vstd::prelude::*;

verus! {

// ---------------------------------------------------------------- operators

/// The binding strength of a binary operator; larger binds tighter.
pub open spec fn spec_precedence(bop: Bop) -> nat {
    match bop {
        Bop::Add | Bop::Sub | Bop::AddF | Bop::SubF => 1,
        Bop::Mult | Bop::Div | Bop::MultF | Bop::DivF | Bop::DivU | Bop::DivUF | Bop::Mod
        | Bop::ModU => 2,
        Bop::BitOr | Bop::BitAnd | Bop::BitXor => 3,
        Bop::LogOr | Bop::LogAnd => 4,
        Bop::Leq | Bop::Geq | Bop::Gt | Bop::Lt => 5,
        Bop::Eq | Bop::Neq => 6,
    }
}

/// The binding strength of a binary operator; larger binds tighter.
pub fn precedence(bop: Bop) -> (r: usize)
    ensures
        r == spec_precedence(bop),
{
    match bop {
        Bop::Add | Bop::Sub | Bop::AddF | Bop::SubF => 1,
        Bop::Mult | Bop::Div | Bop::MultF | Bop::DivF | Bop::DivU | Bop::DivUF | Bop::Mod
        | Bop::ModU => 2,
        Bop::BitOr | Bop::BitAnd | Bop::BitXor => 3,
        Bop::LogOr | Bop::LogAnd => 4,
        Bop::Leq | Bop::Geq | Bop::Gt | Bop::Lt => 5,
        Bop::Eq | Bop::Neq => 6,
    }
}

/// The binary operator a token kind stands for.
pub open spec fn bop_of_kind(k: TokenKind) -> Option<Bop> {
    match k {
        TokenKind::Plus() => Some(Bop::Add),
        TokenKind::Minus() => Some(Bop::Sub),
        TokenKind::Eq() => Some(Bop::Eq),
        TokenKind::Xor() => Some(Bop::BitXor),
        TokenKind::And() => Some(Bop::BitAnd),
        TokenKind::Or() => Some(Bop::BitOr),
        TokenKind::OrOr() => Some(Bop::LogOr),
        TokenKind::AndAnd() => Some(Bop::LogAnd),
        _ => None,
    }
}

/// The binary operator a token stands for.
pub fn bop_of_tok(tok: &Token) -> (r: Option<Bop>)
    ensures
        r == bop_of_kind(tok.kind),
{
    match tok.kind {
        TokenKind::Plus() => Some(Bop::Add),
        TokenKind::Minus() => Some(Bop::Sub),
        TokenKind::Eq() => Some(Bop::Eq),
        TokenKind::Xor() => Some(Bop::BitXor),
        TokenKind::And() => Some(Bop::BitAnd),
        TokenKind::Or() => Some(Bop::BitOr),
        TokenKind::OrOr() => Some(Bop::LogOr),
        TokenKind::AndAnd() => Some(Bop::LogAnd),
        _ => None,
    }
}

/// A token of this kind starts an atom: an identifier, a word or `(`.
pub open spec fn kind_starts_atom(k: TokenKind) -> bool {
    k is Identifier || k is Word || k is LParam
}

/// The token starts an atom.
pub fn starts_atom(tok: &Token) -> (r: bool)
    ensures
        r == kind_starts_atom(tok.kind),
{
    match tok.kind {
        TokenKind::Identifier(_) | TokenKind::Word(_) | TokenKind::LParam() => true,
        _ => false,
    }
}

// ---------------------------------------------------------------- the interner

/// The interner's contents: each interned string with its namespace; the index in
/// this sequence is the symbol's number.
pub type Names = Seq<(Seq<char>, Namespace)>;

/// The symbol the interner holds for `s` in namespace `ns`: the last entry for
/// `s` in `ns`. Each namespace has its own symbols, so a name can stand for one
/// symbol in each.
pub open spec fn lookup(names: Names, s: Seq<char>, ns: Namespace) -> Option<Symbol>
    decreases names.len(),
{
    if names.len() == 0 {
        None
    } else if names.last() == (s, ns) {
        Some(Symbol((names.len() - 1) as u32, ns))
    } else {
        lookup(names.drop_last(), s, ns)
    }
}

/// Interning `s` in namespace `ns`: the symbol held for `s` in `ns`, or else a
/// new symbol numbered by the count of entries (as a `u32`).
pub open spec fn sp_intern(names: Names, s: Seq<char>, ns: Namespace) -> (Symbol, Names) {
    match lookup(names, s, ns) {
        Some(sym) => (sym, names),
        None => (Symbol(names.len() as u32, ns), names.push((s, ns))),
    }
}

/// Resolving `s` in namespace `ns`: the symbol held for `s` in `ns`, else the
/// error without a token.
pub open spec fn sp_resolve(names: Names, s: Seq<char>, ns: Namespace) -> Result<Symbol, PErr> {
    match lookup(names, s, ns) {
        Some(sym) => Ok(sym),
        None => Err(tok_err(None)),
    }
}

/// Resolving a name used in an expression: as a binding, else as a global.
pub open spec fn sp_resolve_use(names: Names, s: Seq<char>) -> Result<Symbol, PErr> {
    match sp_resolve(names, s, Namespace::Binding) {
        Ok(sym) => Ok(sym),
        Err(_) => sp_resolve(names, s, Namespace::Global),
    }
}

/// The symbol table: the interned strings, each with its namespace, in the order
/// interned. In each namespace, the name `s` maps to the last entry holding `s`
/// there.
pub struct Interner {
    entries: Vec<(String, Namespace)>,
}

impl Interner {
    pub closed spec fn view(&self) -> Names {
        Seq::new(self.entries@.len(), |i: int| (self.entries@[i].0@, self.entries@[i].1))
    }

    /// An empty interner.
    pub fn new() -> (r: Self)
        ensures
            r.view() == Seq::<(Seq<char>, Namespace)>::empty(),
    {
        let r = Self { entries: Vec::new() };
        assert(r.view() =~= Seq::<(Seq<char>, Namespace)>::empty());
        r
    }

    /// The symbol held for `s` in namespace `ns`.
    fn get(&self, s: &String, ns: Namespace) -> (r: Option<Symbol>)
        ensures
            r == lookup(self.view(), s@, ns),
    {
        let mut i = self.entries.len();
        assert(self.view().take(i as int) =~= self.view());
        while i > 0
            invariant
                i <= self.entries.len(),
                lookup(self.view(), s@, ns) == lookup(self.view().take(i as int), s@, ns),
            decreases i,
        {
            let ghost v = self.view().take(i as int);
            assert(v.drop_last() =~= self.view().take(i - 1));
            if self.entries[i - 1].0 == *s && self.entries[i - 1].1 == ns {
                let n: u32 = #[verifier::truncate] ((i - 1) as u32);
                return Some(Symbol(n, ns));
            }
            i = i - 1;
        }
        assert(self.view().take(0) =~= Seq::<(Seq<char>, Namespace)>::empty());
        None
    }

    /// Interns `s` in namespace `namespace` (see `sp_intern`).
    pub fn intern(&mut self, s: &String, namespace: Namespace) -> (r: Symbol)
        ensures
            (r, final(self).view()) == sp_intern(old(self).view(), s@, namespace),
    {
        if let Some(sym) = self.get(s, namespace) {
            return sym;
        }
        let n: u32 = #[verifier::truncate] (self.entries.len() as u32);
        let sym = Symbol(n, namespace);
        let ghost before = self.view();
        self.entries.push((s.clone(), namespace));
        assert(self.view() =~= before.push((s@, namespace)));
        sym
    }

    /// Resolves `s` in namespace `namespace` (see `sp_resolve`).
    pub fn resolve(&self, s: &String, namespace: Namespace) -> (r: Result<Symbol, ParserError>)
        ensures
            match sp_resolve(self.view(), s@, namespace) {
                Ok(sym) => r == Ok::<Symbol, ParserError>(sym),
                Err(pe) => r matches Err(e) && e.view() == pe,
            },
    {
        if let Some(sym) = self.get(s, namespace) {
            return Ok(sym);
        }
        Err(p_err_tok(None))
    }
}

/// Interning a name and then resolving it in the same namespace gives the symbol
/// that interning gave.
pub proof fn law_resolve_after_intern(names: Names, s: Seq<char>, ns: Namespace)
    ensures
        sp_resolve(sp_intern(names, s, ns).1, s, ns) == Ok::<Symbol, PErr>(sp_intern(names, s, ns).0),
{
}

/// Interning a name a second time in the same namespace gives the same symbol and
/// leaves the interner as the first time left it.
pub proof fn law_intern_idempotent(names: Names, s: Seq<char>, ns: Namespace)
    ensures
        sp_intern(sp_intern(names, s, ns).1, s, ns) == sp_intern(names, s, ns),
{
}

proof fn lemma_lookup_entry(names: Names, s: Seq<char>, ns: Namespace)
    requires
        names.len() <= u32::MAX,
    ensures
        lookup(names, s, ns) matches Some(sym) ==> sym.0 < names.len() && names[sym.0 as int] == (s, ns)
            && sym.1 == ns,
    decreases names.len(),
{
    if names.len() > 0 {
        lemma_lookup_entry(names.drop_last(), s, ns);
        if names.last() != (s, ns) {
            if let Some(sym) = lookup(names.drop_last(), s, ns) {
                assert(names.drop_last()[sym.0 as int] == names[sym.0 as int]);
            }
        }
    }
}

/// The symbol interning gives names the string it was interned from: its index
/// is that of an entry for the string in its namespace (while the entries' count
/// fits a `u32`).
pub proof fn law_symbol_names_its_string(names: Names, s: Seq<char>, ns: Namespace)
    requires
        names.len() < u32::MAX,
    ensures
        ({
            let (sym, after) = sp_intern(names, s, ns);
            &&& sym.1 == ns
            &&& sym.0 < after.len()
            &&& after[sym.0 as int] == (s, ns)
            &&& names.len() <= after.len() <= names.len() + 1
            &&& after.take(names.len() as int) == names
        }),
{
    lemma_lookup_entry(names, s, ns);
    let after = sp_intern(names, s, ns).1;
    assert(after.take(names.len() as int) =~= names);
}

/// A string never interned in a namespace gets a new index there: the count of
/// entries, which no earlier entry has, so its symbol differs from every symbol
/// interning gave before (while the entries' count fits a `u32`).
pub proof fn law_fresh_string_fresh_index(names: Names, s: Seq<char>, ns: Namespace)
    requires
        names.len() < u32::MAX,
        forall|i: int| 0 <= i < names.len() ==> #[trigger] names[i] != (s, ns),
    ensures
        sp_intern(names, s, ns).0.0 == names.len(),
{
    lemma_lookup_entry(names, s, ns);
}

/// Interning `s` and then another string `s2` that was never interned in its
/// namespace gives two symbols with different indexes.
pub proof fn law_intern_then_fresh(names: Names, s: Seq<char>, ns: Namespace, s2: Seq<char>, ns2: Namespace)
    requires
        names.len() + 1 < u32::MAX,
        forall|i: int| 0 <= i < names.len() ==> #[trigger] names[i] != (s2, ns2),
        (s2, ns2) != (s, ns),
    ensures
        ({
            let (sym, after) = sp_intern(names, s, ns);
            sp_intern(after, s2, ns2).0.0 != sym.0
        }),
{
    law_symbol_names_its_string(names, s, ns);
    let (sym, after) = sp_intern(names, s, ns);
    assert forall|i: int| 0 <= i < after.len() implies #[trigger] after[i] != (s2, ns2) by {
        if i < names.len() {
            assert(after.take(names.len() as int)[i] == after[i]);
        }
    }
    law_fresh_string_fresh_index(after, s2, ns2);
}

/// Interning a name in a namespace changes how no other name resolves, and how
/// no name resolves in another namespace.
pub proof fn law_intern_keeps_others(names: Names, s: Seq<char>, ns: Namespace, t: Seq<char>, tns: Namespace)
    requires
        t != s || tns != ns,
    ensures
        sp_resolve(sp_intern(names, s, ns).1, t, tns) == sp_resolve(names, t, tns),
{
    let after = sp_intern(names, s, ns).1;
    if after != names {
        assert(after.drop_last() =~= names);
    }
}

// ---------------------------------------------------------------- parse states

/// Where the parser stands: the index of the next token and the interner's contents.
pub struct PState {
    pub pos: int,
    pub names: Names,
}

/// A value read with the state after it, or the error reported.
pub type PRes<T> = Result<(T, PState), PErr>;

/// The next token, if any.
pub open spec fn at<'a>(t: Seq<Token<'a>>, st: PState) -> Option<Token<'a>> {
    if 0 <= st.pos < t.len() {
        Some(t[st.pos])
    } else {
        None
    }
}

/// The state past one token.
pub open spec fn adv(st: PState) -> PState {
    PState { pos: st.pos + 1, names: st.names }
}

/// The state with another interner content.
pub open spec fn with_names(st: PState, names: Names) -> PState {
    PState { pos: st.pos, names: names }
}

/// `st2` lies after `st` and within the tokens.
pub open spec fn progressed<'a>(t: Seq<Token<'a>>, st: PState, st2: PState) -> bool {
    st.pos < st2.pos <= t.len()
}

/// The error that no parse reaches (it stands where a step made no progress).
pub open spec fn stall() -> PErr {
    tok_err(None)
}

/// The next token is of kind `k`.
pub open spec fn peek_is<'a>(t: Seq<Token<'a>>, st: PState, k: TokenKind) -> bool {
    at(t, st) matches Some(tk) && same_kind(tk.kind, k)
}

/// Takes a token of kind `k`.
pub open spec fn sp_check_next<'a>(t: Seq<Token<'a>>, st: PState, k: TokenKind) -> Result<PState, PErr> {
    match at(t, st) {
        Some(tk) => if same_kind(tk.kind, k) {
            Ok(adv(st))
        } else {
            Err(tok_err(Some(tk)))
        },
        None => Err(tok_err(None)),
    }
}

/// Takes an identifier.
pub open spec fn sp_get_ident<'a>(t: Seq<Token<'a>>, st: PState) -> PRes<Seq<char>> {
    match at(t, st) {
        Some(tk) => match tk.kind {
            TokenKind::Identifier(s) => Ok((s@, adv(st))),
            _ => Err(tok_err(Some(tk))),
        },
        None => Err(tok_err(None)),
    }
}

/// Takes a word.
pub open spec fn sp_get_word<'a>(t: Seq<Token<'a>>, st: PState) -> PRes<i64> {
    match at(t, st) {
        Some(tk) => match tk.kind {
            TokenKind::Word(v) => Ok((v, adv(st))),
            _ => Err(tok_err(Some(tk))),
        },
        None => Err(tok_err(None)),
    }
}

// ---------------------------------------------------------------- expressions

/// atom := ident | word | '(' expr ')'
pub open spec fn sp_atom<'a>(t: Seq<Token<'a>>, st: PState) -> PRes<ExprV>
    decreases t.len() - st.pos, 1nat,
{
    if peek_is(t, st, TokenKind::LParam()) {
        match sp_expr(t, adv(st)) {
            Err(e) => Err(e),
            Ok((e, st2)) => match sp_check_next(t, st2, TokenKind::RParam()) {
                Err(pe) => Err(pe),
                Ok(st3) => Ok((e, st3)),
            },
        }
    } else {
        match at(t, st) {
            Some(tk) => match tk.kind {
                TokenKind::Identifier(s) => match sp_resolve_use(st.names, s@) {
                    Ok(sym) => Ok((ExprV::Lhs(Lhs::Ident(sym)), adv(st))),
                    Err(pe) => Err(pe),
                },
                TokenKind::Word(v) => Ok((ExprV::Word(v), adv(st))),
                _ => Err(tok_err(Some(tk))),
            },
            None => Err(tok_err(None)),
        }
    }
}

/// The arguments of a call: atoms while the next token starts one, after `acc`.
pub open spec fn sp_args<'a>(t: Seq<Token<'a>>, st: PState, acc: Seq<ExprV>) -> PRes<Seq<ExprV>>
    decreases t.len() - st.pos, 2nat,
{
    match at(t, st) {
        Some(tk) => if kind_starts_atom(tk.kind) {
            match sp_atom(t, st) {
                Err(e) => Err(e),
                Ok((a, st2)) => if progressed(t, st, st2) {
                    sp_args(t, st2, acc.push(a))
                } else {
                    Err(stall())
                },
            }
        } else {
            Ok((acc, st))
        },
        None => Ok((acc, st)),
    }
}

/// apply := ident atom* | atom   (a name followed by atoms is a call)
pub open spec fn sp_apply<'a>(t: Seq<Token<'a>>, st: PState) -> PRes<ExprV>
    decreases t.len() - st.pos, 3nat,
{
    match at(t, st) {
        Some(tk) => match tk.kind {
            TokenKind::Identifier(s) => match sp_resolve_use(st.names, s@) {
                Err(pe) => Err(pe),
                Ok(sym) => match sp_args(t, adv(st), Seq::empty()) {
                    Err(e) => Err(e),
                    Ok((args, st2)) => if args.len() == 0 {
                        Ok((ExprV::Lhs(Lhs::Ident(sym)), st2))
                    } else {
                        Ok((ExprV::Call(Lhs::Ident(sym), args), st2))
                    },
                },
            },
            _ => sp_atom(t, st),
        },
        None => sp_atom(t, st),
    }
}

/// unary := '-' unary | apply
pub open spec fn sp_unary<'a>(t: Seq<Token<'a>>, st: PState) -> PRes<ExprV>
    decreases t.len() - st.pos, 4nat,
{
    if peek_is(t, st, TokenKind::Minus()) {
        match sp_unary(t, adv(st)) {
            Err(e) => Err(e),
            Ok((e, st2)) => Ok((ExprV::Unop(Uop::Neg(), Box::new(e)), st2)),
        }
    } else {
        sp_apply(t, st)
    }
}

/// primary := unary
pub open spec fn sp_primary<'a>(t: Seq<Token<'a>>, st: PState) -> PRes<ExprV>
    decreases t.len() - st.pos, 5nat,
{
    sp_unary(t, st)
}

/// Precedence climbing: while the next token is an operator binding at least as
/// tightly as `min`, take it and its right operand (with the tighter operators
/// that follow), and make the left-associated binary expression.
pub open spec fn sp_pratt<'a>(t: Seq<Token<'a>>, st: PState, lhs: ExprV, min: nat) -> PRes<ExprV>
    decreases t.len() - st.pos, 6nat,
{
    match at(t, st) {
        Some(tk) => match bop_of_kind(tk.kind) {
            Some(b) => if spec_precedence(b) < min {
                Ok((lhs, st))
            } else {
                match sp_primary(t, adv(st)) {
                    Err(e) => Err(e),
                    Ok((rhs, st2)) => if progressed(t, st, st2) {
                        match sp_climb(t, st2, rhs, spec_precedence(b)) {
                            Err(e) => Err(e),
                            Ok((rhs2, st3)) => if progressed(t, st, st3) {
                                sp_pratt(
                                    t,
                                    st3,
                                    ExprV::Binop(b, Box::new(lhs), Box::new(rhs2)),
                                    min,
                                )
                            } else {
                                Err(stall())
                            },
                        }
                    } else {
                        Err(stall())
                    },
                }
            },
            None => Ok((lhs, st)),
        },
        None => Ok((lhs, st)),
    }
}

/// The right operand of an operator of strength `pred` extends over the operators
/// that bind strictly tighter.
pub open spec fn sp_climb<'a>(t: Seq<Token<'a>>, st: PState, rhs: ExprV, pred: nat) -> PRes<ExprV>
    decreases t.len() - st.pos, 7nat,
{
    match at(t, st) {
        Some(tk) => match bop_of_kind(tk.kind) {
            Some(nb) => if spec_precedence(nb) > pred {
                match sp_pratt(t, st, rhs, spec_precedence(nb)) {
                    Err(e) => Err(e),
                    Ok((r2, st2)) => if progressed(t, st, st2) {
                        sp_climb(t, st2, r2, pred)
                    } else {
                        Err(stall())
                    },
                }
            } else {
                Ok((rhs, st))
            },
            None => Ok((rhs, st)),
        },
        None => Ok((rhs, st)),
    }
}

/// cond := 'if' expr 'then' expr 'else' expr
pub open spec fn sp_cond<'a>(t: Seq<Token<'a>>, st: PState) -> PRes<ExprV>
    decreases t.len() - st.pos, 8nat,
{
    match sp_check_next(t, st, TokenKind::If()) {
        Err(pe) => Err(pe),
        Ok(st1) => match sp_expr(t, st1) {
            Err(e) => Err(e),
            Ok((c, st2)) => match sp_check_next(t, st2, TokenKind::Then()) {
                Err(pe) => Err(pe),
                Ok(st3) => if progressed(t, st, st3) {
                    match sp_expr(t, st3) {
                        Err(e) => Err(e),
                        Ok((a, st4)) => match sp_check_next(t, st4, TokenKind::Else()) {
                            Err(pe) => Err(pe),
                            Ok(st5) => if progressed(t, st, st5) {
                                match sp_expr(t, st5) {
                                    Err(e) => Err(e),
                                    Ok((b, st6)) => Ok(
                                        (
                                            ExprV::Cond(Box::new(c), Box::new(a), Box::new(b)),
                                            st6,
                                        ),
                                    ),
                                }
                            } else {
                                Err(stall())
                            },
                        },
                    }
                } else {
                    Err(stall())
                },
            },
        },
    }
}

/// expr := cond | 'let' ident '=' expr 'in' expr | primary (op primary)*
/// The name a `let` binds is interned once `in` is read, so that it is in scope
/// in the body.
pub open spec fn sp_expr<'a>(t: Seq<Token<'a>>, st: PState) -> PRes<ExprV>
    decreases t.len() - st.pos, 9nat,
{
    if peek_is(t, st, TokenKind::If()) {
        sp_cond(t, st)
    } else if peek_is(t, st, TokenKind::Let()) {
        match sp_get_ident(t, adv(st)) {
            Err(pe) => Err(pe),
            Ok((id, st2)) => match sp_check_next(t, st2, TokenKind::Eq()) {
                Err(pe) => Err(pe),
                Ok(st3) => match sp_expr(t, st3) {
                    Err(e) => Err(e),
                    Ok((e1, st4)) => match sp_check_next(t, st4, TokenKind::In()) {
                        Err(pe) => Err(pe),
                        Ok(st5) => if progressed(t, st, st5) {
                            let (sym, names) = sp_intern(st5.names, id, Namespace::Binding);
                            match sp_expr(t, with_names(st5, names)) {
                                Err(e) => Err(e),
                                Ok((e2, st6)) => Ok(
                                    (ExprV::Let(Lhs::Ident(sym), Box::new(e1), Box::new(e2)), st6),
                                ),
                            }
                        } else {
                            Err(stall())
                        },
                    },
                },
            },
        }
    } else {
        match sp_primary(t, st) {
            Err(e) => Err(e),
            Ok((l, st1)) => if progressed(t, st, st1) {
                sp_pratt(t, st1, l, 0)
            } else {
                Err(stall())
            },
        }
    }
}

// ---------------------------------------------------------------- definitions

/// cons := ident | 'word' | 'pack' '[' word ']'   (an identifier is an alias)
pub open spec fn sp_cons<'a>(t: Seq<Token<'a>>, st: PState) -> PRes<ConstructV> {
    match at(t, st) {
        Some(tk) => match tk.kind {
            TokenKind::Identifier(s) => {
                let (sym, names) = sp_intern(st.names, s@, Namespace::Binding);
                Ok((ConstructV::Alias(sym), with_names(adv(st), names)))
            },
            TokenKind::TWord() => Ok((ConstructV::Word, adv(st))),
            TokenKind::TPack() => match sp_check_next(t, adv(st), TokenKind::LBracket()) {
                Err(pe) => Err(pe),
                Ok(st2) => match sp_get_word(t, st2) {
                    Err(pe) => Err(pe),
                    Ok((size, st3)) => match sp_check_next(t, st3, TokenKind::RBracket()) {
                        Err(pe) => Err(pe),
                        Ok(st4) => Ok((ConstructV::Pack(size), st4)),
                    },
                },
            },
            _ => Err(tok_err(Some(tk))),
        },
        None => Err(tok_err(None)),
    }
}

/// Parameters `(ident : cons)` until `=`, after `acc`; each name is interned after
/// its construct.
pub open spec fn sp_params<'a>(t: Seq<Token<'a>>, st: PState, acc: Seq<ParamV>) -> PRes<Seq<ParamV>>
    decreases t.len() - st.pos,
{
    if peek_is(t, st, TokenKind::Eq()) {
        Ok((acc, st))
    } else {
        match sp_check_next(t, st, TokenKind::LParam()) {
            Err(pe) => Err(pe),
            Ok(st1) => match sp_get_ident(t, st1) {
                Err(pe) => Err(pe),
                Ok((pid, st2)) => match sp_check_next(t, st2, TokenKind::Colon()) {
                    Err(pe) => Err(pe),
                    Ok(st3) => match sp_cons(t, st3) {
                        Err(pe) => Err(pe),
                        Ok((c, st4)) => match sp_check_next(t, st4, TokenKind::RParam()) {
                            Err(pe) => Err(pe),
                            Ok(st5) => {
                                let (sym, names) = sp_intern(st5.names, pid, Namespace::Binding);
                                let st6 = with_names(st5, names);
                                if progressed(t, st, st6) {
                                    sp_params(t, st6, acc.push(ParamV { ident: sym, cons: c }))
                                } else {
                                    Err(stall())
                                }
                            },
                        },
                    },
                },
            },
        }
    }
}

/// fun := 'fun' ident param* '=' expr   (the name is interned after the body)
pub open spec fn sp_fun<'a>(t: Seq<Token<'a>>, st: PState) -> PRes<AstNodeV> {
    match sp_check_next(t, st, TokenKind::Fun()) {
        Err(pe) => Err(pe),
        Ok(st1) => match sp_get_ident(t, st1) {
            Err(pe) => Err(pe),
            Ok((id, st2)) => match sp_params(t, st2, Seq::empty()) {
                Err(pe) => Err(pe),
                Ok((args, st3)) => match sp_check_next(t, st3, TokenKind::Eq()) {
                    Err(pe) => Err(pe),
                    Ok(st4) => match sp_expr(t, st4) {
                        Err(pe) => Err(pe),
                        Ok((body, st5)) => {
                            let (sym, names) = sp_intern(st5.names, id, Namespace::Global);
                            Ok(
                                (
                                    AstNodeV::Function(sym, FunctionV { args: args, body: body }),
                                    with_names(st5, names),
                                ),
                            )
                        },
                    },
                },
            },
        },
    }
}

/// global := ident '=' expr   (the name is interned after the expression)
pub open spec fn sp_global<'a>(t: Seq<Token<'a>>, st: PState) -> PRes<AstNodeV> {
    match sp_get_ident(t, st) {
        Err(pe) => Err(pe),
        Ok((id, st1)) => match sp_check_next(t, st1, TokenKind::Eq()) {
            Err(pe) => Err(pe),
            Ok(st2) => match sp_expr(t, st2) {
                Err(pe) => Err(pe),
                Ok((e, st3)) => {
                    let (sym, names) = sp_intern(st3.names, id, Namespace::Global);
                    Ok((AstNodeV::Global(sym, e), with_names(st3, names)))
                },
            },
        },
    }
}

/// Definitions until the tokens run out, after `acc`: a global when the next token
/// is an identifier, a function when it is `fun`, else an error at that token.
pub open spec fn sp_toplevel<'a>(t: Seq<Token<'a>>, st: PState, acc: Seq<AstNodeV>) -> PRes<Seq<AstNodeV>>
    decreases t.len() - st.pos,
{
    match at(t, st) {
        None => Ok((acc, st)),
        Some(tk) => {
            let node = match tk.kind {
                TokenKind::Identifier(_) => sp_global(t, st),
                TokenKind::Fun() => sp_fun(t, st),
                _ => Err(tok_err(Some(tk))),
            };
            match node {
                Err(pe) => Err(pe),
                Ok((n, st2)) => if progressed(t, st, st2) {
                    sp_toplevel(t, st2, acc.push(n))
                } else {
                    Err(stall())
                },
            }
        },
    }
}

/// The program the tokens spell, or the error reported.
pub open spec fn sp_parse<'a>(t: Seq<Token<'a>>) -> Result<Seq<AstNodeV>, PErr> {
    match sp_toplevel(t, PState { pos: 0, names: Seq::empty() }, Seq::empty()) {
        Ok((nodes, _)) => Ok(nodes),
        Err(pe) => Err(pe),
    }
}

proof fn lemma_primary_word<'a>(t: Seq<Token<'a>>, st: PState, v: i64)
    requires
        0 <= st.pos < t.len(),
        t[st.pos].kind == TokenKind::Word(v),
    ensures
        sp_primary(t, st) == Ok::<(ExprV, PState), PErr>((ExprV::Word(v), adv(st))),
{
    assert(!peek_is(t, st, TokenKind::Minus()));
    assert(!peek_is(t, st, TokenKind::LParam()));
    assert(sp_atom(t, st) == Ok::<(ExprV, PState), PErr>((ExprV::Word(v), adv(st))));
    assert(sp_apply(t, st) == sp_atom(t, st));
}

/// `t` is `a o1 b o2 c`: three words with an operator between each two.
pub open spec fn three_words<'a>(t: Seq<Token<'a>>, a: i64, b1: Bop, b: i64, b2: Bop, c: i64) -> bool {
    &&& t.len() == 5
    &&& t[0].kind == TokenKind::Word(a)
    &&& bop_of_kind(t[1].kind) == Some(b1)
    &&& t[2].kind == TokenKind::Word(b)
    &&& bop_of_kind(t[3].kind) == Some(b2)
    &&& t[4].kind == TokenKind::Word(c)
}

/// An operator binds more tightly than one of lower strength: where the first
/// operator is the weaker, `a o1 b o2 c` reads as `a o1 (b o2 c)`.
pub proof fn law_tighter_operator_right<'a>(
    t: Seq<Token<'a>>,
    names: Names,
    a: i64,
    b1: Bop,
    b: i64,
    b2: Bop,
    c: i64,
)
    requires
        three_words(t, a, b1, b, b2, c),
        spec_precedence(b1) < spec_precedence(b2),
    ensures
        sp_expr(t, PState { pos: 0, names: names }) == Ok::<(ExprV, PState), PErr>(
            (
                ExprV::Binop(
                    b1,
                    Box::new(ExprV::Word(a)),
                    Box::new(ExprV::Binop(b2, Box::new(ExprV::Word(b)), Box::new(ExprV::Word(c)))),
                ),
                PState { pos: 5, names: names },
            ),
        ),
{
    let st = |i: int| PState { pos: i, names: names };
    let wb = ExprV::Word(b);
    let wc = ExprV::Word(c);
    let inner = ExprV::Binop(b2, Box::new(wb), Box::new(wc));
    let whole = ExprV::Binop(b1, Box::new(ExprV::Word(a)), Box::new(inner));
    lemma_primary_word(t, st(0), a);
    lemma_primary_word(t, st(2), b);
    lemma_primary_word(t, st(4), c);
    assert(sp_climb(t, st(5), wc, spec_precedence(b2)) == Ok::<(ExprV, PState), PErr>((wc, st(5))));
    assert(sp_pratt(t, st(5), inner, spec_precedence(b2)) == Ok::<(ExprV, PState), PErr>((inner, st(5))));
    assert(sp_pratt(t, st(3), wb, spec_precedence(b2)) == Ok::<(ExprV, PState), PErr>((inner, st(5))));
    assert(sp_climb(t, st(5), inner, spec_precedence(b1)) == Ok::<(ExprV, PState), PErr>((inner, st(5))));
    assert(sp_climb(t, st(3), wb, spec_precedence(b1)) == Ok::<(ExprV, PState), PErr>((inner, st(5))));
    assert(sp_pratt(t, st(5), whole, 0) == Ok::<(ExprV, PState), PErr>((whole, st(5))));
    assert(sp_pratt(t, st(1), ExprV::Word(a), 0) == Ok::<(ExprV, PState), PErr>((whole, st(5))));
    assert(!peek_is(t, st(0), TokenKind::If()));
    assert(!peek_is(t, st(0), TokenKind::Let()));
}

/// An operator binds more tightly than one of lower strength, and operators of
/// equal strength associate to the left: where the first operator is at least as
/// strong as the second, `a o1 b o2 c` reads as `(a o1 b) o2 c`.
pub proof fn law_tighter_operator_left<'a>(
    t: Seq<Token<'a>>,
    names: Names,
    a: i64,
    b1: Bop,
    b: i64,
    b2: Bop,
    c: i64,
)
    requires
        three_words(t, a, b1, b, b2, c),
        spec_precedence(b1) >= spec_precedence(b2),
    ensures
        sp_expr(t, PState { pos: 0, names: names }) == Ok::<(ExprV, PState), PErr>(
            (
                ExprV::Binop(
                    b2,
                    Box::new(ExprV::Binop(b1, Box::new(ExprV::Word(a)), Box::new(ExprV::Word(b)))),
                    Box::new(ExprV::Word(c)),
                ),
                PState { pos: 5, names: names },
            ),
        ),
{
    let st = |i: int| PState { pos: i, names: names };
    let wb = ExprV::Word(b);
    let wc = ExprV::Word(c);
    let left = ExprV::Binop(b1, Box::new(ExprV::Word(a)), Box::new(wb));
    let whole = ExprV::Binop(b2, Box::new(left), Box::new(wc));
    lemma_primary_word(t, st(0), a);
    lemma_primary_word(t, st(2), b);
    lemma_primary_word(t, st(4), c);
    assert(sp_climb(t, st(5), wc, spec_precedence(b2)) == Ok::<(ExprV, PState), PErr>((wc, st(5))));
    assert(sp_pratt(t, st(5), whole, 0) == Ok::<(ExprV, PState), PErr>((whole, st(5))));
    assert(sp_climb(t, st(3), wb, spec_precedence(b1)) == Ok::<(ExprV, PState), PErr>((wb, st(3))));
    assert(sp_pratt(t, st(3), left, 0) == Ok::<(ExprV, PState), PErr>((whole, st(5))));
    assert(sp_pratt(t, st(1), ExprV::Word(a), 0) == Ok::<(ExprV, PState), PErr>((whole, st(5))));
    assert(!peek_is(t, st(0), TokenKind::If()));
    assert(!peek_is(t, st(0), TokenKind::Let()));
}

// ---------------------------------------------------------------- chains of operators

/// The value of a word token (0 for another token).
pub open spec fn word_val<'a>(tk: Token<'a>) -> i64 {
    match tk.kind {
        TokenKind::Word(v) => v,
        _ => 0,
    }
}

/// The operator of an operator token (`+` for another token).
pub open spec fn op_val<'a>(tk: Token<'a>) -> Bop {
    match bop_of_kind(tk.kind) {
        Some(b) => b,
        None => Bop::Add,
    }
}

/// From `i` to the end, the tokens are pairs of an operator and a word.
pub open spec fn op_word_pairs<'a>(t: Seq<Token<'a>>, i: int) -> bool
    decreases t.len() - i,
{
    if i >= t.len() {
        i == t.len()
    } else {
        &&& 0 <= i
        &&& i + 1 < t.len()
        &&& bop_of_kind(t[i].kind) is Some
        &&& t[i + 1].kind is Word
        &&& op_word_pairs(t, i + 2)
    }
}

/// The words of the pairs from `i` up to `j`, in order.
pub open spec fn pair_words<'a>(t: Seq<Token<'a>>, i: int, j: int) -> Seq<i64>
    decreases j - i,
{
    if i >= j {
        Seq::empty()
    } else {
        seq![word_val(t[i + 1])] + if i + 2 <= j {
            pair_words(t, i + 2, j)
        } else {
            Seq::empty()
        }
    }
}

/// The operators of the pairs from `i` up to `j`, in order.
pub open spec fn pair_ops<'a>(t: Seq<Token<'a>>, i: int, j: int) -> Seq<Bop>
    decreases j - i,
{
    if i >= j {
        Seq::empty()
    } else {
        seq![op_val(t[i])] + if i + 2 <= j {
            pair_ops(t, i + 2, j)
        } else {
            Seq::empty()
        }
    }
}

/// The words of a tree of binary operations, left to right.
pub open spec fn leaves(e: ExprV) -> Seq<i64>
    decreases e,
{
    match e {
        ExprV::Word(v) => seq![v],
        ExprV::Binop(_, l, r) => leaves(*l) + leaves(*r),
        _ => Seq::empty(),
    }
}

/// The operators of a tree of binary operations, left to right.
pub open spec fn operators(e: ExprV) -> Seq<Bop>
    decreases e,
{
    match e {
        ExprV::Binop(b, l, r) => operators(*l) + seq![b] + operators(*r),
        _ => Seq::empty(),
    }
}

/// A tree of words and binary operations in which precedence is respected: an
/// operation's left operand, if an operation, binds at least as tightly, and its
/// right operand, if an operation, binds strictly more tightly.
pub open spec fn prec_tree(e: ExprV) -> bool
    decreases e,
{
    match e {
        ExprV::Word(_) => true,
        ExprV::Binop(b, l, r) => {
            &&& prec_tree(*l)
            &&& prec_tree(*r)
            &&& (*l matches ExprV::Binop(bl, _, _) ==> spec_precedence(bl) >= spec_precedence(b))
            &&& (*r matches ExprV::Binop(br, _, _) ==> spec_precedence(br) > spec_precedence(b))
        },
        _ => false,
    }
}

/// The strength of the operator at `i`.
pub open spec fn op_prec_at<'a>(t: Seq<Token<'a>>, i: int) -> nat {
    spec_precedence(op_val(t[i]))
}

proof fn lemma_pairs_concat<'a>(t: Seq<Token<'a>>, i: int, j: int, k: int)
    requires
        i <= j <= k,
        (j - i) % 2 == 0,
    ensures
        pair_words(t, i, k) == pair_words(t, i, j) + pair_words(t, j, k),
        pair_ops(t, i, k) == pair_ops(t, i, j) + pair_ops(t, j, k),
    decreases j - i,
{
    if i == j {
        assert(pair_words(t, i, j) + pair_words(t, j, k) =~= pair_words(t, j, k));
        assert(pair_ops(t, i, j) + pair_ops(t, j, k) =~= pair_ops(t, j, k));
    } else {
        lemma_pairs_concat(t, i + 2, j, k);
        assert(seq![word_val(t[i + 1])] + (pair_words(t, i + 2, j) + pair_words(t, j, k)) =~= (seq![
            word_val(t[i + 1]),
        ] + pair_words(t, i + 2, j)) + pair_words(t, j, k));
        assert(seq![op_val(t[i])] + (pair_ops(t, i + 2, j) + pair_ops(t, j, k)) =~= (seq![op_val(t[i])]
            + pair_ops(t, i + 2, j)) + pair_ops(t, j, k));
    }
}

proof fn lemma_pratt_chain<'a>(t: Seq<Token<'a>>, st: PState, lhs: ExprV, min: nat)
    requires
        op_word_pairs(t, st.pos),
        0 <= st.pos,
        prec_tree(lhs),
        lhs matches ExprV::Binop(bl, _, _) ==> (st.pos < t.len() && op_prec_at(t, st.pos) >= min
            ==> spec_precedence(bl) >= op_prec_at(t, st.pos)),
    ensures
        sp_pratt(t, st, lhs, min) matches Ok((e, st2)) && {
            &&& st2.names == st.names
            &&& st.pos <= st2.pos <= t.len()
            &&& (st2.pos - st.pos) % 2 == 0
            &&& op_word_pairs(t, st2.pos)
            &&& (st2.pos < t.len() ==> op_prec_at(t, st2.pos) < min)
            &&& prec_tree(e)
            &&& leaves(e) == leaves(lhs) + pair_words(t, st.pos, st2.pos)
            &&& operators(e) == operators(lhs) + pair_ops(t, st.pos, st2.pos)
            &&& (st.pos < t.len() && op_prec_at(t, st.pos) >= min ==> st2.pos > st.pos && (e matches ExprV::Binop(
                be,
                _,
                _,
            ) && spec_precedence(be) >= min))
            &&& (!(st.pos < t.len() && op_prec_at(t, st.pos) >= min) ==> e == lhs && st2 == st)
        },
    decreases t.len() - st.pos, 6nat,
{
    if st.pos < t.len() {
        let b = op_val(t[st.pos]);
        assert(bop_of_kind(t[st.pos].kind) == Some(b));
        if spec_precedence(b) >= min {
            let v = word_val(t[st.pos + 1]);
            lemma_primary_word(t, adv(st), v);
            let st1 = adv(adv(st));
            lemma_climb_chain(t, st1, ExprV::Word(v), spec_precedence(b));
            match sp_climb(t, st1, ExprV::Word(v), spec_precedence(b)) {
                Ok((rhs2, st3)) => {
                    let nl = ExprV::Binop(b, Box::new(lhs), Box::new(rhs2));
                    assert(pair_words(t, st.pos, st3.pos) == seq![v] + pair_words(t, st1.pos, st3.pos));
                    assert(pair_ops(t, st.pos, st3.pos) == seq![b] + pair_ops(t, st1.pos, st3.pos));
                    assert(leaves(nl) =~= leaves(lhs) + pair_words(t, st.pos, st3.pos));
                    assert(operators(nl) =~= operators(lhs) + pair_ops(t, st.pos, st3.pos));
                    lemma_pratt_chain(t, st3, nl, min);
                    match sp_pratt(t, st3, nl, min) {
                        Ok((e, st4)) => {
                            lemma_pairs_concat(t, st.pos, st3.pos, st4.pos);
                            assert(leaves(e) =~= leaves(lhs) + pair_words(t, st.pos, st4.pos));
                            assert(operators(e) =~= operators(lhs) + pair_ops(t, st.pos, st4.pos));
                        },
                        Err(_) => {},
                    }
                },
                Err(_) => {},
            }
        } else {
            assert(pair_words(t, st.pos, st.pos) =~= Seq::<i64>::empty());
            assert(pair_ops(t, st.pos, st.pos) =~= Seq::<Bop>::empty());
            assert(leaves(lhs) + Seq::<i64>::empty() =~= leaves(lhs));
            assert(operators(lhs) + Seq::<Bop>::empty() =~= operators(lhs));
        }
    } else {
        assert(leaves(lhs) + Seq::<i64>::empty() =~= leaves(lhs));
        assert(operators(lhs) + Seq::<Bop>::empty() =~= operators(lhs));
    }
}

proof fn lemma_climb_chain<'a>(t: Seq<Token<'a>>, st: PState, rhs: ExprV, pred: nat)
    requires
        op_word_pairs(t, st.pos),
        0 <= st.pos,
        prec_tree(rhs),
        rhs matches ExprV::Binop(br, _, _) ==> spec_precedence(br) > pred && (st.pos < t.len()
            ==> spec_precedence(br) >= op_prec_at(t, st.pos)),
    ensures
        sp_climb(t, st, rhs, pred) matches Ok((e, st2)) && {
            &&& st2.names == st.names
            &&& st.pos <= st2.pos <= t.len()
            &&& (st2.pos - st.pos) % 2 == 0
            &&& op_word_pairs(t, st2.pos)
            &&& (st2.pos < t.len() ==> op_prec_at(t, st2.pos) <= pred)
            &&& prec_tree(e)
            &&& (e matches ExprV::Binop(be, _, _) ==> spec_precedence(be) > pred)
            &&& leaves(e) == leaves(rhs) + pair_words(t, st.pos, st2.pos)
            &&& operators(e) == operators(rhs) + pair_ops(t, st.pos, st2.pos)
        },
    decreases t.len() - st.pos, 7nat,
{
    assert(leaves(rhs) + Seq::<i64>::empty() =~= leaves(rhs));
    assert(operators(rhs) + Seq::<Bop>::empty() =~= operators(rhs));
    assert(pair_words(t, st.pos, st.pos) =~= Seq::<i64>::empty());
    assert(pair_ops(t, st.pos, st.pos) =~= Seq::<Bop>::empty());
    if st.pos < t.len() {
        let nb = op_val(t[st.pos]);
        assert(bop_of_kind(t[st.pos].kind) == Some(nb));
        if spec_precedence(nb) > pred {
            lemma_pratt_chain(t, st, rhs, spec_precedence(nb));
            match sp_pratt(t, st, rhs, spec_precedence(nb)) {
                Ok((r2, st2)) => {
                    lemma_climb_chain(t, st2, r2, pred);
                    match sp_climb(t, st2, r2, pred) {
                        Ok((e, st3)) => {
                            lemma_pairs_concat(t, st.pos, st2.pos, st3.pos);
                            assert(leaves(e) =~= leaves(rhs) + pair_words(t, st.pos, st3.pos));
                            assert(operators(e) =~= operators(rhs) + pair_ops(t, st.pos, st3.pos));
                        },
                        Err(_) => {},
                    }
                },
                Err(_) => {},
            }
        }
    }
}

/// Precedence climbing: a chain of words joined by binary operators, of any
/// length, parses to the one tree that keeps its words and operators in order
/// and respects precedence: an operation's left operand, if an operation, binds
/// at least as tightly, and its right operand, if an operation, binds strictly
/// more tightly. The whole chain is read.
pub proof fn law_chain_respects_precedence<'a>(t: Seq<Token<'a>>, names: Names)
    requires
        t.len() >= 1,
        t[0].kind is Word,
        op_word_pairs(t, 1),
    ensures
        sp_expr(t, PState { pos: 0, names: names }) matches Ok((e, st)) && {
            &&& st == PState { pos: t.len() as int, names: names }
            &&& prec_tree(e)
            &&& leaves(e) == seq![word_val(t[0])] + pair_words(t, 1, t.len() as int)
            &&& operators(e) == pair_ops(t, 1, t.len() as int)
        },
{
    let st0 = PState { pos: 0, names: names };
    let v = word_val(t[0]);
    lemma_primary_word(t, st0, v);
    assert(!peek_is(t, st0, TokenKind::If()));
    assert(!peek_is(t, st0, TokenKind::Let()));
    lemma_pratt_chain(t, adv(st0), ExprV::Word(v), 0);
    assert(operators(ExprV::Word(v)) + pair_ops(t, 1, t.len() as int) =~= pair_ops(t, 1, t.len() as int));
}

/// A definition is named by a symbol in the global namespace.
pub open spec fn named_globally(n: AstNodeV) -> bool {
    match n {
        AstNodeV::Global(s, _) => s.1 == Namespace::Global,
        AstNodeV::Function(s, _) => s.1 == Namespace::Global,
    }
}

proof fn lemma_lookup_ns(names: Names, s: Seq<char>, ns: Namespace)
    ensures
        lookup(names, s, ns) matches Some(sym) ==> sym.1 == ns,
        sp_intern(names, s, ns).0.1 == ns,
    decreases names.len(),
{
    if names.len() > 0 {
        lemma_lookup_ns(names.drop_last(), s, ns);
    }
}

proof fn lemma_toplevel_named_globally<'a>(t: Seq<Token<'a>>, st: PState, acc: Seq<AstNodeV>)
    requires
        forall|i: int| 0 <= i < acc.len() ==> named_globally(#[trigger] acc[i]),
    ensures
        sp_toplevel(t, st, acc) matches Ok((nodes, _)) ==> forall|i: int|
            0 <= i < nodes.len() ==> named_globally(#[trigger] nodes[i]),
    decreases t.len() - st.pos,
{
    match at(t, st) {
        None => {},
        Some(tk) => {
            let node = match tk.kind {
                TokenKind::Identifier(_) => sp_global(t, st),
                TokenKind::Fun() => sp_fun(t, st),
                _ => Err(tok_err(Some(tk))),
            };
            match node {
                Ok((n, st2)) => if progressed(t, st, st2) {
                    assert forall|names: Names, x: Seq<char>| #[trigger] sp_intern(names, x, Namespace::Global).0.1
                        == Namespace::Global by {
                        lemma_lookup_ns(names, x, Namespace::Global);
                    }
                    assert(named_globally(n));
                    let acc2 = acc.push(n);
                    assert forall|i: int| 0 <= i < acc2.len() implies named_globally(#[trigger] acc2[i]) by {
                        if i < acc.len() {
                            assert(acc2[i] == acc[i]);
                        }
                    }
                    lemma_toplevel_named_globally(t, st2, acc2);
                },
                Err(_) => {},
            }
        },
    }
}

/// Every definition a parse gives is named by a symbol in the global namespace.
pub proof fn law_definitions_named_globally<'a>(t: Seq<Token<'a>>)
    ensures
        sp_parse(t) matches Ok(nodes) ==> forall|i: int| 0 <= i < nodes.len() ==> named_globally(#[trigger] nodes[i]),
{
    lemma_toplevel_named_globally(t, PState { pos: 0, names: Seq::empty() }, Seq::empty());
}

// ---------------------------------------------------------------- the parser

/// The parser's state: the tokens, the index of the next one, and the interner.
struct ParseCtx<'a> {
    toks: Vec<Token<'a>>,
    pos: usize,
    interner: Interner,
}

impl<'a> ParseCtx<'a> {
    spec fn wf(&self) -> bool {
        self.pos <= self.toks.len()
    }

    spec fn pst(&self) -> PState {
        PState { pos: self.pos as int, names: self.interner.view() }
    }
}

/// `after` is a well-formed state over the same tokens as `before`.
spec fn kept<'a>(before: ParseCtx<'a>, after: ParseCtx<'a>) -> bool {
    after.wf() && after.toks@ == before.toks@
}

spec fn expr_res<'a>(r: Result<Expr, ParserError>, c: ParseCtx<'a>, sr: PRes<ExprV>) -> bool {
    match sr {
        Ok((v, st)) => r matches Ok(x) && x.view() == v && c.pst() == st,
        Err(pe) => r matches Err(x) && x.view() == pe,
    }
}

spec fn cons_res<'a>(r: Result<Construct, ParserError>, c: ParseCtx<'a>, sr: PRes<ConstructV>) -> bool {
    match sr {
        Ok((v, st)) => r matches Ok(x) && x.view() == v && c.pst() == st,
        Err(pe) => r matches Err(x) && x.view() == pe,
    }
}

spec fn node_res<'a>(r: Result<AstNode, ParserError>, c: ParseCtx<'a>, sr: PRes<AstNodeV>) -> bool {
    match sr {
        Ok((v, st)) => r matches Ok(x) && x.view() == v && c.pst() == st,
        Err(pe) => r matches Err(x) && x.view() == pe,
    }
}

/// Takes a token of kind `kind_exp`; an error at the token found otherwise.
fn check_next(ctx: &mut ParseCtx, kind_exp: TokenKind) -> (r: Result<(), ParserError>)
    requires
        old(ctx).wf(),
    ensures
        kept(*old(ctx), *final(ctx)),
        match sp_check_next(old(ctx).toks@, old(ctx).pst(), kind_exp) {
            Ok(st) => r is Ok && final(ctx).pst() == st,
            Err(pe) => r matches Err(e) && e.view() == pe,
        },
{
    if ctx.pos >= ctx.toks.len() {
        return Err(p_err_tok(None));
    }
    let p = ctx.pos;
    ctx.pos = ctx.pos + 1;
    if ctx.toks[p].kind.same(&kind_exp) {
        Ok(())
    } else {
        Err(p_err_reftok(Some(&ctx.toks[p])))
    }
}

/// The next token is of kind `kind_exp`; an error at the token seen otherwise.
fn check_peek(ctx: &ParseCtx, kind_exp: TokenKind) -> (r: Result<(), ParserError>)
    requires
        ctx.wf(),
    ensures
        r is Ok <==> peek_is(ctx.toks@, ctx.pst(), kind_exp),
        r matches Err(e) ==> e.view() == tok_err(at(ctx.toks@, ctx.pst())),
{
    if ctx.pos < ctx.toks.len() && ctx.toks[ctx.pos].kind.same(&kind_exp) {
        Ok(())
    } else {
        Err(p_err_reftok(get_peek(ctx)))
    }
}

/// The next token is an identifier.
fn check_peek_ident(ctx: &ParseCtx) -> (r: Result<(), ParserError>)
    requires
        ctx.wf(),
    ensures
        r is Ok <==> (at(ctx.toks@, ctx.pst()) matches Some(tk) && tk.kind is Identifier),
        r matches Err(e) ==> e.view() == tok_err(at(ctx.toks@, ctx.pst())),
{
    match get_peek(ctx) {
        Some(tok) => match tok.kind {
            TokenKind::Identifier(_) => Ok(()),
            _ => Err(p_err_reftok(Some(tok))),
        },
        None => Err(p_err_reftok(None)),
    }
}

/// The next token is a word.
fn check_peek_word(ctx: &ParseCtx) -> (r: Result<(), ParserError>)
    requires
        ctx.wf(),
    ensures
        r is Ok <==> (at(ctx.toks@, ctx.pst()) matches Some(tk) && tk.kind is Word),
        r matches Err(e) ==> e.view() == tok_err(at(ctx.toks@, ctx.pst())),
{
    match get_peek(ctx) {
        Some(tok) => match tok.kind {
            TokenKind::Word(_) => Ok(()),
            _ => Err(p_err_reftok(Some(tok))),
        },
        None => Err(p_err_reftok(None)),
    }
}

/// Takes an identifier and gives its text.
fn get_ident(ctx: &mut ParseCtx) -> (r: Result<String, ParserError>)
    requires
        old(ctx).wf(),
    ensures
        kept(*old(ctx), *final(ctx)),
        match sp_get_ident(old(ctx).toks@, old(ctx).pst()) {
            Ok((s, st)) => r matches Ok(x) && x@ == s && final(ctx).pst() == st,
            Err(pe) => r matches Err(e) && e.view() == pe,
        },
{
    if ctx.pos >= ctx.toks.len() {
        return Err(p_err_tok(None));
    }
    let p = ctx.pos;
    ctx.pos = ctx.pos + 1;
    match &ctx.toks[p].kind {
        TokenKind::Identifier(s) => Ok(s.clone()),
        _ => Err(p_err_reftok(Some(&ctx.toks[p]))),
    }
}

/// Takes a word and gives its value.
fn get_word(ctx: &mut ParseCtx) -> (r: Result<i64, ParserError>)
    requires
        old(ctx).wf(),
    ensures
        kept(*old(ctx), *final(ctx)),
        match sp_get_word(old(ctx).toks@, old(ctx).pst()) {
            Ok((v, st)) => r == Ok::<i64, ParserError>(v) && final(ctx).pst() == st,
            Err(pe) => r matches Err(e) && e.view() == pe,
        },
{
    if ctx.pos >= ctx.toks.len() {
        return Err(p_err_tok(None));
    }
    let p = ctx.pos;
    ctx.pos = ctx.pos + 1;
    match &ctx.toks[p].kind {
        TokenKind::Word(v) => Ok(*v),
        _ => Err(p_err_reftok(Some(&ctx.toks[p]))),
    }
}

/// The next token, if any.
fn get_peek<'b, 'a>(ctx: &'b ParseCtx<'a>) -> (r: Option<&'b Token<'a>>)
    requires
        ctx.wf(),
    ensures
        match at(ctx.toks@, ctx.pst()) {
            Some(tk) => r matches Some(x) && *x == tk,
            None => r is None,
        },
{
    if ctx.pos < ctx.toks.len() {
        Some(&ctx.toks[ctx.pos])
    } else {
        None
    }
}

/// Resolves a name used in an expression: as a binding, else as a global.
fn resolve_use(interner: &Interner, s: &String) -> (r: Result<Symbol, ParserError>)
    ensures
        match sp_resolve_use(interner.view(), s@) {
            Ok(sym) => r == Ok::<Symbol, ParserError>(sym),
            Err(pe) => r matches Err(e) && e.view() == pe,
        },
{
    match interner.resolve(s, Namespace::Binding) {
        Ok(sym) => Ok(sym),
        Err(_) => interner.resolve(s, Namespace::Global),
    }
}

/// atom := ident | word | '(' expr ')'
fn parse_atom(ctx: &mut ParseCtx) -> (r: Result<Expr, ParserError>)
    requires
        old(ctx).wf(),
    ensures
        kept(*old(ctx), *final(ctx)),
        expr_res(r, *final(ctx), sp_atom(old(ctx).toks@, old(ctx).pst())),
        r is Ok ==> old(ctx).pos < final(ctx).pos,
    decreases old(ctx).toks@.len() - old(ctx).pos, 1nat,
{
    if check_peek(ctx, TokenKind::LParam()).is_ok() {
        match check_next(ctx, TokenKind::LParam()) {
            Ok(()) => {},
            Err(e) => return Err(e),
        }
        let e = match parse_expr(ctx) {
            Ok(e) => e,
            Err(e) => return Err(e),
        };
        match check_next(ctx, TokenKind::RParam()) {
            Ok(()) => {},
            Err(e) => return Err(e),
        }
        return Ok(e);
    }
    if ctx.pos >= ctx.toks.len() {
        return Err(p_err_tok(None));
    }
    let p = ctx.pos;
    ctx.pos = ctx.pos + 1;
    match &ctx.toks[p].kind {
        TokenKind::Identifier(s) => match resolve_use(&ctx.interner, s) {
            Ok(sym) => Ok(Expr::Lhs(Lhs::Ident(sym))),
            Err(e) => Err(e),
        },
        TokenKind::Word(v) => Ok(Expr::Word(*v)),
        _ => Err(p_err_reftok(Some(&ctx.toks[p]))),
    }
}

/// apply := ident atom+ (a call) | atom
fn parse_apply(ctx: &mut ParseCtx) -> (r: Result<Expr, ParserError>)
    requires
        old(ctx).wf(),
    ensures
        kept(*old(ctx), *final(ctx)),
        expr_res(r, *final(ctx), sp_apply(old(ctx).toks@, old(ctx).pst())),
        r is Ok ==> old(ctx).pos < final(ctx).pos,
    decreases old(ctx).toks@.len() - old(ctx).pos, 3nat,
{
    if check_peek_ident(ctx).is_ok() {
        let ghost t = ctx.toks@;
        let ident = match get_ident(ctx) {
            Ok(s) => s,
            Err(e) => return Err(e),
        };
        let sym = match resolve_use(&ctx.interner, &ident) {
            Ok(sym) => sym,
            Err(e) => return Err(e),
        };
        let ghost st1 = ctx.pst();
        let mut args: Vec<Expr> = Vec::new();
        let mut go = true;
        proof {
            lemma_exprs_view_push(args@, Expr::Word(0));
            assert(exprs_view(args@) =~= Seq::<ExprV>::empty());
        }
        while go
            invariant
                kept(*old(ctx), *ctx),
                t == ctx.toks@,
                old(ctx).pos < ctx.pos,
                st1.pos <= ctx.pos,
                st1 == adv(old(ctx).pst()),
                at(t, old(ctx).pst()) matches Some(tk) && tk.kind matches TokenKind::Identifier(s)
                    && sp_resolve_use(old(ctx).pst().names, s@) == Ok::<Symbol, PErr>(sym),
                go ==> sp_args(t, st1, Seq::empty()) == sp_args(t, ctx.pst(), exprs_view(args@)),
                !go ==> sp_args(t, st1, Seq::empty()) == Ok::<(Seq<ExprV>, PState), PErr>(
                    (exprs_view(args@), ctx.pst()),
                ),
            decreases ctx.toks@.len() - ctx.pos + (if go { 1int } else { 0int }),
        {
            let cont = match get_peek(ctx) {
                Some(tok) => starts_atom(tok),
                None => false,
            };
            if cont {
                let ghost acc = exprs_view(args@);
                let ghost cur = ctx.pst();
                match parse_atom(ctx) {
                    Ok(a) => {
                        proof {
                            lemma_exprs_view_push(args@, a);
                        }
                        args.push(a);
                    },
                    Err(e) => {
                        proof {
                            assert(sp_args(t, cur, acc) == Err::<(Seq<ExprV>, PState), PErr>(
                                e.view(),
                            ));
                        }
                        return Err(e);
                    },
                }
            } else {
                go = false;
            }
        }
        proof {
            lemma_exprs_view_push(args@, Expr::Word(0));
        }
        return if args.len() == 0 {
            Ok(Expr::Lhs(Lhs::Ident(sym)))
        } else {
            Ok(Expr::Call(Lhs::Ident(sym), args))
        };
    }
    parse_atom(ctx)
}

/// unary := '-' unary | apply
fn parse_unary(ctx: &mut ParseCtx) -> (r: Result<Expr, ParserError>)
    requires
        old(ctx).wf(),
    ensures
        kept(*old(ctx), *final(ctx)),
        expr_res(r, *final(ctx), sp_unary(old(ctx).toks@, old(ctx).pst())),
        r is Ok ==> old(ctx).pos < final(ctx).pos,
    decreases old(ctx).toks@.len() - old(ctx).pos, 4nat,
{
    if check_peek(ctx, TokenKind::Minus()).is_ok() {
        match check_next(ctx, TokenKind::Minus()) {
            Ok(()) => {},
            Err(e) => return Err(e),
        }
        let operand = match parse_unary(ctx) {
            Ok(e) => e,
            Err(e) => return Err(e),
        };
        return Ok(Expr::Unop(Uop::Neg(), Box::new(operand)));
    }
    parse_apply(ctx)
}

/// primary := unary
fn parse_primary(ctx: &mut ParseCtx) -> (r: Result<Expr, ParserError>)
    requires
        old(ctx).wf(),
    ensures
        kept(*old(ctx), *final(ctx)),
        expr_res(r, *final(ctx), sp_primary(old(ctx).toks@, old(ctx).pst())),
        r is Ok ==> old(ctx).pos < final(ctx).pos,
    decreases old(ctx).toks@.len() - old(ctx).pos, 5nat,
{
    parse_unary(ctx)
}

/// The next token is an operator binding at least as tightly as `min`.
spec fn op_ahead<'a>(t: Seq<Token<'a>>, st: PState, min: nat) -> bool {
    at(t, st) matches Some(tk) && bop_of_kind(tk.kind) matches Some(b) && spec_precedence(b) >= min
}

/// Precedence climbing from `lhs` over the operators binding at least as tightly
/// as `min_pred`.
fn parse_pratt(ctx: &mut ParseCtx, lhs: Expr, min_pred: usize) -> (r: Result<Expr, ParserError>)
    requires
        old(ctx).wf(),
    ensures
        kept(*old(ctx), *final(ctx)),
        expr_res(r, *final(ctx), sp_pratt(old(ctx).toks@, old(ctx).pst(), lhs.view(), min_pred as nat)),
        r is Ok ==> old(ctx).pos <= final(ctx).pos,
        r is Ok && op_ahead(old(ctx).toks@, old(ctx).pst(), min_pred as nat) ==> old(ctx).pos
            < final(ctx).pos,
    decreases old(ctx).toks@.len() - old(ctx).pos, 6nat,
{
    let ghost t = ctx.toks@;
    let ghost st0 = ctx.pst();
    let ghost lhs0 = lhs.view();
    let min = min_pred;
    let mut acc = lhs;
    loop
        invariant
            kept(*old(ctx), *ctx),
            t == ctx.toks@,
            st0 == old(ctx).pst(),
            min == min_pred,
            lhs0 == lhs.view(),
            old(ctx).pos <= ctx.pos,
            ctx.pos == old(ctx).pos ==> ctx.pst() == st0,
            sp_pratt(t, st0, lhs0, min as nat) == sp_pratt(t, ctx.pst(), acc.view(), min as nat),
        ensures
            kept(*old(ctx), *ctx),
            old(ctx).pos <= ctx.pos,
            ctx.pos == old(ctx).pos ==> !op_ahead(t, st0, min as nat),
            sp_pratt(t, st0, lhs0, min as nat) == Ok::<(ExprV, PState), PErr>((acc.view(), ctx.pst())),
        decreases ctx.toks@.len() - ctx.pos,
    {
        let bop = match get_peek(ctx) {
            Some(tok) => match bop_of_tok(tok) {
                Some(b) => b,
                None => break,
            },
            None => break,
        };
        let pred = precedence(bop);
        if pred < min {
            break;
        }
        let ghost st = ctx.pst();
        ctx.pos = ctx.pos + 1;
        let mut rhs = match parse_primary(ctx) {
            Ok(e) => e,
            Err(e) => {
                proof {
                    assert(sp_pratt(t, st, acc.view(), min as nat) == Err::<(ExprV, PState), PErr>(
                        e.view(),
                    ));
                    assert(sp_pratt(t, st0, lhs0, min as nat) == Err::<(ExprV, PState), PErr>(
                        e.view(),
                    ));
                }
                return Err(e);
            },
        };
        let ghost st2 = ctx.pst();
        let ghost rhs0 = rhs.view();
        loop
            invariant
                kept(*old(ctx), *ctx),
                t == ctx.toks@,
                old(ctx).pos <= st.pos < st2.pos <= ctx.pos,
                sp_climb(t, st2, rhs0, pred as nat) == sp_climb(t, ctx.pst(), rhs.view(), pred as nat),
                min == min_pred,
                lhs0 == lhs.view(),
                st0 == old(ctx).pst(),
                sp_pratt(t, st0, lhs0, min as nat) == sp_pratt(t, st, acc.view(), min as nat),
                at(t, st) matches Some(tk) && bop_of_kind(tk.kind) == Some(bop),
                pred == spec_precedence(bop),
                pred >= min,
                sp_primary(t, adv(st)) == Ok::<(ExprV, PState), PErr>((rhs0, st2)),
            ensures
                kept(*old(ctx), *ctx),
                st2.pos <= ctx.pos,
                sp_climb(t, st2, rhs0, pred as nat) == Ok::<(ExprV, PState), PErr>((rhs.view(), ctx.pst())),
            decreases ctx.toks@.len() - ctx.pos,
        {
            let next_pred = match get_peek(ctx) {
                Some(nt) => match bop_of_tok(nt) {
                    Some(nb) => precedence(nb),
                    None => break,
                },
                None => break,
            };
            if next_pred > pred {
                let ghost cur = ctx.pst();
                let ghost rv = rhs.view();
                rhs = match parse_pratt(ctx, rhs, next_pred) {
                    Ok(e) => e,
                    Err(e) => {
                        proof {
                            assert(sp_climb(t, cur, rv, pred as nat) == Err::<(ExprV, PState), PErr>(
                                e.view(),
                            ));
                        }
                        return Err(e);
                    },
                };
            } else {
                break;
            }
        }
        acc = Expr::Binop(bop, Box::new(acc), Box::new(rhs));
    }
    Ok(acc)
}

/// expr := cond | 'let' ident '=' expr 'in' expr | primary (op primary)*
fn parse_expr(ctx: &mut ParseCtx) -> (r: Result<Expr, ParserError>)
    requires
        old(ctx).wf(),
    ensures
        kept(*old(ctx), *final(ctx)),
        expr_res(r, *final(ctx), sp_expr(old(ctx).toks@, old(ctx).pst())),
        r is Ok ==> old(ctx).pos < final(ctx).pos,
    decreases old(ctx).toks@.len() - old(ctx).pos, 9nat,
{
    if check_peek(ctx, TokenKind::If()).is_ok() {
        return parse_cond(ctx);
    }
    if check_peek(ctx, TokenKind::Let()).is_ok() {
        match check_next(ctx, TokenKind::Let()) {
            Ok(()) => {},
            Err(e) => return Err(e),
        }
        let ident = match get_ident(ctx) {
            Ok(s) => s,
            Err(e) => return Err(e),
        };
        match check_next(ctx, TokenKind::Eq()) {
            Ok(()) => {},
            Err(e) => return Err(e),
        }
        let e1 = match parse_expr(ctx) {
            Ok(e) => e,
            Err(e) => return Err(e),
        };
        match check_next(ctx, TokenKind::In()) {
            Ok(()) => {},
            Err(e) => return Err(e),
        }
        let sym = ctx.interner.intern(&ident, Namespace::Binding);
        let e2 = match parse_expr(ctx) {
            Ok(e) => e,
            Err(e) => return Err(e),
        };
        return Ok(Expr::Let(Lhs::Ident(sym), Box::new(e1), Box::new(e2)));
    }
    let lhs = match parse_primary(ctx) {
        Ok(e) => e,
        Err(e) => return Err(e),
    };
    parse_pratt(ctx, lhs, 0)
}

/// cons := ident | 'word' | 'pack' '[' word ']'
fn parse_cons(ctx: &mut ParseCtx) -> (r: Result<Construct, ParserError>)
    requires
        old(ctx).wf(),
    ensures
        kept(*old(ctx), *final(ctx)),
        cons_res(r, *final(ctx), sp_cons(old(ctx).toks@, old(ctx).pst())),
        r is Ok ==> old(ctx).pos < final(ctx).pos,
{
    if check_peek_ident(ctx).is_ok() {
        let cons_alias = match get_ident(ctx) {
            Ok(s) => s,
            Err(e) => return Err(e),
        };
        return Ok(Construct::Alias(ctx.interner.intern(&cons_alias, Namespace::Binding)));
    }
    if ctx.pos >= ctx.toks.len() {
        return Err(p_err_tok(None));
    }
    let p = ctx.pos;
    ctx.pos = ctx.pos + 1;
    match &ctx.toks[p].kind {
        TokenKind::TWord() => Ok(Construct::Word()),
        TokenKind::TPack() => {
            match check_next(ctx, TokenKind::LBracket()) {
                Ok(()) => {},
                Err(e) => return Err(e),
            }
            let size = match get_word(ctx) {
                Ok(v) => v,
                Err(e) => return Err(e),
            };
            match check_next(ctx, TokenKind::RBracket()) {
                Ok(()) => {},
                Err(e) => return Err(e),
            }
            Ok(Construct::Pack(size))
        },
        _ => Err(p_err_reftok(Some(&ctx.toks[p]))),
    }
}

/// cond := 'if' expr 'then' expr 'else' expr
fn parse_cond(ctx: &mut ParseCtx) -> (r: Result<Expr, ParserError>)
    requires
        old(ctx).wf(),
    ensures
        kept(*old(ctx), *final(ctx)),
        expr_res(r, *final(ctx), sp_cond(old(ctx).toks@, old(ctx).pst())),
        r is Ok ==> old(ctx).pos < final(ctx).pos,
    decreases old(ctx).toks@.len() - old(ctx).pos, 8nat,
{
    match check_next(ctx, TokenKind::If()) {
        Ok(()) => {},
        Err(e) => return Err(e),
    }
    let c = match parse_expr(ctx) {
        Ok(e) => e,
        Err(e) => return Err(e),
    };
    match check_next(ctx, TokenKind::Then()) {
        Ok(()) => {},
        Err(e) => return Err(e),
    }
    let iff = match parse_expr(ctx) {
        Ok(e) => e,
        Err(e) => return Err(e),
    };
    match check_next(ctx, TokenKind::Else()) {
        Ok(()) => {},
        Err(e) => return Err(e),
    }
    let elze = match parse_expr(ctx) {
        Ok(e) => e,
        Err(e) => return Err(e),
    };
    Ok(Expr::Cond(Box::new(c), Box::new(iff), Box::new(elze)))
}

/// Appending a parameter appends its view.
proof fn lemma_params_view_push(s: Seq<Param>, p: Param)
    ensures
        params_view(s.push(p)) == params_view(s).push(ParamV { ident: p.ident, cons: p.cons.view() }),
{
    assert(params_view(s.push(p)) =~= params_view(s).push(ParamV { ident: p.ident, cons: p.cons.view() }));
}

/// fun := 'fun' ident ('(' ident ':' cons ')')* '=' expr
fn parse_fun(ctx: &mut ParseCtx) -> (r: Result<AstNode, ParserError>)
    requires
        old(ctx).wf(),
    ensures
        kept(*old(ctx), *final(ctx)),
        node_res(r, *final(ctx), sp_fun(old(ctx).toks@, old(ctx).pst())),
        r is Ok ==> old(ctx).pos < final(ctx).pos,
{
    let ghost t = ctx.toks@;
    match check_next(ctx, TokenKind::Fun()) {
        Ok(()) => {},
        Err(e) => return Err(e),
    }
    let ident = match get_ident(ctx) {
        Ok(s) => s,
        Err(e) => return Err(e),
    };
    let ghost st2 = ctx.pst();
    let mut args: Vec<Param> = Vec::new();
    assert(params_view(args@) =~= Seq::<ParamV>::empty());
    while !check_peek(ctx, TokenKind::Eq()).is_ok()
        invariant
            kept(*old(ctx), *ctx),
            t == ctx.toks@,
            old(ctx).pos < st2.pos <= ctx.pos,
            sp_fun(t, old(ctx).pst()) == match sp_params(t, st2, Seq::empty()) {
                Err(pe) => Err(pe),
                Ok((args, st3)) => match sp_check_next(t, st3, TokenKind::Eq()) {
                    Err(pe) => Err(pe),
                    Ok(st4) => match sp_expr(t, st4) {
                        Err(pe) => Err(pe),
                        Ok((body, st5)) => {
                            let (sym, names) = sp_intern(st5.names, ident@, Namespace::Global);
                            Ok(
                                (
                                    AstNodeV::Function(sym, FunctionV { args: args, body: body }),
                                    with_names(st5, names),
                                ),
                            )
                        },
                    },
                },
            },
            sp_params(t, st2, Seq::empty()) == sp_params(t, ctx.pst(), params_view(args@)),
        decreases ctx.toks@.len() - ctx.pos,
    {
        match check_next(ctx, TokenKind::LParam()) {
            Ok(()) => {},
            Err(e) => return Err(e),
        }
        let param_ident = match get_ident(ctx) {
            Ok(s) => s,
            Err(e) => return Err(e),
        };
        match check_next(ctx, TokenKind::Colon()) {
            Ok(()) => {},
            Err(e) => return Err(e),
        }
        let param_cons = match parse_cons(ctx) {
            Ok(c) => c,
            Err(e) => return Err(e),
        };
        match check_next(ctx, TokenKind::RParam()) {
            Ok(()) => {},
            Err(e) => return Err(e),
        }
        let p = Param { ident: ctx.interner.intern(&param_ident, Namespace::Binding), cons: param_cons };
        proof {
            lemma_params_view_push(args@, p);
        }
        args.push(p);
    }
    match check_next(ctx, TokenKind::Eq()) {
        Ok(()) => {},
        Err(e) => return Err(e),
    }
    let expr = match parse_expr(ctx) {
        Ok(e) => e,
        Err(e) => return Err(e),
    };
    Ok(AstNode::Function(
        ctx.interner.intern(&ident, Namespace::Global),
        Box::new(Function { args, body: Box::new(expr) }),
    ))
}

/// global := ident '=' expr
fn parse_global(ctx: &mut ParseCtx) -> (r: Result<AstNode, ParserError>)
    requires
        old(ctx).wf(),
    ensures
        kept(*old(ctx), *final(ctx)),
        node_res(r, *final(ctx), sp_global(old(ctx).toks@, old(ctx).pst())),
        r is Ok ==> old(ctx).pos < final(ctx).pos,
{
    let ident = match get_ident(ctx) {
        Ok(s) => s,
        Err(e) => return Err(e),
    };
    match check_next(ctx, TokenKind::Eq()) {
        Ok(()) => {},
        Err(e) => return Err(e),
    }
    let expr = match parse_expr(ctx) {
        Ok(e) => e,
        Err(e) => return Err(e),
    };
    Ok(AstNode::Global(ctx.interner.intern(&ident, Namespace::Global), Box::new(expr)))
}

/// Definitions until the tokens run out.
fn parse_toplevel(ctx: &mut ParseCtx) -> (r: Result<Vec<AstNode>, ParserError>)
    requires
        old(ctx).wf(),
    ensures
        match sp_toplevel(old(ctx).toks@, old(ctx).pst(), Seq::empty()) {
            Ok((nodes, _)) => r matches Ok(v) && nodes_view(v@) == nodes,
            Err(pe) => r matches Err(e) && e.view() == pe,
        },
{
    let ghost t = ctx.toks@;
    let ghost st0 = ctx.pst();
    let mut prog: Vec<AstNode> = Vec::new();
    assert(nodes_view(prog@) =~= Seq::<AstNodeV>::empty());
    loop
        invariant
            kept(*old(ctx), *ctx),
            t == ctx.toks@,
            st0 == old(ctx).pst(),
            sp_toplevel(t, st0, Seq::empty()) == sp_toplevel(t, ctx.pst(), nodes_view(prog@)),
        decreases ctx.toks@.len() - ctx.pos,
    {
        let ghost cur = ctx.pst();
        let node = match get_peek(ctx) {
            None => {
                return Ok(prog);
            },
            Some(token) => match token.kind {
                TokenKind::Identifier(_) => parse_global(ctx),
                TokenKind::Fun() => parse_fun(ctx),
                _ => return Err(p_err_reftok(get_peek(ctx))),
            },
        };
        match node {
            Ok(n) => {
                assert(nodes_view(prog@.push(n)) =~= nodes_view(prog@).push(n.view()));
                prog.push(n);
            },
            Err(e) => return Err(e),
        }
    }
}

/// Parses a program from its tokens: definitions in order, with each identifier
/// interned as the grammar of `sp_parse` lays down.
pub fn parse(tokens: Vec<Token>) -> (r: Result<Vec<AstNode>, ParserError>)
    ensures
        match sp_parse(tokens@) {
            Ok(nodes) => r matches Ok(v) && nodes_view(v@) == nodes,
            Err(pe) => r matches Err(e) && e.view() == pe,
        },
{
    let mut ctx = ParseCtx { toks: tokens, pos: 0, interner: Interner::new() };
    parse_toplevel(&mut ctx)
}

} // verus!

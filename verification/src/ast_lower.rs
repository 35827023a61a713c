//! Lowering of the AST to BIR.
//!
//! Globals are folded to constants in the reverse of the order
//! `petgraph::algo::toposort` gives their dependency graph, so that each global
//! is folded after the globals it names; functions are compiled to a stream of statements,
//! labels and terminators, which is then cut into blocks. Only a part of the
//! language lowers yet: folding handles words, names and `let`, and compilation
//! handles words, names and additions. The spec functions below say what each
//! part gives, with `Stop` where the lowering has no answer yet.
use crate::ast::{
    nodes_view, params_view, AstNode, AstNodeV, Bop as ABop, Expr, ExprV, Function, FunctionV, Lhs,
    ParamV, Symbol,
};
use crate::bir::{
    labelled_view, prog_view, stmts_view, Block, BlockV, Bop as BBop, Decl, DeclV, FParam, Func,
    FuncV, Global as BGlobal, Operand, Prog, Reg, Stmt, StmtKind, StmtKindV, StmtV, Term,
};
use crate::err::AstBirError;
use crate::global_cycle::{
    get_global_graph, global_graph, graph_toposort, has_cycle, key_sym, key_symbol,
    law_graph_has_references, law_symbol_key_roundtrip, sym_key, toposort_order, is_key,
    lemma_graph_nodes_keyed,
};
use vstd::prelude::*;

verus! {

// ---------------------------------------------------------------- symbol tables

/// The map a list of bindings stands for: a later binding of a symbol replaces an
/// earlier one.
pub open spec fn map_of(s: Seq<(Symbol, Operand)>) -> Map<Symbol, Operand>
    decreases s.len(),
{
    if s.len() == 0 {
        Map::empty()
    } else {
        map_of(s.drop_last()).insert(s.last().0, s.last().1)
    }
}

/// The operand a map gives a symbol.
pub open spec fn map_get(m: Map<Symbol, Operand>, s: Symbol) -> Option<Operand> {
    if m.dom().contains(s) {
        Some(m[s])
    } else {
        None
    }
}

/// The operand bound to `s`.
fn lookup_operand(v: &Vec<(Symbol, Operand)>, s: Symbol) -> (r: Option<Operand>)
    ensures
        r == map_get(map_of(v@), s),
{
    let mut i = v.len();
    assert(v@.take(i as int) =~= v@);
    while i > 0
        invariant
            i <= v.len(),
            map_get(map_of(v@), s) == map_get(map_of(v@.take(i as int)), s),
        decreases i,
    {
        assert(v@.take(i as int).drop_last() =~= v@.take(i - 1));
        if v[i - 1].0 == s {
            return Some(v[i - 1].1);
        }
        i = i - 1;
    }
    assert(v@.take(0) =~= Seq::<(Symbol, Operand)>::empty());
    None
}

/// The compilation context: the next register number and the operand of each
/// symbol in scope.
pub struct CompileCtx {
    next_uid: usize,
    sym_uids: Vec<(Symbol, Operand)>,
}

/// The mathematical value of a compilation context.
pub struct CtxV {
    pub next: usize,
    pub uids: Map<Symbol, Operand>,
}

impl CompileCtx {
    pub closed spec fn view(&self) -> CtxV {
        CtxV { next: self.next_uid, uids: map_of(self.sym_uids@) }
    }

    /// A context with no symbol, numbering registers from 0.
    pub fn new() -> (r: Self)
        ensures
            r.view() == (CtxV { next: 0, uids: Map::empty() }),
    {
        Self { next_uid: 0, sym_uids: Vec::new() }
    }

    /// A fresh register number: the next one, which is then used up.
    pub fn next_id(self: &mut Self) -> (r: usize)
        requires
            old(self).view().next < usize::MAX,
        ensures
            r == old(self).view().next,
            final(self).view() == (CtxV { next: (r + 1) as usize, uids: old(self).view().uids }),
    {
        let tmp = self.next_uid;
        self.next_uid = self.next_uid + 1;
        tmp
    }

    /// The operand of `sym`, if it is in scope.
    pub fn get_uid(self: &Self, sym: &Symbol) -> (r: Option<Operand>)
        ensures
            r == map_get(self.view().uids, *sym),
    {
        lookup_operand(&self.sym_uids, *sym)
    }

    /// `sym` is in scope.
    pub fn has_uid(self: &Self, sym: &Symbol) -> (r: bool)
        ensures
            r == self.view().uids.dom().contains(*sym),
    {
        lookup_operand(&self.sym_uids, *sym).is_some()
    }

    /// Puts `sym` in scope as `reg`; gives the operand it had before, if any.
    pub fn add_local(self: &mut Self, sym: Symbol, reg: Operand) -> (r: Option<Operand>)
        ensures
            r == map_get(old(self).view().uids, sym),
            final(self).view() == (CtxV { next: old(self).view().next, uids: old(self).view().uids.insert(sym, reg) }),
    {
        let prev = lookup_operand(&self.sym_uids, sym);
        self.sym_uids.push((sym, reg));
        assert(self.sym_uids@.drop_last() =~= old(self).sym_uids@);
        prev
    }
}

/// After `add_local(sym, reg)`, `get_uid(sym)` gives `reg`, `has_uid(sym)` holds,
/// and every other symbol keeps its operand.
pub proof fn law_get_after_add(c: CtxV, sym: Symbol, reg: Operand, other: Symbol)
    ensures
        map_get(c.uids.insert(sym, reg), sym) == Some(reg),
        c.uids.insert(sym, reg).dom().contains(sym),
        other != sym ==> map_get(c.uids.insert(sym, reg), other) == map_get(c.uids, other),
{
}

/// The symbols in scope after `add_local` of each binding of `adds`, in order.
pub open spec fn add_all(m: Map<Symbol, Operand>, adds: Seq<(Symbol, Operand)>) -> Map<Symbol, Operand>
    decreases adds.len(),
{
    if adds.len() == 0 {
        m
    } else {
        add_all(m, adds.drop_last()).insert(adds.last().0, adds.last().1)
    }
}

/// After `add_local(sym, reg)`, `get_uid(sym)` gives `reg` for as long as no later
/// `add_local` names `sym`, whatever other symbols are added.
pub proof fn law_get_after_later_adds(c: CtxV, sym: Symbol, reg: Operand, later: Seq<(Symbol, Operand)>)
    requires
        forall|i: int| 0 <= i < later.len() ==> (#[trigger] later[i]).0 != sym,
    ensures
        map_get(add_all(c.uids.insert(sym, reg), later), sym) == Some(reg),
    decreases later.len(),
{
    if later.len() > 0 {
        let p = later.drop_last();
        assert forall|i: int| 0 <= i < p.len() implies (#[trigger] p[i]).0 != sym by {
            assert(p[i] == later[i]);
        }
        law_get_after_later_adds(c, sym, reg, p);
        assert(later[later.len() - 1].0 != sym);
    }
}

/// `has_uid` holds exactly where `get_uid` gives an operand.
pub proof fn law_has_iff_get(c: CtxV, sym: Symbol)
    ensures
        c.uids.dom().contains(sym) <==> map_get(c.uids, sym) is Some,
{
}

// ---------------------------------------------------------------- streams and blocks

/// An element of the stream a function body compiles to.
#[derive(Debug)]
pub enum Elem {
    S(Stmt),
    L(String),
    T(Term),
}

pub enum ElemV {
    S(StmtV),
    L(Seq<char>),
    T(Term),
}

impl Elem {
    pub open spec fn view(&self) -> ElemV {
        match self {
            Elem::S(s) => ElemV::S(s.view()),
            Elem::L(l) => ElemV::L(l@),
            Elem::T(t) => ElemV::T(*t),
        }
    }
}

pub open spec fn elems_view(s: Seq<Elem>) -> Seq<ElemV> {
    Seq::new(s.len(), |i: int| s[i].view())
}

/// The characters of an optional label.
pub open spec fn opt_view(o: Option<String>) -> Option<Seq<char>> {
    match o {
        Some(l) => Some(l@),
        None => None,
    }
}

/// The index of the first label at or after `i` (or the length).
pub open spec fn first_label_from(s: Seq<ElemV>, i: int) -> int
    decreases s.len() - i,
{
    if i < 0 || i >= s.len() {
        s.len() as int
    } else if s[i] is L {
        i
    } else {
        first_label_from(s, i + 1)
    }
}

/// The statements of a stream, in order.
pub open spec fn stmts_of(s: Seq<ElemV>) -> Seq<StmtV>
    decreases s.len(),
{
    if s.len() == 0 {
        Seq::empty()
    } else {
        match s.last() {
            ElemV::S(st) => stmts_of(s.drop_last()).push(st),
            _ => stmts_of(s.drop_last()),
        }
    }
}

/// The last terminator of a stream.
pub open spec fn last_term(s: Seq<ElemV>) -> Option<Term>
    decreases s.len(),
{
    if s.len() == 0 {
        None
    } else {
        match s.last() {
            ElemV::T(t) => Some(t),
            _ => last_term(s.drop_last()),
        }
    }
}

/// The index of the entry labelled `k`, searching from `i`.
pub open spec fn find_label_from(m: Seq<(Seq<char>, BlockV)>, k: Seq<char>, i: int) -> Option<int>
    decreases m.len() - i,
{
    if i < 0 || i >= m.len() {
        None
    } else if m[i].0 == k {
        Some(i)
    } else {
        find_label_from(m, k, i + 1)
    }
}

/// Labelled blocks after block `b` is put under label `k`: it replaces the block of
/// that label, or is added last.
pub open spec fn label_insert(m: Seq<(Seq<char>, BlockV)>, k: Seq<char>, b: BlockV) -> Seq<(Seq<char>, BlockV)> {
    match find_label_from(m, k, 0) {
        Some(i) => m.update(i, (k, b)),
        None => m.push((k, b)),
    }
}

/// After the entry block: a label opens a block (closing the open one, if any,
/// without a terminator; statements outside any label are dropped), a statement
/// joins the open block, a terminator closes it; a terminator with no open block
/// is an error (`None`). A block left open at the end is dropped.
pub open spec fn sp_labelled(
    s: Seq<ElemV>,
    lbl: Option<Seq<char>>,
    stmts: Seq<StmtV>,
    blks: Seq<(Seq<char>, BlockV)>,
) -> Option<Seq<(Seq<char>, BlockV)>>
    decreases s.len(),
{
    if s.len() == 0 {
        Some(blks)
    } else {
        match s[0] {
            ElemV::L(x) => sp_labelled(
                s.skip(1),
                Some(x),
                Seq::empty(),
                match lbl {
                    Some(l) => label_insert(blks, l, BlockV { stmts: stmts, term: None }),
                    None => blks,
                },
            ),
            ElemV::S(st) => sp_labelled(s.skip(1), lbl, stmts.push(st), blks),
            ElemV::T(t) => match lbl {
                Some(l) => sp_labelled(
                    s.skip(1),
                    None,
                    Seq::empty(),
                    label_insert(blks, l, BlockV { stmts: stmts, term: Some(t) }),
                ),
                None => None,
            },
        }
    }
}

/// The blocks of a stream: the elements before the first label make the entry
/// block (its statements in order, its last terminator); the rest make the
/// labelled blocks as `sp_labelled` says. `None` is the blocking error.
pub open spec fn sp_blocks(s: Seq<ElemV>) -> Option<(BlockV, Seq<(Seq<char>, BlockV)>)> {
    let k = first_label_from(s, 0);
    let entry = BlockV { stmts: stmts_of(s.take(k)), term: last_term(s.take(k)) };
    if k >= s.len() {
        Some((entry, Seq::empty()))
    } else {
        match sp_labelled(s.skip(k), None, Seq::empty(), Seq::empty()) {
            Some(b) => Some((entry, b)),
            None => None,
        }
    }
}

proof fn lemma_first_label_bounds(s: Seq<ElemV>, i: int)
    requires
        0 <= i <= s.len(),
    ensures
        i <= first_label_from(s, i) <= s.len(),
        first_label_from(s, i) < s.len() ==> s[first_label_from(s, i)] is L,
    decreases s.len() - i,
{
    if i < s.len() && !(s[i] is L) {
        lemma_first_label_bounds(s, i + 1);
    }
}

/// The elements in reverse order.
fn reversed<T>(v: Vec<T>) -> (r: Vec<T>)
    ensures
        r.len() == v.len(),
        forall|j: int| 0 <= j < v.len() ==> #[trigger] r@[j] == v@[v.len() - 1 - j],
{
    let mut v = v;
    let ghost orig = v@;
    let mut r: Vec<T> = Vec::new();
    while v.len() > 0
        invariant
            v.len() + r.len() == orig.len(),
            v@ == orig.take(v.len() as int),
            forall|j: int| 0 <= j < r.len() ==> #[trigger] r@[j] == orig[orig.len() - 1 - j],
        decreases v.len(),
    {
        let x = v.pop().unwrap();
        r.push(x);
        assert(v@ =~= orig.take(v.len() as int));
    }
    r
}

/// Puts block `b` under label `k` in `blks`, replacing the block of that label.
fn insert_labelled(blks: &mut Vec<(String, Block)>, k: String, b: Block)
    ensures
        labelled_view(final(blks)@) == label_insert(labelled_view(old(blks)@), k@, b.view()),
{
    let ghost m = labelled_view(blks@);
    let mut i: usize = 0;
    while i < blks.len()
        invariant
            i <= blks.len(),
            m == labelled_view(blks@),
            blks@ == old(blks)@,
            find_label_from(m, k@, 0) == find_label_from(m, k@, i as int),
        decreases blks.len() - i,
    {
        if blks[i].0 == k {
            assert(m[i as int].0 == k@);
            let ghost kv = k@;
            let ghost bv = b.view();
            blks.set(i, (k, b));
            assert(labelled_view(blks@) =~= m.update(i as int, (kv, bv)));
            return;
        }
        i = i + 1;
    }
    let ghost kv = k@;
    let ghost bv = b.view();
    blks.push((k, b));
    assert(labelled_view(blks@) =~= m.push((kv, bv)));
}

/// Cuts a stream into its entry block and its labelled blocks (see `sp_blocks`).
pub fn blocks_of_stream(stream: Vec<Elem>) -> (r: Result<(Block, Vec<(String, Block)>), AstBirError>)
    ensures
        match sp_blocks(elems_view(stream@)) {
            Some((entry, blks)) => r matches Ok((e, b)) && e.view() == entry && labelled_view(b@) == blks,
            None => r == Err::<(Block, Vec<(String, Block)>), AstBirError>(AstBirError::DevBlockingError()),
        },
{
    let ghost s = elems_view(stream@);
    let n = stream.len();
    let mut rest = reversed(stream);
    let mut ent_blk = Block { stmts: Vec::new(), term: None };
    proof {
        lemma_first_label_bounds(s, 0);
        assert(s.take(0) =~= Seq::<ElemV>::empty());
        assert(stmts_view(ent_blk.stmts@) =~= Seq::<StmtV>::empty());
    }
    // The entry block: everything before the first label.
    loop
        invariant
            rest.len() <= n,
            s.len() == n,
            forall|j: int| 0 <= j < rest.len() ==> #[trigger] rest@[j].view() == s[n - 1 - j],
            n - rest.len() <= first_label_from(s, 0) <= n,
            first_label_from(s, 0) == first_label_from(s, n - rest.len()),
            stmts_view(ent_blk.stmts@) == stmts_of(s.take(n - rest.len())),
            ent_blk.term == last_term(s.take(n - rest.len())),
        ensures
            rest.len() <= n,
            forall|j: int| 0 <= j < rest.len() ==> #[trigger] rest@[j].view() == s[n - 1 - j],
            n - rest.len() == first_label_from(s, 0),
            stmts_view(ent_blk.stmts@) == stmts_of(s.take(n - rest.len())),
            ent_blk.term == last_term(s.take(n - rest.len())),
        decreases rest.len(),
    {
        if rest.len() == 0 {
            break;
        }
        let ghost i = n - rest.len();
        assert(rest@[rest.len() - 1].view() == s[i]);
        assert(s.take(i + 1).drop_last() =~= s.take(i));
        assert(s.take(i + 1).last() == s[i]);
        proof {
            lemma_first_label_bounds(s, i + 1);
        }
        match rest.pop().unwrap() {
            Elem::L(l) => {
                rest.push(Elem::L(l));
                break;
            },
            Elem::S(st) => {
                let ghost sv = st.view();
                ent_blk.stmts.push(st);
                assert(stmts_view(ent_blk.stmts@) =~= stmts_of(s.take(i)).push(sv));
            },
            Elem::T(t) => {
                ent_blk.term = Some(t);
            },
        }
    }
    if rest.len() == 0 {
        return Ok((ent_blk, Vec::new()));
    }
    let ghost k = n - rest.len();
    let mut blks: Vec<(String, Block)> = Vec::new();
    let mut next_lbl: Option<String> = None;
    let mut next_stmts: Vec<Stmt> = Vec::new();
    assert(s.skip(k) =~= s.skip(n - rest.len()));
    assert(labelled_view(blks@) =~= Seq::<(Seq<char>, BlockV)>::empty());
    assert(stmts_view(next_stmts@) =~= Seq::<StmtV>::empty());
    while rest.len() > 0
        invariant
            rest.len() <= n,
            s.len() == n,
            s == elems_view(stream@),
            k == first_label_from(s, 0),
            k < n,
            forall|j: int| 0 <= j < rest.len() ==> #[trigger] rest@[j].view() == s[n - 1 - j],
            sp_labelled(s.skip(k), None, Seq::empty(), Seq::empty()) == sp_labelled(
                s.skip(n - rest.len()),
                opt_view(next_lbl),
                stmts_view(next_stmts@),
                labelled_view(blks@),
            ),
        decreases rest.len(),
    {
        let ghost i = n - rest.len();
        let ghost sv = stmts_view(next_stmts@);
        let ghost bv = labelled_view(blks@);
        assert(rest@[rest.len() - 1].view() == s[i]);
        assert(s.skip(i)[0] == s[i]);
        assert(s.skip(i).skip(1) =~= s.skip(i + 1));
        match rest.pop().unwrap() {
            Elem::L(l) => {
                match next_lbl {
                    Some(lbl) => {
                        insert_labelled(&mut blks, lbl, Block { stmts: next_stmts, term: None });
                    },
                    None => {},
                }
                next_lbl = Some(l);
                next_stmts = Vec::new();
                assert(stmts_view(next_stmts@) =~= Seq::<StmtV>::empty());
            },
            Elem::S(stmt) => {
                let ghost stv = stmt.view();
                next_stmts.push(stmt);
                assert(stmts_view(next_stmts@) =~= sv.push(stv));
            },
            Elem::T(term) => {
                match next_lbl {
                    Some(lbl) => {
                        insert_labelled(&mut blks, lbl, Block { stmts: next_stmts, term: Some(term) });
                        next_lbl = None;
                        next_stmts = Vec::new();
                        assert(stmts_view(next_stmts@) =~= Seq::<StmtV>::empty());
                    },
                    None => {
                        return Err(AstBirError::DevBlockingError());
                    },
                }
            },
        }
    }
    assert(s.skip(n as int) =~= Seq::<ElemV>::empty());
    Ok((ent_blk, blks))
}

// ---------------------------------------------------------------- folding globals

/// The constant a global's expression folds to, in the map of the globals folded
/// so far: a word is itself, a name is its constant, and `let x = e1 in e2` folds
/// its body `e2` with `x` bound to the value of `e1`.
/// `None` where folding has no answer: an unknown name or another expression.
pub open spec fn sp_fold(e: ExprV, g: Map<Symbol, Operand>) -> Option<Operand>
    decreases e,
{
    match e {
        ExprV::Word(w) => Some(Operand::Word(w)),
        ExprV::Lhs(Lhs::Ident(s)) => map_get(g, s),
        ExprV::Let(Lhs::Ident(s), e1, e2) => match sp_fold(*e1, g) {
            Some(c) => sp_fold(*e2, g.insert(s, c)),
            None => None,
        },
        _ => None,
    }
}

/// The constant a global's expression folds to, where folding has an answer
/// (see `sp_fold`).
fn fold_cst(e: &Expr, g: &mut Vec<(Symbol, Operand)>) -> (r: Option<Operand>)
    ensures
        r == sp_fold(e.view(), map_of(old(g)@)),
        final(g)@ == old(g)@,
    decreases e,
{
    match e {
        Expr::Word(s) => Some(Operand::Word(*s)),
        Expr::Lhs(Lhs::Ident(s)) => lookup_operand(g, *s),
        Expr::Let(Lhs::Ident(s), e1, e2) => {
            let cst = match fold_cst(e1, g) {
                Some(c) => c,
                None => return None,
            };
            g.push((*s, cst));
            assert(g@.drop_last() =~= old(g)@);
            let r = fold_cst(e2, g);
            g.pop();
            assert(g@ =~= old(g)@);
            r
        },
        _ => None,
    }
}

// ---------------------------------------------------------------- compiling functions

/// The outcome of compiling an expression: the stream that computes it, the
/// operand that holds its value, and the context after; an error; or `Stop`
/// where compilation has no answer yet (an operator other than `+`, an
/// expression other than a word, a name or a binary operation, or no register
/// number left).
pub enum AuxRes {
    Done(Seq<ElemV>, Operand, CtxV),
    Fail(AstBirError),
    Stop,
}

pub open spec fn sp_aux(e: ExprV, c: CtxV) -> AuxRes
    decreases e,
{
    match e {
        ExprV::Word(i) => AuxRes::Done(Seq::empty(), Operand::Word(i), c),
        ExprV::Lhs(Lhs::Ident(s)) => match map_get(c.uids, s) {
            Some(o) => AuxRes::Done(Seq::empty(), o, c),
            None => AuxRes::Fail(AstBirError::UnboundSymbol(s)),
        },
        ExprV::Binop(b, e1, e2) => match sp_aux(*e1, c) {
            AuxRes::Done(v1, o1, c1) => match sp_aux(*e2, c1) {
                AuxRes::Done(v2, o2, c2) => if c2.next == usize::MAX || b != ABop::Add {
                    AuxRes::Stop
                } else {
                    AuxRes::Done(
                        v1 + v2 + seq![ElemV::S(add_stmt(c2.next, o1, o2))],
                        Operand::Ident(c2.next),
                        CtxV { next: (c2.next + 1) as usize, uids: c2.uids },
                    )
                },
                other => other,
            },
            other => other,
        },
        _ => AuxRes::Stop,
    }
}

/// The statement `dest = add o1, o2`.
pub open spec fn add_stmt(dest: Reg, o1: Operand, o2: Operand) -> StmtV {
    StmtV { dest: Some(dest), stmt: StmtKindV::Bop(BBop::Add, o1, o2) }
}

/// The BIR operation of an AST operator; `None` for the operators that do not
/// lower yet (all but `+`).
fn compile_bop(b: ABop) -> (r: Option<BBop>)
    ensures
        b == ABop::Add ==> r == Some(BBop::Add),
        b != ABop::Add ==> r is None,
{
    match b {
        ABop::Add => Some(BBop::Add),
        _ => None,
    }
}

/// Compiles an expression to a stream and the operand of its value; `None` where
/// compilation has no answer (`AuxRes::Stop`).
fn compile_expr_aux(ctx: &mut CompileCtx, e: &Expr) -> (r: Option<Result<(Vec<Elem>, Operand), AstBirError>>)
    ensures
        match sp_aux(e.view(), old(ctx).view()) {
            AuxRes::Done(v, o, c) => r matches Some(Ok((x, y))) && elems_view(x@) == v && y == o
                && final(ctx).view() == c,
            AuxRes::Fail(err) => r == Some(Err::<(Vec<Elem>, Operand), AstBirError>(err)),
            AuxRes::Stop => r is None,
        },
    decreases e,
{
    match e {
        Expr::Word(i) => {
            let v: Vec<Elem> = Vec::new();
            assert(elems_view(v@) =~= Seq::<ElemV>::empty());
            Some(Ok((v, Operand::Word(*i))))
        },
        Expr::Lhs(Lhs::Ident(s)) => match ctx.get_uid(s) {
            Some(o) => {
                let v: Vec<Elem> = Vec::new();
                assert(elems_view(v@) =~= Seq::<ElemV>::empty());
                Some(Ok((v, o)))
            },
            None => Some(Err(AstBirError::UnboundSymbol(*s))),
        },
        Expr::Binop(b, e1, e2) => {
            let (mut v1, o1) = match compile_expr_aux(ctx, e1) {
                Some(Ok(x)) => x,
                other => return other,
            };
            let (mut v2, o2) = match compile_expr_aux(ctx, e2) {
                Some(Ok(x)) => x,
                other => return other,
            };
            if ctx.next_uid == usize::MAX {
                return None;
            }
            let dest = ctx.next_id();
            let op = match compile_bop(*b) {
                Some(op) => op,
                None => return None,
            };
            let ghost a = elems_view(v1@);
            let ghost bb = elems_view(v2@);
            v1.append(&mut v2);
            let st = Stmt { dest: Some(dest), stmt: StmtKind::Bop(op, o1, o2) };
            v1.push(Elem::S(st));
            assert(elems_view(v1@) =~= a + bb + seq![ElemV::S(add_stmt(dest, o1, o2))]);
            Some(Ok((v1, Operand::Ident(dest))))
        },
        _ => None,
    }
}

/// The outcome of compiling a function body: its stream (ending in a return of its
/// value) and the context after, an error, or `Stop`.
pub enum ExprRes {
    Done(Seq<ElemV>, CtxV),
    Fail(AstBirError),
    Stop,
}

pub open spec fn sp_compile_expr(e: ExprV, c: CtxV) -> ExprRes {
    match sp_aux(e, c) {
        AuxRes::Done(v, o, c1) => ExprRes::Done(v.push(ElemV::T(Term::Ret(o))), c1),
        AuxRes::Fail(err) => ExprRes::Fail(err),
        AuxRes::Stop => ExprRes::Stop,
    }
}

/// Compiles a function body: its stream, ending in the return of its value;
/// `None` where compilation has no answer.
fn compile_expr(ctx: &mut CompileCtx, e: &Expr) -> (r: Option<Result<Vec<Elem>, AstBirError>>)
    ensures
        match sp_compile_expr(e.view(), old(ctx).view()) {
            ExprRes::Done(v, c) => r matches Some(Ok(x)) && elems_view(x@) == v && final(ctx).view() == c,
            ExprRes::Fail(err) => r == Some(Err::<Vec<Elem>, AstBirError>(err)),
            ExprRes::Stop => r is None,
        },
{
    let (mut v, o) = match compile_expr_aux(ctx, e) {
        Some(Ok(x)) => x,
        Some(Err(err)) => return Some(Err(err)),
        None => return None,
    };
    let ghost a = elems_view(v@);
    v.push(Elem::T(Term::Ret(o)));
    assert(elems_view(v@) =~= a.push(ElemV::T(Term::Ret(o))));
    Some(Ok(v))
}

/// Registers for the parameters, in order from the next number, each parameter's
/// symbol bound to its register; `None` when the numbers run out.
pub open spec fn sp_param_regs(args: Seq<ParamV>, c: CtxV) -> Option<(Seq<Reg>, CtxV)>
    decreases args.len(),
{
    if args.len() == 0 {
        Some((Seq::empty(), c))
    } else if c.next == usize::MAX {
        None
    } else {
        let c1 = CtxV {
            next: (c.next + 1) as usize,
            uids: c.uids.insert(args[0].ident, Operand::Ident(c.next)),
        };
        match sp_param_regs(args.skip(1), c1) {
            Some((rs, c2)) => Some((seq![c.next] + rs, c2)),
            None => None,
        }
    }
}

/// The outcome of compiling a function.
pub enum FunRes {
    Done(FuncV, CtxV),
    Fail(AstBirError),
    Stop,
}

/// Compiling function `s`: registers for its parameters, then its body's stream
/// cut into blocks.
pub open spec fn sp_compile_fun(s: Symbol, f: FunctionV, c: CtxV) -> FunRes {
    match sp_param_regs(f.args, c) {
        None => FunRes::Stop,
        Some((regs, c1)) => match sp_compile_expr(f.body, c1) {
            ExprRes::Done(stream, c2) => match sp_blocks(stream) {
                Some((entry, blks)) => FunRes::Done(
                    FuncV { ident: s, args: regs, entry: entry, body: blks },
                    c2,
                ),
                None => FunRes::Fail(AstBirError::DevBlockingError()),
            },
            ExprRes::Fail(err) => FunRes::Fail(err),
            ExprRes::Stop => FunRes::Stop,
        },
    }
}

/// The view of a function definition.
pub open spec fn function_view(f: Function) -> FunctionV {
    FunctionV { args: params_view(f.args@), body: f.body.view() }
}

/// Compiles function `s`.
fn compile_fun(ctx: &mut CompileCtx, s: Symbol, fun: &Function) -> (r: Option<Result<Func, AstBirError>>)
    ensures
        match sp_compile_fun(s, function_view(*fun), old(ctx).view()) {
            FunRes::Done(fv, c) => r matches Some(Ok(x)) && x.view() == fv && final(ctx).view() == c,
            FunRes::Fail(err) => r == Some(Err::<Func, AstBirError>(err)),
            FunRes::Stop => r is None,
        },
{
    let ghost ps = params_view(fun.args@);
    let ghost c0 = ctx.view();
    let mut params: Vec<FParam> = Vec::new();
    let mut i: usize = 0;
    assert(ps.skip(0) =~= ps);
    assert(Seq::new(params@.len(), |j: int| params@[j].ident) =~= Seq::<Reg>::empty());
    while i < fun.args.len()
        invariant
            i <= fun.args.len(),
            ps == params_view(fun.args@),
            ps.len() == fun.args.len(),
            c0 == old(ctx).view(),
            sp_param_regs(ps, c0) == match sp_param_regs(ps.skip(i as int), ctx.view()) {
                Some((rs, c2)) => Some((Seq::new(params@.len(), |j: int| params@[j].ident) + rs, c2)),
                None => None,
            },
        decreases fun.args.len() - i,
    {
        assert(ps.skip(i as int)[0] == ps[i as int]);
        assert(ps.skip(i as int).skip(1) =~= ps.skip(i + 1));
        let ghost before = Seq::new(params@.len(), |j: int| params@[j].ident);
        if ctx.next_uid == usize::MAX {
            assert(ps.skip(i as int).len() > 0);
            assert(sp_param_regs(ps.skip(i as int), ctx.view()) is None);
            return None;
        }
        let ident = ctx.next_id();
        ctx.add_local(fun.args[i].ident, Operand::Ident(ident));
        params.push(FParam { ident });
        i = i + 1;
        proof {
            let now = Seq::new(params@.len(), |j: int| params@[j].ident);
            assert(now =~= before.push(ident));
            match sp_param_regs(ps.skip(i as int), ctx.view()) {
                Some((rs, c2)) => {
                    assert(before + (seq![ident] + rs) =~= now + rs);
                },
                None => {},
            }
        }
    }
    assert(ps.skip(i as int) =~= Seq::<ParamV>::empty());
    let stream = match compile_expr(ctx, &fun.body) {
        Some(Ok(v)) => v,
        Some(Err(err)) => return Some(Err(err)),
        None => return None,
    };
    let (ent, blks) = match blocks_of_stream(stream) {
        Ok(x) => x,
        Err(err) => return Some(Err(err)),
    };
    let f = Func { ident: s, args: params, entry: ent, body: blks };
    proof {
        assert(Seq::new(params@.len(), |j: int| params@[j].ident) + Seq::<Reg>::empty() =~= f.view().args);
    }
    Some(Ok(f))
}

// ---------------------------------------------------------------- the shape of compiled code

/// The register a statement writes (-1 for none).
pub open spec fn stmt_dest(st: StmtV) -> int {
    match st.dest {
        Some(d) => d as int,
        None => -1,
    }
}

/// `v` holds statements only, each writing a register in `[lo, hi)`, in
/// increasing order of registers.
pub open spec fn fresh_stream(v: Seq<ElemV>, lo: int, hi: int) -> bool {
    &&& forall|i: int| 0 <= i < v.len() ==> (#[trigger] v[i] matches ElemV::S(st) && lo <= stmt_dest(st) < hi)
    &&& forall|i: int, j: int|
        0 <= i < j < v.len() ==> (#[trigger] v[i] matches ElemV::S(a) && #[trigger] v[j] matches ElemV::S(b)
            && stmt_dest(a) < stmt_dest(b))
}

proof fn lemma_aux_fresh(e: ExprV, c: CtxV)
    ensures
        sp_aux(e, c) matches AuxRes::Done(v, _, c1) ==> c.next <= c1.next && c1.uids == c.uids
            && fresh_stream(v, c.next as int, c1.next as int),
    decreases e,
{
    match e {
        ExprV::Binop(b, e1, e2) => {
            lemma_aux_fresh(*e1, c);
            match sp_aux(*e1, c) {
                AuxRes::Done(v1, o1, c1) => {
                    lemma_aux_fresh(*e2, c1);
                    match sp_aux(*e2, c1) {
                        AuxRes::Done(v2, o2, c2) => {
                            if !(c2.next == usize::MAX || b != ABop::Add) {
                                let v = v1 + v2 + seq![ElemV::S(add_stmt(c2.next, o1, o2))];
                                let hi = c2.next + 1;
                                assert forall|i: int| 0 <= i < v.len() implies (#[trigger] v[i] matches ElemV::S(st)
                                    && c.next <= stmt_dest(st) < hi) by {
                                    if i < v1.len() {
                                        assert(v[i] == v1[i]);
                                    } else if i < v1.len() + v2.len() {
                                        assert(v[i] == v2[i - v1.len()]);
                                    }
                                }
                                assert forall|i: int, j: int| 0 <= i < j < v.len() implies (#[trigger] v[i] matches ElemV::S(a)
                                    && #[trigger] v[j] matches ElemV::S(bb) && stmt_dest(a) < stmt_dest(bb)) by {
                                    if j < v1.len() {
                                        assert(v[i] == v1[i] && v[j] == v1[j]);
                                    } else if i < v1.len() && j < v1.len() + v2.len() {
                                        assert(v[i] == v1[i] && v[j] == v2[j - v1.len()]);
                                    } else if i < v1.len() {
                                        assert(v[i] == v1[i]);
                                    } else if j < v1.len() + v2.len() {
                                        assert(v[i] == v2[i - v1.len()] && v[j] == v2[j - v1.len()]);
                                    } else {
                                        assert(v[i] == v2[i - v1.len()]);
                                    }
                                }
                            }
                        },
                        _ => {},
                    }
                },
                _ => {},
            }
        },
        _ => {},
    }
}

/// Only one return: a compiled body is statements only, then one terminator,
/// the return of its value, last.
pub proof fn law_one_return(e: ExprV, c: CtxV)
    ensures
        sp_compile_expr(e, c) matches ExprRes::Done(v, _) ==> {
            &&& v.len() >= 1
            &&& v.last() matches ElemV::T(Term::Ret(_))
            &&& forall|i: int| 0 <= i < v.len() - 1 ==> #[trigger] v[i] is S
        },
{
    lemma_aux_fresh(e, c);
    match sp_aux(e, c) {
        AuxRes::Done(v, o, c1) => {
            let w = v.push(ElemV::T(Term::Ret(o)));
            assert forall|i: int| 0 <= i < w.len() - 1 implies #[trigger] w[i] is S by {
                assert(w[i] == v[i]);
            }
        },
        _ => {},
    }
}

proof fn lemma_no_label_from(s: Seq<ElemV>, j: int)
    requires
        0 <= j <= s.len(),
        forall|i: int| j <= i < s.len() ==> !(#[trigger] s[i] is L),
    ensures
        first_label_from(s, j) == s.len(),
    decreases s.len() - j,
{
    if j < s.len() {
        lemma_no_label_from(s, j + 1);
    }
}

/// A stream without labels makes one block, the entry, with all its statements
/// in order and its last terminator, and no labelled block.
pub proof fn law_blocks_without_labels(s: Seq<ElemV>)
    requires
        forall|i: int| 0 <= i < s.len() ==> !(#[trigger] s[i] is L),
    ensures
        sp_blocks(s) == Some((BlockV { stmts: stmts_of(s), term: last_term(s) }, Seq::<(Seq<char>, BlockV)>::empty())),
{
    lemma_no_label_from(s, 0);
    assert(s.take(s.len() as int) =~= s);
}

proof fn lemma_stmts_of_fresh(v: Seq<ElemV>, lo: int, hi: int)
    requires
        fresh_stream(v, lo, hi),
    ensures
        stmts_of(v).len() == v.len(),
        forall|i: int| 0 <= i < v.len() ==> v[i] == ElemV::S(#[trigger] stmts_of(v)[i]),
    decreases v.len(),
{
    if v.len() > 0 {
        let p = v.drop_last();
        assert forall|i: int| 0 <= i < p.len() implies (#[trigger] p[i] matches ElemV::S(st) && lo <= stmt_dest(st) < hi) by {
            assert(p[i] == v[i]);
        }
        assert forall|i: int, j: int| 0 <= i < j < p.len() implies (#[trigger] p[i] matches ElemV::S(a)
            && #[trigger] p[j] matches ElemV::S(b) && stmt_dest(a) < stmt_dest(b)) by {
            assert(p[i] == v[i] && p[j] == v[j]);
        }
        lemma_stmts_of_fresh(p, lo, hi);
        assert(v[v.len() - 1] is S);
        assert forall|i: int| 0 <= i < v.len() implies v[i] == ElemV::S(#[trigger] stmts_of(v)[i]) by {
            if i < v.len() - 1 {
                assert(p[i] == v[i]);
            }
        }
    }
}

proof fn lemma_param_regs(args: Seq<ParamV>, c: CtxV)
    ensures
        sp_param_regs(args, c) matches Some((regs, c1)) ==> regs.len() == args.len() && c1.next == c.next
            + args.len() && forall|k: int| 0 <= k < regs.len() ==> #[trigger] regs[k] == c.next + k,
    decreases args.len(),
{
    if args.len() > 0 && c.next != usize::MAX {
        let c1 = CtxV {
            next: (c.next + 1) as usize,
            uids: c.uids.insert(args[0].ident, Operand::Ident(c.next)),
        };
        lemma_param_regs(args.skip(1), c1);
        match sp_param_regs(args.skip(1), c1) {
            Some((rs, c2)) => {
                let regs = seq![c.next] + rs;
                assert forall|k: int| 0 <= k < regs.len() implies #[trigger] regs[k] == c.next + k by {
                    if k > 0 {
                        assert(regs[k] == rs[k - 1]);
                    }
                }
            },
            None => {},
        }
    }
}

/// Parameter `k` is the last one named by its symbol.
pub open spec fn last_param(args: Seq<ParamV>, k: int) -> bool {
    forall|m: int| k < m < args.len() ==> #[trigger] args[m].ident != args[k].ident
}

/// No parameter is named by `x`.
pub open spec fn not_param(args: Seq<ParamV>, x: Symbol) -> bool {
    forall|m: int| 0 <= m < args.len() ==> #[trigger] args[m].ident != x
}

proof fn lemma_params_step(args: Seq<ParamV>, c: CtxV, c1: CtxV, rs: Seq<Reg>, c2: CtxV)
    requires
        args.len() > 0,
        c1.uids == c.uids.insert(args[0].ident, Operand::Ident(c.next)),
        rs.len() == args.len() - 1,
        forall|k: int|
            0 <= k < args.len() - 1 && last_param(args.skip(1), k) ==> map_get(c2.uids, #[trigger] args.skip(1)[k].ident)
                == Some(Operand::Ident(rs[k])),
        forall|x: Symbol| not_param(args.skip(1), x) ==> #[trigger] map_get(c2.uids, x) == map_get(c1.uids, x),
    ensures
        forall|k: int|
            0 <= k < args.len() && last_param(args, k) ==> map_get(c2.uids, #[trigger] args[k].ident) == Some(
                Operand::Ident((seq![c.next] + rs)[k]),
            ),
        forall|x: Symbol| not_param(args, x) ==> #[trigger] map_get(c2.uids, x) == map_get(c.uids, x),
{
    let rest = args.skip(1);
    let regs = seq![c.next] + rs;
    assert forall|k: int| 0 <= k < args.len() && last_param(args, k) implies map_get(
        c2.uids,
        #[trigger] args[k].ident,
    ) == Some(Operand::Ident(regs[k])) by {
        if k == 0 {
            assert forall|m: int| 0 <= m < rest.len() implies #[trigger] rest[m].ident != args[0].ident by {
                assert(rest[m] == args[m + 1]);
            }
            assert(not_param(rest, args[0].ident));
            assert(map_get(c2.uids, args[0].ident) == map_get(c1.uids, args[0].ident));
        } else {
            assert(rest[k - 1] == args[k]);
            assert(regs[k] == rs[k - 1]);
            assert forall|m: int| k - 1 < m < rest.len() implies #[trigger] rest[m].ident != rest[k - 1].ident by {
                assert(rest[m] == args[m + 1]);
            }
            assert(last_param(rest, k - 1));
            assert(map_get(c2.uids, rest[k - 1].ident) == Some(Operand::Ident(rs[k - 1])));
        }
    }
    assert forall|x: Symbol| not_param(args, x) implies #[trigger] map_get(c2.uids, x) == map_get(c.uids, x) by {
        assert(args[0].ident != x);
        assert forall|m: int| 0 <= m < rest.len() implies #[trigger] rest[m].ident != x by {
            assert(rest[m] == args[m + 1]);
        }
        assert(not_param(rest, x));
    }
}

/// Binding the parameters puts each parameter's symbol in scope as the register
/// listed for it, whatever the context held for that symbol before (for a symbol
/// that names several parameters, the last one's register), and leaves every
/// other symbol as it was.
pub proof fn law_params_bound_to_their_registers(args: Seq<ParamV>, c: CtxV)
    ensures
        sp_param_regs(args, c) matches Some((regs, c1)) ==> {
            &&& regs.len() == args.len()
            &&& forall|k: int|
                0 <= k < args.len() && last_param(args, k) ==> map_get(c1.uids, #[trigger] args[k].ident) == Some(
                    Operand::Ident(regs[k]),
                )
            &&& forall|x: Symbol| not_param(args, x) ==> #[trigger] map_get(c1.uids, x) == map_get(c.uids, x)
        },
    decreases args.len(),
{
    lemma_param_regs(args, c);
    if args.len() > 0 && c.next != usize::MAX {
        let c1 = CtxV {
            next: (c.next + 1) as usize,
            uids: c.uids.insert(args[0].ident, Operand::Ident(c.next)),
        };
        let rest = args.skip(1);
        law_params_bound_to_their_registers(rest, c1);
        match sp_param_regs(rest, c1) {
            Some((rs, c2)) => {
                lemma_params_step(args, c, c1, rs, c2);
            },
            None => {},
        }
    }
}

/// A function reads its own parameters: where its body adds a word to parameter
/// `k` (the last of its name), the compiled function adds that word to the
/// register of its own parameter `k` and returns the sum, whatever the context
/// held for that name before.
pub proof fn law_function_reads_own_parameter(s: Symbol, f: FunctionV, c: CtxV, k: int, w: i64)
    requires
        0 <= k < f.args.len(),
        last_param(f.args, k),
        f.body == ExprV::Binop(ABop::Add, Box::new(ExprV::Lhs(Lhs::Ident(f.args[k].ident))), Box::new(ExprV::Word(w))),
    ensures
        sp_compile_fun(s, f, c) matches FunRes::Done(fv, _) ==> {
            &&& fv.entry.stmts.len() == 1
            &&& fv.entry.stmts[0].stmt == StmtKindV::Bop(BBop::Add, Operand::Ident(fv.args[k]), Operand::Word(w))
            &&& fv.entry.term == Some(Term::Ret(Operand::Ident(fv.entry.stmts[0].dest->0)))
        },
{
    law_params_bound_to_their_registers(f.args, c);
    match sp_param_regs(f.args, c) {
        Some((regs, c1)) => {
            let x = f.args[k].ident;
            assert(map_get(c1.uids, x) == Some(Operand::Ident(regs[k])));
            if c1.next != usize::MAX {
                let st = add_stmt(c1.next, Operand::Ident(regs[k]), Operand::Word(w));
                let c2 = CtxV { next: (c1.next + 1) as usize, uids: c1.uids };
                assert(sp_aux(ExprV::Lhs(Lhs::Ident(x)), c1) == AuxRes::Done(Seq::empty(), Operand::Ident(regs[k]), c1));
                assert(sp_aux(ExprV::Word(w), c1) == AuxRes::Done(Seq::empty(), Operand::Word(w), c1));
                let v = Seq::<ElemV>::empty() + Seq::<ElemV>::empty() + seq![ElemV::S(st)];
                assert(sp_aux(f.body, c1) == AuxRes::Done(v, Operand::Ident(c1.next), c2));
                let stream = v.push(ElemV::T(Term::Ret(Operand::Ident(c1.next))));
                assert(stream =~= seq![ElemV::S(st), ElemV::T(Term::Ret(Operand::Ident(c1.next)))]);
                law_blocks_without_labels(stream);
                assert(stream.drop_last() =~= seq![ElemV::S(st)]);
                assert(seq![ElemV::S(st)].drop_last() =~= Seq::<ElemV>::empty());
                assert(stmts_of(Seq::<ElemV>::empty()) == Seq::<StmtV>::empty());
                assert(Seq::<StmtV>::empty().push(st) =~= seq![st]);
                assert(stmts_of(seq![ElemV::S(st)]) == seq![st]);
                assert(stmts_of(stream) == seq![st]);
                assert(last_term(stream) == Some(Term::Ret(Operand::Ident(c1.next))));
            }
        },
        None => {},
    }
}

/// A compiled function is one block, its entry, which ends in the return of the
/// body's value. Its parameters get the registers from the context's next number
/// on, in order, and its statements write the registers after those: each
/// statement writes one, in increasing order, so no register is written twice.
pub proof fn law_compiled_function_shape(s: Symbol, f: FunctionV, c: CtxV)
    ensures
        sp_compile_fun(s, f, c) matches FunRes::Done(fv, c2) ==> {
            &&& fv.ident == s
            &&& fv.body.len() == 0
            &&& fv.entry.term matches Some(Term::Ret(_))
            &&& fv.args.len() == f.args.len()
            &&& forall|k: int| 0 <= k < fv.args.len() ==> #[trigger] fv.args[k] == c.next + k
            &&& forall|i: int|
                0 <= i < fv.entry.stmts.len() ==> c.next + f.args.len() <= #[trigger] stmt_dest(fv.entry.stmts[i])
                    < c2.next
            &&& forall|i: int, j: int|
                0 <= i < j < fv.entry.stmts.len() ==> #[trigger] stmt_dest(fv.entry.stmts[i]) < #[trigger] stmt_dest(
                    fv.entry.stmts[j],
                )
        },
{
    lemma_param_regs(f.args, c);
    match sp_param_regs(f.args, c) {
        Some((regs, c1)) => {
            lemma_aux_fresh(f.body, c1);
            match sp_aux(f.body, c1) {
                AuxRes::Done(v, o, c2) => {
                    let stream = v.push(ElemV::T(Term::Ret(o)));
                    assert forall|i: int| 0 <= i < stream.len() implies !(#[trigger] stream[i] is L) by {
                        if i < v.len() {
                            assert(stream[i] == v[i]);
                        }
                    }
                    lemma_no_label_from(stream, 0);
                    assert(stream.take(stream.len() as int) =~= stream);
                    assert(stream.drop_last() =~= v);
                    lemma_stmts_of_fresh(v, c1.next as int, c2.next as int);
                    let sts = stmts_of(stream);
                    assert(sts == stmts_of(v));
                    assert forall|i: int| 0 <= i < sts.len() implies c.next + f.args.len() <= #[trigger] stmt_dest(sts[i])
                        < c2.next by {
                        assert(v[i] == ElemV::S(stmts_of(v)[i]));
                    }
                    assert forall|i: int, j: int| 0 <= i < j < sts.len() implies #[trigger] stmt_dest(sts[i])
                        < #[trigger] stmt_dest(sts[j]) by {
                        assert(v[i] == ElemV::S(stmts_of(v)[i]));
                        assert(v[j] == ElemV::S(stmts_of(v)[j]));
                    }
                },
                _ => {},
            }
        },
        None => {},
    }
}

// ---------------------------------------------------------------- programs

/// `k` names a global of the program.
pub open spec fn is_global(nodes: Seq<AstNodeV>, k: Symbol) -> bool {
    exists|i: int| #![trigger nodes[i]] 0 <= i < nodes.len() && (nodes[i] matches AstNodeV::Global(g, _) && g == k)
}

/// `k` names a function of the program.
pub open spec fn is_fun(nodes: Seq<AstNodeV>, k: Symbol) -> bool {
    exists|i: int| #![trigger nodes[i]] 0 <= i < nodes.len() && (nodes[i] matches AstNodeV::Function(f, _) && f == k)
}

/// The expression of the last definition of global `s`.
pub open spec fn gdecl_of(nodes: Seq<AstNodeV>, s: Symbol) -> Option<ExprV>
    decreases nodes.len(),
{
    if nodes.len() == 0 {
        None
    } else {
        match nodes.last() {
            AstNodeV::Global(g, e) => if g == s {
                Some(e)
            } else {
                gdecl_of(nodes.drop_last(), s)
            },
            _ => gdecl_of(nodes.drop_last(), s),
        }
    }
}

/// The index of function `s` in `m`, searching from `i`.
pub open spec fn find_fun_from(m: Seq<(Symbol, FunctionV)>, s: Symbol, i: int) -> Option<int>
    decreases m.len() - i,
{
    if i < 0 || i >= m.len() {
        None
    } else if m[i].0 == s {
        Some(i)
    } else {
        find_fun_from(m, s, i + 1)
    }
}

/// The functions after `f` is defined as `s`: it replaces an earlier definition of
/// `s` in place, or is added last.
pub open spec fn fd_insert(m: Seq<(Symbol, FunctionV)>, s: Symbol, f: FunctionV) -> Seq<(Symbol, FunctionV)> {
    match find_fun_from(m, s, 0) {
        Some(i) => m.update(i, (s, f)),
        None => m.push((s, f)),
    }
}

/// The functions of a program: each name once, in the order first defined, with
/// its last definition.
pub open spec fn fdecls_of(nodes: Seq<AstNodeV>) -> Seq<(Symbol, FunctionV)>
    decreases nodes.len(),
{
    if nodes.len() == 0 {
        Seq::empty()
    } else {
        match nodes.last() {
            AstNodeV::Function(s, f) => fd_insert(fdecls_of(nodes.drop_last()), s, f),
            _ => fdecls_of(nodes.drop_last()),
        }
    }
}

/// Folding the globals along `order`: each symbol of the order must be a global,
/// whose expression folds in the map of the ones before; gives their declarations
/// in order and the map. `None` where the lowering has no answer.
pub open spec fn fold_globals(nodes: Seq<AstNodeV>, order: Seq<Symbol>) -> Option<(Seq<DeclV>, Map<Symbol, Operand>)>
    decreases order.len(),
{
    if order.len() == 0 {
        Some((Seq::empty(), Map::empty()))
    } else {
        match fold_globals(nodes, order.drop_last()) {
            Some((ds, g)) => match gdecl_of(nodes, order.last()) {
                Some(e) => match sp_fold(e, g) {
                    Some(op) => Some(
                        (ds.push(DeclV::GDecl(order.last(), op)), g.insert(order.last(), op)),
                    ),
                    None => None,
                },
                None => None,
            },
            None => None,
        }
    }
}

proof fn lemma_fold_word(e: ExprV, g: Map<Symbol, Operand>)
    requires
        forall|k: Symbol| #[trigger] g.dom().contains(k) ==> g[k] is Word,
    ensures
        sp_fold(e, g) matches Some(op) ==> op is Word,
    decreases e,
{
    match e {
        ExprV::Let(Lhs::Ident(s), e1, e2) => {
            lemma_fold_word(*e1, g);
            match sp_fold(*e1, g) {
                Some(c) => {
                    let g1 = g.insert(s, c);
                    assert forall|k: Symbol| #[trigger] g1.dom().contains(k) implies g1[k] is Word by {
                        if k != s {
                            assert(g.dom().contains(k));
                        }
                    }
                    lemma_fold_word(*e2, g1);
                },
                None => {},
            }
        },
        _ => {},
    }
}

/// Globals are constants: folding the globals along an order gives one
/// declaration for each symbol of the order, in that order, and each holds a
/// word; a global defined as a word holds that word.
pub proof fn law_globals_fold_to_words(nodes: Seq<AstNodeV>, order: Seq<Symbol>)
    ensures
        fold_globals(nodes, order) matches Some((ds, g)) ==> {
            &&& ds.len() == order.len()
            &&& forall|i: int| 0 <= i < ds.len() ==> (#[trigger] ds[i] matches DeclV::GDecl(s, op) && s == order[i] && op is Word)
            &&& forall|i: int| 0 <= i < ds.len() ==> (gdecl_of(nodes, order[i]) matches Some(ExprV::Word(w))
                ==> #[trigger] ds[i] == DeclV::GDecl(order[i], Operand::Word(w)))
            &&& forall|k: Symbol| #[trigger] g.dom().contains(k) ==> g[k] is Word
        },
    decreases order.len(),
{
    if order.len() > 0 {
        let p = order.drop_last();
        law_globals_fold_to_words(nodes, p);
        match fold_globals(nodes, p) {
            Some((ds, g)) => match gdecl_of(nodes, order.last()) {
                Some(e) => {
                    lemma_fold_word(e, g);
                    match sp_fold(e, g) {
                        Some(op) => {
                            let ds1 = ds.push(DeclV::GDecl(order.last(), op));
                            let g1 = g.insert(order.last(), op);
                            assert forall|i: int| 0 <= i < ds1.len() implies (#[trigger] ds1[i] matches DeclV::GDecl(s, o) && s == order[i] && o is Word) by {
                                if i < ds.len() {
                                    assert(ds1[i] == ds[i]);
                                    assert(p[i] == order[i]);
                                }
                            }
                            assert forall|i: int| 0 <= i < ds1.len() implies (gdecl_of(nodes, order[i]) matches Some(ExprV::Word(w))
                                ==> #[trigger] ds1[i] == DeclV::GDecl(order[i], Operand::Word(w))) by {
                                if i < ds.len() {
                                    assert(ds1[i] == ds[i]);
                                    assert(p[i] == order[i]);
                                }
                            }
                            assert forall|k: Symbol| #[trigger] g1.dom().contains(k) implies g1[k] is Word by {
                                if k != order.last() {
                                    assert(g.dom().contains(k));
                                }
                            }
                        },
                        None => {},
                    }
                },
                None => {},
            },
            None => {},
        }
    }
}

/// Globals defined as words always fold: along any order of such globals,
/// folding has an answer, each declaration holding the global's word.
pub proof fn law_word_globals_fold(nodes: Seq<AstNodeV>, order: Seq<Symbol>)
    requires
        forall|i: int| 0 <= i < order.len() ==> (#[trigger] gdecl_of(nodes, order[i])) matches Some(ExprV::Word(_)),
    ensures
        fold_globals(nodes, order) is Some,
    decreases order.len(),
{
    if order.len() > 0 {
        let p = order.drop_last();
        assert forall|i: int| 0 <= i < p.len() implies (#[trigger] gdecl_of(nodes, p[i])) matches Some(ExprV::Word(_)) by {
            assert(p[i] == order[i]);
        }
        law_word_globals_fold(nodes, p);
        assert(gdecl_of(nodes, order[order.len() - 1]) matches Some(ExprV::Word(_)));
    }
}

/// The outcome of compiling functions in order.
pub enum LowerRes {
    Done(Seq<DeclV>, CtxV),
    Fail(AstBirError),
    Stop,
}

/// Compiles functions in order, each in the context the previous one left.
pub open spec fn lower_funs(fs: Seq<(Symbol, FunctionV)>, c: CtxV) -> LowerRes
    decreases fs.len(),
{
    if fs.len() == 0 {
        LowerRes::Done(Seq::empty(), c)
    } else {
        match sp_compile_fun(fs[0].0, fs[0].1, c) {
            FunRes::Done(fv, c1) => match lower_funs(fs.skip(1), c1) {
                LowerRes::Done(ds, c2) => LowerRes::Done(seq![DeclV::FDecl(fv)] + ds, c2),
                other => other,
            },
            FunRes::Fail(err) => LowerRes::Fail(err),
            FunRes::Stop => LowerRes::Stop,
        }
    }
}

/// Each symbol of `order` and each function is in scope as itself (a global).
pub open spec fn uids_with(order: Seq<Symbol>, fs: Seq<(Symbol, FunctionV)>) -> Map<Symbol, Operand> {
    Map::new(
        |k: Symbol| order.contains(k) || exists|i: int| 0 <= i < fs.len() && #[trigger] fs[i].0 == k,
        |k: Symbol| Operand::GIdent(k),
    )
}

/// The outcome of lowering a program.
pub enum LowerOut {
    Done(Seq<DeclV>),
    Fail(AstBirError),
    Stop,
}

/// Lowering a program along an order of its globals: the globals' declarations
/// folded in that order, then the functions' declarations compiled in order, with
/// registers numbered from 0 and every global and function in scope.
pub open spec fn sp_lower(nodes: Seq<AstNodeV>, order: Seq<Symbol>) -> LowerOut {
    match fold_globals(nodes, order) {
        None => LowerOut::Stop,
        Some((gd, _)) => match lower_funs(
            fdecls_of(nodes),
            CtxV { next: 0, uids: uids_with(order, fdecls_of(nodes)) },
        ) {
            LowerRes::Done(fd, _) => LowerOut::Done(gd + fd),
            LowerRes::Fail(err) => LowerOut::Fail(err),
            LowerRes::Stop => LowerOut::Stop,
        },
    }
}

/// A declaration is in the shape lowering gives: a global holding a word, or a
/// function that is one block, its entry, ending in a return.
pub open spec fn lowered_shape(d: DeclV) -> bool {
    match d {
        DeclV::GDecl(_, op) => op is Word,
        DeclV::FDecl(fv) => fv.body.len() == 0 && fv.entry.term matches Some(Term::Ret(_)),
    }
}

proof fn lemma_lower_funs_shape(fs: Seq<(Symbol, FunctionV)>, c: CtxV)
    ensures
        lower_funs(fs, c) matches LowerRes::Done(ds, _) ==> ds.len() == fs.len() && forall|i: int|
            0 <= i < ds.len() ==> (#[trigger] ds[i] matches DeclV::FDecl(fv) && fv.ident == fs[i].0
                && lowered_shape(ds[i])),
    decreases fs.len(),
{
    if fs.len() > 0 {
        law_compiled_function_shape(fs[0].0, fs[0].1, c);
        match sp_compile_fun(fs[0].0, fs[0].1, c) {
            FunRes::Done(fv, c1) => {
                lemma_lower_funs_shape(fs.skip(1), c1);
                match lower_funs(fs.skip(1), c1) {
                    LowerRes::Done(ds, _) => {
                        let all = seq![DeclV::FDecl(fv)] + ds;
                        assert forall|i: int| 0 <= i < all.len() implies (#[trigger] all[i] matches DeclV::FDecl(f)
                            && f.ident == fs[i].0 && lowered_shape(all[i])) by {
                            if i > 0 {
                                assert(all[i] == ds[i - 1]);
                                assert(fs.skip(1)[i - 1] == fs[i]);
                            }
                        }
                    },
                    _ => {},
                }
            },
            _ => {},
        }
    }
}

/// A lowered program declares the globals of the order, in that order, each
/// holding a word, then one function for each name the program defines a
/// function under, in the order first defined, each one block ending in a return.
pub proof fn law_lowered_program_shape(nodes: Seq<AstNodeV>, order: Seq<Symbol>)
    ensures
        sp_lower(nodes, order) matches LowerOut::Done(ds) ==> {
            &&& ds.len() == order.len() + fdecls_of(nodes).len()
            &&& forall|i: int| 0 <= i < ds.len() ==> lowered_shape(#[trigger] ds[i])
            &&& forall|i: int| 0 <= i < order.len() ==> (#[trigger] ds[i] matches DeclV::GDecl(s, _) && s == order[i])
            &&& forall|i: int|
                order.len() <= i < ds.len() ==> (#[trigger] ds[i] matches DeclV::FDecl(fv) && fv.ident
                    == fdecls_of(nodes)[i - order.len()].0)
        },
{
    law_globals_fold_to_words(nodes, order);
    match fold_globals(nodes, order) {
        Some((gd, _)) => {
            let fs = fdecls_of(nodes);
            let c = CtxV { next: 0, uids: uids_with(order, fs) };
            lemma_lower_funs_shape(fs, c);
            match lower_funs(fs, c) {
                LowerRes::Done(fd, _) => {
                    let ds = gd + fd;
                    assert forall|i: int| 0 <= i < ds.len() implies lowered_shape(#[trigger] ds[i]) by {
                        if i < gd.len() {
                            assert(ds[i] == gd[i]);
                        } else {
                            assert(ds[i] == fd[i - gd.len()]);
                        }
                    }
                    assert forall|i: int| 0 <= i < order.len() implies (#[trigger] ds[i] matches DeclV::GDecl(s, _) && s
                        == order[i]) by {
                        assert(ds[i] == gd[i]);
                    }
                    assert forall|i: int| order.len() <= i < ds.len() implies (#[trigger] ds[i] matches DeclV::FDecl(fv)
                        && fv.ident == fs[i - order.len()].0) by {
                        assert(ds[i] == fd[i - gd.len()]);
                    }
                },
                _ => {},
            }
        },
        None => {},
    }
}

/// Every global and function of the program in scope as itself.
pub open spec fn defined_uids(nodes: Seq<AstNodeV>) -> Map<Symbol, Operand> {
    Map::new(|k: Symbol| is_global(nodes, k) || is_fun(nodes, k), |k: Symbol| Operand::GIdent(k))
}

/// The order the globals are folded in: the reverse of the order
/// `petgraph::algo::toposort` gives their dependency graph, so that each global
/// comes after the symbols it names.
pub open spec fn topo_syms(nodes: Seq<AstNodeV>) -> Seq<Symbol> {
    let g = global_graph(nodes);
    toposort_order(g.nodes, g.edges).map_values(|k: u64| key_sym(k)).reverse()
}

/// An order of the globals folds each global of the program exactly once, after
/// every global it names: no symbol twice, exactly the globals, and where the
/// dependency graph has an edge from the `j`-th to the `i`-th, `i < j`.
pub open spec fn fold_order_ok(nodes: Seq<AstNodeV>, order: Seq<Symbol>) -> bool {
    &&& order.no_duplicates()
    &&& forall|k: Symbol| #[trigger] order.contains(k) <==> is_global(nodes, k)
    &&& forall|i: int, j: int|
        0 <= i < order.len() && 0 <= j < order.len() && #[trigger] global_graph(nodes).edges.contains(
            (sym_key(order[j]), sym_key(order[i])),
        ) ==> i < j
}

/// The functions as a table of references.
pub open spec fn fds_view<'b>(v: Seq<(Symbol, &'b Function)>) -> Seq<(Symbol, FunctionV)> {
    Seq::new(v.len(), |i: int| (v[i].0, function_view(*v[i].1)))
}

/// The expression of the last definition of global `s`.
fn gdecl_lookup<'b>(ast: &'b Vec<AstNode>, s: Symbol) -> (r: Option<&'b Expr>)
    ensures
        match gdecl_of(nodes_view(ast@), s) {
            Some(e) => r matches Some(x) && x.view() == e,
            None => r is None,
        },
{
    let ghost nodes = nodes_view(ast@);
    let mut i = ast.len();
    assert(nodes.take(i as int) =~= nodes);
    while i > 0
        invariant
            i <= ast.len(),
            nodes == nodes_view(ast@),
            gdecl_of(nodes, s) == gdecl_of(nodes.take(i as int), s),
        decreases i,
    {
        assert(nodes.take(i as int).drop_last() =~= nodes.take(i - 1));
        assert(nodes.take(i as int).last() == ast@[i - 1].view());
        if let AstNode::Global(g, e) = &ast[i - 1] {
            if *g == s {
                return Some(&**e);
            }
        }
        i = i - 1;
    }
    None
}

/// Defines function `s` as `f` in the table.
fn insert_fun<'b>(fds: &mut Vec<(Symbol, &'b Function)>, s: Symbol, f: &'b Function)
    ensures
        fds_view(final(fds)@) == fd_insert(fds_view(old(fds)@), s, function_view(*f)),
{
    let ghost m = fds_view(fds@);
    let mut i: usize = 0;
    while i < fds.len()
        invariant
            i <= fds.len(),
            fds@ == old(fds)@,
            m == fds_view(fds@),
            find_fun_from(m, s, 0) == find_fun_from(m, s, i as int),
        decreases fds.len() - i,
    {
        if fds[i].0 == s {
            fds.set(i, (s, f));
            assert(fds_view(fds@) =~= m.update(i as int, (s, function_view(*f))));
            return;
        }
        i = i + 1;
    }
    fds.push((s, f));
    assert(fds_view(fds@) =~= m.push((s, function_view(*f))));
}

/// `prefix` then the outcome `r`.
pub open spec fn prepend_decls(prefix: Seq<DeclV>, r: LowerRes) -> LowerRes {
    match r {
        LowerRes::Done(ds, c) => LowerRes::Done(prefix + ds, c),
        other => other,
    }
}

proof fn lemma_fold_prefix(nodes: Seq<AstNodeV>, order: Seq<Symbol>, j: int)
    requires
        0 <= j <= order.len(),
        fold_globals(nodes, order) is Some,
    ensures
        fold_globals(nodes, order.take(j)) is Some,
    decreases order.len(),
{
    if j < order.len() {
        lemma_fold_prefix(nodes, order.drop_last(), j);
        assert(order.drop_last().take(j) =~= order.take(j));
    } else {
        assert(order.take(j) =~= order);
    }
}

/// Lowers a program along a given order of its globals (see `sp_lower`).
pub fn lower_program(ast: &Vec<AstNode>, order: &Vec<Symbol>) -> (r: Option<Result<Prog, AstBirError>>)
    ensures
        match sp_lower(nodes_view(ast@), order@) {
            LowerOut::Done(ds) => r matches Some(Ok(p)) && prog_view(p@) == ds,
            LowerOut::Fail(err) => r == Some(Err::<Prog, AstBirError>(err)),
            LowerOut::Stop => r is None,
        },
{
    let ghost nodes = nodes_view(ast@);
    // the functions, each name once
    let mut fdecls: Vec<(Symbol, &Function)> = Vec::new();
    let mut i: usize = 0;
    assert(nodes.take(0) =~= Seq::<AstNodeV>::empty());
    assert(fds_view(fdecls@) =~= Seq::<(Symbol, FunctionV)>::empty());
    while i < ast.len()
        invariant
            i <= ast.len(),
            nodes == nodes_view(ast@),
            fds_view(fdecls@) == fdecls_of(nodes.take(i as int)),
        decreases ast.len() - i,
    {
        assert(nodes.take(i + 1).drop_last() =~= nodes.take(i as int));
        assert(nodes.take(i + 1).last() == ast@[i as int].view());
        if let AstNode::Function(s, f) = &ast[i] {
            insert_fun(&mut fdecls, *s, &**f);
        }
        i = i + 1;
    }
    assert(nodes.take(i as int) =~= nodes);
    let ghost fs = fds_view(fdecls@);
    // the globals, folded in order
    let mut global_vals: Vec<(Symbol, Operand)> = Vec::new();
    let mut prog: Vec<Decl> = Vec::new();
    let mut j: usize = 0;
    proof {
        assert(order@.take(0) =~= Seq::<Symbol>::empty());
        assert(prog_view(prog@) =~= Seq::<DeclV>::empty());
        assert(map_of(global_vals@) =~= Map::<Symbol, Operand>::empty());
    }
    while j < order.len()
        invariant
            j <= order.len(),
            nodes == nodes_view(ast@),
            fold_globals(nodes, order@.take(j as int)) == Some((prog_view(prog@), map_of(global_vals@))),
            global_vals@.len() == j,
            forall|m: int| 0 <= m < j ==> #[trigger] global_vals@[m].0 == order@[m],
        decreases order.len() - j,
    {
        proof {
            if fold_globals(nodes, order@) is Some {
                lemma_fold_prefix(nodes, order@, j + 1);
            }
            assert(order@.take(j + 1).drop_last() =~= order@.take(j as int));
            assert(order@.take(j + 1).last() == order@[j as int]);
        }
        let s = order[j];
        let e = match gdecl_lookup(ast, s) {
            Some(e) => e,
            None => return None,
        };
        let op = match fold_cst(e, &mut global_vals) {
            Some(op) => op,
            None => return None,
        };
        let ghost pv = prog_view(prog@);
        let ghost gv = global_vals@;
        global_vals.push((s, op));
        prog.push(Decl::GDecl(BGlobal { ident: s, val: op }));
        assert(global_vals@.drop_last() =~= gv);
        assert(prog_view(prog@) =~= pv.push(DeclV::GDecl(s, op)));
        j = j + 1;
    }
    assert(order@.take(j as int) =~= order@);
    let ghost gd = prog_view(prog@);
    // the scope: every global and function as itself
    let mut ctx = CompileCtx::new();
    let mut k: usize = 0;
    assert(Map::new(|x: Symbol| order@.take(0).contains(x), |x: Symbol| Operand::GIdent(x)) =~= Map::<Symbol, Operand>::empty());
    while k < global_vals.len()
        invariant
            k <= global_vals.len() == order.len(),
            forall|m: int| 0 <= m < order.len() ==> #[trigger] global_vals@[m].0 == order@[m],
            ctx.view() == (CtxV {
                next: 0,
                uids: Map::new(|x: Symbol| order@.take(k as int).contains(x), |x: Symbol| Operand::GIdent(x)),
            }),
        decreases global_vals.len() - k,
    {
        let key = global_vals[k].0;
        ctx.add_local(key, Operand::GIdent(key));
        proof {
            assert(order@.take(k + 1) =~= order@.take(k as int).push(key));
            assert(key == order@[k as int]);
            assert forall|x: Symbol| order@.take(k + 1).contains(x) <==> (order@.take(k as int).contains(x) || x == key) by {
                if order@.take(k + 1).contains(x) {
                    let m = choose|m: int| 0 <= m < k + 1 && #[trigger] order@.take(k + 1)[m] == x;
                    if m < k {
                        assert(order@.take(k as int)[m] == x);
                    }
                }
                if order@.take(k as int).contains(x) {
                    let m = choose|m: int| 0 <= m < k && #[trigger] order@.take(k as int)[m] == x;
                    assert(order@.take(k + 1)[m] == x);
                }
                if x == key {
                    assert(order@.take(k + 1)[k as int] == x);
                }
            }
            assert(Map::new(|x: Symbol| order@.take(k + 1).contains(x), |x: Symbol| Operand::GIdent(x))
                =~= Map::new(|x: Symbol| order@.take(k as int).contains(x), |x: Symbol| Operand::GIdent(x)).insert(key, Operand::GIdent(key)));
        }
        k = k + 1;
    }
    assert(order@.take(k as int) =~= order@);
    assert(ctx.view().uids =~= Map::new(
        |x: Symbol| order@.contains(x) || exists|m: int| 0 <= m < 0 && #[trigger] fs[m].0 == x,
        |x: Symbol| Operand::GIdent(x),
    ));
    let mut k: usize = 0;
    while k < fdecls.len()
        invariant
            k <= fdecls.len(),
            fs == fds_view(fdecls@),
            ctx.view() == (CtxV {
                next: 0,
                uids: Map::new(
                    |x: Symbol| order@.contains(x) || exists|m: int| 0 <= m < k && #[trigger] fs[m].0 == x,
                    |x: Symbol| Operand::GIdent(x),
                ),
            }),
        decreases fdecls.len() - k,
    {
        let key = fdecls[k].0;
        ctx.add_local(key, Operand::GIdent(key));
        proof {
            let a = Map::new(
                |x: Symbol| order@.contains(x) || exists|m: int| 0 <= m < k + 1 && #[trigger] fs[m].0 == x,
                |x: Symbol| Operand::GIdent(x),
            );
            let b = Map::new(
                |x: Symbol| order@.contains(x) || exists|m: int| 0 <= m < k && #[trigger] fs[m].0 == x,
                |x: Symbol| Operand::GIdent(x),
            ).insert(key, Operand::GIdent(key));
            assert(fs[k as int].0 == key);
            assert forall|x: Symbol| a.dom().contains(x) <==> b.dom().contains(x) by {
                if a.dom().contains(x) && !order@.contains(x) {
                    let m = choose|m: int| 0 <= m < k + 1 && #[trigger] fs[m].0 == x;
                    if m < k {
                    }
                }
            }
            assert(a =~= b);
        }
        k = k + 1;
    }
    assert(ctx.view() == (CtxV { next: 0, uids: uids_with(order@, fs) })) by {
        assert(ctx.view().uids =~= uids_with(order@, fs));
    }
    // the functions, compiled in order
    let ghost c0 = ctx.view();
    let mut k: usize = 0;
    assert(fs.skip(0) =~= fs);
    assert(gd + Seq::<DeclV>::empty() =~= gd);
    while k < fdecls.len()
        invariant
            k <= fdecls.len(),
            nodes == nodes_view(ast@),
            fs == fds_view(fdecls@),
            fs.len() == fdecls.len(),
            fs == fdecls_of(nodes),
            c0 == (CtxV { next: 0, uids: uids_with(order@, fs) }),
            fold_globals(nodes, order@) matches Some((d, _)) && d == gd,
            lower_funs(fs, c0) == prepend_decls(
                prog_view(prog@).skip(gd.len() as int),
                lower_funs(fs.skip(k as int), ctx.view()),
            ),
            prog_view(prog@).take(gd.len() as int) == gd,
            prog_view(prog@).len() >= gd.len(),
        decreases fdecls.len() - k,
    {
        assert(fs.skip(k as int)[0] == fs[k as int]);
        assert(fs.skip(k as int).skip(1) =~= fs.skip(k + 1));
        let f = match compile_fun(&mut ctx, fdecls[k].0, fdecls[k].1) {
            Some(Ok(f)) => f,
            Some(Err(err)) => return Some(Err(err)),
            None => return None,
        };
        let ghost pv = prog_view(prog@);
        let ghost fv = f.view();
        prog.push(Decl::FDecl(f));
        proof {
            assert(prog_view(prog@) =~= pv.push(DeclV::FDecl(fv)));
            assert(prog_view(prog@).take(gd.len() as int) =~= pv.take(gd.len() as int));
            assert(prog_view(prog@).skip(gd.len() as int) =~= pv.skip(gd.len() as int) + seq![DeclV::FDecl(fv)]);
            match lower_funs(fs.skip(k + 1), ctx.view()) {
                LowerRes::Done(ds, c2) => {
                    assert(pv.skip(gd.len() as int) + (seq![DeclV::FDecl(fv)] + ds) =~= (pv.skip(gd.len() as int) + seq![DeclV::FDecl(fv)]) + ds);
                },
                _ => {},
            }
        }
        k = k + 1;
    }
    proof {
        assert(fs.skip(k as int) =~= Seq::<(Symbol, FunctionV)>::empty());
        let pv = prog_view(prog@);
        assert(pv =~= pv.take(gd.len() as int) + pv.skip(gd.len() as int));
        assert(pv.skip(gd.len() as int) + Seq::<DeclV>::empty() =~= pv.skip(gd.len() as int));
    }
    Some(Ok(prog))
}

proof fn lemma_fold_globals_defined(nodes: Seq<AstNodeV>, order: Seq<Symbol>)
    requires
        fold_globals(nodes, order) is Some,
    ensures
        forall|m: int| 0 <= m < order.len() ==> is_global(nodes, #[trigger] order[m]),
    decreases order.len(),
{
    if order.len() > 0 {
        let p = order.drop_last();
        lemma_fold_globals_defined(nodes, p);
        lemma_gdecl_is_global(nodes, order.last());
        assert forall|m: int| 0 <= m < order.len() implies is_global(nodes, #[trigger] order[m]) by {
            if m < order.len() - 1 {
                assert(p[m] == order[m]);
            }
        }
    }
}

proof fn lemma_gdecl_is_global(nodes: Seq<AstNodeV>, s: Symbol)
    ensures
        gdecl_of(nodes, s) is Some ==> is_global(nodes, s),
    decreases nodes.len(),
{
    if nodes.len() > 0 {
        let p = nodes.drop_last();
        lemma_gdecl_is_global(p, s);
        if gdecl_of(p, s) is Some && is_global(p, s) {
            let i = choose|i: int| #![trigger p[i]] 0 <= i < p.len() && (p[i] matches AstNodeV::Global(g, _) && g == s);
            assert(nodes[i] == p[i]);
        }
        assert(nodes[nodes.len() - 1] == nodes.last());
    }
}

proof fn lemma_fd_insert_keys(m: Seq<(Symbol, FunctionV)>, s: Symbol, f: FunctionV, i: int)
    requires
        0 <= i <= m.len(),
    ensures
        find_fun_from(m, s, i) matches Some(j) ==> i <= j < m.len() && m[j].0 == s,
        find_fun_from(m, s, i) is None ==> forall|j: int| i <= j < m.len() ==> #[trigger] m[j].0 != s,
    decreases m.len() - i,
{
    if i < m.len() {
        lemma_fd_insert_keys(m, s, f, i + 1);
    }
}

proof fn lemma_fdecls_keys(nodes: Seq<AstNodeV>, k: Symbol)
    ensures
        is_fun(nodes, k) <==> exists|i: int| 0 <= i < fdecls_of(nodes).len() && #[trigger] fdecls_of(nodes)[i].0 == k,
    decreases nodes.len(),
{
    if nodes.len() > 0 {
        let p = nodes.drop_last();
        lemma_fdecls_keys(p, k);
        let fp = fdecls_of(p);
        let fs = fdecls_of(nodes);
        assert(nodes[nodes.len() - 1] == nodes.last());
        assert(is_fun(nodes, k) <==> is_fun(p, k) || (nodes.last() matches AstNodeV::Function(f, _) && f == k)) by {
            if is_fun(nodes, k) {
                let i = choose|i: int| #![trigger nodes[i]] 0 <= i < nodes.len() && (nodes[i] matches AstNodeV::Function(f, _) && f == k);
                if i < nodes.len() - 1 {
                    assert(p[i] == nodes[i]);
                }
            }
            if is_fun(p, k) {
                let i = choose|i: int| #![trigger p[i]] 0 <= i < p.len() && (p[i] matches AstNodeV::Function(f, _) && f == k);
                assert(nodes[i] == p[i]);
            }
        }
        match nodes.last() {
            AstNodeV::Function(s, f) => {
                lemma_fd_insert_keys(fp, s, f, 0);
                match find_fun_from(fp, s, 0) {
                    Some(j) => {
                        let x = k;
                        assert((exists|i: int| 0 <= i < fs.len() && #[trigger] fs[i].0 == x)
                            <==> (exists|i: int| 0 <= i < fp.len() && #[trigger] fp[i].0 == x)) by {
                            if exists|i: int| 0 <= i < fs.len() && #[trigger] fs[i].0 == x {
                                let i = choose|i: int| 0 <= i < fs.len() && #[trigger] fs[i].0 == x;
                                if i == j {
                                    assert(fp[j].0 == x);
                                } else {
                                    assert(fp[i].0 == x);
                                }
                            }
                            if exists|i: int| 0 <= i < fp.len() && #[trigger] fp[i].0 == x {
                                let i = choose|i: int| 0 <= i < fp.len() && #[trigger] fp[i].0 == x;
                                assert(fs[i].0 == x);
                            }
                        }
                    },
                    None => {
                        let x = k;
                        assert((exists|i: int| 0 <= i < fs.len() && #[trigger] fs[i].0 == x)
                            <==> ((exists|i: int| 0 <= i < fp.len() && #[trigger] fp[i].0 == x) || x == s)) by {
                            if exists|i: int| 0 <= i < fs.len() && #[trigger] fs[i].0 == x {
                                let i = choose|i: int| 0 <= i < fs.len() && #[trigger] fs[i].0 == x;
                                if i < fp.len() {
                                    assert(fp[i].0 == x);
                                }
                            }
                            if exists|i: int| 0 <= i < fp.len() && #[trigger] fp[i].0 == x {
                                let i = choose|i: int| 0 <= i < fp.len() && #[trigger] fp[i].0 == x;
                                assert(fs[i].0 == x);
                            }
                            if x == s {
                                assert(fs[fp.len() as int].0 == x);
                            }
                        }
                    },
                }
            },
            AstNodeV::Global(_, _) => {},
        }
    }
}

/// The symbols of graph nodes, last node first.
fn symbols_of_keys(keys: &Vec<u64>) -> (r: Vec<Symbol>)
    ensures
        r@ == keys@.map_values(|k: u64| key_sym(k)).reverse(),
{
    let ghost all = keys@.map_values(|k: u64| key_sym(k)).reverse();
    let mut r: Vec<Symbol> = Vec::new();
    let mut i: usize = keys.len();
    while i > 0
        invariant
            i <= keys.len(),
            all == keys@.map_values(|k: u64| key_sym(k)).reverse(),
            r@ == all.take(keys.len() - i),
        decreases i,
    {
        let s = key_symbol(keys[i - 1]);
        r.push(s);
        assert(all.take(keys.len() - i + 1) =~= all.take(keys.len() - i).push(key_sym(keys@[i - 1])));
        i = i - 1;
    }
    assert(all.take(keys.len() as int) =~= all);
    r
}

/// Lowers a program to BIR: its globals are folded in the order
/// `petgraph::algo::toposort` gives their dependency graph, then its functions
/// are compiled (see `sp_lower`). The graph must be acyclic and the lowering must
/// have an answer.
pub fn compile(ast: Vec<AstNode>) -> (r: Result<Prog, AstBirError>)
    requires
        !has_cycle(global_graph(nodes_view(ast@)).edges),
        !(sp_lower(nodes_view(ast@), topo_syms(nodes_view(ast@))) is Stop),
    ensures
        match sp_lower(nodes_view(ast@), topo_syms(nodes_view(ast@))) {
            LowerOut::Done(ds) => r matches Ok(p) && prog_view(p@) == ds,
            LowerOut::Fail(err) => r == Err::<Prog, AstBirError>(err),
            LowerOut::Stop => false,
        },
        uids_with(topo_syms(nodes_view(ast@)), fdecls_of(nodes_view(ast@))) == defined_uids(nodes_view(ast@)),
        fold_order_ok(nodes_view(ast@), topo_syms(nodes_view(ast@))),
{
    let ghost nodes = nodes_view(ast@);
    let deps = get_global_graph(&ast);
    let keys = match graph_toposort(&deps) {
        Ok(keys) => keys,
        Err(_) => {
            proof {
                assert(false);
            }
            return Err(AstBirError::DevBlockingError());
        },
    };
    let order = symbols_of_keys(&keys);
    assert(order@ =~= topo_syms(nodes));
    proof {
        let fs = fdecls_of(nodes);
        lemma_fold_globals_defined(nodes, order@);
        assert forall|k: Symbol| #[trigger] uids_with(order@, fs).dom().contains(k) <==> defined_uids(
            nodes,
        ).dom().contains(k) by {
            lemma_fdecls_keys(nodes, k);
            if order@.contains(k) {
                let m = choose|m: int| 0 <= m < order@.len() && order@[m] == k;
                assert(is_global(nodes, order@[m]));
            }
            if is_global(nodes, k) {
                let i = choose|i: int| #![trigger nodes[i]] 0 <= i < nodes.len() && (nodes[i] matches AstNodeV::Global(g, _) && g == k);
                law_graph_has_references(nodes, i);
                assert(keys@.contains(sym_key(k)));
                let j = choose|j: int| 0 <= j < keys@.len() && keys@[j] == sym_key(k);
                law_symbol_key_roundtrip(k);
                assert(order@[keys@.len() - 1 - j] == k);
            }
        }
        assert(uids_with(order@, fs) =~= defined_uids(nodes));
        // the keys are keys of symbols, so the order names each one once and
        // follows the edges backwards
        let n = keys@.len();
        lemma_graph_nodes_keyed(nodes);
        assert forall|a: int| 0 <= a < n implies is_key(#[trigger] keys@[a]) by {
            assert(keys@.contains(keys@[a]));
            assert(global_graph(nodes).nodes.contains(keys@[a]));
        }
        assert forall|i: int| 0 <= i < n implies sym_key(#[trigger] order@[i]) == keys@[n - 1 - i] by {
            assert(is_key(keys@[n - 1 - i]));
        }
        assert forall|i: int, j: int| 0 <= i < order@.len() && 0 <= j < order@.len() && i != j implies order@[i]
            != order@[j] by {
            assert(sym_key(order@[i]) == keys@[n - 1 - i]);
            assert(sym_key(order@[j]) == keys@[n - 1 - j]);
        }
        assert forall|i: int, j: int|
            0 <= i < order@.len() && 0 <= j < order@.len() && #[trigger] global_graph(nodes).edges.contains(
                (sym_key(order@[j]), sym_key(order@[i])),
            ) implies i < j by {
            assert(sym_key(order@[i]) == keys@[n - 1 - i]);
            assert(sym_key(order@[j]) == keys@[n - 1 - j]);
        }
        assert forall|k: Symbol| #[trigger] order@.contains(k) <==> is_global(nodes, k) by {
            assert(uids_with(order@, fs).dom().contains(k) <==> defined_uids(nodes).dom().contains(k));
            lemma_fdecls_keys(nodes, k);
            if order@.contains(k) {
                let m = choose|m: int| 0 <= m < order@.len() && order@[m] == k;
                assert(is_global(nodes, order@[m]));
            }
            if is_global(nodes, k) {
                let i = choose|i: int| #![trigger nodes[i]] 0 <= i < nodes.len() && (nodes[i] matches AstNodeV::Global(g, _) && g == k);
                law_graph_has_references(nodes, i);
                assert(keys@.contains(sym_key(k)));
                let j = choose|j: int| 0 <= j < keys@.len() && keys@[j] == sym_key(k);
                law_symbol_key_roundtrip(k);
                assert(order@[keys@.len() - 1 - j] == k);
            }
        }
    }
    match lower_program(&ast, &order) {
        Some(r) => r,
        None => {
            proof {
                assert(false);
            }
            Err(AstBirError::DevBlockingError())
        },
    }
}

/// Lowers a program where lowering has an answer: `None` where the globals'
/// dependency graph has a cycle or where `compile` has no answer (see
/// `sp_lower`), else what `compile` gives. Whether there is an answer is found
/// by lowering along the toposort order; `compile` then lowers once more.
pub fn try_compile(ast: Vec<AstNode>) -> (r: Option<Result<Prog, AstBirError>>)
    ensures
        has_cycle(global_graph(nodes_view(ast@)).edges) ==> r is None,
        !has_cycle(global_graph(nodes_view(ast@)).edges) ==> match sp_lower(
            nodes_view(ast@),
            topo_syms(nodes_view(ast@)),
        ) {
            LowerOut::Done(ds) => r matches Some(Ok(p)) && prog_view(p@) == ds,
            LowerOut::Fail(err) => r == Some(Err::<Prog, AstBirError>(err)),
            LowerOut::Stop => r is None,
        },
        r is Some ==> uids_with(topo_syms(nodes_view(ast@)), fdecls_of(nodes_view(ast@))) == defined_uids(
            nodes_view(ast@),
        ),
        r is Some ==> fold_order_ok(nodes_view(ast@), topo_syms(nodes_view(ast@))),
{
    let ghost nodes = nodes_view(ast@);
    let deps = get_global_graph(&ast);
    let keys = match graph_toposort(&deps) {
        Ok(keys) => keys,
        Err(_) => return None,
    };
    let order = symbols_of_keys(&keys);
    assert(order@ =~= topo_syms(nodes));
    match lower_program(&ast, &order) {
        Some(_) => Some(compile(ast)),
        None => None,
    }
}

} // verus!

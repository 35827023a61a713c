//! Constructs (the widths of values) and the width check of a program.
//!
//! The check runs over the globals in order, then over the functions in order,
//! with an environment from symbols to constructs. The environment behaves as a
//! map: a binding replaces the previous one for its symbol and a removal drops the
//! symbol altogether. It is held as a list of bindings where the last binding of a
//! symbol counts and a removal drops every binding of the symbol.
use crate::ast::{
    exprs_view, lemma_exprs_view_len, nodes_view, params_view, AstNode, AstNodeV, Bop, Expr, ExprV,
    Function, FunctionV, Lhs, ParamV, Symbol,
};
use crate::err::{WCError, WCErrorV};
use vstd::prelude::*;

verus! {

/// The width of a value: a word, a pack of words, a function, or a named alias.
#[derive(Debug, PartialEq, Eq)]
pub enum Construct {
    Word(),
    Pack(i64),
    Fun(Vec<Construct>),
    Alias(Symbol),
}

/// The mathematical value of a construct.
pub enum ConstructV {
    Word,
    Pack(i64),
    Fun(Seq<ConstructV>),
    Alias(Symbol),
}

impl Construct {
    pub open spec fn view(&self) -> ConstructV
        decreases self,
    {
        match self {
            Construct::Word() => ConstructV::Word,
            Construct::Pack(n) => ConstructV::Pack(*n),
            Construct::Fun(v) => ConstructV::Fun(conss_view(v@)),
            Construct::Alias(s) => ConstructV::Alias(*s),
        }
    }

    /// A deep copy.
    pub fn copy(&self) -> (r: Construct)
        ensures
            r.view() == self.view(),
        decreases self,
    {
        match self {
            Construct::Word() => Construct::Word(),
            Construct::Pack(n) => Construct::Pack(*n),
            Construct::Alias(s) => Construct::Alias(*s),
            Construct::Fun(v) => Construct::Fun(copy_conss(v)),
        }
    }

    /// Structural equality (the derived `==` of constructs).
    pub fn same(&self, other: &Construct) -> (r: bool)
        ensures
            r == (self.view() == other.view()),
        decreases self,
    {
        match (self, other) {
            (Construct::Word(), Construct::Word()) => true,
            (Construct::Pack(a), Construct::Pack(b)) => *a == *b,
            (Construct::Alias(a), Construct::Alias(b)) => *a == *b,
            (Construct::Fun(a), Construct::Fun(b)) => conss_same(a, b),
            _ => false,
        }
    }
}

impl Clone for Construct {
    /// A deep copy.
    fn clone(&self) -> (r: Self)
        ensures
            r.view() == self.view(),
    {
        self.copy()
    }
}

/// The views of a sequence of constructs, in order.
pub open spec fn conss_view(s: Seq<Construct>) -> Seq<ConstructV>
    decreases s,
{
    if s.len() == 0 {
        Seq::empty()
    } else {
        conss_view(s.subrange(0, s.len() - 1)).push(s[s.len() - 1].view())
    }
}

/// The views of constructs are taken element by element.
pub proof fn lemma_conss_view(s: Seq<Construct>)
    ensures
        conss_view(s).len() == s.len(),
        forall|i: int| 0 <= i < s.len() ==> #[trigger] conss_view(s)[i] == s[i].view(),
    decreases s.len(),
{
    if s.len() > 0 {
        let p = s.subrange(0, s.len() - 1);
        lemma_conss_view(p);
        assert forall|i: int| 0 <= i < s.len() implies #[trigger] conss_view(s)[i] == s[i].view() by {
            if i < s.len() - 1 {
                assert(p[i] == s[i]);
            }
        }
    }
}

fn copy_conss(v: &Vec<Construct>) -> (r: Vec<Construct>)
    ensures
        conss_view(r@) == conss_view(v@),
    decreases v,
{
    let mut out: Vec<Construct> = Vec::new();
    let mut i: usize = 0;
    while i < v.len()
        invariant
            i <= v.len(),
            out.len() == i,
            forall|j: int| 0 <= j < i ==> #[trigger] out@[j].view() == v@[j].view(),
        decreases v.len() - i,
    {
        let c = v[i].copy();
        out.push(c);
        i = i + 1;
    }
    proof {
        lemma_conss_view(out@);
        lemma_conss_view(v@);
        assert(conss_view(out@) =~= conss_view(v@));
    }
    out
}

fn conss_same(a: &Vec<Construct>, b: &Vec<Construct>) -> (r: bool)
    ensures
        r == (conss_view(a@) == conss_view(b@)),
    decreases a,
{
    proof {
        lemma_conss_view(a@);
        lemma_conss_view(b@);
    }
    if a.len() != b.len() {
        return false;
    }
    let mut i: usize = 0;
    while i < a.len()
        invariant
            i <= a.len() == b.len(),
            conss_view(a@).len() == a.len(),
            conss_view(b@).len() == b.len(),
            forall|j: int| 0 <= j < a.len() ==> #[trigger] conss_view(a@)[j] == a@[j].view(),
            forall|j: int| 0 <= j < b.len() ==> #[trigger] conss_view(b@)[j] == b@[j].view(),
            forall|j: int| 0 <= j < i ==> #[trigger] a@[j].view() == b@[j].view(),
        decreases a.len() - i,
    {
        if !a[i].same(&b[i]) {
            assert(conss_view(a@)[i as int] != conss_view(b@)[i as int]);
            return false;
        }
        i = i + 1;
    }
    assert(conss_view(a@) =~= conss_view(b@));
    true
}

// ---------------------------------------------------------------- the environment

/// An environment: bindings in order; the last binding of a symbol counts.
pub type EnvV = Seq<(Symbol, ConstructV)>;

/// The construct an environment gives a symbol.
pub open spec fn env_get(env: EnvV, s: Symbol) -> Option<ConstructV>
    decreases env.len(),
{
    if env.len() == 0 {
        None
    } else if env.last().0 == s {
        Some(env.last().1)
    } else {
        env_get(env.drop_last(), s)
    }
}

/// The environment without any binding of `s`.
pub open spec fn env_remove(env: EnvV, s: Symbol) -> EnvV
    decreases env.len(),
{
    if env.len() == 0 {
        Seq::empty()
    } else if env[0].0 == s {
        env_remove(env.skip(1), s)
    } else {
        seq![env[0]] + env_remove(env.skip(1), s)
    }
}

proof fn lemma_env_remove_push(env: EnvV, x: (Symbol, ConstructV), s: Symbol)
    ensures
        env_remove(env.push(x), s) == if x.0 == s {
            env_remove(env, s)
        } else {
            env_remove(env, s).push(x)
        },
    decreases env.len(),
{
    let e = env.push(x);
    if env.len() == 0 {
        assert(e.skip(1) =~= Seq::<(Symbol, ConstructV)>::empty());
        assert(e[0] == x);
        assert(env_remove(e.skip(1), s) == Seq::<(Symbol, ConstructV)>::empty());
        assert(env_remove(env, s) == Seq::<(Symbol, ConstructV)>::empty());
        if x.0 != s {
            assert(env_remove(e, s) == seq![x] + env_remove(e.skip(1), s));
            assert(seq![x] + Seq::<(Symbol, ConstructV)>::empty() =~= Seq::<(Symbol, ConstructV)>::empty().push(x));
        }
    } else {
        assert(e.skip(1) =~= env.skip(1).push(x));
        assert(e[0] == env[0]);
        lemma_env_remove_push(env.skip(1), x, s);
        if env[0].0 == s {
            assert(env_remove(e, s) == env_remove(e.skip(1), s));
            assert(env_remove(env, s) == env_remove(env.skip(1), s));
        } else {
            assert(env_remove(e, s) == seq![env[0]] + env_remove(e.skip(1), s));
            assert(env_remove(env, s) == seq![env[0]] + env_remove(env.skip(1), s));
            if x.0 != s {
                assert(seq![env[0]] + env_remove(env.skip(1), s).push(x) =~= (seq![env[0]] + env_remove(env.skip(1), s)).push(x));
            }
        }
    }
}

/// The environment behaves as a map: binding `s` makes `s` give its construct,
/// removing `s` makes `s` give nothing, and neither changes any other symbol.
pub proof fn law_env_is_map(env: EnvV, s: Symbol, c: ConstructV, t: Symbol)
    ensures
        env_get(env.push((s, c)), s) == Some(c),
        env_get(env_remove(env, s), s) is None,
        t != s ==> env_get(env.push((s, c)), t) == env_get(env, t),
        t != s ==> env_get(env_remove(env, s), t) == env_get(env, t),
    decreases env.len(),
{
    assert(env.push((s, c)).drop_last() =~= env);
    if env.len() > 0 {
        let p = env.drop_last();
        law_env_is_map(p, s, c, t);
        assert(p.push(env.last()) =~= env);
        lemma_env_remove_push(p, env.last(), s);
        if env.last().0 != s {
            assert(env_remove(p, s).push(env.last()).drop_last() =~= env_remove(p, s));
        }
    }
}

/// The environment without any binding of a symbol of `d`.
pub open spec fn env_without(env: EnvV, d: Set<Symbol>) -> EnvV
    decreases env.len(),
{
    if env.len() == 0 {
        Seq::empty()
    } else if d.contains(env.last().0) {
        env_without(env.drop_last(), d)
    } else {
        env_without(env.drop_last(), d).push(env.last())
    }
}

proof fn lemma_without_compose(env: EnvV, d1: Set<Symbol>, d2: Set<Symbol>)
    ensures
        env_without(env_without(env, d1), d2) == env_without(env, d1.union(d2)),
    decreases env.len(),
{
    if env.len() > 0 {
        let p = env.drop_last();
        lemma_without_compose(p, d1, d2);
        if !d1.contains(env.last().0) {
            let q = env_without(p, d1);
            assert(q.push(env.last()).drop_last() =~= q);
        }
    }
}

proof fn lemma_without_push_named(env: EnvV, x: (Symbol, ConstructV), d: Set<Symbol>)
    requires
        d.contains(x.0),
    ensures
        env_without(env.push(x), d) == env_without(env, d),
{
    assert(env.push(x).drop_last() =~= env);
}

proof fn lemma_remove_is_without(env: EnvV, s: Symbol)
    ensures
        env_remove(env, s) == env_without(env, set![s]),
    decreases env.len(),
{
    if env.len() > 0 {
        let p = env.drop_last();
        lemma_remove_is_without(p, s);
        assert(p.push(env.last()) =~= env);
        lemma_env_remove_push(p, env.last(), s);
    } else {
        assert(env =~= Seq::<(Symbol, ConstructV)>::empty());
    }
}

proof fn lemma_without_unbound(env: EnvV, d: Set<Symbol>)
    requires
        forall|k: Symbol| #[trigger] d.contains(k) ==> env_get(env, k) is None,
    ensures
        env_without(env, d) == env,
    decreases env.len(),
{
    if env.len() > 0 {
        let p = env.drop_last();
        assert(!d.contains(env.last().0));
        assert forall|k: Symbol| #[trigger] d.contains(k) implies env_get(p, k) is None by {
            assert(env_get(env, k) is None);
        }
        lemma_without_unbound(p, d);
        assert(p.push(env.last()) =~= env);
    } else {
        assert(env =~= Seq::<(Symbol, ConstructV)>::empty());
    }
}

/// The view of an executable environment.
pub open spec fn env_view(v: Seq<(Symbol, Construct)>) -> EnvV {
    Seq::new(v.len(), |i: int| (v[i].0, v[i].1.view()))
}

/// The construct bound to `s`, copied.
fn env_lookup(env: &Vec<(Symbol, Construct)>, s: Symbol) -> (r: Option<Construct>)
    ensures
        match env_get(env_view(env@), s) {
            Some(c) => r matches Some(x) && x.view() == c,
            None => r is None,
        },
{
    let mut i = env.len();
    assert(env_view(env@).take(i as int) =~= env_view(env@));
    while i > 0
        invariant
            i <= env.len(),
            env_get(env_view(env@), s) == env_get(env_view(env@).take(i as int), s),
        decreases i,
    {
        assert(env_view(env@).take(i as int).drop_last() =~= env_view(env@).take(i - 1));
        if env[i - 1].0 == s {
            return Some(env[i - 1].1.copy());
        }
        i = i - 1;
    }
    None
}

/// Binds `s` to `c`.
fn env_insert(env: &mut Vec<(Symbol, Construct)>, s: Symbol, c: Construct)
    ensures
        env_view(final(env)@) == env_view(old(env)@).push((s, c.view())),
{
    env.push((s, c));
    assert(env_view(env@) =~= env_view(old(env)@).push((s, c.view())));
}

/// Drops every binding of `s`.
fn env_drop(env: &mut Vec<(Symbol, Construct)>, s: Symbol)
    ensures
        env_view(final(env)@) == env_remove(env_view(old(env)@), s),
{
    let ghost orig = env_view(env@);
    let mut i = env.len();
    assert(orig.take(i as int) + env_remove(orig.skip(i as int), s) =~= orig) by {
        assert(orig.skip(i as int) =~= Seq::<(Symbol, ConstructV)>::empty());
    }
    while i > 0
        invariant
            i <= env.len(),
            i <= orig.len(),
            env_view(env@) == orig.take(i as int) + env_remove(orig.skip(i as int), s),
        decreases i,
    {
        let ghost before = env_view(env@);
        let ghost rr = env_remove(orig.skip(i as int), s);
        assert(orig.skip(i - 1).skip(1) =~= orig.skip(i as int));
        assert(orig.skip(i - 1)[0] == orig[i - 1]);
        assert(before[i - 1] == orig[i - 1]);
        assert(before.len() == env@.len());
        if env[i - 1].0 == s {
            assert(env_remove(orig.skip(i - 1), s) == rr);
            env.remove(i - 1);
            assert(env_view(env@) =~= before.remove(i - 1));
            assert(env_view(env@) =~= orig.take(i - 1) + env_remove(orig.skip(i - 1), s));
        } else {
            assert(env_remove(orig.skip(i - 1), s) == seq![orig[i - 1]] + rr);
            assert(env_view(env@) =~= orig.take(i - 1) + env_remove(orig.skip(i - 1), s));
        }
        i = i - 1;
    }
    assert(orig.skip(0) =~= orig);
    assert(env_view(env@) =~= env_remove(orig, s));
}

// ---------------------------------------------------------------- the check

/// The outcome of checking an expression: its construct and the environment after
/// it, an error and the environment the check left, or a stop on an expression
/// the checker does not handle yet (a unary operation).
pub enum WcRes {
    Done(ConstructV, EnvV),
    Fail(WCErrorV, EnvV),
    Stop,
}

/// The outcome of checking a sequence of expressions in order.
pub enum WcArgs {
    Done(Seq<ConstructV>, EnvV),
    Fail(WCErrorV, EnvV),
    Stop,
}

/// A binary operation needs two words and gives a word.
pub open spec fn sp_wc_bop(bop: Bop, w1: ConstructV, w2: ConstructV) -> Result<ConstructV, WCErrorV> {
    if w1 != ConstructV::Word || w2 != ConstructV::Word {
        Err(WCErrorV::MismatchedConstructs(w1, w2))
    } else {
        Ok(ConstructV::Word)
    }
}

/// What a call gives: the function's constructs `tys` (parameters then result)
/// must start with the arguments' constructs; what remains is the result when it
/// is one construct, a function construct when it is more, an error when nothing
/// remains.
pub open spec fn sp_wc_call(tys: Seq<ConstructV>, arg_tys: Seq<ConstructV>) -> Result<ConstructV, WCErrorV> {
    if arg_tys.len() <= tys.len() && tys.take(arg_tys.len() as int) == arg_tys {
        let rest = tys.skip(arg_tys.len() as int);
        if rest.len() < 1 {
            Err(WCErrorV::ArgumentConstructMismatch(rest, arg_tys))
        } else if rest.len() == 1 {
            Ok(rest[0])
        } else {
            Ok(ConstructV::Fun(rest))
        }
    } else {
        Err(WCErrorV::ArgumentConstructMismatch(tys, arg_tys))
    }
}

/// Checks an expression in an environment.
pub open spec fn sp_wc_expr(e: ExprV, env: EnvV) -> WcRes
    decreases e,
{
    match e {
        ExprV::Word(_) => WcRes::Done(ConstructV::Word, env),
        ExprV::Lhs(Lhs::Ident(s)) => match env_get(env, s) {
            Some(c) => WcRes::Done(c, env),
            None => WcRes::Fail(WCErrorV::UnboundIdentifier, env),
        },
        ExprV::Binop(bop, e1, e2) => match sp_wc_expr(*e1, env) {
            WcRes::Done(w1, env1) => match sp_wc_expr(*e2, env1) {
                WcRes::Done(w2, env2) => match sp_wc_bop(bop, w1, w2) {
                    Ok(c) => WcRes::Done(c, env2),
                    Err(err) => WcRes::Fail(err, env2),
                },
                other => other,
            },
            other => other,
        },
        ExprV::Unop(_, _) => WcRes::Stop,
        ExprV::Let(Lhs::Ident(s), e1, e2) => match sp_wc_expr(*e1, env) {
            WcRes::Done(c, env1) => match sp_wc_expr(*e2, env1.push((s, c))) {
                WcRes::Done(c2, env2) => WcRes::Done(c2, env_remove(env2, s)),
                WcRes::Fail(err, env2) => WcRes::Fail(err, env_remove(env2, s)),
                WcRes::Stop => WcRes::Stop,
            },
            other => other,
        },
        ExprV::Cond(c, a, b) => match sp_wc_expr(*c, env) {
            WcRes::Done(cc, env1) => if cc != ConstructV::Word {
                WcRes::Fail(WCErrorV::UnexpectedConstruct(ConstructV::Word), env1)
            } else {
                match sp_wc_expr(*a, env1) {
                    WcRes::Done(ca, env2) => match sp_wc_expr(*b, env2) {
                        WcRes::Done(cb, env3) => if ca != cb {
                            WcRes::Fail(WCErrorV::MismatchedConstructs(ca, cb), env3)
                        } else {
                            WcRes::Done(ca, env3)
                        },
                        other => other,
                    },
                    other => other,
                }
            },
            other => other,
        },
        ExprV::Call(Lhs::Ident(s), args) => match env_get(env, s) {
            None => WcRes::Fail(WCErrorV::UnboundIdentifier, env),
            Some(ConstructV::Fun(tys)) => match sp_wc_args(args, env) {
                WcArgs::Done(arg_tys, env1) => match sp_wc_call(tys, arg_tys) {
                    Ok(c) => WcRes::Done(c, env1),
                    Err(err) => WcRes::Fail(err, env1),
                },
                WcArgs::Fail(err, env1) => WcRes::Fail(err, env1),
                WcArgs::Stop => WcRes::Stop,
            },
            Some(other) => WcRes::Fail(WCErrorV::UnexpectedConstruct(other), env),
        },
    }
}

/// Checks expressions in order, each in the environment the previous one left.
pub open spec fn sp_wc_args(args: Seq<ExprV>, env: EnvV) -> WcArgs
    decreases args,
{
    if args.len() == 0 {
        WcArgs::Done(Seq::empty(), env)
    } else {
        match sp_wc_expr(args[0], env) {
            WcRes::Done(c, env1) => match sp_wc_args(args.subrange(1, args.len() as int), env1) {
                WcArgs::Done(cs, env2) => WcArgs::Done(seq![c] + cs, env2),
                other => other,
            },
            WcRes::Fail(err, env1) => WcArgs::Fail(err, env1),
            WcRes::Stop => WcArgs::Stop,
        }
    }
}

/// The names that the `let`s of an expression bind.
pub open spec fn let_names(e: ExprV) -> Set<Symbol>
    decreases e,
{
    match e {
        ExprV::Word(_) => Set::empty(),
        ExprV::Lhs(_) => Set::empty(),
        ExprV::Binop(_, a, b) => let_names(*a).union(let_names(*b)),
        ExprV::Unop(_, a) => let_names(*a),
        ExprV::Let(Lhs::Ident(s), a, b) => set![s].union(let_names(*a)).union(let_names(*b)),
        ExprV::Cond(a, b, c) => let_names(*a).union(let_names(*b)).union(let_names(*c)),
        ExprV::Call(_, args) => let_names_all(args),
    }
}

/// The names that the `let`s of some expressions bind.
pub open spec fn let_names_all(args: Seq<ExprV>) -> Set<Symbol>
    decreases args,
{
    if args.len() == 0 {
        Set::empty()
    } else {
        let_names(args[0]).union(let_names_all(args.subrange(1, args.len() as int)))
    }
}

/// The environment an outcome leaves, if any.
pub open spec fn res_env(r: WcRes) -> Option<EnvV> {
    match r {
        WcRes::Done(_, env) => Some(env),
        WcRes::Fail(_, env) => Some(env),
        WcRes::Stop => None,
    }
}

/// The environment an outcome of a sequence leaves, if any.
pub open spec fn args_env(r: WcArgs) -> Option<EnvV> {
    match r {
        WcArgs::Done(_, env) => Some(env),
        WcArgs::Fail(_, env) => Some(env),
        WcArgs::Stop => None,
    }
}

proof fn lemma_check_env(e: ExprV, env: EnvV) -> (d: Set<Symbol>)
    ensures
        d.subset_of(let_names(e)),
        res_env(sp_wc_expr(e, env)) matches Some(e2) ==> e2 == env_without(env, d),
    decreases e,
{
    lemma_without_unbound(env, Set::empty());
    match e {
        ExprV::Binop(_, a, b) => {
            let d1 = lemma_check_env(*a, env);
            match sp_wc_expr(*a, env) {
                WcRes::Done(_, env1) => {
                    let d2 = lemma_check_env(*b, env1);
                    lemma_without_compose(env, d1, d2);
                    d1.union(d2)
                },
                _ => d1,
            }
        },
        ExprV::Let(Lhs::Ident(s), a, b) => {
            let d1 = lemma_check_env(*a, env);
            match sp_wc_expr(*a, env) {
                WcRes::Done(c, env1) => {
                    let env_b = env1.push((s, c));
                    let d2 = lemma_check_env(*b, env_b);
                    match res_env(sp_wc_expr(*b, env_b)) {
                        Some(env2) => {
                            lemma_remove_is_without(env2, s);
                            lemma_without_compose(env_b, d2, set![s]);
                            lemma_without_push_named(env1, (s, c), d2.union(set![s]));
                            lemma_without_compose(env, d1, d2.union(set![s]));
                        },
                        None => {},
                    }
                    d1.union(d2.union(set![s]))
                },
                _ => d1,
            }
        },
        ExprV::Cond(a, b, c) => {
            let d1 = lemma_check_env(*a, env);
            match sp_wc_expr(*a, env) {
                WcRes::Done(cc, env1) => {
                    if cc != ConstructV::Word {
                        d1
                    } else {
                        let d2 = lemma_check_env(*b, env1);
                        lemma_without_compose(env, d1, d2);
                        match sp_wc_expr(*b, env1) {
                            WcRes::Done(_, env2) => {
                                let d3 = lemma_check_env(*c, env2);
                                lemma_without_compose(env, d1.union(d2), d3);
                                d1.union(d2).union(d3)
                            },
                            _ => d1.union(d2),
                        }
                    }
                },
                _ => d1,
            }
        },
        ExprV::Call(Lhs::Ident(s), args) => {
            match env_get(env, s) {
                Some(ConstructV::Fun(_)) => lemma_args_env(args, env),
                _ => Set::empty(),
            }
        },
        _ => Set::empty(),
    }
}

proof fn lemma_args_env(args: Seq<ExprV>, env: EnvV) -> (d: Set<Symbol>)
    ensures
        d.subset_of(let_names_all(args)),
        args_env(sp_wc_args(args, env)) matches Some(e2) ==> e2 == env_without(env, d),
    decreases args,
{
    lemma_without_unbound(env, Set::empty());
    if args.len() == 0 {
        Set::empty()
    } else {
        let d0 = lemma_check_env(args[0], env);
        match sp_wc_expr(args[0], env) {
            WcRes::Done(_, env1) => {
                let rest = args.subrange(1, args.len() as int);
                let dr = lemma_args_env(rest, env1);
                lemma_without_compose(env, d0, dr);
                d0.union(dr)
            },
            _ => d0,
        }
    }
}

/// Checking an expression leaves the environment as it found it, whatever the
/// outcome, where no name that its `let`s bind is bound in the environment: each
/// `let` drops its binding again, also when its body fails.
pub proof fn law_check_keeps_env(e: ExprV, env: EnvV)
    requires
        forall|k: Symbol| #[trigger] let_names(e).contains(k) ==> env_get(env, k) is None,
    ensures
        res_env(sp_wc_expr(e, env)) matches Some(e2) ==> e2 == env,
{
    let d = lemma_check_env(e, env);
    lemma_without_unbound(env, d);
}

/// A binary operation checks only when both its operands check to words, the
/// left one first and the right one in the environment the left one left; it is
/// then a word. Where both operands check and one is not a word, the error names
/// the two operands' constructs.
pub proof fn law_binop_needs_words(b: Bop, e1: ExprV, e2: ExprV, env: EnvV)
    ensures
        sp_wc_bop(b, ConstructV::Word, ConstructV::Word) == Ok::<ConstructV, WCErrorV>(ConstructV::Word),
        forall|w1: ConstructV, w2: ConstructV| #[trigger] sp_wc_bop(b, w1, w2) is Ok ==> w1 == ConstructV::Word
            && w2 == ConstructV::Word,
        sp_wc_expr(ExprV::Binop(b, Box::new(e1), Box::new(e2)), env) matches WcRes::Done(c, env2) ==> {
            &&& c == ConstructV::Word
            &&& sp_wc_expr(e1, env) matches WcRes::Done(w1, env1)
            &&& w1 == ConstructV::Word
            &&& sp_wc_expr(e2, env1) == WcRes::Done(ConstructV::Word, env2)
        },
        sp_wc_expr(e1, env) matches WcRes::Done(w1, env1) ==> (sp_wc_expr(e2, env1) matches WcRes::Done(w2, env2)
            ==> (w1 != ConstructV::Word || w2 != ConstructV::Word ==> sp_wc_expr(
            ExprV::Binop(b, Box::new(e1), Box::new(e2)),
            env,
        ) == WcRes::Fail(WCErrorV::MismatchedConstructs(w1, w2), env2))),
{
}

/// `p` then the outcome `r`.
pub open spec fn prepend(p: Seq<ConstructV>, r: WcArgs) -> WcArgs {
    match r {
        WcArgs::Done(cs, env) => WcArgs::Done(p + cs, env),
        other => other,
    }
}

/// The parameters' bindings.
pub open spec fn param_bindings(ps: Seq<ParamV>) -> EnvV {
    Seq::new(ps.len(), |i: int| (ps[i].ident, ps[i].cons))
}

/// The environment without any binding of the parameters' symbols.
pub open spec fn remove_params(env: EnvV, ps: Seq<ParamV>) -> EnvV
    decreases ps.len(),
{
    if ps.len() == 0 {
        env
    } else {
        remove_params(env_remove(env, ps[0].ident), ps.skip(1))
    }
}

/// Checks a function: its parameters are bound, its body checked, and the
/// parameters' symbols dropped; its construct lists the parameters' constructs
/// and the body's.
pub open spec fn sp_wc_fun(f: FunctionV, env: EnvV) -> WcRes {
    match sp_wc_expr(f.body, env + param_bindings(f.args)) {
        WcRes::Done(c, env1) => WcRes::Done(
            ConstructV::Fun(Seq::new(f.args.len(), |i: int| f.args[i].cons).push(c)),
            remove_params(env1, f.args),
        ),
        other => other,
    }
}

/// The outcome of checking definitions in order.
pub enum WcDefs {
    Done(EnvV),
    Fail(WCErrorV),
    Stop,
}

/// Checks the globals among `nodes` in order, binding each to its construct.
pub open spec fn sp_wc_globals(nodes: Seq<AstNodeV>, env: EnvV) -> WcDefs
    decreases nodes.len(),
{
    if nodes.len() == 0 {
        WcDefs::Done(env)
    } else {
        match nodes[0] {
            AstNodeV::Global(s, e) => match sp_wc_expr(e, env) {
                WcRes::Done(c, env1) => sp_wc_globals(nodes.skip(1), env1.push((s, c))),
                WcRes::Fail(err, _) => WcDefs::Fail(err),
                WcRes::Stop => WcDefs::Stop,
            },
            AstNodeV::Function(_, _) => sp_wc_globals(nodes.skip(1), env),
        }
    }
}

/// Checks the functions among `nodes` in order, binding each to its construct.
pub open spec fn sp_wc_funs(nodes: Seq<AstNodeV>, env: EnvV) -> WcDefs
    decreases nodes.len(),
{
    if nodes.len() == 0 {
        WcDefs::Done(env)
    } else {
        match nodes[0] {
            AstNodeV::Function(s, f) => match sp_wc_fun(f, env) {
                WcRes::Done(c, env1) => sp_wc_funs(nodes.skip(1), env1.push((s, c))),
                WcRes::Fail(err, _) => WcDefs::Fail(err),
                WcRes::Stop => WcDefs::Stop,
            },
            AstNodeV::Global(_, _) => sp_wc_funs(nodes.skip(1), env),
        }
    }
}

/// Checks a program: its globals in order, then its functions in order.
pub open spec fn sp_width_check(nodes: Seq<AstNodeV>) -> WcDefs {
    match sp_wc_globals(nodes, Seq::empty()) {
        WcDefs::Done(env) => sp_wc_funs(nodes, env),
        other => other,
    }
}

/// `r` (with the environment `env` after it) is the outcome `sr`: `None` for a stop.
spec fn wc_res(r: Option<Result<Construct, WCError>>, env: Seq<(Symbol, Construct)>, sr: WcRes) -> bool {
    match sr {
        WcRes::Done(c, e) => r matches Some(Ok(x)) && x.view() == c && env_view(env) == e,
        WcRes::Fail(err, e) => r matches Some(Err(x)) && x.view() == err && env_view(env) == e,
        WcRes::Stop => r is None,
    }
}

/// The arguments' constructs are a prefix of the function's.
fn starts_with(tys: &Vec<Construct>, args: &Vec<Construct>) -> (r: bool)
    ensures
        r == (args.len() <= tys.len() && conss_view(tys@).take(args.len() as int) == conss_view(args@)),
{
    proof {
        lemma_conss_view(tys@);
        lemma_conss_view(args@);
    }
    if args.len() > tys.len() {
        return false;
    }
    let mut i: usize = 0;
    while i < args.len()
        invariant
            i <= args.len() <= tys.len(),
            conss_view(tys@).len() == tys.len(),
            conss_view(args@).len() == args.len(),
            forall|j: int| 0 <= j < tys.len() ==> #[trigger] conss_view(tys@)[j] == tys@[j].view(),
            forall|j: int| 0 <= j < args.len() ==> #[trigger] conss_view(args@)[j] == args@[j].view(),
            forall|j: int| 0 <= j < i ==> #[trigger] tys@[j].view() == args@[j].view(),
        decreases args.len() - i,
    {
        if !tys[i].same(&args[i]) {
            assert(conss_view(tys@).take(args.len() as int)[i as int] != conss_view(args@)[i as int]);
            return false;
        }
        i = i + 1;
    }
    assert(conss_view(tys@).take(args.len() as int) =~= conss_view(args@));
    true
}

/// The views of expressions are taken element by element.
proof fn lemma_exprs_view_index(s: Seq<Expr>)
    ensures
        exprs_view(s).len() == s.len(),
        forall|i: int| 0 <= i < s.len() ==> #[trigger] exprs_view(s)[i] == s[i].view(),
    decreases s.len(),
{
    lemma_exprs_view_len(s);
    if s.len() > 0 {
        let p = s.subrange(0, s.len() - 1);
        lemma_exprs_view_index(p);
        assert forall|i: int| 0 <= i < s.len() implies #[trigger] exprs_view(s)[i] == s[i].view() by {
            if i < s.len() - 1 {
                assert(p[i] == s[i]);
            }
        }
    }
}

proof fn lemma_prepend_step(p: Seq<ConstructV>, c: ConstructV, r: WcArgs)
    ensures
        prepend(
            p,
            match r {
                WcArgs::Done(cs, env2) => WcArgs::Done(seq![c] + cs, env2),
                other => other,
            },
        ) == prepend(p + seq![c], r),
{
    match r {
        WcArgs::Done(cs, env2) => {
            assert(p + (seq![c] + cs) =~= (p + seq![c]) + cs);
        },
        _ => {},
    }
}

/// Checks an expression, extending and shrinking the environment as `let`s do.
fn wc_expr(e: &Expr, w_env: &mut Vec<(Symbol, Construct)>) -> (r: Option<Result<Construct, WCError>>)
    ensures
        wc_res(r, final(w_env)@, sp_wc_expr(e.view(), env_view(old(w_env)@))),
    decreases e, 2nat,
{
    match e {
        Expr::Word(_) => Some(Ok(Construct::Word())),
        Expr::Lhs(Lhs::Ident(s)) => match env_lookup(w_env, *s) {
            Some(c) => Some(Ok(c)),
            None => Some(Err(WCError::UnboundIdentifier())),
        },
        Expr::Binop(bop, e1, e2) => wc_bop(bop, e1, e2, w_env, Ghost(*e)),
        Expr::Unop(_, _) => None,
        Expr::Let(lhs, e1, e2) => match lhs {
            Lhs::Ident(s) => {
                let cons = match wc_expr(e1, w_env) {
                    Some(Ok(c)) => c,
                    other => return other,
                };
                env_insert(w_env, *s, cons);
                let ret = wc_expr(e2, w_env);
                env_drop(w_env, *s);
                ret
            },
        },
        Expr::Cond(c, if_expr, else_expr) => {
            let cc = match wc_expr(c, w_env) {
                Some(Ok(x)) => x,
                other => return other,
            };
            if !cc.same(&Construct::Word()) {
                return Some(Err(WCError::UnexpectedConstruct(Construct::Word())));
            }
            let if_cons = match wc_expr(if_expr, w_env) {
                Some(Ok(x)) => x,
                other => return other,
            };
            let else_cons = match wc_expr(else_expr, w_env) {
                Some(Ok(x)) => x,
                other => return other,
            };
            if !if_cons.same(&else_cons) {
                return Some(Err(WCError::MismatchedConstructs(if_cons, else_cons)));
            }
            return Some(Ok(if_cons));
        },
        Expr::Call(Lhs::Ident(s), args) => {
            let tys = match env_lookup(w_env, *s) {
                None => return Some(Err(WCError::UnboundIdentifier())),
                Some(Construct::Fun(tys)) => tys,
                Some(other) => return Some(Err(WCError::UnexpectedConstruct(other))),
            };
            let ghost env0 = env_view(w_env@);
            let ghost all = exprs_view(args@);
            proof {
                lemma_exprs_view_index(args@);
            }
            let mut arg_tys: Vec<Construct> = Vec::new();
            let mut i: usize = 0;
            proof {
                lemma_conss_view(arg_tys@);
                assert(all.skip(0) =~= all);
                assert(conss_view(arg_tys@) =~= Seq::<ConstructV>::empty());
            }
            while i < args.len()
                invariant
                    i <= args.len(),
                    *e == Expr::Call(Lhs::Ident(*s), *args),
                    env0 == env_view(old(w_env)@),
                    sp_wc_expr(e.view(), env0) == match sp_wc_args(all, env0) {
                        WcArgs::Done(arg_tys, env1) => match sp_wc_call(conss_view(tys@), arg_tys) {
                            Ok(c) => WcRes::Done(c, env1),
                            Err(err) => WcRes::Fail(err, env1),
                        },
                        WcArgs::Fail(err, env1) => WcRes::Fail(err, env1),
                        WcArgs::Stop => WcRes::Stop,
                    },
                    all == exprs_view(args@),
                    all.len() == args.len(),
                    forall|j: int| 0 <= j < args.len() ==> #[trigger] all[j] == args@[j].view(),
                    sp_wc_args(all, env0) == prepend(
                        conss_view(arg_tys@),
                        sp_wc_args(all.skip(i as int), env_view(w_env@)),
                    ),
                decreases args.len() - i,
            {
                let ghost before = env_view(w_env@);
                let ghost rest = all.skip(i as int);
                assert(rest[0] == args@[i as int].view());
                assert(rest.subrange(1, rest.len() as int) =~= all.skip(i + 1));
                let c = match wc_expr(&args[i], w_env) {
                    Some(Ok(c)) => c,
                    other => return other,
                };
                proof {
                    lemma_prepend_step(
                        conss_view(arg_tys@),
                        c.view(),
                        sp_wc_args(all.skip(i + 1), env_view(w_env@)),
                    );
                    lemma_conss_view(arg_tys@);
                    lemma_conss_view(arg_tys@.push(c));
                    assert(conss_view(arg_tys@.push(c)) =~= conss_view(arg_tys@) + seq![c.view()]);
                }
                arg_tys.push(c);
                i = i + 1;
            }
            proof {
                assert(all.skip(i as int) =~= Seq::<ExprV>::empty());
                assert(conss_view(arg_tys@) + Seq::<ConstructV>::empty() =~= conss_view(arg_tys@));
                lemma_conss_view(arg_tys@);
                lemma_conss_view(tys@);
            }
            if starts_with(&tys, &arg_tys) {
                let mut tys = tys;
                let ghost old_tys = tys@;
                let ghost full = conss_view(tys@);
                let rest = tys.split_off(arg_tys.len());
                proof {
                    lemma_conss_view(rest@);
                    lemma_conss_view(old_tys);
                    assert forall|j: int| 0 <= j < rest.len() implies #[trigger] conss_view(rest@)[j]
                        == full.skip(arg_tys.len() as int)[j] by {
                        assert(rest@[j] == old_tys[arg_tys.len() + j]);
                    }
                    assert(conss_view(rest@) =~= full.skip(arg_tys.len() as int));
                }
                if rest.len() < 1 {
                    return Some(Err(WCError::ArgumentConstructMismatch(rest, arg_tys)));
                } else if rest.len() == 1 {
                    proof {
                        assert(conss_view(rest@)[0] == rest@[0].view());
                    }
                    return Some(Ok(rest[0].copy()));
                } else {
                    return Some(Ok(Construct::Fun(rest)));
                }
            } else {
                return Some(Err(WCError::ArgumentConstructMismatch(tys, arg_tys)));
            }
        },
    }
}

/// Checks a binary operation: both operands, in order, must be words.
fn wc_bop(
    bop: &Bop,
    e1: &Expr,
    e2: &Expr,
    w_env: &mut Vec<(Symbol, Construct)>,
    Ghost(whole): Ghost<Expr>,
) -> (r: Option<Result<Construct, WCError>>)
    requires
        whole == Expr::Binop(*bop, Box::new(*e1), Box::new(*e2)),
    ensures
        wc_res(r, final(w_env)@, sp_wc_expr(whole.view(), env_view(old(w_env)@))),
    decreases whole, 1nat,
{
    let w1 = match wc_expr(e1, w_env) {
        Some(Ok(c)) => c,
        other => return other,
    };
    let w2 = match wc_expr(e2, w_env) {
        Some(Ok(c)) => c,
        other => return other,
    };
    match bop {
        Bop::Add | Bop::Sub | Bop::Mult | Bop::Div | Bop::AddF | Bop::SubF | Bop::MultF | Bop::DivF
        | Bop::DivU | Bop::DivUF | Bop::Mod | Bop::ModU | Bop::BitOr | Bop::BitAnd | Bop::BitXor
        | Bop::LogOr | Bop::LogAnd | Bop::Eq | Bop::Neq | Bop::Leq | Bop::Geq | Bop::Gt | Bop::Lt => {
            if !w1.same(&Construct::Word()) || !w2.same(&Construct::Word()) {
                Some(Err(WCError::MismatchedConstructs(w1, w2)))
            } else {
                Some(Ok(Construct::Word()))
            }
        },
    }
}

/// The function's view.
pub open spec fn fun_view(f: Function) -> FunctionV {
    FunctionV { args: params_view(f.args@), body: f.body.view() }
}

/// Checks a function: binds its parameters, checks its body, drops the
/// parameters' symbols; gives the parameters' constructs followed by the body's.
fn wc_fun(fun: &Function, ctx: &mut Vec<(Symbol, Construct)>) -> (r: Option<Result<Construct, WCError>>)
    ensures
        wc_res(r, final(ctx)@, sp_wc_fun(fun_view(*fun), env_view(old(ctx)@))),
{
    let ghost env0 = env_view(ctx@);
    let ghost ps = params_view(fun.args@);
    let mut arg_cons: Vec<Construct> = Vec::new();
    let mut i: usize = 0;
    while i < fun.args.len()
        invariant
            i <= fun.args.len(),
            ps == params_view(fun.args@),
            env_view(ctx@) == env0 + param_bindings(ps.take(i as int)),
            arg_cons.len() == i,
            forall|j: int| 0 <= j < i ==> #[trigger] arg_cons@[j].view() == ps[j].cons,
        decreases fun.args.len() - i,
    {
        let p = &fun.args[i];
        env_insert(ctx, p.ident, p.cons.copy());
        arg_cons.push(p.cons.copy());
        i = i + 1;
        assert(env0 + param_bindings(ps.take(i as int)) =~= (env0 + param_bindings(ps.take(i - 1))).push(
            (ps[i - 1].ident, ps[i - 1].cons),
        ));
    }
    assert(ps.take(i as int) =~= ps);
    let res = match wc_expr(&fun.body, ctx) {
        Some(Ok(c)) => c,
        other => return other,
    };
    let ghost env1 = env_view(ctx@);
    arg_cons.push(res);
    let mut k: usize = 0;
    assert(ps.skip(0) =~= ps);
    while k < fun.args.len()
        invariant
            k <= fun.args.len(),
            ps == params_view(fun.args@),
            ps.len() == fun.args.len(),
            remove_params(env1, ps) == remove_params(env_view(ctx@), ps.skip(k as int)),
        decreases fun.args.len() - k,
    {
        assert(ps.skip(k as int)[0] == ps[k as int]);
        assert(ps.skip(k as int).skip(1) =~= ps.skip(k + 1));
        env_drop(ctx, fun.args[k].ident);
        k = k + 1;
    }
    proof {
        assert(ps.skip(k as int) =~= Seq::<ParamV>::empty());
        lemma_conss_view(arg_cons@);
        assert(conss_view(arg_cons@) =~= Seq::new(ps.len(), |j: int| ps[j].cons).push(res.view()));
    }
    Some(Ok(Construct::Fun(arg_cons)))
}

/// Checks a program where the check has an answer: `None` where it stops (see
/// `sp_width_check`), else what `width_check` gives.
pub fn try_width_check(ast: &Vec<AstNode>) -> (r: Option<Result<(), WCError>>)
    ensures
        match sp_width_check(nodes_view(ast@)) {
            WcDefs::Done(_) => r == Some(Ok::<(), WCError>(())),
            WcDefs::Fail(err) => r matches Some(Err(x)) && x.view() == err,
            WcDefs::Stop => r is None,
        },
{
    let ghost nodes = nodes_view(ast@);
    let mut g: Vec<(Symbol, Construct)> = Vec::new();
    let mut i: usize = 0;
    assert(nodes.skip(0) =~= nodes);
    assert(env_view(g@) =~= Seq::<(Symbol, ConstructV)>::empty());
    while i < ast.len()
        invariant
            i <= ast.len(),
            nodes == nodes_view(ast@),
            sp_wc_globals(nodes, Seq::empty()) == sp_wc_globals(nodes.skip(i as int), env_view(g@)),
        decreases ast.len() - i,
    {
        assert(nodes.skip(i as int)[0] == ast@[i as int].view());
        assert(nodes.skip(i as int).skip(1) =~= nodes.skip(i + 1));
        match &ast[i] {
            AstNode::Global(s, e) => {
                let c = match wc_expr(e, &mut g) {
                    Some(Ok(c)) => c,
                    Some(Err(err)) => return Some(Err(err)),
                    None => return None,
                };
                env_insert(&mut g, *s, c);
            },
            AstNode::Function(_, _) => {},
        }
        i = i + 1;
    }
    assert(nodes.skip(i as int) =~= Seq::<AstNodeV>::empty());
    let mut i: usize = 0;
    let ghost envg = env_view(g@);
    while i < ast.len()
        invariant
            i <= ast.len(),
            nodes == nodes_view(ast@),
            sp_width_check(nodes) == sp_wc_funs(nodes.skip(i as int), env_view(g@)),
        decreases ast.len() - i,
    {
        assert(nodes.skip(i as int)[0] == ast@[i as int].view());
        assert(nodes.skip(i as int).skip(1) =~= nodes.skip(i + 1));
        match &ast[i] {
            AstNode::Function(s, f) => {
                let c = match wc_fun(f, &mut g) {
                    Some(Ok(c)) => c,
                    Some(Err(err)) => return Some(Err(err)),
                    None => return None,
                };
                env_insert(&mut g, *s, c);
            },
            AstNode::Global(_, _) => {},
        }
        i = i + 1;
    }
    assert(nodes.skip(i as int) =~= Seq::<AstNodeV>::empty());
    Some(Ok(()))
}

/// Checks a program: the globals in order, then the functions in order, each
/// bound to its construct once checked. The check must have an answer (no
/// unary operation is reached).
pub fn width_check(ast: &Vec<AstNode>) -> (r: Result<(), WCError>)
    requires
        !(sp_width_check(nodes_view(ast@)) is Stop),
    ensures
        match sp_width_check(nodes_view(ast@)) {
            WcDefs::Done(_) => r is Ok,
            WcDefs::Fail(err) => r matches Err(x) && x.view() == err,
            WcDefs::Stop => false,
        },
{
    match try_width_check(ast) {
        Some(r) => r,
        None => {
            proof {
                assert(false);
            }
            Ok(())
        },
    }
}

} // verus!

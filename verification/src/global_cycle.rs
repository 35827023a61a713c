//! The dependency graph between globals: an edge from each global to each symbol
//! its defining expression names. The graph is a petgraph `DiGraphMap` whose
//! nodes are the symbols' keys (`sym_key`).
use crate::ast::{exprs_view, nodes_view, AstNode, AstNodeV, Expr, ExprV, Lhs, Namespace, Symbol};
use petgraph::algo::{is_cyclic_directed, toposort, Cycle};
use petgraph::graphmap::{DiGraphMap, GraphMap};
use petgraph::Directed;
use std::hash::BuildHasher;
use vstd::prelude::*;

verus! {

#[verifier::external_type_specification]
#[verifier::external_body]
#[verifier::reject_recursive_types(N)]
#[verifier::reject_recursive_types(E)]
#[verifier::reject_recursive_types(Ty)]
#[verifier::reject_recursive_types(S)]
pub struct ExGraphMap<N, E, Ty, S>(GraphMap<N, E, Ty, S>) where S: BuildHasher;

#[verifier::external_type_specification]
#[verifier::external_body]
pub struct ExDirected(Directed);

#[verifier::external_type_specification]
#[verifier::external_body]
#[verifier::reject_recursive_types(N)]
pub struct ExCycle<N>(Cycle<N>);

/// The dependency graph of the globals.
pub type GlobalDeps = DiGraphMap<u64, ()>;

// ---------------------------------------------------------------- symbol keys

pub open spec fn ns_code(ns: Namespace) -> u64 {
    match ns {
        Namespace::Variant => 0,
        Namespace::Binding => 1,
        Namespace::Global => 2,
    }
}

pub open spec fn code_ns(c: u64) -> Namespace {
    if c == 0 {
        Namespace::Variant
    } else if c == 1 {
        Namespace::Binding
    } else {
        Namespace::Global
    }
}

/// The graph node of a symbol: its number times four plus its namespace's code.
pub open spec fn sym_key(s: Symbol) -> u64 {
    (s.0 as u64 * 4 + ns_code(s.1)) as u64
}

/// The symbol of a graph node.
pub open spec fn key_sym(k: u64) -> Symbol {
    Symbol((k / 4) as u32, code_ns(k % 4))
}

/// The graph node of a symbol.
pub fn symbol_key(s: Symbol) -> (r: u64)
    ensures
        r == sym_key(s),
{
    let code: u64 = match s.1 {
        Namespace::Variant => 0,
        Namespace::Binding => 1,
        Namespace::Global => 2,
    };
    s.0 as u64 * 4 + code
}

/// The symbol of a graph node.
pub fn key_symbol(k: u64) -> (r: Symbol)
    ensures
        r == key_sym(k),
{
    let c = k % 4;
    let ns = if c == 0 {
        Namespace::Variant
    } else if c == 1 {
        Namespace::Binding
    } else {
        Namespace::Global
    };
    Symbol((k / 4) as u32, ns)
}

/// Keys name symbols one to one.
pub proof fn law_symbol_key_roundtrip(s: Symbol)
    ensures
        key_sym(sym_key(s)) == s,
{
    let k = sym_key(s);
    assert(k / 4 == s.0 as u64 && k % 4 == ns_code(s.1)) by (nonlinear_arith)
        requires
            k == s.0 as u64 * 4 + ns_code(s.1),
            0 <= ns_code(s.1) < 4,
    ;
}

// ---------------------------------------------------------------- referenced symbols

/// The symbols an expression names, in order of appearance (a call's function
/// first); the name a `let` binds is not among them unless used.
pub open spec fn rhs_syms(e: ExprV) -> Seq<Symbol>
    decreases e,
{
    match e {
        ExprV::Word(_) => Seq::empty(),
        ExprV::Lhs(Lhs::Ident(s)) => seq![s],
        ExprV::Binop(_, a, b) => rhs_syms(*a) + rhs_syms(*b),
        ExprV::Unop(_, a) => rhs_syms(*a),
        ExprV::Let(_, a, b) => rhs_syms(*a) + rhs_syms(*b),
        ExprV::Cond(a, b, c) => rhs_syms(*a) + rhs_syms(*b) + rhs_syms(*c),
        ExprV::Call(Lhs::Ident(s), args) => seq![s] + rhs_all(args),
    }
}

/// The symbols of expressions in order.
pub open spec fn rhs_all(args: Seq<ExprV>) -> Seq<Symbol>
    decreases args,
{
    if args.len() == 0 {
        Seq::empty()
    } else {
        rhs_all(args.subrange(0, args.len() - 1)) + rhs_syms(args[args.len() - 1])
    }
}

proof fn lemma_exprs_view_idx(s: Seq<Expr>)
    ensures
        exprs_view(s).len() == s.len(),
        forall|i: int| 0 <= i < s.len() ==> #[trigger] exprs_view(s)[i] == s[i].view(),
    decreases s.len(),
{
    if s.len() > 0 {
        let p = s.subrange(0, s.len() - 1);
        lemma_exprs_view_idx(p);
        assert forall|i: int| 0 <= i < s.len() implies #[trigger] exprs_view(s)[i] == s[i].view() by {
            if i < s.len() - 1 {
                assert(p[i] == s[i]);
            }
        }
    }
}

/// The symbols an expression names, in order.
fn get_rhs_syms(e: &Expr) -> (r: Vec<Symbol>)
    ensures
        r@ == rhs_syms(e.view()),
    decreases e,
{
    match e {
        Expr::Word(..) => Vec::new(),
        Expr::Lhs(Lhs::Ident(s)) => {
            let mut v = Vec::new();
            v.push(*s);
            assert(v@ =~= seq![*s]);
            v
        },
        Expr::Binop(_, e1, e2) => {
            let mut syms1 = get_rhs_syms(e1);
            let mut syms2 = get_rhs_syms(e2);
            syms1.append(&mut syms2);
            syms1
        },
        Expr::Unop(_, e) => get_rhs_syms(e),
        Expr::Let(_, e1, e2) => {
            let mut syms1 = get_rhs_syms(e1);
            let mut syms2 = get_rhs_syms(e2);
            syms1.append(&mut syms2);
            syms1
        },
        Expr::Cond(e1, e2, e3) => {
            let mut syms = get_rhs_syms(e1);
            let mut s2 = get_rhs_syms(e2);
            syms.append(&mut s2);
            let mut s3 = get_rhs_syms(e3);
            syms.append(&mut s3);
            syms
        },
        Expr::Call(Lhs::Ident(s), args) => {
            let mut syms = Vec::new();
            syms.push(*s);
            let ghost all = exprs_view(args@);
            proof {
                lemma_exprs_view_idx(args@);
                assert(all.subrange(0, 0) =~= Seq::<ExprV>::empty());
                assert(syms@ =~= seq![*s] + rhs_all(all.subrange(0, 0)));
            }
            let mut i: usize = 0;
            while i < args.len()
                invariant
                    i <= args.len(),
                    *e == Expr::Call(Lhs::Ident(*s), *args),
                    all == exprs_view(args@),
                    all.len() == args.len(),
                    forall|j: int| 0 <= j < args.len() ==> #[trigger] all[j] == args@[j].view(),
                    syms@ == seq![*s] + rhs_all(all.subrange(0, i as int)),
                decreases args.len() - i,
            {
                proof {
                    assert(decreases_to!(*args => args[i as int]));
                    assert(decreases_to!(*e => (*e)->Call_1));
                    assert(decreases_to!(*e => args[i as int]));
                }
                let mut more = get_rhs_syms(&args[i]);
                proof {
                    let p = all.subrange(0, i + 1);
                    assert(p.subrange(0, p.len() - 1) =~= all.subrange(0, i as int));
                    assert(p[p.len() - 1] == args@[i as int].view());
                }
                syms.append(&mut more);
                i = i + 1;
                assert(syms@ =~= seq![*s] + rhs_all(all.subrange(0, i as int)));
            }
            assert(all.subrange(0, i as int) =~= all);
            syms
        },
    }
}

// ---------------------------------------------------------------- the graph

/// What a graph holds: its nodes and its edges, each in the order first added.
pub struct GraphV {
    pub nodes: Seq<u64>,
    pub edges: Seq<(u64, u64)>,
}

/// The nodes of a graph, in the order first added (petgraph keeps them in an
/// insertion-ordered map).
pub uninterp spec fn graph_nodes(g: DiGraphMap<u64, ()>) -> Seq<u64>;

/// The edges of a graph, in the order first added.
pub uninterp spec fn graph_edges(g: DiGraphMap<u64, ()>) -> Seq<(u64, u64)>;

pub open spec fn graph_of(g: DiGraphMap<u64, ()>) -> GraphV {
    GraphV { nodes: graph_nodes(g), edges: graph_edges(g) }
}

/// Adding a node that is there changes nothing; another is appended.
pub open spec fn add_node_spec(ns: Seq<u64>, n: u64) -> Seq<u64> {
    if ns.contains(n) {
        ns
    } else {
        ns.push(n)
    }
}

/// Adding an edge that is there changes nothing; another is appended, after its
/// endpoints are added as nodes.
pub open spec fn add_edge_spec(g: GraphV, a: u64, b: u64) -> GraphV {
    if g.edges.contains((a, b)) {
        g
    } else {
        GraphV { nodes: add_node_spec(add_node_spec(g.nodes, a), b), edges: g.edges.push((a, b)) }
    }
}

/// `p` is a cycle: each node has an edge to the next and the last to the first.
pub open spec fn is_cycle(edges: Seq<(u64, u64)>, p: Seq<u64>) -> bool {
    &&& p.len() > 0
    &&& forall|i: int| 0 <= i < p.len() ==> #[trigger] edges.contains((p[i], p[(i + 1) % (p.len() as int)]))
}

/// The edges form a cycle (a self loop is one).
pub open spec fn has_cycle(edges: Seq<(u64, u64)>) -> bool {
    exists|p: Seq<u64>| is_cycle(edges, p)
}

/// `order` lists each node once and puts each node before its successors.
pub open spec fn is_topo_order(order: Seq<u64>, g: GraphV) -> bool {
    &&& order.no_duplicates()
    &&& forall|n: u64| #[trigger] order.contains(n) <==> g.nodes.contains(n)
    &&& forall|i: int, j: int|
        0 <= i < order.len() && 0 <= j < order.len() && #[trigger] g.edges.contains(
            (order[i], order[j]),
        ) ==> i < j
}

/// The order `petgraph::algo::toposort` gives the nodes of an acyclic graph.
pub uninterp spec fn toposort_order(nodes: Seq<u64>, edges: Seq<(u64, u64)>) -> Seq<u64>;

/// `GraphMap::new`: a graph with no node and no edge.
#[verifier::external_body]
fn graph_new() -> (g: GlobalDeps)
    ensures
        graph_nodes(g) == Seq::<u64>::empty(),
        graph_edges(g) == Seq::<(u64, u64)>::empty(),
{
    DiGraphMap::new()
}

/// `GraphMap::add_node`: adds `n` unless it is there; gives `n`.
#[verifier::external_body]
fn graph_add_node(g: &mut GlobalDeps, n: u64) -> (r: u64)
    ensures
        r == n,
        graph_nodes(*final(g)) == add_node_spec(graph_nodes(*old(g)), n),
        graph_edges(*final(g)) == graph_edges(*old(g)),
{
    g.add_node(n)
}

/// `GraphMap::add_edge`: adds the edge from `a` to `b` and its endpoints, unless the
/// edge is there (then its weight is replaced and the old one given back).
#[verifier::external_body]
fn graph_add_edge(g: &mut GlobalDeps, a: u64, b: u64) -> (r: Option<()>)
    ensures
        graph_of(*final(g)) == add_edge_spec(graph_of(*old(g)), a, b),
        r is Some <==> graph_edges(*old(g)).contains((a, b)),
{
    g.add_edge(a, b, ())
}

/// `petgraph::algo::toposort`: on an acyclic graph, the nodes with each before its
/// successors, in the order the named result fixes; a `Cycle` otherwise (self
/// loops count as cycles). Which node the `Cycle` names is not stated.
#[verifier::external_body]
pub(crate) fn graph_toposort(g: &GlobalDeps) -> (r: Result<Vec<u64>, Cycle<u64>>)
    ensures
        r is Ok <==> !has_cycle(graph_edges(*g)),
        r matches Ok(v) ==> v@ == toposort_order(graph_nodes(*g), graph_edges(*g)) && is_topo_order(
            v@,
            graph_of(*g),
        ),
{
    toposort(g, None)
}

/// `petgraph::algo::is_cyclic_directed`: whether the graph has a cycle (a self
/// loop is one).
#[verifier::external_body]
fn graph_is_cyclic(g: &GlobalDeps) -> (r: bool)
    ensures
        r == has_cycle(graph_edges(*g)),
{
    is_cyclic_directed(g)
}

/// The graph after the edges from `src` to each of `dests`, in order.
pub open spec fn add_edges(g: GraphV, src: Symbol, dests: Seq<Symbol>) -> GraphV
    decreases dests.len(),
{
    if dests.len() == 0 {
        g
    } else {
        add_edge_spec(add_edges(g, src, dests.drop_last()), sym_key(src), sym_key(dests.last()))
    }
}

/// The dependency graph of the definitions: each global, in order, adds its node
/// and then an edge to each symbol its expression names.
pub open spec fn global_graph(nodes: Seq<AstNodeV>) -> GraphV
    decreases nodes.len(),
{
    if nodes.len() == 0 {
        GraphV { nodes: Seq::empty(), edges: Seq::empty() }
    } else {
        let g = global_graph(nodes.drop_last());
        match nodes.last() {
            AstNodeV::Global(src, e) => add_edges(
                GraphV { nodes: add_node_spec(g.nodes, sym_key(src)), edges: g.edges },
                src,
                rhs_syms(e),
            ),
            AstNodeV::Function(_, _) => g,
        }
    }
}

proof fn lemma_add_node_grows(ns: Seq<u64>, n: u64)
    ensures
        add_node_spec(ns, n).contains(n),
        forall|m: u64| ns.contains(m) ==> #[trigger] add_node_spec(ns, n).contains(m),
{
    if !ns.contains(n) {
        assert(ns.push(n)[ns.len() as int] == n);
        assert forall|m: u64| ns.contains(m) implies #[trigger] ns.push(n).contains(m) by {
            let k = choose|k: int| 0 <= k < ns.len() && ns[k] == m;
            assert(ns.push(n)[k] == m);
        }
    }
}

proof fn lemma_add_edges_grows(g: GraphV, src: Symbol, dests: Seq<Symbol>)
    ensures
        forall|m: u64| g.nodes.contains(m) ==> #[trigger] add_edges(g, src, dests).nodes.contains(m),
        forall|x: (u64, u64)| g.edges.contains(x) ==> #[trigger] add_edges(g, src, dests).edges.contains(x),
        forall|i: int|
            0 <= i < dests.len() ==> add_edges(g, src, dests).edges.contains(
                (sym_key(src), sym_key(#[trigger] dests[i])),
            ),
    decreases dests.len(),
{
    if dests.len() > 0 {
        let p = dests.drop_last();
        lemma_add_edges_grows(g, src, p);
        let g1 = add_edges(g, src, p);
        let a = sym_key(src);
        let b = sym_key(dests.last());
        let g2 = add_edge_spec(g1, a, b);
        assert forall|m: u64| g1.nodes.contains(m) implies g2.nodes.contains(m) by {
            if !g1.edges.contains((a, b)) {
                let n1 = add_node_spec(g1.nodes, a);
                lemma_add_node_grows(g1.nodes, a);
                lemma_add_node_grows(n1, b);
            }
        }
        assert forall|x: (u64, u64)| g1.edges.contains(x) implies g2.edges.contains(x) by {
            if !g1.edges.contains((a, b)) {
                let k = choose|k: int| 0 <= k < g1.edges.len() && g1.edges[k] == x;
                assert(g2.edges[k] == x);
            }
        }
        assert(g2.edges.contains((a, b))) by {
            if !g1.edges.contains((a, b)) {
                assert(g2.edges[g2.edges.len() - 1] == (a, b));
            }
        }
        assert forall|i: int| 0 <= i < dests.len() implies g2.edges.contains(
            (sym_key(src), sym_key(#[trigger] dests[i])),
        ) by {
            if i < dests.len() - 1 {
                assert(p[i] == dests[i]);
            }
        }
    }
}

/// `n` is the key of a symbol.
pub open spec fn is_key(n: u64) -> bool {
    sym_key(key_sym(n)) == n
}

proof fn lemma_add_node_keyed(ns: Seq<u64>, n: u64)
    requires
        is_key(n),
        forall|m: u64| #[trigger] ns.contains(m) ==> is_key(m),
    ensures
        forall|m: u64| #[trigger] add_node_spec(ns, n).contains(m) ==> is_key(m),
{
    if !ns.contains(n) {
        assert forall|m: u64| #[trigger] ns.push(n).contains(m) implies is_key(m) by {
            let k = choose|k: int| 0 <= k < ns.push(n).len() && ns.push(n)[k] == m;
            if k < ns.len() {
                assert(ns.push(n)[k] == ns[k]);
                assert(ns.contains(m));
            } else {
                assert(ns.push(n)[k] == n);
            }
        }
    }
}

proof fn lemma_add_edges_keyed(g: GraphV, src: Symbol, dests: Seq<Symbol>)
    requires
        forall|m: u64| #[trigger] g.nodes.contains(m) ==> is_key(m),
    ensures
        forall|m: u64| #[trigger] add_edges(g, src, dests).nodes.contains(m) ==> is_key(m),
    decreases dests.len(),
{
    if dests.len() > 0 {
        lemma_add_edges_keyed(g, src, dests.drop_last());
        let g1 = add_edges(g, src, dests.drop_last());
        law_symbol_key_roundtrip(src);
        law_symbol_key_roundtrip(dests.last());
        if !g1.edges.contains((sym_key(src), sym_key(dests.last()))) {
            lemma_add_node_keyed(g1.nodes, sym_key(src));
            lemma_add_node_keyed(add_node_spec(g1.nodes, sym_key(src)), sym_key(dests.last()));
        }
    }
}

/// Every node of a program's dependency graph is the key of a symbol.
pub proof fn lemma_graph_nodes_keyed(nodes: Seq<AstNodeV>)
    ensures
        forall|m: u64| #[trigger] global_graph(nodes).nodes.contains(m) ==> is_key(m),
    decreases nodes.len(),
{
    if nodes.len() > 0 {
        lemma_graph_nodes_keyed(nodes.drop_last());
        let g = global_graph(nodes.drop_last());
        match nodes.last() {
            AstNodeV::Global(src, e) => {
                law_symbol_key_roundtrip(src);
                lemma_add_node_keyed(g.nodes, sym_key(src));
                lemma_add_edges_keyed(
                    GraphV { nodes: add_node_spec(g.nodes, sym_key(src)), edges: g.edges },
                    src,
                    rhs_syms(e),
                );
            },
            AstNodeV::Function(_, _) => {},
        }
    } else {
        assert(global_graph(nodes).nodes =~= Seq::<u64>::empty());
    }
}

/// Each global of a program is a node of its dependency graph, with an edge to
/// each symbol the global's expression names.
pub proof fn law_graph_has_references(nodes: Seq<AstNodeV>, i: int)
    requires
        0 <= i < nodes.len(),
    ensures
        nodes[i] matches AstNodeV::Global(src, e) ==> global_graph(nodes).nodes.contains(sym_key(src))
            && forall|d: Symbol| #[trigger] rhs_syms(e).contains(d) ==> global_graph(nodes).edges.contains(
            (sym_key(src), sym_key(d)),
        ),
    decreases nodes.len(),
{
    let p = nodes.drop_last();
    let g = global_graph(p);
    if i < nodes.len() - 1 {
        law_graph_has_references(p, i);
        assert(p[i] == nodes[i]);
        match nodes.last() {
            AstNodeV::Global(src, e) => {
                let g0 = GraphV { nodes: add_node_spec(g.nodes, sym_key(src)), edges: g.edges };
                lemma_add_edges_grows(g0, src, rhs_syms(e));
                assert forall|m: u64| g.nodes.contains(m) implies g0.nodes.contains(m) by {
                    if !g.nodes.contains(sym_key(src)) {
                        let k = choose|k: int| 0 <= k < g.nodes.len() && g.nodes[k] == m;
                        assert(g0.nodes[k] == m);
                    }
                }
            },
            AstNodeV::Function(_, _) => {},
        }
    } else {
        match nodes.last() {
            AstNodeV::Global(src, e) => {
                let g0 = GraphV { nodes: add_node_spec(g.nodes, sym_key(src)), edges: g.edges };
                lemma_add_edges_grows(g0, src, rhs_syms(e));
                assert(g0.nodes.contains(sym_key(src))) by {
                    if !g.nodes.contains(sym_key(src)) {
                        assert(g0.nodes[g0.nodes.len() - 1] == sym_key(src));
                    }
                }
                assert forall|d: Symbol| #[trigger] rhs_syms(e).contains(d) implies global_graph(nodes).edges.contains(
                    (sym_key(src), sym_key(d)),
                ) by {
                    let k = choose|k: int| 0 <= k < rhs_syms(e).len() && rhs_syms(e)[k] == d;
                    assert(rhs_syms(e)[k] == d);
                }
            },
            AstNodeV::Function(_, _) => {},
        }
    }
}

/// `s` occurs in `e`: as a name anywhere in it, also under a unary operator, in
/// a condition, in a `let`'s expressions, or as a call's function or argument.
pub open spec fn occurs(s: Symbol, e: ExprV) -> bool
    decreases e,
{
    match e {
        ExprV::Word(_) => false,
        ExprV::Lhs(Lhs::Ident(x)) => x == s,
        ExprV::Binop(_, a, b) => occurs(s, *a) || occurs(s, *b),
        ExprV::Unop(_, a) => occurs(s, *a),
        ExprV::Let(_, a, b) => occurs(s, *a) || occurs(s, *b),
        ExprV::Cond(a, b, c) => occurs(s, *a) || occurs(s, *b) || occurs(s, *c),
        ExprV::Call(Lhs::Ident(f), args) => f == s || occurs_args(s, args),
    }
}

/// `s` occurs in one of `args`.
pub open spec fn occurs_args(s: Symbol, args: Seq<ExprV>) -> bool
    decreases args,
{
    args.len() > 0 && (occurs_args(s, args.subrange(0, args.len() - 1)) || occurs(s, args[args.len() - 1]))
}

proof fn lemma_concat_contains<A>(a: Seq<A>, b: Seq<A>, x: A)
    ensures
        a.contains(x) || b.contains(x) ==> (a + b).contains(x),
{
    if a.contains(x) {
        let i = choose|i: int| 0 <= i < a.len() && a[i] == x;
        assert((a + b)[i] == x);
    } else if b.contains(x) {
        let i = choose|i: int| 0 <= i < b.len() && b[i] == x;
        assert((a + b)[a.len() + i] == x);
    }
}

proof fn lemma_occurs_named(s: Symbol, e: ExprV)
    ensures
        occurs(s, e) ==> rhs_syms(e).contains(s),
    decreases e,
{
    match e {
        ExprV::Word(_) => {},
        ExprV::Lhs(Lhs::Ident(x)) => {
            if x == s {
                assert(seq![x][0] == s);
            }
        },
        ExprV::Binop(_, a, b) => {
            lemma_occurs_named(s, *a);
            lemma_occurs_named(s, *b);
            lemma_concat_contains(rhs_syms(*a), rhs_syms(*b), s);
        },
        ExprV::Unop(_, a) => {
            lemma_occurs_named(s, *a);
        },
        ExprV::Let(_, a, b) => {
            lemma_occurs_named(s, *a);
            lemma_occurs_named(s, *b);
            lemma_concat_contains(rhs_syms(*a), rhs_syms(*b), s);
        },
        ExprV::Cond(a, b, c) => {
            lemma_occurs_named(s, *a);
            lemma_occurs_named(s, *b);
            lemma_occurs_named(s, *c);
            lemma_concat_contains(rhs_syms(*a), rhs_syms(*b), s);
            lemma_concat_contains(rhs_syms(*a) + rhs_syms(*b), rhs_syms(*c), s);
        },
        ExprV::Call(Lhs::Ident(f), args) => {
            lemma_occurs_args_named(s, args);
            if f == s {
                assert(seq![f][0] == s);
            }
            lemma_concat_contains(seq![f], rhs_all(args), s);
        },
    }
}

proof fn lemma_occurs_args_named(s: Symbol, args: Seq<ExprV>)
    ensures
        occurs_args(s, args) ==> rhs_all(args).contains(s),
    decreases args,
{
    if args.len() > 0 {
        let p = args.subrange(0, args.len() - 1);
        lemma_occurs_args_named(s, p);
        lemma_occurs_named(s, args[args.len() - 1]);
        lemma_concat_contains(rhs_all(p), rhs_syms(args[args.len() - 1]), s);
    }
}

/// The dependency graph has an edge from each global to every symbol that occurs
/// in its expression (see `occurs`).
pub proof fn law_graph_edge_for_each_occurrence(nodes: Seq<AstNodeV>, i: int, d: Symbol)
    requires
        0 <= i < nodes.len(),
    ensures
        nodes[i] matches AstNodeV::Global(src, e) ==> (occurs(d, e) ==> global_graph(nodes).edges.contains(
            (sym_key(src), sym_key(d)),
        )),
{
    law_graph_has_references(nodes, i);
    match nodes[i] {
        AstNodeV::Global(src, e) => {
            lemma_occurs_named(d, e);
        },
        _ => {},
    }
}

/// Two globals whose expressions name each other depend on each other in a
/// cycle, and so does a global whose expression names itself.
pub proof fn law_mutual_reference_is_cycle(nodes: Seq<AstNodeV>, i: int, j: int)
    requires
        0 <= i < nodes.len(),
        0 <= j < nodes.len(),
        nodes[i] matches AstNodeV::Global(a, ea) && nodes[j] matches AstNodeV::Global(b, eb) && occurs(b, ea)
            && occurs(a, eb),
    ensures
        has_cycle(global_graph(nodes).edges),
{
    match (nodes[i], nodes[j]) {
        (AstNodeV::Global(a, ea), AstNodeV::Global(b, eb)) => {
            law_graph_edge_for_each_occurrence(nodes, i, b);
            law_graph_edge_for_each_occurrence(nodes, j, a);
            let edges = global_graph(nodes).edges;
            let p = seq![sym_key(a), sym_key(b)];
            assert(edges.contains((p[0], p[1])));
            assert(edges.contains((p[1], p[0])));
            assert forall|k: int| 0 <= k < p.len() implies #[trigger] edges.contains(
                (p[k], p[(k + 1) % (p.len() as int)]),
            ) by {
                if k == 0 {
                    assert((k + 1) % (p.len() as int) == 1);
                } else {
                    assert((k + 1) % (p.len() as int) == 0);
                }
            }
            assert(is_cycle(edges, p));
        },
        _ => {},
    }
}

/// The dependency graph of a program's globals.
pub fn get_global_graph(prog: &Vec<AstNode>) -> (r: GlobalDeps)
    ensures
        graph_of(r) == global_graph(nodes_view(prog@)),
{
    let ghost nodes = nodes_view(prog@);
    let mut graph = graph_new();
    let mut i: usize = 0;
    assert(nodes.take(0) =~= Seq::<AstNodeV>::empty());
    while i < prog.len()
        invariant
            i <= prog.len(),
            nodes == nodes_view(prog@),
            graph_of(graph) == global_graph(nodes.take(i as int)),
        decreases prog.len() - i,
    {
        assert(nodes.take(i + 1).drop_last() =~= nodes.take(i as int));
        assert(nodes.take(i + 1).last() == prog@[i as int].view());
        if let AstNode::Global(src, e) = &prog[i] {
            let key = symbol_key(*src);
            graph_add_node(&mut graph, key);
            let dests = get_rhs_syms(e);
            let ghost g0 = graph_of(graph);
            let mut j: usize = 0;
            assert(dests@.take(0) =~= Seq::<Symbol>::empty());
            while j < dests.len()
                invariant
                    j <= dests.len(),
                    key == sym_key(*src),
                    graph_of(graph) == add_edges(g0, *src, dests@.take(j as int)),
                decreases dests.len() - j,
            {
                assert(dests@.take(j + 1).drop_last() =~= dests@.take(j as int));
                assert(dests@.take(j + 1).last() == dests@[j as int]);
                let d = symbol_key(dests[j]);
                graph_add_edge(&mut graph, key, d);
                j = j + 1;
            }
            assert(dests@.take(j as int) =~= dests@);
        }
        i = i + 1;
    }
    assert(nodes.take(i as int) =~= nodes);
    graph
}

/// The globals of a program depend on each other in a cycle: their dependency
/// graph has one.
pub fn globals_cyclic(ast: &Vec<AstNode>) -> (r: bool)
    ensures
        r == has_cycle(global_graph(nodes_view(ast@)).edges),
{
    let g = get_global_graph(ast);
    graph_is_cyclic(&g)
}

} // verus!

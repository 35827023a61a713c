use bomp::ast::{AstNode, Bop, Expr, Function, Lhs, Namespace, Param, Symbol};
use bomp::ast_lower::{blocks_of_stream, compile, lower_program, try_compile, CompileCtx, Elem};
use bomp::bir::{Bop as BBop, Decl, Operand, Stmt, StmtKind, Term};
use bomp::constructs::Construct;
use bomp::err::AstBirError;
use bomp::global_cycle::{get_global_graph, globals_cyclic, key_symbol, symbol_key};
use bomp::parser::parse;
use bomp::token::TokenKind::{Colon, Fun, LParam, Let, Minus, Plus, RParam, TWord};
use bomp::token::{Token, TokenKind};

fn ast_of(kinds: Vec<TokenKind>) -> Vec<AstNode> {
    let toks: Vec<Token> = kinds.into_iter().enumerate().map(|(i, k)| Token::new(k, "t.bf", 1, i + 1)).collect();
    parse(toks).unwrap()
}

fn eq() -> TokenKind {
    TokenKind::Eq()
}

fn id(s: &str) -> TokenKind {
    TokenKind::Identifier(String::from(s))
}

fn w(v: i64) -> TokenKind {
    TokenKind::Word(v)
}

fn g(n: u32) -> Symbol {
    Symbol(n, Namespace::Global)
}

fn name(s: Symbol) -> Box<Expr> {
    Box::new(Expr::Lhs(Lhs::Ident(s)))
}

fn add(dest: usize, a: Operand, b: Operand) -> Elem {
    Elem::S(Stmt { dest: Some(dest), stmt: StmtKind::Bop(BBop::Add, a, b) })
}

fn dest_of(e: &Stmt) -> Option<usize> {
    e.dest
}

#[test]
fn context_numbers_registers_in_order() {
    let mut c = CompileCtx::new();
    assert_eq!(c.next_id(), 0);
    assert_eq!(c.next_id(), 1);
    assert_eq!(c.next_id(), 2);
}

#[test]
fn context_gives_what_was_added() {
    let mut c = CompileCtx::new();
    let x = Symbol(0, Namespace::Binding);
    assert!(!c.has_uid(&x));
    assert_eq!(c.get_uid(&x), None);
    assert_eq!(c.add_local(x, Operand::Ident(4)), None);
    assert!(c.has_uid(&x));
    assert_eq!(c.get_uid(&x), Some(Operand::Ident(4)));
    assert_eq!(c.add_local(x, Operand::Word(9)), Some(Operand::Ident(4)));
    assert_eq!(c.get_uid(&x), Some(Operand::Word(9)));
    assert_eq!(c.get_uid(&g(0)), None);
}

#[test]
fn stream_without_labels_is_one_block() {
    let s = vec![
        add(0, Operand::Word(1), Operand::Word(2)),
        add(1, Operand::Ident(0), Operand::Word(3)),
        Elem::T(Term::Ret(Operand::Ident(1))),
    ];
    let (entry, blocks) = blocks_of_stream(s).unwrap();
    assert_eq!(entry.stmts.iter().map(dest_of).collect::<Vec<_>>(), vec![Some(0), Some(1)]);
    assert_eq!(entry.term, Some(Term::Ret(Operand::Ident(1))));
    assert!(blocks.is_empty());
}

#[test]
fn entry_keeps_its_last_terminator() {
    let s = vec![Elem::T(Term::Br()), add(0, Operand::Word(1), Operand::Word(2)), Elem::T(Term::Ret(Operand::Null))];
    let (entry, blocks) = blocks_of_stream(s).unwrap();
    assert_eq!(entry.stmts.len(), 1);
    assert_eq!(entry.term, Some(Term::Ret(Operand::Null)));
    assert!(blocks.is_empty());
}

#[test]
fn empty_stream_is_an_empty_entry() {
    let (entry, blocks) = blocks_of_stream(Vec::new()).unwrap();
    assert!(entry.stmts.is_empty());
    assert_eq!(entry.term, None);
    assert!(blocks.is_empty());
}

#[test]
fn labels_open_blocks() {
    let s = vec![
        add(0, Operand::Word(1), Operand::Word(2)),
        Elem::L(String::from("l1")),
        add(1, Operand::Word(1), Operand::Word(2)),
        Elem::T(Term::Br()),
        Elem::L(String::from("l2")),
        add(2, Operand::Word(1), Operand::Word(2)),
        Elem::T(Term::Ret(Operand::Ident(2))),
    ];
    let (entry, blocks) = blocks_of_stream(s).unwrap();
    assert_eq!(entry.stmts.iter().map(dest_of).collect::<Vec<_>>(), vec![Some(0)]);
    assert_eq!(entry.term, None);
    assert_eq!(blocks.len(), 2);
    assert_eq!(blocks[0].0, "l1");
    assert_eq!(blocks[0].1.stmts.iter().map(dest_of).collect::<Vec<_>>(), vec![Some(1)]);
    assert_eq!(blocks[0].1.term, Some(Term::Br()));
    assert_eq!(blocks[1].0, "l2");
    assert_eq!(blocks[1].1.stmts.iter().map(dest_of).collect::<Vec<_>>(), vec![Some(2)]);
    assert_eq!(blocks[1].1.term, Some(Term::Ret(Operand::Ident(2))));
}

#[test]
fn label_closes_the_open_block_without_terminator() {
    let s = vec![
        Elem::L(String::from("a")),
        add(0, Operand::Word(1), Operand::Word(2)),
        Elem::L(String::from("b")),
        Elem::T(Term::Br()),
    ];
    let (_, blocks) = blocks_of_stream(s).unwrap();
    assert_eq!(blocks.len(), 2);
    assert_eq!(blocks[0].0, "a");
    assert_eq!(blocks[0].1.stmts.len(), 1);
    assert_eq!(blocks[0].1.term, None);
    assert_eq!(blocks[1].0, "b");
    assert_eq!(blocks[1].1.term, Some(Term::Br()));
}

#[test]
fn statements_outside_blocks_and_open_blocks_are_dropped() {
    let s = vec![
        Elem::L(String::from("a")),
        Elem::T(Term::Br()),
        add(7, Operand::Word(1), Operand::Word(2)),
        Elem::L(String::from("b")),
        add(8, Operand::Word(1), Operand::Word(2)),
    ];
    let (entry, blocks) = blocks_of_stream(s).unwrap();
    assert!(entry.stmts.is_empty());
    assert_eq!(blocks.len(), 1);
    assert_eq!(blocks[0].0, "a");
    assert!(blocks[0].1.stmts.is_empty());
}

#[test]
fn a_label_used_again_replaces_its_block() {
    let s = vec![
        Elem::L(String::from("a")),
        Elem::T(Term::Br()),
        Elem::L(String::from("b")),
        Elem::T(Term::Br()),
        Elem::L(String::from("a")),
        Elem::T(Term::Ret(Operand::Word(0))),
    ];
    let (_, blocks) = blocks_of_stream(s).unwrap();
    assert_eq!(blocks.len(), 2);
    assert_eq!(blocks[0].0, "a");
    assert_eq!(blocks[0].1.term, Some(Term::Ret(Operand::Word(0))));
    assert_eq!(blocks[1].0, "b");
}

#[test]
fn terminator_outside_a_block_is_an_error() {
    let s = vec![Elem::L(String::from("a")), Elem::T(Term::Br()), Elem::T(Term::Br())];
    assert!(matches!(blocks_of_stream(s), Err(AstBirError::DevBlockingError())));
}

#[test]
fn compiles_globals_and_a_function() {
    // a = 1; fun f (x : word) = x + a
    let ast = ast_of(vec![
        id("a"), eq(), w(1),
        Fun(), id("f"), LParam(), id("x"), Colon(), TWord(), RParam(), eq(), id("x"), Plus(), id("a"),
    ]);
    let prog = compile(ast).unwrap();
    assert_eq!(prog.len(), 2);
    match &prog[0] {
        Decl::GDecl(gl) => {
            assert_eq!(gl.ident, g(0));
            assert_eq!(gl.val, Operand::Word(1));
        },
        other => panic!("{:?}", other),
    }
    match &prog[1] {
        Decl::FDecl(f) => {
            assert_eq!(f.ident, g(2));
            assert_eq!(f.args.iter().map(|p| p.ident).collect::<Vec<_>>(), vec![0]);
            assert_eq!(f.entry.stmts.len(), 1);
            assert_eq!(f.entry.stmts[0].dest, Some(1));
            assert!(matches!(
                f.entry.stmts[0].stmt,
                StmtKind::Bop(BBop::Add, Operand::Ident(0), Operand::GIdent(s)) if s == g(0)
            ));
            assert_eq!(f.entry.term, Some(Term::Ret(Operand::Ident(1))));
            assert!(f.body.is_empty());
        },
        other => panic!("{:?}", other),
    }
}

#[test]
fn functions_may_name_each_other() {
    // fun f = g; fun g = f (built by hand: the parser knows no name before it is defined)
    let f = AstNode::Function(g(0), Box::new(Function { args: Vec::new(), body: name(g(1)) }));
    let h = AstNode::Function(g(1), Box::new(Function { args: Vec::new(), body: name(g(0)) }));
    let prog = compile(vec![f, h]).unwrap();
    assert_eq!(prog.len(), 2);
    match (&prog[0], &prog[1]) {
        (Decl::FDecl(a), Decl::FDecl(b)) => {
            assert_eq!(a.ident, g(0));
            assert_eq!(a.entry.term, Some(Term::Ret(Operand::GIdent(g(1)))));
            assert_eq!(b.ident, g(1));
            assert_eq!(b.entry.term, Some(Term::Ret(Operand::GIdent(g(0)))));
        },
        other => panic!("{:?}", other),
    }
}

#[test]
fn registers_continue_across_functions() {
    let x = Symbol(0, Namespace::Binding);
    let mk = |n: u32| {
        AstNode::Function(
            g(n),
            Box::new(Function {
                args: vec![Param { ident: x, cons: Construct::Word() }],
                body: Box::new(Expr::Binop(Bop::Add, name(x), Box::new(Expr::Word(1)))),
            }),
        )
    };
    let prog = compile(vec![mk(1), mk(2)]).unwrap();
    let regs: Vec<(Vec<usize>, Option<usize>)> = prog
        .iter()
        .map(|d| match d {
            Decl::FDecl(f) => (f.args.iter().map(|p| p.ident).collect(), f.entry.stmts[0].dest),
            Decl::GDecl(_) => panic!("global"),
        })
        .collect();
    assert_eq!(regs, vec![(vec![0], Some(1)), (vec![2], Some(3))]);
}

#[test]
fn last_definition_of_a_function_wins_in_first_place() {
    let f1 = AstNode::Function(g(0), Box::new(Function { args: Vec::new(), body: Box::new(Expr::Word(1)) }));
    let other = AstNode::Function(g(1), Box::new(Function { args: Vec::new(), body: Box::new(Expr::Word(2)) }));
    let f2 = AstNode::Function(g(0), Box::new(Function { args: Vec::new(), body: Box::new(Expr::Word(3)) }));
    let prog = compile(vec![f1, other, f2]).unwrap();
    let rets: Vec<(Symbol, Option<Term>)> = prog
        .iter()
        .map(|d| match d {
            Decl::FDecl(f) => (f.ident, f.entry.term),
            Decl::GDecl(_) => panic!("global"),
        })
        .collect();
    assert_eq!(rets, vec![(g(0), Some(Term::Ret(Operand::Word(3)))), (g(1), Some(Term::Ret(Operand::Word(2))))]);
}

#[test]
fn let_global_folds_its_body() {
    let ast = ast_of(vec![id("a"), eq(), Let(), id("x"), eq(), w(5), TokenKind::In(), w(2)]);
    let prog = compile(ast).unwrap();
    assert_eq!(prog.len(), 1);
    assert!(matches!(&prog[0], Decl::GDecl(gl) if gl.val == Operand::Word(2)));
    // the body sees the bound value (built by hand: the graph names the binding)
    let x = Symbol(0, Namespace::Binding);
    let e = Expr::Let(Lhs::Ident(x), Box::new(Expr::Word(7)), name(x));
    let prog = lower_program(&vec![AstNode::Global(g(1), Box::new(e))], &vec![g(1)]).unwrap().unwrap();
    assert!(matches!(&prog[0], Decl::GDecl(gl) if gl.val == Operand::Word(7)));
}

#[test]
fn unbound_name_in_a_function_is_an_error() {
    let f = AstNode::Function(g(0), Box::new(Function { args: Vec::new(), body: name(g(5)) }));
    assert_eq!(compile(vec![f]).unwrap_err(), AstBirError::UnboundSymbol(g(5)));
}

#[test]
fn empty_program_compiles_to_nothing() {
    assert!(compile(Vec::new()).unwrap().is_empty());
}

#[test]
fn cyclic_globals_do_not_lower() {
    let a = AstNode::Global(g(0), name(g(1)));
    let b = AstNode::Global(g(1), name(g(0)));
    assert!(try_compile(vec![a, b]).is_none());
    let selfish = AstNode::Global(g(0), Box::new(Expr::Binop(Bop::Add, name(g(0)), Box::new(Expr::Word(1)))));
    assert!(try_compile(vec![selfish]).is_none());
}

#[test]
fn global_naming_a_global_folds_after_it() {
    let ast = ast_of(vec![id("a"), eq(), w(1), id("b"), eq(), id("a")]);
    let prog = compile(ast).unwrap();
    let vals: Vec<(Symbol, Operand)> = prog
        .iter()
        .map(|d| match d {
            Decl::GDecl(gl) => (gl.ident, gl.val),
            Decl::FDecl(_) => panic!("function"),
        })
        .collect();
    assert_eq!(vals, vec![(g(0), Operand::Word(1)), (g(1), Operand::Word(1))]);
    // defined in the other order, the globals still fold dependencies first
    let b = AstNode::Global(g(1), name(g(0)));
    let a = AstNode::Global(g(0), Box::new(Expr::Word(4)));
    let c = AstNode::Global(g(2), name(g(1)));
    let prog = compile(vec![c, b, a]).unwrap();
    let vals: Vec<(Symbol, Operand)> = prog
        .iter()
        .map(|d| match d {
            Decl::GDecl(gl) => (gl.ident, gl.val),
            Decl::FDecl(_) => panic!("function"),
        })
        .collect();
    assert_eq!(vals, vec![(g(0), Operand::Word(4)), (g(1), Operand::Word(4)), (g(2), Operand::Word(4))]);
    // folding has no answer for an addition
    assert!(try_compile(vec![AstNode::Global(g(0), Box::new(Expr::Binop(Bop::Add, Box::new(Expr::Word(1)), Box::new(Expr::Word(2)))))]).is_none());
}

#[test]
fn global_naming_a_function_does_not_lower() {
    let f = AstNode::Function(g(0), Box::new(Function { args: Vec::new(), body: Box::new(Expr::Word(1)) }));
    let b = AstNode::Global(g(1), name(g(0)));
    assert!(try_compile(vec![f, b]).is_none());
}

#[test]
fn cycle_check_of_the_globals() {
    let a = AstNode::Global(g(0), name(g(1)));
    let b = AstNode::Global(g(1), name(g(0)));
    assert!(globals_cyclic(&vec![a, b]));
    let a = AstNode::Global(g(0), Box::new(Expr::Word(1)));
    let b = AstNode::Global(g(1), name(g(0)));
    assert!(!globals_cyclic(&vec![a, b]));
    let selfish = AstNode::Global(g(0), Box::new(Expr::Binop(Bop::Add, name(g(0)), Box::new(Expr::Word(1)))));
    assert!(globals_cyclic(&vec![selfish]));
    assert!(!globals_cyclic(&Vec::new()));
}

#[test]
fn unsupported_operation_does_not_lower() {
    let ast = ast_of(vec![
        Fun(), id("f"), LParam(), id("x"), Colon(), TWord(), RParam(), eq(), id("x"), Minus(), w(1),
    ]);
    assert!(try_compile(ast).is_none());
}

#[test]
fn try_compile_gives_what_compile_gives() {
    let mk = || {
        ast_of(vec![
            id("a"), eq(), w(1),
            Fun(), id("f"), LParam(), id("x"), Colon(), TWord(), RParam(), eq(), id("x"), Plus(), id("a"),
        ])
    };
    let p1 = compile(mk()).unwrap();
    let p2 = try_compile(mk()).unwrap().unwrap();
    assert_eq!(format!("{:?}", p1), format!("{:?}", p2));
    let f = AstNode::Function(g(0), Box::new(Function { args: Vec::new(), body: name(g(5)) }));
    assert_eq!(try_compile(vec![f]).unwrap().unwrap_err(), AstBirError::UnboundSymbol(g(5)));
}

#[test]
fn lower_program_follows_the_given_order() {
    let a = AstNode::Global(g(0), Box::new(Expr::Word(1)));
    let b = AstNode::Global(g(1), name(g(0)));
    let prog = lower_program(&vec![a, b], &vec![g(0), g(1)]).unwrap().unwrap();
    let vals: Vec<(Symbol, Operand)> = prog
        .iter()
        .map(|d| match d {
            Decl::GDecl(gl) => (gl.ident, gl.val),
            Decl::FDecl(_) => panic!("function"),
        })
        .collect();
    assert_eq!(vals, vec![(g(0), Operand::Word(1)), (g(1), Operand::Word(1))]);
    let a = AstNode::Global(g(0), Box::new(Expr::Word(1)));
    let b = AstNode::Global(g(1), name(g(0)));
    assert!(lower_program(&vec![a, b], &vec![g(1), g(0)]).is_none());
    // a symbol of the order that is no global
    let a = AstNode::Global(g(0), Box::new(Expr::Word(1)));
    assert!(lower_program(&vec![a], &vec![g(0), g(3)]).is_none());
}

#[test]
fn graph_has_an_edge_for_each_name() {
    let ast = vec![
        AstNode::Global(g(0), Box::new(Expr::Word(1))),
        AstNode::Global(g(1), Box::new(Expr::Binop(Bop::Add, name(g(0)), name(g(4))))),
        AstNode::Function(g(2), Box::new(Function { args: Vec::new(), body: name(g(1)) })),
    ];
    let graph = get_global_graph(&ast);
    assert_eq!(graph.node_count(), 3);
    assert_eq!(graph.edge_count(), 2);
    assert!(graph.contains_edge(symbol_key(g(1)), symbol_key(g(0))));
    assert!(graph.contains_edge(symbol_key(g(1)), symbol_key(g(4))));
    assert!(!graph.contains_node(symbol_key(g(2))));
    assert!(!petgraph::algo::is_cyclic_directed(&graph));
}

#[test]
fn graph_of_cyclic_globals_is_cyclic() {
    let ast = vec![AstNode::Global(g(0), name(g(1))), AstNode::Global(g(1), name(g(0)))];
    assert!(petgraph::algo::is_cyclic_directed(&get_global_graph(&ast)));
}

#[test]
fn symbol_keys_round_trip() {
    for s in [g(0), g(7), Symbol(3, Namespace::Binding), Symbol(u32::MAX, Namespace::Variant), Symbol(u32::MAX, Namespace::Global)] {
        assert_eq!(key_symbol(symbol_key(s)), s);
    }
    assert_eq!(symbol_key(Symbol(2, Namespace::Binding)), 9);
    assert_eq!(symbol_key(Symbol(0, Namespace::Variant)), 0);
    assert_eq!(symbol_key(Symbol(1, Namespace::Global)), 6);
}

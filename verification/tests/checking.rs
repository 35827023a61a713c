use bomp::ast::{AstNode, Expr, Function, Lhs, Namespace, Param, Symbol, Uop};
use bomp::constructs::{try_width_check, width_check, Construct};
use bomp::err::WCError;
use bomp::parser::parse;
use bomp::token::TokenKind::{
    Colon, Else, Fun, If, In, LBracket, LParam, Let, Minus, Plus, RBracket, RParam, TPack, TWord, Then,
};
use bomp::token::{Token, TokenKind};

fn ast_of(kinds: Vec<TokenKind>) -> Vec<AstNode> {
    let toks: Vec<Token> = kinds.into_iter().enumerate().map(|(i, k)| Token::new(k, "t.bf", 1, i + 1)).collect();
    parse(toks).unwrap()
}

fn eq() -> TokenKind {
    TokenKind::Eq()
}

fn id(s: &str) -> TokenKind {
    TokenKind::Identifier(String::from(s))
}

fn w(v: i64) -> TokenKind {
    TokenKind::Word(v)
}

fn g(n: u32) -> Symbol {
    Symbol(n, Namespace::Global)
}

fn name(s: Symbol) -> Box<Expr> {
    Box::new(Expr::Lhs(Lhs::Ident(s)))
}

#[test]
fn words_check() {
    let ast = ast_of(vec![id("a"), eq(), w(1), id("b"), eq(), id("a"), Plus(), w(2)]);
    assert!(width_check(&ast).is_ok());
    assert!(matches!(try_width_check(&ast), Some(Ok(()))));
}

#[test]
fn empty_program_checks() {
    assert!(width_check(&Vec::new()).is_ok());
}

#[test]
fn pack_operand_is_a_mismatch() {
    let ast = ast_of(vec![
        Fun(), id("f"), LParam(), id("x"), Colon(), TPack(), LBracket(), w(2), RBracket(), RParam(), eq(), id("x"), Plus(), w(1),
    ]);
    match width_check(&ast) {
        Err(WCError::MismatchedConstructs(a, b)) => {
            assert_eq!(a, Construct::Pack(2));
            assert_eq!(b, Construct::Word());
        },
        other => panic!("{:?}", other),
    }
}

#[test]
fn unbound_name_is_an_error() {
    let ast = vec![AstNode::Global(g(0), name(g(7)))];
    assert!(matches!(width_check(&ast), Err(WCError::UnboundIdentifier())));
}

#[test]
fn globals_are_checked_before_functions() {
    // `b` names the function `f`, which is not bound while the globals are checked
    let f = AstNode::Function(
        g(0),
        Box::new(Function { args: Vec::new(), body: Box::new(Expr::Word(1)) }),
    );
    let b = AstNode::Global(g(1), name(g(0)));
    assert!(matches!(width_check(&vec![f, b]), Err(WCError::UnboundIdentifier())));
}

#[test]
fn functions_see_globals_and_earlier_functions() {
    // `f` names the global `k`, defined after it
    let k = g(0);
    let x = Symbol(1, Namespace::Binding);
    let f = AstNode::Function(
        g(2),
        Box::new(Function {
            args: vec![Param { ident: x, cons: Construct::Word() }],
            body: Box::new(Expr::Binop(bomp::ast::Bop::Add, name(x), name(k))),
        }),
    );
    let h = AstNode::Function(
        g(3),
        Box::new(Function {
            args: Vec::new(),
            body: Box::new(Expr::Call(Lhs::Ident(g(2)), vec![Expr::Word(3)])),
        }),
    );
    let ast = vec![f, h, AstNode::Global(k, Box::new(Expr::Word(5)))];
    assert!(width_check(&ast).is_ok());
}

#[test]
fn condition_must_be_a_word() {
    let ast = ast_of(vec![
        Fun(), id("f"), LParam(), id("p"), Colon(), TPack(), LBracket(), w(2), RBracket(), RParam(), eq(),
        If(), id("p"), Then(), w(1), Else(), w(2),
    ]);
    match width_check(&ast) {
        Err(WCError::UnexpectedConstruct(c)) => assert_eq!(c, Construct::Word()),
        other => panic!("{:?}", other),
    }
}

#[test]
fn branches_must_agree() {
    let ast = ast_of(vec![
        Fun(), id("f"), LParam(), id("p"), Colon(), TPack(), LBracket(), w(2), RBracket(), RParam(), eq(),
        If(), w(0), Then(), id("p"), Else(), w(2),
    ]);
    match width_check(&ast) {
        Err(WCError::MismatchedConstructs(a, b)) => {
            assert_eq!(a, Construct::Pack(2));
            assert_eq!(b, Construct::Word());
        },
        other => panic!("{:?}", other),
    }
}

#[test]
fn let_binds_its_name_for_the_body() {
    let x = Symbol(0, Namespace::Binding);
    let e = Expr::Let(Lhs::Ident(x), Box::new(Expr::Word(1)), Box::new(Expr::Binop(bomp::ast::Bop::Add, name(x), name(x))));
    let ast = vec![AstNode::Global(g(1), Box::new(e))];
    assert!(width_check(&ast).is_ok());
    // and only for the body
    let e = Expr::Let(Lhs::Ident(x), Box::new(Expr::Word(1)), Box::new(Expr::Word(2)));
    let ast = vec![AstNode::Global(g(1), Box::new(e)), AstNode::Global(g(2), name(x))];
    assert!(matches!(width_check(&ast), Err(WCError::UnboundIdentifier())));
}

fn two_word_fun() -> AstNode {
    let x = Symbol(0, Namespace::Binding);
    let y = Symbol(1, Namespace::Binding);
    AstNode::Function(
        g(2),
        Box::new(Function {
            args: vec![Param { ident: x, cons: Construct::Word() }, Param { ident: y, cons: Construct::Word() }],
            body: Box::new(Expr::Binop(bomp::ast::Bop::Add, name(x), name(y))),
        }),
    )
}

fn caller(args: Vec<Expr>) -> AstNode {
    AstNode::Function(
        g(3),
        Box::new(Function { args: Vec::new(), body: Box::new(Expr::Call(Lhs::Ident(g(2)), args)) }),
    )
}

#[test]
fn full_and_partial_application_check() {
    assert!(width_check(&vec![two_word_fun(), caller(vec![Expr::Word(1), Expr::Word(2)])]).is_ok());
    assert!(width_check(&vec![two_word_fun(), caller(vec![Expr::Word(1)])]).is_ok());
}

#[test]
fn too_many_arguments_is_a_mismatch() {
    let args = vec![Expr::Word(1), Expr::Word(2), Expr::Word(3), Expr::Word(4)];
    let r = width_check(&vec![two_word_fun(), caller(args)]);
    match r {
        Err(WCError::ArgumentConstructMismatch(tys, args)) => {
            assert_eq!(tys, vec![Construct::Word(), Construct::Word(), Construct::Word()]);
            assert_eq!(args, vec![Construct::Word(), Construct::Word(), Construct::Word(), Construct::Word()]);
        },
        other => panic!("{:?}", other),
    }
}

#[test]
fn exhausting_arguments_is_a_mismatch() {
    // a function of one parameter has two constructs, the parameter's and the
    // result's; two arguments use both up
    let f = AstNode::Function(
        g(2),
        Box::new(Function { args: vec![Param { ident: Symbol(0, Namespace::Binding), cons: Construct::Word() }], body: Box::new(Expr::Word(0)) }),
    );
    let r = width_check(&vec![f, caller(vec![Expr::Word(1), Expr::Word(2)])]);
    match r {
        Err(WCError::ArgumentConstructMismatch(rest, args)) => {
            assert!(rest.is_empty());
            assert_eq!(args, vec![Construct::Word(), Construct::Word()]);
        },
        other => panic!("{:?}", other),
    }
}

#[test]
fn calling_a_word_is_unexpected() {
    let ast = vec![
        AstNode::Global(g(2), Box::new(Expr::Word(1))),
        AstNode::Global(g(3), Box::new(Expr::Call(Lhs::Ident(g(2)), vec![Expr::Word(1)]))),
    ];
    match width_check(&ast) {
        Err(WCError::UnexpectedConstruct(c)) => assert_eq!(c, Construct::Word()),
        other => panic!("{:?}", other),
    }
}

#[test]
fn argument_of_wrong_width_is_a_mismatch() {
    let p = Symbol(0, Namespace::Binding);
    let f = AstNode::Function(
        g(2),
        Box::new(Function { args: vec![Param { ident: p, cons: Construct::Pack(4) }], body: Box::new(Expr::Word(0)) }),
    );
    let r = width_check(&vec![f, caller(vec![Expr::Word(1)])]);
    match r {
        Err(WCError::ArgumentConstructMismatch(tys, args)) => {
            assert_eq!(tys, vec![Construct::Pack(4), Construct::Word()]);
            assert_eq!(args, vec![Construct::Word()]);
        },
        other => panic!("{:?}", other),
    }
}

#[test]
fn unary_operation_has_no_answer() {
    let ast = ast_of(vec![id("a"), eq(), Minus(), w(1)]);
    assert!(try_width_check(&ast).is_none());
    let ast = vec![AstNode::Global(g(0), Box::new(Expr::Unop(Uop::Not(), Box::new(Expr::Word(1)))))];
    assert!(try_width_check(&ast).is_none());
}

#[test]
fn error_before_a_unary_operation_is_reported() {
    let ast = vec![
        AstNode::Global(g(0), name(g(9))),
        AstNode::Global(g(1), Box::new(Expr::Unop(Uop::Neg(), Box::new(Expr::Word(1))))),
    ];
    assert!(matches!(try_width_check(&ast), Some(Err(WCError::UnboundIdentifier()))));
}

#[test]
fn let_through_the_parser_checks() {
    let ast = ast_of(vec![id("a"), eq(), Let(), id("x"), eq(), w(1), In(), w(2)]);
    assert!(width_check(&ast).is_ok());
}

#[test]
fn construct_copies_are_equal() {
    let c = Construct::Fun(vec![Construct::Word(), Construct::Pack(3), Construct::Alias(g(1))]);
    let d = c.copy();
    assert_eq!(c, d);
    assert!(c.same(&d));
    assert_eq!(c.clone(), c);
    assert!(!c.same(&Construct::Word()));
    assert!(!Construct::Pack(1).same(&Construct::Pack(2)));
}


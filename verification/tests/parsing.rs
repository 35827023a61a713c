use bomp::ast::{Bop, Namespace, Symbol};
use bomp::err::{p_err_reftok, p_err_tok, ParserError};
use bomp::parser::{bop_of_tok, parse, precedence, starts_atom, Interner};
use bomp::token::TokenKind::{
    And, AndAnd, Arrow, Colon, Else, Fun, If, In, LBracket, LParam, Let, Minus, Not, Or, OrOr, Plus,
    RBracket, RParam, TPack, TWord, Then, Xor,
};
use bomp::token::{Token, TokenKind};

fn tok(kind: TokenKind, col: usize) -> Token<'static> {
    Token::new(kind, "t.bf", 1, col)
}

fn toks(kinds: Vec<TokenKind>) -> Vec<Token<'static>> {
    kinds.into_iter().enumerate().map(|(i, k)| tok(k, i + 1)).collect()
}

fn eq() -> TokenKind {
    TokenKind::Eq()
}

fn id(s: &str) -> TokenKind {
    TokenKind::Identifier(String::from(s))
}

fn w(v: i64) -> TokenKind {
    TokenKind::Word(v)
}

fn parsed(kinds: Vec<TokenKind>) -> String {
    format!("{:?}", parse(toks(kinds)).unwrap())
}

fn parse_err(kinds: Vec<TokenKind>) -> (String, usize, usize) {
    match parse(toks(kinds)) {
        Err(ParserError::ParsingError(f, r, c)) => (f, r, c),
        Ok(ast) => panic!("parsed: {:?}", ast),
    }
}


#[test]
fn parses_nothing() {
    assert_eq!(parsed(vec![]), "[]");
}

#[test]
fn parses_a_word_global() {
    assert_eq!(parsed(vec![id("a"), eq(), w(1)]), "[Global(Symbol(0, Global), Word(1))]");
}

#[test]
fn globals_refer_to_earlier_globals() {
    assert_eq!(
        parsed(vec![id("a"), eq(), w(1), id("b"), eq(), id("a"), Plus(), w(2)]),
        "[Global(Symbol(0, Global), Word(1)), Global(Symbol(1, Global), Binop(Add, Lhs(Ident(Symbol(0, Global))), Word(2)))]"
    );
}

#[test]
fn tighter_operator_binds_first() {
    assert_eq!(
        parsed(vec![id("a"), eq(), w(1), Plus(), w(2), And(), w(3)]),
        "[Global(Symbol(0, Global), Binop(Add, Word(1), Binop(BitAnd, Word(2), Word(3))))]"
    );
    assert_eq!(
        parsed(vec![id("a"), eq(), w(1), And(), w(2), Plus(), w(3)]),
        "[Global(Symbol(0, Global), Binop(Add, Binop(BitAnd, Word(1), Word(2)), Word(3)))]"
    );
}

#[test]
fn equal_operators_associate_left() {
    assert_eq!(
        parsed(vec![id("a"), eq(), w(1), Minus(), w(2), Minus(), w(3)]),
        "[Global(Symbol(0, Global), Binop(Sub, Binop(Sub, Word(1), Word(2)), Word(3)))]"
    );
}

#[test]
fn equality_binds_tighter_than_addition() {
    assert_eq!(
        parsed(vec![id("a"), eq(), w(1), Plus(), w(2), eq(), w(3)]),
        "[Global(Symbol(0, Global), Binop(Add, Word(1), Binop(Eq, Word(2), Word(3))))]"
    );
}

#[test]
fn mixed_precedences_climb() {
    // 1 | 2 + 3 ^ 4: `|` and `^` bind tighter than `+`
    assert_eq!(
        parsed(vec![id("a"), eq(), w(1), Or(), w(2), Plus(), w(3), Xor(), w(4)]),
        "[Global(Symbol(0, Global), Binop(Add, Binop(BitOr, Word(1), Word(2)), Binop(BitXor, Word(3), Word(4))))]"
    );
}

#[test]
fn parses_unary_minus() {
    assert_eq!(
        parsed(vec![id("a"), eq(), w(1), Minus(), Minus(), Minus(), w(2)]),
        "[Global(Symbol(0, Global), Binop(Sub, Word(1), Unop(Neg, Unop(Neg, Word(2)))))]"
    );
}

#[test]
fn parses_parentheses() {
    assert_eq!(
        parsed(vec![id("a"), eq(), LParam(), w(1), Plus(), w(2), RParam(), And(), w(3)]),
        "[Global(Symbol(0, Global), Binop(BitAnd, Binop(Add, Word(1), Word(2)), Word(3)))]"
    );
}

#[test]
fn parses_application() {
    assert_eq!(
        parsed(vec![id("f"), eq(), w(1), id("g"), eq(), id("f"), w(2), LParam(), id("f"), RParam(), id("f")]),
        "[Global(Symbol(0, Global), Word(1)), Global(Symbol(1, Global), Call(Ident(Symbol(0, Global)), [Word(2), Lhs(Ident(Symbol(0, Global))), Lhs(Ident(Symbol(0, Global)))]))]"
    );
}

#[test]
fn parses_conditional() {
    assert_eq!(
        parsed(vec![id("a"), eq(), If(), w(1), Then(), w(2), Else(), w(3), Plus(), w(4)]),
        "[Global(Symbol(0, Global), Cond(Word(1), Word(2), Binop(Add, Word(3), Word(4))))]"
    );
}

#[test]
fn parses_let() {
    assert_eq!(
        parsed(vec![id("a"), eq(), Let(), id("x"), eq(), w(1), In(), w(2)]),
        "[Global(Symbol(1, Global), Let(Ident(Symbol(0, Binding)), Word(1), Word(2)))]"
    );
}

#[test]
fn let_name_is_in_scope_in_the_body() {
    assert_eq!(
        parsed(vec![id("a"), eq(), Let(), id("x"), eq(), w(1), In(), id("x")]),
        "[Global(Symbol(1, Global), Let(Ident(Symbol(0, Binding)), Word(1), Lhs(Ident(Symbol(0, Binding)))))]"
    );
}

#[test]
fn let_name_is_not_in_scope_in_its_own_expression() {
    assert_eq!(parse_err(vec![id("a"), eq(), Let(), id("x"), eq(), id("x"), In(), w(2)]), (String::from("NO FILE"), 0, 0));
}

#[test]
fn parses_a_function() {
    assert_eq!(
        parsed(vec![Fun(), id("f"), LParam(), id("x"), Colon(), TWord(), RParam(), LParam(), id("p"), Colon(), TPack(), LBracket(), w(3), RBracket(), RParam(), eq(), id("x"), Plus(), id("p")]),
        "[Function(Symbol(2, Global), Function { args: [Param { ident: Symbol(0, Binding), cons: Word }, Param { ident: Symbol(1, Binding), cons: Pack(3) }], body: Binop(Add, Lhs(Ident(Symbol(0, Binding))), Lhs(Ident(Symbol(1, Binding)))) })]"
    );
}

#[test]
fn parses_alias_construct() {
    assert_eq!(
        parsed(vec![Fun(), id("f"), LParam(), id("x"), Colon(), id("t"), RParam(), eq(), w(0)]),
        "[Function(Symbol(2, Global), Function { args: [Param { ident: Symbol(1, Binding), cons: Alias(Symbol(0, Binding)) }], body: Word(0) })]"
    );
}

#[test]
fn function_without_parameters() {
    assert_eq!(
        parsed(vec![Fun(), id("main"), eq(), w(0)]),
        "[Function(Symbol(0, Global), Function { args: [], body: Word(0) })]"
    );
}

#[test]
fn parameters_stay_in_scope_afterwards() {
    // there are no scopes: a parameter's name resolves in later definitions too
    assert_eq!(
        parsed(vec![Fun(), id("f"), LParam(), id("x"), Colon(), TWord(), RParam(), eq(), id("x"), Plus(), w(0), id("g"), eq(), id("x")]),
        "[Function(Symbol(1, Global), Function { args: [Param { ident: Symbol(0, Binding), cons: Word }], body: Binop(Add, Lhs(Ident(Symbol(0, Binding))), Word(0)) }), Global(Symbol(2, Global), Lhs(Ident(Symbol(0, Binding))))]"
    );
}

#[test]
fn unknown_name_is_an_error_without_position() {
    assert_eq!(parse_err(vec![id("a"), eq(), id("b")]), (String::from("NO FILE"), 0, 0));
    // a global is named only once its expression is read
    assert_eq!(parse_err(vec![id("a"), eq(), id("a")]), (String::from("NO FILE"), 0, 0));
}

#[test]
fn errors_point_at_the_token() {
    assert_eq!(parse_err(vec![w(1)]), (String::from("t.bf"), 1, 1));
    assert_eq!(parse_err(vec![id("a"), w(1)]), (String::from("t.bf"), 1, 2));
    assert_eq!(parse_err(vec![id("a"), eq(), Then()]), (String::from("t.bf"), 1, 3));
    assert_eq!(parse_err(vec![Fun(), id("f"), id("x")]), (String::from("t.bf"), 1, 3));
}

#[test]
fn a_name_before_the_next_definition_is_applied_to_it() {
    // `b = a` followed by `c = ..`: `a c` reads as an application, and `c` is unknown
    assert_eq!(
        parse_err(vec![id("a"), eq(), w(1), id("b"), eq(), id("a"), id("c"), eq(), w(2)]),
        (String::from("NO FILE"), 0, 0)
    );
}

#[test]
fn errors_at_the_end_have_no_position() {
    assert_eq!(parse_err(vec![id("a"), eq()]), (String::from("NO FILE"), 0, 0));
    assert_eq!(parse_err(vec![id("a"), eq(), LParam(), w(1)]), (String::from("NO FILE"), 0, 0));
}

#[test]
fn operator_table() {
    assert_eq!(precedence(Bop::Add), 1);
    assert_eq!(precedence(Bop::SubF), 1);
    assert_eq!(precedence(Bop::Mult), 2);
    assert_eq!(precedence(Bop::ModU), 2);
    assert_eq!(precedence(Bop::BitXor), 3);
    assert_eq!(precedence(Bop::LogAnd), 4);
    assert_eq!(precedence(Bop::Lt), 5);
    assert_eq!(precedence(Bop::Neq), 6);
    assert_eq!(bop_of_tok(&tok(Plus(), 1)), Some(Bop::Add));
    assert_eq!(bop_of_tok(&tok(Minus(), 1)), Some(Bop::Sub));
    assert_eq!(bop_of_tok(&tok(eq(), 1)), Some(Bop::Eq));
    assert_eq!(bop_of_tok(&tok(Xor(), 1)), Some(Bop::BitXor));
    assert_eq!(bop_of_tok(&tok(And(), 1)), Some(Bop::BitAnd));
    assert_eq!(bop_of_tok(&tok(Or(), 1)), Some(Bop::BitOr));
    assert_eq!(bop_of_tok(&tok(OrOr(), 1)), Some(Bop::LogOr));
    assert_eq!(bop_of_tok(&tok(AndAnd(), 1)), Some(Bop::LogAnd));
    assert_eq!(bop_of_tok(&tok(Not(), 1)), None);
    assert!(starts_atom(&tok(id("x"), 1)));
    assert!(starts_atom(&tok(w(1), 1)));
    assert!(starts_atom(&tok(LParam(), 1)));
    assert!(!starts_atom(&tok(Minus(), 1)));
}

#[test]
fn interner_resolves_what_it_interned() {
    let mut i = Interner::new();
    let x = i.intern(&String::from("x"), Namespace::Binding);
    assert_eq!(x, Symbol(0, Namespace::Binding));
    assert_eq!(i.intern(&String::from("x"), Namespace::Binding), x);
    let y = i.intern(&String::from("y"), Namespace::Global);
    assert_eq!(y, Symbol(1, Namespace::Global));
    assert_eq!(i.resolve(&String::from("x"), Namespace::Binding).unwrap(), x);
    assert_eq!(i.resolve(&String::from("y"), Namespace::Global).unwrap(), y);
    assert!(matches!(
        i.resolve(&String::from("y"), Namespace::Binding),
        Err(ParserError::ParsingError(f, 0, 0)) if f == "NO FILE"
    ));
    assert!(i.resolve(&String::from("z"), Namespace::Global).is_err());
}

#[test]
fn interning_in_another_namespace_keeps_the_name() {
    let mut i = Interner::new();
    let g = i.intern(&String::from("x"), Namespace::Global);
    let b = i.intern(&String::from("x"), Namespace::Binding);
    assert_eq!(g, Symbol(0, Namespace::Global));
    assert_eq!(b, Symbol(1, Namespace::Binding));
    assert_eq!(i.resolve(&String::from("x"), Namespace::Global).unwrap(), g);
    assert_eq!(i.resolve(&String::from("x"), Namespace::Binding).unwrap(), b);
    assert_eq!(i.intern(&String::from("x"), Namespace::Global), g);
    assert_eq!(i.intern(&String::from("x"), Namespace::Binding), b);
}

#[test]
fn a_global_and_a_parameter_may_share_a_name() {
    // g = 1; fun f (g : word) = g; h = g: the parameter and the global are
    // different symbols, and a name in an expression is read as a binding first
    assert_eq!(
        parsed(vec![
            id("g"), eq(), w(1),
            Fun(), id("f"), LParam(), id("g"), Colon(), TWord(), RParam(), eq(), id("g"), Plus(), w(0),
            id("h"), eq(), id("g"),
        ]),
        "[Global(Symbol(0, Global), Word(1)), Function(Symbol(2, Global), Function { args: [Param { ident: Symbol(1, Binding), cons: Word }], body: Binop(Add, Lhs(Ident(Symbol(1, Binding))), Word(0)) }), Global(Symbol(3, Global), Lhs(Ident(Symbol(1, Binding))))]"
    );
}

#[test]
fn parser_errors_from_tokens() {
    let t = Token::new(id("q"), "m.bf", 4, 9);
    assert!(matches!(p_err_tok(Some(t.clone())), ParserError::ParsingError(f, 4, 9) if f == "m.bf"));
    assert!(matches!(p_err_reftok(Some(&t)), ParserError::ParsingError(f, 4, 9) if f == "m.bf"));
    assert!(matches!(p_err_tok(None), ParserError::ParsingError(f, 0, 0) if f == "NO FILE"));
    assert!(matches!(p_err_reftok(None), ParserError::ParsingError(f, 0, 0) if f == "NO FILE"));
}

#[test]
fn dummy_token() {
    let d = Token::dummy();
    assert_eq!(d.kind, id(""));
    assert_eq!((d.file, d.row, d.col), ("NO FILE", 0, 0));
    let t = Token::new(Arrow(), "a", 2, 3);
    assert_eq!((t.kind, t.file, t.row, t.col), (Arrow(), "a", 2, 3));
}

use bomp::ast::{Namespace, Symbol};
use bomp::constructs::Construct;
use bomp::err::{AstBirError, LexerError, ParserError, WCError};
use bomp::show::{decimal_string, int_string, list_string};

#[test]
fn numbers_in_decimal() {
    assert_eq!(decimal_string(0), "0");
    assert_eq!(decimal_string(7), "7");
    assert_eq!(decimal_string(10), "10");
    assert_eq!(decimal_string(907), "907");
    assert_eq!(decimal_string(u64::MAX), u64::MAX.to_string());
    assert_eq!(int_string(0), "0");
    assert_eq!(int_string(-45), "-45");
    assert_eq!(int_string(i64::MIN), i64::MIN.to_string());
    assert_eq!(int_string(i64::MAX), i64::MAX.to_string());
}

#[test]
fn symbols_show_as_printed() {
    for s in [Symbol(0, Namespace::Global), Symbol(12, Namespace::Binding), Symbol(u32::MAX, Namespace::Variant)] {
        assert_eq!(s.to_string(), format!("{:?}", s));
    }
    assert_eq!(Symbol(3, Namespace::Binding).to_string(), "Symbol(3, Binding)");
}

#[test]
fn constructs_show_as_printed() {
    let cs = vec![
        Construct::Word(),
        Construct::Pack(-3),
        Construct::Pack(64),
        Construct::Alias(Symbol(2, Namespace::Binding)),
        Construct::Fun(vec![]),
        Construct::Fun(vec![Construct::Word(), Construct::Fun(vec![Construct::Pack(1)]), Construct::Word()]),
    ];
    for c in &cs {
        assert_eq!(c.to_string(), format!("{:?}", c));
    }
    assert_eq!(cs[5].to_string(), "Fun([Word, Fun([Pack(1)]), Word])");
    assert_eq!(list_string(&cs), format!("{:?}", cs));
    assert_eq!(list_string(&vec![]), "[]");
}

#[test]
fn error_messages() {
    assert_eq!(LexerError::ReadAfterEnd().to_string(), "LexerError: read after end occurred");
    assert_eq!(LexerError::WordTooLarge().to_string(), "LexerError: word too large for an i64");
    assert_eq!(
        ParserError::ParsingError(String::from("a.bf"), 12, 3).to_string(),
        "Parser error at a.bf:12:3"
    );
    assert_eq!(WCError::UnboundIdentifier().to_string(), "WCError: Unbound identifier");
    assert_eq!(
        WCError::MismatchedConstructs(Construct::Pack(2), Construct::Word()).to_string(),
        "WCError: mismatched construct Pack(2) Word"
    );
    assert_eq!(
        WCError::UnexpectedConstruct(Construct::Word()).to_string(),
        "WCError: unexpected construct Word"
    );
    assert_eq!(
        WCError::ArgumentConstructMismatch(vec![Construct::Word()], vec![Construct::Pack(1), Construct::Word()])
            .to_string(),
        "WCError: argument construct mismatch [Word] [Pack(1), Word]"
    );
    assert_eq!(
        AstBirError::UnboundSymbol(Symbol(4, Namespace::Global)).to_string(),
        "Unbound symbol Symbol(4, Global)"
    );
    assert_eq!(AstBirError::DevBlockingError().to_string(), "Error while stream => blocks");
}

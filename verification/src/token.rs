//! Tokens produced by the lexer and consumed by the parser.
use vstd::prelude::*;

verus! {

/// A token: its kind and the file, row and column it starts at.
#[derive(Debug, Clone)]
pub struct Token<'a> {
    pub kind: TokenKind,
    pub file: &'a str,
    pub row: usize,
    pub col: usize,
}

impl<'a> Token<'a> {
    /// A token of the given kind at the given place.
    pub fn new(kind: TokenKind, file: &'a str, row: usize, col: usize) -> (r: Self)
        ensures
            r.kind == kind,
            r.file == file,
            r.row == row,
            r.col == col,
    {
        Self { kind: kind, file: file, row: row, col: col }
    }

    /// The placeholder token that errors report when there is no token to point at:
    /// an empty identifier in file "NO FILE" at row 0, column 0.
    pub fn dummy() -> (r: Token<'a>)
        ensures
            r.kind matches TokenKind::Identifier(s) && s@ == Seq::<char>::empty(),
            r.file@ == "NO FILE"@,
            r.row == 0,
            r.col == 0,
    {
        Self { kind: TokenKind::Identifier(String::new()), file: "NO FILE", row: 0, col: 0 }
    }
}

/// The kinds of token.
#[derive(Debug, PartialEq, Clone)]
pub enum TokenKind {
    Plus(),
    Minus(),
    Word(i64),
    Identifier(String),
    Fun(),
    Arrow(),
    Eq(),
    Xor(),
    And(),
    Not(),
    Or(),
    In(),
    LParam(),
    RParam(),
    LBrace(),
    RBrace(),
    LBracket(),
    RBracket(),
    Colon(),
    TWord(),
    TPack(),
    Of(),
    If(),
    Else(),
    Then(),
    Let(),
    OrOr(),
    AndAnd(),
}

/// Two token kinds are the same kind: same variant, and for words and identifiers
/// the same value and the same characters.
pub open spec fn same_kind(a: TokenKind, b: TokenKind) -> bool {
    match (a, b) {
        (TokenKind::Word(x), TokenKind::Word(y)) => x == y,
        (TokenKind::Identifier(x), TokenKind::Identifier(y)) => x@ == y@,
        (TokenKind::Plus(), TokenKind::Plus()) => true,
        (TokenKind::Minus(), TokenKind::Minus()) => true,
        (TokenKind::Fun(), TokenKind::Fun()) => true,
        (TokenKind::Arrow(), TokenKind::Arrow()) => true,
        (TokenKind::Eq(), TokenKind::Eq()) => true,
        (TokenKind::Xor(), TokenKind::Xor()) => true,
        (TokenKind::And(), TokenKind::And()) => true,
        (TokenKind::Not(), TokenKind::Not()) => true,
        (TokenKind::Or(), TokenKind::Or()) => true,
        (TokenKind::In(), TokenKind::In()) => true,
        (TokenKind::LParam(), TokenKind::LParam()) => true,
        (TokenKind::RParam(), TokenKind::RParam()) => true,
        (TokenKind::LBrace(), TokenKind::LBrace()) => true,
        (TokenKind::RBrace(), TokenKind::RBrace()) => true,
        (TokenKind::LBracket(), TokenKind::LBracket()) => true,
        (TokenKind::RBracket(), TokenKind::RBracket()) => true,
        (TokenKind::Colon(), TokenKind::Colon()) => true,
        (TokenKind::TWord(), TokenKind::TWord()) => true,
        (TokenKind::TPack(), TokenKind::TPack()) => true,
        (TokenKind::Of(), TokenKind::Of()) => true,
        (TokenKind::If(), TokenKind::If()) => true,
        (TokenKind::Else(), TokenKind::Else()) => true,
        (TokenKind::Then(), TokenKind::Then()) => true,
        (TokenKind::Let(), TokenKind::Let()) => true,
        (TokenKind::OrOr(), TokenKind::OrOr()) => true,
        (TokenKind::AndAnd(), TokenKind::AndAnd()) => true,
        _ => false,
    }
}

impl TokenKind {
    /// Compares two kinds as `same_kind` does.
    pub fn same(&self, other: &TokenKind) -> (r: bool)
        ensures
            r == same_kind(*self, *other),
    {
        match (self, other) {
            (TokenKind::Word(x), TokenKind::Word(y)) => *x == *y,
            (TokenKind::Identifier(x), TokenKind::Identifier(y)) => *x == *y,
            (TokenKind::Plus(), TokenKind::Plus()) => true,
            (TokenKind::Minus(), TokenKind::Minus()) => true,
            (TokenKind::Fun(), TokenKind::Fun()) => true,
            (TokenKind::Arrow(), TokenKind::Arrow()) => true,
            (TokenKind::Eq(), TokenKind::Eq()) => true,
            (TokenKind::Xor(), TokenKind::Xor()) => true,
            (TokenKind::And(), TokenKind::And()) => true,
            (TokenKind::Not(), TokenKind::Not()) => true,
            (TokenKind::Or(), TokenKind::Or()) => true,
            (TokenKind::In(), TokenKind::In()) => true,
            (TokenKind::LParam(), TokenKind::LParam()) => true,
            (TokenKind::RParam(), TokenKind::RParam()) => true,
            (TokenKind::LBrace(), TokenKind::LBrace()) => true,
            (TokenKind::RBrace(), TokenKind::RBrace()) => true,
            (TokenKind::LBracket(), TokenKind::LBracket()) => true,
            (TokenKind::RBracket(), TokenKind::RBracket()) => true,
            (TokenKind::Colon(), TokenKind::Colon()) => true,
            (TokenKind::TWord(), TokenKind::TWord()) => true,
            (TokenKind::TPack(), TokenKind::TPack()) => true,
            (TokenKind::Of(), TokenKind::Of()) => true,
            (TokenKind::If(), TokenKind::If()) => true,
            (TokenKind::Else(), TokenKind::Else()) => true,
            (TokenKind::Then(), TokenKind::Then()) => true,
            (TokenKind::Let(), TokenKind::Let()) => true,
            (TokenKind::OrOr(), TokenKind::OrOr()) => true,
            (TokenKind::AndAnd(), TokenKind::AndAnd()) => true,
            _ => false,
        }
    }
}

} // verus!

//! The errors of each phase.
use crate::ast::Symbol;
use crate::constructs::{Construct, ConstructV, conss_view};
use crate::token::Token;
use vstd::prelude::*;

verus! {

/// Errors of the lexer.
#[derive(Debug)]
pub enum LexerError {
    ReadAfterEnd(),
    WordTooLarge(),
}

/// Errors of the parser: the file, row and column of the offending token.
#[derive(Debug)]
pub enum ParserError {
    ParsingError(String, usize, usize),
}

/// The mathematical value of a parser error: file name, row, column.
pub type PErr = (Seq<char>, usize, usize);

impl ParserError {
    pub open spec fn view(&self) -> PErr {
        match self {
            ParserError::ParsingError(s, r, c) => (s@, *r, *c),
        }
    }
}

/// The error reported for a token, or for no token at all.
pub open spec fn tok_err(tok: Option<Token>) -> PErr {
    match tok {
        Some(t) => (t.file@, t.row, t.col),
        None => ("NO FILE"@, 0usize, 0usize),
    }
}

/// Errors of the width check.
#[derive(Debug)]
pub enum WCError {
    UnboundIdentifier(),
    UnexpectedConstruct(Construct),
    MismatchedConstructs(Construct, Construct),
    ArgumentConstructMismatch(Vec<Construct>, Vec<Construct>),
}

/// The mathematical value of a width-check error.
pub enum WCErrorV {
    UnboundIdentifier,
    UnexpectedConstruct(ConstructV),
    MismatchedConstructs(ConstructV, ConstructV),
    ArgumentConstructMismatch(Seq<ConstructV>, Seq<ConstructV>),
}

impl WCError {
    pub open spec fn view(&self) -> WCErrorV {
        match self {
            WCError::UnboundIdentifier() => WCErrorV::UnboundIdentifier,
            WCError::UnexpectedConstruct(c) => WCErrorV::UnexpectedConstruct(c.view()),
            WCError::MismatchedConstructs(a, b) => WCErrorV::MismatchedConstructs(a.view(), b.view()),
            WCError::ArgumentConstructMismatch(a, b) => WCErrorV::ArgumentConstructMismatch(
                conss_view(a@),
                conss_view(b@),
            ),
        }
    }
}

/// The parser error that points at a token taken from the stream, or at the
/// placeholder token when the stream was empty.
pub fn p_err_tok(tok: Option<Token>) -> (r: ParserError)
    ensures
        r.view() == tok_err(tok),
{
    let t = match tok {
        Some(t) => t,
        None => Token::dummy(),
    };
    ParserError::ParsingError(String::from_str(t.file), t.row, t.col)
}

/// The parser error that points at a token seen but not taken, or at the
/// placeholder token when there is none.
pub fn p_err_reftok(tok: Option<&Token>) -> (r: ParserError)
    ensures
        r.view() == tok_err(
            match tok {
                Some(t) => Some(*t),
                None => None,
            },
        ),
{
    match tok {
        Some(t) => ParserError::ParsingError(String::from_str(t.file), t.row, t.col),
        None => {
            let d = Token::dummy();
            ParserError::ParsingError(String::from_str(d.file), d.row, d.col)
        },
    }
}

/// Errors of the lowering to BIR.
#[derive(Debug, PartialEq, Eq, Structural)]
pub enum AstBirError {
    UnboundSymbol(Symbol),
    DevBlockingError(),
}

} // verus!

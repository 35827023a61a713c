//! How values are shown: the texts of numbers, symbols and constructs as they
//! are printed (`{:?}`), and the messages of the errors.
use crate::ast::{Namespace, Symbol};
use crate::constructs::{conss_view, lemma_conss_view, Construct, ConstructV};
use crate::err::{AstBirError, LexerError, ParserError, WCError};
use crate::lexer::string_from_chars;
use vstd::prelude::*;
use vstd::string::StringExecFns;

verus! {

// ---------------------------------------------------------------- numbers

/// The character of a decimal digit.
pub open spec fn digit_char(d: nat) -> char {
    if d == 0 {
        '0'
    } else if d == 1 {
        '1'
    } else if d == 2 {
        '2'
    } else if d == 3 {
        '3'
    } else if d == 4 {
        '4'
    } else if d == 5 {
        '5'
    } else if d == 6 {
        '6'
    } else if d == 7 {
        '7'
    } else if d == 8 {
        '8'
    } else {
        '9'
    }
}

/// The decimal digits of `n`, most significant first, without leading zeros.
pub open spec fn decimal(n: nat) -> Seq<char>
    decreases n,
{
    if n < 10 {
        seq![digit_char(n)]
    } else {
        decimal(n / 10).push(digit_char(n % 10))
    }
}

/// The text of an integer: a minus sign when it is negative, then its digits.
pub open spec fn int_text(i: int) -> Seq<char> {
    if i < 0 {
        seq!['-'] + decimal((-i) as nat)
    } else {
        decimal(i as nat)
    }
}

fn digit(d: u64) -> (r: char)
    requires
        d < 10,
    ensures
        r == digit_char(d as nat),
{
    if d == 0 {
        '0'
    } else if d == 1 {
        '1'
    } else if d == 2 {
        '2'
    } else if d == 3 {
        '3'
    } else if d == 4 {
        '4'
    } else if d == 5 {
        '5'
    } else if d == 6 {
        '6'
    } else if d == 7 {
        '7'
    } else if d == 8 {
        '8'
    } else {
        '9'
    }
}

fn push_decimal(out: &mut Vec<char>, n: u64)
    ensures
        final(out)@ == old(out)@ + decimal(n as nat),
    decreases n,
{
    if n < 10 {
        out.push(digit(n));
        assert(out@ =~= old(out)@ + decimal(n as nat));
    } else {
        push_decimal(out, n / 10);
        out.push(digit(n % 10));
        assert(out@ =~= old(out)@ + decimal(n as nat));
    }
}

/// The decimal text of `n`.
pub fn decimal_string(n: u64) -> (r: String)
    ensures
        r@ == decimal(n as nat),
{
    let mut v: Vec<char> = Vec::new();
    push_decimal(&mut v, n);
    assert(v@ =~= decimal(n as nat));
    string_from_chars(&v)
}

/// The text of `i` (see `int_text`).
pub fn int_string(i: i64) -> (r: String)
    ensures
        r@ == int_text(i as int),
{
    let mut v: Vec<char> = Vec::new();
    if i < 0 {
        v.push('-');
        let m: i128 = 0 - (i as i128);
        push_decimal(&mut v, m as u64);
        assert(v@ =~= int_text(i as int));
    } else {
        push_decimal(&mut v, i as u64);
        assert(v@ =~= int_text(i as int));
    }
    string_from_chars(&v)
}

// ---------------------------------------------------------------- symbols and constructs

/// The name of a namespace.
pub open spec fn namespace_text(ns: Namespace) -> Seq<char> {
    match ns {
        Namespace::Variant => "Variant"@,
        Namespace::Binding => "Binding"@,
        Namespace::Global => "Global"@,
    }
}

/// The text of a symbol: `Symbol(` its number `, ` its namespace `)`.
pub open spec fn symbol_text(s: Symbol) -> Seq<char> {
    "Symbol("@ + decimal(s.0 as nat) + ", "@ + namespace_text(s.1) + ")"@
}

/// The text of a construct: `Word`, `Pack(n)`, `Fun([..])` or `Alias(symbol)`.
pub open spec fn cons_text(c: ConstructV) -> Seq<char>
    decreases c,
{
    match c {
        ConstructV::Word => "Word"@,
        ConstructV::Pack(n) => "Pack("@ + int_text(n as int) + ")"@,
        ConstructV::Fun(v) => "Fun("@ + "["@ + items_text(v) + "]"@ + ")"@,
        ConstructV::Alias(s) => "Alias("@ + symbol_text(s) + ")"@,
    }
}

/// The texts of constructs, separated by `, `.
pub open spec fn items_text(v: Seq<ConstructV>) -> Seq<char>
    decreases v,
{
    if v.len() == 0 {
        Seq::empty()
    } else if v.len() == 1 {
        cons_text(v[0])
    } else {
        items_text(v.subrange(0, v.len() - 1)) + ", "@ + cons_text(v[v.len() - 1])
    }
}

/// The text of a list of constructs: `[`, the items, `]`.
pub open spec fn list_text(v: Seq<ConstructV>) -> Seq<char> {
    "["@ + items_text(v) + "]"@
}

impl Symbol {
    /// The symbol's text (see `symbol_text`).
    pub fn to_string(&self) -> (r: String)
        ensures
            r@ == symbol_text(*self),
    {
        let mut s = String::from_str("Symbol(");
        let n = decimal_string(self.0 as u64);
        s.append(n.as_str());
        s.append(", ");
        match self.1 {
            Namespace::Variant => s.append("Variant"),
            Namespace::Binding => s.append("Binding"),
            Namespace::Global => s.append("Global"),
        }
        s.append(")");
        s
    }
}

impl Construct {
    /// The construct's text (see `cons_text`).
    pub fn to_string(&self) -> (r: String)
        ensures
            r@ == cons_text(self.view()),
        decreases self,
    {
        match self {
            Construct::Word() => String::from_str("Word"),
            Construct::Pack(n) => {
                let mut s = String::from_str("Pack(");
                let t = int_string(*n);
                s.append(t.as_str());
                s.append(")");
                s
            },
            Construct::Fun(v) => {
                let mut s = String::from_str("Fun(");
                let t = list_string(v);
                s.append(t.as_str());
                s.append(")");
                s
            },
            Construct::Alias(sym) => {
                let mut s = String::from_str("Alias(");
                let t = sym.to_string();
                s.append(t.as_str());
                s.append(")");
                s
            },
        }
    }
}

/// The text of a list of constructs (see `list_text`).
pub fn list_string(v: &Vec<Construct>) -> (r: String)
    ensures
        r@ == list_text(conss_view(v@)),
    decreases v,
{
    let ghost all = conss_view(v@);
    proof {
        lemma_conss_view(v@);
    }
    let mut s = String::from_str("[");
    let mut i: usize = 0;
    assert(all.subrange(0, 0) =~= Seq::<ConstructV>::empty());
    while i < v.len()
        invariant
            i <= v.len(),
            all == conss_view(v@),
            all.len() == v.len(),
            forall|j: int| 0 <= j < v.len() ==> #[trigger] all[j] == v@[j].view(),
            s@ == "["@ + items_text(all.subrange(0, i as int)),
        decreases v.len() - i,
    {
        let ghost before = all.subrange(0, i as int);
        let ghost now = all.subrange(0, i + 1);
        assert(now.subrange(0, i as int) =~= before);
        assert(now[i as int] == v@[i as int].view());
        if i > 0 {
            s.append(", ");
        }
        let t = v[i].to_string();
        s.append(t.as_str());
        proof {
            if i == 0 {
                assert(s@ =~= "["@ + items_text(now));
            } else {
                assert(s@ =~= "["@ + items_text(now));
            }
        }
        i = i + 1;
    }
    assert(all.subrange(0, i as int) =~= all);
    s.append("]");
    s
}

// ---------------------------------------------------------------- errors

impl LexerError {
    /// The error's message.
    pub fn to_string(&self) -> (r: String)
        ensures
            match self {
                LexerError::ReadAfterEnd() => r@ == "LexerError: read after end occurred"@,
                LexerError::WordTooLarge() => r@ == "LexerError: word too large for an i64"@,
            },
    {
        match self {
            LexerError::ReadAfterEnd() => String::from_str("LexerError: read after end occurred"),
            LexerError::WordTooLarge() => String::from_str("LexerError: word too large for an i64"),
        }
    }
}

impl ParserError {
    /// The error's message: `Parser error at file:row:col`.
    pub fn to_string(&self) -> (r: String)
        ensures
            match self {
                ParserError::ParsingError(f, row, col) => r@ == "Parser error at "@ + f@ + ":"@ + decimal(
                    *row as nat,
                ) + ":"@ + decimal(*col as nat),
            },
    {
        match self {
            ParserError::ParsingError(f, row, col) => {
                let mut s = String::from_str("Parser error at ");
                s.append(f.as_str());
                s.append(":");
                let r = decimal_string(*row as u64);
                s.append(r.as_str());
                s.append(":");
                let c = decimal_string(*col as u64);
                s.append(c.as_str());
                s
            },
        }
    }
}

impl WCError {
    /// The error's message, with the constructs it names shown as `cons_text`
    /// and `list_text` say.
    pub fn to_string(&self) -> (r: String)
        ensures
            match self {
                WCError::UnboundIdentifier() => r@ == "WCError: Unbound identifier"@,
                WCError::MismatchedConstructs(a, b) => r@ == "WCError: mismatched construct "@ + cons_text(
                    a.view(),
                ) + " "@ + cons_text(b.view()),
                WCError::UnexpectedConstruct(c) => r@ == "WCError: unexpected construct "@ + cons_text(
                    c.view(),
                ),
                WCError::ArgumentConstructMismatch(a, b) => r@ == "WCError: argument construct mismatch "@
                    + list_text(conss_view(a@)) + " "@ + list_text(conss_view(b@)),
            },
    {
        match self {
            WCError::UnboundIdentifier() => String::from_str("WCError: Unbound identifier"),
            WCError::MismatchedConstructs(a, b) => {
                let mut s = String::from_str("WCError: mismatched construct ");
                let t = a.to_string();
                s.append(t.as_str());
                s.append(" ");
                let t = b.to_string();
                s.append(t.as_str());
                s
            },
            WCError::UnexpectedConstruct(c) => {
                let mut s = String::from_str("WCError: unexpected construct ");
                let t = c.to_string();
                s.append(t.as_str());
                s
            },
            WCError::ArgumentConstructMismatch(a, b) => {
                let mut s = String::from_str("WCError: argument construct mismatch ");
                let t = list_string(a);
                s.append(t.as_str());
                s.append(" ");
                let t = list_string(b);
                s.append(t.as_str());
                s
            },
        }
    }
}

impl AstBirError {
    /// The error's message.
    pub fn to_string(&self) -> (r: String)
        ensures
            match self {
                AstBirError::UnboundSymbol(sym) => r@ == "Unbound symbol "@ + symbol_text(*sym),
                AstBirError::DevBlockingError() => r@ == "Error while stream => blocks"@,
            },
    {
        match self {
            AstBirError::UnboundSymbol(sym) => {
                let mut s = String::from_str("Unbound symbol ");
                let t = sym.to_string();
                s.append(t.as_str());
                s
            },
            AstBirError::DevBlockingError() => String::from_str("Error while stream => blocks"),
        }
    }
}

} // verus!

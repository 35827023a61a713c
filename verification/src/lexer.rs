//! The lexer: turns the lines of a source file into tokens.
//!
//! Each line loses everything from the first `//` on and its surrounding ASCII
//! whitespace; what is left of the lines forms one stream of characters, each
//! tagged with its row, its column and whether it ends its line. A line break
//! ends a token as whitespace does.
use crate::err::LexerError;
use crate::token::{Token, TokenKind};
use vstd::prelude::*;

verus! {

// ---------------------------------------------------------------- characters

/// ASCII whitespace as `char::is_ascii_whitespace` has it.
pub open spec fn is_ws(c: char) -> bool {
    c == ' ' || c == '\t' || c == '\n' || c == '\x0C' || c == '\r'
}

pub open spec fn is_alpha(c: char) -> bool {
    ('a' <= c && c <= 'z') || ('A' <= c && c <= 'Z')
}

pub open spec fn is_digit(c: char) -> bool {
    '0' <= c && c <= '9'
}

pub open spec fn is_ident_char(c: char) -> bool {
    is_alpha(c) || is_digit(c) || c == '_'
}

/// The characters that make a token of their own.
pub open spec fn is_single(c: char) -> bool {
    c == '+' || c == '-' || c == '&' || c == '=' || c == '|' || c == '^'
}

fn ascii_ws(c: char) -> (r: bool)
    ensures
        r == is_ws(c),
{
    c == ' ' || c == '\t' || c == '\n' || c == '\x0C' || c == '\r'
}

fn ascii_alpha(c: char) -> (r: bool)
    ensures
        r == is_alpha(c),
{
    ('a' <= c && c <= 'z') || ('A' <= c && c <= 'Z')
}

fn ascii_digit(c: char) -> (r: bool)
    ensures
        r == is_digit(c),
{
    '0' <= c && c <= '9'
}

/// The number of bytes of a character in UTF-8.
pub open spec fn utf8_len(c: char) -> int {
    if (c as u32) < 0x80 {
        1
    } else if (c as u32) < 0x800 {
        2
    } else if (c as u32) < 0x10000 {
        3
    } else {
        4
    }
}

fn utf8_width(c: char) -> (r: usize)
    ensures
        r == utf8_len(c),
{
    let u = c as u32;
    if u < 0x80 {
        1
    } else if u < 0x800 {
        2
    } else if u < 0x10000 {
        3
    } else {
        4
    }
}

// ---------------------------------------------------------------- line trimming

/// The index of the first `//` at or after `i`.
pub open spec fn find_comment(s: Seq<char>, i: int) -> Option<int>
    decreases s.len() - i,
{
    if i < 0 || i + 1 >= s.len() {
        None
    } else if s[i] == '/' && s[i + 1] == '/' {
        Some(i)
    } else {
        find_comment(s, i + 1)
    }
}

/// The number of UTF-8 bytes of the first `k` characters.
pub open spec fn utf8_bytes(s: Seq<char>, k: int) -> int
    decreases k,
{
    if k <= 0 {
        0
    } else {
        utf8_bytes(s, k - 1) + utf8_len(s[k - 1])
    }
}

/// A line without its comment. The comment starts at the byte index of the first
/// `//`, and that many characters are kept (so characters wider than one byte
/// before the comment let part of it through).
pub open spec fn strip_comment(s: Seq<char>) -> Seq<char> {
    match find_comment(s, 0) {
        Some(k) => if utf8_bytes(s, k) < s.len() {
            s.take(utf8_bytes(s, k))
        } else {
            s
        },
        None => s,
    }
}

/// The first index at or after `i` that holds no whitespace (or the length).
pub open spec fn skip_ws_from(s: Seq<char>, i: int) -> int
    decreases s.len() - i,
{
    if 0 <= i < s.len() && is_ws(s[i]) {
        skip_ws_from(s, i + 1)
    } else {
        i
    }
}

/// The end of `s[lo..j]` once trailing whitespace is gone.
pub open spec fn trim_end(s: Seq<char>, lo: int, j: int) -> int
    decreases j - lo,
{
    if j > lo && is_ws(s[j - 1]) {
        trim_end(s, lo, j - 1)
    } else {
        j
    }
}

/// `s` without leading and trailing ASCII whitespace.
pub open spec fn trim_ascii(s: Seq<char>) -> Seq<char> {
    let lo = skip_ws_from(s, 0);
    s.subrange(lo, trim_end(s, lo, s.len() as int))
}

/// What the lexer keeps of a line.
pub open spec fn spec_trim_line(s: Seq<char>) -> Seq<char> {
    trim_ascii(strip_comment(s))
}

proof fn lemma_skip_ws_bounds(s: Seq<char>, i: int)
    requires
        0 <= i <= s.len(),
    ensures
        i <= skip_ws_from(s, i) <= s.len(),
    decreases s.len() - i,
{
    if 0 <= i < s.len() && is_ws(s[i]) {
        lemma_skip_ws_bounds(s, i + 1);
    }
}

proof fn lemma_trim_end_bounds(s: Seq<char>, lo: int, j: int)
    requires
        lo <= j,
    ensures
        lo <= trim_end(s, lo, j) <= j,
    decreases j - lo,
{
    if j > lo && is_ws(s[j - 1]) {
        lemma_trim_end_bounds(s, lo, j - 1);
    }
}

proof fn lemma_utf8_bytes_mono(s: Seq<char>, j: int, k: int)
    requires
        0 <= j <= k,
    ensures
        utf8_bytes(s, j) <= utf8_bytes(s, k),
        utf8_bytes(s, k) >= 0,
    decreases k,
{
    if k > 0 {
        lemma_utf8_bytes_mono(s, if j < k { j } else { 0 }, k - 1);
    }
}

proof fn lemma_find_comment_bounds(s: Seq<char>, i: int)
    ensures
        find_comment(s, i) matches Some(k) ==> 0 <= i <= k && k + 1 < s.len(),
    decreases s.len() - i,
{
    if !(i < 0 || i + 1 >= s.len()) && !(s[i] == '/' && s[i + 1] == '/') {
        lemma_find_comment_bounds(s, i + 1);
    }
}

/// `s` has `//` at index `j`.
pub open spec fn slashes_at(s: Seq<char>, j: int) -> bool {
    0 <= j && j + 1 < s.len() && s[j] == '/' && s[j + 1] == '/'
}

proof fn lemma_find_comment_first(s: Seq<char>, i: int)
    requires
        0 <= i,
    ensures
        find_comment(s, i) matches Some(k) ==> i <= k && slashes_at(s, k) && forall|j: int|
            i <= j < k ==> !#[trigger] slashes_at(s, j),
        find_comment(s, i) is None ==> forall|j: int| i <= j ==> !#[trigger] slashes_at(s, j),
    decreases s.len() - i,
{
    if i + 1 < s.len() && !(s[i] == '/' && s[i + 1] == '/') {
        lemma_find_comment_first(s, i + 1);
    }
}

/// A comment starts at the first `//` of a line: where `find_comment` finds one,
/// `//` stands there and nowhere before; where it finds none, the line holds no
/// `//`.
pub proof fn law_comment_at_first_slashes(s: Seq<char>)
    ensures
        find_comment(s, 0) matches Some(k) ==> slashes_at(s, k) && forall|j: int|
            0 <= j < k ==> !#[trigger] slashes_at(s, j),
        find_comment(s, 0) is None ==> forall|j: int| !#[trigger] slashes_at(s, j),
{
    lemma_find_comment_first(s, 0);
}

proof fn lemma_ascii_bytes(s: Seq<char>, k: int)
    requires
        0 <= k <= s.len(),
        forall|j: int| 0 <= j < s.len() ==> (#[trigger] s[j] as u32) < 0x80,
    ensures
        utf8_bytes(s, k) == k,
    decreases k,
{
    if k > 0 {
        lemma_ascii_bytes(s, k - 1);
    }
}

/// What the lexer keeps of a line of ASCII characters holds no `//`: everything
/// from the first `//` on is cut.
pub proof fn law_kept_line_has_no_comment(s: Seq<char>)
    requires
        forall|j: int| 0 <= j < s.len() ==> (#[trigger] s[j] as u32) < 0x80,
    ensures
        forall|j: int| !#[trigger] slashes_at(spec_trim_line(s), j),
        find_comment(s, 0) matches Some(k) ==> spec_trim_line(s) == trim_ascii(s.take(k)),
        find_comment(s, 0) is None ==> spec_trim_line(s) == trim_ascii(s),
{
    lemma_find_comment_first(s, 0);
    let x = strip_comment(s);
    let end = match find_comment(s, 0) {
        Some(k) => k,
        None => s.len() as int,
    };
    match find_comment(s, 0) {
        Some(k) => {
            lemma_ascii_bytes(s, k);
            assert(x == s.take(k));
        },
        None => {
            assert(x == s);
            assert(s.take(end) =~= s);
        },
    }
    assert(x =~= s.take(end));
    let lo = skip_ws_from(x, 0);
    lemma_skip_ws_bounds(x, 0);
    lemma_trim_end_bounds(x, lo, x.len() as int);
    let hi = trim_end(x, lo, x.len() as int);
    let r = spec_trim_line(s);
    assert(r == x.subrange(lo, hi));
    assert forall|j: int| !#[trigger] slashes_at(r, j) by {
        if slashes_at(r, j) {
            assert(r[j] == s[lo + j]);
            assert(r[j + 1] == s[lo + j + 1]);
            assert(slashes_at(s, lo + j));
            assert(lo + j + 1 < end);
        }
    }
}

fn find_comment_exec(line: &Vec<char>) -> (r: Option<usize>)
    ensures
        match find_comment(line@, 0) {
            Some(k) => r == Some(k as usize),
            None => r is None,
        },
{
    let mut i: usize = 0;
    while i < line.len() && i + 1 < line.len()
        invariant
            i <= line.len(),
            find_comment(line@, 0) == find_comment(line@, i as int),
        decreases line.len() - i,
    {
        if line[i] == '/' && line[i + 1] == '/' {
            return Some(i);
        }
        i = i + 1;
    }
    None
}

/// The number of characters kept before a comment that starts at character `k`.
fn comment_cut(line: &Vec<char>, k: usize) -> (r: usize)
    requires
        k <= line.len(),
    ensures
        utf8_bytes(line@, k as int) < line.len() ==> r == utf8_bytes(line@, k as int),
        utf8_bytes(line@, k as int) >= line.len() ==> r == line.len(),
{
    let mut acc: usize = 0;
    let mut j: usize = 0;
    while j < k
        invariant
            j <= k <= line.len(),
            acc == utf8_bytes(line@, j as int),
            acc < line.len() || (j == 0 && line.len() == 0),
        decreases k - j,
    {
        let w = utf8_width(line[j]);
        proof {
            lemma_utf8_bytes_mono(line@, j as int, k as int);
        }
        if w >= line.len() - acc {
            proof {
                lemma_utf8_bytes_mono(line@, (j + 1) as int, k as int);
            }
            return line.len();
        }
        acc = acc + w;
        j = j + 1;
    }
    if line.len() == 0 {
        proof {
            lemma_utf8_bytes_mono(line@, 0, k as int);
        }
        return 0;
    }
    acc
}

/// Copies `s[lo..hi]`.
fn copy_range(s: &Vec<char>, lo: usize, hi: usize) -> (r: Vec<char>)
    requires
        lo <= hi <= s.len(),
    ensures
        r@ == s@.subrange(lo as int, hi as int),
{
    let mut out: Vec<char> = Vec::new();
    let mut i = lo;
    while i < hi
        invariant
            lo <= i <= hi <= s.len(),
            out@ == s@.subrange(lo as int, i as int),
        decreases hi - i,
    {
        out.push(s[i]);
        i = i + 1;
        assert(out@ =~= s@.subrange(lo as int, i as int));
    }
    out
}

/// What the lexer keeps of a raw line: the part before the first `//` (cut at the
/// character count that equals the comment's byte offset), without surrounding
/// ASCII whitespace.
pub fn trim_line(line: &Vec<char>) -> (r: Vec<char>)
    ensures
        r@ == spec_trim_line(line@),
{
    proof {
        lemma_find_comment_bounds(line@, 0);
    }
    let kept = match find_comment_exec(line) {
        Some(k) => {
            let cut = comment_cut(line, k);
            copy_range(line, 0, cut)
        },
        None => copy_range(line, 0, line.len()),
    };
    assert(kept@ == strip_comment(line@)) by {
        assert(line@.subrange(0, line@.len() as int) =~= line@);
    }
    let n = kept.len();
    let mut lo: usize = 0;
    while lo < n && ascii_ws(kept[lo])
        invariant
            lo <= n == kept.len(),
            skip_ws_from(kept@, 0) == skip_ws_from(kept@, lo as int),
        decreases n - lo,
    {
        lo = lo + 1;
    }
    let mut hi: usize = n;
    while hi > lo && ascii_ws(kept[hi - 1])
        invariant
            lo <= hi <= n == kept.len(),
            lo == skip_ws_from(kept@, 0),
            trim_end(kept@, lo as int, n as int) == trim_end(kept@, lo as int, hi as int),
        decreases hi - lo,
    {
        hi = hi - 1;
    }
    copy_range(&kept, lo, hi)
}

// ---------------------------------------------------------------- the stream

/// One character of the stream: the character, its row (the line number, from 1),
/// its column in the kept part of the line (from 1), and whether it ends the line.
pub struct LexChar {
    pub c: char,
    pub row: usize,
    pub col: usize,
    pub last: bool,
}

/// A stream item.
pub open spec fn lex_char(c: char, row: usize, col: usize, last: bool) -> LexChar {
    LexChar { c: c, row: row, col: col, last: last }
}

/// The stream items of `chars` from index `from` on, in row `row`.
pub open spec fn line_items(chars: Seq<char>, row: usize, from: int) -> Seq<LexChar> {
    if from < 0 || from >= chars.len() {
        Seq::empty()
    } else {
        Seq::new(
            (chars.len() - from) as nat,
            |i: int|
                lex_char(chars[from + i], row, (from + i + 1) as usize, from + i + 1 == chars.len()),
        )
    }
}

/// The stream items of the lines from index `k` on.
pub open spec fn rest_items(lines: Seq<Vec<char>>, k: int) -> Seq<LexChar>
    decreases lines.len() - k,
{
    if k < 0 || k >= lines.len() {
        Seq::empty()
    } else {
        line_items(spec_trim_line(lines[k]@), (k + 1) as usize, 0) + rest_items(lines, k + 1)
    }
}

/// The stream of a whole source.
pub open spec fn source_items(lines: Seq<Vec<char>>) -> Seq<LexChar> {
    rest_items(lines, 0)
}

/// The characters of some stream items.
pub open spec fn chars_of(s: Seq<LexChar>) -> Seq<char> {
    Seq::new(s.len(), |i: int| s[i].c)
}

/// Classes of characters that the lexer collects runs of.
pub enum CharClass {
    Space,
    IdentChar,
    Digit,
    NonSpace,
}

pub open spec fn in_class(cl: CharClass, c: char) -> bool {
    match cl {
        CharClass::Space => is_ws(c),
        CharClass::IdentChar => is_ident_char(c),
        CharClass::Digit => is_digit(c),
        CharClass::NonSpace => !is_ws(c),
    }
}

fn class_has(cl: &CharClass, c: char) -> (r: bool)
    ensures
        r == in_class(*cl, c),
{
    match cl {
        CharClass::Space => ascii_ws(c),
        CharClass::IdentChar => ascii_alpha(c) || ascii_digit(c) || c == '_',
        CharClass::Digit => ascii_digit(c),
        CharClass::NonSpace => !ascii_ws(c),
    }
}

/// The length of the longest prefix of `s` in the class that, but for a run of
/// whitespace, stays within one line: a line break ends a token as whitespace
/// does.
pub open spec fn run(s: Seq<LexChar>, cl: CharClass) -> nat
    decreases s.len(),
{
    if s.len() > 0 && in_class(cl, s[0].c) {
        if s[0].last && !(cl is Space) {
            1
        } else {
            1 + run(s.skip(1), cl)
        }
    } else {
        0
    }
}

/// The value of a string of decimal digits.
pub open spec fn digits_value(d: Seq<char>) -> int
    decreases d.len(),
{
    if d.len() == 0 {
        0
    } else {
        digits_value(d.drop_last()) * 10 + (d.last() as int - '0' as int)
    }
}

/// The stream starts with an arrow: `-` then `>` on the same line.
pub open spec fn starts_arrow(t: Seq<LexChar>) -> bool {
    t.len() > 1 && t[0].c == '-' && !t[0].last && t[1].c == '>'
}

/// The number of items the token at the start of `t` takes.
pub open spec fn tok_len(t: Seq<LexChar>) -> nat {
    if t.len() == 0 {
        0
    } else if starts_arrow(t) {
        2
    } else if is_single(t[0].c) {
        1
    } else if is_alpha(t[0].c) {
        run(t, CharClass::IdentChar)
    } else if is_digit(t[0].c) {
        run(t, CharClass::Digit)
    } else {
        run(t, CharClass::NonSpace)
    }
}

/// The text of the token at the start of `t`.
pub open spec fn tok_text(t: Seq<LexChar>) -> Seq<char> {
    chars_of(t.take(tok_len(t) as int))
}

/// The keyword a word spells: `fun`, `in`, `pack` or `word`.
pub open spec fn keyword(w: Seq<char>) -> Option<TokenKind> {
    if w == seq!['f', 'u', 'n'] {
        Some(TokenKind::Fun())
    } else if w == seq!['i', 'n'] {
        Some(TokenKind::In())
    } else if w == seq!['p', 'a', 'c', 'k'] {
        Some(TokenKind::TPack())
    } else if w == seq!['w', 'o', 'r', 'd'] {
        Some(TokenKind::TWord())
    } else {
        None
    }
}

fn keyword_kind(w: &Vec<char>) -> (r: Option<TokenKind>)
    ensures
        r == keyword(w@),
{
    let n = w.len();
    if n == 3 && w[0] == 'f' && w[1] == 'u' && w[2] == 'n' {
        assert(w@ =~= seq!['f', 'u', 'n']);
        Some(TokenKind::Fun())
    } else if n == 2 && w[0] == 'i' && w[1] == 'n' {
        assert(w@ =~= seq!['i', 'n']);
        Some(TokenKind::In())
    } else if n == 4 && w[0] == 'p' && w[1] == 'a' && w[2] == 'c' && w[3] == 'k' {
        assert(w@ =~= seq!['p', 'a', 'c', 'k']);
        Some(TokenKind::TPack())
    } else if n == 4 && w[0] == 'w' && w[1] == 'o' && w[2] == 'r' && w[3] == 'd' {
        assert(w@ =~= seq!['w', 'o', 'r', 'd']);
        Some(TokenKind::TWord())
    } else {
        proof {
            if w@ == seq!['f', 'u', 'n'] {
                assert(w@[0] == 'f' && w@[1] == 'u' && w@[2] == 'n');
            }
            if w@ == seq!['i', 'n'] {
                assert(w@[0] == 'i' && w@[1] == 'n');
            }
            if w@ == seq!['p', 'a', 'c', 'k'] {
                assert(w@[0] == 'p' && w@[1] == 'a' && w@[2] == 'c' && w@[3] == 'k');
            }
            if w@ == seq!['w', 'o', 'r', 'd'] {
                assert(w@[0] == 'w' && w@[1] == 'o' && w@[2] == 'r' && w@[3] == 'd');
            }
        }
        None
    }
}

/// `k` is the kind of the token at the start of `t` (which holds no leading space).
pub open spec fn kind_of_start(k: TokenKind, t: Seq<LexChar>) -> bool {
    if starts_arrow(t) {
        k is Arrow
    } else if t[0].c == '+' {
        k is Plus
    } else if t[0].c == '-' {
        k is Minus
    } else if t[0].c == '&' {
        k is And
    } else if t[0].c == '=' {
        k is Eq
    } else if t[0].c == '|' {
        k is Or
    } else if t[0].c == '^' {
        k is Xor
    } else if is_alpha(t[0].c) && keyword(tok_text(t)) is Some {
        k == keyword(tok_text(t))->0
    } else if is_digit(t[0].c) {
        k matches TokenKind::Word(v) && v == digits_value(tok_text(t))
    } else {
        k matches TokenKind::Identifier(x) && x@ == tok_text(t)
    }
}

/// The next token of the stream `s` is a word too large for an `i64`.
pub open spec fn word_overflow(s: Seq<LexChar>) -> bool {
    let t = s.skip(run(s, CharClass::Space) as int);
    t.len() > 0 && is_digit(t[0].c) && digits_value(tok_text(t)) > i64::MAX
}

/// The result of taking one token from the stream `s`: the token's kind and
/// position and the stream after it, or the end of the stream.
pub open spec fn token_step(s: Seq<LexChar>, r: Result<Token, LexerError>, file: &str, rest: Seq<LexChar>) -> bool {
    let t = s.skip(run(s, CharClass::Space) as int);
    if t.len() == 0 {
        r is Err && rest.len() == 0
    } else {
        &&& r matches Ok(tok)
        &&& kind_of_start(tok.kind, t)
        &&& tok.file == file
        &&& tok.row == t[0].row
        &&& tok.col == t[0].col
        &&& rest == t.skip(tok_len(t) as int)
    }
}

pub proof fn lemma_run_stops(s: Seq<LexChar>, cl: CharClass)
    ensures
        run(s, cl) <= s.len(),
        (cl is Space) && run(s, cl) < s.len() ==> !in_class(cl, s[run(s, cl) as int].c),
        s.len() > 0 && in_class(cl, s[0].c) ==> run(s, cl) >= 1,
    decreases s.len(),
{
    if s.len() > 0 && in_class(cl, s[0].c) && !(s[0].last && !(cl is Space)) {
        lemma_run_stops(s.skip(1), cl);
        if run(s, cl) < s.len() {
            assert(s.skip(1)[run(s.skip(1), cl) as int] == s[run(s, cl) as int]);
        }
    }
}

/// Each token taken consumes at least one character, so taking tokens until the
/// end comes to an end: a step that gives a token leaves fewer characters than it
/// found, and a step that gives an error leaves none.
pub proof fn law_token_progress(s: Seq<LexChar>, r: Result<Token, LexerError>, file: &str, rest: Seq<LexChar>)
    requires
        token_step(s, r, file, rest),
    ensures
        r is Ok ==> rest.len() < s.len(),
        r is Err ==> rest.len() == 0,
{
    let k = run(s, CharClass::Space);
    lemma_run_stops(s, CharClass::Space);
    let t = s.skip(k as int);
    if t.len() > 0 {
        assert(t[0] == s[k as int]);
        assert(!is_ws(t[0].c));
        lemma_run_stops(t, CharClass::IdentChar);
        lemma_run_stops(t, CharClass::Digit);
        lemma_run_stops(t, CharClass::NonSpace);
        assert(tok_len(t) >= 1);
    }
}

/// The stream after the token at its start (after any whitespace).
pub open spec fn after_token(s: Seq<LexChar>) -> Seq<LexChar> {
    let t = s.skip(run(s, CharClass::Space) as int);
    t.skip(tok_len(t) as int)
}

/// The stream after `k` tokens.
pub open spec fn after_tokens(s: Seq<LexChar>, k: nat) -> Seq<LexChar>
    decreases k,
{
    if k == 0 {
        s
    } else {
        after_token(after_tokens(s, (k - 1) as nat))
    }
}

/// Where taking tokens from a stream until it is used up ends: with so many
/// tokens, at a word too large for an `i64`, or at whitespace with no token
/// after it.
pub enum LexOutcome {
    Tokens(nat),
    TooLarge,
    AfterEnd,
}

/// `o` with `k` more tokens taken before it.
pub open spec fn more_tokens(o: LexOutcome, k: nat) -> LexOutcome {
    match o {
        LexOutcome::Tokens(n) => LexOutcome::Tokens(n + k),
        other => other,
    }
}

/// Taking tokens from `s` until it is used up.
pub open spec fn lex_outcome(s: Seq<LexChar>) -> LexOutcome
    decreases s.len(),
{
    if s.len() == 0 {
        LexOutcome::Tokens(0)
    } else if word_overflow(s) {
        LexOutcome::TooLarge
    } else if s.skip(run(s, CharClass::Space) as int).len() == 0 {
        LexOutcome::AfterEnd
    } else {
        proof {
            lemma_token_shrinks(s);
        }
        more_tokens(lex_outcome(after_token(s)), 1)
    }
}

pub proof fn lemma_token_shrinks(s: Seq<LexChar>)
    requires
        s.skip(run(s, CharClass::Space) as int).len() > 0,
    ensures
        after_token(s).len() < s.len(),
{
    let k = run(s, CharClass::Space);
    lemma_run_stops(s, CharClass::Space);
    let t = s.skip(k as int);
    assert(t[0] == s[k as int]);
    lemma_run_stops(t, CharClass::IdentChar);
    lemma_run_stops(t, CharClass::Digit);
    lemma_run_stops(t, CharClass::NonSpace);
    assert(tok_len(t) >= 1);
}

proof fn lemma_run_le(s: Seq<LexChar>, cl: CharClass)
    ensures
        run(s, cl) <= s.len(),
    decreases s.len(),
{
    if s.len() > 0 && in_class(cl, s[0].c) && !(s[0].last && !(cl is Space)) {
        lemma_run_le(s.skip(1), cl);
    }
}

proof fn lemma_digits_prefix(d: Seq<char>, k: int)
    requires
        0 <= k <= d.len(),
        forall|i: int| 0 <= i < d.len() ==> is_digit(#[trigger] d[i]),
    ensures
        0 <= digits_value(d.take(k)) <= digits_value(d),
    decreases d.len(),
{
    if d.len() > 0 {
        if k == d.len() {
            assert(d.take(k) =~= d);
            lemma_digits_prefix(d.drop_last(), k - 1);
            assert(d.drop_last().take(k - 1) =~= d.drop_last());
        } else {
            lemma_digits_prefix(d.drop_last(), k);
            assert(d.drop_last().take(k) =~= d.take(k));
            lemma_digits_prefix(d.drop_last(), d.len() - 1);
            assert(d.drop_last().take(d.len() - 1) =~= d.drop_last());
        }
    } else {
        assert(d.take(k) =~= d);
    }
}

/// The items of a run are all in the class.
proof fn lemma_run_members(s: Seq<LexChar>, cl: CharClass, i: int)
    requires
        0 <= i < run(s, cl),
    ensures
        in_class(cl, s[i].c),
    decreases s.len(),
{
    lemma_run_le(s, cl);
    if i > 0 {
        assert(!(s[0].last && !(cl is Space)));
        lemma_run_members(s.skip(1), cl, i - 1);
        assert(s.skip(1)[i - 1] == s[i]);
    }
}

// ---------------------------------------------------------------- the cursor

/// Where the lexer stands: the kept part of the current line, the index in it,
/// the index of the next line to read, the current row, and whether the input is
/// exhausted.
struct Cursor {
    chars: Vec<char>,
    pos: usize,
    next: usize,
    row: usize,
    eof: bool,
}

spec fn cur_wf(lines: Seq<Vec<char>>, c: Cursor) -> bool {
    &&& c.next <= lines.len()
    &&& c.row == c.next
    &&& !c.eof ==> c.next >= 1 && c.chars@ == spec_trim_line(lines[c.next - 1]@) && c.pos <= c.chars.len()
    &&& c.eof ==> c.next == lines.len()
    &&& (!c.eof && c.pos >= c.chars.len()) ==> c.pos == 0
}

spec fn cur_items(lines: Seq<Vec<char>>, c: Cursor) -> Seq<LexChar> {
    if c.eof {
        Seq::empty()
    } else {
        line_items(c.chars@, c.row, c.pos as int) + rest_items(lines, c.next as int)
    }
}

spec fn cur_stuck(c: Cursor) -> bool {
    !c.eof && c.pos >= c.chars.len()
}

proof fn lemma_rest_unfold(lines: Seq<Vec<char>>, k: int)
    requires
        0 <= k < lines.len(),
    ensures
        rest_items(lines, k) == line_items(spec_trim_line(lines[k]@), (k + 1) as usize, 0)
            + rest_items(lines, k + 1),
{
}

proof fn lemma_line_items_step(chars: Seq<char>, row: usize, from: int)
    requires
        0 <= from < chars.len(),
    ensures
        line_items(chars, row, from).len() == chars.len() - from,
        line_items(chars, row, from)[0] == (LexChar {
            c: chars[from],
            row: row,
            col: (from + 1) as usize,
            last: from + 1 == chars.len(),
        }),
        line_items(chars, row, from).skip(1) =~= line_items(chars, row, from + 1),
{
    let a = line_items(chars, row, from);
    let b = line_items(chars, row, from + 1);
    assert(a.len() == chars.len() - from);
    assert(a[0] == (LexChar {
        c: chars[from],
        row: row,
        col: (from + 1) as usize,
        last: from + 1 == chars.len(),
    }));
    assert(a.skip(1).len() == b.len());
    assert forall|i: int| 0 <= i < b.len() implies a.skip(1)[i] == b[i] by {
        assert(a.skip(1)[i] == a[i + 1]);
    }
}

/// A cursor that is neither at the end nor stuck has items exactly when it is not
/// at the end, and its first item is the current character.
proof fn lemma_cur_first(lines: Seq<Vec<char>>, c: Cursor)
    requires
        cur_wf(lines, c),
        !cur_stuck(c),
    ensures
        c.eof <==> cur_items(lines, c).len() == 0,
        !c.eof ==> cur_items(lines, c)[0] == (LexChar {
            c: c.chars@[c.pos as int],
            row: c.row,
            col: (c.pos + 1) as usize,
            last: c.pos + 1 == c.chars.len(),
        }),
        !c.eof ==> cur_items(lines, c).skip(1) == line_items(c.chars@, c.row, c.pos + 1)
            + rest_items(lines, c.next as int),
{
    if !c.eof {
        lemma_line_items_step(c.chars@, c.row, c.pos as int);
        let a = line_items(c.chars@, c.row, c.pos as int);
        let b = rest_items(lines, c.next as int);
        assert((a + b).skip(1) =~= a.skip(1) + b);
    }
}

fn copy_chars(v: &Vec<char>) -> (r: Vec<char>)
    ensures
        r@ == v@,
{
    let r = copy_range(v, 0, v.len());
    assert(v@.subrange(0, v@.len() as int) =~= v@);
    r
}

fn copy_cursor(c: &Cursor) -> (r: Cursor)
    ensures
        r.chars@ == c.chars@,
        r.pos == c.pos,
        r.next == c.next,
        r.row == c.row,
        r.eof == c.eof,
{
    Cursor { chars: copy_chars(&c.chars), pos: c.pos, next: c.next, row: c.row, eof: c.eof }
}

/// Reads the next line into the cursor; false at the end of the input.
fn next_line(lines: &Vec<Vec<char>>, c: &mut Cursor) -> (r: bool)
    requires
        old(c).next <= lines.len(),
    ensures
        r == (old(c).next < lines.len()),
        r ==> final(c).chars@ == spec_trim_line(lines@[old(c).next as int]@) && final(c).pos == 0
            && final(c).next == old(c).next + 1 && final(c).row == final(c).next
            && final(c).eof == old(c).eof,
        !r ==> final(c).eof && final(c).chars@.len() == 0 && final(c).pos == 0 && final(c).next
            == old(c).next && final(c).row == old(c).row,
{
    if c.next >= lines.len() {
        c.eof = true;
        c.chars = Vec::new();
        c.pos = 0;
        return false;
    }
    c.chars = trim_line(&lines[c.next]);
    c.next = c.next + 1;
    c.row = c.next;
    c.pos = 0;
    true
}

/// Moves one character on, reading lines while the current one is used up.
fn cursor_advance(lines: &Vec<Vec<char>>, c: &mut Cursor) -> (r: bool)
    requires
        cur_wf(lines@, *old(c)),
        old(c).pos < usize::MAX,
    ensures
        cur_wf(lines@, *final(c)),
        !cur_stuck(*final(c)),
        cur_items(lines@, *final(c)) == if old(c).eof || cur_stuck(*old(c)) {
            cur_items(lines@, *old(c))
        } else {
            cur_items(lines@, *old(c)).skip(1)
        },
        final(c).eof == (old(c).eof || cur_items(lines@, *final(c)).len() == 0),
        r == (old(c).eof || !final(c).eof),
{
    let ghost target = if c.eof || cur_stuck(*c) {
        cur_items(lines@, *c)
    } else {
        cur_items(lines@, *c).skip(1)
    };
    proof {
        if !c.eof && !cur_stuck(*c) {
            lemma_cur_first(lines@, *c);
        }
    }
    let ghost was_eof = c.eof;
    c.pos = c.pos + 1;
    proof {
        if !c.eof {
            if c.pos >= c.chars.len() {
                assert(line_items(c.chars@, c.row, c.pos as int) =~= Seq::<LexChar>::empty());
                assert(target =~= rest_items(lines@, c.next as int));
            }
        }
    }
    while c.pos >= c.chars.len() && !c.eof
        invariant
            c.next <= lines.len(),
            c.row == c.next,
            !c.eof ==> c.next >= 1 && c.chars@ == spec_trim_line(lines@[c.next - 1]@),
            c.eof ==> c.next == lines.len(),
            c.eof == was_eof,
            was_eof == old(c).eof,
            target == if old(c).eof || cur_stuck(*old(c)) {
                cur_items(lines@, *old(c))
            } else {
                cur_items(lines@, *old(c)).skip(1)
            },
            !c.eof ==> line_items(c.chars@, c.row, c.pos as int) + rest_items(lines@, c.next as int)
                == target,
            was_eof ==> target.len() == 0,
        decreases lines.len() - c.next,
    {
        assert(line_items(c.chars@, c.row, c.pos as int) =~= Seq::<LexChar>::empty());
        let ghost k = c.next as int;
        if !next_line(lines, c) {
            proof {
                assert(rest_items(lines@, k) =~= Seq::<LexChar>::empty());
            }
            return false;
        }
        proof {
            lemma_rest_unfold(lines@, k);
        }
    }
    proof {
        if !c.eof {
            assert(cur_items(lines@, *c) == target);
            lemma_cur_first(lines@, *c);
        }
    }
    true
}

fn is_stuck(c: &Cursor) -> (r: bool)
    ensures
        r == cur_stuck(*c),
{
    !c.eof && c.pos >= c.chars.len()
}

fn current_char(c: &Cursor) -> (r: Option<char>)
    ensures
        r == if c.eof || c.pos >= c.chars.len() {
            None
        } else {
            Some(c.chars@[c.pos as int])
        },
{
    if c.eof || c.pos >= c.chars.len() {
        None
    } else {
        Some(c.chars[c.pos])
    }
}

fn peek_char(c: &Cursor) -> (r: Option<char>)
    requires
        c.pos < c.chars.len(),
    ensures
        r == if c.eof || c.pos + 1 >= c.chars.len() {
            None
        } else {
            Some(c.chars@[c.pos + 1])
        },
{
    if c.eof || c.pos + 1 >= c.chars.len() {
        None
    } else {
        Some(c.chars[c.pos + 1])
    }
}

fn class_is_space(cl: &CharClass) -> (r: bool)
    ensures
        r == (*cl is Space),
{
    match cl {
        CharClass::Space => true,
        _ => false,
    }
}

/// Collects the run of the class at the cursor, moving past it.
fn scan(lines: &Vec<Vec<char>>, c: &mut Cursor, cl: &CharClass) -> (r: Vec<char>)
    requires
        cur_wf(lines@, *old(c)),
        !cur_stuck(*old(c)),
    ensures
        cur_wf(lines@, *final(c)),
        !cur_stuck(*final(c)),
        r.len() == run(cur_items(lines@, *old(c)), *cl),
        r@ == chars_of(cur_items(lines@, *old(c)).take(r.len() as int)),
        cur_items(lines@, *final(c)) == cur_items(lines@, *old(c)).skip(r.len() as int),
        (*cl is Space) ==> run(cur_items(lines@, *final(c)), *cl) == 0,
{
    let ghost s = cur_items(lines@, *c);
    let mut out: Vec<char> = Vec::new();
    let mut go = true;
    proof {
        lemma_run_le(s, *cl);
    }
    while go
        invariant
            cur_wf(lines@, *c),
            !cur_stuck(*c),
            out.len() <= s.len(),
            cur_items(lines@, *c) == s.skip(out.len() as int),
            out@ == chars_of(s.take(out.len() as int)),
            go ==> run(s, *cl) == out.len() + run(cur_items(lines@, *c), *cl),
            !go ==> run(s, *cl) == out.len(),
            !go && (*cl is Space) ==> run(cur_items(lines@, *c), *cl) == 0,
        decreases cur_items(lines@, *c).len() + (if go { 1int } else { 0int }),
    {
        proof {
            lemma_cur_first(lines@, *c);
        }
        match current_char(c) {
            Some(ch) => {
                if class_has(cl, ch) {
                    let ghost before = cur_items(lines@, *c);
                    let ends_line = c.pos + 1 == c.chars.len();
                    out.push(ch);
                    cursor_advance(lines, c);
                    proof {
                        assert(s.skip(out.len() as int) =~= before.skip(1));
                        assert(chars_of(s.take(out.len() as int)) =~= chars_of(
                            s.take(out.len() - 1),
                        ).push(ch));
                    }
                    if ends_line && !class_is_space(cl) {
                        go = false;
                    }
                } else {
                    go = false;
                }
            },
            None => {
                go = false;
            },
        }
    }
    out
}

/// Builds a `String` from characters (std's `FromIterator<&char>` for `String`).
#[verifier::external_body]
pub(crate) fn string_from_chars(v: &Vec<char>) -> (s: String)
    ensures
        s@ == v@,
{
    String::from_iter(v)
}

/// The value of a run of digits, which fits in an `i64`.
fn word_value(d: &Vec<char>) -> (r: i64)
    requires
        forall|i: int| 0 <= i < d.len() ==> is_digit(#[trigger] d@[i]),
        digits_value(d@) <= i64::MAX,
    ensures
        r == digits_value(d@),
{
    let mut v: i64 = 0;
    let mut i: usize = 0;
    while i < d.len()
        invariant
            i <= d.len(),
            forall|j: int| 0 <= j < d.len() ==> is_digit(#[trigger] d@[j]),
            digits_value(d@) <= i64::MAX,
            v == digits_value(d@.take(i as int)),
        decreases d.len() - i,
    {
        proof {
            lemma_digits_prefix(d@, (i + 1) as int);
            assert(d@.take((i + 1) as int).drop_last() =~= d@.take(i as int));
        }
        let dv = (d[i] as u32 - '0' as u32) as i64;
        v = v * 10 + dv;
        i = i + 1;
    }
    assert(d@.take(d.len() as int) =~= d@);
    v
}

// ---------------------------------------------------------------- the lexer

/// A lexer over the lines of a source file.
pub struct Lexer<'a> {
    file: &'a str,
    lines: Vec<Vec<char>>,
    cur: Cursor,
}

impl<'a> Lexer<'a> {
    /// The lexer's state is consistent with its lines.
    pub closed spec fn wf(&self) -> bool {
        cur_wf(self.lines@, self.cur)
    }

    /// The characters still to come, as the lexer will see them.
    pub closed spec fn items(&self) -> Seq<LexChar> {
        cur_items(self.lines@, self.cur)
    }

    /// The lexer was built on a source whose first line keeps nothing: it sees no
    /// character until it is advanced.
    pub closed spec fn stuck(&self) -> bool {
        cur_stuck(self.cur)
    }

    /// The lexer has read past the last line.
    pub closed spec fn is_eof(&self) -> bool {
        self.cur.eof
    }

    /// The index within the current line.
    pub closed spec fn cursor(&self) -> nat {
        self.cur.pos as nat
    }

    /// The name of the file the tokens are attributed to.
    pub closed spec fn file(&self) -> &'a str {
        self.file
    }

    /// The next token is a word whose digits exceed `i64::MAX`.
    pub open spec fn overflow_ahead(&self) -> bool {
        !self.stuck() && word_overflow(self.items())
    }

    /// A lexer over `input`, the lines of the file named `path`; it reads the first line.
    pub fn new(input: Vec<Vec<char>>, path: &'a str) -> (r: Self)
        ensures
            r.wf(),
            r.items() == source_items(input@),
            r.is_eof() == (input.len() == 0),
            r.stuck() == (input.len() > 0 && spec_trim_line(input@[0]@).len() == 0),
            r.cursor() == 0,
            r.file() == path,
    {
        let mut cur = Cursor { chars: Vec::new(), pos: 0, next: 0, row: 0, eof: false };
        next_line(&input, &mut cur);
        let r = Self { file: path, lines: input, cur: cur };
        proof {
            if r.lines.len() > 0 {
                lemma_rest_unfold(r.lines@, 0);
                if r.cur.chars.len() == 0 {
                    assert(line_items(r.cur.chars@, r.cur.row, 0) =~= Seq::<LexChar>::empty());
                }
            } else {
                assert(rest_items(r.lines@, 0) =~= Seq::<LexChar>::empty());
            }
        }
        r
    }

    /// Moves one character on, reading further lines when the current one is used
    /// up. False when this call reached the end of the input.
    pub fn advance(&mut self) -> (r: bool)
        requires
            old(self).wf(),
            old(self).cursor() < usize::MAX,
        ensures
            final(self).wf(),
            !final(self).stuck(),
            final(self).file() == old(self).file(),
            final(self).items() == if old(self).is_eof() || old(self).stuck() {
                old(self).items()
            } else {
                old(self).items().skip(1)
            },
            final(self).is_eof() == (old(self).is_eof() || final(self).items().len() == 0),
            r == (old(self).is_eof() || !final(self).is_eof()),
    {
        cursor_advance(&self.lines, &mut self.cur)
    }

    /// Takes the next token: skips whitespace, then reads an arrow `->` (within
    /// one line), one of `+ - & = | ^`, a run of letters, digits and `_` starting
    /// with a letter (a keyword `fun`, `in`, `pack` or `word`, or else an
    /// identifier), a run of digits (a word), or else a run of anything but
    /// whitespace (an identifier); a run ends at the end of its line.
    /// `ReadAfterEnd` when nothing is left, or when the lexer is stuck.
    pub fn next_token(&mut self) -> (r: Result<Token<'a>, LexerError>)
        requires
            old(self).wf(),
            !old(self).overflow_ahead(),
        ensures
            final(self).wf(),
            final(self).file() == old(self).file(),
            r is Err ==> r == Err::<Token<'a>, LexerError>(LexerError::ReadAfterEnd()),
            old(self).stuck() ==> r is Err && final(self).items() == old(self).items()
                && final(self).stuck() && final(self).is_eof() == old(self).is_eof(),
            !old(self).stuck() ==> {
                &&& !final(self).stuck()
                &&& token_step(old(self).items(), r, old(self).file(), final(self).items())
                &&& final(self).is_eof() == (final(self).items().len() == 0)
            },
    {
        if is_stuck(&self.cur) {
            return Err(LexerError::ReadAfterEnd());
        }
        let ghost s = self.items();
        let spaces = scan(&self.lines, &mut self.cur, &CharClass::Space);
        let ghost t = self.items();
        assert(t == s.skip(run(s, CharClass::Space) as int));
        proof {
            lemma_cur_first(self.lines@, self.cur);
        }
        let first = match current_char(&self.cur) {
            Some(c) => c,
            None => {
                return Err(LexerError::ReadAfterEnd());
            },
        };
        let row = self.cur.row;
        let col = self.cur.pos + 1;
        assert(first == t[0].c && row == t[0].row && col == t[0].col);
        assert(!is_ws(first)) by {
            if is_ws(first) {
                assert(run(t, CharClass::Space) > 0);
            }
        }
        let file = self.file;
        if first == '-' {
            match peek_char(&self.cur) {
                Some(nx) => {
                    if nx == '>' {
                        proof {
                            lemma_line_items_step(self.cur.chars@, self.cur.row, self.cur.pos + 1);
                            assert(t[1] == line_items(self.cur.chars@, self.cur.row, self.cur.pos + 1)[0]);
                        }
                        cursor_advance(&self.lines, &mut self.cur);
                        cursor_advance(&self.lines, &mut self.cur);
                        assert(self.items() =~= t.skip(2));
                        return Ok(Token::new(TokenKind::Arrow(), file, row, col));
                    }
                },
                None => {},
            }
        }
        assert(!starts_arrow(t) || first != '-') by {
            if first == '-' && starts_arrow(t) {
                lemma_line_items_step(self.cur.chars@, self.cur.row, self.cur.pos + 1);
                assert(t[1] == line_items(self.cur.chars@, self.cur.row, self.cur.pos + 1)[0]);
            }
        }
        if first == '+' || first == '-' || first == '&' || first == '=' || first == '|' || first
            == '^' {
            cursor_advance(&self.lines, &mut self.cur);
            let kind = if first == '+' {
                TokenKind::Plus()
            } else if first == '-' {
                TokenKind::Minus()
            } else if first == '&' {
                TokenKind::And()
            } else if first == '=' {
                TokenKind::Eq()
            } else if first == '|' {
                TokenKind::Or()
            } else {
                TokenKind::Xor()
            };
            return Ok(Token::new(kind, file, row, col));
        }
        if ascii_alpha(first) {
            let text = scan(&self.lines, &mut self.cur, &CharClass::IdentChar);
            assert(text@ == tok_text(t));
            match keyword_kind(&text) {
                Some(k) => Ok(Token::new(k, file, row, col)),
                None => Ok(Token::new(TokenKind::Identifier(string_from_chars(&text)), file, row, col)),
            }
        } else if ascii_digit(first) {
            let text = scan(&self.lines, &mut self.cur, &CharClass::Digit);
            assert(text@ == tok_text(t));
            assert forall|i: int| 0 <= i < text.len() implies is_digit(#[trigger] text@[i]) by {
                lemma_run_members(t, CharClass::Digit, i);
                lemma_run_le(t, CharClass::Digit);
                assert(text@[i] == t[i].c);
            }
            let v = word_value(&text);
            Ok(Token::new(TokenKind::Word(v), file, row, col))
        } else {
            let text = scan(&self.lines, &mut self.cur, &CharClass::NonSpace);
            assert(text@ == tok_text(t));
            Ok(Token::new(TokenKind::Identifier(string_from_chars(&text)), file, row, col))
        }
    }

    /// The next token would be a word too large for an `i64` (on which
    /// `next_token` cannot be called).
    pub fn word_overflow_ahead(&self) -> (r: bool)
        requires
            self.wf(),
        ensures
            r == self.overflow_ahead(),
    {
        if is_stuck(&self.cur) {
            return false;
        }
        let mut c = copy_cursor(&self.cur);
        let ghost s = self.items();
        assert(cur_items(self.lines@, c) == s);
        let _spaces = scan(&self.lines, &mut c, &CharClass::Space);
        let ghost t = cur_items(self.lines@, c);
        proof {
            lemma_cur_first(self.lines@, c);
        }
        match current_char(&c) {
            Some(first) => {
                if !ascii_digit(first) {
                    return false;
                }
                let text = scan(&self.lines, &mut c, &CharClass::Digit);
                assert(text@ == tok_text(t));
                assert forall|i: int| 0 <= i < text.len() implies is_digit(#[trigger] text@[i]) by {
                    lemma_run_members(t, CharClass::Digit, i);
                    lemma_run_le(t, CharClass::Digit);
                    assert(text@[i] == t[i].c);
                }
                digits_exceed(&text)
            },
            None => false,
        }
    }

    /// The lexer has read past the last line.
    pub fn eof(&self) -> (r: bool)
        ensures
            r == self.is_eof(),
    {
        self.cur.eof
    }
}

/// Takes tokens until the input is used up (see `lex_outcome`): the tokens, each
/// as `next_token` gives it; `WordTooLarge` at a word too large for an `i64`;
/// `ReadAfterEnd` when the lexer is stuck.
pub fn tokenize<'a>(l: &mut Lexer<'a>) -> (r: Result<Vec<Token<'a>>, LexerError>)
    requires
        old(l).wf(),
    ensures
        final(l).wf(),
        final(l).file() == old(l).file(),
        old(l).stuck() ==> r == Err::<Vec<Token<'a>>, LexerError>(LexerError::ReadAfterEnd()),
        !old(l).stuck() ==> match lex_outcome(old(l).items()) {
            LexOutcome::Tokens(n) => r matches Ok(toks) && toks.len() == n && forall|i: int|
                0 <= i < n ==> token_step(
                    after_tokens(old(l).items(), i as nat),
                    Ok::<Token<'a>, LexerError>(#[trigger] toks@[i]),
                    old(l).file(),
                    after_tokens(old(l).items(), (i + 1) as nat),
                ),
            LexOutcome::TooLarge => r == Err::<Vec<Token<'a>>, LexerError>(LexerError::WordTooLarge()),
            LexOutcome::AfterEnd => r == Err::<Vec<Token<'a>>, LexerError>(LexerError::ReadAfterEnd()),
        },
{
    if is_stuck(&l.cur) {
        return Err(LexerError::ReadAfterEnd());
    }
    let ghost s0 = l.items();
    let ghost file = l.file();
    let mut toks: Vec<Token<'a>> = Vec::new();
    while !l.eof()
        invariant
            l.wf(),
            !l.stuck(),
            !old(l).stuck(),
            s0 == old(l).items(),
            file == old(l).file(),
            l.file() == file,
            l.items() == after_tokens(s0, toks.len() as nat),
            lex_outcome(s0) == more_tokens(lex_outcome(l.items()), toks.len() as nat),
            forall|i: int|
                0 <= i < toks.len() ==> token_step(
                    after_tokens(s0, i as nat),
                    Ok::<Token<'a>, LexerError>(#[trigger] toks@[i]),
                    file,
                    after_tokens(s0, (i + 1) as nat),
                ),
        decreases l.items().len(),
    {
        proof {
            lemma_cur_first(l.lines@, l.cur);
        }
        let ghost s = l.items();
        if l.word_overflow_ahead() {
            return Err(LexerError::WordTooLarge());
        }
        match l.next_token() {
            Ok(t) => {
                proof {
                    law_token_progress(s, Ok(t), file, l.items());
                    lemma_token_shrinks(s);
                }
                let ghost before = toks@;
                toks.push(t);
                assert forall|i: int| 0 <= i < toks.len() implies token_step(
                    after_tokens(s0, i as nat),
                    Ok::<Token<'a>, LexerError>(#[trigger] toks@[i]),
                    file,
                    after_tokens(s0, (i + 1) as nat),
                ) by {
                    if i < before.len() {
                        assert(toks@[i] == before[i]);
                    }
                }
            },
            Err(e) => {
                return Err(e);
            },
        }
    }
    proof {
        lemma_cur_first(l.lines@, l.cur);
    }
    Ok(toks)
}

/// The digits' value exceeds `i64::MAX`.
fn digits_exceed(d: &Vec<char>) -> (r: bool)
    requires
        forall|i: int| 0 <= i < d.len() ==> is_digit(#[trigger] d@[i]),
    ensures
        r == (digits_value(d@) > i64::MAX),
{
    let mut v: i64 = 0;
    let mut i: usize = 0;
    while i < d.len()
        invariant
            i <= d.len(),
            forall|j: int| 0 <= j < d.len() ==> is_digit(#[trigger] d@[j]),
            v == digits_value(d@.take(i as int)),
        decreases d.len() - i,
    {
        assert(d@.take((i + 1) as int).drop_last() =~= d@.take(i as int));
        let dv = (d[i] as u32 - '0' as u32) as i64;
        proof {
            lemma_digits_prefix(d@, i as int);
            assert(is_digit(d@[i as int]));
        }
        if v > (i64::MAX - dv) / 10 {
            proof {
                lemma_digits_prefix(d@, (i + 1) as int);
                assert(v * 10 + dv > i64::MAX) by (nonlinear_arith)
                    requires
                        v > (i64::MAX - dv) / 10,
                        0 <= dv <= 9,
                ;
            }
            return true;
        }
        assert(v * 10 + dv <= i64::MAX) by (nonlinear_arith)
            requires
                v <= (i64::MAX - dv) / 10,
                0 <= v,
                0 <= dv <= 9,
        ;
        v = v * 10 + dv;
        i = i + 1;
    }
    assert(d@.take(d.len() as int) =~= d@);
    false
}

} // verus!

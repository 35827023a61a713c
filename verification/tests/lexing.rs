use bomp::err::LexerError;
use bomp::lexer::{tokenize, trim_line, Lexer};
use bomp::token::{Token, TokenKind};

fn lines(src: &str) -> Vec<Vec<char>> {
    src.split_inclusive('\n').map(|l| l.chars().collect()).collect()
}

fn lex_all(src: &str) -> Result<Vec<Token<'static>>, LexerError> {
    let mut l = Lexer::new(lines(src), "t.bf");
    let mut toks = Vec::new();
    while !l.eof() {
        assert!(!l.word_overflow_ahead());
        toks.push(l.next_token()?);
    }
    Ok(toks)
}

fn shape(toks: &[Token]) -> Vec<(TokenKind, usize, usize)> {
    toks.iter().map(|t| (t.kind.clone(), t.row, t.col)).collect()
}

fn ident(s: &str) -> TokenKind {
    TokenKind::Identifier(String::from(s))
}

#[test]
fn lexes_a_global_definition() {
    let toks = lex_all("x = 1 + 23\n").unwrap();
    assert_eq!(
        shape(&toks),
        vec![
            (ident("x"), 1, 1),
            (TokenKind::Eq(), 1, 3),
            (TokenKind::Word(1), 1, 5),
            (TokenKind::Plus(), 1, 7),
            (TokenKind::Word(23), 1, 9),
        ]
    );
    assert!(toks.iter().all(|t| t.file == "t.bf"));
}

#[test]
fn lexes_keyword_fun_and_identifiers() {
    let toks = lex_all("fun f_1 funny").unwrap();
    assert_eq!(
        shape(&toks),
        vec![(TokenKind::Fun(), 1, 1), (ident("f_1"), 1, 5), (ident("funny"), 1, 9)]
    );
}

#[test]
fn reserved_words_are_keywords() {
    let toks = lex_all("in pack word").unwrap();
    assert_eq!(
        shape(&toks),
        vec![(TokenKind::In(), 1, 1), (TokenKind::TPack(), 1, 4), (TokenKind::TWord(), 1, 9)]
    );
    let toks = lex_all("inn packs words Word fun_").unwrap();
    let kinds: Vec<TokenKind> = toks.into_iter().map(|t| t.kind).collect();
    assert_eq!(kinds, vec![ident("inn"), ident("packs"), ident("words"), ident("Word"), ident("fun_")]);
}

#[test]
fn lexes_single_character_operators() {
    let toks = lex_all("+ - & = | ^").unwrap();
    let kinds: Vec<TokenKind> = toks.into_iter().map(|t| t.kind).collect();
    assert_eq!(
        kinds,
        vec![
            TokenKind::Plus(),
            TokenKind::Minus(),
            TokenKind::And(),
            TokenKind::Eq(),
            TokenKind::Or(),
            TokenKind::Xor(),
        ]
    );
}

#[test]
fn lexes_arrow_within_a_line() {
    let toks = lex_all("a->b").unwrap();
    assert_eq!(shape(&toks), vec![(ident("a"), 1, 1), (TokenKind::Arrow(), 1, 2), (ident("b"), 1, 4)]);
}

#[test]
fn arrow_split_over_lines_is_two_tokens() {
    let toks = lex_all("a -\n> b\n").unwrap();
    assert_eq!(
        shape(&toks),
        vec![(ident("a"), 1, 1), (TokenKind::Minus(), 1, 3), (ident(">"), 2, 1), (ident("b"), 2, 3)]
    );
}

#[test]
fn line_breaks_end_tokens() {
    let toks = lex_all("abc\ndef\n").unwrap();
    assert_eq!(shape(&toks), vec![(ident("abc"), 1, 1), (ident("def"), 2, 1)]);
    let toks = lex_all("Cons of 1 | Empty\nstructure pair = 2\n").unwrap();
    let kinds: Vec<TokenKind> = toks.into_iter().map(|t| t.kind).collect();
    assert_eq!(
        kinds,
        vec![
            ident("Cons"),
            ident("of"),
            TokenKind::Word(1),
            TokenKind::Or(),
            ident("Empty"),
            ident("structure"),
            ident("pair"),
            TokenKind::Eq(),
            TokenKind::Word(2),
        ]
    );
    let toks = lex_all("12\n34\n(x\ny)").unwrap();
    let kinds: Vec<TokenKind> = toks.into_iter().map(|t| t.kind).collect();
    assert_eq!(kinds, vec![TokenKind::Word(12), TokenKind::Word(34), ident("(x"), ident("y"), ident(")")]);
}

#[test]
fn comments_and_blank_lines_are_skipped() {
    let toks = lex_all("x = 1 // one\n\n   \n// only a comment\ny = 2\n").unwrap();
    assert_eq!(
        shape(&toks),
        vec![
            (ident("x"), 1, 1),
            (TokenKind::Eq(), 1, 3),
            (TokenKind::Word(1), 1, 5),
            (ident("y"), 5, 1),
            (TokenKind::Eq(), 5, 3),
            (TokenKind::Word(2), 5, 5),
        ]
    );
}

#[test]
fn columns_count_from_the_trimmed_line() {
    let toks = lex_all("    x = 7\n").unwrap();
    assert_eq!(shape(&toks), vec![(ident("x"), 1, 1), (TokenKind::Eq(), 1, 3), (TokenKind::Word(7), 1, 5)]);
}

#[test]
fn comment_cut_counts_bytes_as_characters() {
    // the cut is made at the comment's byte offset, taken as a count of characters
    let toks = lex_all("é = 1 // c\n").unwrap();
    assert_eq!(
        shape(&toks),
        vec![(ident("é"), 1, 1), (TokenKind::Eq(), 1, 3), (TokenKind::Word(1), 1, 5), (ident("/"), 1, 7)]
    );
}

#[test]
fn words_and_mixed_runs() {
    let toks = lex_all("007 1abc (x)").unwrap();
    assert_eq!(
        shape(&toks),
        vec![
            (TokenKind::Word(7), 1, 1),
            (TokenKind::Word(1), 1, 5),
            (ident("abc"), 1, 6),
            (ident("(x)"), 1, 10),
        ]
    );
}

#[test]
fn largest_word_is_lexed() {
    let toks = lex_all("9223372036854775807").unwrap();
    assert_eq!(shape(&toks), vec![(TokenKind::Word(i64::MAX), 1, 1)]);
}

#[test]
fn word_overflow_is_seen_ahead() {
    let l = Lexer::new(lines("  92233720368547758070 x"), "t.bf");
    assert!(l.word_overflow_ahead());
    let l = Lexer::new(lines("  9223372036854775807 x"), "t.bf");
    assert!(!l.word_overflow_ahead());
    let l = Lexer::new(lines("x 99999999999999999999"), "t.bf");
    assert!(!l.word_overflow_ahead());
}

#[test]
fn empty_source_is_at_end() {
    let l = Lexer::new(Vec::new(), "t.bf");
    assert!(l.eof());
    let toks = lex_all("").unwrap();
    assert!(toks.is_empty());
}

#[test]
fn blank_first_line_reads_after_end() {
    let mut l = Lexer::new(lines("\nx = 1\n"), "t.bf");
    assert!(!l.eof());
    assert!(matches!(l.next_token(), Err(LexerError::ReadAfterEnd())));
    assert!(!l.eof());
    // advancing gets past the blank line
    assert!(l.advance());
    let t = l.next_token().unwrap();
    assert_eq!((t.kind, t.row, t.col), (ident("x"), 2, 1));
}

#[test]
fn trailing_comment_line_ends_the_input() {
    let toks = lex_all("x\n// end\n").unwrap();
    assert_eq!(shape(&toks), vec![(ident("x"), 1, 1)]);
}

#[test]
fn advance_reports_the_end() {
    let mut l = Lexer::new(lines("ab"), "t.bf");
    assert!(l.advance());
    assert!(!l.eof());
    assert!(!l.advance());
    assert!(l.eof());
    assert!(l.advance());
    assert!(matches!(l.next_token(), Err(LexerError::ReadAfterEnd())));
}

#[test]
fn trim_line_cuts_comments_and_spaces() {
    let t = |s: &str| -> String { trim_line(&s.chars().collect()).into_iter().collect() };
    assert_eq!(t("  ab // c \n"), "ab");
    assert_eq!(t("\tx = 1\r\n"), "x = 1");
    assert_eq!(t("// all comment\n"), "");
    assert_eq!(t("a/b"), "a/b");
    assert_eq!(t("   "), "");
    assert_eq!(t("é // x"), "é /");
}

#[test]
fn tokenize_takes_all_tokens() {
    let mut l = Lexer::new(lines("fun f (x : word) = x\n  + 1 // done\n"), "t.bf");
    let toks = tokenize(&mut l).unwrap();
    assert_eq!(
        shape(&toks),
        vec![
            (TokenKind::Fun(), 1, 1),
            (ident("f"), 1, 5),
            (ident("(x"), 1, 7),
            (ident(":"), 1, 10),
            (TokenKind::TWord(), 1, 12),
            (ident(")"), 1, 16),
            (TokenKind::Eq(), 1, 18),
            (ident("x"), 1, 20),
            (TokenKind::Plus(), 2, 1),
            (TokenKind::Word(1), 2, 3),
        ]
    );
    assert!(l.eof());
    let mut l = Lexer::new(Vec::new(), "t.bf");
    assert!(tokenize(&mut l).unwrap().is_empty());
}

#[test]
fn tokenize_stops_at_a_word_too_large() {
    let mut l = Lexer::new(lines("x = 1\ny = 99999999999999999999\n"), "t.bf");
    assert!(matches!(tokenize(&mut l), Err(LexerError::WordTooLarge())));
}

#[test]
fn tokenize_of_a_blank_first_line_reads_after_end() {
    let mut l = Lexer::new(lines("\nx = 1\n"), "t.bf");
    assert!(matches!(tokenize(&mut l), Err(LexerError::ReadAfterEnd())));
}

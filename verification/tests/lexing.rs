use clickr_cli::lex::{LexOutcome, Lexer, Token, TokenType};
use clickr_cli::parse::TokenStream;

fn lex_all(src: &str) -> Vec<Token> {
    let mut lexer = Lexer::new(src.as_bytes().to_vec());
    let mut out = Vec::new();
    loop {
        match lexer.next() {
            LexOutcome::Tok(t) => out.push(t),
            LexOutcome::End => break,
            LexOutcome::Error(d) => panic!("unexpected lexical error: {:?}", d.kind),
        }
    }
    out
}

fn stream_kinds(src: &str) -> Vec<TokenType> {
    let mut ts = TokenStream::new(Lexer::new(src.as_bytes().to_vec()));
    let mut out = Vec::new();
    while let Some(t) = ts.next() {
        out.push(t.kind());
    }
    assert!(ts.lex_error.is_none());
    out
}

#[test]
fn keywords_and_identifiers() {
    let toks = lex_all("profile config layer tap hold chord sequence combo run open_app");
    let kinds: Vec<TokenType> = toks.iter().map(|t| t.kind()).collect();
    assert_eq!(
        kinds,
        vec![
            TokenType::Profile,
            TokenType::Config,
            TokenType::Layer,
            TokenType::Tap,
            TokenType::Hold,
            TokenType::Chord,
            TokenType::Sequence,
            TokenType::Combo,
            TokenType::Run,
            TokenType::OpenApp,
        ]
    );
    let toks = lex_all("none capture release wait true false app_focused frobnicate");
    let kinds: Vec<TokenType> = toks.iter().map(|t| t.kind()).collect();
    assert_eq!(
        kinds,
        vec![
            TokenType::NoneKw,
            TokenType::Capture,
            TokenType::Release,
            TokenType::Wait,
            TokenType::True,
            TokenType::False,
            TokenType::AppFocused,
            TokenType::Variable,
        ]
    );
}

#[test]
fn punctuation_literals_and_spans() {
    let toks = lex_all("a = \"hi\" { } ( ) [ ] , ^ _ 42");
    let kinds: Vec<TokenType> = toks.iter().map(|t| t.kind()).collect();
    assert_eq!(
        kinds,
        vec![
            TokenType::Variable,
            TokenType::Equals,
            TokenType::StringLit,
            TokenType::LCurly,
            TokenType::RCurly,
            TokenType::LParen,
            TokenType::RParen,
            TokenType::LSquare,
            TokenType::RSquare,
            TokenType::Comma,
            TokenType::Caret,
            TokenType::Underscore,
            TokenType::IntLit,
        ]
    );
    assert_eq!(toks[0].start(), 0);
    assert_eq!(toks[2].bytes(), &b"\"hi\"".to_vec());
    assert_eq!(toks[12].bytes(), &b"42".to_vec());
}

#[test]
fn comments_are_discarded() {
    let kinds = stream_kinds("a # a comment\nb");
    assert_eq!(kinds, vec![TokenType::Variable, TokenType::Newline, TokenType::Variable]);
}

#[test]
fn unterminated_string_is_fatal() {
    let mut lexer = Lexer::new(b"\"oops\nmore".to_vec());
    match lexer.next() {
        LexOutcome::Error(d) => {
            assert_eq!(d.kind, clickr_cli::diag::DiagKind::UnterminatedString);
            assert_eq!(d.labels[0].span.start(), 0);
        },
        _ => panic!("expected a lexical error"),
    }
}

#[test]
fn invalid_byte_is_fatal() {
    let mut lexer = Lexer::new(vec![b'a', b' ', 0xFF]);
    match lexer.next() {
        LexOutcome::Tok(t) => assert_eq!(t.kind(), TokenType::Variable),
        _ => panic!("expected a token"),
    }
    match lexer.next() {
        LexOutcome::Error(d) => assert_eq!(d.kind, clickr_cli::diag::DiagKind::InvalidCharacter),
        _ => panic!("expected a lexical error"),
    }
}

#[test]
fn relexing_yields_identical_tokens() {
    let src = "profile \"x\"\nconfig {\n}\nlayer \"a\" {\na = b\n}";
    let first = lex_all(src);
    let second = lex_all(src);
    assert_eq!(first.len(), second.len());
    for (a, b) in first.iter().zip(second.iter()) {
        assert_eq!(a.kind(), b.kind());
        assert_eq!(a.start(), b.start());
        assert_eq!(a.bytes(), b.bytes());
    }
}

#[test]
fn blank_lines_collapse_to_one_newline() {
    let one = stream_kinds("a\nb");
    let two = stream_kinds("a\n\nb");
    let many = stream_kinds("a\n\n\n\n\n\n\n\n\n\nb");
    assert_eq!(one, vec![TokenType::Variable, TokenType::Newline, TokenType::Variable]);
    assert_eq!(one, two);
    assert_eq!(one, many);
    for kinds in [one, two, many] {
        for w in kinds.windows(2) {
            assert!(!(w[0] == TokenType::Newline && w[1] == TokenType::Newline));
        }
    }
}

#[test]
fn peeking_does_not_consume() {
    let mut ts = TokenStream::new(Lexer::new(b"a = b".to_vec()));
    assert_eq!(ts.peek_type(), Some(TokenType::Variable));
    assert_eq!(ts.peek_type_at(2), Some(TokenType::Equals));
    assert_eq!(ts.peek_type_at(3), Some(TokenType::Variable));
    assert_eq!(ts.peek_type_at(4), None);
    assert_eq!(ts.next().unwrap().kind(), TokenType::Variable);
    assert_eq!(ts.next().unwrap().kind(), TokenType::Equals);
    assert_eq!(ts.next().unwrap().kind(), TokenType::Variable);
    assert!(ts.next().is_none());
}

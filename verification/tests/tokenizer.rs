use exprsolve::tokenizer::{tokenize, Token, Tokenizer};

fn toks(s: &str) -> Vec<Token> {
    tokenize(s.as_bytes().to_vec())
}

#[test]
fn empty_source_yields_no_tokens() {
    assert_eq!(toks("").len(), 0);
}

#[test]
fn whitespace_only_yields_no_tokens() {
    assert_eq!(toks(" \t\r\n  ").len(), 0);
}

#[test]
fn number_raw_text_is_exact_match() {
    let ts = toks("12.50");
    assert_eq!(ts.len(), 1);
    match &ts[0] {
        Token::Number { pos, raw } => {
            assert_eq!(*pos, 0);
            assert_eq!(raw, b"12.50");
            let v: f64 = std::str::from_utf8(raw).unwrap().parse().unwrap();
            assert_eq!(v, 12.5);
        }
        other => panic!("expected a number token, got {:?}", other),
    }
}

#[test]
fn numeral_match_is_longest() {
    // `12.34` must be one token, not `12`, `.`, `34`.
    let ts = toks("12.34");
    assert_eq!(ts.len(), 1);
    assert!(matches!(&ts[0], Token::Number { pos: 0, raw } if raw == b"12.34"));
}

#[test]
fn trailing_dot_and_bare_fraction_numerals() {
    let ts = toks("1.");
    assert_eq!(ts.len(), 1);
    assert!(matches!(&ts[0], Token::Number { pos: 0, raw } if raw == b"1."));

    let ts = toks(".5");
    assert_eq!(ts.len(), 1);
    assert!(matches!(&ts[0], Token::Number { pos: 0, raw } if raw == b".5"));

    // A lone dot matches no numeral and no operator.
    let ts = toks(".");
    assert_eq!(ts.len(), 1);
    assert!(matches!(&ts[0], Token::InvalidToken { pos: 0, .. }));
}

#[test]
fn adjacent_numerals_split_greedily() {
    let ts = toks("1.2.3");
    assert_eq!(ts.len(), 2);
    assert!(matches!(&ts[0], Token::Number { pos: 0, raw } if raw == b"1.2"));
    assert!(matches!(&ts[1], Token::Number { pos: 3, raw } if raw == b".3"));
}

#[test]
fn positions_are_byte_offsets_of_first_character() {
    let ts = toks(" 12.5 + (3*4)");
    let expect: Vec<(usize, &str)> = vec![
        (1, "number"),
        (6, "+"),
        (8, "("),
        (9, "number"),
        (10, "*"),
        (11, "number"),
        (12, ")"),
    ];
    assert_eq!(ts.len(), expect.len());
    for (t, (pos, kind)) in ts.iter().zip(expect.iter()) {
        let (p, k) = match t {
            Token::Number { pos, .. } => (*pos, "number"),
            Token::AdditionOperator { pos } => (*pos, "+"),
            Token::SubtractionOperator { pos } => (*pos, "-"),
            Token::MultiplicationOperator { pos } => (*pos, "*"),
            Token::DivisionOperator { pos } => (*pos, "/"),
            Token::OpenParenthesis { pos } => (*pos, "("),
            Token::CloseParenthesis { pos } => (*pos, ")"),
            Token::InvalidToken { pos, .. } => (*pos, "invalid"),
        };
        assert_eq!(p, *pos);
        assert_eq!(k, *kind);
    }
}

#[test]
fn invalid_byte_reports_context_window_and_scan_goes_on() {
    let ts = toks("2 $ 3");
    assert_eq!(ts.len(), 3);
    assert!(matches!(&ts[0], Token::Number { pos: 0, .. }));
    match &ts[1] {
        Token::InvalidToken { pos, context } => {
            assert_eq!(*pos, 2);
            assert!(context.contains(&b'$'));
            assert_eq!(context, b"2 $ 3");
        }
        other => panic!("expected an invalid token, got {:?}", other),
    }
    assert!(matches!(&ts[2], Token::Number { pos: 4, raw } if raw == b"3"));
}

#[test]
fn context_window_is_clamped_to_long_sources() {
    let ts = toks("123456789#abcdefghi");
    match &ts[1] {
        Token::InvalidToken { pos, context } => {
            assert_eq!(*pos, 9);
            assert_eq!(context, b"56789#abcde");
        }
        other => panic!("expected an invalid token, got {:?}", other),
    }
}

#[test]
fn pull_interface_ends_with_none_and_stays_there() {
    let mut t = Tokenizer::new(b"1+2".to_vec());
    assert!(matches!(t.next(), Some(Token::Number { pos: 0, .. })));
    assert!(matches!(t.next(), Some(Token::AdditionOperator { pos: 1 })));
    assert!(matches!(t.next(), Some(Token::Number { pos: 2, .. })));
    assert!(t.next().is_none());
    assert!(t.next().is_none());
}

use nebula::parse_atom;
use nebula::parse_source;
use nebula::position_at;
use nebula::skip_stuff;
use nebula::ErrorKind;
use nebula::Token;
use nebula::TokenKind;
use nebula::MAX_DEPTH;

fn atom_parts(t: &Token) -> (usize, TokenKind, &[u8]) {
    match t {
        Token::Atom { position, kind, text } => (position.offset, *kind, text.as_slice()),
        Token::Sexp { .. } => panic!("expected an atom"),
    }
}

fn sexp_parts(t: &Token) -> (usize, &Vec<Token>) {
    match t {
        Token::Sexp { position, children } => (position.offset, children),
        Token::Atom { .. } => panic!("expected a list"),
    }
}

#[test]
fn full_consumption_success() {
    let tokens = parse_source(b"(foo)".as_slice()).unwrap();
    assert_eq!(tokens.len(), 1);
    let (off, children) = sexp_parts(&tokens[0]);
    assert_eq!(off, 0);
    assert_eq!(children.len(), 1);
    let (aoff, kind, text) = atom_parts(&children[0]);
    assert_eq!(aoff, 1);
    assert_eq!(kind, TokenKind::Symbol);
    assert_eq!(text, b"foo");
}

#[test]
fn full_consumption_failure_on_trailing_garbage() {
    let err = parse_source(b"(foo) extra$garbage".as_slice()).unwrap_err();
    assert_eq!(err.kind, ErrorKind::TrailingInput);
    assert_eq!(err.offset, 11);
}

#[test]
fn classification_priority() {
    assert_eq!(parse_atom(b"-5.0".as_slice(), 0), Some((TokenKind::Float, 4)));
    assert_eq!(parse_atom(b"-5".as_slice(), 0), Some((TokenKind::Integer, 2)));
    assert_eq!(parse_atom(b":kw1".as_slice(), 0), Some((TokenKind::Keyword, 4)));
    assert_eq!(parse_atom(b"bar2".as_slice(), 0), Some((TokenKind::Symbol, 4)));
}

#[test]
fn digit_dot_without_fraction_fails() {
    // "5." is no float, and the whole parse must not quietly accept the
    // integer prefix and drop the dot.
    let err = parse_source(b"5.".as_slice()).unwrap_err();
    assert_eq!(err.kind, ErrorKind::TrailingInput);
    assert_eq!(err.offset, 1);
}

#[test]
fn more_classifications() {
    assert_eq!(parse_atom(b".5".as_slice(), 0), Some((TokenKind::Float, 2)));
    assert_eq!(parse_atom(b"-".as_slice(), 0), Some((TokenKind::Symbol, 1)));
    assert_eq!(parse_atom(b":5".as_slice(), 0), Some((TokenKind::Keyword, 2)));
    assert_eq!(parse_atom(b":".as_slice(), 0), None);
    assert_eq!(parse_atom(b"$".as_slice(), 0), None);
    // an integer atom simply ends where the digits end
    assert_eq!(parse_atom(b"123abc".as_slice(), 0), Some((TokenKind::Integer, 3)));
}

#[test]
fn comment_absorption() {
    let tokens = parse_source(b"(foo)\n; a comment\nbar".as_slice()).unwrap();
    assert_eq!(tokens.len(), 2);
    let (_, children) = sexp_parts(&tokens[0]);
    assert_eq!(children.len(), 1);
    let (off, kind, text) = atom_parts(&tokens[1]);
    assert_eq!(off, 18);
    assert_eq!(kind, TokenKind::Symbol);
    assert_eq!(text, b"bar");
}

#[test]
fn comment_with_crlf_terminator() {
    let tokens = parse_source(b"(f) ;x\r\nbar".as_slice()).unwrap();
    assert_eq!(tokens.len(), 2);
    let (off, kind, text) = atom_parts(&tokens[1]);
    assert_eq!(off, 8);
    assert_eq!(kind, TokenKind::Symbol);
    assert_eq!(text, b"bar");
}

#[test]
fn unterminated_comment_is_trailing_input() {
    let err = parse_source(b"foo ;c".as_slice()).unwrap_err();
    assert_eq!(err.kind, ErrorKind::TrailingInput);
    assert_eq!(err.offset, 4);
}

#[test]
fn position_accuracy() {
    let tokens = parse_source(b"  (a b)".as_slice()).unwrap();
    assert_eq!(tokens.len(), 1);
    let (off, children) = sexp_parts(&tokens[0]);
    assert_eq!(off, 2);
    let (aoff, _, text) = atom_parts(&children[0]);
    assert_eq!(aoff, 3);
    assert_eq!(text, b"a");
    match &tokens[0] {
        Token::Sexp { position, .. } => {
            assert_eq!(position.line, 1);
            assert_eq!(position.column, 3);
        },
        _ => panic!("expected a list"),
    }
}

#[test]
fn positions_across_lines() {
    let p = position_at(b"a\nbc\ndef".as_slice(), 5);
    assert_eq!(p.offset, 5);
    assert_eq!(p.line, 3);
    assert_eq!(p.column, 1);
    let q = position_at(b"a\nbc\ndef".as_slice(), 3);
    assert_eq!(q.line, 2);
    assert_eq!(q.column, 2);
}

#[test]
fn nested_structure() {
    let tokens = parse_source(b"(a (b c) d)".as_slice()).unwrap();
    assert_eq!(tokens.len(), 1);
    let (_, children) = sexp_parts(&tokens[0]);
    assert_eq!(children.len(), 3);
    let (_, k0, t0) = atom_parts(&children[0]);
    assert_eq!((k0, t0), (TokenKind::Symbol, b"a".as_slice()));
    let (ioff, inner) = sexp_parts(&children[1]);
    assert_eq!(ioff, 3);
    assert_eq!(inner.len(), 2);
    let (_, _, tb) = atom_parts(&inner[0]);
    let (_, _, tc) = atom_parts(&inner[1]);
    assert_eq!(tb, b"b");
    assert_eq!(tc, b"c");
    let (_, kd, td) = atom_parts(&children[2]);
    assert_eq!((kd, td), (TokenKind::Symbol, b"d".as_slice()));
}

#[test]
fn skipping_is_idempotent() {
    let src = b"  ; c\n x".as_slice();
    let once = skip_stuff(src, 0);
    assert_eq!(once, 7);
    assert_eq!(skip_stuff(src, once), once);
    let plain = b"abc".as_slice();
    assert_eq!(skip_stuff(plain, 0), 0);
    assert_eq!(skip_stuff(plain, skip_stuff(plain, 0)), 0);
}

#[test]
fn unterminated_list() {
    let err = parse_source(b"(foo".as_slice()).unwrap_err();
    assert_eq!(err.kind, ErrorKind::UnterminatedList);
    assert_eq!(err.offset, 0);
    let nested = parse_source(b"(a (b".as_slice()).unwrap_err();
    assert_eq!(nested.kind, ErrorKind::UnterminatedList);
    assert_eq!(nested.offset, 3);
}

#[test]
fn lexical_failure_inside_list() {
    let err = parse_source(b"(a $)".as_slice()).unwrap_err();
    assert_eq!(err.kind, ErrorKind::Lexical);
    assert_eq!(err.offset, 3);
}

#[test]
fn depth_bound() {
    let mut deep: Vec<u8> = Vec::new();
    for _ in 0..MAX_DEPTH + 1 {
        deep.push(b'(');
    }
    deep.push(b'a');
    for _ in 0..MAX_DEPTH + 1 {
        deep.push(b')');
    }
    let err = parse_source(&deep).unwrap_err();
    assert_eq!(err.kind, ErrorKind::DepthExceeded);
    assert_eq!(err.offset, MAX_DEPTH);

    let mut ok: Vec<u8> = Vec::new();
    for _ in 0..MAX_DEPTH {
        ok.push(b'(');
    }
    ok.push(b'a');
    for _ in 0..MAX_DEPTH {
        ok.push(b')');
    }
    assert!(parse_source(&ok).is_ok());
}

#[test]
fn empty_and_whitespace_only_inputs() {
    assert_eq!(parse_source(b"".as_slice()).unwrap().len(), 0);
    assert_eq!(parse_source(b"  \n\t".as_slice()).unwrap().len(), 0);
    assert_eq!(parse_source(b"; only a comment\n".as_slice()).unwrap().len(), 0);
}

#[test]
fn trailing_whitespace_is_insignificant() {
    let tokens = parse_source(b"foo \n".as_slice()).unwrap();
    assert_eq!(tokens.len(), 1);
}

#[test]
fn empty_list() {
    let tokens = parse_source(b"()".as_slice()).unwrap();
    assert_eq!(tokens.len(), 1);
    let (_, children) = sexp_parts(&tokens[0]);
    assert_eq!(children.len(), 0);
}

#[test]
fn list_with_space_before_closer() {
    let tokens = parse_source(b"(a )".as_slice()).unwrap();
    let (_, children) = sexp_parts(&tokens[0]);
    assert_eq!(children.len(), 1);
}

#[test]
fn several_top_level_tokens() {
    let tokens = parse_source(b"(foo 3432 (dag of dags))\n ; blubber\nbar baz :kw".as_slice())
        .unwrap();
    assert_eq!(tokens.len(), 4);
    let (_, children) = sexp_parts(&tokens[0]);
    assert_eq!(children.len(), 3);
    let (_, k1, t1) = atom_parts(&children[1]);
    assert_eq!((k1, t1), (TokenKind::Integer, b"3432".as_slice()));
    let (_, kk, tk) = atom_parts(&tokens[3]);
    assert_eq!((kk, tk), (TokenKind::Keyword, b":kw".as_slice()));
}

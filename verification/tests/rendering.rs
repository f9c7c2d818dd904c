use nebula::kind_name;
use nebula::parse_source;
use nebula::render_compact;
use nebula::render_diagnostic;
use nebula::usize_to_dec;
use nebula::Position;
use nebula::Token;
use nebula::TokenKind;

fn shape_eq(a: &Token, b: &Token) -> bool {
    match (a, b) {
        (
            Token::Atom { kind: k1, text: t1, .. },
            Token::Atom { kind: k2, text: t2, .. },
        ) => k1 == k2 && t1 == t2,
        (Token::Sexp { children: c1, .. }, Token::Sexp { children: c2, .. }) => {
            c1.len() == c2.len() && c1.iter().zip(c2.iter()).all(|(x, y)| shape_eq(x, y))
        },
        _ => false,
    }
}

fn pos(offset: usize, line: usize, column: usize) -> Position {
    Position { offset, line, column }
}

fn atom(kind: TokenKind, text: &[u8]) -> Token {
    Token::Atom { position: pos(0, 1, 1), kind, text: text.to_vec() }
}

#[test]
fn kind_names() {
    assert_eq!(kind_name(TokenKind::Symbol), b"symbol".to_vec());
    assert_eq!(kind_name(TokenKind::Keyword), b"keyword".to_vec());
    assert_eq!(kind_name(TokenKind::Integer), b"int".to_vec());
    assert_eq!(kind_name(TokenKind::Float), b"float".to_vec());
}

#[test]
fn decimal_digits() {
    assert_eq!(usize_to_dec(0), b"0".to_vec());
    assert_eq!(usize_to_dec(7), b"7".to_vec());
    assert_eq!(usize_to_dec(12345), b"12345".to_vec());
    assert_eq!(usize_to_dec(1000), b"1000".to_vec());
}

#[test]
fn compact_form() {
    let tree = Token::Sexp {
        position: pos(0, 1, 1),
        children: vec![
            atom(TokenKind::Symbol, b"a"),
            Token::Sexp {
                position: pos(0, 1, 1),
                children: vec![atom(TokenKind::Symbol, b"b"), atom(TokenKind::Symbol, b"c")],
            },
            atom(TokenKind::Integer, b"-5"),
        ],
    };
    assert_eq!(render_compact(&tree), b"(a (b c) -5)".to_vec());
    let empty = Token::Sexp { position: pos(0, 1, 1), children: vec![] };
    assert_eq!(render_compact(&empty), b"()".to_vec());
    assert_eq!(render_compact(&atom(TokenKind::Float, b"-5.0")), b"-5.0".to_vec());
}

#[test]
fn round_trip_compact() {
    let tree = Token::Sexp {
        position: pos(0, 1, 1),
        children: vec![
            atom(TokenKind::Symbol, b"a"),
            Token::Sexp {
                position: pos(0, 1, 1),
                children: vec![atom(TokenKind::Keyword, b":b"), atom(TokenKind::Float, b".5")],
            },
            atom(TokenKind::Integer, b"-5"),
        ],
    };
    let rendered = render_compact(&tree);
    assert_eq!(rendered, b"(a (:b .5) -5)".to_vec());
    let reparsed = parse_source(&rendered).unwrap();
    assert_eq!(reparsed.len(), 1);
    assert!(shape_eq(&tree, &reparsed[0]));
}

#[test]
fn diagnostic_atom() {
    let tokens = parse_source(b"5".as_slice()).unwrap();
    assert_eq!(render_diagnostic(&tokens[0]), b"1:0 5<int>".to_vec());
}

#[test]
fn diagnostic_sexp() {
    let tokens = parse_source(b"(a)".as_slice()).unwrap();
    assert_eq!(render_diagnostic(&tokens[0]), b"1:0 Sexp\n1:1 a<symbol>\nSexp End".to_vec());
    let empty = parse_source(b"()".as_slice()).unwrap();
    assert_eq!(render_diagnostic(&empty[0]), b"1:0 Sexp\n\nSexp End".to_vec());
}

#[test]
fn diagnostic_uses_line_numbers() {
    let tokens = parse_source(b"\n\nfoo".as_slice()).unwrap();
    assert_eq!(render_diagnostic(&tokens[0]), b"3:2 foo<symbol>".to_vec());
}

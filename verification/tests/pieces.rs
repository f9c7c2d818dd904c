use nebula::parse_comment;
use nebula::parse_float;
use nebula::parse_int;
use nebula::parse_keyword;
use nebula::parse_sexp;
use nebula::parse_symbol;
use nebula::parse_token;
use nebula::skip_stuff;
use nebula::ErrorKind;
use nebula::Token;

#[test]
fn comment_piece() {
    assert_eq!(parse_comment(b"; hi\nx".as_slice(), 0), Some(5));
    assert_eq!(parse_comment(b";a\r\nx".as_slice(), 0), Some(4));
    // a comment must reach a line terminator
    assert_eq!(parse_comment(b"; hi".as_slice(), 0), None);
    // a lone carriage return is no terminator
    assert_eq!(parse_comment(b";a\rx".as_slice(), 0), None);
    assert_eq!(parse_comment(b"x".as_slice(), 0), None);
}

#[test]
fn keyword_piece() {
    assert_eq!(parse_keyword(b":ab-".as_slice(), 0), Some(3));
    assert_eq!(parse_keyword(b":".as_slice(), 0), None);
    assert_eq!(parse_keyword(b"ab".as_slice(), 0), None);
}

#[test]
fn float_piece() {
    assert_eq!(parse_float(b"-12.5x".as_slice(), 0), Some(5));
    assert_eq!(parse_float(b".5".as_slice(), 0), Some(2));
    assert_eq!(parse_float(b"12".as_slice(), 0), None);
    assert_eq!(parse_float(b"5.".as_slice(), 0), None);
}

#[test]
fn int_piece() {
    assert_eq!(parse_int(b"-12.".as_slice(), 0), Some(3));
    assert_eq!(parse_int(b"7".as_slice(), 0), Some(1));
    assert_eq!(parse_int(b"-".as_slice(), 0), None);
    assert_eq!(parse_int(b"x1".as_slice(), 0), None);
}

#[test]
fn symbol_piece() {
    assert_eq!(parse_symbol(b"a*<b ".as_slice(), 0), Some(4));
    assert_eq!(parse_symbol(b"(".as_slice(), 0), None);
}

#[test]
fn skip_piece() {
    assert_eq!(skip_stuff(b";a\n;b\n x".as_slice(), 0), 7);
    assert_eq!(skip_stuff(b"x  y".as_slice(), 1), 3);
    // an unterminated comment is not skipped
    assert_eq!(skip_stuff(b"  ;a".as_slice(), 0), 2);
}

#[test]
fn token_piece() {
    let (t, end) = parse_token(b"(a) b".as_slice(), 0, 64).unwrap();
    assert_eq!(end, 3);
    assert!(matches!(t, Token::Sexp { .. }));
    // the token parser expects significant input at the cursor
    let err = parse_token(b" a".as_slice(), 0, 64).unwrap_err();
    assert_eq!(err.kind, ErrorKind::Lexical);
    assert_eq!(err.offset, 0);
}

#[test]
fn sexp_piece() {
    let (children, end) = parse_sexp(b"(a b)".as_slice(), 0, 63).unwrap();
    assert_eq!(children.len(), 2);
    assert_eq!(end, 5);
    let err = parse_sexp(b"(a".as_slice(), 0, 63).unwrap_err();
    assert_eq!(err.kind, ErrorKind::UnterminatedList);
    assert_eq!(err.offset, 0);
}

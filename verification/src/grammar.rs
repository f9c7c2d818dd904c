use crate::token::ErrorKind;
use crate::token::GErr;
use crate::token::GPos;
use crate::token::GToken;
use crate::token::TokenKind;
use vstd::prelude::*;

verus! {

// ---------------------------------------------------------------------------
// Byte classes
// ---------------------------------------------------------------------------

/// `(`
pub const OPEN_PAREN: u8 = 40;

/// `)`
pub const CLOSE_PAREN: u8 = 41;

/// `;`, the comment marker
pub const SEMICOLON: u8 = 59;

/// `:`, the keyword prefix
pub const COLON: u8 = 58;

/// `-`
pub const MINUS: u8 = 45;

/// `.`
pub const DOT: u8 = 46;

pub const LINE_FEED: u8 = 10;

pub const CARRIAGE_RETURN: u8 = 13;

/// Whitespace bytes: space, tab, line feed, carriage return.
pub open spec fn is_space(c: u8) -> bool {
    c == 32 || c == 9 || c == 10 || c == 13
}

/// ASCII decimal digit.
pub open spec fn is_digit(c: u8) -> bool {
    48 <= c && c <= 57
}

/// ASCII letter.
pub open spec fn is_alpha(c: u8) -> bool {
    (65 <= c && c <= 90) || (97 <= c && c <= 122)
}

/// ASCII letter or digit.
pub open spec fn is_alnum(c: u8) -> bool {
    is_alpha(c) || is_digit(c)
}

/// A byte a symbol may be made of: letters, digits, and `*+!-_'?<>=`.
pub open spec fn is_symbol_byte(c: u8) -> bool {
    is_alnum(c) || c == 42 || c == 43 || c == 33 || c == MINUS || c == 95 || c == 39
        || c == 63 || c == 60 || c == 62 || c == 61
}

// ---------------------------------------------------------------------------
// Runs of a byte class
// ---------------------------------------------------------------------------

/// First index at or after `i` that does not hold a digit.
pub open spec fn digit_run_end(s: Seq<u8>, i: int) -> int
    decreases s.len() - i,
{
    if 0 <= i < s.len() && is_digit(s[i]) {
        digit_run_end(s, i + 1)
    } else {
        i
    }
}

/// First index at or after `i` that does not hold a letter or digit.
pub open spec fn alnum_run_end(s: Seq<u8>, i: int) -> int
    decreases s.len() - i,
{
    if 0 <= i < s.len() && is_alnum(s[i]) {
        alnum_run_end(s, i + 1)
    } else {
        i
    }
}

/// First index at or after `i` that does not hold a symbol byte.
pub open spec fn symbol_run_end(s: Seq<u8>, i: int) -> int
    decreases s.len() - i,
{
    if 0 <= i < s.len() && is_symbol_byte(s[i]) {
        symbol_run_end(s, i + 1)
    } else {
        i
    }
}

pub proof fn lemma_digit_run_end(s: Seq<u8>, i: int)
    requires
        0 <= i <= s.len(),
    ensures
        i <= digit_run_end(s, i) <= s.len(),
        forall|j: int| i <= j < digit_run_end(s, i) ==> is_digit(s[j]),
        digit_run_end(s, i) < s.len() ==> !is_digit(s[digit_run_end(s, i)]),
    decreases s.len() - i,
{
    if i < s.len() && is_digit(s[i]) {
        lemma_digit_run_end(s, i + 1);
    }
}

pub proof fn lemma_alnum_run_end(s: Seq<u8>, i: int)
    requires
        0 <= i <= s.len(),
    ensures
        i <= alnum_run_end(s, i) <= s.len(),
        forall|j: int| i <= j < alnum_run_end(s, i) ==> is_alnum(s[j]),
        alnum_run_end(s, i) < s.len() ==> !is_alnum(s[alnum_run_end(s, i)]),
    decreases s.len() - i,
{
    if i < s.len() && is_alnum(s[i]) {
        lemma_alnum_run_end(s, i + 1);
    }
}

pub proof fn lemma_symbol_run_end(s: Seq<u8>, i: int)
    requires
        0 <= i <= s.len(),
    ensures
        i <= symbol_run_end(s, i) <= s.len(),
        forall|j: int| i <= j < symbol_run_end(s, i) ==> is_symbol_byte(s[j]),
        symbol_run_end(s, i) < s.len() ==> !is_symbol_byte(s[symbol_run_end(s, i)]),
    decreases s.len() - i,
{
    if i < s.len() && is_symbol_byte(s[i]) {
        lemma_symbol_run_end(s, i + 1);
    }
}

// ---------------------------------------------------------------------------
// Comments and insignificant input
// ---------------------------------------------------------------------------

/// Index just past the next line terminator at or after `i`: a line feed,
/// or a carriage return followed by a line feed. `None` if the rest of the
/// input holds no complete terminator.
pub open spec fn line_term_end(s: Seq<u8>, i: int) -> Option<int>
    decreases s.len() - i,
{
    if 0 <= i < s.len() {
        if s[i] == LINE_FEED {
            Some(i + 1)
        } else if s[i] == CARRIAGE_RETURN {
            if i + 1 < s.len() && s[i + 1] == LINE_FEED {
                Some(i + 2)
            } else {
                None
            }
        } else {
            line_term_end(s, i + 1)
        }
    } else {
        None
    }
}

/// Index just past a line comment that starts at `pos`: a `;`, the rest of
/// the line, and the line terminator, which the comment consumes. `None`
/// if `pos` does not start a terminated comment.
pub open spec fn comment_end(s: Seq<u8>, pos: int) -> Option<int> {
    if 0 <= pos < s.len() && s[pos] == SEMICOLON {
        line_term_end(s, pos + 1)
    } else {
        None
    }
}

pub proof fn lemma_line_term_end(s: Seq<u8>, i: int)
    requires
        0 <= i <= s.len(),
    ensures
        line_term_end(s, i) matches Some(e) ==> i < e <= s.len(),
    decreases s.len() - i,
{
    if i < s.len() && s[i] != LINE_FEED && s[i] != CARRIAGE_RETURN {
        lemma_line_term_end(s, i + 1);
    }
}

pub proof fn lemma_comment_end(s: Seq<u8>, pos: int)
    requires
        0 <= pos <= s.len(),
    ensures
        comment_end(s, pos) matches Some(e) ==> pos < e <= s.len(),
{
    if 0 <= pos < s.len() && s[pos] == SEMICOLON {
        lemma_line_term_end(s, pos + 1);
    }
}

/// The cursor after skipping insignificant input: any run of whitespace
/// and of complete line comments.
pub open spec fn skip_end(s: Seq<u8>, pos: int) -> int
    decreases s.len() - pos,
{
    if 0 <= pos < s.len() {
        if is_space(s[pos]) {
            skip_end(s, pos + 1)
        } else {
            match comment_end(s, pos) {
                Some(e) => if pos < e <= s.len() {
                    skip_end(s, e)
                } else {
                    pos
                },
                None => pos,
            }
        }
    } else {
        pos
    }
}

pub proof fn lemma_skip_end(s: Seq<u8>, pos: int)
    requires
        0 <= pos <= s.len(),
    ensures
        pos <= skip_end(s, pos) <= s.len(),
        skip_end(s, pos) < s.len() ==> !is_space(s[skip_end(s, pos)]),
        comment_end(s, skip_end(s, pos)) is None,
    decreases s.len() - pos,
{
    if 0 <= pos < s.len() {
        if is_space(s[pos]) {
            lemma_skip_end(s, pos + 1);
        } else {
            lemma_comment_end(s, pos);
            match comment_end(s, pos) {
                Some(e) => {
                    lemma_skip_end(s, e);
                },
                None => {},
            }
        }
    }
}

/// Law: skipping insignificant input is idempotent. Applying the skipper
/// a second time from the cursor the first application returned moves the
/// cursor nowhere.
pub proof fn lemma_skip_idempotent(s: Seq<u8>, pos: int)
    requires
        0 <= pos <= s.len(),
    ensures
        skip_end(s, skip_end(s, pos)) == skip_end(s, pos),
{
    lemma_skip_end(s, pos);
}

// ---------------------------------------------------------------------------
// Atom classification
// ---------------------------------------------------------------------------

/// End of a keyword at `pos`: a `:` followed by one or more letters or
/// digits.
pub open spec fn keyword_end(s: Seq<u8>, pos: int) -> Option<int> {
    if 0 <= pos < s.len() && s[pos] == COLON {
        let e = alnum_run_end(s, pos + 1);
        if e > pos + 1 {
            Some(e)
        } else {
            None
        }
    } else {
        None
    }
}

/// End of a float at `pos`: an optional minus, zero or more digits, a dot,
/// and one or more digits.
pub open spec fn float_end(s: Seq<u8>, pos: int) -> Option<int> {
    let p1 = if 0 <= pos < s.len() && s[pos] == MINUS {
        pos + 1
    } else {
        pos
    };
    let p2 = digit_run_end(s, p1);
    if 0 <= p2 < s.len() && s[p2] == DOT {
        let p3 = digit_run_end(s, p2 + 1);
        if p3 > p2 + 1 {
            Some(p3)
        } else {
            None
        }
    } else {
        None
    }
}

/// End of an integer at `pos`: an optional minus and one or more digits.
pub open spec fn int_end(s: Seq<u8>, pos: int) -> Option<int> {
    let p1 = if 0 <= pos < s.len() && s[pos] == MINUS {
        pos + 1
    } else {
        pos
    };
    let p2 = digit_run_end(s, p1);
    if p2 > p1 {
        Some(p2)
    } else {
        None
    }
}

/// End of a symbol at `pos`: one or more symbol bytes.
pub open spec fn symbol_end(s: Seq<u8>, pos: int) -> Option<int> {
    let e = symbol_run_end(s, pos);
    if e > pos {
        Some(e)
    } else {
        None
    }
}

/// Atom classification: the rules are tried in the fixed priority order
/// keyword, float, integer, symbol, and the first match is committed to.
pub open spec fn atom_end(s: Seq<u8>, pos: int) -> Option<(TokenKind, int)> {
    match keyword_end(s, pos) {
        Some(e) => Some((TokenKind::Keyword, e)),
        None => match float_end(s, pos) {
            Some(e) => Some((TokenKind::Float, e)),
            None => match int_end(s, pos) {
                Some(e) => Some((TokenKind::Integer, e)),
                None => match symbol_end(s, pos) {
                    Some(e) => Some((TokenKind::Symbol, e)),
                    None => None,
                },
            },
        },
    }
}

pub proof fn lemma_atom_end(s: Seq<u8>, pos: int)
    requires
        0 <= pos <= s.len(),
    ensures
        atom_end(s, pos) matches Some((kind, e)) ==> pos < e <= s.len(),
{
    lemma_alnum_run_end(s, if pos < s.len() { pos + 1 } else { pos });
    lemma_digit_run_end(s, pos);
    if 0 <= pos < s.len() && s[pos] == MINUS {
        lemma_digit_run_end(s, pos + 1);
    }
    let p2 = digit_run_end(s, if 0 <= pos < s.len() && s[pos] == MINUS { pos + 1 } else { pos });
    if 0 <= p2 < s.len() && s[p2] == DOT {
        lemma_digit_run_end(s, p2 + 1);
    }
    lemma_symbol_run_end(s, pos);
}

// ---------------------------------------------------------------------------
// Where a run is known byte by byte, its end is known
// ---------------------------------------------------------------------------

pub proof fn lemma_digit_run_interval(s: Seq<u8>, i: int, e: int)
    requires
        0 <= i <= e <= s.len(),
        forall|j: int| i <= j < e ==> is_digit(s[j]),
        e == s.len() || !is_digit(s[e]),
    ensures
        digit_run_end(s, i) == e,
    decreases e - i,
{
    if i < e {
        lemma_digit_run_interval(s, i + 1, e);
    }
}

pub proof fn lemma_alnum_run_interval(s: Seq<u8>, i: int, e: int)
    requires
        0 <= i <= e <= s.len(),
        forall|j: int| i <= j < e ==> is_alnum(s[j]),
        e == s.len() || !is_alnum(s[e]),
    ensures
        alnum_run_end(s, i) == e,
    decreases e - i,
{
    if i < e {
        lemma_alnum_run_interval(s, i + 1, e);
    }
}

pub proof fn lemma_symbol_run_interval(s: Seq<u8>, i: int, e: int)
    requires
        0 <= i <= e <= s.len(),
        forall|j: int| i <= j < e ==> is_symbol_byte(s[j]),
        e == s.len() || !is_symbol_byte(s[e]),
    ensures
        symbol_run_end(s, i) == e,
    decreases e - i,
{
    if i < e {
        lemma_symbol_run_interval(s, i + 1, e);
    }
}

// ---------------------------------------------------------------------------
// Atoms stand alone: classification only reads up to the next delimiter
// ---------------------------------------------------------------------------

/// A byte that can start an atom.
pub open spec fn is_atom_start(c: u8) -> bool {
    c == COLON || c == MINUS || c == DOT || is_digit(c) || is_symbol_byte(c)
}

/// A classified atom starts with one of the atom start bytes.
pub proof fn lemma_atom_end_start(text: Seq<u8>)
    requires
        atom_end(text, 0) is Some,
    ensures
        text.len() > 0,
        is_atom_start(text[0]),
{
    lemma_atom_end(text, 0);
    lemma_symbol_run_end(text, 0);
}

/// A slice that classifies as a whole atom classifies the same way inside
/// a larger buffer, provided what follows it is a space, a closing
/// delimiter, or the end of the buffer.
pub proof fn lemma_atom_localize(s: Seq<u8>, pos: int, text: Seq<u8>, kind: TokenKind)
    requires
        0 <= pos,
        pos + text.len() <= s.len(),
        s.subrange(pos, pos + text.len()) == text,
        atom_end(text, 0) == Some((kind, text.len() as int)),
        pos + text.len() == s.len() || s[pos + text.len()] == 32 || s[pos + text.len()]
            == CLOSE_PAREN,
    ensures
        atom_end(s, pos) == Some((kind, pos + text.len())),
{
    let ln = text.len() as int;
    lemma_atom_end(text, 0);
    assert forall|j: int| 0 <= j < ln implies s[pos + j] == text[j] by {
        assert(text[j] == s.subrange(pos, pos + ln)[j]);
    }
    if keyword_end(text, 0) is Some {
        lemma_alnum_run_end(text, 1);
        assert forall|j: int| pos + 1 <= j < pos + ln implies is_alnum(s[j]) by {
            assert(s[j] == text[j - pos]);
        }
        lemma_alnum_run_interval(s, pos + 1, pos + ln);
    } else {
        if text[0] == COLON {
            // No other rule can match a leading `:`, so the atom could not
            // have classified at all.
            assert(float_end(text, 0) is None);
            assert(int_end(text, 0) is None);
            assert(symbol_end(text, 0) is None);
            assert(false);
        }
        assert(keyword_end(s, pos) is None);
        let p1 = if text[0] == MINUS {
            1int
        } else {
            0int
        };
        let p2 = digit_run_end(text, p1);
        lemma_digit_run_end(text, p1);
        assert forall|j: int| pos + p1 <= j < pos + p2 implies is_digit(s[j]) by {
            assert(s[j] == text[j - pos]);
        }
        if p2 < ln {
            assert(s[pos + p2] == text[p2]);
        }
        lemma_digit_run_interval(s, pos + p1, pos + p2);
        if float_end(text, 0) is Some {
            assert(p2 < ln && text[p2] == DOT);
            lemma_digit_run_end(text, p2 + 1);
            assert(digit_run_end(text, p2 + 1) == ln);
            assert forall|j: int| pos + p2 + 1 <= j < pos + ln implies is_digit(s[j]) by {
                assert(s[j] == text[j - pos]);
            }
            lemma_digit_run_interval(s, pos + p2 + 1, pos + ln);
            assert(float_end(s, pos) == Some(pos + ln));
        } else {
            // The float rule fails inside `s` for the same reason it fails
            // on the slice alone.
            if p2 < ln && text[p2] == DOT {
                lemma_digit_run_end(text, p2 + 1);
                assert(digit_run_end(text, p2 + 1) == p2 + 1);
                if p2 + 1 < ln {
                    assert(s[pos + p2 + 1] == text[p2 + 1]);
                }
                lemma_digit_run_interval(s, pos + p2 + 1, pos + p2 + 1);
                assert(float_end(s, pos) is None);
            } else {
                assert(float_end(s, pos) is None);
            }
            if int_end(text, 0) is Some {
                assert(p2 == ln && p2 > p1);
                assert(int_end(s, pos) == Some(pos + ln));
            } else {
                assert(p2 == p1);
                assert(int_end(s, pos) is None);
                assert(symbol_end(text, 0) == Some(ln));
                lemma_symbol_run_end(text, 0);
                assert forall|j: int| pos <= j < pos + ln implies is_symbol_byte(s[j]) by {
                    assert(s[j] == text[j - pos]);
                }
                lemma_symbol_run_interval(s, pos, pos + ln);
                assert(symbol_end(s, pos) == Some(pos + ln));
            }
        }
    }
}

/// The matched slice of a classified atom classifies the same way standing
/// alone, and in whole: cutting the atom out of its buffer loses nothing.
pub proof fn lemma_atom_standalone(s: Seq<u8>, pos: int)
    requires
        0 <= pos <= s.len(),
        atom_end(s, pos) is Some,
    ensures
        atom_end(s, pos) matches Some((kind, e)) ==> atom_end(s.subrange(pos, e), 0) == Some(
            (kind, e - pos),
        ),
{
    let (kind, e) = atom_end(s, pos)->Some_0;
    lemma_atom_end(s, pos);
    let text = s.subrange(pos, e);
    let ln = e - pos;
    assert forall|j: int| 0 <= j < ln implies text[j] == s[pos + j] by {}
    if keyword_end(s, pos) is Some {
        lemma_alnum_run_end(s, pos + 1);
        assert forall|j: int| 1 <= j < ln implies is_alnum(text[j]) by {
            assert(text[j] == s[pos + j]);
        }
        lemma_alnum_run_interval(text, 1, ln);
        assert(keyword_end(text, 0) == Some(ln));
    } else {
        if s[pos] == COLON {
            assert(float_end(s, pos) is None);
            assert(int_end(s, pos) is None);
            assert(symbol_end(s, pos) is None);
            assert(false);
        }
        assert(text[0] != COLON);
        let p1 = if s[pos] == MINUS {
            1int
        } else {
            0int
        };
        let p2 = digit_run_end(s, pos + p1);
        lemma_digit_run_end(s, pos + p1);
        if float_end(s, pos) is Some {
            assert(p2 < s.len() && s[p2] == DOT);
            lemma_digit_run_end(s, p2 + 1);
            assert(digit_run_end(s, p2 + 1) == e);
            assert(pos + p1 <= p2 && p2 + 1 < e);
            assert forall|j: int| p1 <= j < p2 - pos implies is_digit(text[j]) by {
                assert(text[j] == s[pos + j]);
            }
            assert(text[p2 - pos] == s[p2]);
            lemma_digit_run_interval(text, p1, p2 - pos);
            assert forall|j: int| p2 - pos + 1 <= j < ln implies is_digit(text[j]) by {
                assert(text[j] == s[pos + j]);
            }
            lemma_digit_run_interval(text, p2 - pos + 1, ln);
            assert(float_end(text, 0) == Some(ln));
        } else if int_end(s, pos) is Some {
            assert(e == p2 && p2 > pos + p1);
            assert forall|j: int| p1 <= j < ln implies is_digit(text[j]) by {
                assert(text[j] == s[pos + j]);
            }
            lemma_digit_run_interval(text, p1, ln);
            // with the digits running to the end of the slice, no dot can
            // follow them, so the float rule cannot fire
            assert(float_end(text, 0) is None);
            assert(int_end(text, 0) == Some(ln));
        } else {
            assert(symbol_end(s, pos) == Some(e));
            lemma_symbol_run_end(s, pos);
            assert(p2 == pos + p1);
            assert forall|j: int| 0 <= j < ln implies is_symbol_byte(text[j]) by {
                assert(text[j] == s[pos + j]);
            }
            if p1 < ln {
                assert(text[p1] == s[pos + p1]);
                assert(!is_digit(text[p1]));
                assert(text[p1] != DOT);
            }
            lemma_digit_run_interval(text, p1, p1);
            assert(float_end(text, 0) is None);
            assert(int_end(text, 0) is None);
            lemma_symbol_run_interval(text, 0, ln);
            assert(symbol_end(text, 0) == Some(ln));
        }
    }
}

// ---------------------------------------------------------------------------
// Positions
// ---------------------------------------------------------------------------

/// Number of line feeds among the first `n` bytes.
pub open spec fn newline_count(s: Seq<u8>, n: int) -> int
    decreases n,
{
    if n <= 0 {
        0
    } else {
        newline_count(s, n - 1) + if s[n - 1] == LINE_FEED {
            1int
        } else {
            0int
        }
    }
}

/// Offset of the first byte of the line that byte `n` stands on.
pub open spec fn line_start(s: Seq<u8>, n: int) -> int
    decreases n,
{
    if n <= 0 {
        0
    } else if s[n - 1] == LINE_FEED {
        n
    } else {
        line_start(s, n - 1)
    }
}

/// The position triple at byte offset `n`: line and column counted from one.
pub open spec fn pos_at(s: Seq<u8>, n: int) -> GPos {
    GPos { offset: n, line: 1 + newline_count(s, n), column: n - line_start(s, n) + 1 }
}

pub proof fn lemma_pos_at_bounds(s: Seq<u8>, n: int)
    requires
        0 <= n,
    ensures
        0 <= newline_count(s, n) <= n,
        0 <= line_start(s, n) <= n,
    decreases n,
{
    if n > 0 {
        lemma_pos_at_bounds(s, n - 1);
    }
}

// ---------------------------------------------------------------------------
// The grammar: tokens, lists, and the top-level driver
// ---------------------------------------------------------------------------

/// Bound on list nesting, so that recursion depth stays bounded on
/// adversarial input.
pub const MAX_DEPTH: usize = 64;

/// One token at `pos` (the cursor must already stand on significant input):
/// a parenthesized list if the byte is `(`, else an atom. `depth` is how
/// many more levels of nesting are allowed to open.
pub open spec fn parse_token_spec(s: Seq<u8>, pos: int, depth: int) -> Result<
    (GToken, int),
    GErr,
>
    decreases s.len() - pos, 0int,
{
    if !(0 <= pos < s.len()) {
        Err(GErr { kind: ErrorKind::Lexical, offset: pos })
    } else if s[pos] == OPEN_PAREN {
        if depth <= 0 {
            Err(GErr { kind: ErrorKind::DepthExceeded, offset: pos })
        } else {
            match parse_list_spec(s, pos + 1, pos, depth - 1) {
                Ok((children, end)) => Ok(
                    (GToken::Sexp { position: pos_at(s, pos), children }, end),
                ),
                Err(e) => Err(e),
            }
        }
    } else {
        match atom_end(s, pos) {
            Some((kind, end)) => Ok(
                (
                    GToken::Atom { position: pos_at(s, pos), kind, text: s.subrange(pos, end) },
                    end,
                ),
            ),
            None => Err(GErr { kind: ErrorKind::Lexical, offset: pos }),
        }
    }
}

/// The members of a list and the cursor past its closing delimiter, parsing
/// from `pos` inside a list whose `(` stands at `open`: repeatedly skip
/// insignificant input and parse a token, until the `)` is found, which is
/// also consumed. Running out of input is an unterminated-list failure,
/// reported at the opening delimiter.
///
/// The two bound checks in the body only discharge the termination measure;
/// `lemma_skip_end` and `lemma_parse_token_progress` show they always hold,
/// so their failure arms are never taken.
pub open spec fn parse_list_spec(s: Seq<u8>, pos: int, open: int, depth: int) -> Result<
    (Seq<GToken>, int),
    GErr,
>
    decreases s.len() - pos, 1int,
{
    let p = skip_end(s, pos);
    if !(pos <= p <= s.len()) {
        Err(GErr { kind: ErrorKind::Lexical, offset: pos })
    } else if p >= s.len() {
        Err(GErr { kind: ErrorKind::UnterminatedList, offset: open })
    } else if s[p] == CLOSE_PAREN {
        Ok((Seq::empty(), p + 1))
    } else {
        match parse_token_spec(s, p, depth) {
            Ok((t, e)) => if p < e <= s.len() {
                match parse_list_spec(s, e, open, depth) {
                    Ok((rest, end)) => Ok((seq![t] + rest, end)),
                    Err(err) => Err(err),
                }
            } else {
                Err(GErr { kind: ErrorKind::Lexical, offset: p })
            },
            Err(err) => Err(err),
        }
    }
}

/// The top-level driver from `pos`: repeatedly skip insignificant input and
/// parse one token until the buffer is exhausted. A lexical failure right
/// at the top level means non-insignificant bytes remain that no token
/// accounts for: trailing input. A failure inside a token (an unterminated
/// or too deeply nested list, a bad byte inside a list) keeps its own kind
/// and offset. As in `parse_list_spec`, the bound checks only discharge the
/// termination measure.
pub open spec fn parse_source_spec_at(s: Seq<u8>, pos: int) -> Result<Seq<GToken>, GErr>
    decreases s.len() - pos,
{
    let p = skip_end(s, pos);
    if !(pos <= p <= s.len()) {
        Err(GErr { kind: ErrorKind::Lexical, offset: pos })
    } else if p >= s.len() {
        Ok(Seq::empty())
    } else {
        match parse_token_spec(s, p, MAX_DEPTH as int) {
            Ok((t, e)) => if p < e <= s.len() {
                match parse_source_spec_at(s, e) {
                    Ok(rest) => Ok(seq![t] + rest),
                    Err(err) => Err(err),
                }
            } else {
                Err(GErr { kind: ErrorKind::Lexical, offset: p })
            },
            Err(err) => if err.kind == ErrorKind::Lexical && err.offset == p {
                Err(GErr { kind: ErrorKind::TrailingInput, offset: p })
            } else {
                Err(err)
            },
        }
    }
}

/// The whole parse: all-or-nothing over the full buffer.
pub open spec fn parse_source_spec(s: Seq<u8>) -> Result<Seq<GToken>, GErr> {
    parse_source_spec_at(s, 0)
}

// ---------------------------------------------------------------------------
// Progress: a token always consumes at least one byte
// ---------------------------------------------------------------------------

pub proof fn lemma_parse_token_progress(s: Seq<u8>, pos: int, depth: int)
    requires
        0 <= pos <= s.len(),
    ensures
        parse_token_spec(s, pos, depth) matches Ok((t, e)) ==> pos < e <= s.len(),
    decreases s.len() - pos, 0int,
{
    if 0 <= pos < s.len() {
        if s[pos] == OPEN_PAREN {
            if depth > 0 {
                lemma_parse_list_progress(s, pos + 1, pos, depth - 1);
            }
        } else {
            lemma_atom_end(s, pos);
        }
    }
}

pub proof fn lemma_parse_list_progress(s: Seq<u8>, pos: int, open: int, depth: int)
    requires
        0 <= pos <= s.len(),
    ensures
        parse_list_spec(s, pos, open, depth) matches Ok((ts, e)) ==> pos < e <= s.len(),
    decreases s.len() - pos, 1int,
{
    lemma_skip_end(s, pos);
    let p = skip_end(s, pos);
    if p < s.len() && s[p] != CLOSE_PAREN {
        lemma_parse_token_progress(s, p, depth);
        match parse_token_spec(s, p, depth) {
            Ok((t, e)) => {
                lemma_parse_list_progress(s, e, open, depth);
            },
            Err(_) => {},
        }
    }
}

} // verus!

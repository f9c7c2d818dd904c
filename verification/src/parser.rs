use crate::grammar::alnum_run_end;
use crate::grammar::atom_end;
use crate::grammar::comment_end;
use crate::grammar::CARRIAGE_RETURN;
use crate::grammar::CLOSE_PAREN;
use crate::grammar::COLON;
use crate::grammar::DOT;
use crate::grammar::LINE_FEED;
use crate::grammar::MINUS;
use crate::grammar::OPEN_PAREN;
use crate::grammar::SEMICOLON;
use crate::grammar::digit_run_end;
use crate::grammar::float_end;
use crate::grammar::int_end;
use crate::grammar::is_alnum;
use crate::grammar::is_digit;
use crate::grammar::is_space;
use crate::grammar::is_symbol_byte;
use crate::grammar::keyword_end;
use crate::grammar::lemma_comment_end;
use crate::grammar::lemma_parse_token_progress;
use crate::grammar::lemma_pos_at_bounds;
use crate::grammar::line_start;
use crate::grammar::line_term_end;
use crate::grammar::newline_count;
use crate::grammar::parse_list_spec;
use crate::grammar::parse_source_spec;
use crate::grammar::parse_source_spec_at;
use crate::grammar::parse_token_spec;
use crate::grammar::pos_at;
use crate::grammar::skip_end;
use crate::grammar::symbol_end;
use crate::grammar::symbol_run_end;
use crate::grammar::MAX_DEPTH;
use crate::token::views_of;
use crate::token::ErrorKind;
use crate::token::GErr;
use crate::token::GToken;
use crate::token::ParseError;
use crate::token::Position;
use crate::token::Token;
use crate::token::TokenKind;
use vstd::prelude::*;

verus! {

// ---------------------------------------------------------------------------
// Byte classes
// ---------------------------------------------------------------------------

fn space_byte(c: u8) -> (r: bool)
    ensures
        r == is_space(c),
{
    c == 32 || c == 9 || c == 10 || c == 13
}

fn digit_byte(c: u8) -> (r: bool)
    ensures
        r == is_digit(c),
{
    48 <= c && c <= 57
}

fn alnum_byte(c: u8) -> (r: bool)
    ensures
        r == is_alnum(c),
{
    (65 <= c && c <= 90) || (97 <= c && c <= 122) || (48 <= c && c <= 57)
}

fn symbol_byte(c: u8) -> (r: bool)
    ensures
        r == is_symbol_byte(c),
{
    alnum_byte(c) || c == 42 || c == 43 || c == 33 || c == MINUS || c == 95 || c == 39
        || c == 63 || c == 60 || c == 62 || c == 61
}

// ---------------------------------------------------------------------------
// Runs of a byte class
// ---------------------------------------------------------------------------

fn digit_run(s: &[u8], pos: usize) -> (r: usize)
    requires
        pos <= s@.len(),
    ensures
        r == digit_run_end(s@, pos as int),
        pos <= r <= s@.len(),
{
    let mut i = pos;
    loop
        invariant
            pos <= i <= s@.len(),
            digit_run_end(s@, pos as int) == digit_run_end(s@, i as int),
        decreases s@.len() - i,
    {
        if i < s.len() && digit_byte(s[i]) {
            i = i + 1;
        } else {
            return i;
        }
    }
}

fn alnum_run(s: &[u8], pos: usize) -> (r: usize)
    requires
        pos <= s@.len(),
    ensures
        r == alnum_run_end(s@, pos as int),
        pos <= r <= s@.len(),
{
    let mut i = pos;
    loop
        invariant
            pos <= i <= s@.len(),
            alnum_run_end(s@, pos as int) == alnum_run_end(s@, i as int),
        decreases s@.len() - i,
    {
        if i < s.len() && alnum_byte(s[i]) {
            i = i + 1;
        } else {
            return i;
        }
    }
}

fn symbol_run(s: &[u8], pos: usize) -> (r: usize)
    requires
        pos <= s@.len(),
    ensures
        r == symbol_run_end(s@, pos as int),
        pos <= r <= s@.len(),
{
    let mut i = pos;
    loop
        invariant
            pos <= i <= s@.len(),
            symbol_run_end(s@, pos as int) == symbol_run_end(s@, i as int),
        decreases s@.len() - i,
    {
        if i < s.len() && symbol_byte(s[i]) {
            i = i + 1;
        } else {
            return i;
        }
    }
}

// ---------------------------------------------------------------------------
// Comments and insignificant input
// ---------------------------------------------------------------------------

/// Consume one line comment at `pos`: the `;`, the rest of the line, and
/// the line terminator. `None` if no terminated comment starts here.
pub fn parse_comment(s: &[u8], pos: usize) -> (r: Option<usize>)
    requires
        pos <= s@.len(),
    ensures
        match r {
            Some(e) => comment_end(s@, pos as int) == Some(e as int),
            None => comment_end(s@, pos as int) is None,
        },
{
    if pos < s.len() && s[pos] == SEMICOLON {
        let mut i = pos + 1;
        loop
            invariant
                pos < s@.len(),
                s@[pos as int] == SEMICOLON,
                pos + 1 <= i <= s@.len(),
                line_term_end(s@, pos as int + 1) == line_term_end(s@, i as int),
            decreases s@.len() - i,
        {
            if i >= s.len() {
                return None;
            }
            if s[i] == LINE_FEED {
                return Some(i + 1);
            }
            if s[i] == CARRIAGE_RETURN {
                if i + 1 < s.len() && s[i + 1] == LINE_FEED {
                    return Some(i + 2);
                }
                return None;
            }
            i = i + 1;
        }
    } else {
        None
    }
}

/// Advance the cursor past any run of whitespace and complete line
/// comments. Never fails, and only ever consumes: the result is the
/// skipper's fixpoint, so a second application moves nowhere.
pub fn skip_stuff(s: &[u8], pos: usize) -> (r: usize)
    requires
        pos <= s@.len(),
    ensures
        r == skip_end(s@, pos as int),
        pos <= r <= s@.len(),
{
    let mut cur = pos;
    loop
        invariant
            pos <= cur <= s@.len(),
            skip_end(s@, pos as int) == skip_end(s@, cur as int),
        decreases s@.len() - cur,
    {
        if cur < s.len() && space_byte(s[cur]) {
            cur = cur + 1;
        } else {
            match parse_comment(s, cur) {
                Some(e) => {
                    proof {
                        lemma_comment_end(s@, cur as int);
                    }
                    cur = e;
                },
                None => {
                    return cur;
                },
            }
        }
    }
}

// ---------------------------------------------------------------------------
// Atom classification
// ---------------------------------------------------------------------------

/// End of a keyword at `pos`: `:` followed by one or more letters or digits.
pub fn parse_keyword(s: &[u8], pos: usize) -> (r: Option<usize>)
    requires
        pos <= s@.len(),
    ensures
        match r {
            Some(e) => keyword_end(s@, pos as int) == Some(e as int),
            None => keyword_end(s@, pos as int) is None,
        },
{
    if pos < s.len() && s[pos] == COLON {
        let e = alnum_run(s, pos + 1);
        if e > pos + 1 {
            Some(e)
        } else {
            None
        }
    } else {
        None
    }
}

/// End of a float at `pos`: optional minus, zero or more digits, a dot,
/// one or more digits.
pub fn parse_float(s: &[u8], pos: usize) -> (r: Option<usize>)
    requires
        pos <= s@.len(),
    ensures
        match r {
            Some(e) => float_end(s@, pos as int) == Some(e as int),
            None => float_end(s@, pos as int) is None,
        },
{
    let p1 = if pos < s.len() && s[pos] == MINUS {
        pos + 1
    } else {
        pos
    };
    let p2 = digit_run(s, p1);
    if p2 < s.len() && s[p2] == DOT {
        let p3 = digit_run(s, p2 + 1);
        if p3 > p2 + 1 {
            Some(p3)
        } else {
            None
        }
    } else {
        None
    }
}

/// End of an integer at `pos`: optional minus, one or more digits.
pub fn parse_int(s: &[u8], pos: usize) -> (r: Option<usize>)
    requires
        pos <= s@.len(),
    ensures
        match r {
            Some(e) => int_end(s@, pos as int) == Some(e as int),
            None => int_end(s@, pos as int) is None,
        },
{
    let p1 = if pos < s.len() && s[pos] == MINUS {
        pos + 1
    } else {
        pos
    };
    let p2 = digit_run(s, p1);
    if p2 > p1 {
        Some(p2)
    } else {
        None
    }
}

/// End of a symbol at `pos`: one or more symbol bytes.
pub fn parse_symbol(s: &[u8], pos: usize) -> (r: Option<usize>)
    requires
        pos <= s@.len(),
    ensures
        match r {
            Some(e) => symbol_end(s@, pos as int) == Some(e as int),
            None => symbol_end(s@, pos as int) is None,
        },
{
    let e = symbol_run(s, pos);
    if e > pos {
        Some(e)
    } else {
        None
    }
}

/// Classify the atom at `pos`, trying keyword, float, integer and symbol
/// in that priority order and committing to the first match. Returns the
/// kind and the end of the matched slice, or `None` when no rule matches.
pub fn parse_atom(s: &[u8], pos: usize) -> (r: Option<(TokenKind, usize)>)
    requires
        pos <= s@.len(),
    ensures
        match r {
            Some((kind, e)) => atom_end(s@, pos as int) == Some((kind, e as int)),
            None => atom_end(s@, pos as int) is None,
        },
{
    match parse_keyword(s, pos) {
        Some(e) => Some((TokenKind::Keyword, e)),
        None => match parse_float(s, pos) {
            Some(e) => Some((TokenKind::Float, e)),
            None => match parse_int(s, pos) {
                Some(e) => Some((TokenKind::Integer, e)),
                None => match parse_symbol(s, pos) {
                    Some(e) => Some((TokenKind::Symbol, e)),
                    None => None,
                },
            },
        },
    }
}

// ---------------------------------------------------------------------------
// Positions
// ---------------------------------------------------------------------------

/// The position triple at byte `offset`: the offset itself, the line
/// counted from one, and the byte column within that line counted from one.
pub fn position_at(s: &[u8], offset: usize) -> (p: Position)
    requires
        offset <= s@.len(),
        s@.len() < usize::MAX,
    ensures
        p@ == pos_at(s@, offset as int),
{
    let mut line: usize = 1;
    let mut start: usize = 0;
    let mut i: usize = 0;
    while i < offset
        invariant
            0 <= i <= offset <= s@.len() < usize::MAX,
            line == 1 + newline_count(s@, i as int),
            start == line_start(s@, i as int),
        decreases offset - i,
    {
        proof {
            lemma_pos_at_bounds(s@, i as int);
        }
        if s[i] == LINE_FEED {
            line = line + 1;
            start = i + 1;
        }
        i = i + 1;
    }
    proof {
        lemma_pos_at_bounds(s@, offset as int);
    }
    Position { offset, line, column: offset - start + 1 }
}

// ---------------------------------------------------------------------------
// Tokens, lists, and the top-level driver
// ---------------------------------------------------------------------------

/// `parse_list_spec` from `cur` agrees with `parse_list_spec` from the
/// start of the list once the members in `acc` are put in front.
pub open spec fn list_rest_agrees(
    s: Seq<u8>,
    start: int,
    cur: int,
    open: int,
    depth: int,
    acc: Seq<GToken>,
) -> bool {
    match parse_list_spec(s, cur, open, depth) {
        Ok((rest, end)) => parse_list_spec(s, start, open, depth) == Ok::<_, GErr>(
            (acc + rest, end),
        ),
        Err(e) => parse_list_spec(s, start, open, depth) == Err::<(Seq<GToken>, int), _>(e),
    }
}

/// `parse_source_spec_at` from `cur` agrees with the whole parse once the
/// tokens in `acc` are put in front.
pub open spec fn top_rest_agrees(s: Seq<u8>, cur: int, acc: Seq<GToken>) -> bool {
    match parse_source_spec_at(s, cur) {
        Ok(rest) => parse_source_spec(s) == Ok::<_, GErr>(acc + rest),
        Err(e) => parse_source_spec(s) == Err::<Seq<GToken>, _>(e),
    }
}

/// Parse one token at `pos`, which must stand on significant input: a list
/// if the byte is `(`, else an atom. Returns the token and the cursor just
/// past it.
pub fn parse_token(s: &[u8], pos: usize, depth: usize) -> (r: Result<(Token, usize), ParseError>)
    requires
        pos <= s@.len(),
        s@.len() < usize::MAX,
    ensures
        match r {
            Ok((t, end)) => parse_token_spec(s@, pos as int, depth as int) == Ok::<_, GErr>(
                (t@, end as int),
            ) && pos < end <= s@.len(),
            Err(e) => parse_token_spec(s@, pos as int, depth as int) == Err::<(GToken, int), _>(
                e@,
            ),
        },
    decreases s@.len() - pos, 1int,
{
    proof {
        lemma_parse_token_progress(s@, pos as int, depth as int);
    }
    if pos >= s.len() {
        return Err(ParseError { kind: ErrorKind::Lexical, offset: pos });
    }
    if s[pos] == OPEN_PAREN {
        if depth == 0 {
            return Err(ParseError { kind: ErrorKind::DepthExceeded, offset: pos });
        }
        match parse_sexp(s, pos, depth - 1) {
            Ok((children, end)) => {
                let position = position_at(s, pos);
                let t = Token::Sexp { position, children };
                proof {
                    crate::token::lemma_view_list(t->Sexp_children@);
                }
                Ok((t, end))
            },
            Err(e) => Err(e),
        }
    } else {
        match parse_atom(s, pos) {
            Some((kind, end)) => {
                let position = position_at(s, pos);
                let mut text: Vec<u8> = Vec::new();
                let mut i = pos;
                while i < end
                    invariant
                        pos <= i <= end <= s@.len(),
                        text@ == s@.subrange(pos as int, i as int),
                    decreases end - i,
                {
                    text.push(s[i]);
                    proof {
                        assert(text@ =~= s@.subrange(pos as int, i as int + 1));
                    }
                    i = i + 1;
                }
                Ok((Token::Atom { position, kind, text }, end))
            },
            None => Err(ParseError { kind: ErrorKind::Lexical, offset: pos }),
        }
    }
}

/// Parse the list whose `(` stands at `open`: consume the delimiter, then
/// repeatedly skip insignificant input and parse a member until the
/// matching `)` is found and consumed. Reaching the end of input first is
/// an unterminated-list failure at `open`.
pub fn parse_sexp(s: &[u8], open: usize, depth: usize) -> (r: Result<
    (Vec<Token>, usize),
    ParseError,
>)
    requires
        open < s@.len(),
        s@.len() < usize::MAX,
        s@[open as int] == OPEN_PAREN,
    ensures
        match r {
            Ok((children, end)) => parse_list_spec(
                s@,
                open as int + 1,
                open as int,
                depth as int,
            ) == Ok::<_, GErr>((views_of(children@), end as int)) && open < end <= s@.len(),
            Err(e) => parse_list_spec(s@, open as int + 1, open as int, depth as int) == Err::<
                (Seq<GToken>, int),
                _,
            >(e@),
        },
    decreases s@.len() - open, 0int,
{
    let mut children: Vec<Token> = Vec::new();
    let mut cur = open + 1;
    loop
        invariant
            open as int + 1 <= cur <= s@.len() < usize::MAX,
            s@[open as int] == OPEN_PAREN,
            list_rest_agrees(
                s@,
                open as int + 1,
                cur as int,
                open as int,
                depth as int,
                views_of(children@),
            ),
        decreases s@.len() - cur,
    {
        let p = skip_stuff(s, cur);
        if p >= s.len() {
            proof {
                assert(parse_list_spec(s@, cur as int, open as int, depth as int) == Err::<
                    (Seq<GToken>, int),
                    _,
                >(GErr { kind: ErrorKind::UnterminatedList, offset: open as int }));
            }
            return Err(ParseError { kind: ErrorKind::UnterminatedList, offset: open });
        }
        if s[p] == CLOSE_PAREN {
            proof {
                assert(parse_list_spec(s@, cur as int, open as int, depth as int) == Ok::<_, GErr>(
                    (Seq::<GToken>::empty(), p as int + 1),
                ));
                assert(views_of(children@) + Seq::<GToken>::empty() =~= views_of(children@));
            }
            return Ok((children, p + 1));
        }
        match parse_token(s, p, depth) {
            Ok((t, e)) => {
                proof {
                    let acc = views_of(children@);
                    let s_ = s@;
                    let rest0 = parse_list_spec(s_, e as int, open as int, depth as int);
                    assert(parse_list_spec(s_, cur as int, open as int, depth as int) == (match rest0 {
                        Ok((rest, end)) => Ok::<_, GErr>((seq![t@] + rest, end)),
                        Err(err) => Err(err),
                    }));
                    assert(views_of(children@.push(t)) =~= acc + seq![t@]);
                    match rest0 {
                        Ok((rest, end)) => {
                            assert((acc + seq![t@]) + rest =~= acc + (seq![t@] + rest));
                        },
                        Err(_) => {},
                    }
                }
                children.push(t);
                cur = e;
            },
            Err(err) => {
                return Err(err);
            },
        }
    }
}

/// Parse a whole source buffer into its sequence of top-level tokens.
/// All-or-nothing: every byte is either insignificant or part of exactly
/// one returned token, else the parse fails with no partial tree.
pub fn parse_source(s: &[u8]) -> (r: Result<Vec<Token>, ParseError>)
    requires
        s@.len() < usize::MAX,
    ensures
        match r {
            Ok(tokens) => parse_source_spec(s@) == Ok::<_, GErr>(views_of(tokens@)),
            Err(e) => parse_source_spec(s@) == Err::<Seq<GToken>, _>(e@),
        },
{
    let mut tokens: Vec<Token> = Vec::new();
    let mut cur: usize = 0;
    loop
        invariant
            0 <= cur <= s@.len() < usize::MAX,
            top_rest_agrees(s@, cur as int, views_of(tokens@)),
        decreases s@.len() - cur,
    {
        let p = skip_stuff(s, cur);
        if p >= s.len() {
            proof {
                assert(views_of(tokens@) + Seq::<GToken>::empty() =~= views_of(tokens@));
            }
            return Ok(tokens);
        }
        match parse_token(s, p, MAX_DEPTH) {
            Ok((t, e)) => {
                proof {
                    let acc = views_of(tokens@);
                    let rest0 = parse_source_spec_at(s@, e as int);
                    assert(parse_source_spec_at(s@, cur as int) == (match rest0 {
                        Ok(rest) => Ok::<_, GErr>(seq![t@] + rest),
                        Err(err) => Err(err),
                    }));
                    assert(views_of(tokens@.push(t)) =~= acc + seq![t@]);
                    match rest0 {
                        Ok(rest) => {
                            assert((acc + seq![t@]) + rest =~= acc + (seq![t@] + rest));
                        },
                        Err(_) => {},
                    }
                }
                tokens.push(t);
                cur = e;
            },
            Err(err) => {
                if err.kind == ErrorKind::Lexical && err.offset == p {
                    return Err(ParseError { kind: ErrorKind::TrailingInput, offset: p });
                }
                return Err(err);
            },
        }
    }
}

} // verus!

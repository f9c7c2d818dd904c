use crate::grammar::CLOSE_PAREN;
use crate::grammar::COLON;
use crate::grammar::LINE_FEED;
use crate::grammar::OPEN_PAREN;
use crate::token::views_of;
use crate::token::GToken;
use crate::token::Position;
use crate::token::Token;
use crate::token::TokenKind;
use vstd::prelude::*;

verus! {

broadcast use crate::token::lemma_view_list;

// ---------------------------------------------------------------------------
// Kind names and decimal digits
// ---------------------------------------------------------------------------

/// The printable name of a kind: `symbol`, `keyword`, `int` or `float`.
pub open spec fn spec_kind_name(k: TokenKind) -> Seq<u8> {
    match k {
        TokenKind::Symbol => seq![115u8, 121u8, 109u8, 98u8, 111u8, 108u8],
        TokenKind::Keyword => seq![107u8, 101u8, 121u8, 119u8, 111u8, 114u8, 100u8],
        TokenKind::Integer => seq![105u8, 110u8, 116u8],
        TokenKind::Float => seq![102u8, 108u8, 111u8, 97u8, 116u8],
    }
}

/// The printable name of a kind, as bytes.
pub fn kind_name(k: TokenKind) -> (r: Vec<u8>)
    ensures
        r@ == spec_kind_name(k),
{
    let mut out: Vec<u8> = Vec::new();
    match k {
        TokenKind::Symbol => {
            out.push(115);
            out.push(121);
            out.push(109);
            out.push(98);
            out.push(111);
            out.push(108);
        },
        TokenKind::Keyword => {
            out.push(107);
            out.push(101);
            out.push(121);
            out.push(119);
            out.push(111);
            out.push(114);
            out.push(100);
        },
        TokenKind::Integer => {
            out.push(105);
            out.push(110);
            out.push(116);
        },
        TokenKind::Float => {
            out.push(102);
            out.push(108);
            out.push(111);
            out.push(97);
            out.push(116);
        },
    }
    proof {
        assert(out@ =~= spec_kind_name(k));
    }
    out
}

/// The decimal digits of `n`, most significant first, with no sign and no
/// leading zero except for `0` itself.
pub open spec fn dec_digits(n: int) -> Seq<u8>
    decreases n,
{
    if 0 <= n < 10 {
        seq![(48 + n) as u8]
    } else if n >= 10 {
        dec_digits(n / 10) + seq![(48 + n % 10) as u8]
    } else {
        Seq::empty()
    }
}

/// The decimal digits of `n`, most significant first.
pub fn usize_to_dec(n: usize) -> (r: Vec<u8>)
    ensures
        r@ == dec_digits(n as int),
{
    let mut rev: Vec<u8> = Vec::new();
    let mut m = n;
    if m == 0 {
        let mut out: Vec<u8> = Vec::new();
        out.push(48);
        proof {
            assert(out@ =~= dec_digits(0));
        }
        return out;
    }
    while m > 0
        invariant
            m > 0 ==> dec_digits(n as int) == dec_digits(m as int) + rev@.reverse(),
            m == 0 ==> rev@.reverse() == dec_digits(n as int),
        decreases m,
    {
        let d: u8 = 48 + (m % 10) as u8;
        let ghost rev0 = rev@;
        let ghost m0 = m as int;
        rev.push(d);
        m = m / 10;
        proof {
            assert((rev0.push(d)).reverse() =~= seq![d] + rev0.reverse());
            if m > 0 {
                assert(dec_digits(m0) == dec_digits(m0 / 10) + seq![d]);
                assert((dec_digits(m0 / 10) + seq![d]) + rev0.reverse() =~= dec_digits(m0 / 10) + (
                seq![d] + rev0.reverse()));
            } else {
                assert(dec_digits(m0) == seq![d]);
            }
        }
    }
    let mut out: Vec<u8> = Vec::new();
    let mut k: usize = 0;
    while k < rev.len()
        invariant
            0 <= k <= rev@.len(),
            rev@.reverse() == dec_digits(n as int),
            out@ =~= rev@.reverse().subrange(0, k as int),
        decreases rev@.len() - k,
    {
        out.push(rev[rev.len() - 1 - k]);
        proof {
            assert(out@ =~= rev@.reverse().subrange(0, k as int + 1));
        }
        k = k + 1;
    }
    proof {
        assert(rev@.reverse().subrange(0, rev@.len() as int) =~= rev@.reverse());
    }
    out
}

// ---------------------------------------------------------------------------
// Compact form
// ---------------------------------------------------------------------------

/// The compact rendering: an atom is its raw text; a list is `(`, the
/// space-joined renderings of its members, and `)`.
pub open spec fn render_compact_spec(t: GToken) -> Seq<u8>
    decreases t,
{
    match t {
        GToken::Atom { text, .. } => text,
        GToken::Sexp { children, .. } => seq![OPEN_PAREN] + compact_join_spec(children) + seq![
            CLOSE_PAREN,
        ],
    }
}

/// The members' compact renderings joined by single spaces.
pub open spec fn compact_join_spec(cs: Seq<GToken>) -> Seq<u8>
    decreases cs,
{
    if cs.len() == 0 {
        Seq::empty()
    } else if cs.len() == 1 {
        render_compact_spec(cs[0])
    } else {
        render_compact_spec(cs[0]) + seq![32u8] + compact_join_spec(cs.drop_first())
    }
}

/// Joining one more member on the right appends a separator (unless the
/// sequence was empty) and the member's rendering.
pub proof fn lemma_compact_join_push(cs: Seq<GToken>, t: GToken)
    ensures
        compact_join_spec(cs.push(t)) == if cs.len() == 0 {
            render_compact_spec(t)
        } else {
            compact_join_spec(cs) + seq![32u8] + render_compact_spec(t)
        },
    decreases cs.len(),
{
    if cs.len() == 0 {
        assert(cs.push(t) =~= seq![t]);
        assert(compact_join_spec(seq![t]) == render_compact_spec(seq![t][0]));
    } else {
        let rest = cs.drop_first();
        assert(cs.push(t).drop_first() =~= rest.push(t));
        lemma_compact_join_push(rest, t);
        assert(cs.push(t)[0] == cs[0]);
        if cs.len() == 1 {
            assert(compact_join_spec(cs.push(t)) == render_compact_spec(cs[0]) + seq![32u8]
                + render_compact_spec(t));
            assert(compact_join_spec(cs) == render_compact_spec(cs[0]));
        } else {
            assert(compact_join_spec(cs.push(t)) == render_compact_spec(cs[0]) + seq![32u8] + (
            compact_join_spec(rest) + seq![32u8] + render_compact_spec(t)));
            assert(render_compact_spec(cs[0]) + seq![32u8] + (compact_join_spec(rest) + seq![32u8]
                + render_compact_spec(t)) =~= (render_compact_spec(cs[0]) + seq![32u8]
                + compact_join_spec(rest)) + seq![32u8] + render_compact_spec(t));
        }
    }
}

/// Append `src` to `out`.
fn append_bytes(out: &mut Vec<u8>, src: &Vec<u8>)
    ensures
        final(out)@ == old(out)@ + src@,
{
    let mut i: usize = 0;
    while i < src.len()
        invariant
            0 <= i <= src@.len(),
            out@ =~= old(out)@ + src@.subrange(0, i as int),
        decreases src@.len() - i,
    {
        out.push(src[i]);
        proof {
            assert(out@ =~= old(out)@ + src@.subrange(0, i as int + 1));
        }
        i = i + 1;
    }
    proof {
        assert(old(out)@ + src@.subrange(0, src@.len() as int) =~= old(out)@ + src@);
    }
}

/// Render a tree in its compact form: atoms as their raw text, lists as
/// `(` + space-joined members + `)`.
#[verifier::loop_isolation(false)]
pub fn render_compact(t: &Token) -> (r: Vec<u8>)
    ensures
        r@ == render_compact_spec(t@),
    decreases t,
{
    match t {
        Token::Atom { text, .. } => {
            let mut out: Vec<u8> = Vec::new();
            append_bytes(&mut out, text);
            proof {
                assert(out@ =~= text@);
                assert(render_compact_spec(t@) == text@);
                assert(out@ == render_compact_spec(t@));
            }
            return out;
        },
        Token::Sexp { children, .. } => {
            let mut out: Vec<u8> = Vec::new();
            out.push(OPEN_PAREN);
            let mut i: usize = 0;
            while i < children.len()
                invariant
                    0 <= i <= children@.len(),
                    out@ == seq![OPEN_PAREN] + compact_join_spec(
                        views_of(children@).subrange(0, i as int),
                    ),
                decreases children@.len() - i,
            {
                proof {
                    assert(decreases_to!(*t => *children));
                    assert(decreases_to!(*children => children@));
                }
                let piece = render_compact(&children[i]);
                let ghost prefix = views_of(children@).subrange(0, i as int);
                if i > 0 {
                    out.push(32);
                }
                append_bytes(&mut out, &piece);
                proof {
                    lemma_compact_join_push(prefix, children@[i as int]@);
                    assert(prefix.push(children@[i as int]@) =~= views_of(children@).subrange(
                        0,
                        i as int + 1,
                    ));
                    assert(out@ =~= seq![OPEN_PAREN] + compact_join_spec(
                        views_of(children@).subrange(0, i as int + 1),
                    ));
                }
                i = i + 1;
            }
            proof {
                assert(views_of(children@).subrange(0, children@.len() as int) =~= views_of(
                    children@,
                ));
            }
            out.push(CLOSE_PAREN);
            proof {
                assert(out@ =~= seq![OPEN_PAREN] + compact_join_spec(views_of(children@)) + seq![
                    CLOSE_PAREN,
                ]);
                crate::token::lemma_view_list(children@);
                assert(t@->Sexp_children == views_of(children@));
                assert(out@ == render_compact_spec(t@));
            }
            out
        },
    }
}

// ---------------------------------------------------------------------------
// Diagnostic form
// ---------------------------------------------------------------------------

/// The diagnostic rendering: each node shows its line and byte offset.
/// An atom renders as `line:offset text<kind>`; a list renders as
/// `line:offset Sexp`, its members joined by line feeds, and `Sexp End`.
pub open spec fn render_diag_spec(t: GToken) -> Seq<u8>
    decreases t,
{
    match t {
        GToken::Atom { position, kind, text } => dec_digits(position.line) + seq![COLON]
            + dec_digits(position.offset) + seq![32u8] + text + seq![60u8] + spec_kind_name(kind)
            + seq![62u8],
        GToken::Sexp { position, children } => dec_digits(position.line) + seq![COLON]
            + dec_digits(position.offset) + seq![32u8, 83u8, 101u8, 120u8, 112u8, 10u8]
            + diag_join_spec(children) + seq![10u8, 83u8, 101u8, 120u8, 112u8, 32u8, 69u8, 110u8, 100u8],
    }
}

/// The members' diagnostic renderings joined by line feeds.
pub open spec fn diag_join_spec(cs: Seq<GToken>) -> Seq<u8>
    decreases cs,
{
    if cs.len() == 0 {
        Seq::empty()
    } else if cs.len() == 1 {
        render_diag_spec(cs[0])
    } else {
        render_diag_spec(cs[0]) + seq![LINE_FEED] + diag_join_spec(cs.drop_first())
    }
}

/// Joining one more member on the right appends a line feed (unless the
/// sequence was empty) and the member's rendering.
pub proof fn lemma_diag_join_push(cs: Seq<GToken>, t: GToken)
    ensures
        diag_join_spec(cs.push(t)) == if cs.len() == 0 {
            render_diag_spec(t)
        } else {
            diag_join_spec(cs) + seq![LINE_FEED] + render_diag_spec(t)
        },
    decreases cs.len(),
{
    if cs.len() == 0 {
        assert(cs.push(t) =~= seq![t]);
        assert(diag_join_spec(seq![t]) == render_diag_spec(seq![t][0]));
    } else {
        let rest = cs.drop_first();
        assert(cs.push(t).drop_first() =~= rest.push(t));
        lemma_diag_join_push(rest, t);
        assert(cs.push(t)[0] == cs[0]);
        if cs.len() == 1 {
            assert(diag_join_spec(cs.push(t)) == render_diag_spec(cs[0]) + seq![LINE_FEED]
                + render_diag_spec(t));
            assert(diag_join_spec(cs) == render_diag_spec(cs[0]));
        } else {
            assert(diag_join_spec(cs.push(t)) == render_diag_spec(cs[0]) + seq![LINE_FEED] + (
            diag_join_spec(rest) + seq![LINE_FEED] + render_diag_spec(t)));
            assert(render_diag_spec(cs[0]) + seq![LINE_FEED] + (diag_join_spec(rest) + seq![
                LINE_FEED,
            ] + render_diag_spec(t)) =~= (render_diag_spec(cs[0]) + seq![LINE_FEED]
                + diag_join_spec(rest)) + seq![LINE_FEED] + render_diag_spec(t));
        }
    }
}

/// `line:offset`, the position header both diagnostic shapes begin with.
fn diag_header(p: &Position) -> (r: Vec<u8>)
    ensures
        r@ == dec_digits(p@.line) + seq![COLON] + dec_digits(p@.offset),
{
    let mut out = usize_to_dec(p.line);
    out.push(COLON);
    let off = usize_to_dec(p.offset);
    append_bytes(&mut out, &off);
    proof {
        assert(out@ =~= dec_digits(p@.line) + seq![COLON] + dec_digits(p@.offset));
    }
    out
}

/// Render a tree in its diagnostic form, each node with its line number,
/// byte offset, and, for atoms, the classified kind.
#[verifier::loop_isolation(false)]
pub fn render_diagnostic(t: &Token) -> (r: Vec<u8>)
    ensures
        r@ == render_diag_spec(t@),
    decreases t,
{
    match t {
        Token::Atom { position, kind, text } => {
            let mut out = diag_header(position);
            out.push(32);
            append_bytes(&mut out, text);
            out.push(60);
            let kn = kind_name(*kind);
            append_bytes(&mut out, &kn);
            out.push(62);
            proof {
                assert(out@ =~= render_diag_spec(t@));
            }
            return out;
        },
        Token::Sexp { position, children } => {
            let mut out = diag_header(position);
            out.push(32);
            out.push(83);
            out.push(101);
            out.push(120);
            out.push(112);
            out.push(10);
            let ghost head0 = out@;
            let mut i: usize = 0;
            while i < children.len()
                invariant
                    0 <= i <= children@.len(),
                    out@ == head0 + diag_join_spec(views_of(children@).subrange(0, i as int)),
                decreases children@.len() - i,
            {
                proof {
                    assert(decreases_to!(*t => *children));
                    assert(decreases_to!(*children => children@));
                }
                let piece = render_diagnostic(&children[i]);
                let ghost prefix = views_of(children@).subrange(0, i as int);
                if i > 0 {
                    out.push(LINE_FEED);
                }
                append_bytes(&mut out, &piece);
                proof {
                    lemma_diag_join_push(prefix, children@[i as int]@);
                    assert(prefix.push(children@[i as int]@) =~= views_of(children@).subrange(
                        0,
                        i as int + 1,
                    ));
                    assert(out@ =~= head0 + diag_join_spec(
                        views_of(children@).subrange(0, i as int + 1),
                    ));
                }
                i = i + 1;
            }
            proof {
                assert(views_of(children@).subrange(0, children@.len() as int) =~= views_of(
                    children@,
                ));
            }
            out.push(10);
            out.push(83);
            out.push(101);
            out.push(120);
            out.push(112);
            out.push(32);
            out.push(69);
            out.push(110);
            out.push(100);
            proof {
                crate::token::lemma_view_list(children@);
                assert(t@->Sexp_children == views_of(children@));
                assert(out@ =~= render_diag_spec(t@));
            }
            return out;
        },
    }
}

} // verus!

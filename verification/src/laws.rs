use crate::grammar::atom_end;
use crate::grammar::is_space;
use crate::grammar::lemma_atom_end_start;
use crate::grammar::lemma_atom_localize;
use crate::grammar::lemma_skip_end;
use crate::grammar::parse_list_spec;
use crate::grammar::parse_source_spec;
use crate::grammar::parse_source_spec_at;
use crate::grammar::parse_token_spec;
use crate::grammar::skip_end;
use crate::grammar::CLOSE_PAREN;
use crate::grammar::MAX_DEPTH;
use crate::grammar::OPEN_PAREN;
use crate::grammar::SEMICOLON;
use crate::render::compact_join_spec;
use crate::render::render_compact_spec;
use crate::token::GErr;
use crate::token::GToken;
use vstd::prelude::*;

verus! {

// ---------------------------------------------------------------------------
// Structural equality: same shape, same kinds, same texts
// ---------------------------------------------------------------------------

/// Two trees are structurally equal when they have the same shape and the
/// same atom kinds and texts; positions are not compared.
pub open spec fn structurally_eq(a: GToken, b: GToken) -> bool
    decreases a,
{
    match (a, b) {
        (
            GToken::Atom { kind: k1, text: t1, .. },
            GToken::Atom { kind: k2, text: t2, .. },
        ) => k1 == k2 && t1 == t2,
        (GToken::Sexp { children: c1, .. }, GToken::Sexp { children: c2, .. }) => {
            structurally_eq_list(c1, c2)
        },
        _ => false,
    }
}

/// Pointwise structural equality of two token sequences.
pub open spec fn structurally_eq_list(a: Seq<GToken>, b: Seq<GToken>) -> bool
    decreases a,
{
    if a.len() != b.len() {
        false
    } else if a.len() == 0 {
        true
    } else {
        structurally_eq(a[0], b[0]) && structurally_eq_list(a.drop_first(), b.drop_first())
    }
}

// ---------------------------------------------------------------------------
// Well-formed trees: every atom's text is exactly one atom of its kind
// ---------------------------------------------------------------------------

/// A tree whose atoms each carry a text that classifies, on its own and in
/// whole, as the atom's kind. The compact rendering of such a tree loses
/// nothing: the round-trip law below parses it back.
pub open spec fn wf_token(t: GToken) -> bool
    decreases t,
{
    match t {
        GToken::Atom { kind, text, .. } => atom_end(text, 0) == Some((kind, text.len() as int)),
        GToken::Sexp { children, .. } => wf_list(children),
    }
}

/// Every member of the sequence is well formed.
pub open spec fn wf_list(cs: Seq<GToken>) -> bool
    decreases cs,
{
    if cs.len() == 0 {
        true
    } else {
        wf_token(cs[0]) && wf_list(cs.drop_first())
    }
}

/// Nesting depth of a tree: atoms are flat, a list is one deeper than its
/// deepest member.
pub open spec fn height(t: GToken) -> nat
    decreases t,
{
    match t {
        GToken::Atom { .. } => 0,
        GToken::Sexp { children, .. } => 1 + height_list(children),
    }
}

/// Deepest nesting among the members.
pub open spec fn height_list(cs: Seq<GToken>) -> nat
    decreases cs,
{
    if cs.len() == 0 {
        0
    } else {
        let h0 = height(cs[0]);
        let hr = height_list(cs.drop_first());
        if h0 > hr {
            h0
        } else {
            hr
        }
    }
}

// ---------------------------------------------------------------------------
// Small facts about renderings and skipping
// ---------------------------------------------------------------------------

/// The first byte of a well-formed tree's compact rendering is significant:
/// it is no whitespace, no comment marker, and no closing delimiter; it is
/// the opening delimiter exactly for a list.
pub proof fn lemma_render_first(t: GToken)
    requires
        wf_token(t),
    ensures
        render_compact_spec(t).len() > 0,
        !is_space(render_compact_spec(t)[0]),
        render_compact_spec(t)[0] != SEMICOLON,
        render_compact_spec(t)[0] != CLOSE_PAREN,
        t is Sexp <==> render_compact_spec(t)[0] == OPEN_PAREN,
{
    match t {
        GToken::Atom { kind, text, .. } => {
            lemma_atom_end_start(text);
            assert(render_compact_spec(t)[0] == text[0]);
        },
        GToken::Sexp { children, .. } => {
            assert(render_compact_spec(t)[0] == OPEN_PAREN);
        },
    }
}

/// Skipping does nothing where the cursor already stands on significant
/// input.
pub proof fn lemma_skip_noop(s: Seq<u8>, p: int)
    requires
        0 <= p < s.len(),
        !is_space(s[p]),
        s[p] != SEMICOLON,
    ensures
        skip_end(s, p) == p,
{
}

/// Two cursors that skip to the same place parse the same list remainder.
pub proof fn lemma_parse_list_shift(s: Seq<u8>, a: int, b: int, open: int, depth: int)
    requires
        0 <= a <= b <= s.len(),
        skip_end(s, a) == skip_end(s, b),
    ensures
        parse_list_spec(s, a, open, depth) == parse_list_spec(s, b, open, depth),
{
    lemma_skip_end(s, a);
    lemma_skip_end(s, b);
}

// ---------------------------------------------------------------------------
// Round trip: parse after render
// ---------------------------------------------------------------------------

/// A well-formed tree's compact rendering, embedded in a buffer and
/// followed by a space, a closing delimiter or the end of the buffer,
/// parses back as one token, structurally equal to the tree, consuming
/// exactly the rendering.
pub proof fn lemma_rt_token(s: Seq<u8>, pos: int, t: GToken, depth: int)
    requires
        wf_token(t),
        0 <= pos,
        pos + render_compact_spec(t).len() <= s.len(),
        s.subrange(pos, pos + render_compact_spec(t).len()) == render_compact_spec(t),
        pos + render_compact_spec(t).len() == s.len() || s[pos + render_compact_spec(t).len()]
            == 32 || s[pos + render_compact_spec(t).len()] == CLOSE_PAREN,
        depth >= height(t),
    ensures
        parse_token_spec(s, pos, depth) matches Ok((t2, e)) && e == pos + render_compact_spec(
            t,
        ).len() && structurally_eq(t, t2),
    decreases t,
{
    let r = render_compact_spec(t);
    let ln = r.len() as int;
    lemma_render_first(t);
    assert forall|j: int| 0 <= j < ln implies s[pos + j] == r[j] by {
        assert(r[j] == s.subrange(pos, pos + ln)[j]);
    }
    match t {
        GToken::Atom { kind, text, .. } => {
            lemma_atom_end_start(text);
            lemma_atom_localize(s, pos, text, kind);
            assert(s.subrange(pos, pos + ln) == text);
        },
        GToken::Sexp { children, .. } => {
            let j = compact_join_spec(children);
            let jn = j.len() as int;
            assert(r == seq![OPEN_PAREN] + j + seq![CLOSE_PAREN]);
            assert(s[pos] == OPEN_PAREN) by {
                assert(r[0] == OPEN_PAREN);
            }
            assert forall|k: int| 0 <= k < jn implies s[pos + 1 + k] == j[k] by {
                assert(r[1 + k] == j[k]);
            }
            assert(s.subrange(pos + 1, pos + 1 + jn) =~= j);
            assert(s[pos + 1 + jn] == CLOSE_PAREN) by {
                assert(r[ln - 1] == CLOSE_PAREN);
            }
            lemma_rt_list(s, pos + 1, pos, children, depth - 1);
        },
    }
}

/// The space-joined renderings of well-formed members, followed by the
/// list's closing delimiter, parse back as the members in order,
/// structurally equal, consuming the join and the delimiter.
pub proof fn lemma_rt_list(s: Seq<u8>, pos: int, open: int, cs: Seq<GToken>, depth: int)
    requires
        wf_list(cs),
        0 <= pos,
        pos + compact_join_spec(cs).len() < s.len(),
        s.subrange(pos, pos + compact_join_spec(cs).len()) == compact_join_spec(cs),
        s[pos + compact_join_spec(cs).len()] == CLOSE_PAREN,
        depth >= height_list(cs),
    ensures
        parse_list_spec(s, pos, open, depth) matches Ok((cs2, e)) && e == pos + compact_join_spec(
            cs,
        ).len() + 1 && structurally_eq_list(cs, cs2),
    decreases cs,
{
    let j = compact_join_spec(cs);
    let jn = j.len() as int;
    assert forall|k: int| 0 <= k < jn implies s[pos + k] == j[k] by {
        assert(j[k] == s.subrange(pos, pos + jn)[k]);
    }
    if cs.len() == 0 {
        lemma_skip_noop(s, pos);
        assert(parse_list_spec(s, pos, open, depth) == Ok::<_, GErr>(
            (Seq::<GToken>::empty(), pos + 1),
        ));
    } else {
        let c0 = cs[0];
        let r0 = render_compact_spec(c0);
        let rn = r0.len() as int;
        lemma_render_first(c0);
        let e0 = pos + rn;
        if cs.len() == 1 {
            assert(j == r0);
            lemma_skip_noop(s, pos);
            lemma_rt_token(s, pos, c0, depth);
            lemma_skip_noop(s, e0);
            let t2 = parse_token_spec(s, pos, depth)->Ok_0.0;
            assert(parse_list_spec(s, e0, open, depth) == Ok::<_, GErr>(
                (Seq::<GToken>::empty(), e0 + 1),
            ));
            assert(seq![t2] + Seq::<GToken>::empty() =~= seq![t2]);
            assert(structurally_eq_list(cs, seq![t2])) by {
                assert(structurally_eq(cs[0], t2));
                assert(cs.drop_first() =~= Seq::<GToken>::empty());
                assert(seq![t2].drop_first() =~= Seq::<GToken>::empty());
                assert(structurally_eq_list(cs.drop_first(), seq![t2].drop_first()));
            }
        } else {
            let rest = cs.drop_first();
            let jr = compact_join_spec(rest);
            let jrn = jr.len() as int;
            assert(j == r0 + seq![32u8] + jr);
            assert forall|k: int| 0 <= k < rn implies s[pos + k] == r0[k] by {
                assert(j[k] == r0[k]);
            }
            assert(s.subrange(pos, pos + rn) =~= r0);
            assert(s[e0] == 32) by {
                assert(j[rn] == 32);
            }
            assert forall|k: int| 0 <= k < jrn implies s[e0 + 1 + k] == jr[k] by {
                assert(j[rn + 1 + k] == jr[k]);
            }
            assert(s.subrange(e0 + 1, e0 + 1 + jrn) =~= jr);
            lemma_skip_noop(s, pos);
            lemma_rt_token(s, pos, c0, depth);
            let t2 = parse_token_spec(s, pos, depth)->Ok_0.0;
            // the single space before the next member is insignificant
            assert(wf_list(rest));
            assert(wf_token(rest[0]));
            lemma_render_first(rest[0]);
            assert(jr[0] == render_compact_spec(rest[0])[0]) by {
                if rest.len() > 1 {
                    assert(jr == render_compact_spec(rest[0]) + seq![32u8] + compact_join_spec(
                        rest.drop_first(),
                    ));
                }
            }
            assert(s[e0 + 1] == jr[0]);
            lemma_skip_noop(s, e0 + 1);
            assert(skip_end(s, e0) == skip_end(s, e0 + 1));
            lemma_parse_list_shift(s, e0, e0 + 1, open, depth);
            lemma_rt_list(s, e0 + 1, open, rest, depth);
            let cs2rest = parse_list_spec(s, e0 + 1, open, depth)->Ok_0.0;
            assert(structurally_eq_list(cs, seq![t2] + cs2rest)) by {
                assert((seq![t2] + cs2rest)[0] == t2);
                assert((seq![t2] + cs2rest).drop_first() =~= cs2rest);
            }
        }
    }
}

// ---------------------------------------------------------------------------
// Parsed trees are well formed
// ---------------------------------------------------------------------------

pub proof fn lemma_parsed_token_wf(s: Seq<u8>, pos: int, depth: int)
    requires
        0 <= pos <= s.len(),
    ensures
        parse_token_spec(s, pos, depth) matches Ok((t, e)) ==> wf_token(t),
    decreases s.len() - pos, 0int,
{
    if 0 <= pos < s.len() {
        if s[pos] == OPEN_PAREN {
            if depth > 0 {
                lemma_parsed_list_wf(s, pos + 1, pos, depth - 1);
            }
        } else if atom_end(s, pos) is Some {
            crate::grammar::lemma_atom_end(s, pos);
            crate::grammar::lemma_atom_standalone(s, pos);
        }
    }
}

pub proof fn lemma_parsed_list_wf(s: Seq<u8>, pos: int, open: int, depth: int)
    requires
        0 <= pos <= s.len(),
    ensures
        parse_list_spec(s, pos, open, depth) matches Ok((cs, e)) ==> wf_list(cs),
    decreases s.len() - pos, 1int,
{
    lemma_skip_end(s, pos);
    let p = skip_end(s, pos);
    if p < s.len() && s[p] != CLOSE_PAREN {
        crate::grammar::lemma_parse_token_progress(s, p, depth);
        lemma_parsed_token_wf(s, p, depth);
        match parse_token_spec(s, p, depth) {
            Ok((t, e0)) => {
                lemma_parsed_list_wf(s, e0, open, depth);
                match parse_list_spec(s, e0, open, depth) {
                    Ok((rest, _)) => {
                        assert((seq![t] + rest)[0] == t);
                        assert((seq![t] + rest).drop_first() =~= rest);
                        assert(wf_list(seq![t] + rest));
                    },
                    Err(_) => {},
                }
            },
            Err(_) => {},
        }
    }
}

pub proof fn lemma_parsed_top_wf(s: Seq<u8>, pos: int)
    requires
        0 <= pos <= s.len(),
    ensures
        parse_source_spec_at(s, pos) matches Ok(ts) ==> wf_list(ts),
    decreases s.len() - pos,
{
    lemma_skip_end(s, pos);
    let p = skip_end(s, pos);
    if p < s.len() {
        crate::grammar::lemma_parse_token_progress(s, p, MAX_DEPTH as int);
        lemma_parsed_token_wf(s, p, MAX_DEPTH as int);
        match parse_token_spec(s, p, MAX_DEPTH as int) {
            Ok((t, e0)) => {
                lemma_parsed_top_wf(s, e0);
                match parse_source_spec_at(s, e0) {
                    Ok(rest) => {
                        assert((seq![t] + rest)[0] == t);
                        assert((seq![t] + rest).drop_first() =~= rest);
                        assert(wf_list(seq![t] + rest));
                    },
                    Err(_) => {},
                }
            },
            Err(_) => {},
        }
    }
}

/// Law: every tree a successful parse returns is well formed — each atom's
/// text classifies, standing alone and in whole, as the atom's kind. With
/// the round-trip law below, a parse result can be rendered compactly and
/// parsed again without loss.
pub proof fn lemma_parse_wf(s: Seq<u8>)
    ensures
        parse_source_spec(s) matches Ok(ts) ==> wf_list(ts),
{
    lemma_parsed_top_wf(s, 0);
}

// ---------------------------------------------------------------------------
// Positions in a parsed tree are ordered
// ---------------------------------------------------------------------------

/// The byte offset a token starts at.
pub open spec fn tok_offset(t: GToken) -> int {
    match t {
        GToken::Atom { position, .. } => position.offset,
        GToken::Sexp { position, .. } => position.offset,
    }
}

/// Offsets strictly increase across siblings in source order.
pub open spec fn ordered_offsets(cs: Seq<GToken>) -> bool {
    forall|i: int, j: int| 0 <= i < j < cs.len() ==> tok_offset(cs[i]) < tok_offset(cs[j])
}

/// Every list in the tree starts strictly before its first member, and its
/// members' offsets strictly increase.
pub open spec fn positions_ok(t: GToken) -> bool
    decreases t,
{
    match t {
        GToken::Atom { .. } => true,
        GToken::Sexp { position, children } => positions_ok_list(children) && ordered_offsets(
            children,
        ) && (children.len() > 0 ==> position.offset < tok_offset(children[0])),
    }
}

/// `positions_ok` of every member.
pub open spec fn positions_ok_list(cs: Seq<GToken>) -> bool
    decreases cs,
{
    if cs.len() == 0 {
        true
    } else {
        positions_ok(cs[0]) && positions_ok_list(cs.drop_first())
    }
}

pub proof fn lemma_positions_token(s: Seq<u8>, pos: int, depth: int)
    requires
        0 <= pos <= s.len(),
    ensures
        parse_token_spec(s, pos, depth) matches Ok((t, e)) ==> positions_ok(t) && tok_offset(t)
            == pos,
    decreases s.len() - pos, 0int,
{
    if 0 <= pos < s.len() && s[pos] == OPEN_PAREN && depth > 0 {
        lemma_positions_list(s, pos + 1, pos, depth - 1);
    }
}

pub proof fn lemma_positions_list(s: Seq<u8>, pos: int, open: int, depth: int)
    requires
        0 <= pos <= s.len(),
    ensures
        parse_list_spec(s, pos, open, depth) matches Ok((cs, e)) ==> positions_ok_list(cs)
            && ordered_offsets(cs) && forall|i: int|
            0 <= i < cs.len() ==> pos <= #[trigger] tok_offset(cs[i]),
    decreases s.len() - pos, 1int,
{
    lemma_skip_end(s, pos);
    let p = skip_end(s, pos);
    if p < s.len() && s[p] != CLOSE_PAREN {
        crate::grammar::lemma_parse_token_progress(s, p, depth);
        lemma_positions_token(s, p, depth);
        match parse_token_spec(s, p, depth) {
            Ok((t, e0)) => {
                lemma_positions_list(s, e0, open, depth);
                match parse_list_spec(s, e0, open, depth) {
                    Ok((rest, e1)) => {
                        let cs = seq![t] + rest;
                        assert(cs[0] == t);
                        assert forall|i: int| 0 < i < cs.len() implies cs[i] == rest[i - 1] by {}
                        assert(cs.drop_first() =~= rest);
                        assert(positions_ok_list(cs));
                        assert forall|i: int, j: int| 0 <= i < j < cs.len() implies tok_offset(
                            cs[i],
                        ) < tok_offset(cs[j]) by {
                            if i > 0 {
                                assert(tok_offset(rest[i - 1]) < tok_offset(rest[j - 1]));
                            } else {
                                assert(e0 <= tok_offset(rest[j - 1]));
                            }
                        }
                        assert forall|i: int| 0 <= i < cs.len() implies pos <= #[trigger] tok_offset(
                            cs[i],
                        ) by {
                            if i > 0 {
                                assert(e0 <= tok_offset(rest[i - 1]));
                            }
                        }
                    },
                    Err(_) => {},
                }
            },
            Err(_) => {},
        }
    }
}

pub proof fn lemma_positions_top(s: Seq<u8>, pos: int)
    requires
        0 <= pos <= s.len(),
    ensures
        parse_source_spec_at(s, pos) matches Ok(ts) ==> positions_ok_list(ts) && ordered_offsets(
            ts,
        ) && forall|i: int| 0 <= i < ts.len() ==> pos <= #[trigger] tok_offset(ts[i]),
    decreases s.len() - pos,
{
    lemma_skip_end(s, pos);
    let p = skip_end(s, pos);
    if p < s.len() {
        crate::grammar::lemma_parse_token_progress(s, p, MAX_DEPTH as int);
        lemma_positions_token(s, p, MAX_DEPTH as int);
        match parse_token_spec(s, p, MAX_DEPTH as int) {
            Ok((t, e0)) => {
                lemma_positions_top(s, e0);
                match parse_source_spec_at(s, e0) {
                    Ok(rest) => {
                        let ts = seq![t] + rest;
                        assert(ts[0] == t);
                        assert forall|i: int| 0 < i < ts.len() implies ts[i] == rest[i - 1] by {}
                        assert(ts.drop_first() =~= rest);
                        assert(positions_ok_list(ts));
                        assert forall|i: int, j: int| 0 <= i < j < ts.len() implies tok_offset(
                            ts[i],
                        ) < tok_offset(ts[j]) by {
                            if i > 0 {
                                assert(tok_offset(rest[i - 1]) < tok_offset(rest[j - 1]));
                            } else {
                                assert(e0 <= tok_offset(rest[j - 1]));
                            }
                        }
                        assert forall|i: int| 0 <= i < ts.len() implies pos <= #[trigger] tok_offset(
                            ts[i],
                        ) by {
                            if i > 0 {
                                assert(e0 <= tok_offset(rest[i - 1]));
                            }
                        }
                    },
                    Err(_) => {},
                }
            },
            Err(_) => {},
        }
    }
}

/// Law: in any successful parse, top-level offsets strictly increase in
/// source order, and inside every list the members' offsets strictly
/// increase and the list's own position stands strictly before its first
/// member's.
pub proof fn lemma_parse_positions(s: Seq<u8>)
    ensures
        parse_source_spec(s) matches Ok(ts) ==> positions_ok_list(ts) && ordered_offsets(ts),
{
    lemma_positions_top(s, 0);
}

/// Law: the round trip. Rendering a well-formed tree in compact form and
/// parsing the rendering back yields exactly one top-level token,
/// structurally equal to the original: same shape, same atom kinds, same
/// atom texts. The tree's nesting must stay within the parser's depth
/// bound.
pub proof fn lemma_round_trip(t: GToken)
    requires
        wf_token(t),
        height(t) <= MAX_DEPTH,
    ensures
        parse_source_spec(render_compact_spec(t)) matches Ok(ts) && ts.len() == 1
            && structurally_eq(t, ts[0]),
{
    let s = render_compact_spec(t);
    let ln = s.len() as int;
    lemma_render_first(t);
    assert(s.subrange(0, ln) =~= s);
    lemma_skip_noop(s, 0);
    lemma_rt_token(s, 0, t, MAX_DEPTH as int);
    let t2 = parse_token_spec(s, 0, MAX_DEPTH as int)->Ok_0.0;
    assert(skip_end(s, ln) == ln);
    assert(parse_source_spec_at(s, ln) == Ok::<_, GErr>(Seq::<GToken>::empty()));
    assert(seq![t2] + Seq::<GToken>::empty() =~= seq![t2]);
}

} // verus!

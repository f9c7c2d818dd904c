use vstd::prelude::*;

verus! {

broadcast use vstd::std_specs::vec::group_vec_axioms;

/// Lexical class of an atom, decided by the classifier's priority order.
#[derive(Clone, Copy, Debug, PartialEq, Eq, Structural)]
pub enum TokenKind {
    Symbol,
    Keyword,
    Integer,
    Float,
}

/// Source position of a token's first byte.
#[derive(Clone, Copy, Debug, PartialEq, Eq)]
pub struct Position {
    /// Byte offset from the start of the source, counted from zero.
    pub offset: usize,
    /// Line number, counted from one.
    pub line: usize,
    /// Byte column within the line, counted from one.
    pub column: usize,
}

/// Mathematical image of a `Position`.
pub struct GPos {
    pub offset: int,
    pub line: int,
    pub column: int,
}

impl View for Position {
    type V = GPos;

    open spec fn view(&self) -> GPos {
        GPos {
            offset: self.offset as int,
            line: self.line as int,
            column: self.column as int,
        }
    }
}

/// A node of the parsed tree: a classified leaf or a parenthesized list.
#[derive(Debug, PartialEq, Eq)]
pub enum Token {
    Atom { position: Position, kind: TokenKind, text: Vec<u8> },
    Sexp { position: Position, children: Vec<Token> },
}

/// Mathematical image of a `Token`.
#[verifier::ext_equal]
pub enum GToken {
    Atom { position: GPos, kind: TokenKind, text: Seq<u8> },
    Sexp { position: GPos, children: Seq<GToken> },
}

/// The views of a sequence of tokens, one by one. `views_of` is the form
/// the contracts use; this recursive form only carries the view through
/// the tree.
pub open spec fn view_list(ts: Seq<Token>) -> Seq<GToken>
    decreases ts,
{
    if ts.len() == 0 {
        Seq::empty()
    } else {
        seq![ts[0]@] + view_list(ts.drop_first())
    }
}

impl View for Token {
    type V = GToken;

    open spec fn view(&self) -> GToken
        decreases self,
    {
        match self {
            Token::Atom { position, kind, text } => GToken::Atom {
                position: position@,
                kind: *kind,
                text: text@,
            },
            Token::Sexp { position, children } => GToken::Sexp {
                position: position@,
                children: {
                    proof {
                        assert(decreases_to!(*self => *children));
                        assert(decreases_to!(*children => children@));
                    }
                    view_list(children@)
                },
            },
        }
    }
}

/// The views of a sequence of tokens, element by element.
pub open spec fn views_of(ts: Seq<Token>) -> Seq<GToken> {
    Seq::new(ts.len(), |i: int| ts[i]@)
}

/// The two forms of a token sequence's view agree.
pub broadcast proof fn lemma_view_list(ts: Seq<Token>)
    ensures
        #[trigger] view_list(ts) == views_of(ts),
    decreases ts.len(),
{
    if ts.len() == 0 {
        assert(view_list(ts) =~= views_of(ts));
    } else {
        let rest = ts.drop_first();
        lemma_view_list(rest);
        assert(view_list(ts) == seq![ts[0]@] + view_list(rest));
        assert(view_list(ts).len() == ts.len());
        assert forall|i: int| 0 <= i < ts.len() implies view_list(ts)[i] == ts[i]@ by {
            if i > 0 {
                assert(view_list(ts)[i] == views_of(rest)[i - 1]);
                assert(rest[i - 1] == ts[i]);
            }
        }
        assert(view_list(ts) =~= views_of(ts));
    }
}

/// How a parse can fail.
#[derive(Clone, Copy, Debug, PartialEq, Eq, Structural)]
pub enum ErrorKind {
    /// No classification rule matches and the byte does not open a list.
    Lexical,
    /// An opening delimiter has no matching closing delimiter.
    UnterminatedList,
    /// Non-insignificant bytes remain that no top-level token accounts for.
    TrailingInput,
    /// Nesting goes past the fixed depth bound.
    DepthExceeded,
}

/// A failed parse: the kind of failure and the byte offset at which
/// parsing could no longer proceed.
#[derive(Clone, Copy, Debug, PartialEq, Eq)]
pub struct ParseError {
    pub kind: ErrorKind,
    pub offset: usize,
}

/// Mathematical image of a `ParseError`.
pub struct GErr {
    pub kind: ErrorKind,
    pub offset: int,
}

impl View for ParseError {
    type V = GErr;

    open spec fn view(&self) -> GErr {
        GErr { kind: self.kind, offset: self.offset as int }
    }
}

} // verus!

//! An S-expression reader: a recursive-descent parser that turns a source
//! buffer into a position-annotated token tree, with atoms classified by
//! lexical shape and line comments skipped, plus compact and diagnostic
//! renderings of the tree.

mod grammar;
mod laws;
mod parser;
mod render;
mod token;

pub use grammar::MAX_DEPTH;
pub use grammar::atom_end;
pub use grammar::comment_end;
pub use grammar::float_end;
pub use grammar::int_end;
pub use grammar::is_alnum;
pub use grammar::is_alpha;
pub use grammar::is_digit;
pub use grammar::is_space;
pub use grammar::is_symbol_byte;
pub use grammar::keyword_end;
pub use grammar::lemma_skip_idempotent;
pub use grammar::parse_list_spec;
pub use grammar::parse_source_spec;
pub use grammar::parse_source_spec_at;
pub use grammar::parse_token_spec;
pub use grammar::pos_at;
pub use grammar::skip_end;
pub use grammar::symbol_end;
pub use laws::height;
pub use laws::lemma_parse_positions;
pub use laws::lemma_parse_wf;
pub use laws::lemma_round_trip;
pub use laws::ordered_offsets;
pub use laws::positions_ok;
pub use laws::positions_ok_list;
pub use laws::structurally_eq;
pub use laws::structurally_eq_list;
pub use laws::tok_offset;
pub use laws::wf_list;
pub use laws::wf_token;
pub use parser::parse_atom;
pub use parser::parse_comment;
pub use parser::parse_float;
pub use parser::parse_int;
pub use parser::parse_keyword;
pub use parser::parse_sexp;
pub use parser::parse_source;
pub use parser::parse_symbol;
pub use parser::parse_token;
pub use parser::position_at;
pub use parser::skip_stuff;
pub use render::compact_join_spec;
pub use render::dec_digits;
pub use render::diag_join_spec;
pub use render::kind_name;
pub use render::render_compact;
pub use render::render_compact_spec;
pub use render::render_diag_spec;
pub use render::render_diagnostic;
pub use render::spec_kind_name;
pub use render::usize_to_dec;
pub use token::ErrorKind;
pub use token::GErr;
pub use token::GPos;
pub use token::GToken;
pub use token::ParseError;
pub use token::Position;
pub use token::Token;
pub use token::TokenKind;
pub use token::views_of;

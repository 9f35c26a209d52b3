//! A lexical scanner for nginx-style configuration text: whitespace-separated
//! words, quoted strings, line comments, brace blocks, statement terminators
//! and `${...}` parameter-expansion fragments become a flat, ordered sequence
//! of tokens annotated with 1-based source line numbers and a quoting flag.
//!
//! The pipeline has four stages: a line-continuation normalizer, a line
//! annotator, the tokenizer state machine, and a brace-balance validator.
//! Each stage's behaviour is pinned down by a spec function, and each
//! executable stage is proved to return exactly its spec.

use vstd::prelude::*;

mod balance;
mod chars;
mod props;
mod token;
mod tokenizer;

pub use balance::balance_braces;
pub use balance::balance_spec;
pub use balance::brace_step;
pub use balance::depth_to;
pub use balance::first_neg_from;
pub use balance::last_line;
pub use balance::lemma_balanced_passes_through;
pub use balance::lemma_unexpected_close;
pub use balance::lemma_unterminated_block;
pub use balance::ok_to;
pub use chars::CharLine;
pub use chars::CharLineModel;
pub use chars::Unit;
pub use chars::annotate;
pub use chars::char_lines_model;
pub use chars::escape_chars;
pub use chars::line_count;
pub use chars::read_chars;
pub use chars::strip_cr;
pub use chars::unit_text;
pub use chars::units_of;
pub use props::blank_char;
pub use props::lemma_leading_blanks_collapse;
pub use props::lemma_lex_balanced;
pub use props::lemma_lex_output_well_formed;
pub use props::lemma_lex_unexpected_close;
pub use props::lemma_lex_unterminated;
pub use props::lemma_line_continuation_merges;
pub use props::lemma_quoted_round_trip;
pub use props::lemma_tokenize_well_formed;
pub use props::lemma_word_round_trip;
pub use props::output_token_ok;
pub use props::simple_quoted_char;
pub use props::wf_token;
pub use props::wf_tokens;
pub use props::word_char;
pub use token::ErrorModel;
pub use token::NgxToken;
pub use token::ParseError;
pub use token::TokenModel;
pub use token::error_token;
pub use token::quoted_token;
pub use token::tokens_model;
pub use token::unexpected_close_msg;
pub use token::unterminated_msg;
pub use token::word_token;
pub use tokenizer::is_space;
pub use tokenizer::scan;
pub use tokenizer::scan_comment;
pub use tokenizer::scan_expansion;
pub use tokenizer::scan_quoted;
pub use tokenizer::tokenize;
pub use tokenizer::tokenize_spec;

verus! {

/// What the whole lexer returns on an input: the tokenizer's output,
/// passed through the brace-balance validator.
pub open spec fn lex_spec(s: Seq<char>) -> Seq<TokenModel> {
    balance_spec(tokenize_spec(s))
}

/// Scans the input text into its token sequence and validates brace
/// nesting.  The result is exactly `lex_spec` of the input: every token
/// with its text, 1-based starting line and quoting flag, with the
/// validator's single error token replacing or ending the sequence when
/// the braces do not balance.  The input must hold fewer than `usize::MAX`
/// characters, so that every line number fits in a `usize`.
pub fn lex(input: &str) -> (r: Vec<NgxToken>)
    requires
        input@.len() < usize::MAX,
    ensures
        tokens_model(r@) == lex_spec(input@),
{
    balance_braces(tokenize(input))
}

} // verus!

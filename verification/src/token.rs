//! The token type produced by the lexer, together with its mathematical model.

use vstd::prelude::*;

verus! {

/// Mathematical model of a parse error: the message text and the
/// 1-based source line at which the fault was detected.
#[verifier::ext_equal]
pub ghost struct ErrorModel {
    pub what: Seq<char>,
    pub line: int,
}

/// Mathematical model of a token: its text, its 1-based starting line,
/// whether it came from the quoted-string path, and an optional error.
/// A token carries a value or an error, never both meaningfully.
#[verifier::ext_equal]
pub ghost struct TokenModel {
    pub value: Seq<char>,
    pub line: int,
    pub is_quoted: bool,
    pub error: Option<ErrorModel>,
}

/// A structural fault found by the brace-balance validator.
#[derive(Debug, Clone, PartialEq)]
pub struct ParseError {
    pub what: String,
    pub line: usize,
}

/// One token of the output stream: a word, quoted string, comment,
/// single structural character, or the validator's error sentinel.
#[derive(Debug, Clone, PartialEq)]
pub struct NgxToken {
    pub value: String,
    pub line: usize,
    pub is_quoted: bool,
    pub error: Option<ParseError>,
}

impl View for ParseError {
    type V = ErrorModel;

    open spec fn view(&self) -> ErrorModel {
        ErrorModel { what: self.what@, line: self.line as int }
    }
}

impl View for NgxToken {
    type V = TokenModel;

    open spec fn view(&self) -> TokenModel {
        TokenModel {
            value: self.value@,
            line: self.line as int,
            is_quoted: self.is_quoted,
            error: match self.error {
                Some(e) => Some(e@),
                None => None,
            },
        }
    }
}

/// The model of a whole token sequence.
pub open spec fn tokens_model(ts: Seq<NgxToken>) -> Seq<TokenModel> {
    ts.map_values(|t: NgxToken| t@)
}

/// A word or comment token: unquoted text at a line.
pub open spec fn word_token(value: Seq<char>, line: int) -> TokenModel {
    TokenModel { value, line, is_quoted: false, error: None }
}

/// A token produced by the quoted-string path.
pub open spec fn quoted_token(value: Seq<char>, line: int) -> TokenModel {
    TokenModel { value, line, is_quoted: true, error: None }
}

/// The validator's error sentinel: empty value, message and line inside.
pub open spec fn error_token(what: Seq<char>, line: int) -> TokenModel {
    TokenModel {
        value: Seq::empty(),
        line,
        is_quoted: false,
        error: Some(ErrorModel { what, line }),
    }
}

/// Message of the fault reported when an unquoted `}` closes nothing.
pub open spec fn unexpected_close_msg() -> Seq<char> {
    "unexpected '}'"@
}

/// Message of the fault reported when input ends inside an open block.
pub open spec fn unterminated_msg() -> Seq<char> {
    "unexpected end of file, expecting '}'"@
}

/// Appending a token appends its model.
pub proof fn lemma_tokens_model_push(ts: Seq<NgxToken>, t: NgxToken)
    ensures
        tokens_model(ts.push(t)) == tokens_model(ts).push(t@),
{
    assert(tokens_model(ts.push(t)) =~= tokens_model(ts).push(t@));
}

/// Relies on `String: FromIterator<char>`: collecting characters yields
/// the string of exactly those characters, in order.
#[verifier::external_body]
pub(crate) fn chars_to_string(chars: &Vec<char>) -> (r: String)
    ensures
        r@ == chars@,
{
    chars.iter().collect()
}

/// Builds the error sentinel for an unquoted `}` that closes nothing.
pub(crate) fn unexpected_close_token(line: usize) -> (t: NgxToken)
    ensures
        t@ == error_token(unexpected_close_msg(), line as int),
{
    NgxToken {
        value: String::new(),
        line,
        is_quoted: false,
        error: Some(ParseError { what: String::from_str("unexpected '}'"), line }),
    }
}

/// Builds the error sentinel for input that ends inside an open block.
pub(crate) fn unterminated_token(line: usize) -> (t: NgxToken)
    ensures
        t@ == error_token(unterminated_msg(), line as int),
{
    NgxToken {
        value: String::new(),
        line,
        is_quoted: false,
        error: Some(ParseError {
            what: String::from_str("unexpected end of file, expecting '}'"),
            line,
        }),
    }
}

} // verus!

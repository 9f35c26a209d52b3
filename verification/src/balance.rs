//! The brace-balance validator: a single fail-fast pass over the token
//! sequence that tracks the nesting depth of unquoted `{` and `}` tokens.
//!
//! If the depth ever goes negative, the whole result is one error token
//! naming the line of the offending `}`.  If the depth is still positive at
//! the end, the intact sequence gets one error token appended, at the line
//! of the last token.  Otherwise the sequence passes through unchanged; the
//! asymmetry between the two faults is deliberate and part of the contract.

use vstd::prelude::*;

use crate::token::NgxToken;
use crate::token::TokenModel;
use crate::token::error_token;
use crate::token::tokens_model;
use crate::token::unexpected_close_msg;
use crate::token::unterminated_msg;

verus! {

/// How one token changes the nesting depth: an unquoted `}` closes a block,
/// an unquoted `{` opens one, everything else leaves the depth alone.
/// Quoted braces never count.
pub open spec fn brace_step(depth: int, t: TokenModel) -> int {
    if t.is_quoted {
        depth
    } else if t.value == seq!['}'] {
        depth - 1
    } else if t.value == seq!['{'] {
        depth + 1
    } else {
        depth
    }
}

/// The nesting depth after the first `i` tokens.
pub open spec fn depth_to(ts: Seq<TokenModel>, i: int) -> int
    decreases i,
{
    if i <= 0 {
        0
    } else {
        brace_step(depth_to(ts, i - 1), ts[i - 1])
    }
}

/// Whether the depth stays non-negative over the first `i` tokens.
pub open spec fn ok_to(ts: Seq<TokenModel>, i: int) -> bool
    decreases i,
{
    if i <= 0 {
        true
    } else {
        ok_to(ts, i - 1) && depth_to(ts, i) >= 0
    }
}

/// The first index, at or after `i`, whose token drives the depth negative;
/// `ts.len()` if there is none.
pub open spec fn first_neg_from(ts: Seq<TokenModel>, i: int) -> int
    decreases ts.len() - i,
{
    if i < 0 || i >= ts.len() {
        i
    } else if depth_to(ts, i + 1) < 0 {
        i
    } else {
        first_neg_from(ts, i + 1)
    }
}

/// The line of the last token, or 0 for an empty sequence.
pub open spec fn last_line(ts: Seq<TokenModel>) -> int {
    if ts.len() > 0 {
        ts.last().line
    } else {
        0
    }
}

/// What the validator returns: the sequence unchanged when its braces
/// balance; one lone error token when an unquoted `}` closes nothing; the
/// intact sequence plus one appended error token when input ends inside an
/// open block.
pub open spec fn balance_spec(ts: Seq<TokenModel>) -> Seq<TokenModel> {
    if ok_to(ts, ts.len() as int) {
        if depth_to(ts, ts.len() as int) > 0 {
            ts.push(error_token(unterminated_msg(), last_line(ts)))
        } else {
            ts
        }
    } else {
        seq![error_token(unexpected_close_msg(), ts[first_neg_from(ts, 0)].line)]
    }
}

/// A prefix of a non-negative depth history is itself non-negative.
pub proof fn lemma_ok_to_prefix(ts: Seq<TokenModel>, k: int, i: int)
    requires
        0 <= k <= i,
        ok_to(ts, i),
    ensures
        ok_to(ts, k),
    decreases i - k,
{
    if k < i {
        lemma_ok_to_prefix(ts, k, i - 1);
    }
}

/// If the depth first goes negative at `i`, the search from any earlier
/// point stops exactly at `i`.
pub proof fn lemma_first_neg_at(ts: Seq<TokenModel>, j: int, i: int)
    requires
        0 <= j <= i <= ts.len(),
        ok_to(ts, i),
        i < ts.len(),
        depth_to(ts, i + 1) < 0,
    ensures
        first_neg_from(ts, j) == i,
    decreases i - j,
{
    if j < i {
        lemma_ok_to_prefix(ts, j + 1, i);
        lemma_first_neg_at(ts, j + 1, i);
    }
}

/// A token sequence whose braces balance exactly — the depth never goes
/// negative and ends at zero — passes through the validator unchanged:
/// no error token is added.
pub proof fn lemma_balanced_passes_through(ts: Seq<TokenModel>)
    requires
        ok_to(ts, ts.len() as int),
        depth_to(ts, ts.len() as int) == 0,
    ensures
        balance_spec(ts) == ts,
{
}

/// If some unquoted `}` drives the depth negative — it closes nothing —
/// the validator discards everything and returns exactly one error token
/// carrying the "unexpected '}'" message and the line of that token.
pub proof fn lemma_unexpected_close(ts: Seq<TokenModel>, i: int)
    requires
        0 <= i < ts.len(),
        ok_to(ts, i),
        depth_to(ts, i + 1) < 0,
    ensures
        !ok_to(ts, ts.len() as int),
        balance_spec(ts) == seq![error_token(unexpected_close_msg(), ts[i].line)],
{
    if ok_to(ts, ts.len() as int) {
        lemma_ok_to_prefix(ts, i + 1, ts.len() as int);
    }
    lemma_first_neg_at(ts, 0, i);
}

/// If the depth never goes negative but is still positive at the end —
/// some `{` is never closed — the validator keeps the whole sequence and
/// appends exactly one error token carrying the end-of-file message and
/// the line of the last token.
pub proof fn lemma_unterminated_block(ts: Seq<TokenModel>)
    requires
        ok_to(ts, ts.len() as int),
        depth_to(ts, ts.len() as int) > 0,
    ensures
        balance_spec(ts) == ts.push(error_token(unterminated_msg(), last_line(ts))),
        ts.len() > 0,
{
}

/// Tests whether a token is exactly one unquoted occurrence of `c`.
fn is_structural(t: &NgxToken, c: char) -> (r: bool)
    ensures
        r == (!t@.is_quoted && t@.value == seq![c]),
{
    if t.is_quoted {
        false
    } else {
        let len = t.value.as_str().unicode_len();
        if len == 1 {
            let c0 = t.value.as_str().get_char(0);
            proof {
                if c0 == c {
                    assert(t@.value =~= seq![c]);
                }
            }
            c0 == c
        } else {
            false
        }
    }
}

/// The validator: scans the tokens once, keeping the running depth.  The
/// sequence is returned unchanged unless an unquoted `}` closes nothing —
/// then only the error token survives — or the input ends inside an open
/// block — then one error token is appended.
pub fn balance_braces(tokens: Vec<NgxToken>) -> (r: Vec<NgxToken>)
    ensures
        tokens_model(r@) == balance_spec(tokens_model(tokens@)),
{
    let ghost m = tokens_model(tokens@);
    let mut depth: usize = 0;
    let mut i: usize = 0;
    let n = tokens.len();
    proof {
        assert(m.len() == n);
    }
    while i < n
        invariant
            n == tokens@.len(),
            m == tokens_model(tokens@),
            m.len() == n,
            i <= n,
            ok_to(m, i as int),
            depth == depth_to(m, i as int),
            depth <= i,
        decreases n - i,
    {
        let t = &tokens[i];
        proof {
            assert(m[i as int] == tokens@[i as int]@);
        }
        let closes = is_structural(t, '}');
        let opens = is_structural(t, '{');
        if closes {
            if depth == 0 {
                proof {
                    lemma_unexpected_close(m, i as int);
                }
                let e = crate::token::unexpected_close_token(t.line);
                let mut out: Vec<NgxToken> = Vec::new();
                out.push(e);
                proof {
                    assert(tokens_model(out@) =~= seq![
                        error_token(unexpected_close_msg(), m[i as int].line),
                    ]);
                }
                return out;
            }
            depth = depth - 1;
        } else if opens {
            depth = depth + 1;
        }
        i = i + 1;
    }
    if depth > 0 {
        proof {
            lemma_unterminated_block(m);
        }
        let line = tokens[n - 1].line;
        proof {
            assert(m.last() == tokens@[n - 1]@);
        }
        let e = crate::token::unterminated_token(line);
        let ghost prev = tokens@;
        let mut out = tokens;
        out.push(e);
        proof {
            crate::token::lemma_tokens_model_push(prev, e);
        }
        return out;
    }
    tokens
}

} // verus!

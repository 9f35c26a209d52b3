//! The tokenizer: a single pass over the annotated units with a pending-token
//! buffer, specified as a mutually recursive state machine with one spec
//! function per state (scanning between tokens, inside a comment, inside a
//! quoted string, inside a `${...}` parameter expansion).

use vstd::prelude::*;

use crate::chars::lemma_concat_assoc;
use crate::chars::lemma_skip_skip;
use crate::chars::CharLineModel;
use crate::chars::annotate;
use crate::chars::char_lines_model;
use crate::chars::escape_chars;
use crate::chars::line_count;
use crate::chars::read_chars;
use crate::chars::strip_cr;
use crate::chars::unit_text;
use crate::chars::units_of;
use crate::token::NgxToken;
use crate::token::TokenModel;
use crate::token::chars_to_string;
use crate::token::quoted_token;
use crate::token::tokens_model;
use crate::token::word_token;

verus! {

/// The whitespace characters that separate tokens.  Classification is per
/// character; a carriage return never reaches the tokenizer, but is listed
/// so the predicate stands on its own.
pub open spec fn is_space(c: char) -> bool {
    c == ' ' || c == '\t' || c == '\n' || c == '\r'
}

/// An unescaped occurrence of a given character.
pub open spec fn is_plain(a: CharLineModel, c: char) -> bool {
    !a.escaped && a.ch == c
}

/// An unescaped whitespace unit: a token separator.
pub open spec fn is_separator(a: CharLineModel) -> bool {
    !a.escaped && is_space(a.ch)
}

/// The pending buffer flushed as a word token, or nothing if it is empty:
/// the tokenizer never emits an empty word.
pub open spec fn flush(pending: Seq<char>, line: int) -> Seq<TokenModel> {
    if pending.len() > 0 {
        seq![word_token(pending, line)]
    } else {
        Seq::empty()
    }
}

/// Scanning between tokens, with the pending buffer `pending` started at
/// line `pline`.  One unit of look-ahead decides the next state:
/// - a separator flushes the pending word;
/// - `#` at a token boundary opens a comment;
/// - `{` right after a pending `$` opens a parameter expansion;
/// - a quote mark at a token boundary opens a quoted string, while mid-token
///   it is an ordinary character;
/// - an unquoted `{`, `}` or `;` flushes the pending word and stands as its
///   own structural token;
/// - anything else is appended to the pending buffer, which records the
///   current line when it was empty.
pub open spec fn scan(cs: Seq<CharLineModel>, pending: Seq<char>, pline: int) -> Seq<TokenModel>
    decreases cs.len(),
{
    if cs.len() == 0 {
        flush(pending, pline)
    } else {
        let a = cs[0];
        let rest = cs.skip(1);
        if is_separator(a) {
            flush(pending, pline) + scan(rest, Seq::empty(), pline)
        } else if pending.len() == 0 && is_plain(a, '#') {
            scan_comment(rest, seq!['#'], a.line)
        } else if pending.len() > 0 && pending.last() == '$' && is_plain(a, '{') {
            scan_expansion(rest, pending.push('{'), pline)
        } else if is_plain(a, '"') || is_plain(a, '\'') {
            if pending.len() > 0 {
                scan(rest, pending.push(a.ch), pline)
            } else {
                scan_quoted(rest, a.ch, Seq::empty(), a.line)
            }
        } else if is_plain(a, '{') || is_plain(a, '}') || is_plain(a, ';') {
            flush(pending, pline) + seq![word_token(seq![a.ch], a.line)] + scan(
                rest,
                Seq::empty(),
                a.line,
            )
        } else {
            scan(rest, pending + unit_text(a.escaped, a.ch), if pending.len() == 0 {
                a.line
            } else {
                pline
            })
        }
    }
}

/// Inside a comment that started at `line` with text `text` so far: units
/// are appended verbatim up to, but not including, the next newline, which
/// is consumed; the comment is emitted even if input ends first.
pub open spec fn scan_comment(cs: Seq<CharLineModel>, text: Seq<char>, line: int) -> Seq<
    TokenModel,
>
    decreases cs.len(),
{
    if cs.len() == 0 {
        seq![word_token(text, line)]
    } else if is_plain(cs[0], '\n') {
        seq![word_token(text, line)] + scan(cs.skip(1), Seq::empty(), line)
    } else {
        scan_comment(cs.skip(1), text + unit_text(cs[0].escaped, cs[0].ch), line)
    }
}

/// Inside a quoted string opened by `quote` at `line` with content `text`
/// so far: the matching unescaped quote is the sole terminator, a backslash
/// before the delimiter collapses to the delimiter alone, every other unit
/// is kept verbatim, backslash included.  Input ending before the closing
/// quote simply ends the string (the partial content is still emitted).
pub open spec fn scan_quoted(
    cs: Seq<CharLineModel>,
    quote: char,
    text: Seq<char>,
    line: int,
) -> Seq<TokenModel>
    decreases cs.len(),
{
    if cs.len() == 0 {
        seq![quoted_token(text, line)]
    } else if is_plain(cs[0], quote) {
        seq![quoted_token(text, line)] + scan(cs.skip(1), Seq::empty(), line)
    } else if cs[0].escaped && cs[0].ch == quote {
        scan_quoted(cs.skip(1), quote, text.push(quote), line)
    } else {
        scan_quoted(cs.skip(1), quote, text + unit_text(cs[0].escaped, cs[0].ch), line)
    }
}

/// Inside a `${...}` parameter expansion: units are appended to the pending
/// buffer verbatim, whitespace included, until a `}` is consumed (escaped or
/// not) or input ends; the fragment stays part of the surrounding word.
pub open spec fn scan_expansion(cs: Seq<CharLineModel>, pending: Seq<char>, pline: int) -> Seq<
    TokenModel,
>
    decreases cs.len(),
{
    if cs.len() == 0 {
        flush(pending, pline)
    } else if cs[0].ch == '}' {
        scan(cs.skip(1), pending + unit_text(cs[0].escaped, cs[0].ch), pline)
    } else {
        scan_expansion(cs.skip(1), pending + unit_text(cs[0].escaped, cs[0].ch), pline)
    }
}

/// What the tokenizer returns on a whole input: normalize, annotate from
/// line 1, and scan with an empty pending buffer.
pub open spec fn tokenize_spec(s: Seq<char>) -> Seq<TokenModel> {
    scan(annotate(units_of(strip_cr(s)), 1), Seq::empty(), 1)
}

/// Unfolds `scan` at end of input: the pending word, if any, is flushed.
pub proof fn lemma_scan_end(cs: Seq<CharLineModel>, p: Seq<char>, l: int)
    requires
        cs.len() == 0,
    ensures
        scan(cs, p, l) == flush(p, l),
{
}

/// Unfolds `scan` on a separator.
pub proof fn lemma_scan_separator(cs: Seq<CharLineModel>, p: Seq<char>, l: int)
    requires
        cs.len() > 0,
        is_separator(cs[0]),
    ensures
        scan(cs, p, l) == flush(p, l) + scan(cs.skip(1), Seq::empty(), l),
{
}

/// Unfolds `scan` on a `#` at a token boundary.
pub proof fn lemma_scan_comment_open(cs: Seq<CharLineModel>, p: Seq<char>, l: int)
    requires
        cs.len() > 0,
        p.len() == 0,
        is_plain(cs[0], '#'),
    ensures
        scan(cs, p, l) == scan_comment(cs.skip(1), seq!['#'], cs[0].line),
{
}

/// Unfolds `scan` on a `{` right after a pending `$`.
pub proof fn lemma_scan_expansion_open(cs: Seq<CharLineModel>, p: Seq<char>, l: int)
    requires
        cs.len() > 0,
        p.len() > 0,
        p.last() == '$',
        is_plain(cs[0], '{'),
    ensures
        scan(cs, p, l) == scan_expansion(cs.skip(1), p.push('{'), l),
{
}

/// Unfolds `scan` on a quote mark in the middle of a word: it is an
/// ordinary character there.
pub proof fn lemma_scan_quote_mid(cs: Seq<CharLineModel>, p: Seq<char>, l: int)
    requires
        cs.len() > 0,
        p.len() > 0,
        is_plain(cs[0], '"') || is_plain(cs[0], '\''),
    ensures
        scan(cs, p, l) == scan(cs.skip(1), p.push(cs[0].ch), l),
{
}

/// Unfolds `scan` on a quote mark at a token boundary.
pub proof fn lemma_scan_quote_open(cs: Seq<CharLineModel>, p: Seq<char>, l: int)
    requires
        cs.len() > 0,
        p.len() == 0,
        is_plain(cs[0], '"') || is_plain(cs[0], '\''),
    ensures
        scan(cs, p, l) == scan_quoted(cs.skip(1), cs[0].ch, Seq::empty(), cs[0].line),
{
}

/// Unfolds `scan` on an unquoted `{`, `}` or `;` taken structurally.
pub proof fn lemma_scan_structural(cs: Seq<CharLineModel>, p: Seq<char>, l: int)
    requires
        cs.len() > 0,
        is_plain(cs[0], '{') || is_plain(cs[0], '}') || is_plain(cs[0], ';'),
        !(p.len() > 0 && p.last() == '$' && is_plain(cs[0], '{')),
    ensures
        scan(cs, p, l) == flush(p, l) + seq![word_token(seq![cs[0].ch], cs[0].line)] + scan(
            cs.skip(1),
            Seq::empty(),
            cs[0].line,
        ),
{
}

/// Unfolds `scan` on an ordinary unit appended to the pending buffer.
pub proof fn lemma_scan_ordinary(cs: Seq<CharLineModel>, p: Seq<char>, l: int)
    requires
        cs.len() > 0,
        !is_separator(cs[0]),
        !(p.len() == 0 && is_plain(cs[0], '#')),
        !(p.len() > 0 && p.last() == '$' && is_plain(cs[0], '{')),
        !is_plain(cs[0], '"'),
        !is_plain(cs[0], '\''),
        !is_plain(cs[0], '{'),
        !is_plain(cs[0], '}'),
        !is_plain(cs[0], ';'),
    ensures
        scan(cs, p, l) == scan(
            cs.skip(1),
            p + unit_text(cs[0].escaped, cs[0].ch),
            if p.len() == 0 {
                cs[0].line
            } else {
                l
            },
        ),
{
}

/// Unfolds `scan_comment` at end of input.
pub proof fn lemma_comment_end(cs: Seq<CharLineModel>, text: Seq<char>, line: int)
    requires
        cs.len() == 0,
    ensures
        scan_comment(cs, text, line) == seq![word_token(text, line)],
{
}

/// Unfolds `scan_comment` on the newline that ends it.
pub proof fn lemma_comment_close(cs: Seq<CharLineModel>, text: Seq<char>, line: int)
    requires
        cs.len() > 0,
        is_plain(cs[0], '\n'),
    ensures
        scan_comment(cs, text, line) == seq![word_token(text, line)] + scan(
            cs.skip(1),
            Seq::empty(),
            line,
        ),
{
}

/// Unfolds `scan_comment` on a unit kept verbatim.
pub proof fn lemma_comment_take(cs: Seq<CharLineModel>, text: Seq<char>, line: int)
    requires
        cs.len() > 0,
        !is_plain(cs[0], '\n'),
    ensures
        scan_comment(cs, text, line) == scan_comment(
            cs.skip(1),
            text + unit_text(cs[0].escaped, cs[0].ch),
            line,
        ),
{
}

/// Unfolds `scan_quoted` at end of input: the partial content is emitted.
pub proof fn lemma_quoted_end(cs: Seq<CharLineModel>, q: char, text: Seq<char>, line: int)
    requires
        cs.len() == 0,
    ensures
        scan_quoted(cs, q, text, line) == seq![quoted_token(text, line)],
{
}

/// Unfolds `scan_quoted` on the matching unescaped quote.
pub proof fn lemma_quoted_close(cs: Seq<CharLineModel>, q: char, text: Seq<char>, line: int)
    requires
        cs.len() > 0,
        is_plain(cs[0], q),
    ensures
        scan_quoted(cs, q, text, line) == seq![quoted_token(text, line)] + scan(
            cs.skip(1),
            Seq::empty(),
            line,
        ),
{
}

/// Unfolds `scan_quoted` on an escaped delimiter, which collapses to the
/// delimiter alone.
pub proof fn lemma_quoted_escape(cs: Seq<CharLineModel>, q: char, text: Seq<char>, line: int)
    requires
        cs.len() > 0,
        cs[0].escaped,
        cs[0].ch == q,
    ensures
        scan_quoted(cs, q, text, line) == scan_quoted(cs.skip(1), q, text.push(q), line),
{
}

/// Unfolds `scan_quoted` on a unit kept verbatim.
pub proof fn lemma_quoted_take(cs: Seq<CharLineModel>, q: char, text: Seq<char>, line: int)
    requires
        cs.len() > 0,
        !is_plain(cs[0], q),
        !(cs[0].escaped && cs[0].ch == q),
    ensures
        scan_quoted(cs, q, text, line) == scan_quoted(
            cs.skip(1),
            q,
            text + unit_text(cs[0].escaped, cs[0].ch),
            line,
        ),
{
}

/// Unfolds `scan_expansion` at end of input.
pub proof fn lemma_expansion_end(cs: Seq<CharLineModel>, p: Seq<char>, l: int)
    requires
        cs.len() == 0,
    ensures
        scan_expansion(cs, p, l) == flush(p, l),
{
}

/// Unfolds `scan_expansion` on the `}` that closes it.
pub proof fn lemma_expansion_close(cs: Seq<CharLineModel>, p: Seq<char>, l: int)
    requires
        cs.len() > 0,
        cs[0].ch == '}',
    ensures
        scan_expansion(cs, p, l) == scan(cs.skip(1), p + unit_text(cs[0].escaped, cs[0].ch), l),
{
}

/// Unfolds `scan_expansion` on a unit appended verbatim.
pub proof fn lemma_expansion_take(cs: Seq<CharLineModel>, p: Seq<char>, l: int)
    requires
        cs.len() > 0,
        cs[0].ch != '}',
    ensures
        scan_expansion(cs, p, l) == scan_expansion(
            cs.skip(1),
            p + unit_text(cs[0].escaped, cs[0].ch),
            l,
        ),
{
}

/// Flushes the pending buffer as a word token, exactly as `flush` says.
fn flush_pending(toks: &mut Vec<NgxToken>, pending: &Vec<char>, pline: usize)
    ensures
        tokens_model(final(toks)@) == tokens_model(old(toks)@) + flush(pending@, pline as int),
{
    if pending.len() > 0 {
        let ghost prev = toks@;
        let t = NgxToken {
            value: chars_to_string(pending),
            line: pline,
            is_quoted: false,
            error: None,
        };
        toks.push(t);
        proof {
            crate::token::lemma_tokens_model_push(prev, t);
            assert(t@ == word_token(pending@, pline as int));
            assert(tokens_model(prev).push(t@) =~= tokens_model(prev) + seq![t@]);
        }
    } else {
        proof {
            assert(tokens_model(toks@) + flush(pending@, pline as int) =~= tokens_model(toks@));
        }
    }
}

/// Appends one unit's text to a character buffer.
fn push_unit_text(buf: &mut Vec<char>, escaped: bool, ch: char)
    ensures
        final(buf)@ == old(buf)@ + unit_text(escaped, ch),
{
    let ghost prev = buf@;
    if escaped {
        buf.push('\\');
        buf.push(ch);
        proof {
            assert(buf@ =~= prev + unit_text(true, ch));
        }
    } else {
        buf.push(ch);
        proof {
            assert(buf@ =~= prev + unit_text(false, ch));
        }
    }
}

/// The tokenizer: one pass over the annotated units, with a pending-token
/// buffer and the line it started on.  It is total: every input yields a
/// token sequence, and all structural validation is left to the brace
/// validator.  The result is exactly `tokenize_spec` of the input.  The
/// input must hold fewer than `usize::MAX` characters, so that every line
/// number fits in a `usize`.
pub fn tokenize(input: &str) -> (r: Vec<NgxToken>)
    requires
        input@.len() < usize::MAX,
    ensures
        tokens_model(r@) == tokenize_spec(input@),
{
    let chars = read_chars(input);
    let units = escape_chars(&chars);
    proof {
        crate::chars::lemma_strip_cr_len(chars@);
        crate::chars::lemma_units_len(strip_cr(chars@));
    }
    let acs = line_count(&units);
    let ghost cs = annotate(units@, 1);
    let mut toks: Vec<NgxToken> = Vec::new();
    let mut pending: Vec<char> = Vec::new();
    let mut pline: usize = 1;
    let mut i: usize = 0;
    let n = acs.len();
    proof {
        assert(cs.skip(0) =~= cs);
        assert(tokens_model(toks@) =~= Seq::<TokenModel>::empty());
        assert(Seq::<TokenModel>::empty() + scan(cs, Seq::empty(), 1) =~= scan(
            cs,
            Seq::empty(),
            1,
        ));
    }
    while i < n
        invariant
            n == acs@.len(),
            char_lines_model(acs@) == cs,
            cs.len() == n,
            i <= n,
            tokens_model(toks@) + scan(cs.skip(i as int), pending@, pline as int) == scan(
                cs,
                Seq::empty(),
                1,
            ),
        decreases n - i,
    {
        let a = acs[i];
        let ghost i0 = i as int;
        proof {
            assert(cs[i as int] == acs@[i as int]@);
        }
        let ghost m = cs[i as int];
        let ghost tail = cs.skip(i as int);
        proof {
            assert(tail[0] == m);
            lemma_skip_skip(cs, i as int, 1);
        }
        if !a.escaped && (a.ch == ' ' || a.ch == '\t' || a.ch == '\n' || a.ch == '\r') {
            // a separator: flush the pending word and move on
            let ghost prevp = pending@;
            let ghost prevt = toks@;
            flush_pending(&mut toks, &pending, pline);
            pending = Vec::new();
            proof {
                lemma_scan_separator(tail, prevp, pline as int);
                lemma_concat_assoc(
                    tokens_model(prevt),
                    flush(prevp, pline as int),
                    scan(cs.skip(i + 1), Seq::empty(), pline as int),
                );
            }
            i = i + 1;
        } else if pending.len() == 0 && !a.escaped && a.ch == '#' {
            // a comment runs to the next newline or to end of input
            let sline = a.line;
            let mut text: Vec<char> = Vec::new();
            text.push('#');
            proof {
                assert(pending@ =~= Seq::<char>::empty());
                lemma_scan_comment_open(tail, pending@, pline as int);
                assert(text@ =~= seq!['#']);
            }
            i = i + 1;
            while i < n && (acs[i].escaped || acs[i].ch != '\n')
                invariant
                    n == acs@.len(),
                    char_lines_model(acs@) == cs,
                    cs.len() == n,
                    i0 < i <= n,
                    tokens_model(toks@) + scan_comment(cs.skip(i as int), text@, sline as int)
                        == scan(cs, Seq::empty(), 1),
                decreases n - i,
            {
                let a2 = acs[i];
                proof {
                    assert(cs[i as int] == acs@[i as int]@);
                    assert(cs.skip(i as int)[0] == cs[i as int]);
                    lemma_skip_skip(cs, i as int, 1);
                    lemma_comment_take(cs.skip(i as int), text@, sline as int);
                }
                push_unit_text(&mut text, a2.escaped, a2.ch);
                i = i + 1;
            }
            let ghost prevt = toks@;
            let t = NgxToken {
                value: chars_to_string(&text),
                line: sline,
                is_quoted: false,
                error: None,
            };
            toks.push(t);
            proof {
                crate::token::lemma_tokens_model_push(prevt, t);
                assert(t@ == word_token(text@, sline as int));
                assert(tokens_model(prevt).push(t@) =~= tokens_model(prevt) + seq![t@]);
            }
            if i < n {
                proof {
                    assert(cs[i as int] == acs@[i as int]@);
                    assert(cs.skip(i as int)[0] == cs[i as int]);
                    lemma_skip_skip(cs, i as int, 1);
                    lemma_comment_close(cs.skip(i as int), text@, sline as int);
                    lemma_concat_assoc(
                        tokens_model(prevt),
                        seq![word_token(text@, sline as int)],
                        scan(cs.skip(i + 1), Seq::empty(), sline as int),
                    );
                }
                i = i + 1;
            } else {
                proof {
                    lemma_comment_end(cs.skip(i as int), text@, sline as int);
                    lemma_scan_end(cs.skip(i as int), Seq::empty(), sline as int);
                    assert((tokens_model(prevt) + seq![word_token(text@, sline as int)])
                        + Seq::<TokenModel>::empty() =~= tokens_model(prevt) + seq![
                        word_token(text@, sline as int),
                    ]);
                }
            }
            pline = sline;
        } else if pending.len() > 0 && pending[pending.len() - 1] == '$' && !a.escaped && a.ch
            == '{' {
            // a `${...}` fragment is kept inside the surrounding word
            let ghost prevp = pending@;
            pending.push('{');
            proof {
                assert(prevp.last() == prevp[prevp.len() - 1]);
                lemma_scan_expansion_open(tail, prevp, pline as int);
            }
            i = i + 1;
            while i < n && acs[i].ch != '}'
                invariant
                    n == acs@.len(),
                    char_lines_model(acs@) == cs,
                    cs.len() == n,
                    i0 < i <= n,
                    tokens_model(toks@) + scan_expansion(cs.skip(i as int), pending@, pline as int)
                        == scan(cs, Seq::empty(), 1),
                decreases n - i,
            {
                let a2 = acs[i];
                proof {
                    assert(cs[i as int] == acs@[i as int]@);
                    assert(cs.skip(i as int)[0] == cs[i as int]);
                    lemma_skip_skip(cs, i as int, 1);
                    lemma_expansion_take(cs.skip(i as int), pending@, pline as int);
                }
                push_unit_text(&mut pending, a2.escaped, a2.ch);
                i = i + 1;
            }
            if i < n {
                let a2 = acs[i];
                proof {
                    assert(cs[i as int] == acs@[i as int]@);
                    assert(cs.skip(i as int)[0] == cs[i as int]);
                    lemma_skip_skip(cs, i as int, 1);
                    lemma_expansion_close(cs.skip(i as int), pending@, pline as int);
                }
                push_unit_text(&mut pending, a2.escaped, a2.ch);
                i = i + 1;
            } else {
                proof {
                    lemma_expansion_end(cs.skip(i as int), pending@, pline as int);
                    lemma_scan_end(cs.skip(i as int), pending@, pline as int);
                }
            }
        } else if !a.escaped && (a.ch == '"' || a.ch == '\'') {
            if pending.len() > 0 {
                // a quote inside a word is an ordinary character
                let ghost prevp = pending@;
                pending.push(a.ch);
                proof {
                    lemma_scan_quote_mid(tail, prevp, pline as int);
                }
                i = i + 1;
            } else {
                // a quoted string: the matching quote is the sole terminator
                let q = a.ch;
                let qline = a.line;
                let mut text: Vec<char> = Vec::new();
                proof {
                    assert(pending@ =~= Seq::<char>::empty());
                    lemma_scan_quote_open(tail, pending@, pline as int);
                    assert(text@ =~= Seq::<char>::empty());
                }
                i = i + 1;
                while i < n && (acs[i].escaped || acs[i].ch != q)
                    invariant
                        n == acs@.len(),
                        char_lines_model(acs@) == cs,
                        cs.len() == n,
                        i0 < i <= n,
                        tokens_model(toks@) + scan_quoted(
                            cs.skip(i as int),
                            q,
                            text@,
                            qline as int,
                        ) == scan(cs, Seq::empty(), 1),
                    decreases n - i,
                {
                    let a2 = acs[i];
                    proof {
                        assert(cs[i as int] == acs@[i as int]@);
                        assert(cs.skip(i as int)[0] == cs[i as int]);
                        lemma_skip_skip(cs, i as int, 1);
                    }
                    if a2.escaped && a2.ch == q {
                        let ghost prevtext = text@;
                        text.push(q);
                        proof {
                            lemma_quoted_escape(cs.skip(i as int), q, prevtext, qline as int);
                        }
                    } else {
                        proof {
                            lemma_quoted_take(cs.skip(i as int), q, text@, qline as int);
                        }
                        push_unit_text(&mut text, a2.escaped, a2.ch);
                    }
                    i = i + 1;
                }
                let ghost prevt = toks@;
                let t = NgxToken {
                    value: chars_to_string(&text),
                    line: qline,
                    is_quoted: true,
                    error: None,
                };
                toks.push(t);
                proof {
                    crate::token::lemma_tokens_model_push(prevt, t);
                    assert(t@ == quoted_token(text@, qline as int));
                    assert(tokens_model(prevt).push(t@) =~= tokens_model(prevt) + seq![t@]);
                }
                if i < n {
                    proof {
                        assert(cs[i as int] == acs@[i as int]@);
                        assert(cs.skip(i as int)[0] == cs[i as int]);
                        lemma_skip_skip(cs, i as int, 1);
                        lemma_quoted_close(cs.skip(i as int), q, text@, qline as int);
                        lemma_concat_assoc(
                            tokens_model(prevt),
                            seq![quoted_token(text@, qline as int)],
                            scan(cs.skip(i + 1), Seq::empty(), qline as int),
                        );
                    }
                    i = i + 1;
                } else {
                    proof {
                        lemma_quoted_end(cs.skip(i as int), q, text@, qline as int);
                        lemma_scan_end(cs.skip(i as int), Seq::empty(), qline as int);
                        assert((tokens_model(prevt) + seq![quoted_token(text@, qline as int)])
                            + Seq::<TokenModel>::empty() =~= tokens_model(prevt) + seq![
                            quoted_token(text@, qline as int),
                        ]);
                    }
                }
                pline = qline;
            }
        } else if !a.escaped && (a.ch == '{' || a.ch == '}' || a.ch == ';') {
            // a structural character: flush the word, then stand alone
            let ghost prevp = pending@;
            let ghost prevt = toks@;
            flush_pending(&mut toks, &pending, pline);
            pending = Vec::new();
            let mut sv: Vec<char> = Vec::new();
            sv.push(a.ch);
            let ghost prevt2 = toks@;
            let t = NgxToken {
                value: chars_to_string(&sv),
                line: a.line,
                is_quoted: false,
                error: None,
            };
            toks.push(t);
            proof {
                lemma_scan_structural(tail, prevp, pline as int);
                crate::token::lemma_tokens_model_push(prevt2, t);
                assert(sv@ =~= seq![m.ch]);
                assert(t@ == word_token(seq![m.ch], m.line));
                assert(tokens_model(prevt2).push(t@) =~= tokens_model(prevt2) + seq![t@]);
                lemma_concat_assoc(
                    tokens_model(prevt) + flush(prevp, pline as int),
                    seq![word_token(seq![m.ch], m.line)],
                    scan(cs.skip(i + 1), Seq::empty(), m.line),
                );
                lemma_concat_assoc(
                    tokens_model(prevt),
                    flush(prevp, pline as int),
                    seq![word_token(seq![m.ch], m.line)] + scan(cs.skip(i + 1), Seq::empty(), m.line),
                );
                lemma_concat_assoc(
                    flush(prevp, pline as int),
                    seq![word_token(seq![m.ch], m.line)],
                    scan(cs.skip(i + 1), Seq::empty(), m.line),
                );
            }
            pline = a.line;
            i = i + 1;
        } else {
            // an ordinary character joins the pending word
            let ghost oldpl = pline as int;
            let ghost prevp = pending@;
            if pending.len() == 0 {
                pline = a.line;
            }
            proof {
                assert(prevp.len() > 0 ==> prevp.last() == prevp[prevp.len() - 1]);
                lemma_scan_ordinary(tail, prevp, oldpl);
            }
            push_unit_text(&mut pending, a.escaped, a.ch);
            i = i + 1;
        }
    }
    proof {
        lemma_scan_end(cs.skip(n as int), pending@, pline as int);
    }
    flush_pending(&mut toks, &pending, pline);
    proof {
        assert(cs == annotate(units_of(strip_cr(input@)), 1));
    }
    toks
}

} // verus!

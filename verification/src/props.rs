//! Properties of the tokenizer that hold for every input: the output is
//! well formed (no error tokens, no empty unquoted tokens), runs of blank
//! separators collapse, a backslash-newline pair merges two physical lines,
//! and a single word or simple quoted string followed by a separator
//! re-tokenizes to itself.

use vstd::prelude::*;

use crate::chars::CharLineModel;
use crate::chars::annotate;
use crate::chars::Unit;
use crate::chars::lemma_annotate_step;
use crate::chars::lemma_strip_cr_keep;
use crate::chars::lemma_units_continuation;
use crate::chars::lemma_strip_cr_id;
use crate::chars::lemma_units_plain;
use crate::chars::plain_unit;
use crate::chars::strip_cr;
use crate::chars::unit_at;
use crate::chars::unit_text;
use crate::chars::units_of;
use crate::balance::depth_to;
use crate::balance::last_line;
use crate::balance::lemma_balanced_passes_through;
use crate::balance::lemma_unexpected_close;
use crate::balance::lemma_unterminated_block;
use crate::balance::ok_to;
use crate::token::TokenModel;
use crate::token::error_token;
use crate::token::unexpected_close_msg;
use crate::token::unterminated_msg;
use crate::token::quoted_token;
use crate::token::word_token;
use crate::tokenizer::flush;
use crate::tokenizer::is_plain;
use crate::tokenizer::is_separator;
use crate::tokenizer::is_space;
use crate::tokenizer::lemma_quoted_close;
use crate::tokenizer::lemma_quoted_take;
use crate::tokenizer::lemma_scan_end;
use crate::tokenizer::lemma_scan_ordinary;
use crate::tokenizer::lemma_scan_quote_open;
use crate::tokenizer::lemma_scan_separator;
use crate::tokenizer::scan;
use crate::tokenizer::scan_comment;
use crate::tokenizer::scan_expansion;
use crate::tokenizer::scan_quoted;
use crate::tokenizer::tokenize_spec;

verus! {

/// A token the tokenizer is allowed to emit: it never carries an error,
/// and only a quoted string may be empty.
pub open spec fn wf_token(t: TokenModel) -> bool {
    &&& t.error is None
    &&& !t.is_quoted ==> t.value.len() > 0
}

/// Every token of the sequence is well formed.
pub open spec fn wf_tokens(ts: Seq<TokenModel>) -> bool {
    forall|k: int| 0 <= k < ts.len() ==> wf_token(#[trigger] ts[k])
}

proof fn lemma_wf_concat(a: Seq<TokenModel>, b: Seq<TokenModel>)
    requires
        wf_tokens(a),
        wf_tokens(b),
    ensures
        wf_tokens(a + b),
{
    assert forall|k: int| 0 <= k < (a + b).len() implies wf_token(#[trigger] (a + b)[k]) by {
        if k < a.len() {
            assert((a + b)[k] == a[k]);
        } else {
            assert((a + b)[k] == b[k - a.len()]);
        }
    }
}

proof fn lemma_wf_one(t: TokenModel)
    requires
        wf_token(t),
    ensures
        wf_tokens(seq![t]),
{
    assert forall|k: int| 0 <= k < seq![t].len() implies wf_token(#[trigger] seq![t][k]) by {
        assert(seq![t][k] == t);
    }
}

proof fn lemma_wf_flush(p: Seq<char>, l: int)
    ensures
        wf_tokens(flush(p, l)),
{
    if p.len() > 0 {
        lemma_wf_one(word_token(p, l));
    }
}

proof fn lemma_scan_wf(cs: Seq<CharLineModel>, p: Seq<char>, l: int)
    ensures
        wf_tokens(scan(cs, p, l)),
    decreases cs.len(),
{
    if cs.len() == 0 {
        lemma_wf_flush(p, l);
    } else {
        let a = cs[0];
        let rest = cs.skip(1);
        if is_separator(a) {
            lemma_wf_flush(p, l);
            lemma_scan_wf(rest, Seq::empty(), l);
            lemma_wf_concat(flush(p, l), scan(rest, Seq::empty(), l));
        } else if p.len() == 0 && is_plain(a, '#') {
            lemma_scan_comment_wf(rest, seq!['#'], a.line);
        } else if p.len() > 0 && p.last() == '$' && is_plain(a, '{') {
            lemma_scan_expansion_wf(rest, p.push('{'), l);
        } else if is_plain(a, '"') || is_plain(a, '\'') {
            if p.len() > 0 {
                lemma_scan_wf(rest, p.push(a.ch), l);
            } else {
                lemma_scan_quoted_wf(rest, a.ch, Seq::empty(), a.line);
            }
        } else if is_plain(a, '{') || is_plain(a, '}') || is_plain(a, ';') {
            lemma_wf_flush(p, l);
            lemma_wf_one(word_token(seq![a.ch], a.line));
            lemma_scan_wf(rest, Seq::empty(), a.line);
            lemma_wf_concat(flush(p, l), seq![word_token(seq![a.ch], a.line)]);
            lemma_wf_concat(
                flush(p, l) + seq![word_token(seq![a.ch], a.line)],
                scan(rest, Seq::empty(), a.line),
            );
        } else {
            lemma_scan_wf(
                rest,
                p + unit_text(a.escaped, a.ch),
                if p.len() == 0 {
                    a.line
                } else {
                    l
                },
            );
        }
    }
}

proof fn lemma_scan_comment_wf(cs: Seq<CharLineModel>, text: Seq<char>, line: int)
    requires
        text.len() > 0,
    ensures
        wf_tokens(scan_comment(cs, text, line)),
    decreases cs.len(),
{
    if cs.len() == 0 {
        lemma_wf_one(word_token(text, line));
    } else if is_plain(cs[0], '\n') {
        lemma_wf_one(word_token(text, line));
        lemma_scan_wf(cs.skip(1), Seq::empty(), line);
        lemma_wf_concat(seq![word_token(text, line)], scan(cs.skip(1), Seq::empty(), line));
    } else {
        lemma_scan_comment_wf(cs.skip(1), text + unit_text(cs[0].escaped, cs[0].ch), line);
    }
}

proof fn lemma_scan_quoted_wf(cs: Seq<CharLineModel>, q: char, text: Seq<char>, line: int)
    ensures
        wf_tokens(scan_quoted(cs, q, text, line)),
    decreases cs.len(),
{
    if cs.len() == 0 {
        lemma_wf_one(quoted_token(text, line));
    } else if is_plain(cs[0], q) {
        lemma_wf_one(quoted_token(text, line));
        lemma_scan_wf(cs.skip(1), Seq::empty(), line);
        lemma_wf_concat(seq![quoted_token(text, line)], scan(cs.skip(1), Seq::empty(), line));
    } else if cs[0].escaped && cs[0].ch == q {
        lemma_scan_quoted_wf(cs.skip(1), q, text.push(q), line);
    } else {
        lemma_scan_quoted_wf(cs.skip(1), q, text + unit_text(cs[0].escaped, cs[0].ch), line);
    }
}

proof fn lemma_scan_expansion_wf(cs: Seq<CharLineModel>, p: Seq<char>, l: int)
    ensures
        wf_tokens(scan_expansion(cs, p, l)),
    decreases cs.len(),
{
    if cs.len() == 0 {
        lemma_wf_flush(p, l);
    } else if cs[0].ch == '}' {
        lemma_scan_wf(cs.skip(1), p + unit_text(cs[0].escaped, cs[0].ch), l);
    } else {
        lemma_scan_expansion_wf(cs.skip(1), p + unit_text(cs[0].escaped, cs[0].ch), l);
    }
}

/// On every input the tokenizer's whole output is well formed: no token
/// carries an error, and every word, comment and structural token is
/// non-empty (only a quoted string may be empty).  All failure reporting
/// is left to the validator.
pub proof fn lemma_tokenize_well_formed(s: Seq<char>)
    ensures
        wf_tokens(tokenize_spec(s)),
{
    lemma_scan_wf(annotate(units_of(strip_cr(s)), 1), Seq::empty(), 1);
}

/// A blank separator character: a space or a tab.
pub open spec fn blank_char(c: char) -> bool {
    c == ' ' || c == '\t'
}

/// Any run of spaces and tabs in front of the input is invisible to the
/// tokenizer: it collapses into the token boundary that was already there,
/// and never yields a token of its own.
pub proof fn lemma_leading_blanks_collapse(w: Seq<char>, s: Seq<char>)
    requires
        forall|k: int| 0 <= k < w.len() ==> blank_char(#[trigger] w[k]),
    ensures
        tokenize_spec(w + s) == tokenize_spec(s),
    decreases w.len(),
{
    if w.len() == 0 {
        assert(w + s =~= s);
    } else {
        let c = w[0];
        let t = w + s;
        assert(t[0] == c);
        lemma_strip_cr_keep(t);
        assert(t.skip(1) =~= w.skip(1) + s);
        let y = strip_cr(w.skip(1) + s);
        let z = seq![c] + y;
        assert(z[0] == c);
        lemma_units_plain(z);
        assert(z.skip(1) =~= y);
        let us = seq![plain_unit(c)] + units_of(y);
        assert(us[0] == plain_unit(c));
        lemma_annotate_step(us, 1);
        assert(us.skip(1) =~= units_of(y));
        let cs0 = seq![unit_at(plain_unit(c), 1)] + annotate(units_of(y), 1);
        assert(cs0[0] == unit_at(plain_unit(c), 1));
        lemma_scan_separator(cs0, Seq::empty(), 1);
        assert(cs0.skip(1) =~= annotate(units_of(y), 1));
        assert(flush(Seq::empty(), 1) + scan(annotate(units_of(y), 1), Seq::empty(), 1) =~= scan(
            annotate(units_of(y), 1),
            Seq::empty(),
            1,
        ));
        assert forall|k: int| 0 <= k < w.skip(1).len() implies blank_char(
            #[trigger] w.skip(1)[k],
        ) by {
            assert(w.skip(1)[k] == w[k + 1]);
        }
        lemma_leading_blanks_collapse(w.skip(1), s);
    }
}

/// Dropping carriage returns leaves a prefix that has none untouched.
proof fn lemma_strip_cr_clean_prefix(a: Seq<char>, x: Seq<char>)
    requires
        forall|k: int| 0 <= k < a.len() ==> a[k] != '\r',
    ensures
        strip_cr(a + x) == a + strip_cr(x),
    decreases a.len(),
{
    if a.len() == 0 {
        assert(a + x =~= x);
        assert(a + strip_cr(x) =~= strip_cr(x));
    } else {
        let t = a + x;
        assert(t[0] == a[0]);
        lemma_strip_cr_keep(t);
        assert(t.skip(1) =~= a.skip(1) + x);
        assert forall|k: int| 0 <= k < a.skip(1).len() implies a.skip(1)[k] != '\r' by {
            assert(a.skip(1)[k] == a[k + 1]);
        }
        lemma_strip_cr_clean_prefix(a.skip(1), x);
        assert(seq![a[0]] + (a.skip(1) + strip_cr(x)) =~= a + strip_cr(x));
    }
}

/// A backslash-newline pair after a backslash-free prefix leaves no unit
/// behind.
proof fn lemma_units_continuation_removed(a: Seq<char>, x: Seq<char>)
    requires
        forall|k: int| 0 <= k < a.len() ==> a[k] != '\\',
    ensures
        units_of(a + (seq!['\\', '\n'] + x)) == units_of(a + x),
    decreases a.len(),
{
    let cont = seq!['\\', '\n'];
    if a.len() == 0 {
        let t = a + (cont + x);
        assert(t =~= cont + x);
        assert((cont + x)[0] == '\\');
        assert((cont + x)[1] == '\n');
        lemma_units_continuation(cont + x);
        assert((cont + x).skip(2) =~= x);
        assert(a + x =~= x);
    } else {
        let c = a[0];
        let t = a + (cont + x);
        assert(t[0] == c);
        lemma_units_plain(t);
        assert(t.skip(1) =~= a.skip(1) + (cont + x));
        let t2 = a + x;
        assert(t2[0] == c);
        lemma_units_plain(t2);
        assert(t2.skip(1) =~= a.skip(1) + x);
        assert forall|k: int| 0 <= k < a.skip(1).len() implies a.skip(1)[k] != '\\' by {
            assert(a.skip(1)[k] == a[k + 1]);
        }
        lemma_units_continuation_removed(a.skip(1), x);
    }
}

/// A backslash immediately followed by a newline merges two physical lines:
/// tokenizing with the pair present is the same as tokenizing with it gone,
/// so the merged line's tokens keep the first line's number.  The prefix
/// must be free of backslashes and carriage returns, so that the pair is
/// really a continuation and not the tail of an escape.
pub proof fn lemma_line_continuation_merges(a: Seq<char>, b: Seq<char>)
    requires
        forall|k: int| 0 <= k < a.len() ==> a[k] != '\\' && a[k] != '\r',
    ensures
        tokenize_spec(a + seq!['\\', '\n'] + b) == tokenize_spec(a + b),
{
    let cont = seq!['\\', '\n'];
    let t = a + cont + b;
    assert(t =~= (a + cont) + b);
    assert forall|k: int| 0 <= k < (a + cont).len() implies (a + cont)[k] != '\r' by {
        if k < a.len() {
            assert((a + cont)[k] == a[k]);
        } else {
            assert((a + cont)[k] == cont[k - a.len()]);
        }
    }
    lemma_strip_cr_clean_prefix(a + cont, b);
    assert((a + cont) + strip_cr(b) =~= a + (cont + strip_cr(b)));
    lemma_units_continuation_removed(a, strip_cr(b));
    lemma_strip_cr_clean_prefix(a, b);
    assert(strip_cr(t) == a + (cont + strip_cr(b)));
    assert(units_of(strip_cr(t)) == units_of(a + strip_cr(b)));
    assert(strip_cr(a + b) == a + strip_cr(b));
}

/// A character that an unquoted word can be made of: not whitespace, not a
/// backslash, not a quote mark and not a structural character.
pub open spec fn word_char(c: char) -> bool {
    &&& !is_space(c)
    &&& c != '\\'
    &&& c != '"'
    &&& c != '\''
    &&& c != '{'
    &&& c != '}'
    &&& c != ';'
}

proof fn lemma_scan_word(v: Seq<char>, p: Seq<char>, l: int, ln: int)
    requires
        forall|k: int| 0 <= k < v.len() ==> word_char(#[trigger] v[k]),
        p.len() > 0,
    ensures
        scan(annotate(units_of(v + seq![' ']), ln), p, l) == seq![word_token(p + v, l)],
    decreases v.len(),
{
    if v.len() == 0 {
        let t = v + seq![' '];
        assert(t =~= seq![' ']);
        assert(t[0] == ' ');
        lemma_units_plain(t);
        assert(t.skip(1) =~= Seq::<char>::empty());
        assert(units_of(t) =~= seq![plain_unit(' ')]);
        let us = seq![plain_unit(' ')];
        lemma_annotate_step(us, ln);
        assert(us.skip(1) =~= Seq::<Unit>::empty());
        let cs0 = seq![unit_at(plain_unit(' '), ln)];
        assert(annotate(us, ln) =~= cs0);
        lemma_scan_separator(cs0, p, l);
        assert(cs0.skip(1) =~= Seq::<CharLineModel>::empty());
        lemma_scan_end(cs0.skip(1), Seq::empty(), l);
        assert(flush(Seq::empty(), l) =~= Seq::<TokenModel>::empty());
        assert(flush(p, l) + Seq::<TokenModel>::empty() =~= seq![word_token(p, l)]);
        assert(p + v =~= p);
    } else {
        let c = v[0];
        let t = v + seq![' '];
        assert(t[0] == c);
        lemma_units_plain(t);
        assert(t.skip(1) =~= v.skip(1) + seq![' ']);
        let y = units_of(v.skip(1) + seq![' ']);
        let us = seq![plain_unit(c)] + y;
        assert(units_of(t) == us);
        assert(us[0] == plain_unit(c));
        lemma_annotate_step(us, ln);
        assert(us.skip(1) =~= y);
        let cs0 = seq![unit_at(plain_unit(c), ln)] + annotate(y, ln);
        assert(annotate(us, ln) == cs0);
        assert(cs0[0] == unit_at(plain_unit(c), ln));
        lemma_scan_ordinary(cs0, p, l);
        assert(cs0.skip(1) =~= annotate(y, ln));
        assert(p + unit_text(false, c) =~= p.push(c));
        assert forall|k: int| 0 <= k < v.skip(1).len() implies word_char(
            #[trigger] v.skip(1)[k],
        ) by {
            assert(v.skip(1)[k] == v[k + 1]);
        }
        lemma_scan_word(v.skip(1), p.push(c), l, ln);
        assert(p.push(c) + v.skip(1) =~= p + v);
    }
}

/// Re-tokenizing a word token's text, followed by a separator, yields that
/// word again, at line 1 and unquoted: the round trip for plain words.
pub proof fn lemma_word_round_trip(v: Seq<char>)
    requires
        v.len() > 0,
        forall|k: int| 0 <= k < v.len() ==> word_char(#[trigger] v[k]),
        v[0] != '#',
    ensures
        tokenize_spec(v + seq![' ']) == seq![word_token(v, 1)],
{
    let t = v + seq![' '];
    assert forall|k: int| 0 <= k < t.len() implies t[k] != '\r' by {
        if k < v.len() {
            assert(t[k] == v[k]);
        } else {
            assert(t[k] == ' ');
        }
    }
    lemma_strip_cr_id(t);
    let c = v[0];
    assert(t[0] == c);
    lemma_units_plain(t);
    assert(t.skip(1) =~= v.skip(1) + seq![' ']);
    let y = units_of(v.skip(1) + seq![' ']);
    let us = seq![plain_unit(c)] + y;
    assert(units_of(t) == us);
    assert(us[0] == plain_unit(c));
    lemma_annotate_step(us, 1);
    assert(us.skip(1) =~= y);
    let cs0 = seq![unit_at(plain_unit(c), 1)] + annotate(y, 1);
    assert(annotate(us, 1) == cs0);
    assert(cs0[0] == unit_at(plain_unit(c), 1));
    lemma_scan_ordinary(cs0, Seq::empty(), 1);
    assert(cs0.skip(1) =~= annotate(y, 1));
    assert(Seq::<char>::empty() + unit_text(false, c) =~= seq![c]);
    assert forall|k: int| 0 <= k < v.skip(1).len() implies word_char(#[trigger] v.skip(1)[k]) by {
        assert(v.skip(1)[k] == v[k + 1]);
    }
    lemma_scan_word(v.skip(1), seq![c], 1, 1);
    assert(seq![c] + v.skip(1) =~= v);
}

/// A character a simple quoted string can be made of: anything but the
/// delimiter itself, a backslash or a carriage return.
pub open spec fn simple_quoted_char(c: char, q: char) -> bool {
    c != q && c != '\\' && c != '\r'
}

proof fn lemma_scan_quoted_body(v: Seq<char>, q: char, acc: Seq<char>, l: int, ln: int)
    requires
        q == '"' || q == '\'',
        forall|k: int| 0 <= k < v.len() ==> simple_quoted_char(#[trigger] v[k], q),
    ensures
        scan_quoted(annotate(units_of(v + seq![q] + seq![' ']), ln), q, acc, l) == seq![
            quoted_token(acc + v, l),
        ],
    decreases v.len(),
{
    if v.len() == 0 {
        let t = v + seq![q] + seq![' '];
        assert(t =~= seq![q] + seq![' ']);
        assert(t[0] == q);
        lemma_units_plain(t);
        assert(t.skip(1) =~= seq![' ']);
        lemma_units_plain(seq![' ']);
        assert(seq![' '].skip(1) =~= Seq::<char>::empty());
        assert(units_of(seq![' ']) =~= seq![plain_unit(' ')]);
        let us = seq![plain_unit(q)] + seq![plain_unit(' ')];
        assert(units_of(t) =~= us);
        assert(us[0] == plain_unit(q));
        lemma_annotate_step(us, ln);
        assert(us.skip(1) =~= seq![plain_unit(' ')]);
        let us2 = seq![plain_unit(' ')];
        lemma_annotate_step(us2, ln);
        assert(us2.skip(1) =~= Seq::<Unit>::empty());
        assert(annotate(us2, ln) =~= seq![unit_at(plain_unit(' '), ln)]);
        let cs0 = seq![unit_at(plain_unit(q), ln)] + seq![unit_at(plain_unit(' '), ln)];
        assert(annotate(us, ln) =~= cs0);
        assert(cs0[0] == unit_at(plain_unit(q), ln));
        lemma_quoted_close(cs0, q, acc, l);
        assert(cs0.skip(1) =~= seq![unit_at(plain_unit(' '), ln)]);
        let cs1 = seq![unit_at(plain_unit(' '), ln)];
        assert(cs1[0] == unit_at(plain_unit(' '), ln));
        lemma_scan_separator(cs1, Seq::empty(), l);
        assert(cs1.skip(1) =~= Seq::<CharLineModel>::empty());
        lemma_scan_end(cs1.skip(1), Seq::empty(), l);
        assert(flush(Seq::empty(), l) =~= Seq::<TokenModel>::empty());
        assert(scan(cs1, Seq::empty(), l) =~= Seq::<TokenModel>::empty());
        assert(seq![quoted_token(acc, l)] + Seq::<TokenModel>::empty() =~= seq![
            quoted_token(acc, l),
        ]);
        assert(acc + v =~= acc);
    } else {
        let c = v[0];
        let t = v + seq![q] + seq![' '];
        assert(t[0] == c);
        assert(c != '\\');
        lemma_units_plain(t);
        assert(t.skip(1) =~= v.skip(1) + seq![q] + seq![' ']);
        let y = units_of(v.skip(1) + seq![q] + seq![' ']);
        let us = seq![plain_unit(c)] + y;
        assert(units_of(t) == us);
        assert(us[0] == plain_unit(c));
        lemma_annotate_step(us, ln);
        assert(us.skip(1) =~= y);
        let ln2: int = if c == '\n' {
            ln + 1
        } else {
            ln
        };
        let cs0 = seq![unit_at(plain_unit(c), ln)] + annotate(y, ln2);
        assert(annotate(us, ln) == cs0);
        assert(cs0[0] == unit_at(plain_unit(c), ln));
        lemma_quoted_take(cs0, q, acc, l);
        assert(cs0.skip(1) =~= annotate(y, ln2));
        assert forall|k: int| 0 <= k < v.skip(1).len() implies simple_quoted_char(
            #[trigger] v.skip(1)[k],
            q,
        ) by {
            assert(v.skip(1)[k] == v[k + 1]);
        }
        lemma_scan_quoted_body(v.skip(1), q, acc + unit_text(false, c), l, ln2);
        assert((acc + unit_text(false, c)) + v.skip(1) =~= acc + v);
    }
}

/// Re-quoting a simple quoted token's content and re-tokenizing it,
/// followed by a separator, yields the same quoted token again, at line 1:
/// the round trip for quoted strings without embedded escapes.
pub proof fn lemma_quoted_round_trip(v: Seq<char>, q: char)
    requires
        q == '"' || q == '\'',
        forall|k: int| 0 <= k < v.len() ==> simple_quoted_char(#[trigger] v[k], q),
    ensures
        tokenize_spec(seq![q] + v + seq![q] + seq![' ']) == seq![quoted_token(v, 1)],
{
    let t = seq![q] + v + seq![q] + seq![' '];
    assert forall|k: int| 0 <= k < t.len() implies t[k] != '\r' by {
        if k == 0 {
            assert(t[k] == q);
        } else if k < 1 + v.len() {
            assert(t[k] == v[k - 1]);
        } else if k == 1 + v.len() {
            assert(t[k] == q);
        } else {
            assert(t[k] == ' ');
        }
    }
    lemma_strip_cr_id(t);
    assert(t[0] == q);
    lemma_units_plain(t);
    assert(t.skip(1) =~= v + seq![q] + seq![' ']);
    let y = units_of(v + seq![q] + seq![' ']);
    let us = seq![plain_unit(q)] + y;
    assert(units_of(t) == us);
    assert(us[0] == plain_unit(q));
    lemma_annotate_step(us, 1);
    assert(us.skip(1) =~= y);
    let cs0 = seq![unit_at(plain_unit(q), 1)] + annotate(y, 1);
    assert(annotate(us, 1) == cs0);
    assert(cs0[0] == unit_at(plain_unit(q), 1));
    lemma_scan_quote_open(cs0, Seq::empty(), 1);
    assert(cs0.skip(1) =~= annotate(y, 1));
    lemma_scan_quoted_body(v, q, Seq::empty(), 1, 1);
    assert(Seq::<char>::empty() + v =~= v);
}

/// When the tokenizer's output for an input balances its braces exactly,
/// the whole lexer returns that output unchanged: no error token appears.
pub proof fn lemma_lex_balanced(s: Seq<char>)
    requires
        ok_to(tokenize_spec(s), tokenize_spec(s).len() as int),
        depth_to(tokenize_spec(s), tokenize_spec(s).len() as int) == 0,
    ensures
        crate::lex_spec(s) == tokenize_spec(s),
{
    lemma_balanced_passes_through(tokenize_spec(s));
}

/// When some unquoted `}` in the tokenizer's output closes nothing, the
/// whole lexer returns exactly one error token for that token's line.
pub proof fn lemma_lex_unexpected_close(s: Seq<char>, i: int)
    requires
        0 <= i < tokenize_spec(s).len(),
        ok_to(tokenize_spec(s), i),
        depth_to(tokenize_spec(s), i + 1) < 0,
    ensures
        crate::lex_spec(s) == seq![
            error_token(unexpected_close_msg(), tokenize_spec(s)[i].line),
        ],
{
    lemma_unexpected_close(tokenize_spec(s), i);
}

/// When the tokenizer's output never closes too much but leaves blocks
/// open, the whole lexer keeps every token and appends exactly one error
/// token at the last token's line.
pub proof fn lemma_lex_unterminated(s: Seq<char>)
    requires
        ok_to(tokenize_spec(s), tokenize_spec(s).len() as int),
        depth_to(tokenize_spec(s), tokenize_spec(s).len() as int) > 0,
    ensures
        crate::lex_spec(s) == tokenize_spec(s).push(
            error_token(unterminated_msg(), last_line(tokenize_spec(s))),
        ),
{
    lemma_unterminated_block(tokenize_spec(s));
}

/// What every token handed to a caller satisfies: an error sentinel has an
/// empty value, and any other token is a well-formed lexer token — a token
/// carries a value or an error, never both.
pub open spec fn output_token_ok(t: TokenModel) -> bool {
    if t.error is Some {
        t.value.len() == 0
    } else {
        !t.is_quoted ==> t.value.len() > 0
    }
}

/// The whole lexer's output never holds a token with an empty value unless
/// that token is the validator's error sentinel, and error tokens carry no
/// value of their own.
pub proof fn lemma_lex_output_well_formed(s: Seq<char>)
    ensures
        forall|k: int|
            0 <= k < crate::lex_spec(s).len() ==> output_token_ok(#[trigger] crate::lex_spec(s)[k]),
{
    let ts = tokenize_spec(s);
    lemma_tokenize_well_formed(s);
    let out = crate::lex_spec(s);
    assert forall|k: int| 0 <= k < out.len() implies output_token_ok(#[trigger] out[k]) by {
        if ok_to(ts, ts.len() as int) {
            if depth_to(ts, ts.len() as int) > 0 {
                if k < ts.len() {
                    assert(out[k] == ts[k]);
                    assert(wf_token(ts[k]));
                } else {
                    assert(out[k] == error_token(unterminated_msg(), last_line(ts)));
                }
            } else {
                assert(out[k] == ts[k]);
                assert(wf_token(ts[k]));
            }
        } else {
            assert(out[k] == error_token(
                unexpected_close_msg(),
                ts[crate::balance::first_neg_from(ts, 0)].line,
            ));
        }
    }
}

} // verus!

//! The first two pipeline stages: the line-continuation normalizer and the
//! line annotator.
//!
//! The normalizer drops every carriage return, drops each backslash-newline
//! line-continuation pair, and keeps every other backslash pair together as
//! one undecoded unit, so that the tokenizer can interpret escapes
//! contextually.  The annotator tags each unit with the 1-based line number
//! of the source line it belongs to; a newline is tagged with the line it
//! terminates.

use vstd::prelude::*;

verus! {

/// One unit of normalized input: a plain character, or a character that was
/// preceded by a backslash (the escape pair is kept undecoded; `escaped`
/// records the backslash).  A lone backslash at end of input is a plain
/// `'\\'` unit.
#[derive(Debug, Clone, Copy, PartialEq, Eq)]
pub struct Unit {
    pub escaped: bool,
    pub ch: char,
}

/// A unit together with the 1-based source line number it occurred on.
#[derive(Debug, Clone, Copy, PartialEq, Eq)]
pub struct CharLine {
    pub escaped: bool,
    pub ch: char,
    pub line: usize,
}

/// Mathematical model of an annotated unit, with an unbounded line number.
#[verifier::ext_equal]
pub ghost struct CharLineModel {
    pub escaped: bool,
    pub ch: char,
    pub line: int,
}

impl View for CharLine {
    type V = CharLineModel;

    open spec fn view(&self) -> CharLineModel {
        CharLineModel { escaped: self.escaped, ch: self.ch, line: self.line as int }
    }
}

/// The model of a whole annotated sequence.
pub open spec fn char_lines_model(cs: Seq<CharLine>) -> Seq<CharLineModel> {
    cs.map_values(|c: CharLine| c@)
}

/// A character forwarded on its own, without a preceding backslash.
pub open spec fn plain_unit(c: char) -> Unit {
    Unit { escaped: false, ch: c }
}

/// A character forwarded together with the backslash that preceded it.
pub open spec fn escaped_unit(c: char) -> Unit {
    Unit { escaped: true, ch: c }
}

/// A unit placed at a source line.
pub open spec fn unit_at(u: Unit, line: int) -> CharLineModel {
    CharLineModel { escaped: u.escaped, ch: u.ch, line }
}

/// The text a unit contributes when appended verbatim: the backslash of an
/// escape pair is kept.
pub open spec fn unit_text(escaped: bool, ch: char) -> Seq<char> {
    if escaped {
        seq!['\\', ch]
    } else {
        seq![ch]
    }
}

/// The input with every carriage return dropped.  Dropping them first means
/// a carriage return disappears even between a backslash and the character
/// it escapes, so `\` `\r` `\n` still forms a line continuation.
pub open spec fn strip_cr(s: Seq<char>) -> Seq<char>
    decreases s.len(),
{
    if s.len() == 0 {
        s
    } else if s[0] == '\r' {
        strip_cr(s.skip(1))
    } else {
        seq![s[0]] + strip_cr(s.skip(1))
    }
}

/// Splits a carriage-return-free character sequence into units, applied left
/// to right: a backslash-newline pair is dropped entirely (the logical line
/// continues), any other backslash pair becomes one escaped unit, a lone
/// trailing backslash stays as itself, and every other character is a plain
/// unit.
pub open spec fn units_of(s: Seq<char>) -> Seq<Unit>
    decreases s.len(),
{
    if s.len() == 0 {
        Seq::empty()
    } else if s[0] == '\\' {
        if s.len() == 1 {
            seq![plain_unit('\\')]
        } else if s[1] == '\n' {
            units_of(s.skip(2))
        } else {
            seq![escaped_unit(s[1])] + units_of(s.skip(2))
        }
    } else {
        seq![plain_unit(s[0])] + units_of(s.skip(1))
    }
}

/// Tags each unit with the current line number, starting from `line`; the
/// counter advances after a forwarded newline, so the newline itself carries
/// the number of the line it terminates.
pub open spec fn annotate(us: Seq<Unit>, line: int) -> Seq<CharLineModel>
    decreases us.len(),
{
    if us.len() == 0 {
        Seq::empty()
    } else {
        seq![unit_at(us[0], line)] + annotate(
            us.skip(1),
            if !us[0].escaped && us[0].ch == '\n' {
                line + 1
            } else {
                line
            },
        )
    }
}

/// Splitting off one leading element distributes over concatenation.
pub proof fn lemma_snoc_concat<A>(a: Seq<A>, x: A, b: Seq<A>)
    ensures
        a.push(x) + b == a + (seq![x] + b),
{
    assert(a.push(x) + b =~= a + (seq![x] + b));
}

/// Concatenation of sequences is associative.
pub proof fn lemma_concat_assoc<A>(a: Seq<A>, b: Seq<A>, c: Seq<A>)
    ensures
        (a + b) + c == a + (b + c),
{
    assert((a + b) + c =~= a + (b + c));
}

/// Two successive skips collapse into one.
pub proof fn lemma_skip_skip<A>(s: Seq<A>, i: int, k: int)
    requires
        0 <= i,
        0 <= k,
        i + k <= s.len(),
    ensures
        s.skip(i).skip(k) == s.skip(i + k),
{
    assert(s.skip(i).skip(k) =~= s.skip(i + k));
}

/// Unfolds `strip_cr` on a sequence whose head is a carriage return.
pub proof fn lemma_strip_cr_drop(s: Seq<char>)
    requires
        s.len() > 0,
        s[0] == '\r',
    ensures
        strip_cr(s) == strip_cr(s.skip(1)),
{
}

/// Unfolds `strip_cr` on a sequence whose head is kept.
pub proof fn lemma_strip_cr_keep(s: Seq<char>)
    requires
        s.len() > 0,
        s[0] != '\r',
    ensures
        strip_cr(s) == seq![s[0]] + strip_cr(s.skip(1)),
{
}

/// Unfolds `units_of` on a plain leading character.
pub proof fn lemma_units_plain(s: Seq<char>)
    requires
        s.len() > 0,
        s[0] != '\\',
    ensures
        units_of(s) == seq![plain_unit(s[0])] + units_of(s.skip(1)),
{
}

/// Unfolds `units_of` on a lone trailing backslash.
pub proof fn lemma_units_lone(s: Seq<char>)
    requires
        s.len() == 1,
        s[0] == '\\',
    ensures
        units_of(s) == seq![plain_unit('\\')],
{
}

/// Unfolds `units_of` on a backslash-newline line continuation.
pub proof fn lemma_units_continuation(s: Seq<char>)
    requires
        s.len() >= 2,
        s[0] == '\\',
        s[1] == '\n',
    ensures
        units_of(s) == units_of(s.skip(2)),
{
}

/// Unfolds `units_of` on an escape pair.
pub proof fn lemma_units_pair(s: Seq<char>)
    requires
        s.len() >= 2,
        s[0] == '\\',
        s[1] != '\n',
    ensures
        units_of(s) == seq![escaped_unit(s[1])] + units_of(s.skip(2)),
{
}

/// Unfolds `annotate` by one unit.
pub proof fn lemma_annotate_step(us: Seq<Unit>, line: int)
    requires
        us.len() > 0,
    ensures
        annotate(us, line) == seq![unit_at(us[0], line)] + annotate(
            us.skip(1),
            if !us[0].escaped && us[0].ch == '\n' {
                line + 1
            } else {
                line
            },
        ),
{
}

/// A sequence without carriage returns passes through `strip_cr` unchanged.
pub proof fn lemma_strip_cr_id(s: Seq<char>)
    requires
        forall|k: int| 0 <= k < s.len() ==> s[k] != '\r',
    ensures
        strip_cr(s) == s,
    decreases s.len(),
{
    if s.len() > 0 {
        lemma_strip_cr_id(s.skip(1));
        lemma_strip_cr_keep(s);
        assert(seq![s[0]] + s.skip(1) =~= s);
    }
}

/// Dropping carriage returns never lengthens the input.
pub proof fn lemma_strip_cr_len(s: Seq<char>)
    ensures
        strip_cr(s).len() <= s.len(),
    decreases s.len(),
{
    if s.len() > 0 {
        lemma_strip_cr_len(s.skip(1));
    }
}

/// There are never more units than characters.
pub proof fn lemma_units_len(s: Seq<char>)
    ensures
        units_of(s).len() <= s.len(),
    decreases s.len(),
{
    if s.len() == 0 {
    } else if s[0] == '\\' {
        if s.len() == 1 {
        } else {
            lemma_units_len(s.skip(2));
        }
    } else {
        lemma_units_len(s.skip(1));
    }
}

/// Materializes the characters of the input text, in order.
pub fn read_chars(input: &str) -> (r: Vec<char>)
    ensures
        r@ == input@,
{
    let n = input.unicode_len();
    let mut r: Vec<char> = Vec::new();
    let mut i: usize = 0;
    while i < n
        invariant
            n == input@.len(),
            i <= n,
            r@ == input@.take(i as int),
        decreases n - i,
    {
        let c = input.get_char(i);
        r.push(c);
        proof {
            assert(input@.take(i as int).push(input@[i as int]) =~= input@.take(i + 1));
        }
        i = i + 1;
    }
    proof {
        assert(input@.take(n as int) =~= input@);
    }
    r
}

/// Drops every carriage return, the first rewrite of the normalizer.
fn drop_carriage_returns(chars: &Vec<char>) -> (r: Vec<char>)
    ensures
        r@ == strip_cr(chars@),
{
    let mut stripped: Vec<char> = Vec::new();
    let mut i: usize = 0;
    proof {
        assert(chars@.skip(0) =~= chars@);
        assert(Seq::<char>::empty() + strip_cr(chars@) =~= strip_cr(chars@));
    }
    while i < chars.len()
        invariant
            i <= chars@.len(),
            stripped@ + strip_cr(chars@.skip(i as int)) == strip_cr(chars@),
        decreases chars@.len() - i,
    {
        let c = chars[i];
        proof {
            lemma_skip_skip(chars@, i as int, 1);
        }
        if c != '\r' {
            let ghost prev = stripped@;
            stripped.push(c);
            proof {
                lemma_strip_cr_keep(chars@.skip(i as int));
                lemma_snoc_concat(prev, c, strip_cr(chars@.skip(i + 1)));
            }
        } else {
            proof {
                lemma_strip_cr_drop(chars@.skip(i as int));
            }
        }
        i = i + 1;
    }
    proof {
        assert(chars@.skip(chars@.len() as int) =~= Seq::<char>::empty());
        assert(stripped@ + Seq::<char>::empty() =~= stripped@);
    }
    stripped
}

/// The normalizer: drops carriage returns, drops backslash-newline
/// line-continuation pairs, and pairs every other backslash with the
/// character it escapes.
pub fn escape_chars(chars: &Vec<char>) -> (r: Vec<Unit>)
    ensures
        r@ == units_of(strip_cr(chars@)),
{
    let v = drop_carriage_returns(chars);
    let mut r: Vec<Unit> = Vec::new();
    let mut j: usize = 0;
    proof {
        assert(v@.skip(0) =~= v@);
        assert(Seq::<Unit>::empty() + units_of(v@) =~= units_of(v@));
    }
    while j < v.len()
        invariant
            j <= v@.len(),
            r@ + units_of(v@.skip(j as int)) == units_of(v@),
        decreases v@.len() - j,
    {
        let c = v[j];
        if c != '\\' {
            let u = Unit { escaped: false, ch: c };
            let ghost prev = r@;
            r.push(u);
            proof {
                lemma_skip_skip(v@, j as int, 1);
                lemma_units_plain(v@.skip(j as int));
                lemma_snoc_concat(prev, u, units_of(v@.skip(j + 1)));
            }
            j = j + 1;
        } else if j + 1 == v.len() {
            let u = Unit { escaped: false, ch: '\\' };
            let ghost prev = r@;
            r.push(u);
            proof {
                lemma_units_lone(v@.skip(j as int));
                lemma_skip_skip(v@, j as int, 1);
                assert(v@.skip(j + 1) =~= Seq::<char>::empty());
                lemma_snoc_concat(prev, u, units_of(v@.skip(j + 1)));
            }
            j = j + 1;
        } else if v[j + 1] == '\n' {
            proof {
                lemma_skip_skip(v@, j as int, 2);
                lemma_units_continuation(v@.skip(j as int));
            }
            j = j + 2;
        } else {
            let c2 = v[j + 1];
            let u = Unit { escaped: true, ch: c2 };
            let ghost prev = r@;
            r.push(u);
            proof {
                lemma_skip_skip(v@, j as int, 2);
                lemma_units_pair(v@.skip(j as int));
                lemma_snoc_concat(prev, u, units_of(v@.skip(j + 2)));
            }
            j = j + 2;
        }
    }
    proof {
        assert(v@.skip(v@.len() as int) =~= Seq::<char>::empty());
        assert(r@ + Seq::<Unit>::empty() =~= r@);
    }
    r
}

/// The annotator: tags each unit with its 1-based source line number,
/// starting at line 1 and advancing after each forwarded newline.
pub fn line_count(units: &Vec<Unit>) -> (r: Vec<CharLine>)
    requires
        units@.len() < usize::MAX,
    ensures
        char_lines_model(r@) == annotate(units@, 1),
{
    let mut r: Vec<CharLine> = Vec::new();
    let mut line: usize = 1;
    let mut i: usize = 0;
    proof {
        assert(units@.skip(0) =~= units@);
        assert(char_lines_model(r@) =~= Seq::<CharLineModel>::empty());
        assert(Seq::<CharLineModel>::empty() + annotate(units@, 1) =~= annotate(units@, 1));
    }
    while i < units.len()
        invariant
            i <= units@.len(),
            units@.len() < usize::MAX,
            1 <= line <= 1 + i,
            char_lines_model(r@) + annotate(units@.skip(i as int), line as int) == annotate(
                units@,
                1,
            ),
        decreases units@.len() - i,
    {
        let u = units[i];
        let cl = CharLine { escaped: u.escaped, ch: u.ch, line };
        let ghost prev = r@;
        let ghost rest_line: int = if !u.escaped && u.ch == '\n' {
            line + 1
        } else {
            line as int
        };
        r.push(cl);
        proof {
            lemma_skip_skip(units@, i as int, 1);
            assert(units@.skip(i as int)[0] == units@[i as int]);
            assert(cl@ == unit_at(u, line as int));
            assert(annotate(units@.skip(i as int), line as int) == seq![unit_at(u, line as int)]
                + annotate(units@.skip(i + 1), rest_line));
            assert(char_lines_model(r@) =~= char_lines_model(prev).push(cl@));
            lemma_snoc_concat(char_lines_model(prev), cl@, annotate(units@.skip(i + 1), rest_line));
        }
        if !u.escaped && u.ch == '\n' {
            line = line + 1;
        }
        i = i + 1;
    }
    proof {
        assert(units@.skip(units@.len() as int) =~= Seq::<Unit>::empty());
        assert(char_lines_model(r@) + Seq::<CharLineModel>::empty() =~= char_lines_model(r@));
    }
    r
}

} // verus!

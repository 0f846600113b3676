//! The file in an update package that says what device the package is for.

use crate::text::{
    all_white, char_views, chars_eq, chars_of, find_char, find_from, is_white, joined, lemma_find_from, split,
    split_char, string_of, string_views, trim, trimmed, trimming_keeps_the_middle, trimming_leaves_white_space, white,
};
use vstd::prelude::*;
use vstd::slice::{slice_subrange, slice_to_vec};

verus! {

/// The index of the first character from `i` on that is white space, or that is not, or the
/// length of `s`.
pub open spec fn run_end(s: Seq<char>, i: int, blank: bool) -> int
    decreases s.len() - i,
{
    if i < 0 || i >= s.len() {
        s.len() as int
    } else if is_white(s[i]) != blank {
        i
    } else {
        run_end(s, i + 1, blank)
    }
}

/// Where a run ends it has gone on from where it began, and no further than the text.
pub proof fn lemma_run_end(s: Seq<char>, i: int, blank: bool)
    requires
        0 <= i <= s.len(),
    ensures
        i <= run_end(s, i, blank) <= s.len(),
        i < s.len() && is_white(s[i]) == blank ==> i < run_end(s, i, blank),
        run_end(s, i, blank) < s.len() ==> is_white(s[run_end(s, i, blank)]) != blank,
    decreases s.len() - i,
{
    if i < s.len() && is_white(s[i]) == blank {
        lemma_run_end(s, i + 1, blank);
    }
}

/// The words of `s` from `i` on: what white space parts.
pub open spec fn words_from(s: Seq<char>, i: int) -> Seq<Seq<char>>
    decreases s.len() - i,
{
    proof {
        if 0 <= i <= s.len() {
            lemma_run_end(s, i, true);
            lemma_run_end(s, run_end(s, i, true), false);
        }
    }
    if i < 0 || i > s.len() {
        Seq::empty()
    } else {
        let start = run_end(s, i, true);
        let end = run_end(s, start, false);
        if start >= s.len() {
            Seq::empty()
        } else {
            seq![s.subrange(start, end)] + words_from(s, end)
        }
    }
}

/// The words of `s`.
pub open spec fn words(s: Seq<char>) -> Seq<Seq<char>> {
    words_from(s, 0)
}

fn skip_run(s: &[char], from: usize, blank: bool) -> (r: usize)
    requires
        from <= s@.len(),
    ensures
        r == run_end(s@, from as int, blank),
        from <= r <= s@.len(),
{
    let mut i: usize = from;
    while i < s.len() && white(s[i]) == blank
        invariant
            from <= i <= s@.len(),
            run_end(s@, i as int, blank) == run_end(s@, from as int, blank),
        decreases s@.len() - i,
    {
        i = i + 1;
    }
    i
}

/// Parts a text into its words.
pub fn split_words(s: &[char]) -> (r: Vec<Vec<char>>)
    ensures
        char_views(r@) == words(s@),
{
    let mut out: Vec<Vec<char>> = Vec::new();
    let mut i: usize = 0;
    assert(char_views(out@) + words_from(s@, 0) =~= words(s@));
    loop
        invariant
            i <= s@.len(),
            char_views(out@) + words_from(s@, i as int) == words(s@),
        decreases s@.len() - i,
    {
        let start: usize = skip_run(s, i, true);
        proof {
            lemma_run_end(s@, i as int, true);
            lemma_run_end(s@, start as int, false);
        }
        if start >= s.len() {
            assert(char_views(out@) + Seq::<Seq<char>>::empty() =~= char_views(out@));
            return out;
        }
        let end: usize = skip_run(s, start, false);
        let word = slice_to_vec(slice_subrange(s, start, end));
        let ghost before = char_views(out@);
        let ghost rest = words_from(s@, end as int);
        out.push(word);
        proof {
            assert(char_views(out@) =~= before.push(s@.subrange(start as int, end as int)));
            assert(before + (seq![s@.subrange(start as int, end as int)] + rest) =~= char_views(
                out@,
            ) + rest);
        }
        i = end;
    }
}

/// What a line demands of the device: that a variable has one of some values, or, inverted,
/// none of them.
#[derive(Debug, Clone, PartialEq, Eq)]
pub struct Requirement {
    pub invert: bool,
    pub var: String,
    pub options: Vec<String>,
}

/// What a [`Requirement`] says.
pub struct RequirementModel {
    pub invert: bool,
    pub var: Seq<char>,
    pub options: Seq<Seq<char>>,
}

impl View for Requirement {
    type V = RequirementModel;

    open spec fn view(&self) -> RequirementModel {
        RequirementModel {
            invert: self.invert,
            var: self.var@,
            options: string_views(self.options@),
        }
    }
}

/// What a line is.
#[derive(Debug, Clone, PartialEq, Eq)]
pub enum InfoLine {
    /// Nothing, or a comment.
    Blank,
    /// Not understood.
    Unknown(String),
    /// A demand.
    Require(Requirement),
}

/// What an [`InfoLine`] says.
pub enum LineModel {
    Blank,
    Unknown(Seq<char>),
    Require(RequirementModel),
}

impl View for InfoLine {
    type V = LineModel;

    open spec fn view(&self) -> LineModel {
        match *self {
            InfoLine::Blank => LineModel::Blank,
            InfoLine::Unknown(s) => LineModel::Unknown(s@),
            InfoLine::Require(r) => LineModel::Require(r@),
        }
    }
}

/// The further values in a line, each behind an `or`.
pub open spec fn alternatives(w: Seq<Seq<char>>, i: int) -> Seq<Seq<char>>
    decreases w.len() - i,
{
    if 0 <= i && i + 1 < w.len() && w[i] == "or"@ {
        seq![w[i + 1]] + alternatives(w, i + 2)
    } else {
        Seq::empty()
    }
}

/// What a line is: `require [inverse] name=value [or value]...`, or a comment, or nothing.
pub open spec fn line_of(raw: Seq<char>) -> LineModel {
    let line = trimmed(raw);
    let w = words(line);
    let invert = w.len() > 2 && w[1] == "inverse"@;
    let at: int = if invert {
        2
    } else {
        1
    };
    if line.len() == 0 || line[0] == '#' {
        LineModel::Blank
    } else if w.len() < 2 || w[0] != "require"@ {
        LineModel::Unknown(line)
    } else {
        let eq = find_from(w[at], '=', 0);
        if eq >= w[at].len() {
            LineModel::Unknown(line)
        } else {
            LineModel::Require(
                RequirementModel {
                    invert,
                    var: w[at].take(eq),
                    options: seq![w[at].skip(eq + 1)] + alternatives(w, at + 1),
                },
            )
        }
    }
}

fn is_word(w: &Vec<char>, text: &str) -> (r: bool)
    ensures
        r == (w@ == text@),
{
    let t = chars_of(text);
    chars_eq(w.as_slice(), t.as_slice())
}

/// Reads a line.
pub fn parse_info_line(raw: &[char]) -> (r: InfoLine)
    ensures
        r@ == line_of(raw@),
{
    let line = trim(raw);
    if line.len() == 0 || line[0] == '#' {
        return InfoLine::Blank;
    }
    let w = split_words(line);
    let ghost views = char_views(w@);
    if w.len() < 2 || !is_word(&w[0], "require") {
        return InfoLine::Unknown(string_of(line));
    }
    assert(views[0] == w@[0]@ && views[1] == w@[1]@);
    let invert = w.len() > 2 && is_word(&w[1], "inverse");
    let at: usize = if invert {
        2
    } else {
        1
    };
    let kv = w[at].as_slice();
    assert(views[at as int] == kv@);
    match find_char(kv, '=', 0) {
        None => InfoLine::Unknown(string_of(line)),
        Some(eq) => {
            let n: usize = kv.len();
            let name = slice_subrange(kv, 0, eq);
            let value = slice_subrange(kv, eq + 1, n);
            assert(name@ =~= kv@.take(eq as int));
            assert(value@ =~= kv@.skip(eq + 1));
            let mut options: Vec<String> = Vec::new();
            options.push(string_of(value));
            let ghost all = seq![value@] + alternatives(views, at + 1);
            let total: usize = w.len();
            let mut i: usize = at + 1;
            assert(string_views(options@) =~= seq![value@]);
            while total - i >= 2 && is_word(&w[i], "or")
                invariant
                    i <= total,
                    total == w@.len(),
                    views == char_views(w@),
                    string_views(options@) + alternatives(views, i as int) == all,
                decreases w@.len() - i,
            {
                let ghost before = string_views(options@);
                assert(views[i as int] == w@[i as int]@ && views[i + 1] == w@[i + 1]@);
                options.push(string_of(w[i + 1].as_slice()));
                proof {
                    assert(string_views(options@) =~= before.push(views[i + 1]));
                    let rest = alternatives(views, i + 2);
                    assert(before + (seq![views[i + 1]] + rest) =~= string_views(options@) + rest);
                }
                i = i + 2;
            }
            proof {
                if i + 1 < w@.len() {
                    assert(views[i as int] == w@[i as int]@);
                }
                assert(alternatives(views, i as int) =~= Seq::<Seq<char>>::empty());
                assert(string_views(options@) =~= all);
            }
            InfoLine::Require(Requirement { invert, var: string_of(name), options })
        },
    }
}

/// What the lines of a text are.
pub open spec fn lines_of(pieces: Seq<Seq<char>>) -> Seq<LineModel> {
    Seq::new(pieces.len(), |i: int| line_of(pieces[i]))
}

/// The views of a list of lines.
pub open spec fn line_views(v: Seq<InfoLine>) -> Seq<LineModel> {
    Seq::new(v.len(), |i: int| v[i]@)
}

/// Lines as they are read: every demand names at least one value.
pub open spec fn lines_ok(lines: Seq<InfoLine>) -> bool {
    forall|i: int|
        0 <= i < lines.len() ==> (#[trigger] lines[i] matches InfoLine::Require(r)
            ==> r.options@.len() > 0)
}

proof fn lemma_lines_ok(lines: Seq<InfoLine>, pieces: Seq<Seq<char>>)
    requires
        line_views(lines) == lines_of(pieces),
    ensures
        lines_ok(lines),
{
    assert(line_views(lines).len() == lines.len());
    assert(lines_of(pieces).len() == pieces.len());
    assert forall|i: int| 0 <= i < lines.len() implies (#[trigger] lines[i] matches InfoLine::Require(
        r,
    ) ==> r.options@.len() > 0) by {
        assert(line_views(lines)[i] == lines[i]@);
        assert(lines_of(pieces)[i] == line_of(pieces[i]));
        if let InfoLine::Require(r) = lines[i] {
            assert(string_views(r.options@).len() == r.options@.len());
        }
    }
}

/// Reads the lines of a text.
pub fn parse_android_info(data: &str) -> (r: Vec<InfoLine>)
    ensures
        line_views(r@) == lines_of(split(data@, '\n')),
        lines_ok(r@),
{
    let chars = chars_of(data);
    let pieces = split_char(chars.as_slice(), '\n');
    let ghost views = char_views(pieces@);
    let mut out: Vec<InfoLine> = Vec::new();
    let mut i: usize = 0;
    assert(line_views(out@) =~= lines_of(views.take(0)));
    while i < pieces.len()
        invariant
            i <= pieces@.len(),
            views == char_views(pieces@),
            line_views(out@) == lines_of(views.take(i as int)),
        decreases pieces@.len() - i,
    {
        let line = parse_info_line(pieces[i].as_slice());
        let ghost before = line_views(out@);
        out.push(line);
        proof {
            let x = line_of(views[i as int]);
            assert(line_views(out@) =~= before.push(x));
            assert(lines_of(views.take(i + 1)) =~= lines_of(views.take(i as int)).push(x));
        }
        i = i + 1;
    }
    assert(views.take(i as int) =~= views);
    proof {
        lemma_lines_ok(out@, views);
    }
    out
}

/// A word: not empty, and no white space in it.
pub open spec fn one_word(w: Seq<char>) -> bool {
    w.len() > 0 && forall|i: int| 0 <= i < w.len() ==> !is_white(#[trigger] w[i])
}

proof fn lemma_run(s: Seq<char>, i: int, e: int, blank: bool)
    requires
        0 <= i <= e <= s.len(),
        forall|k: int| i <= k < e ==> is_white(#[trigger] s[k]) == blank,
        e < s.len() ==> is_white(s[e]) != blank,
    ensures
        run_end(s, i, blank) == e,
    decreases e - i,
{
    if i < e {
        lemma_run(s, i + 1, e, blank);
    }
}

proof fn lemma_words(s: Seq<char>, i: int, j: int, ws: Seq<Seq<char>>)
    requires
        0 <= i <= j <= s.len(),
        forall|k: int| i <= k < j ==> is_white(#[trigger] s[k]),
        s.skip(j) == joined(ws, ' '),
        forall|k: int| 0 <= k < ws.len() ==> one_word(#[trigger] ws[k]),
    ensures
        words_from(s, i) == ws,
    decreases ws.len(),
{
    if ws.len() == 0 {
        assert(s.skip(j).len() == 0);
        lemma_run(s, i, j, true);
        assert(words_from(s, i) =~= ws);
    } else {
        let w = ws[0];
        let left = ws.skip(1);
        let end = j + w.len();
        assert(one_word(ws[0]));
        let tail = if ws.len() == 1 {
            Seq::<char>::empty()
        } else {
            seq![' '] + joined(left, ' ')
        };
        assert(s.skip(j) =~= w + tail);
        assert forall|k: int| j <= k < end implies !is_white(#[trigger] s[k]) by {
            assert(s.skip(j)[k - j] == s[k]);
            assert((w + tail)[k - j] == w[k - j]);
        }
        if ws.len() > 1 {
            assert(s.skip(j)[w.len() as int] == s[end]);
            assert((w + tail)[w.len() as int] == ' ');
        } else {
            assert(s.skip(j).len() == w.len());
        }
        assert(s.skip(j)[0] == s[j]);
        lemma_run(s, i, j, true);
        lemma_run(s, j, end, false);
        assert(s.subrange(j, end) =~= w) by {
            assert forall|k: int| 0 <= k < w.len() implies s.subrange(j, end)[k] == w[k] by {
                assert(s.skip(j)[k] == s[j + k]);
                assert((w + tail)[k] == w[k]);
            }
        }
        assert forall|k: int| 0 <= k < left.len() implies one_word(#[trigger] left[k]) by {
            assert(left[k] == ws[k + 1]);
        }
        if ws.len() > 1 {
            assert(s.skip(end + 1) =~= joined(left, ' ')) by {
                assert(s.skip(end + 1) =~= s.skip(j).skip(w.len() as int + 1));
                assert((w + tail).skip(w.len() as int + 1) =~= joined(left, ' '));
            }
            lemma_words(s, end, end + 1, left);
        } else {
            assert(s.skip(end) =~= joined(left, ' '));
            lemma_words(s, end, end, left);
        }
        assert(words_from(s, i) =~= seq![w] + left);
        assert(seq![w] + left =~= ws);
    }
}

/// Words with a space between each two are taken apart into the words.
pub proof fn words_are_taken_apart(ws: Seq<Seq<char>>)
    requires
        forall|k: int| 0 <= k < ws.len() ==> one_word(#[trigger] ws[k]),
    ensures
        words(joined(ws, ' ')) == ws,
{
    let s = joined(ws, ' ');
    assert(s.skip(0) =~= s);
    lemma_words(s, 0, 0, ws);
}

/// Further values of a requirement as words.
pub open spec fn or_words(options: Seq<Seq<char>>) -> Seq<Seq<char>>
    decreases options.len(),
{
    if options.len() == 0 {
        Seq::empty()
    } else {
        seq!["or"@, options[0]] + or_words(options.skip(1))
    }
}

/// A requirement as words: `require`, perhaps `inverse`, the name and the first value around an
/// equals sign, and each further value behind `or`.
pub open spec fn requirement_words(r: RequirementModel) -> Seq<Seq<char>> {
    seq!["require"@] + (if r.invert {
        seq!["inverse"@]
    } else {
        Seq::empty()
    }) + seq![r.var + seq!['='] + r.options[0]] + or_words(r.options.skip(1))
}

/// A requirement that can be written down: no white space in it, no equals sign in its name.
pub open spec fn requirement_ok(r: RequirementModel) -> bool {
    &&& r.options.len() > 0
    &&& forall|i: int| 0 <= i < r.var.len() ==> !is_white(#[trigger] r.var[i]) && r.var[i] != '='
    &&& forall|i: int| 0 <= i < r.options[0].len() ==> !is_white(#[trigger] r.options[0][i])
    &&& forall|k: int| 1 <= k < r.options.len() ==> one_word(#[trigger] r.options[k])
}

proof fn lemma_or_words(w: Seq<Seq<char>>, i: int, options: Seq<Seq<char>>)
    requires
        0 <= i <= w.len(),
        w.skip(i) == or_words(options),
    ensures
        alternatives(w, i) == options,
    decreases options.len(),
{
    let rest = w.skip(i);
    if options.len() == 0 {
        assert(rest.len() == 0);
        assert(alternatives(w, i) =~= options);
    } else {
        let left = options.skip(1);
        assert(or_words(options).len() >= 2);
        assert(rest[0] == w[i] && rest[1] == w[i + 1]);
        assert(or_words(options)[0] == "or"@ && or_words(options)[1] == options[0]);
        assert(w.skip(i + 2) =~= rest.skip(2));
        assert(or_words(options).skip(2) =~= or_words(left));
        lemma_or_words(w, i + 2, left);
        assert(seq![options[0]] + left =~= options);
    }
}

proof fn lemma_or_words_are_words(options: Seq<Seq<char>>)
    requires
        forall|k: int| 0 <= k < options.len() ==> one_word(#[trigger] options[k]),
    ensures
        forall|k: int| 0 <= k < or_words(options).len() ==> one_word(#[trigger] or_words(options)[k]),
    decreases options.len(),
{
    if options.len() > 0 {
        reveal_strlit("or");
        let left = options.skip(1);
        assert(one_word(options[0]));
        assert forall|k: int| 0 <= k < left.len() implies one_word(#[trigger] left[k]) by {
            assert(left[k] == options[k + 1]);
        }
        lemma_or_words_are_words(left);
        let w = or_words(options);
        assert forall|k: int| 0 <= k < w.len() implies one_word(#[trigger] w[k]) by {
            if k >= 2 {
                assert(w[k] == or_words(left)[k - 2]);
            }
        }
    }
}

proof fn lemma_joined_is_tight(ws: Seq<Seq<char>>)
    requires
        ws.len() > 0,
        forall|k: int| 0 <= k < ws.len() ==> one_word(#[trigger] ws[k]),
    ensures
        joined(ws, ' ').len() > 0,
        joined(ws, ' ')[0] == ws[0][0],
        !is_white(joined(ws, ' ').last()),
    decreases ws.len(),
{
    assert(one_word(ws[0]));
    if ws.len() > 1 {
        let left = ws.skip(1);
        assert forall|k: int| 0 <= k < left.len() implies one_word(#[trigger] left[k]) by {
            assert(left[k] == ws[k + 1]);
        }
        lemma_joined_is_tight(left);
    }
}

/// A requirement that is written down as a line, with white space around it or without, is read
/// as the requirement: its name, all its values, and whether it is inverted.
pub proof fn requirements_are_read_back(r: RequirementModel, a: Seq<char>, b: Seq<char>)
    requires
        requirement_ok(r),
        all_white(a),
        all_white(b),
    ensures
        line_of(a + joined(requirement_words(r), ' ') + b) == LineModel::Require(r),
{
    reveal_strlit("require");
    reveal_strlit("inverse");
    let ws = requirement_words(r);
    let pair = r.var + seq!['='] + r.options[0];
    let others = r.options.skip(1);
    assert(one_word(pair)) by {
        assert forall|i: int| 0 <= i < pair.len() implies !is_white(#[trigger] pair[i]) by {
            if i < r.var.len() {
                assert(pair[i] == r.var[i]);
            } else if i > r.var.len() {
                assert(pair[i] == r.options[0][i - r.var.len() - 1]);
            }
        }
    }
    assert forall|k: int| 0 <= k < others.len() implies one_word(#[trigger] others[k]) by {
        assert(others[k] == r.options[k + 1]);
    }
    lemma_or_words_are_words(others);
    let at: int = if r.invert {
        2
    } else {
        1
    };
    assert(one_word("require"@));
    assert(one_word("inverse"@));
    assert(ws[0] == "require"@);
    assert(ws[at] == pair);
    assert(ws.skip(at + 1) =~= or_words(others));
    assert forall|k: int| 0 <= k < ws.len() implies one_word(#[trigger] ws[k]) by {
        if k > at {
            assert(ws[k] == or_words(others)[k - at - 1]);
        }
    }
    let line = joined(ws, ' ');
    lemma_joined_is_tight(ws);
    assert(line[0] == 'r');
    trimming_keeps_the_middle(a, line, b);
    words_are_taken_apart(ws);
    assert(pair[r.var.len() as int] == '=');
    if pair == "inverse"@ {
        assert("inverse"@[r.var.len() as int] == '=');
    }
    lemma_find_from(pair, '=', 0);
    let eq = find_from(pair, '=', 0);
    if eq < r.var.len() {
        assert(pair[eq] == r.var[eq]);
    }
    assert(pair.take(eq) =~= r.var);
    assert(pair.skip(eq + 1) =~= r.options[0]);
    lemma_or_words(ws, at + 1, others);
    assert(seq![r.options[0]] + others =~= r.options);
}

/// A line that begins with a number sign says nothing, whatever stands in it.
pub proof fn comments_say_nothing(a: Seq<char>, text: Seq<char>)
    requires
        all_white(a),
    ensures
        line_of(a + seq!['#'] + text) == LineModel::Blank,
        line_of(a) == LineModel::Blank,
{
    let s = a + seq!['#'] + text;
    let (x, y) = trimming_leaves_white_space(s);
    let t = trimmed(s);
    let n = a.len() as int;
    assert(s[n] == '#');
    if x.len() > n {
        assert(x[n] == s[n]);
    }
    if t.len() == 0 {
        assert(s =~= x + y);
        assert(y[n - x.len()] == s[n]);
    }
    assert(t[0] == s[x.len() as int]);
    if x.len() < n {
        assert(s[x.len() as int] == a[x.len() as int]);
    }
    let none = Seq::<char>::empty();
    trimming_keeps_the_middle(a, none, none);
    assert(a + none + none =~= a);
}

} // verus!

//! The grammar of a dialogue file.
//!
//! A dialogue file is a list of fragments. A fragment starts with its title in
//! brackets on a line of its own and holds one or more lines:
//!
//! ```text
//! [intro]
//! Alice: Hello, *traveller*!
//! Bob: [Wave back](greet) [Walk away](leave)
//! set gold += 5
//! set mood = happy
//! @door_opened
//! ```
//!
//! * `NAME: text` is a regular line: a character says the text.
//! * `NAME: [text](title) [text](title) ...` is a choice line: each choice
//!   shows its text and leads to the fragment with the given title.
//! * `set NAME = VALUE`, `set NAME += NUMBER`, `set NAME -= NUMBER` change a
//!   variable; `VALUE` is a number (an optional `-` and digits) or a name.
//! * `@NAME` emits an event.
//!
//! Text is made of spans: plain text, or text between a pair of markers:
//! `*bold*`, `_italic_`, `~wave~`, `^shake^`. Text holds no markers other than
//! these pairs, no brackets, and no carriage return. Names are made of ASCII
//! letters, digits and `_`. Blank lines are ignored, and blanks may stand
//! between the parts of a line.
use vstd::prelude::*;
use crate::text::{
    char_vecs_view, chars_of, digits_end, digits_end_at, ident_at, ident_end, ident_end_at,
    is_ident_char, is_ws, is_ws_char, lemma_scan, lines_of, make_ident, scan, skip_ws,
    skip_ws_at, split_lines, string_from_chars, Ident, IdentView, ParseError,
};

verus! {

/// How a span of text is shown.
#[derive(Debug, Clone, Copy, PartialEq, Eq, Structural)]
pub enum TextStyle {
    Plain,
    Bold,
    Italic,
    Wave,
    Shake,
}

/// A piece of text in one style.
#[derive(Debug, PartialEq, Eq)]
pub struct StyledSpan {
    pub style: TextStyle,
    pub text: String,
}

pub struct StyledSpanView {
    pub style: TextStyle,
    pub text: Seq<char>,
}

impl DeepView for StyledSpan {
    type V = StyledSpanView;

    open spec fn deep_view(&self) -> StyledSpanView {
        StyledSpanView { style: self.style, text: self.text@ }
    }
}

/// One choice of a choice line: its text and the title of the fragment it leads to.
#[derive(Debug, PartialEq, Eq)]
pub struct Choice {
    pub text: Vec<StyledSpan>,
    pub target: Ident,
}

pub struct ChoiceView {
    pub text: Seq<StyledSpanView>,
    pub target: IdentView,
}

impl DeepView for Choice {
    type V = ChoiceView;

    open spec fn deep_view(&self) -> ChoiceView {
        ChoiceView { text: self.text.deep_view(), target: self.target.deep_view() }
    }
}

/// How a `set` line changes its variable.
#[derive(Debug, Clone, Copy, PartialEq, Eq, Structural)]
pub enum SetKind {
    /// `set NAME = NUMBER`
    SetInt,
    /// `set NAME += NUMBER`
    IncInt,
    /// `set NAME -= NUMBER`
    DecInt,
    /// `set NAME = NAME`
    SetEnum,
}

/// One line of a fragment.
#[derive(Debug, PartialEq, Eq)]
pub enum DialogueItem {
    Choice { character: Ident, choices: Vec<Choice> },
    Regular { character: Ident, text: Vec<StyledSpan> },
    SetVariable { kind: SetKind, variable: Ident, value: Ident },
    Event { event: Ident },
}

pub enum DialogueItemView {
    Choice { character: IdentView, choices: Seq<ChoiceView> },
    Regular { character: IdentView, text: Seq<StyledSpanView> },
    SetVariable { kind: SetKind, variable: IdentView, value: IdentView },
    Event { event: IdentView },
}

impl DeepView for DialogueItem {
    type V = DialogueItemView;

    open spec fn deep_view(&self) -> DialogueItemView {
        match self {
            DialogueItem::Choice { character, choices } => DialogueItemView::Choice {
                character: character.deep_view(),
                choices: choices.deep_view(),
            },
            DialogueItem::Regular { character, text } => DialogueItemView::Regular {
                character: character.deep_view(),
                text: text.deep_view(),
            },
            DialogueItem::SetVariable { kind, variable, value } => DialogueItemView::SetVariable {
                kind: *kind,
                variable: variable.deep_view(),
                value: value.deep_view(),
            },
            DialogueItem::Event { event } => DialogueItemView::Event { event: event.deep_view() },
        }
    }
}

/// A fragment: its title and its lines.
#[derive(Debug, PartialEq, Eq)]
pub struct ParsedFragment {
    pub title: Ident,
    pub items: Vec<DialogueItem>,
}

pub struct FragmentView {
    pub title: IdentView,
    pub items: Seq<DialogueItemView>,
}

impl DeepView for ParsedFragment {
    type V = FragmentView;

    open spec fn deep_view(&self) -> FragmentView {
        FragmentView { title: self.title.deep_view(), items: self.items.deep_view() }
    }
}

/// What one line of a dialogue file holds.
pub enum DialogueLineView {
    Blank,
    Header(IdentView),
    Item(DialogueItemView),
}

pub open spec fn is_marker(c: char) -> bool {
    c == '*' || c == '_' || c == '~' || c == '^'
}

pub open spec fn is_text_char(c: char) -> bool {
    !is_marker(c) && c != '[' && c != ']' && c != '\n' && c != '\r'
}

pub open spec fn style_of(c: char) -> TextStyle {
    if c == '*' {
        TextStyle::Bold
    } else if c == '_' {
        TextStyle::Italic
    } else if c == '~' {
        TextStyle::Wave
    } else {
        TextStyle::Shake
    }
}

pub open spec fn text_end(s: Seq<char>, i: int) -> int {
    scan(s, i, |c: char| is_text_char(c))
}

/// The spans of text from position `p`, and the position where they stop.
pub open spec fn parse_spans(s: Seq<char>, p: int) -> (Seq<StyledSpanView>, int)
    decreases s.len() - p,
    when 0 <= p <= s.len()
    via parse_spans_decreases
{
    if p == s.len() {
        (Seq::empty(), p)
    } else if is_marker(s[p]) {
        let q = text_end(s, p + 1);
        if q > p + 1 && q < s.len() && s[q] == s[p] {
            let (rest, stop) = parse_spans(s, q + 1);
            (seq![StyledSpanView { style: style_of(s[p]), text: s.subrange(p + 1, q) }] + rest, stop)
        } else {
            (Seq::empty(), p)
        }
    } else if is_text_char(s[p]) {
        let q = text_end(s, p);
        let (rest, stop) = parse_spans(s, q);
        (seq![StyledSpanView { style: TextStyle::Plain, text: s.subrange(p, q) }] + rest, stop)
    } else {
        (Seq::empty(), p)
    }
}

#[via_fn]
proof fn parse_spans_decreases(s: Seq<char>, p: int) {
    if p < s.len() {
        lemma_scan(s, p + 1, |c: char| is_text_char(c));
        lemma_scan(s, p, |c: char| is_text_char(c));
    }
}

pub proof fn lemma_parse_spans_bounds(s: Seq<char>, p: int)
    requires
        0 <= p <= s.len(),
    ensures
        p <= parse_spans(s, p).1 <= s.len(),
    decreases s.len() - p,
{
    if p < s.len() {
        lemma_scan(s, p + 1, |c: char| is_text_char(c));
        lemma_scan(s, p, |c: char| is_text_char(c));
        let q1 = text_end(s, p + 1);
        let q0 = text_end(s, p);
        if is_marker(s[p]) {
            if q1 > p + 1 && q1 < s.len() && s[q1] == s[p] {
                lemma_parse_spans_bounds(s, q1 + 1);
            }
        } else if is_text_char(s[p]) {
            lemma_parse_spans_bounds(s, q0);
        }
    }
}

/// The choices from position `p` (which holds `[`) to the end of the line.
pub open spec fn parse_choices(l: Seq<char>, p: int, line_no: int) -> Option<Seq<ChoiceView>>
    decreases l.len() - p,
    when 0 <= p <= l.len()
    via parse_choices_decreases
{
    if p == l.len() {
        None
    } else {
        let (spans, q) = parse_spans(l, p + 1);
        if spans.len() == 0 || !(q < l.len() && l[q] == ']') {
            None
        } else {
            let r = skip_ws(l, q + 1);
            if !(r < l.len() && l[r] == '(') {
                None
            } else {
                let t1 = skip_ws(l, r + 1);
                let t2 = ident_end(l, t1);
                let t3 = skip_ws(l, t2);
                if t2 == t1 || !(t3 < l.len() && l[t3] == ')') {
                    None
                } else {
                    let choice = ChoiceView { text: spans, target: ident_at(l, t1, t2, line_no) };
                    let n = skip_ws(l, t3 + 1);
                    if n == l.len() {
                        Some(seq![choice])
                    } else if l[n] == '[' {
                        match parse_choices(l, n, line_no) {
                            Some(rest) => Some(seq![choice] + rest),
                            None => None,
                        }
                    } else {
                        None
                    }
                }
            }
        }
    }
}

#[via_fn]
proof fn parse_choices_decreases(l: Seq<char>, p: int, line_no: int) {
    if p < l.len() {
        lemma_parse_spans_bounds(l, p + 1);
        let q = parse_spans(l, p + 1).1;
        if q < l.len() {
            lemma_scan(l, q + 1, |c: char| is_ws(c));
            let r = skip_ws(l, q + 1);
            if r < l.len() {
                lemma_scan(l, r + 1, |c: char| is_ws(c));
                let t1 = skip_ws(l, r + 1);
                lemma_scan(l, t1, |c: char| is_ident_char(c));
                let t2 = ident_end(l, t1);
                lemma_scan(l, t2, |c: char| is_ws(c));
                let t3 = skip_ws(l, t2);
                if t3 < l.len() {
                    lemma_scan(l, t3 + 1, |c: char| is_ws(c));
                }
            }
        }
    }
}

/// `set` followed by a blank, at position `i`.
pub open spec fn is_set_keyword_at(l: Seq<char>, i: int) -> bool {
    &&& 0 <= i
    &&& i + 3 < l.len()
    &&& l[i] == 's'
    &&& l[i + 1] == 'e'
    &&& l[i + 2] == 't'
    &&& is_ws(l[i + 3])
}

/// The operator of a `set` line at position `i` and the position after it:
/// 1 for `+=`, 2 for `-=`, 0 for `=`; `None` when there is none.
pub open spec fn set_operator(l: Seq<char>, i: int) -> Option<(int, int)> {
    if 0 <= i && i + 1 < l.len() && l[i] == '+' && l[i + 1] == '=' {
        Some((1, i + 2))
    } else if 0 <= i && i + 1 < l.len() && l[i] == '-' && l[i + 1] == '=' {
        Some((2, i + 2))
    } else if 0 <= i < l.len() && l[i] == '=' {
        Some((0, i + 1))
    } else {
        None
    }
}

/// A `set` line, read after its keyword (from position `i`).
pub open spec fn set_line(l: Seq<char>, i: int, line_no: int) -> Option<DialogueItemView> {
    let i1 = skip_ws(l, i);
    let i2 = ident_end(l, i1);
    if i2 == i1 {
        None
    } else {
        match set_operator(l, skip_ws(l, i2)) {
            None => None,
            Some((op, i4)) => {
                let i5 = skip_ws(l, i4);
                let d = if i5 < l.len() && l[i5] == '-' {
                    i5 + 1
                } else {
                    i5
                };
                let i6 = ident_end(l, d);
                let numeric = digits_end(l, d) == i6;
                if i6 == d || skip_ws(l, i6) != l.len() || (d > i5 && !numeric) || (op != 0
                    && !numeric) {
                    None
                } else {
                    let kind = if op == 1 {
                        SetKind::IncInt
                    } else if op == 2 {
                        SetKind::DecInt
                    } else if numeric {
                        SetKind::SetInt
                    } else {
                        SetKind::SetEnum
                    };
                    Some(
                        DialogueItemView::SetVariable {
                            kind,
                            variable: ident_at(l, i1, i2, line_no),
                            value: ident_at(l, i5, i6, line_no),
                        },
                    )
                }
            },
        }
    }
}

/// A regular or choice line that starts at position `i0`.
pub open spec fn character_line(l: Seq<char>, i0: int, line_no: int) -> Option<DialogueItemView> {
    let i1 = ident_end(l, i0);
    let i2 = skip_ws(l, i1);
    if i1 == i0 || !(i2 < l.len() && l[i2] == ':') {
        None
    } else {
        let character = ident_at(l, i0, i1, line_no);
        let i3 = skip_ws(l, i2 + 1);
        if i3 < l.len() && l[i3] == '[' {
            match parse_choices(l, i3, line_no) {
                Some(choices) => Some(DialogueItemView::Choice { character, choices }),
                None => None,
            }
        } else {
            let (spans, stop) = parse_spans(l, i3);
            if spans.len() > 0 && skip_ws(l, stop) == l.len() {
                Some(DialogueItemView::Regular { character, text: spans })
            } else {
                None
            }
        }
    }
}

/// What one line of a dialogue file holds; `None` when it follows no form.
pub open spec fn dialogue_line(l: Seq<char>, line_no: int) -> Option<DialogueLineView> {
    let i0 = skip_ws(l, 0);
    if i0 == l.len() {
        Some(DialogueLineView::Blank)
    } else if l[i0] == '[' {
        let i1 = skip_ws(l, i0 + 1);
        let i2 = ident_end(l, i1);
        let i3 = skip_ws(l, i2);
        if i2 > i1 && i3 < l.len() && l[i3] == ']' && skip_ws(l, i3 + 1) == l.len() {
            Some(DialogueLineView::Header(ident_at(l, i1, i2, line_no)))
        } else {
            None
        }
    } else if l[i0] == '@' {
        let i2 = ident_end(l, i0 + 1);
        if i2 > i0 + 1 && skip_ws(l, i2) == l.len() {
            Some(
                DialogueLineView::Item(
                    DialogueItemView::Event { event: ident_at(l, i0 + 1, i2, line_no) },
                ),
            )
        } else {
            None
        }
    } else if is_set_keyword_at(l, i0) {
        match set_line(l, i0 + 3, line_no) {
            Some(item) => Some(DialogueLineView::Item(item)),
            None => None,
        }
    } else {
        match character_line(l, i0, line_no) {
            Some(item) => Some(DialogueLineView::Item(item)),
            None => None,
        }
    }
}

/// The fragments on the given lines so far, or the index of the first line
/// that breaks the grammar. The last fragment may still be empty.
pub open spec fn fragments_of_lines(lines: Seq<Seq<char>>) -> Result<Seq<FragmentView>, int>
    decreases lines.len(),
{
    if lines.len() == 0 {
        Ok(Seq::empty())
    } else {
        match fragments_of_lines(lines.drop_last()) {
            Err(k) => Err(k),
            Ok(frags) => {
                let k = lines.len() - 1;
                match dialogue_line(lines.last(), k + 1) {
                    None => Err(k),
                    Some(DialogueLineView::Blank) => Ok(frags),
                    Some(DialogueLineView::Header(title)) => {
                        if frags.len() > 0 && frags.last().items.len() == 0 {
                            Err(frags.last().title.line - 1)
                        } else {
                            Ok(frags.push(FragmentView { title, items: Seq::empty() }))
                        }
                    },
                    Some(DialogueLineView::Item(item)) => {
                        if frags.len() == 0 {
                            Err(k)
                        } else {
                            let last = frags.last();
                            Ok(
                                frags.update(
                                    frags.len() - 1,
                                    FragmentView { title: last.title, items: last.items.push(item) },
                                ),
                            )
                        }
                    },
                }
            },
        }
    }
}

/// The fragments of a dialogue file, or the index of its first bad line: a
/// line that follows no form, a line before the first title, or the title of
/// a fragment without lines.
pub open spec fn dialogue_fragments(contents: Seq<char>) -> Result<Seq<FragmentView>, int> {
    match fragments_of_lines(split_lines(contents)) {
        Err(k) => Err(k),
        Ok(frags) => {
            if frags.len() > 0 && frags.last().items.len() == 0 {
                Err(frags.last().title.line - 1)
            } else {
                Ok(frags)
            }
        },
    }
}

proof fn lemma_fragments_error_stays(lines: Seq<Seq<char>>, n: int)
    requires
        0 <= n <= lines.len(),
        fragments_of_lines(lines.take(n)) is Err,
    ensures
        fragments_of_lines(lines) == fragments_of_lines(lines.take(n)),
    decreases lines.len() - n,
{
    if n < lines.len() {
        assert(lines.take(n + 1).drop_last() == lines.take(n));
        lemma_fragments_error_stays(lines, n + 1);
    } else {
        assert(lines.take(n) == lines);
    }
}

fn is_marker_char(c: char) -> (b: bool)
    ensures
        b == is_marker(c),
{
    c == '*' || c == '_' || c == '~' || c == '^'
}

fn is_text_char_exec(c: char) -> (b: bool)
    ensures
        b == is_text_char(c),
{
    !is_marker_char(c) && c != '[' && c != ']' && c != '\n' && c != '\r'
}

fn style_for(c: char) -> (s: TextStyle)
    ensures
        s == style_of(c),
{
    if c == '*' {
        TextStyle::Bold
    } else if c == '_' {
        TextStyle::Italic
    } else if c == '~' {
        TextStyle::Wave
    } else {
        TextStyle::Shake
    }
}

fn text_end_at(s: &Vec<char>, i: usize) -> (j: usize)
    requires
        i <= s.len(),
    ensures
        j == text_end(s@, i as int),
{
    let mut j = i;
    while j < s.len() && is_text_char_exec(s[j])
        invariant
            i <= j <= s.len(),
            text_end(s@, j as int) == text_end(s@, i as int),
        decreases s.len() - j,
    {
        j = j + 1;
    }
    j
}

/// The parser for dialogue files.
pub struct DialogueParser;

impl DialogueParser {
    /// Reads the spans of text from position `p`.
    fn parse_spans_at(l: &Vec<char>, p: usize) -> (res: (Vec<StyledSpan>, usize))
        requires
            p <= l.len(),
        ensures
            res.0.deep_view() == parse_spans(l@, p as int).0,
            res.1 == parse_spans(l@, p as int).1,
    {
        let mut spans: Vec<StyledSpan> = Vec::new();
        let mut i = p;
        assert(spans.deep_view() =~= Seq::<StyledSpanView>::empty());
        loop
            invariant
                p <= i <= l.len(),
                parse_spans(l@, p as int).0 == spans.deep_view() + parse_spans(l@, i as int).0,
                parse_spans(l@, p as int).1 == parse_spans(l@, i as int).1,
            decreases l.len() - i,
        {
            if i == l.len() {
                assert(spans.deep_view() + Seq::<StyledSpanView>::empty() =~= spans.deep_view());
                return (spans, i);
            }
            let c = l[i];
            let ghost before = spans.deep_view();
            if is_marker_char(c) {
                let q = text_end_at(l, i + 1);
                proof {
                    lemma_scan(l@, i + 1, |c: char| is_text_char(c));
                }
                if q > i + 1 && q < l.len() && l[q] == c {
                    let span = StyledSpan { style: style_for(c), text: string_from_chars(l, i + 1, q) };
                    let ghost sv = span.deep_view();
                    spans.push(span);
                    assert(spans.deep_view() =~= before.push(sv));
                    assert(before + (seq![sv] + parse_spans(l@, q + 1).0) =~= spans.deep_view()
                        + parse_spans(l@, q + 1).0);
                    i = q + 1;
                } else {
                    assert(spans.deep_view() + Seq::<StyledSpanView>::empty() =~= spans.deep_view());
                    return (spans, i);
                }
            } else if is_text_char_exec(c) {
                let q = text_end_at(l, i);
                proof {
                    lemma_scan(l@, i as int, |c: char| is_text_char(c));
                }
                let span = StyledSpan { style: TextStyle::Plain, text: string_from_chars(l, i, q) };
                let ghost sv = span.deep_view();
                spans.push(span);
                assert(spans.deep_view() =~= before.push(sv));
                assert(before + (seq![sv] + parse_spans(l@, q as int).0) =~= spans.deep_view()
                    + parse_spans(l@, q as int).0);
                i = q;
            } else {
                assert(spans.deep_view() + Seq::<StyledSpanView>::empty() =~= spans.deep_view());
                return (spans, i);
            }
        }
    }

    /// Reads the choices from position `p`, which holds `[`.
    fn parse_choices_at(l: &Vec<char>, p: usize, line_no: usize) -> (res: Option<Vec<Choice>>)
        requires
            p < l.len(),
            l@[p as int] == '[',
        ensures
            match parse_choices(l@, p as int, line_no as int) {
                None => res is None,
                Some(cs) => res matches Some(v) && v.deep_view() == cs,
            },
    {
        let mut choices: Vec<Choice> = Vec::new();
        let mut i = p;
        loop
            invariant
                p <= i < l.len(),
                match parse_choices(l@, p as int, line_no as int) {
                    None => parse_choices(l@, i as int, line_no as int) is None,
                    Some(all) => match parse_choices(l@, i as int, line_no as int) {
                        None => false,
                        Some(rest) => all == choices.deep_view() + rest,
                    },
                },
            decreases l.len() - i,
        {
            let (spans, q) = Self::parse_spans_at(l, i + 1);
            proof {
                lemma_parse_spans_bounds(l@, i + 1);
            }
            if spans.len() == 0 || !(q < l.len() && l[q] == ']') {
                return None;
            }
            let r = skip_ws_at(l, q + 1);
            proof {
                lemma_scan(l@, q + 1, |c: char| is_ws(c));
            }
            if !(r < l.len() && l[r] == '(') {
                return None;
            }
            let t1 = skip_ws_at(l, r + 1);
            proof {
                lemma_scan(l@, r + 1, |c: char| is_ws(c));
            }
            let t2 = ident_end_at(l, t1);
            proof {
                lemma_scan(l@, t1 as int, |c: char| is_ident_char(c));
            }
            let t3 = skip_ws_at(l, t2);
            proof {
                lemma_scan(l@, t2 as int, |c: char| is_ws(c));
            }
            if t2 == t1 || !(t3 < l.len() && l[t3] == ')') {
                return None;
            }
            let target = make_ident(l, t1, t2, line_no);
            let choice = Choice { text: spans, target };
            let ghost cv = choice.deep_view();
            let ghost before = choices.deep_view();
            choices.push(choice);
            assert(choices.deep_view() =~= before.push(cv));
            let n = skip_ws_at(l, t3 + 1);
            proof {
                lemma_scan(l@, t3 + 1, |c: char| is_ws(c));
            }
            if n == l.len() {
                proof {
                    if let Some(all) = parse_choices(l@, p as int, line_no as int) {
                        assert(all =~= choices.deep_view());
                    }
                }
                return Some(choices);
            } else if l[n] == '[' {
                proof {
                    if let Some(rest) = parse_choices(l@, n as int, line_no as int) {
                        assert(before + (seq![cv] + rest) =~= choices.deep_view() + rest);
                    }
                }
                i = n;
            } else {
                return None;
            }
        }
    }

    /// Reads a `set` line after its keyword, from position `i`.
    fn parse_set_line(l: &Vec<char>, i: usize, line_no: usize) -> (res: Option<DialogueItem>)
        requires
            i <= l.len(),
        ensures
            match set_line(l@, i as int, line_no as int) {
                None => res is None,
                Some(item) => res matches Some(x) && x.deep_view() == item,
            },
    {
        let i1 = skip_ws_at(l, i);
        proof {
            lemma_scan(l@, i as int, |c: char| is_ws(c));
        }
        let i2 = ident_end_at(l, i1);
        proof {
            lemma_scan(l@, i1 as int, |c: char| is_ident_char(c));
        }
        if i2 == i1 {
            return None;
        }
        let i3 = skip_ws_at(l, i2);
        proof {
            lemma_scan(l@, i2 as int, |c: char| is_ws(c));
        }
        let (op, i4): (u8, usize) = if l.len() - i3 > 1 && l[i3] == '+' && l[i3 + 1] == '=' {
            (1, i3 + 2)
        } else if l.len() - i3 > 1 && l[i3] == '-' && l[i3 + 1] == '=' {
            (2, i3 + 2)
        } else if i3 < l.len() && l[i3] == '=' {
            (0, i3 + 1)
        } else {
            return None;
        };
        let i5 = skip_ws_at(l, i4);
        proof {
            lemma_scan(l@, i4 as int, |c: char| is_ws(c));
        }
        let d = if i5 < l.len() && l[i5] == '-' {
            i5 + 1
        } else {
            i5
        };
        let i6 = ident_end_at(l, d);
        proof {
            lemma_scan(l@, d as int, |c: char| is_ident_char(c));
        }
        let numeric = digits_end_at(l, d) == i6;
        if i6 == d || skip_ws_at(l, i6) != l.len() || (d > i5 && !numeric) || (op != 0 && !numeric) {
            return None;
        }
        let kind = if op == 1 {
            SetKind::IncInt
        } else if op == 2 {
            SetKind::DecInt
        } else if numeric {
            SetKind::SetInt
        } else {
            SetKind::SetEnum
        };
        let variable = make_ident(l, i1, i2, line_no);
        let value = make_ident(l, i5, i6, line_no);
        Some(DialogueItem::SetVariable { kind, variable, value })
    }

    /// Reads a regular or choice line that starts at position `i0`.
    fn parse_character_line(l: &Vec<char>, i0: usize, line_no: usize) -> (res: Option<DialogueItem>)
        requires
            i0 <= l.len(),
        ensures
            match character_line(l@, i0 as int, line_no as int) {
                None => res is None,
                Some(item) => res matches Some(x) && x.deep_view() == item,
            },
    {
        let i1 = ident_end_at(l, i0);
        proof {
            lemma_scan(l@, i0 as int, |c: char| is_ident_char(c));
        }
        let i2 = skip_ws_at(l, i1);
        proof {
            lemma_scan(l@, i1 as int, |c: char| is_ws(c));
        }
        if i1 == i0 || !(i2 < l.len() && l[i2] == ':') {
            return None;
        }
        let character = make_ident(l, i0, i1, line_no);
        let i3 = skip_ws_at(l, i2 + 1);
        proof {
            lemma_scan(l@, i2 + 1, |c: char| is_ws(c));
        }
        if i3 < l.len() && l[i3] == '[' {
            match Self::parse_choices_at(l, i3, line_no) {
                Some(choices) => Some(DialogueItem::Choice { character, choices }),
                None => None,
            }
        } else {
            let (spans, stop) = Self::parse_spans_at(l, i3);
            proof {
                lemma_parse_spans_bounds(l@, i3 as int);
            }
            if spans.len() > 0 && skip_ws_at(l, stop) == l.len() {
                Some(DialogueItem::Regular { character, text: spans })
            } else {
                None
            }
        }
    }

    /// Reads one line of a dialogue file: `Ok(None)` when blank, `Ok(Some(Ok(title)))`
    /// for a title, `Ok(Some(Err(item)))` for a line of a fragment, `Err(())` otherwise.
    fn parse_line(l: &Vec<char>, line_no: usize) -> (res: Result<
        Option<Result<Ident, DialogueItem>>,
        (),
    >)
        ensures
            match dialogue_line(l@, line_no as int) {
                None => res is Err,
                Some(DialogueLineView::Blank) => res matches Ok(None),
                Some(DialogueLineView::Header(t)) => res matches Ok(Some(Ok(x))) && x.deep_view()
                    == t,
                Some(DialogueLineView::Item(item)) => res matches Ok(Some(Err(x)))
                    && x.deep_view() == item,
            },
    {
        let i0 = skip_ws_at(l, 0);
        proof {
            lemma_scan(l@, 0, |c: char| is_ws(c));
        }
        if i0 == l.len() {
            return Ok(None);
        }
        if l[i0] == '[' {
            let i1 = skip_ws_at(l, i0 + 1);
            proof {
                lemma_scan(l@, i0 + 1, |c: char| is_ws(c));
            }
            let i2 = ident_end_at(l, i1);
            proof {
                lemma_scan(l@, i1 as int, |c: char| is_ident_char(c));
            }
            let i3 = skip_ws_at(l, i2);
            proof {
                lemma_scan(l@, i2 as int, |c: char| is_ws(c));
            }
            if i2 > i1 && i3 < l.len() && l[i3] == ']' && skip_ws_at(l, i3 + 1) == l.len() {
                Ok(Some(Ok(make_ident(l, i1, i2, line_no))))
            } else {
                Err(())
            }
        } else if l[i0] == '@' {
            let i2 = ident_end_at(l, i0 + 1);
            proof {
                lemma_scan(l@, i0 + 1, |c: char| is_ident_char(c));
            }
            if i2 > i0 + 1 && skip_ws_at(l, i2) == l.len() {
                let event = make_ident(l, i0 + 1, i2, line_no);
                Ok(Some(Err(DialogueItem::Event { event })))
            } else {
                Err(())
            }
        } else if l.len() - i0 > 3 && l[i0] == 's' && l[i0 + 1] == 'e' && l[i0 + 2] == 't'
            && is_ws_char(l[i0 + 3]) {
            match Self::parse_set_line(l, i0 + 3, line_no) {
                Some(item) => Ok(Some(Err(item))),
                None => Err(()),
            }
        } else {
            match Self::parse_character_line(l, i0, line_no) {
                Some(item) => Ok(Some(Err(item))),
                None => Err(()),
            }
        }
    }

    /// Reads a dialogue file: its fragments in order, or the number of its
    /// first bad line.
    pub fn parse(contents: &str) -> (res: Result<Vec<ParsedFragment>, ParseError>)
        ensures
            match dialogue_fragments(contents@) {
                Ok(frags) => res matches Ok(v) && v.deep_view() == frags,
                Err(k) => res matches Err(e) && e.line == k + 1,
            },
    {
        let chars = chars_of(contents);
        let lines = lines_of(&chars);
        let ghost ls = char_vecs_view(lines@);
        let mut frags: Vec<ParsedFragment> = Vec::new();
        let mut i: usize = 0;
        assert(ls.take(0) =~= Seq::<Seq<char>>::empty());
        assert(frags.deep_view() =~= Seq::<FragmentView>::empty());
        while i < lines.len()
            invariant
                i <= lines.len(),
                ls == char_vecs_view(lines@),
                ls == split_lines(contents@),
                fragments_of_lines(ls.take(i as int)) == Ok::<Seq<FragmentView>, int>(
                    frags.deep_view(),
                ),
                forall|k: int| 0 <= k < frags.len() ==> 1 <= #[trigger] frags@[k].title.line <= i,
            decreases lines.len() - i,
        {
            let line = &lines[i];
            assert(ls.take(i + 1).drop_last() == ls.take(i as int));
            assert(ls.take(i + 1).last() == line@);
            let ghost before = frags.deep_view();
            match Self::parse_line(line, i + 1) {
                Err(()) => {
                    proof {
                        lemma_fragments_error_stays(ls, i + 1);
                    }
                    return Err(ParseError { line: i + 1 });
                },
                Ok(None) => {},
                Ok(Some(Ok(title))) => {
                    let n = frags.len();
                    if n > 0 && frags[n - 1].items.len() == 0 {
                        proof {
                            lemma_fragments_error_stays(ls, i + 1);
                        }
                        return Err(ParseError { line: frags[n - 1].title.line });
                    }
                    let frag = ParsedFragment { title, items: Vec::new() };
                    let ghost fv = frag.deep_view();
                    assert(fv.items =~= Seq::<DialogueItemView>::empty());
                    frags.push(frag);
                    assert(frags.deep_view() =~= before.push(fv));
                },
                Ok(Some(Err(item))) => {
                    let n = frags.len();
                    if n == 0 {
                        proof {
                            lemma_fragments_error_stays(ls, i + 1);
                        }
                        return Err(ParseError { line: i + 1 });
                    }
                    let ghost iv = item.deep_view();
                    let mut last = frags.pop().unwrap();
                    let ghost lv = last.deep_view();
                    last.items.push(item);
                    assert(last.items.deep_view() =~= lv.items.push(iv));
                    frags.push(last);
                    assert(frags.deep_view() =~= before.update(
                        n - 1,
                        FragmentView { title: lv.title, items: lv.items.push(iv) },
                    ));
                },
            }
            i = i + 1;
        }
        assert(ls.take(lines.len() as int) == ls);
        let n = frags.len();
        if n > 0 && frags[n - 1].items.len() == 0 {
            return Err(ParseError { line: frags[n - 1].title.line });
        }
        Ok(frags)
    }
}

} // verus!

//! The grammar of a variables file: one definition per line.
//!
//! A line is blank, or it defines an integer variable or an enum variable:
//!
//! ```text
//! gold = 10
//! mood = { happy, sad, angry } happy
//! ```
//!
//! Names are made of ASCII letters, digits and `_`; an integer is an optional
//! `-` followed by digits; blanks (spaces, tabs, carriage returns) may stand
//! between the parts. In an enum definition the names between the braces are
//! the possible values, and the name after them is the initial value.
use vstd::prelude::*;
use crate::text::{
    char_vecs_view, chars_of, digits_end, digits_end_at, ident_at, ident_end, ident_end_at,
    is_digit, is_ident_char, is_int_literal, is_ws, lemma_scan, lines_of, make_ident, skip_ws, skip_ws_at,
    split_lines, string_from_chars, strings_view, Ident, IdentView, ParseError,
};

verus! {

/// What a definition defines: an integer (its literal), or an enum (its
/// possible values and its initial value).
#[derive(Debug, PartialEq, Eq)]
pub enum DefinitionKind {
    Int(Ident),
    Enum(Vec<String>, Ident),
}

/// One definition of a variables file.
#[derive(Debug, PartialEq, Eq)]
pub struct Definition {
    pub identifier: Ident,
    pub kind: DefinitionKind,
}

pub enum DefinitionKindView {
    Int(IdentView),
    Enum(Seq<Seq<char>>, IdentView),
}

pub struct DefinitionView {
    pub identifier: IdentView,
    pub kind: DefinitionKindView,
}

impl DeepView for DefinitionKind {
    type V = DefinitionKindView;

    open spec fn deep_view(&self) -> DefinitionKindView {
        match self {
            DefinitionKind::Int(lit) => DefinitionKindView::Int(lit.deep_view()),
            DefinitionKind::Enum(values, initial) => DefinitionKindView::Enum(
                strings_view(values@),
                initial.deep_view(),
            ),
        }
    }
}

impl DeepView for Definition {
    type V = DefinitionView;

    open spec fn deep_view(&self) -> DefinitionView {
        DefinitionView { identifier: self.identifier.deep_view(), kind: self.kind.deep_view() }
    }
}

/// The comma-separated names from position `i`, and the position after them
/// and the blanks that follow; `None` when no name stands where one is due.
pub open spec fn value_list(l: Seq<char>, i: int) -> Option<(Seq<Seq<char>>, int)>
    decreases l.len() - i,
    when 0 <= i <= l.len()
    via value_list_decreases
{
    let j = skip_ws(l, i);
    let k = ident_end(l, j);
    if k == j {
        None
    } else {
        let m = skip_ws(l, k);
        if m < l.len() && l[m] == ',' {
            match value_list(l, m + 1) {
                Some((rest, e)) => Some((seq![l.subrange(j, k)] + rest, e)),
                None => None,
            }
        } else {
            Some((seq![l.subrange(j, k)], m))
        }
    }
}

#[via_fn]
proof fn value_list_decreases(l: Seq<char>, i: int) {
    lemma_scan(l, i, |c: char| is_ws(c));
    let j = skip_ws(l, i);
    lemma_scan(l, j, |c: char| is_ident_char(c));
    let k = ident_end(l, j);
    lemma_scan(l, k, |c: char| is_ws(c));
}

/// What one line of a variables file holds: `Some(None)` when blank,
/// `Some(Some(d))` for a definition, `None` when it is neither.
pub open spec fn definition_line(l: Seq<char>, line_no: int) -> Option<Option<DefinitionView>> {
    let i0 = skip_ws(l, 0);
    if i0 == l.len() {
        Some(None)
    } else {
        let i1 = ident_end(l, i0);
        let i2 = skip_ws(l, i1);
        if i1 == i0 || !(i2 < l.len() && l[i2] == '=') {
            None
        } else {
            let identifier = ident_at(l, i0, i1, line_no);
            let i3 = skip_ws(l, i2 + 1);
            if i3 < l.len() && l[i3] == '{' {
                match value_list(l, i3 + 1) {
                    None => None,
                    Some((values, i4)) => {
                        if i4 < l.len() && l[i4] == '}' {
                            let i5 = skip_ws(l, i4 + 1);
                            let i6 = ident_end(l, i5);
                            if i6 > i5 && skip_ws(l, i6) == l.len() {
                                Some(
                                    Some(
                                        DefinitionView {
                                            identifier,
                                            kind: DefinitionKindView::Enum(
                                                values,
                                                ident_at(l, i5, i6, line_no),
                                            ),
                                        },
                                    ),
                                )
                            } else {
                                None
                            }
                        } else {
                            None
                        }
                    },
                }
            } else {
                let d = if i3 < l.len() && l[i3] == '-' {
                    i3 + 1
                } else {
                    i3
                };
                let i4 = digits_end(l, d);
                if i4 > d && skip_ws(l, i4) == l.len() {
                    Some(
                        Some(
                            DefinitionView {
                                identifier,
                                kind: DefinitionKindView::Int(ident_at(l, i3, i4, line_no)),
                            },
                        ),
                    )
                } else {
                    None
                }
            }
        }
    }
}

/// The definitions on the given lines, in order, or the index of the first
/// line that is neither blank nor a definition.
pub open spec fn definitions_of_lines(lines: Seq<Seq<char>>) -> Result<Seq<DefinitionView>, int>
    decreases lines.len(),
{
    if lines.len() == 0 {
        Ok(Seq::empty())
    } else {
        match definitions_of_lines(lines.drop_last()) {
            Err(k) => Err(k),
            Ok(defs) => match definition_line(lines.last(), lines.len() as int) {
                None => Err(lines.len() - 1),
                Some(None) => Ok(defs),
                Some(Some(d)) => Ok(defs.push(d)),
            },
        }
    }
}

/// The definitions of a variables file, or the index of its first bad line.
pub open spec fn variable_definitions(contents: Seq<char>) -> Result<Seq<DefinitionView>, int> {
    definitions_of_lines(split_lines(contents))
}

/// Whether an integer definition's literal is an integer literal.
pub open spec fn literal_well_formed(d: DefinitionView) -> bool {
    match d.kind {
        DefinitionKindView::Int(literal) => is_int_literal(literal.text),
        DefinitionKindView::Enum(..) => true,
    }
}

proof fn lemma_definition_line_literal(l: Seq<char>, line_no: int)
    ensures
        definition_line(l, line_no) matches Some(Some(d)) ==> literal_well_formed(d),
{
    lemma_scan(l, 0, |c: char| is_ws(c));
    let i0 = skip_ws(l, 0);
    if i0 < l.len() {
        lemma_scan(l, i0, |c: char| is_ident_char(c));
        let i1 = ident_end(l, i0);
        lemma_scan(l, i1, |c: char| is_ws(c));
        let i2 = skip_ws(l, i1);
        if i2 < l.len() {
            lemma_scan(l, i2 + 1, |c: char| is_ws(c));
            let i3 = skip_ws(l, i2 + 1);
            let d = if i3 < l.len() && l[i3] == '-' {
                i3 + 1
            } else {
                i3
            };
            lemma_scan(l, d, |c: char| is_digit(c));
            let i4 = digits_end(l, d);
            if i4 > d {
                let lit = l.subrange(i3, i4);
                assert(lit[0] == l[i3]);
                assert forall|k: int| (if lit[0] == '-' { 1int } else { 0int }) <= k < lit.len()
                    implies is_digit(#[trigger] lit[k]) by {
                    assert(lit[k] == l[i3 + k]);
                }
            }
        }
    }
}

/// Every integer literal that the grammar reads is an integer literal.
pub proof fn lemma_definitions_literals(lines: Seq<Seq<char>>)
    ensures
        definitions_of_lines(lines) matches Ok(defs) ==> forall|k: int|
            0 <= k < defs.len() ==> literal_well_formed(#[trigger] defs[k]),
    decreases lines.len(),
{
    if lines.len() > 0 {
        lemma_definitions_literals(lines.drop_last());
        lemma_definition_line_literal(lines.last(), lines.len() as int);
    }
}

proof fn lemma_definitions_error_stays(lines: Seq<Seq<char>>, n: int)
    requires
        0 <= n <= lines.len(),
        definitions_of_lines(lines.take(n)) is Err,
    ensures
        definitions_of_lines(lines) == definitions_of_lines(lines.take(n)),
    decreases lines.len() - n,
{
    if n < lines.len() {
        assert(lines.take(n + 1).drop_last() == lines.take(n));
        lemma_definitions_error_stays(lines, n + 1);
    } else {
        assert(lines.take(n) == lines);
    }
}

/// The parser for variables files.
pub struct VariablesParser;

impl VariablesParser {
    /// Reads the comma-separated names from position `i`.
    fn parse_value_list(l: &Vec<char>, i: usize) -> (res: Option<(Vec<String>, usize)>)
        requires
            i <= l.len(),
        ensures
            match value_list(l@, i as int) {
                None => res is None,
                Some((values, e)) => res matches Some((v, e2)) && strings_view(v@) == values && e2
                    == e,
            },
    {
        let mut values: Vec<String> = Vec::new();
        let mut p = i;
        // The list read so far, followed by what the rest reads, is the whole list.
        loop
            invariant
                p <= l.len(),
                match value_list(l@, i as int) {
                    None => value_list(l@, p as int) is None,
                    Some((all, e)) => match value_list(l@, p as int) {
                        None => false,
                        Some((rest, e2)) => all == strings_view(values@) + rest && e2 == e,
                    },
                },
            decreases l.len() - p,
        {
            let j = skip_ws_at(l, p);
            proof {
                lemma_scan(l@, p as int, |c: char| is_ws(c));
            }
            let k = ident_end_at(l, j);
            proof {
                lemma_scan(l@, j as int, |c: char| is_ident_char(c));
            }
            if k == j {
                return None;
            }
            let m = skip_ws_at(l, k);
            proof {
                lemma_scan(l@, k as int, |c: char| is_ws(c));
            }
            let value = string_from_chars(l, j, k);
            let ghost before = strings_view(values@);
            values.push(value);
            assert(strings_view(values@) =~= before.push(value@));
            if m < l.len() && l[m] == ',' {
                proof {
                    if let Some((rest, e)) = value_list(l@, (m + 1) as int) {
                        assert(before + (seq![value@] + rest) =~= strings_view(values@) + rest);
                    }
                }
                p = m + 1;
            } else {
                proof {
                    if let Some((all, e)) = value_list(l@, i as int) {
                        assert(all =~= strings_view(values@));
                    }
                }
                return Some((values, m));
            }
        }
    }

    /// Reads one line of a variables file.
    fn parse_line(l: &Vec<char>, line_no: usize) -> (res: Option<Option<Definition>>)
        ensures
            match definition_line(l@, line_no as int) {
                None => res is None,
                Some(None) => res matches Some(None),
                Some(Some(d)) => res matches Some(Some(x)) && x.deep_view() == d,
            },
    {
        let i0 = skip_ws_at(l, 0);
        proof {
            lemma_scan(l@, 0, |c: char| is_ws(c));
        }
        if i0 == l.len() {
            return Some(None);
        }
        let i1 = ident_end_at(l, i0);
        proof {
            lemma_scan(l@, i0 as int, |c: char| is_ident_char(c));
        }
        let i2 = skip_ws_at(l, i1);
        proof {
            lemma_scan(l@, i1 as int, |c: char| is_ws(c));
        }
        if i1 == i0 || !(i2 < l.len() && l[i2] == '=') {
            return None;
        }
        let identifier = make_ident(l, i0, i1, line_no);
        let i3 = skip_ws_at(l, i2 + 1);
        proof {
            lemma_scan(l@, i2 + 1, |c: char| is_ws(c));
        }
        if i3 < l.len() && l[i3] == '{' {
            match Self::parse_value_list(l, i3 + 1) {
                None => None,
                Some((values, i4)) => {
                    if i4 < l.len() && l[i4] == '}' {
                        let i5 = skip_ws_at(l, i4 + 1);
                        proof {
                            lemma_scan(l@, i4 + 1, |c: char| is_ws(c));
                        }
                        let i6 = ident_end_at(l, i5);
                        proof {
                            lemma_scan(l@, i5 as int, |c: char| is_ident_char(c));
                        }
                        if i6 > i5 && skip_ws_at(l, i6) == l.len() {
                            let initial = make_ident(l, i5, i6, line_no);
                            Some(Some(Definition { identifier, kind: DefinitionKind::Enum(values, initial) }))
                        } else {
                            None
                        }
                    } else {
                        None
                    }
                },
            }
        } else {
            let d = if i3 < l.len() && l[i3] == '-' {
                i3 + 1
            } else {
                i3
            };
            let i4 = digits_end_at(l, d);
            proof {
                lemma_scan(l@, d as int, |c: char| is_digit(c));
            }
            if i4 > d && skip_ws_at(l, i4) == l.len() {
                let literal = make_ident(l, i3, i4, line_no);
                Some(Some(Definition { identifier, kind: DefinitionKind::Int(literal) }))
            } else {
                None
            }
        }
    }

    /// Reads a variables file: its definitions in order, or the number of the
    /// first line that is neither blank nor a definition.
    pub fn parse(contents: &str) -> (res: Result<Vec<Definition>, ParseError>)
        ensures
            match variable_definitions(contents@) {
                Ok(defs) => res matches Ok(v) && v.deep_view() == defs,
                Err(k) => res matches Err(e) && e.line == k + 1,
            },
    {
        let chars = chars_of(contents);
        let lines = lines_of(&chars);
        let ghost ls = char_vecs_view(lines@);
        let mut defs: Vec<Definition> = Vec::new();
        let mut i: usize = 0;
        assert(ls.take(0) =~= Seq::<Seq<char>>::empty());
        assert(defs.deep_view() =~= Seq::<DefinitionView>::empty());
        while i < lines.len()
            invariant
                i <= lines.len(),
                ls == char_vecs_view(lines@),
                ls == split_lines(contents@),
                definitions_of_lines(ls.take(i as int)) == Ok::<Seq<DefinitionView>, int>(
                    defs.deep_view(),
                ),
            decreases lines.len() - i,
        {
            let line = &lines[i];
            assert(ls.take(i + 1).drop_last() == ls.take(i as int));
            assert(ls.take(i + 1).last() == line@);
            let ghost before = defs.deep_view();
            match Self::parse_line(line, i + 1) {
                None => {
                    proof {
                        lemma_definitions_error_stays(ls, i + 1);
                    }
                    return Err(ParseError { line: i + 1 });
                },
                Some(None) => {},
                Some(Some(d)) => {
                    let ghost dv = d.deep_view();
                    defs.push(d);
                    assert(defs.deep_view() =~= before.push(dv));
                },
            }
            i = i + 1;
        }
        assert(ls.take(lines.len() as int) == ls);
        Ok(defs)
    }
}

/// Reads a variables file and keeps nothing of it; [`VariablesParser::parse`]
/// gives its definitions.
pub fn get_tokens(contents: &str) {
}

} // verus!

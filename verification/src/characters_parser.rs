//! The grammar of a characters file: one character name per line.
//!
//! Each line is either blank (only spaces, tabs or carriage returns) or holds a
//! single name made of ASCII letters, digits and `_`, possibly surrounded by
//! blanks.
use vstd::prelude::*;
use crate::text::{
    char_vecs_view, chars_of, ident_end, ident_end_at, is_ident_char, is_ws, lemma_scan, lines_of,
    skip_ws, skip_ws_at, split_lines, string_from_chars, strings_view, ParseError,
};

verus! {

/// What one line of a characters file holds: `Some(None)` for a blank line,
/// `Some(Some(name))` for a name, `None` when the line is neither.
pub open spec fn name_line(l: Seq<char>) -> Option<Option<Seq<char>>> {
    let i = skip_ws(l, 0);
    let j = ident_end(l, i);
    if skip_ws(l, j) != l.len() {
        None
    } else if i == j {
        Some(None)
    } else {
        Some(Some(l.subrange(i, j)))
    }
}

/// The names on the given lines, in order, or the index of the first line
/// that is neither blank nor a name.
pub open spec fn names_of_lines(lines: Seq<Seq<char>>) -> Result<Seq<Seq<char>>, int>
    decreases lines.len(),
{
    if lines.len() == 0 {
        Ok(Seq::empty())
    } else {
        match names_of_lines(lines.drop_last()) {
            Err(k) => Err(k),
            Ok(names) => match name_line(lines.last()) {
                None => Err(lines.len() - 1),
                Some(None) => Ok(names),
                Some(Some(n)) => Ok(names.push(n)),
            },
        }
    }
}

/// The names that a characters file lists, or the index of its first bad line.
pub open spec fn character_names(contents: Seq<char>) -> Result<Seq<Seq<char>>, int> {
    names_of_lines(split_lines(contents))
}

proof fn lemma_names_error_stays(lines: Seq<Seq<char>>, n: int)
    requires
        0 <= n <= lines.len(),
        names_of_lines(lines.take(n)) is Err,
    ensures
        names_of_lines(lines) == names_of_lines(lines.take(n)),
    decreases lines.len() - n,
{
    if n < lines.len() {
        assert(lines.take(n + 1).drop_last() == lines.take(n));
        lemma_names_error_stays(lines, n + 1);
    } else {
        assert(lines.take(n) == lines);
    }
}

/// The parser for characters files.
pub struct CharactersParser;

impl CharactersParser {
    /// Reads one line: `Some(None)` when blank, `Some(Some((i, j)))` when it
    /// holds the name `l[i..j]`, `None` otherwise.
    fn parse_line(l: &Vec<char>) -> (res: Option<Option<(usize, usize)>>)
        ensures
            match name_line(l@) {
                None => res is None,
                Some(None) => res == Some(Option::<(usize, usize)>::None),
                Some(Some(n)) => res matches Some(Some((i, j))) && i <= j <= l.len()
                    && l@.subrange(i as int, j as int) == n,
            },
    {
        let i = skip_ws_at(l, 0);
        proof {
            lemma_scan(l@, 0, |c: char| is_ws(c));
        }
        let j = ident_end_at(l, i);
        proof {
            lemma_scan(l@, i as int, |c: char| is_ident_char(c));
        }
        let k = skip_ws_at(l, j);
        if k != l.len() {
            None
        } else if i == j {
            Some(None)
        } else {
            Some(Some((i, j)))
        }
    }

    /// Reads a characters file: the names it lists, in order, or the number of
    /// the first line that is neither blank nor a name.
    pub fn parse(contents: &str) -> (res: Result<Vec<String>, ParseError>)
        ensures
            match character_names(contents@) {
                Ok(names) => res matches Ok(v) && strings_view(v@) == names,
                Err(k) => res matches Err(e) && e.line == k + 1,
            },
    {
        let chars = chars_of(contents);
        let lines = lines_of(&chars);
        let ghost ls = char_vecs_view(lines@);
        let mut names: Vec<String> = Vec::new();
        let mut i: usize = 0;
        assert(ls.take(0) =~= Seq::<Seq<char>>::empty());
        assert(strings_view(names@) =~= Seq::<Seq<char>>::empty());
        while i < lines.len()
            invariant
                i <= lines.len(),
                ls == char_vecs_view(lines@),
                ls == split_lines(contents@),
                names_of_lines(ls.take(i as int)) == Ok::<Seq<Seq<char>>, int>(strings_view(names@)),
            decreases lines.len() - i,
        {
            let line = &lines[i];
            let ghost before = strings_view(names@);
            assert(ls.take(i + 1).drop_last() == ls.take(i as int));
            assert(ls.take(i + 1).last() == line@);
            match Self::parse_line(line) {
                None => {
                    proof {
                        lemma_names_error_stays(ls, i + 1);
                    }
                    return Err(ParseError { line: i + 1 });
                },
                Some(None) => {},
                Some(Some((a, b))) => {
                    let name = string_from_chars(line, a, b);
                    names.push(name);
                    assert(strings_view(names@) =~= before.push(name@));
                },
            }
            i = i + 1;
        }
        assert(ls.take(lines.len() as int) == ls);
        Ok(names)
    }
}

} // verus!

//! The kinds of project files, told apart by their extension, and the order in
//! which a project takes them.
use vstd::prelude::*;
use crate::text::{char_vecs_view, chars_of, split_at_char, split_on};

verus! {

/// The kind of a project file.
#[derive(Debug, Clone, Copy, PartialEq, Eq, Structural)]
pub enum FileType {
    Characters,
    Variables,
    Dialogue,
    Unidentified,
}

/// A project file: where it is, its kind, and what it holds.
#[derive(Debug, PartialEq, Eq)]
pub struct GossipFile {
    pub file_path: String,
    pub file_type: FileType,
    pub contents: String,
}

pub struct GossipFileView {
    pub file_path: Seq<char>,
    pub file_type: FileType,
    pub contents: Seq<char>,
}

impl DeepView for GossipFile {
    type V = GossipFileView;

    open spec fn deep_view(&self) -> GossipFileView {
        GossipFileView {
            file_path: self.file_path@,
            file_type: self.file_type,
            contents: self.contents@,
        }
    }
}

/// The last named component of a path split at its separators: empty components and
/// `.` are skipped; a path that ends in `..` (or names nothing) has none.
pub open spec fn last_named_component(components: Seq<Seq<char>>) -> Option<Seq<char>>
    decreases components.len(),
{
    if components.len() == 0 {
        None
    } else {
        let c = components.last();
        if c.len() == 0 || c == seq!['.'] {
            last_named_component(components.drop_last())
        } else if c == seq!['.', '.'] {
            None
        } else {
            Some(c)
        }
    }
}

/// A path with each `\` written as `/`: both separate components.
pub open spec fn with_slashes(path: Seq<char>) -> Seq<char> {
    path.map_values(|c: char| if c == '\\' { '/' } else { c })
}

/// The file name of a path, as `Path::file_name` gives it where both `/` and
/// `\` separate components.
pub open spec fn file_name(path: Seq<char>) -> Option<Seq<char>> {
    last_named_component(split_on(with_slashes(path), '/'))
}

/// The index of the last `.` in `s`, or -1.
pub open spec fn last_dot(s: Seq<char>) -> int
    decreases s.len(),
{
    if s.len() == 0 {
        -1
    } else if s.last() == '.' {
        s.len() - 1
    } else {
        last_dot(s.drop_last())
    }
}

/// The extension of a path, as `Path::extension` gives it: what follows the
/// last `.` of the file name, unless the file name has no `.` other than a
/// leading one.
pub open spec fn extension(path: Seq<char>) -> Option<Seq<char>> {
    match file_name(path) {
        None => None,
        Some(name) => {
            let k = last_dot(name);
            if k <= 0 {
                None
            } else {
                Some(name.subrange(k + 1, name.len() as int))
            }
        },
    }
}

/// The kind of a file with the given extension.
pub open spec fn file_type_of_extension(ext: Option<Seq<char>>) -> FileType {
    match ext {
        Some(e) => {
            if e == "characters"@ {
                FileType::Characters
            } else if e == "variables"@ {
                FileType::Variables
            } else if e == "dialogue"@ {
                FileType::Dialogue
            } else {
                FileType::Unidentified
            }
        },
        None => FileType::Unidentified,
    }
}

proof fn lemma_last_dot_bounds(s: Seq<char>)
    ensures
        -1 <= last_dot(s) < s.len(),
        last_dot(s) >= 0 ==> s[last_dot(s)] == '.',
        forall|m: int| last_dot(s) < m < s.len() ==> s[m] != '.',
    decreases s.len(),
{
    if s.len() > 0 {
        lemma_last_dot_bounds(s.drop_last());
        if s.last() != '.' {
            assert forall|m: int| last_dot(s) < m < s.len() implies s[m] != '.' by {
                if m < s.len() - 1 {
                    assert(s[m] == s.drop_last()[m]);
                }
            }
        }
    }
}

/// The index of the component that is the file name of the path with the given
/// components, if it has one.
fn last_named_component_exec(components: &Vec<Vec<char>>) -> (res: Option<usize>)
    ensures
        match last_named_component(char_vecs_view(components@)) {
            None => res is None,
            Some(c) => res matches Some(i) && i < components.len() && components@[i as int]@ == c,
        },
{
    let ghost cs = char_vecs_view(components@);
    let mut n = components.len();
    assert(cs.take(n as int) == cs);
    while n > 0
        invariant
            n <= components.len(),
            cs == char_vecs_view(components@),
            last_named_component(cs) == last_named_component(cs.take(n as int)),
        decreases n,
    {
        let c = &components[n - 1];
        assert(cs.take(n as int).last() == c@);
        assert(cs.take(n as int).drop_last() == cs.take(n - 1));
        let dot = c.len() == 1 && c[0] == '.';
        let dot_dot = c.len() == 2 && c[0] == '.' && c[1] == '.';
        assert(dot == (c@ == seq!['.'])) by {
            if c@ == seq!['.'] {
                assert(c@[0] == '.');
            }
            if dot {
                assert(c@ =~= seq!['.']);
            }
        }
        assert(dot_dot == (c@ == seq!['.', '.'])) by {
            if c@ == seq!['.', '.'] {
                assert(c@[0] == '.' && c@[1] == '.');
            }
            if dot_dot {
                assert(c@ =~= seq!['.', '.']);
            }
        }
        if c.len() == 0 || dot {
            n = n - 1;
        } else if dot_dot {
            return None;
        } else {
            return Some(n - 1);
        }
    }
    assert(cs.take(0) =~= Seq::<Seq<char>>::empty());
    None
}

/// The characters of a path, with each `\` written as `/`.
fn slashes_of(path: &str) -> (res: Vec<char>)
    ensures
        res@ == with_slashes(path@),
{
    let cs = chars_of(path);
    let mut res: Vec<char> = Vec::new();
    let mut i: usize = 0;
    while i < cs.len()
        invariant
            i <= cs.len(),
            cs@ == path@,
            res@ == with_slashes(path@).take(i as int),
        decreases cs.len() - i,
    {
        if cs[i] == '\\' {
            res.push('/');
        } else {
            res.push(cs[i]);
        }
        assert(res@ =~= with_slashes(path@).take(i + 1));
        i = i + 1;
    }
    assert(with_slashes(path@).take(cs.len() as int) =~= with_slashes(path@));
    res
}

/// Whether `s[from..]` holds exactly the characters of `t`.
fn chars_equal(s: &Vec<char>, from: usize, t: &str) -> (b: bool)
    requires
        from <= s.len(),
    ensures
        b == (s@.subrange(from as int, s.len() as int) == t@),
{
    let tc = chars_of(t);
    if s.len() - from != tc.len() {
        return false;
    }
    let mut i: usize = 0;
    while i < tc.len()
        invariant
            i <= tc.len(),
            from + tc.len() == s.len(),
            tc@ == t@,
            forall|m: int| 0 <= m < i ==> s@[from + m] == tc@[m],
        decreases tc.len() - i,
    {
        if s[from + i] != tc[i] {
            assert(s@.subrange(from as int, s.len() as int)[i as int] != t@[i as int]);
            return false;
        }
        i = i + 1;
    }
    assert(s@.subrange(from as int, s.len() as int) =~= t@);
    true
}

/// The kind of a file, told by its path's extension: `characters`,
/// `variables` or `dialogue`; any other file is unidentified.
pub fn get_file_type(file_name: &str) -> (res: FileType)
    ensures
        res == file_type_of_extension(extension(file_name@)),
{
    let path = slashes_of(file_name);
    let components = split_at_char(&path, '/');
    let i = match last_named_component_exec(&components) {
        None => {
            return FileType::Unidentified;
        },
        Some(i) => i,
    };
    let name = &components[i];
    proof {
        lemma_last_dot_bounds(name@);
    }
    let mut k = name.len();
    while k > 0 && name[k - 1] != '.'
        invariant
            k <= name.len(),
            forall|m: int| k <= m < name.len() ==> name@[m] != '.',
        decreases k,
    {
        k = k - 1;
    }
    assert(last_dot(name@) == k - 1) by {
        lemma_last_dot_bounds(name@);
        if last_dot(name@) > k - 1 {
            assert(name@[last_dot(name@)] == '.');
        }
        if k > 0 && last_dot(name@) < k - 1 {
            assert(name@[k - 1] == '.');
        }
    }
    if k <= 1 {
        return FileType::Unidentified;
    }
    if chars_equal(name, k, "characters") {
        FileType::Characters
    } else if chars_equal(name, k, "variables") {
        FileType::Variables
    } else if chars_equal(name, k, "dialogue") {
        FileType::Dialogue
    } else {
        FileType::Unidentified
    }
}

/// Where a kind of file stands in a project's order: dialogue (and
/// unidentified) files first, then the variables file, then the characters file.
pub open spec fn file_type_rank(t: FileType) -> int {
    match t {
        FileType::Characters => 2,
        FileType::Variables => 1,
        _ => 0,
    }
}

/// Compares two kinds of file by their place in a project's order.
pub fn compare_file_types(a: FileType, b: FileType) -> (res: core::cmp::Ordering)
    ensures
        (res == core::cmp::Ordering::Less) == (file_type_rank(a) < file_type_rank(b)),
        (res == core::cmp::Ordering::Equal) == (file_type_rank(a) == file_type_rank(b)),
        (res == core::cmp::Ordering::Greater) == (file_type_rank(a) > file_type_rank(b)),
{
    let ra: u8 = match a {
        FileType::Characters => 2,
        FileType::Variables => 1,
        _ => 0,
    };
    let rb: u8 = match b {
        FileType::Characters => 2,
        FileType::Variables => 1,
        _ => 0,
    };
    if ra < rb {
        core::cmp::Ordering::Less
    } else if ra == rb {
        core::cmp::Ordering::Equal
    } else {
        core::cmp::Ordering::Greater
    }
}

/// The files of a given rank, in their order.
pub open spec fn files_of_rank(files: Seq<GossipFileView>, rank: int) -> Seq<GossipFileView>
    decreases files.len(),
{
    if files.len() == 0 {
        Seq::empty()
    } else if file_type_rank(files.last().file_type) == rank {
        files_of_rank(files.drop_last(), rank).push(files.last())
    } else {
        files_of_rank(files.drop_last(), rank)
    }
}

proof fn lemma_files_of_rank(files: Seq<GossipFileView>, rank: int)
    ensures
        forall|i: int| 0 <= i < files_of_rank(files, rank).len() ==> file_type_rank(
            #[trigger] files_of_rank(files, rank)[i].file_type,
        ) == rank,
        files_of_rank(files, rank).len() <= files.len(),
    decreases files.len(),
{
    if files.len() > 0 {
        lemma_files_of_rank(files.drop_last(), rank);
        let prev = files_of_rank(files.drop_last(), rank);
        assert forall|i: int| 0 <= i < files_of_rank(files, rank).len() implies file_type_rank(
            #[trigger] files_of_rank(files, rank)[i].file_type,
        ) == rank by {
            if i < prev.len() {
                assert(files_of_rank(files, rank)[i] == prev[i]);
            }
        }
    }
}

proof fn lemma_files_of_rank_count(files: Seq<GossipFileView>)
    ensures
        files_of_rank(files, 0).len() + files_of_rank(files, 1).len() + files_of_rank(files, 2).len()
            == files.len(),
    decreases files.len(),
{
    if files.len() > 0 {
        lemma_files_of_rank_count(files.drop_last());
    }
}

/// The project's order keeps every file and puts them in order of rank:
/// dialogue files first, then variables files, then characters files.
pub proof fn lemma_project_order(files: Seq<GossipFileView>)
    ensures
        ({
            let sorted = files_of_rank(files, 0) + files_of_rank(files, 1) + files_of_rank(files, 2);
            &&& sorted.len() == files.len()
            &&& forall|i: int, j: int|
                0 <= i < j < sorted.len() ==> file_type_rank(#[trigger] sorted[i].file_type)
                    <= file_type_rank(#[trigger] sorted[j].file_type)
        }),
{
    lemma_files_of_rank(files, 0);
    lemma_files_of_rank(files, 1);
    lemma_files_of_rank(files, 2);
    lemma_files_of_rank_count(files);
    let a = files_of_rank(files, 0);
    let b = files_of_rank(files, 1);
    let c = files_of_rank(files, 2);
    let sorted = a + b + c;
    assert forall|i: int| 0 <= i < sorted.len() implies file_type_rank(#[trigger] sorted[i].file_type)
        == (if i < a.len() {
        0int
    } else if i < a.len() + b.len() {
        1int
    } else {
        2int
    }) by {
        if i < a.len() {
            assert(sorted[i] == a[i]);
        } else if i < a.len() + b.len() {
            assert(sorted[i] == b[i - a.len()]);
        } else {
            assert(sorted[i] == c[i - a.len() - b.len()]);
        }
    }
}

/// The files in a project's order: sorted by the rank of their kind, files of
/// the same rank keeping their order (as a stable sort by `compare_file_types`
/// leaves them).
pub fn sort_files_by_type(files: Vec<GossipFile>) -> (res: Vec<GossipFile>)
    ensures
        res.deep_view() == files_of_rank(files.deep_view(), 0) + files_of_rank(files.deep_view(), 1)
            + files_of_rank(files.deep_view(), 2),
{
    let ghost fv = files.deep_view();
    let ghost orig = files@;
    let mut low: Vec<GossipFile> = Vec::new();
    let mut middle: Vec<GossipFile> = Vec::new();
    let mut high: Vec<GossipFile> = Vec::new();
    assert(fv.take(0) =~= Seq::<GossipFileView>::empty());
    assert(low.deep_view() =~= Seq::<GossipFileView>::empty());
    assert(middle.deep_view() =~= Seq::<GossipFileView>::empty());
    assert(high.deep_view() =~= Seq::<GossipFileView>::empty());
    for file in it: files.into_iter()
        invariant
            it.seq() == orig,
            fv.len() == orig.len(),
            forall|m: int| 0 <= m < fv.len() ==> #[trigger] fv[m] == orig[m].deep_view(),
            low.deep_view() == files_of_rank(fv.take(it.index() as int), 0),
            middle.deep_view() == files_of_rank(fv.take(it.index() as int), 1),
            high.deep_view() == files_of_rank(fv.take(it.index() as int), 2),
    {
        let ghost i = it.index();
        let ghost f = file.deep_view();
        assert(fv.take(i + 1).drop_last() == fv.take(i as int));
        assert(fv.take(i + 1).last() == f);
        let ghost (l0, m0, h0) = (low.deep_view(), middle.deep_view(), high.deep_view());
        match file.file_type {
            FileType::Characters => {
                high.push(file);
                assert(high.deep_view() =~= h0.push(f));
            },
            FileType::Variables => {
                middle.push(file);
                assert(middle.deep_view() =~= m0.push(f));
            },
            _ => {
                low.push(file);
                assert(low.deep_view() =~= l0.push(f));
            },
        }
    }
    assert(fv.take(fv.len() as int) == fv);
    let ghost (l, m, h) = (low.deep_view(), middle.deep_view(), high.deep_view());
    low.append(&mut middle);
    low.append(&mut high);
    assert(low.deep_view() =~= l + m + h);
    low
}

} // verus!

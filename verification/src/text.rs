//! Character classes, scanning over character sequences, line splitting,
//! and the small string-building helpers that the rest of the crate uses.
use vstd::prelude::*;

verus! {

/// A file that does not follow its grammar: `line` is the 1-based number of the
/// first line that breaks it.
#[derive(Debug, Clone, Copy, PartialEq, Eq, Structural)]
pub struct ParseError {
    pub line: usize,
}

/// A name read from a file, with the 1-based line and column where it starts.
#[derive(Debug, PartialEq, Eq)]
pub struct Ident {
    pub text: String,
    pub line: usize,
    pub col: usize,
}

/// The view of an [`Ident`].
pub struct IdentView {
    pub text: Seq<char>,
    pub line: int,
    pub col: int,
}

impl DeepView for Ident {
    type V = IdentView;

    open spec fn deep_view(&self) -> IdentView {
        IdentView { text: self.text@, line: self.line as int, col: self.col as int }
    }
}

impl Ident {
    /// A copy of this name and its place.
    pub fn duplicate(&self) -> (res: Ident)
        ensures
            res.deep_view() == self.deep_view(),
    {
        Ident { text: self.text.clone(), line: self.line, col: self.col }
    }
}

/// The name `l[from..to]` on line number `line_no`.
pub open spec fn ident_at(l: Seq<char>, from: int, to: int, line_no: int) -> IdentView {
    IdentView { text: l.subrange(from, to), line: line_no, col: from + 1 }
}

/// The [`Ident`] for `l[from..to]` on line number `line_no`.
pub fn make_ident(l: &Vec<char>, from: usize, to: usize, line_no: usize) -> (res: Ident)
    requires
        from < to <= l.len(),
    ensures
        res.deep_view() == ident_at(l@, from as int, to as int, line_no as int),
{
    Ident { text: string_from_chars(l, from, to), line: line_no, col: from + 1 }
}

/// The views of a sequence of strings.
pub open spec fn strings_view(v: Seq<String>) -> Seq<Seq<char>> {
    v.map_values(|s: String| s@)
}

/// The elements of `s.push(x)` are those of `s` and `x`.
pub proof fn lemma_push_to_set<A>(s: Seq<A>, x: A)
    ensures
        s.push(x).to_set() == s.to_set().insert(x),
{
    assert forall|a: A| s.push(x).to_set().contains(a) <==> s.to_set().insert(x).contains(a) by {
        if s.push(x).contains(a) {
            let k = choose|k: int| 0 <= k < s.push(x).len() && s.push(x)[k] == a;
            if k < s.len() {
                assert(s[k] == a);
            }
        }
        if s.contains(a) {
            let k = choose|k: int| 0 <= k < s.len() && s[k] == a;
            assert(s.push(x)[k] == a);
        }
        if a == x {
            assert(s.push(x)[s.len() as int] == a);
        }
    }
    assert(s.push(x).to_set() =~= s.to_set().insert(x));
}

/// Blank characters that may separate tokens on a line.
pub open spec fn is_ws(c: char) -> bool {
    c == ' ' || c == '\t' || c == '\r'
}

pub open spec fn is_digit(c: char) -> bool {
    '0' <= c && c <= '9'
}

/// Characters that may appear in an identifier: ASCII letters, digits and `_`.
pub open spec fn is_ident_char(c: char) -> bool {
    ('a' <= c && c <= 'z') || ('A' <= c && c <= 'Z') || is_digit(c) || c == '_'
}

/// The first position at or after `i` whose character does not satisfy `p`
/// (or the end of `s`).
pub open spec fn scan(s: Seq<char>, i: int, p: spec_fn(char) -> bool) -> int
    decreases s.len() - i,
{
    if 0 <= i < s.len() && p(s[i]) {
        scan(s, i + 1, p)
    } else {
        i
    }
}

pub open spec fn skip_ws(s: Seq<char>, i: int) -> int {
    scan(s, i, |c: char| is_ws(c))
}

pub open spec fn ident_end(s: Seq<char>, i: int) -> int {
    scan(s, i, |c: char| is_ident_char(c))
}

pub open spec fn digits_end(s: Seq<char>, i: int) -> int {
    scan(s, i, |c: char| is_digit(c))
}

/// What a scan returns: a position between `i` and the end, every character
/// skipped satisfies `p`, and the scan stops at the end or at a character that
/// does not satisfy `p`.
pub proof fn lemma_scan(s: Seq<char>, i: int, p: spec_fn(char) -> bool)
    requires
        0 <= i <= s.len(),
    ensures
        i <= scan(s, i, p) <= s.len(),
        forall|k: int| i <= k < scan(s, i, p) ==> p(#[trigger] s[k]),
        scan(s, i, p) < s.len() ==> !p(s[scan(s, i, p)]),
    decreases s.len() - i,
{
    if i < s.len() && p(s[i]) {
        lemma_scan(s, i + 1, p);
    }
}

pub fn is_ws_char(c: char) -> (b: bool)
    ensures
        b == is_ws(c),
{
    c == ' ' || c == '\t' || c == '\r'
}

pub fn is_digit_char(c: char) -> (b: bool)
    ensures
        b == is_digit(c),
{
    '0' <= c && c <= '9'
}

pub fn is_ident_char_exec(c: char) -> (b: bool)
    ensures
        b == is_ident_char(c),
{
    ('a' <= c && c <= 'z') || ('A' <= c && c <= 'Z') || ('0' <= c && c <= '9') || c == '_'
}

pub fn skip_ws_at(s: &Vec<char>, i: usize) -> (j: usize)
    requires
        i <= s.len(),
    ensures
        j == skip_ws(s@, i as int),
{
    let mut j = i;
    while j < s.len() && is_ws_char(s[j])
        invariant
            i <= j <= s.len(),
            skip_ws(s@, j as int) == skip_ws(s@, i as int),
        decreases s.len() - j,
    {
        j = j + 1;
    }
    j
}

pub fn ident_end_at(s: &Vec<char>, i: usize) -> (j: usize)
    requires
        i <= s.len(),
    ensures
        j == ident_end(s@, i as int),
{
    let mut j = i;
    while j < s.len() && is_ident_char_exec(s[j])
        invariant
            i <= j <= s.len(),
            ident_end(s@, j as int) == ident_end(s@, i as int),
        decreases s.len() - j,
    {
        j = j + 1;
    }
    j
}

pub fn digits_end_at(s: &Vec<char>, i: usize) -> (j: usize)
    requires
        i <= s.len(),
    ensures
        j == digits_end(s@, i as int),
{
    let mut j = i;
    while j < s.len() && is_digit_char(s[j])
        invariant
            i <= j <= s.len(),
            digits_end(s@, j as int) == digits_end(s@, i as int),
        decreases s.len() - j,
    {
        j = j + 1;
    }
    j
}

/// The pieces of `s` between occurrences of `sep`, in order. A text with `n`
/// occurrences of `sep` has `n + 1` pieces.
pub open spec fn split_on(s: Seq<char>, sep: char) -> Seq<Seq<char>>
    decreases s.len(),
{
    if s.len() == 0 {
        seq![Seq::<char>::empty()]
    } else {
        let prev = split_on(s.drop_last(), sep);
        if s.last() == sep {
            prev.push(Seq::<char>::empty())
        } else {
            prev.update(prev.len() - 1, prev.last().push(s.last()))
        }
    }
}

/// The lines of `s`: the pieces between `'\n'` characters, in order.
pub open spec fn split_lines(s: Seq<char>) -> Seq<Seq<char>> {
    split_on(s, '\n')
}

pub proof fn lemma_split_on_nonempty(s: Seq<char>, sep: char)
    ensures
        split_on(s, sep).len() >= 1,
    decreases s.len(),
{
    if s.len() > 0 {
        lemma_split_on_nonempty(s.drop_last(), sep);
    }
}

/// The pieces joined with `sep` between them.
pub open spec fn join_on(pieces: Seq<Seq<char>>, sep: char) -> Seq<char>
    decreases pieces.len(),
{
    if pieces.len() == 0 {
        Seq::empty()
    } else if pieces.len() == 1 {
        pieces[0]
    } else {
        join_on(pieces.drop_last(), sep) + seq![sep] + pieces.last()
    }
}

/// Splitting loses nothing: no piece holds the separator, and the pieces
/// joined with it give the text back.
pub proof fn lemma_split_on_join(s: Seq<char>, sep: char)
    ensures
        join_on(split_on(s, sep), sep) == s,
        forall|k: int, m: int|
            0 <= k < split_on(s, sep).len() && 0 <= m < split_on(s, sep)[k].len()
                ==> #[trigger] split_on(s, sep)[k][m] != sep,
    decreases s.len(),
{
    lemma_split_on_nonempty(s, sep);
    if s.len() > 0 {
        let prev = split_on(s.drop_last(), sep);
        lemma_split_on_join(s.drop_last(), sep);
        lemma_split_on_nonempty(s.drop_last(), sep);
        if s.last() == sep {
            assert(prev.push(Seq::<char>::empty()).drop_last() == prev);
            assert(s == s.drop_last() + seq![sep] + Seq::<char>::empty());
        } else {
            let cur = prev.update(prev.len() - 1, prev.last().push(s.last()));
            assert(cur.drop_last() == prev.drop_last());
            if prev.len() == 1 {
                assert(s =~= prev[0].push(s.last()));
            } else {
                assert(s == s.drop_last().push(s.last()));
                assert(join_on(prev, sep) == join_on(prev.drop_last(), sep) + seq![sep] + prev.last());
                assert(s =~= join_on(prev.drop_last(), sep) + seq![sep] + prev.last().push(s.last()));
            }
        }
    }
}

/// The views of a sequence of character vectors.
pub open spec fn char_vecs_view(v: Seq<Vec<char>>) -> Seq<Seq<char>> {
    v.map_values(|l: Vec<char>| l@)
}

/// The pieces of `s` between occurrences of `sep`.
pub fn split_at_char(s: &Vec<char>, sep: char) -> (res: Vec<Vec<char>>)
    ensures
        char_vecs_view(res@) == split_on(s@, sep),
{
    let mut done: Vec<Vec<char>> = Vec::new();
    let mut cur: Vec<char> = Vec::new();
    let mut i: usize = 0;
    assert(s@.take(0) =~= Seq::<char>::empty());
    while i < s.len()
        invariant
            i <= s.len(),
            split_on(s@.take(i as int), sep) == char_vecs_view(done@).push(cur@),
        decreases s.len() - i,
    {
        let c = s[i];
        assert(s@.take(i + 1).drop_last() == s@.take(i as int));
        if c == sep {
            let finished = cur;
            done.push(finished);
            cur = Vec::new();
        } else {
            cur.push(c);
        }
        assert(split_on(s@.take(i + 1), sep) =~= char_vecs_view(done@).push(cur@));
        i = i + 1;
    }
    assert(s@.take(s.len() as int) == s@);
    done.push(cur);
    assert(char_vecs_view(done@) =~= split_on(s@, sep));
    done
}

/// The lines of `s`.
pub fn lines_of(s: &Vec<char>) -> (res: Vec<Vec<char>>)
    ensures
        char_vecs_view(res@) == split_lines(s@),
{
    split_at_char(s, '\n')
}

/// A `String` holding `s[from..to]`.
pub fn string_from_chars(s: &Vec<char>, from: usize, to: usize) -> (res: String)
    requires
        from <= to <= s.len(),
    ensures
        res@ == s@.subrange(from as int, to as int),
{
    let mut res = String::new();
    let mut i = from;
    while i < to
        invariant
            from <= i <= to <= s.len(),
            res@ == s@.subrange(from as int, i as int),
        decreases to - i,
    {
        push_char(&mut res, s[i]);
        assert(s@.subrange(from as int, i + 1) == s@.subrange(from as int, i as int).push(s@[i as int]));
        i = i + 1;
    }
    res
}

/// Appends one character to a string.
///
/// Trusted: calls `String::push`, whose documentation says that it appends the
/// given `char` to the end of the string.
#[verifier::external_body]
pub(crate) fn push_char(s: &mut String, c: char)
    ensures
        final(s)@ == old(s)@.push(c),
{
    s.push(c);
}

/// Whether two string slices hold the same characters.
pub fn str_eq(a: &str, b: &str) -> (r: bool)
    ensures
        r == (a@ == b@),
{
    let ac = chars_of(a);
    let bc = chars_of(b);
    if ac.len() != bc.len() {
        return false;
    }
    let mut i: usize = 0;
    while i < ac.len()
        invariant
            i <= ac.len(),
            ac.len() == bc.len(),
            ac@ == a@,
            bc@ == b@,
            forall|k: int| 0 <= k < i ==> ac@[k] == bc@[k],
        decreases ac.len() - i,
    {
        if ac[i] != bc[i] {
            assert(a@[i as int] != b@[i as int]);
            return false;
        }
        i = i + 1;
    }
    assert(ac@ =~= bc@);
    true
}

/// Whether `value` is among `values`.
pub fn strings_contain(values: &Vec<String>, value: &str) -> (b: bool)
    ensures
        b == strings_view(values@).contains(value@),
{
    let ghost v = strings_view(values@);
    let mut i: usize = 0;
    while i < values.len()
        invariant
            i <= values.len(),
            v == strings_view(values@),
            forall|j: int| 0 <= j < i ==> #[trigger] v[j] != value@,
        decreases values.len() - i,
    {
        if str_eq(values[i].as_str(), value) {
            assert(v[i as int] == value@);
            return true;
        }
        i = i + 1;
    }
    false
}

/// The characters of a string slice, in order.
pub fn chars_of(s: &str) -> (res: Vec<char>)
    ensures
        res@ == s@,
{
    let mut res: Vec<char> = Vec::new();
    for c in it: s.chars()
        invariant
            res@ == it.seq().take(it.index() as int),
    {
        res.push(c);
    }
    res
}

/// The character of a decimal digit.
pub open spec fn digit_char(d: int) -> char {
    if d == 0 {
        '0'
    } else if d == 1 {
        '1'
    } else if d == 2 {
        '2'
    } else if d == 3 {
        '3'
    } else if d == 4 {
        '4'
    } else if d == 5 {
        '5'
    } else if d == 6 {
        '6'
    } else if d == 7 {
        '7'
    } else if d == 8 {
        '8'
    } else {
        '9'
    }
}

/// The decimal digits of a natural number, without leading zeros.
pub open spec fn nat_decimal(n: nat) -> Seq<char>
    decreases n,
{
    if n < 10 {
        seq![digit_char(n as int)]
    } else {
        nat_decimal(n / 10).push(digit_char((n % 10) as int))
    }
}

/// The decimal form of an integer, with a leading `-` when it is negative.
pub open spec fn int_decimal(n: int) -> Seq<char> {
    if n < 0 {
        seq!['-'] + nat_decimal((-n) as nat)
    } else {
        nat_decimal(n as nat)
    }
}

fn digit_to_char(d: u64) -> (c: char)
    requires
        d < 10,
    ensures
        c == digit_char(d as int),
{
    if d == 0 {
        '0'
    } else if d == 1 {
        '1'
    } else if d == 2 {
        '2'
    } else if d == 3 {
        '3'
    } else if d == 4 {
        '4'
    } else if d == 5 {
        '5'
    } else if d == 6 {
        '6'
    } else if d == 7 {
        '7'
    } else if d == 8 {
        '8'
    } else {
        '9'
    }
}

pub fn push_decimal(s: &mut String, n: u64)
    ensures
        final(s)@ == old(s)@ + nat_decimal(n as nat),
    decreases n,
{
    if n >= 10 {
        push_decimal(s, n / 10);
    }
    push_char(s, digit_to_char(n % 10));
}

/// The decimal form of a `usize`, as `to_string` writes it.
pub fn usize_to_string(n: usize) -> (res: String)
    ensures
        res@ == nat_decimal(n as nat),
{
    let mut res = String::new();
    push_decimal(&mut res, n as u64);
    res
}

/// The decimal form of an `i32`, as `to_string` writes it.
pub fn i32_to_string(n: i32) -> (res: String)
    ensures
        res@ == int_decimal(n as int),
{
    let mut res = String::new();
    if n < 0 {
        push_char(&mut res, '-');
        let m: i64 = -(n as i64);
        push_decimal(&mut res, m as u64);
    } else {
        push_decimal(&mut res, n as u64);
    }
    res
}

/// The value of a run of decimal digits.
pub open spec fn digits_value(s: Seq<char>) -> int
    decreases s.len(),
{
    if s.len() == 0 {
        0
    } else {
        digits_value(s.drop_last()) * 10 + (s.last() as int - '0' as int)
    }
}

/// The value of an integer literal: an optional `-` followed by digits.
pub open spec fn literal_value(s: Seq<char>) -> int {
    if s.len() > 0 && s[0] == '-' {
        -digits_value(s.drop_first())
    } else {
        digits_value(s)
    }
}

/// Whether `s` is an integer literal: an optional `-` and at least one digit.
pub open spec fn is_int_literal(s: Seq<char>) -> bool {
    let start = if s.len() > 0 && s[0] == '-' {
        1int
    } else {
        0int
    };
    &&& start < s.len()
    &&& forall|k: int| start <= k < s.len() ==> is_digit(#[trigger] s[k])
}

proof fn lemma_digits_value_nonneg(s: Seq<char>)
    requires
        forall|k: int| 0 <= k < s.len() ==> is_digit(#[trigger] s[k]),
    ensures
        digits_value(s) >= 0,
    decreases s.len(),
{
    if s.len() > 0 {
        lemma_digits_value_nonneg(s.drop_last());
    }
}

proof fn lemma_digit_char(d: int)
    requires
        0 <= d < 10,
    ensures
        is_digit(digit_char(d)),
        digit_char(d) as int - '0' as int == d,
{
}

pub proof fn lemma_nat_decimal(n: nat)
    ensures
        nat_decimal(n).len() >= 1,
        forall|k: int| 0 <= k < nat_decimal(n).len() ==> is_digit(#[trigger] nat_decimal(n)[k]),
        digits_value(nat_decimal(n)) == n,
    decreases n,
{
    if n < 10 {
        lemma_digit_char(n as int);
        assert(nat_decimal(n).drop_last() =~= Seq::<char>::empty());
        assert(digits_value(Seq::<char>::empty()) == 0);
        assert(nat_decimal(n).last() == digit_char(n as int));
    } else {
        lemma_nat_decimal(n / 10);
        lemma_digit_char((n % 10) as int);
        let s = nat_decimal(n);
        assert(s.drop_last() == nat_decimal(n / 10));
        assert forall|k: int| 0 <= k < s.len() implies is_digit(#[trigger] s[k]) by {
            if k < s.len() - 1 {
                assert(s[k] == nat_decimal(n / 10)[k]);
            }
        }
        assert(s.last() == digit_char((n % 10) as int));
        assert(digits_value(s) == digits_value(nat_decimal(n / 10)) * 10 + (n % 10));
        assert((n / 10) * 10 + n % 10 == n) by (nonlinear_arith);
    }
}

/// An integer written in decimal is an integer literal, and it reads back as
/// the same integer.
pub proof fn lemma_decimal_roundtrip(n: int)
    ensures
        is_int_literal(int_decimal(n)),
        literal_value(int_decimal(n)) == n,
{
    if n < 0 {
        let m = (-n) as nat;
        lemma_nat_decimal(m);
        let s = int_decimal(n);
        assert(s.drop_first() =~= nat_decimal(m));
        assert forall|k: int| 1 <= k < s.len() implies is_digit(#[trigger] s[k]) by {
            assert(s[k] == nat_decimal(m)[k - 1]);
        }
    } else {
        lemma_nat_decimal(n as nat);
        let s = int_decimal(n);
        assert(is_digit(s[0]));
    }
}

/// Reads an integer literal as an `i32`, as `str::parse::<i32>` does: `None`
/// when its value does not fit.
pub fn parse_i32_literal(s: &Vec<char>, from: usize, to: usize) -> (res: Option<i32>)
    requires
        from <= to <= s.len(),
        is_int_literal(s@.subrange(from as int, to as int)),
    ensures
        ({
            let v = literal_value(s@.subrange(from as int, to as int));
            &&& res is Some <==> i32::MIN <= v <= i32::MAX
            &&& res matches Some(x) ==> x as int == v
        }),
{
    let ghost lit = s@.subrange(from as int, to as int);
    let negative = s[from] == '-';
    let start = if negative {
        from + 1
    } else {
        from
    };
    let ghost digits = s@.subrange(start as int, to as int);
    assert(lit[0] == s@[from as int]);
    assert(negative ==> lit.drop_first() == digits);
    assert(!negative ==> lit == digits);
    // The magnitude grows one digit at a time; stop once it is beyond any i32.
    assert forall|k: int| start <= k < to implies is_digit(#[trigger] s@[k]) by {
        assert(s@[k] == lit[k - from]);
    }
    let mut value: i64 = 0;
    let mut i = start;
    assert(s@.subrange(start as int, start as int) =~= Seq::<char>::empty());
    while i < to
        invariant
            from <= start <= i <= to <= s.len(),
            start < to,
            forall|k: int| start <= k < to ==> is_digit(#[trigger] s@[k]),
            0 <= value <= 0x8000_0000,
            value == digits_value(s@.subrange(start as int, i as int)),
            lit == s@.subrange(from as int, to as int),
            digits == s@.subrange(start as int, to as int),
            negative ==> lit.drop_first() == digits,
            !negative ==> lit == digits,
            negative == (lit[0] == '-'),
        decreases to - i,
    {
        let d = (s[i] as u32 - '0' as u32) as i64;
        assert(s@.subrange(start as int, i + 1).drop_last() == s@.subrange(start as int, i as int));
        assert(is_digit(s@[i as int]));
        let next = value * 10 + d;
        if next > 0x8000_0000 {
            proof {
                let full = s@.subrange(start as int, to as int);
                assert forall|k: int| 0 <= k < full.len() implies is_digit(#[trigger] full[k]) by {
                    assert(full[k] == s@[start + k]);
                }
                lemma_digits_grow(full, (i + 1 - start) as int);
                assert(full.take((i + 1 - start) as int) == s@.subrange(start as int, i + 1));
                assert(digits_value(s@.subrange(start as int, i + 1)) == next);
                assert(digits_value(full) > 0x8000_0000);
                assert(full == digits);
            }
            return None;
        }
        value = next;
        i = i + 1;
    }
    if negative {
        Some((-value) as i32)
    } else if value <= 0x7fff_ffff {
        Some(value as i32)
    } else {
        None
    }
}

/// A longer run of digits is worth at least as much as its prefix.
proof fn lemma_digits_grow(s: Seq<char>, n: int)
    requires
        0 <= n <= s.len(),
        forall|k: int| 0 <= k < s.len() ==> is_digit(#[trigger] s[k]),
    ensures
        digits_value(s) >= digits_value(s.take(n)),
    decreases s.len() - n,
{
    if n < s.len() {
        lemma_digits_grow(s, n + 1);
        assert(s.take(n + 1).drop_last() == s.take(n));
        assert(s.take(n + 1).last() == s[n]);
        assert(is_digit(s[n]));
        assert(s[n] as int - '0' as int >= 0);
        assert forall|k: int| 0 <= k < n implies is_digit(#[trigger] s.take(n)[k]) by {
            assert(s.take(n)[k] == s[k]);
        }
        lemma_digits_value_nonneg(s.take(n));
        assert(digits_value(s.take(n + 1)) == digits_value(s.take(n)) * 10 + (s[n] as int - '0' as int));
    } else {
        assert(s.take(n) == s);
    }
}

} // verus!
